use bpf_linker::di::name::{sanitize_type_name, MAX_KSYM_NAME_LEN};

#[test]
fn test_strip_generics() {
    let name = "MyStruct<u64>";
    assert_eq!(
        sanitize_type_name(name.as_bytes()),
        b"MyStruct_3C_u64_3E_".as_slice()
    );

    let name = "MyStruct<u64, u64>";
    assert_eq!(
        sanitize_type_name(name.as_bytes()),
        b"MyStruct_3C_u64_2C__20_u64_3E_".as_slice()
    );

    let name = "my_function<aya_bpf::BpfContext>";
    assert_eq!(
        sanitize_type_name(name.as_bytes()),
        b"my_function_3C_aya_bpf_3A__3A_BpfContext_3E_".as_slice()
    );

    let name = "my_function<aya_bpf::BpfContext, aya_log_ebpf::WriteToBuf>";
    assert_eq!(
        sanitize_type_name(name.as_bytes()),
        b"my_function_3C_aya_bpf_3A__3A_BpfContext_2C__20_aya_log_ebpf_3A__3A_WriteToBuf_3E_"
            .as_slice()
    );

    let name = "PerfEventArray<[u8; 32]>";
    assert_eq!(
        sanitize_type_name(name.as_bytes()),
        b"PerfEventArray_3C__5B_u8_3B__20_32_5D__3E_".as_slice()
    );

    let name = "my_function<aya_bpf::this::is::a::very::long::namespace::BpfContext, aya_log_ebpf::this::is::a::very::long::namespace::WriteToBuf>";
    let san = sanitize_type_name(name.as_bytes());

    assert_eq!(san.len(), 128);
    assert_eq!(
        san,
        b"my_function_3C_aya_bpf_3A__3A_this_3A__3A_is_3A__3A_a_3A__3A_very_3A__3A_long_3A__3A_namespace_3A__3A_BpfContex_94e4085604b3142f"
            .as_slice()
    );

    let name = "MaybeUninit<u8>";
    assert_eq!(
        sanitize_type_name(name.as_bytes()),
        b"MaybeUninit_3C_u8_3E_".as_slice()
    );
}

#[test]
fn valid_name_keeps_its_spelling() {
    let name = b"Abc_0129_xyzZ".as_slice();
    assert_eq!(sanitize_type_name(name), name);
    assert_eq!(sanitize_type_name(b""), b"");
    let longest = vec![b'a'; MAX_KSYM_NAME_LEN];
    assert_eq!(sanitize_type_name(&longest), longest);
}

#[test]
fn small_bytes_are_written_without_leading_zero() {
    assert_eq!(sanitize_type_name(&[0x0a, 0xff]), b"_A__FF_".as_slice());
}

#[test]
fn long_name_is_cut_and_hashed() {
    let name = vec![b'x'; MAX_KSYM_NAME_LEN + 1];
    let short = sanitize_type_name(&name);
    assert!(short.len() <= MAX_KSYM_NAME_LEN);
    assert_eq!(&short[..111], &name[..111]);
    assert_eq!(short[111], b'_');
    let mut other = name.clone();
    other[MAX_KSYM_NAME_LEN] = b'y';
    assert_ne!(sanitize_type_name(&other), short);
}

#[test]
fn sanitizing_twice_changes_nothing() {
    for name in ["a<b>", "core::fmt::Formatter", "x y\tz"] {
        let once = sanitize_type_name(name.as_bytes());
        assert_eq!(sanitize_type_name(&once), once);
    }
    let long = "ns::".repeat(60);
    let once = sanitize_type_name(long.as_bytes());
    assert_eq!(sanitize_type_name(&once), once);
    assert!(once
        .iter()
        .all(|b| b.is_ascii_alphanumeric() || *b == b'_'));
}
