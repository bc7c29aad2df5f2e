//! How the entries of an archive follow each other.
use vstd::prelude::*;
use vstd::utf8::*;

use crate::archive;
use crate::archive::{Progress, ReadStep, Variant};
use crate::bytes;
use crate::text;

verus! {

/// Whether the name field of a header holds spaces from a place on.
pub open spec fn is_blank_from(header: Seq<u8>, from: int) -> bool {
    forall|i: int| from <= i < 16 ==> #[trigger] header[i] == 0x20
}

/// Whether a header is that of a table of long names: its name is two slashes.
pub open spec fn heads_table(header: Seq<u8>) -> bool {
    header[0] == 0x2f && header[1] == 0x2f && is_blank_from(header, 2)
}

/// Whether a header is that of a symbol table: its name is a slash.
pub open spec fn heads_symbols(header: Seq<u8>) -> bool {
    header[0] == 0x2f && is_blank_from(header, 1)
}

/// Whether a header is that of an entry with a long name: a slash and the number of
/// the byte in the table at which the name starts.
pub open spec fn has_long_name(header: Seq<u8>) -> bool {
    header[0] == 0x2f && !heads_table(header) && !heads_symbols(header)
}

/// The number in a long name, where there is one.
pub open spec fn name_number(header: Seq<u8>) -> Option<u64> {
    archive::field_number(header.subrange(1, 16), 10)
}

/// Whether a header is one of the BSD flavour, with a name in front of the contents.
pub open spec fn has_leading_name(header: Seq<u8>) -> bool {
    header[0] == 0x23 && header[1] == 0x31 && header[2] == 0x2f
}

/// The number of bytes that a header says its entry has.
pub open spec fn stated_size(header: Seq<u8>) -> Option<u64> {
    archive::field_number(header.subrange(48, 58), 10)
}

/// Whether the fields of a header that are no name and no size are numbers.
pub open spec fn has_plain_numbers(header: Seq<u8>) -> bool {
    &&& archive::field_number(header.subrange(16, 28), 10) is Some
    &&& archive::field_number(header.subrange(28, 34), 10) is Some
    &&& archive::field_number(header.subrange(34, 40), 10) is Some
    &&& archive::field_number(header.subrange(40, 48), 8) is Some
}

/// Whether the name in a header starts or ends with a slash.
pub open spec fn has_slash(header: Seq<u8>) -> bool {
    header[0] == 0x2f || exists|i: int|
        0 <= i < 16 && #[trigger] header[i] == 0x2f && is_blank_from(header, i + 1)
}

/// Whether a field is text without anything but white space.
pub open spec fn is_blank(field: Seq<u8>) -> bool {
    valid_utf8(field) && text::trimmed_end(decode_utf8(field)).len() == 0
}

/// Whether the fields of a header that are no name and no size are numbers, or the owner and
/// the group are left blank.
pub open spec fn has_gnu_numbers(header: Seq<u8>) -> bool {
    &&& archive::field_number(header.subrange(16, 28), 10) is Some
    &&& archive::field_number(header.subrange(28, 34), 10) is Some || is_blank(
        header.subrange(28, 34),
    )
    &&& archive::field_number(header.subrange(34, 40), 10) is Some || is_blank(
        header.subrange(34, 40),
    )
    &&& archive::field_number(header.subrange(40, 48), 8) is Some
}

/// Whether an archive is of the GNU flavour with an entry: it was already, or is by the name
/// of the entry.
pub open spec fn is_gnu_with(progress: Progress, header: Seq<u8>) -> bool {
    progress.variant == Variant::Gnu || progress.variant != Variant::Bsd && has_slash(header)
}

/// Whether the name in a header is that of a symbol table in the BSD flavour.
pub open spec fn heads_bsd_symbols(header: Seq<u8>) -> bool {
    let name = archive::without_padding(header.subrange(0, 16), 0x20);
    name == bytes::ascii("__.SYMDEF"@) || name == bytes::ascii("__.SYMDEF SORTED"@)
}

proof fn lemma_without_padding(s: Seq<u8>)
    ensures
        ({
            let r = archive::without_padding(s, 0x20);
            &&& r.len() <= s.len()
            &&& r == s.take(r.len() as int)
            &&& forall|i: int| r.len() <= i < s.len() ==> #[trigger] s[i] == 0x20
            &&& r.len() > 0 ==> s[r.len() - 1] != 0x20
        }),
    decreases s.len(),
{
    let r = archive::without_padding(s, 0x20);
    if s.len() > 0 && s.last() == 0x20 {
        let front = s.drop_last();
        lemma_without_padding(front);
        assert(r =~= s.take(r.len() as int));
        assert forall|i: int| r.len() <= i < s.len() implies #[trigger] s[i] == 0x20 by {
            if i < front.len() {
                assert(front[i] == s[i]);
            }
        }
        if r.len() > 0 {
            assert(front[r.len() - 1] == s[r.len() - 1]);
        }
    } else {
        assert(s.take(s.len() as int) =~= s);
    }
}

/// What the name field of a header says about the entry.
#[verifier::rlimit(40)]
#[verifier::spinoff_prover]
proof fn lemma_id(header: Seq<u8>)
    requires
        header.len() == 60,
    ensures
        ({
            let id = archive::without_padding(header.subrange(0, 16), 0x20);
            &&& id.len() <= 16
            &&& forall|i: int| 0 <= i < id.len() ==> #[trigger] id[i] == header[i]
            &&& id.len() > 0 && id[0] == 0x2f <==> header[0] == 0x2f
            &&& header[0] == 0x2f ==> (id.len() == 1 <==> heads_symbols(header))
            &&& id == seq![0x2fu8, 0x2f] <==> heads_table(header)
            &&& bytes::begins_with(id, bytes::ascii("#1/"@)) <==> has_leading_name(header)
        }),
{
    let field = header.subrange(0, 16);
    let id = archive::without_padding(field, 0x20);
    lemma_without_padding(field);
    assert forall|i: int| 0 <= i < 16 implies header[i] == #[trigger] field[i] by {}
    assert forall|i: int| 0 <= i < id.len() implies #[trigger] id[i] == header[i] by {
        assert(field.take(id.len() as int)[i] == field[i]);
    }
    assert forall|i: int| id.len() <= i < 16 implies #[trigger] header[i] == 0x20 by {
        assert(field[i] == 0x20);
    }
    if id.len() > 0 {
        assert(header[id.len() - 1] == field[id.len() - 1]);
    }
    if heads_symbols(header) {
        assert(id.len() >= 1);
        if id.len() > 1 {
            assert(header[id.len() - 1] == 0x20);
        }
    }
    if heads_table(header) {
        assert(id.len() >= 2);
        if id.len() > 2 {
            assert(header[id.len() - 1] == 0x20);
        }
        assert(id =~= seq![0x2fu8, 0x2f]);
    }
    if id == seq![0x2fu8, 0x2f] {
        assert(id[0] == header[0] && id[1] == header[1]);
    }
    reveal_strlit("#1/");
    let mark = bytes::ascii("#1/"@);
    assert(mark =~= seq![0x23u8, 0x31, 0x2f]);
    if has_leading_name(header) {
        assert(id.len() >= 3);
        assert(id.subrange(0, 3) =~= mark);
    }
    if bytes::begins_with(id, mark) {
        let start = id.subrange(0, 3);
        assert(start[0] == id[0] && start[1] == id[1] && start[2] == id[2]);
    }
}

proof fn lemma_slash(header: Seq<u8>)
    requires
        header.len() == 60,
    ensures
        ({
            let id = archive::without_padding(header.subrange(0, 16), 0x20);
            has_slash(header) == (id.len() > 0 && (id[0] == 0x2f || id.last() == 0x2f))
        }),
{
    let field = header.subrange(0, 16);
    let id = archive::without_padding(field, 0x20);
    let last_slash = id.len() > 0 && id.last() == 0x2f;
    lemma_id(header);
    lemma_without_padding(field);
    assert((id.len() > 0 && id[0] == 0x2f || last_slash) == has_slash(header)) by {
        if last_slash {
            let i = id.len() - 1;
            assert(header[i] == 0x2f);
            assert forall|j: int| i + 1 <= j < 16 implies #[trigger] header[j] == 0x20 by {
                assert(field[j] == 0x20);
            }
        }
        if exists|i: int| 0 <= i < 16 && #[trigger] header[i] == 0x2f && is_blank_from(
            header,
            i + 1,
        ) {
            let i = choose|i: int|
                0 <= i < 16 && #[trigger] header[i] == 0x2f && is_blank_from(header, i + 1);
            assert(field[i] == 0x2f);
            assert(id.len() > i);
            if id.len() > i + 1 {
                assert(header[id.len() - 1] == 0x20);
                assert(field[id.len() - 1] == 0x20);
            }
        }
    }
}

/// Where the header stands that is read next.
pub open spec fn next_header(data: Seq<u8>, progress: Progress) -> int {
    if progress.padding && progress.pos < data.len() {
        progress.pos + 1
    } else {
        progress.pos as int
    }
}

/// The header that is read next.
pub open spec fn header_of(data: Seq<u8>, progress: Progress) -> Seq<u8> {
    let at = next_header(data, progress);
    data.subrange(at, at + 60)
}

/// The end of an entry, or that of the archive where it is cut off.
pub open spec fn entry_end(data: Seq<u8>, progress: Progress) -> int {
    let end = next_header(data, progress) + 60 + stated_size(header_of(data, progress))->Some_0;
    if end <= data.len() {
        end
    } else {
        data.len() as int
    }
}

/// Behind an entry the next one is looked for at its end, with a padding byte where
/// its contents are odd in number. The table of long names stays in force until
/// another one is read, whatever entries come in between. An archive is of the GNU
/// flavour once a name starts or ends with a slash, and of the BSD flavour once a name
/// stands in front of the contents.
#[verifier::rlimit(40)]
#[verifier::spinoff_prover]
pub proof fn entry_is_skipped(data: Seq<u8>, progress: Progress)
    requires
        progress.pos <= data.len() <= usize::MAX,
        archive::read_step(data, progress) is Next,
    ensures
        ({
            let next = archive::read_step(data, progress)->Next_0;
            let header = header_of(data, progress);
            let body = next_header(data, progress) + 60;
            let leads = progress.variant != Variant::Gnu && !is_gnu_with(progress, header)
                && has_leading_name(header);
            let listed = progress.variant != Variant::Bsd && (heads_symbols(header) || heads_table(
                header,
            ));
            &&& progress.padding && progress.pos < data.len() ==> data[progress.pos as int] == 0x0a
            &&& body <= next.pos <= data.len()
            &&& stated_size(header) is Some
            &&& next.table_len == (if progress.variant != Variant::Bsd && heads_table(header) {
                stated_size(header)->Some_0
            } else {
                progress.table_len
            })
            &&& progress.variant != Variant::Bsd && heads_table(header) ==> body + stated_size(
                header,
            )->Some_0 <= data.len()
            &&& progress.variant != Variant::Bsd && has_long_name(header) ==> name_number(header)
                is Some && name_number(header)->Some_0 <= progress.table_len
            &&& listed || (if is_gnu_with(progress, header) {
                has_gnu_numbers(header)
            } else {
                has_plain_numbers(header)
            })
            &&& next.pos == (if progress.variant == Variant::Bsd && heads_bsd_symbols(header) {
                body
            } else {
                entry_end(data, progress)
            })
            &&& next.padding == ((stated_size(header)->Some_0 - (if leads {
                archive::field_number(header.subrange(3, 16), 10)->Some_0 as int
            } else {
                0
            })) % 2 != 0)
            &&& next.variant == (if is_gnu_with(progress, header) {
                Variant::Gnu
            } else if leads {
                Variant::Bsd
            } else {
                progress.variant
            })
        }),
{
    let header = header_of(data, progress);
    assert(header.len() == 60);
    let id = archive::without_padding(header.subrange(0, 16), 0x20);
    lemma_id(header);
    lemma_slash(header);
    reveal_strlit("#1/");
    let mark = bytes::ascii("#1/"@);
    assert(mark =~= seq![0x23u8, 0x31, 0x2f]);
    let none = Seq::<u8>::empty();
    assert(!bytes::begins_with(none, mark));
    reveal_strlit("__.SYMDEF");
    reveal_strlit("__.SYMDEF SORTED");
    if has_leading_name(header) {
        assert(id[0] == 0x23);
        assert(bytes::ascii("__.SYMDEF"@)[0] == 0x5f);
        assert(bytes::ascii("__.SYMDEF SORTED"@)[0] == 0x5f);
    }
}

/// A whole entry of the GNU or common flavour is read: its fields are numbers, and its
/// long name, if it has one, starts within the table in force.
#[verifier::rlimit(40)]
#[verifier::spinoff_prover]
pub proof fn whole_entry_is_read(data: Seq<u8>, progress: Progress)
    requires
        progress.pos <= data.len() <= usize::MAX,
        progress.variant != Variant::Bsd,
        progress.padding && progress.pos < data.len() ==> data[progress.pos as int] == 0x0a,
        next_header(data, progress) + 60 <= data.len(),
        stated_size(header_of(data, progress)) is Some,
        next_header(data, progress) + 60 + stated_size(header_of(data, progress))->Some_0
            <= data.len(),
        !has_leading_name(header_of(data, progress)),
        heads_symbols(header_of(data, progress)) || heads_table(header_of(data, progress))
            || has_plain_numbers(header_of(data, progress)) || is_gnu_with(
            progress,
            header_of(data, progress),
        ) && has_gnu_numbers(header_of(data, progress)),
        has_long_name(header_of(data, progress)) ==> name_number(header_of(data, progress)) is Some
            && name_number(header_of(data, progress))->Some_0 <= progress.table_len,
    ensures
        archive::read_step(data, progress) is Next,
{
    let header = header_of(data, progress);
    let id = archive::without_padding(header.subrange(0, 16), 0x20);
    lemma_id(header);
    lemma_slash(header);
    reveal_strlit("#1/");
    let mark = bytes::ascii("#1/"@);
    assert(mark =~= seq![0x23u8, 0x31, 0x2f]);
    assert(!bytes::begins_with(Seq::<u8>::empty(), mark));
    assert(archive::skip_padding(data, progress) == Some(next_header(data, progress) as usize));
    if header[0] == 0x2f {
        if heads_symbols(header) || heads_table(header) {
            assert(archive::read_step(data, progress) is Next);
        } else {
            assert(archive::read_step(data, progress) is Next);
        }
    } else {
        assert(!heads_symbols(header) && !heads_table(header));
        assert(archive::read_step(data, progress) is Next);
    }
}

/// How far an archive has been read after a number of entries.
pub open spec fn progress_after(data: Seq<u8>, n: nat) -> Option<Progress>
    decreases n,
{
    if n == 0 {
        Some(Progress { pos: 8, variant: Variant::Common, table_len: 0, padding: false })
    } else {
        match progress_after(data, (n - 1) as nat) {
            None => None,
            Some(before) => match archive::read_step(data, before) {
                ReadStep::Next(next) => Some(next),
                _ => None,
            },
        }
    }
}

/// The length of the table of long names that stands in front of entry `n`: that of
/// the last one among the entries before it, or zero.
pub open spec fn table_in_front(data: Seq<u8>, n: nat) -> u64
    decreases n,
{
    if n == 0 {
        0
    } else {
        let before = progress_after(data, (n - 1) as nat)->Some_0;
        let header = header_of(data, before);
        if before.variant != Variant::Bsd && heads_table(header) {
            stated_size(header)->Some_0
        } else {
            table_in_front(data, (n - 1) as nat)
        }
    }
}

/// Whether entry `n` of an archive is reached and has a long name that starts beyond
/// the table in front of it.
pub open spec fn is_beyond_table(data: Seq<u8>, n: nat) -> bool {
    match progress_after(data, n) {
        None => false,
        Some(progress) => {
            let header = header_of(data, progress);
            &&& progress.variant != Variant::Bsd
            &&& progress.padding && progress.pos < data.len() ==> data[progress.pos as int] == 0x0a
            &&& next_header(data, progress) + 60 <= data.len()
            &&& stated_size(header) is Some
            &&& has_long_name(header)
            &&& name_number(header) is Some
            &&& name_number(header)->Some_0 > table_in_front(data, n)
        },
    }
}

proof fn lemma_progress(data: Seq<u8>, n: nat)
    requires
        8 <= data.len() <= usize::MAX,
    ensures
        progress_after(data, n) is Some ==> progress_after(data, n)->Some_0.pos <= data.len(),
        progress_after(data, n) is Some ==> progress_after(data, n)->Some_0.table_len
            == table_in_front(data, n),
    decreases n,
{
    if n > 0 && progress_after(data, n) is Some {
        lemma_progress(data, (n - 1) as nat);
        entry_is_skipped(data, progress_after(data, (n - 1) as nat)->Some_0);
    }
}

/// However many entries stand between a table of long names and an entry, the table
/// that counts for the entry is the last one in front of it.
pub proof fn table_stays_in_force(data: Seq<u8>, n: nat)
    requires
        8 <= data.len() <= usize::MAX,
        progress_after(data, n) is Some,
    ensures
        progress_after(data, n)->Some_0.table_len == table_in_front(data, n),
{
    lemma_progress(data, n);
}

/// Where reading stops at a name.
#[verifier::rlimit(40)]
#[verifier::spinoff_prover]
proof fn lemma_bad_name(data: Seq<u8>, progress: Progress)
    requires
        progress.pos <= data.len() <= usize::MAX,
    ensures
        archive::read_step(data, progress) is BadName <==> {
            let header = header_of(data, progress);
            &&& progress.variant != Variant::Bsd
            &&& progress.padding && progress.pos < data.len() ==> data[progress.pos as int] == 0x0a
            &&& next_header(data, progress) + 60 <= data.len()
            &&& stated_size(header) is Some
            &&& has_long_name(header)
            &&& name_number(header) is Some
            &&& name_number(header)->Some_0 > progress.table_len
        },
{
    if progress.padding && progress.pos < data.len() && data[progress.pos as int] != 0x0a {
        assert(archive::skip_padding(data, progress) is None);
    } else {
        let at = next_header(data, progress);
        assert(archive::skip_padding(data, progress) == Some(at as usize));
        if at + 60 <= data.len() {
            let header = header_of(data, progress);
            let current = Progress { padding: false, ..progress };
            lemma_id(header);
            assert(archive::read_step(data, progress) == archive::read_header(
                data,
                current,
                at as usize,
            ));
            lemma_bad_header_name(data, current, at as usize);
        }
    }
}

#[verifier::rlimit(40)]
#[verifier::spinoff_prover]
proof fn lemma_bad_header_name(data: Seq<u8>, progress: Progress, at: usize)
    requires
        at + 60 <= data.len() <= usize::MAX,
    ensures
        archive::read_header(data, progress, at) is BadName <==> {
            let header = data.subrange(at as int, at + 60);
            &&& progress.variant != Variant::Bsd
            &&& stated_size(header) is Some
            &&& has_long_name(header)
            &&& name_number(header) is Some
            &&& name_number(header)->Some_0 > progress.table_len
        },
{
    let header = data.subrange(at as int, at + 60);
    lemma_id(header);
    if header[0] == 0x2f && progress.variant != Variant::Bsd {
        assert(has_long_name(header) == (!heads_symbols(header) && !heads_table(header)));
    }
}

proof fn lemma_bad_step(data: Seq<u8>, n: nat)
    requires
        8 <= data.len() <= usize::MAX,
        progress_after(data, n) is Some,
    ensures
        archive::read_step(data, progress_after(data, n)->Some_0) is BadName <==> is_beyond_table(
            data,
            n,
        ),
{
    lemma_progress(data, n);
    lemma_bad_name(data, progress_after(data, n)->Some_0);
}

proof fn lemma_no_bad_header(data: Seq<u8>, n: nat)
    requires
        8 <= data.len() <= usize::MAX,
        progress_after(data, n) is Some,
        forall|m: nat| !#[trigger] is_beyond_table(data, m),
    ensures
        archive::bad_header(data, progress_after(data, n)->Some_0) is None,
    decreases data.len() - progress_after(data, n)->Some_0.pos,
{
    let progress = progress_after(data, n)->Some_0;
    lemma_progress(data, n);
    lemma_bad_step(data, n);
    if let ReadStep::Next(next) = archive::read_step(data, progress) {
        entry_is_skipped(data, progress);
        let m = n + 1;
        assert(progress_after(data, m) == Some(next));
        lemma_no_bad_header(data, m);
    }
}

/// If no long name starts beyond the table in front of it, the whole archive is
/// readable.
pub proof fn names_within_their_table_are_readable(data: Seq<u8>)
    requires
        data.len() <= usize::MAX,
        forall|n: nat| !#[trigger] is_beyond_table(data, n),
    ensures
        archive::is_readable(data),
        archive::readable_part(data) == data,
{
    if bytes::begins_with(data, archive::global_header()) {
        lemma_no_bad_header(data, 0);
    }
}

proof fn lemma_bad_header(data: Seq<u8>, n: nat, k: nat)
    requires
        8 <= data.len() <= usize::MAX,
        n <= k,
        is_beyond_table(data, k),
        progress_after(data, n) is Some,
    ensures
        archive::bad_header(data, progress_after(data, n)->Some_0) == Some(
            next_header(data, progress_after(data, k)->Some_0),
        ),
    decreases k - n,
{
    let progress = progress_after(data, n)->Some_0;
    lemma_progress(data, n);
    lemma_bad_step(data, n);
    if n < k {
        let m = n + 1;
        lemma_reached(data, m, k);
        entry_is_skipped(data, progress);
        lemma_bad_header(data, m, k);
    } else {
        assert(archive::read_step(data, progress) is BadName);
    }
}

proof fn lemma_reached(data: Seq<u8>, m: nat, k: nat)
    requires
        m <= k,
        progress_after(data, k) is Some,
    ensures
        progress_after(data, m) is Some,
    decreases k - m,
{
    if m < k {
        lemma_reached(data, m, (k - 1) as nat);
    }
}

/// A long name that starts beyond the table in front of it makes an archive
/// unreadable: what can be read ends in front of the header of that entry.
pub proof fn name_beyond_its_table_ends_the_readable_part(data: Seq<u8>, k: nat)
    requires
        data.len() <= usize::MAX,
        data.len() >= 8,
        data.subrange(0, 8) == seq![0x21u8, 0x3c, 0x61, 0x72, 0x63, 0x68, 0x3e, 0x0a],
        is_beyond_table(data, k),
    ensures
        !archive::is_readable(data),
        archive::readable_part(data) == data.take(
            next_header(data, progress_after(data, k)->Some_0),
        ),
{
    lemma_reached(data, 0, k);
    lemma_bad_header(data, 0, k);
}

/// What does not begin with `!<arch>` and a line feed is left to be refused as a whole.
pub proof fn other_files_are_left_whole(data: Seq<u8>)
    requires
        data.len() < 8 || data.subrange(0, 8) != seq![
            0x21u8,
            0x3c,
            0x61,
            0x72,
            0x63,
            0x68,
            0x3e,
            0x0a,
        ],
    ensures
        archive::is_readable(data),
        archive::readable_part(data) == data,
{
}

/// The bytes of an entry: its header, its contents, and a line feed behind an odd
/// number of those.
pub open spec fn entry_bytes(header: Seq<u8>, contents: Seq<u8>) -> Seq<u8> {
    header + contents + (if contents.len() % 2 == 1 {
        seq![0x0au8]
    } else {
        Seq::empty()
    })
}

/// The bytes of a list of entries, each a header and contents.
pub open spec fn packed(entries: Seq<(Seq<u8>, Seq<u8>)>) -> Seq<u8>
    decreases entries.len(),
{
    if entries.len() == 0 {
        Seq::empty()
    } else {
        packed(entries.drop_last()) + entry_bytes(entries.last().0, entries.last().1)
    }
}

/// An archive of a list of entries.
pub open spec fn archive_of(entries: Seq<(Seq<u8>, Seq<u8>)>) -> Seq<u8> {
    seq![0x21u8, 0x3c, 0x61, 0x72, 0x63, 0x68, 0x3e, 0x0a] + packed(entries)
}

/// Whether a header and contents make up an entry of the GNU or common flavour.
pub open spec fn is_entry(header: Seq<u8>, contents: Seq<u8>) -> bool {
    &&& header.len() == 60
    &&& contents.len() <= u64::MAX
    &&& stated_size(header) == Some(contents.len() as u64)
    &&& !has_leading_name(header)
    &&& heads_symbols(header) || heads_table(header) || has_plain_numbers(header) || has_slash(
        header,
    ) && has_gnu_numbers(header)
    &&& has_long_name(header) ==> name_number(header) is Some
}

/// The length of the last table of long names among the first `n` entries.
pub open spec fn table_before(entries: Seq<(Seq<u8>, Seq<u8>)>, n: nat) -> nat
    decreases n,
{
    if n == 0 {
        0
    } else if heads_table(entries[n - 1].0) {
        entries[n - 1].1.len()
    } else {
        table_before(entries, (n - 1) as nat)
    }
}

/// Whether the long name of an entry, if it has one, starts within the table in front
/// of it.
pub open spec fn is_named(entries: Seq<(Seq<u8>, Seq<u8>)>, n: int) -> bool {
    has_long_name(entries[n].0) ==> name_number(entries[n].0)->Some_0 <= table_before(
        entries,
        n as nat,
    )
}

/// The bytes in front of entry `n` of an archive.
pub open spec fn length_before(entries: Seq<(Seq<u8>, Seq<u8>)>, n: int) -> int {
    8 + packed(entries.take(n)).len() as int
}

proof fn lemma_packed(entries: Seq<(Seq<u8>, Seq<u8>)>, n: int)
    requires
        0 <= n < entries.len(),
    ensures
        ({
            let data = archive_of(entries);
            let at = length_before(entries, n);
            let entry = entry_bytes(entries[n].0, entries[n].1);
            &&& length_before(entries, n + 1) == at + entry.len()
            &&& length_before(entries, n + 1) <= data.len()
            &&& data.subrange(at, at + entry.len()) == entry
            &&& data.take(at) == archive_of(entries.take(n))
        }),
    decreases entries.len(),
{
    let data = archive_of(entries);
    let at = length_before(entries, n);
    let entry = entry_bytes(entries[n].0, entries[n].1);
    assert(entries.take(n + 1).drop_last() =~= entries.take(n));
    assert(entries.take(n + 1).last() == entries[n]);
    if n == entries.len() - 1 {
        assert(entries.take(n + 1) =~= entries);
        assert(data.subrange(at, at + entry.len()) =~= entry);
        assert(data.take(at) =~= archive_of(entries.take(n)));
    } else {
        let front = entries.drop_last();
        lemma_packed(front, n);
        assert(front.take(n) =~= entries.take(n));
        assert(front.take(n + 1) =~= entries.take(n + 1));
        let start = archive_of(front);
        assert(data =~= start + entry_bytes(entries.last().0, entries.last().1));
        assert(data.subrange(at, at + entry.len()) =~= start.subrange(at, at + entry.len()));
        assert(data.take(at) =~= start.take(at));
    }
}

proof fn lemma_packed_end(entries: Seq<(Seq<u8>, Seq<u8>)>)
    ensures
        length_before(entries, entries.len() as int) == archive_of(entries).len(),
        length_before(entries, 0) == 8,
{
    assert(entries.take(entries.len() as int) =~= entries);
    assert(entries.take(0).len() == 0);
}

/// Where the reader is in front of entry `n`.
spec fn is_in_front(entries: Seq<(Seq<u8>, Seq<u8>)>, n: nat, progress: Progress) -> bool {
    let data = archive_of(entries);
    &&& progress.variant != Variant::Bsd
    &&& progress.table_len == table_before(entries, n)
    &&& next_header(data, progress) == length_before(entries, n as int)
    &&& progress.padding ==> progress.pos < data.len() && data[progress.pos as int] == 0x0a
}

/// The header that is read in front of entry `n` is that of the entry.
proof fn lemma_header(entries: Seq<(Seq<u8>, Seq<u8>)>, n: int, progress: Progress)
    requires
        0 <= n < entries.len(),
        entries[n].0.len() == 60,
        next_header(archive_of(entries), progress) == length_before(entries, n),
    ensures
        header_of(archive_of(entries), progress) == entries[n].0,
{
    let data = archive_of(entries);
    let at = length_before(entries, n);
    let header = entries[n].0;
    lemma_packed(entries, n);
    let found = data.subrange(at, at + entry_bytes(header, entries[n].1).len());
    assert forall|i: int| 0 <= i < 60 implies header_of(data, progress)[i] == header[i] by {
        assert(header_of(data, progress)[i] == found[i]);
    }
    assert(header_of(data, progress) =~= header);
}

/// No entry of an archive of named entries is beyond its table.
proof fn lemma_not_beyond(entries: Seq<(Seq<u8>, Seq<u8>)>, n: nat)
    requires
        archive_of(entries).len() <= usize::MAX,
        forall|i: int| 0 <= i < entries.len() ==> is_entry((#[trigger] entries[i]).0, entries[i].1),
        forall|i: int| 0 <= i < entries.len() ==> #[trigger] is_named(entries, i),
    ensures
        !is_beyond_table(archive_of(entries), n),
{
    let data = archive_of(entries);
    lemma_packed_end(entries);
    if n <= entries.len() {
        lemma_in_front(entries, n);
        lemma_progress(data, n);
        if n < entries.len() {
            assert(is_entry(entries[n as int].0, entries[n as int].1));
            assert(is_named(entries, n as int));
            lemma_header(entries, n as int, progress_after(data, n)->Some_0);
        }
    } else {
        let end = entries.len();
        lemma_in_front(entries, end);
        let behind = end + 1;
        assert(progress_after(data, behind) is None);
        if progress_after(data, n) is Some {
            lemma_reached(data, behind, n);
        }
    }
}

#[verifier::rlimit(40)]
#[verifier::spinoff_prover]
proof fn lemma_in_front(entries: Seq<(Seq<u8>, Seq<u8>)>, n: nat)
    requires
        n <= entries.len(),
        archive_of(entries).len() <= usize::MAX,
        forall|i: int| 0 <= i < entries.len() ==> is_entry((#[trigger] entries[i]).0, entries[i].1),
        forall|i: int| 0 <= i < n ==> #[trigger] is_named(entries, i),
    ensures
        progress_after(archive_of(entries), n) is Some,
        is_in_front(entries, n, progress_after(archive_of(entries), n)->Some_0),
    decreases n,
{
    let data = archive_of(entries);
    if n == 0 {
        lemma_packed_end(entries);
    } else {
        let m = (n - 1) as nat;
        lemma_in_front(entries, m);
        lemma_packed(entries, m as int);
        let before = progress_after(data, m)->Some_0;
        let at = length_before(entries, m as int);
        let (header, contents) = entries[m as int];
        let entry = entry_bytes(header, contents);
        assert(is_entry(header, contents));
        assert(is_named(entries, m as int));
        let found = data.subrange(at, at + entry.len());
        lemma_header(entries, m as int, before);
        whole_entry_is_read(data, before);
        entry_is_skipped(data, before);
        let next = progress_after(data, n)->Some_0;
        assert(next.pos == at + 60 + contents.len());
        if contents.len() % 2 == 1 {
            assert(found[60 + contents.len() as int] == 0x0a);
            assert(data[next.pos as int] == found[60 + contents.len() as int]);
        }
    }
}

/// An archive of whole entries, in which no long name starts beyond the last table in
/// front of it, is readable as a whole, however many entries stand between the table
/// and the name.
pub proof fn archive_of_named_entries_is_readable(entries: Seq<(Seq<u8>, Seq<u8>)>)
    requires
        archive_of(entries).len() <= usize::MAX,
        forall|i: int| 0 <= i < entries.len() ==> is_entry((#[trigger] entries[i]).0, entries[i].1),
        forall|i: int| 0 <= i < entries.len() ==> #[trigger] is_named(entries, i),
    ensures
        archive::is_readable(archive_of(entries)),
        archive::readable_part(archive_of(entries)) == archive_of(entries),
{
    let data = archive_of(entries);
    assert forall|n: nat| !#[trigger] is_beyond_table(data, n) by {
        lemma_not_beyond(entries, n);
    }
    names_within_their_table_are_readable(data);
}

/// The first entry whose long name starts beyond the last table in front of it ends
/// what can be read of an archive: that is the archive of the entries in front of it.
pub proof fn archive_is_readable_up_to_the_first_unnamed_entry(
    entries: Seq<(Seq<u8>, Seq<u8>)>,
    k: nat,
)
    requires
        archive_of(entries).len() <= usize::MAX,
        forall|i: int| 0 <= i < entries.len() ==> is_entry((#[trigger] entries[i]).0, entries[i].1),
        k < entries.len(),
        forall|i: int| 0 <= i < k ==> #[trigger] is_named(entries, i),
        !is_named(entries, k as int),
    ensures
        !archive::is_readable(archive_of(entries)),
        archive::readable_part(archive_of(entries)) == archive_of(entries.take(k as int)),
{
    let data = archive_of(entries);
    lemma_in_front(entries, k);
    lemma_progress(data, k);
    lemma_packed(entries, k as int);
    let progress = progress_after(data, k)->Some_0;
    assert(is_entry(entries[k as int].0, entries[k as int].1));
    lemma_header(entries, k as int, progress);
    assert(is_beyond_table(data, k));
    assert(data.subrange(0, 8) =~= seq![0x21u8, 0x3c, 0x61, 0x72, 0x63, 0x68, 0x3e, 0x0a]);
    name_beyond_its_table_ends_the_readable_part(data, k);
}

/// A field of a header that holds a number in decimal, with spaces behind it, is that
/// number.
pub proof fn padded_number_is_read(n: u64, spaces: nat)
    ensures
        archive::field_number(
            bytes::ascii(text::decimal(n as nat) + Seq::new(spaces, |i: int| ' ')),
            10,
        ) == Some(n),
{
    let digits = text::decimal(n as nat);
    let blank = Seq::new(spaces, |i: int| ' ');
    let chars = digits + blank;
    let field = bytes::ascii(chars);
    text::decimal_reads_back(n as nat);
    assert forall|i: int| 0 <= i < chars.len() implies (#[trigger] chars[i]) as nat <= 127 by {
        if i < digits.len() {
            assert(chars[i] == digits[i]);
        }
    }
    assert(is_ascii_chars(chars));
    is_ascii_chars_encode_utf8(chars);
    assert(encode_utf8(chars) =~= field);
    encode_utf8_valid_utf8(chars);
    encode_utf8_decode_utf8(chars);
    assert('0' <= digits[digits.len() - 1] <= '9');
    text::trimming_removes_white_space(digits, blank);
}

/// A field of spaces is blank.
pub proof fn spaces_are_blank(spaces: nat)
    ensures
        is_blank(bytes::ascii(Seq::new(spaces, |i: int| ' '))),
{
    let none = Seq::<char>::empty();
    let chars = Seq::new(spaces, |i: int| ' ');
    assert(is_ascii_chars(chars));
    is_ascii_chars_encode_utf8(chars);
    assert(encode_utf8(chars) =~= bytes::ascii(chars));
    encode_utf8_valid_utf8(chars);
    encode_utf8_decode_utf8(chars);
    text::trimming_removes_white_space(none, chars);
    assert(none + chars =~= chars);
}

/// A field of a header is read as text, whose white space at the end does not count: it is
/// the number that `u64::from_str_radix` takes the rest for. Where a field may be blank, that
/// counts as zero.
pub proof fn fields_are_read_as_text(field: Seq<u8>, radix: u32)
    ensures
        valid_utf8(field) ==> archive::field_number(field, radix) == text::radix_value(
            text::trimmed_end(decode_utf8(field)),
            radix,
        ),
        !valid_utf8(field) ==> archive::field_number(field, radix) is None,
        archive::optional_field_number(field, radix) == (if is_blank(field) {
            Some(0u64)
        } else {
            archive::field_number(field, radix)
        }),
{
}

} // verus!
