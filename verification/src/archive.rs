//! Static libraries.
use std::io::Read;

use vstd::prelude::*;
use vstd::utf8::*;

use crate::bytes;
use crate::text;

verus! {

/// The number of bytes in front of the first entry.
pub const GLOBAL_HEADER_LEN: usize = 8;

/// The number of bytes in the header of an entry.
pub const ENTRY_HEADER_LEN: usize = 60;

/// The flavours of the archive format.
#[derive(Clone, Copy, Debug, PartialEq, Eq, Structural)]
pub enum Variant {
    Common,
    Bsd,
    Gnu,
}

/// How far an archive has been read: the position, the flavour it appears to
/// have, the length of its table of long names, and whether a padding byte is
/// due.
#[derive(Clone, Copy, Debug, PartialEq, Eq, Structural)]
pub struct Progress {
    pub pos: usize,
    pub variant: Variant,
    pub table_len: u64,
    pub padding: bool,
}

/// What reading an entry leads to: the end of the archive or an error, the next
/// position, or the name of an entry that starts beyond the table of names.
#[derive(Clone, Copy, Debug, PartialEq, Eq, Structural)]
pub enum ReadStep {
    Stop,
    Next(Progress),
    BadName,
}

/// `!<arch>` and a line feed.
pub open spec fn global_header() -> Seq<u8> {
    seq![0x21u8, 0x3c, 0x61, 0x72, 0x63, 0x68, 0x3e, 0x0a]
}

/// A byte string without the bytes `pad` at its end.
pub open spec fn without_padding(s: Seq<u8>, pad: u8) -> Seq<u8>
    decreases s.len(),
{
    if s.len() > 0 && s.last() == pad {
        without_padding(s.drop_last(), pad)
    } else {
        s
    }
}

/// The number in a field of an entry header.
pub open spec fn field_number(field: Seq<u8>, radix: u32) -> Option<u64> {
    if valid_utf8(field) {
        text::radix_value(text::trimmed_end(decode_utf8(field)), radix)
    } else {
        None
    }
}

/// The number in a field that may be blank.
pub open spec fn optional_field_number(field: Seq<u8>, radix: u32) -> Option<u64> {
    if valid_utf8(field) && text::trimmed_end(decode_utf8(field)).len() == 0 {
        Some(0)
    } else {
        field_number(field, radix)
    }
}

/// The name of a symbol table in the BSD flavour.
pub open spec fn is_bsd_symbol_table(name: Seq<u8>) -> bool {
    name == bytes::ascii("__.SYMDEF"@) || name == bytes::ascii("__.SYMDEF SORTED"@)
}

/// Skips `size` bytes, or what is left.
pub open spec fn skip(data: Seq<u8>, pos: int, size: u64) -> usize {
    (if size <= data.len() - pos {
        pos + size
    } else {
        data.len() as int
    }) as usize
}

/// The position of the next header, where the padding byte in front of it is
/// valid.
pub open spec fn skip_padding(data: Seq<u8>, progress: Progress) -> Option<usize> {
    if !progress.padding || progress.pos >= data.len() {
        Some(progress.pos)
    } else if data[progress.pos as int] == 0x0a {
        Some((progress.pos + 1) as usize)
    } else {
        None
    }
}

/// Reads the entry whose header is at `pos`.
pub open spec fn read_header(data: Seq<u8>, progress: Progress, pos: usize) -> ReadStep {
    let header = data.subrange(pos as int, pos + 60);
    let id = without_padding(header.subrange(0, 16), 0x20);
    let body = pos + 60;
    match field_number(header.subrange(48, 58), 10) {
        None => ReadStep::Stop,
        Some(size) => if progress.variant != Variant::Bsd && id.len() > 0 && id[0] == 0x2f {
            read_gnu_header(data, progress, header, id, body, size)
        } else {
            let variant = if progress.variant != Variant::Bsd && id.len() > 0 && id.last()
                == 0x2f {
                Variant::Gnu
            } else {
                progress.variant
            };
            let name = if variant == Variant::Gnu && progress.variant != Variant::Bsd && id.len()
                > 0 && id.last() == 0x2f {
                id.drop_last()
            } else {
                id
            };
            read_plain_header(data, Progress { variant, ..progress }, header, name, body, size)
        },
    }
}

/// Reads an entry whose name starts with a slash: the symbol table, the table of
/// long names, or an entry with a long name.
pub open spec fn read_gnu_header(
    data: Seq<u8>,
    progress: Progress,
    header: Seq<u8>,
    id: Seq<u8>,
    body: int,
    size: u64,
) -> ReadStep {
    let gnu = Progress { variant: Variant::Gnu, padding: size % 2 != 0, ..progress };
    if id.len() == 1 {
        ReadStep::Next(Progress { pos: skip(data, body, size), ..gnu })
    } else if id == seq![0x2fu8, 0x2f] {
        if size > data.len() - body {
            ReadStep::Stop
        } else {
            ReadStep::Next(
                Progress { pos: (body + size) as usize, table_len: size, ..gnu },
            )
        }
    } else {
        match field_number(header.subrange(1, 16), 10) {
            None => ReadStep::Stop,
            Some(start) => if start > progress.table_len {
                ReadStep::BadName
            } else {
                read_plain_header(
                    data,
                    Progress { variant: Variant::Gnu, ..progress },
                    header,
                    Seq::empty(),
                    body,
                    size,
                )
            },
        }
    }
}

/// Reads the other fields of a header and, in the BSD flavour, a long name that
/// stands in front of the contents.
pub open spec fn read_plain_header(
    data: Seq<u8>,
    progress: Progress,
    header: Seq<u8>,
    name: Seq<u8>,
    body: int,
    size: u64,
) -> ReadStep {
    let gnu = progress.variant == Variant::Gnu;
    let owner = header.subrange(28, 34);
    let group = header.subrange(34, 40);
    if field_number(header.subrange(16, 28), 10) is None || (if gnu {
        optional_field_number(owner, 10)
    } else {
        field_number(owner, 10)
    }) is None || (if gnu {
        optional_field_number(group, 10)
    } else {
        field_number(group, 10)
    }) is None || field_number(header.subrange(40, 48), 8) is None {
        ReadStep::Stop
    } else if !gnu && bytes::begins_with(name, bytes::ascii("#1/"@)) {
        match field_number(header.subrange(3, 16), 10) {
            None => ReadStep::Stop,
            Some(padded) => if size < padded || padded > data.len() - body {
                ReadStep::Stop
            } else {
                let rest = (size - padded) as u64;
                ReadStep::Next(
                    Progress {
                        pos: skip(data, body + padded, rest),
                        variant: Variant::Bsd,
                        padding: rest % 2 != 0,
                        ..progress
                    },
                )
            },
        }
    } else if progress.variant == Variant::Bsd && is_bsd_symbol_table(name) {
        ReadStep::Next(Progress { pos: body as usize, padding: size % 2 != 0, ..progress })
    } else {
        ReadStep::Next(
            Progress { pos: skip(data, body, size), padding: size % 2 != 0, ..progress },
        )
    }
}

/// Reads one entry of an archive.
pub open spec fn read_step(data: Seq<u8>, progress: Progress) -> ReadStep {
    match skip_padding(data, progress) {
        None => ReadStep::Stop,
        Some(pos) => if pos + 60 > data.len() {
            ReadStep::Stop
        } else {
            read_header(data, Progress { padding: false, ..progress }, pos)
        },
    }
}

/// Where the header of the first entry from `progress` on stands whose name starts
/// beyond the table of names.
pub open spec fn bad_header(data: Seq<u8>, progress: Progress) -> Option<int>
    decreases data.len() - progress.pos,
{
    match read_step(data, progress) {
        ReadStep::Stop => None,
        ReadStep::BadName => Some(skip_padding(data, progress)->Some_0 as int),
        ReadStep::Next(next) => if next.pos <= progress.pos || next.pos > data.len() {
            None
        } else {
            bad_header(data, next)
        },
    }
}

/// The start of an archive.
pub open spec fn archive_start() -> Progress {
    Progress { pos: GLOBAL_HEADER_LEN, variant: Variant::Common, table_len: 0, padding: false }
}

/// Whether an archive can be read: no entry refers to a name beyond the table of
/// names.
pub open spec fn is_readable(data: Seq<u8>) -> bool {
    bytes::begins_with(data, global_header()) ==> bad_header(data, archive_start()) is None
}

/// The part of an archive in front of the first entry that refers to a name beyond
/// the table of names.
pub open spec fn readable_part(data: Seq<u8>) -> Seq<u8> {
    if is_readable(data) {
        data
    } else {
        data.take(bad_header(data, archive_start())->Some_0)
    }
}

proof fn lemma_cut_header(data: Seq<u8>, progress: Progress, end: int)
    requires
        progress.pos <= end,
        end + 60 <= data.len() <= usize::MAX,
        read_step(data, progress) matches ReadStep::Next(next) && next.pos <= end,
    ensures
        read_step(data.take(end), progress) == read_step(data, progress),
        progress.pos < read_step(data, progress)->Next_0.pos,
{
    let part = data.take(end);
    let pos = skip_padding(data, progress)->Some_0;
    let next = read_step(data, progress)->Next_0;
    assert(pos + 60 <= next.pos);
    assert(skip_padding(part, progress) == skip_padding(data, progress));
    assert(part.subrange(pos as int, pos + 60) =~= data.subrange(pos as int, pos + 60));
}

proof fn lemma_cut(data: Seq<u8>, progress: Progress)
    requires
        progress.pos <= data.len() <= usize::MAX,
        bad_header(data, progress) is Some,
    ensures
        ({
            let end = bad_header(data, progress)->Some_0;
            &&& progress.pos <= end
            &&& end + 60 <= data.len()
            &&& bad_header(data.take(end), progress) is None
        }),
    decreases data.len() - progress.pos,
{
    let end = bad_header(data, progress)->Some_0;
    let part = data.take(end);
    match read_step(data, progress) {
        ReadStep::Stop => {},
        ReadStep::BadName => {
            assert(skip_padding(part, progress) == Some(end as usize));
        },
        ReadStep::Next(next) => {
            lemma_cut(data, next);
            lemma_cut_header(data, progress, end);
            assert(bad_header(part, progress) == bad_header(part, next));
        },
    }
}

/// The readable part of an archive can be read.
pub proof fn readable_part_is_readable(data: Seq<u8>)
    requires
        data.len() <= usize::MAX,
    ensures
        is_readable(readable_part(data)),
{
    if !is_readable(data) {
        lemma_cut(data, archive_start());
        let part = readable_part(data);
        assert(part.subrange(0, 8) =~= data.subrange(0, 8));
    }
}

/// The number in a field of an entry header.
fn parse_number(field: &[u8], radix: u32) -> (r: Option<u64>)
    requires
        2 <= radix <= 36,
    ensures
        r == field_number(field@, radix),
{
    match text::str_from_utf8(field) {
        Some(string) => text::u64_from_str_radix(text::trim_end(string), radix),
        None => None,
    }
}

/// The number in a field that may be blank.
fn parse_number_permitting_empty(field: &[u8], radix: u32) -> (r: Option<u64>)
    requires
        2 <= radix <= 36,
    ensures
        r == optional_field_number(field@, radix),
{
    match text::str_from_utf8(field) {
        Some(string) => {
            let trimmed = text::trim_end(string);
            if trimmed.unicode_len() == 0 {
                Some(0)
            } else {
                text::u64_from_str_radix(trimmed, radix)
            }
        },
        None => None,
    }
}

fn trim_padding<'a>(s: &'a [u8], pad: u8) -> (r: &'a [u8])
    ensures
        r@ == without_padding(s@, pad),
{
    let mut end: usize = s.len();
    assert(s@.take(end as int) =~= s@);
    while end > 0 && s[end - 1] == pad
        invariant
            end <= s@.len(),
            without_padding(s@, pad) == without_padding(s@.take(end as int), pad),
        decreases end,
    {
        assert(s@.take(end as int).drop_last() =~= s@.take(end - 1));
        end = end - 1;
    }
    let r = vstd::slice::slice_subrange(s, 0, end);
    assert(r@ =~= s@.take(end as int));
    r
}

fn skip_bytes(data: &[u8], pos: usize, size: u64) -> (r: usize)
    requires
        pos <= data@.len(),
    ensures
        r == skip(data@, pos as int, size),
        pos <= r <= data@.len(),
{
    if size <= (data.len() - pos) as u64 {
        pos + size as usize
    } else {
        data.len()
    }
}

fn field<'a>(header: &'a [u8], from: usize, to: usize) -> (r: &'a [u8])
    requires
        from <= to <= header@.len(),
    ensures
        r@ == header@.subrange(from as int, to as int),
{
    vstd::slice::slice_subrange(header, from, to)
}

fn plain_step(
    data: &[u8],
    progress: Progress,
    header: &[u8],
    name: &[u8],
    body: usize,
    size: u64,
) -> (r: ReadStep)
    requires
        header@.len() == 60,
        body <= data@.len(),
    ensures
        r == read_plain_header(data@, progress, header@, name@, body as int, size),
        r matches ReadStep::Next(next) ==> body <= next.pos <= data@.len(),
{
    let gnu: bool = match progress.variant {
        Variant::Gnu => true,
        _ => false,
    };
    let owner = field(header, 28, 34);
    let group = field(header, 34, 40);
    if parse_number(field(header, 16, 28), 10).is_none() {
        return ReadStep::Stop;
    }
    let owner_id: Option<u64> = if gnu {
        parse_number_permitting_empty(owner, 10)
    } else {
        parse_number(owner, 10)
    };
    if owner_id.is_none() {
        return ReadStep::Stop;
    }
    let group_id: Option<u64> = if gnu {
        parse_number_permitting_empty(group, 10)
    } else {
        parse_number(group, 10)
    };
    if group_id.is_none() {
        return ReadStep::Stop;
    }
    if parse_number(field(header, 40, 48), 8).is_none() {
        return ReadStep::Stop;
    }
    proof {
        reveal_strlit("#1/");
        reveal_strlit("__.SYMDEF");
        reveal_strlit("__.SYMDEF SORTED");
    }
    if !gnu && bytes::starts_with(name, bytes::literal("#1/")) {
        let padded: u64 = match parse_number(field(header, 3, 16), 10) {
            Some(padded) => padded,
            None => return ReadStep::Stop,
        };
        if size < padded || padded > (data.len() - body) as u64 {
            return ReadStep::Stop;
        }
        let rest: u64 = size - padded;
        let pos: usize = skip_bytes(data, body + padded as usize, rest);
        return ReadStep::Next(
            Progress { pos, variant: Variant::Bsd, padding: rest % 2 != 0, ..progress },
        );
    }
    let bsd: bool = match progress.variant {
        Variant::Bsd => true,
        _ => false,
    };
    if bsd && (bytes::equal(name, bytes::literal("__.SYMDEF")) || bytes::equal(
        name,
        bytes::literal("__.SYMDEF SORTED"),
    )) {
        return ReadStep::Next(Progress { pos: body, padding: size % 2 != 0, ..progress });
    }
    let pos: usize = skip_bytes(data, body, size);
    ReadStep::Next(Progress { pos, padding: size % 2 != 0, ..progress })
}

fn next_step(data: &[u8], progress: Progress) -> (r: ReadStep)
    requires
        progress.pos <= data@.len(),
    ensures
        r == read_step(data@, progress),
        r matches ReadStep::Next(next) ==> progress.pos < next.pos <= data@.len(),
{
    let mut pos: usize = progress.pos;
    if progress.padding && pos < data.len() {
        if data[pos] != 0x0a {
            return ReadStep::Stop;
        }
        pos = pos + 1;
    }
    if data.len() - pos < ENTRY_HEADER_LEN {
        return ReadStep::Stop;
    }
    let current = Progress { padding: false, ..progress };
    let header = field(data, pos, pos + ENTRY_HEADER_LEN);
    let id = trim_padding(field(header, 0, 16), 0x20);
    let body: usize = pos + ENTRY_HEADER_LEN;
    let size: u64 = match parse_number(field(header, 48, 58), 10) {
        Some(size) => size,
        None => return ReadStep::Stop,
    };
    let bsd: bool = match progress.variant {
        Variant::Bsd => true,
        _ => false,
    };
    if !bsd && id.len() > 0 && id[0] == 0x2f {
        let gnu = Progress { variant: Variant::Gnu, padding: size % 2 != 0, ..current };
        if id.len() == 1 {
            return ReadStep::Next(Progress { pos: skip_bytes(data, body, size), ..gnu });
        }
        assert(id@ =~= seq![0x2fu8, 0x2f] <==> id@.len() == 2 && id@[1] == 0x2f);
        if id.len() == 2 && id[1] == 0x2f {
            if size > (data.len() - body) as u64 {
                return ReadStep::Stop;
            }
            return ReadStep::Next(
                Progress { pos: body + size as usize, table_len: size, ..gnu },
            );
        }
        let start: u64 = match parse_number(field(header, 1, 16), 10) {
            Some(start) => start,
            None => return ReadStep::Stop,
        };
        if start > progress.table_len {
            return ReadStep::BadName;
        }
        let empty: &[u8] = field(header, 0, 0);
        assert(empty@ =~= Seq::<u8>::empty());
        return plain_step(
            data,
            Progress { variant: Variant::Gnu, ..current },
            header,
            empty,
            body,
            size,
        );
    }
    if !bsd && id.len() > 0 && id[id.len() - 1] == 0x2f {
        let name = field(id, 0, id.len() - 1);
        assert(name@ =~= id@.drop_last());
        return plain_step(
            data,
            Progress { variant: Variant::Gnu, ..current },
            header,
            name,
            body,
            size,
        );
    }
    plain_step(data, current, header, id, body, size)
}

/// Finds the part of an archive that can be read.
fn find_readable_part<'a>(data: &'a [u8]) -> (r: &'a [u8])
    ensures
        r@ == readable_part(data@),
        r@.len() == data@.len() <==> is_readable(data@),
{
    let magic: [u8; 8] = [0x21, 0x3c, 0x61, 0x72, 0x63, 0x68, 0x3e, 0x0a];
    assert(magic@ =~= global_header());
    if !bytes::starts_with(data, magic.as_slice()) {
        return data;
    }
    let mut progress = Progress {
        pos: GLOBAL_HEADER_LEN,
        variant: Variant::Common,
        table_len: 0,
        padding: false,
    };
    assert(data.len() <= usize::MAX);
    loop
        invariant
            progress.pos <= data@.len() <= usize::MAX,
            bytes::begins_with(data@, global_header()),
            bad_header(data@, archive_start()) == bad_header(data@, progress),
        decreases data@.len() - progress.pos,
    {
        match next_step(data, progress) {
            ReadStep::Stop => return data,
            ReadStep::BadName => {
                proof {
                    lemma_cut(data@, archive_start());
                }
                let end: usize = if progress.padding && progress.pos < data.len() {
                    progress.pos + 1
                } else {
                    progress.pos
                };
                let part = vstd::slice::slice_subrange(data, 0, end);
                assert(part@ =~= data@.take(end as int));
                return part;
            },
            ReadStep::Next(next) => {
                progress = next;
            },
        }
    }
}

/// An entry of an archive: its name and its contents, or why those could not be
/// read.
pub struct ArchiveItem {
    pub identifier: Vec<u8>,
    pub data: Result<Vec<u8>, String>,
}

/// Reads the entries of an archive one after the other.
#[verifier::external_body]
pub struct ArchiveReader<'a> {
    inner: ar::Archive<&'a [u8]>,
}

/// What reading an archive yields, entry for entry: the name and the contents of
/// each, or the message of an error. Symbol tables and the table of long names
/// are no entries.
pub uninterp spec fn archive_entries(data: Seq<u8>) -> Seq<
    Result<(Seq<u8>, Result<Seq<u8>, Seq<char>>), Seq<char>>,
>;

/// What a reader has still to yield.
pub uninterp spec fn archive_rest(reader: ArchiveReader) -> Seq<
    Result<(Seq<u8>, Result<Seq<u8>, Seq<char>>), Seq<char>>,
>;

/// The contents of a result.
pub open spec fn result_view(data: Result<Vec<u8>, String>) -> Result<Seq<u8>, Seq<char>> {
    match data {
        Ok(bytes) => Ok(bytes@),
        Err(message) => Err(message@),
    }
}

/// Calls `ar::Archive::new` on bytes in memory. The entries that will be read
/// depend on the bytes alone.
#[verifier::external_body]
fn new_archive<'a>(data: &'a [u8]) -> (r: ArchiveReader<'a>)
    requires
        is_readable(data@),
    ensures
        archive_rest(r) == archive_entries(data@),
{
    ArchiveReader { inner: ar::Archive::new(data) }
}

/// Calls `ar::Archive::next_entry`, and takes the identifier and the contents of
/// the entry. Each call yields the next entry; there is none when all have been
/// read, and none after an error.
#[verifier::external_body]
fn next_entry<'a>(reader: &mut ArchiveReader<'a>) -> (r: Option<Result<ArchiveItem, String>>)
    ensures
        match r {
            None => archive_rest(*old(reader)).len() == 0,
            Some(Ok(item)) => {
                &&& archive_rest(*old(reader)).len() > 0
                &&& archive_rest(*old(reader))[0] == Ok::<
                    (Seq<u8>, Result<Seq<u8>, Seq<char>>),
                    Seq<char>,
                >((item.identifier@, result_view(item.data)))
                &&& archive_rest(*final(reader)) == archive_rest(*old(reader)).skip(1)
            },
            Some(Err(message)) => {
                &&& archive_rest(*old(reader)).len() > 0
                &&& archive_rest(*old(reader))[0] == Err::<
                    (Seq<u8>, Result<Seq<u8>, Seq<char>>),
                    Seq<char>,
                >(message@)
                &&& archive_rest(*final(reader)) == archive_rest(*old(reader)).skip(1)
            },
        },
{
    let mut entry = match reader.inner.next_entry()? {
        Ok(entry) => entry,
        Err(e) => return Some(Err(e.to_string())),
    };
    let identifier = entry.header().identifier().to_vec();
    let mut contents = Vec::new();
    let data = entry.read_to_end(&mut contents).map(|_| contents).map_err(|e| e.to_string());
    Some(Ok(ArchiveItem { identifier, data }))
}

/// The contents of a list of entries.
pub open spec fn entry_views(entries: Seq<Result<ArchiveItem, String>>) -> Seq<
    Result<(Seq<u8>, Result<Seq<u8>, Seq<char>>), Seq<char>>,
> {
    entries.map_values(|e: Result<ArchiveItem, String>| entry_view(e))
}

pub open spec fn entry_view(entry: Result<ArchiveItem, String>) -> Result<
    (Seq<u8>, Result<Seq<u8>, Seq<char>>),
    Seq<char>,
> {
    match entry {
        Ok(item) => Ok((item.identifier@, result_view(item.data))),
        Err(message) => Err(message@),
    }
}

/// Reads all entries of an archive.
fn read_archive(data: &[u8]) -> (r: Vec<Result<ArchiveItem, String>>)
    requires
        is_readable(data@),
    ensures
        entry_views(r@) == archive_entries(data@),
{
    let mut reader = new_archive(data);
    let mut entries: Vec<Result<ArchiveItem, String>> = Vec::new();
    let ghost all = archive_entries(data@);
    assert(all.skip(0) =~= all);
    loop
        invariant
            entries@.len() <= all.len(),
            archive_rest(reader) == all.skip(entries@.len() as int),
            entry_views(entries@) =~= all.take(entries@.len() as int),
            all == archive_entries(data@),
        decreases all.len() - entries@.len(),
    {
        let ghost before = entries@;
        let ghost rest = archive_rest(reader);
        match next_entry(&mut reader) {
            None => {
                assert(all.take(all.len() as int) =~= all);
                return entries;
            },
            Some(entry) => {
                assert(rest[0] == all[before.len() as int]);
                assert(rest.skip(1) =~= all.skip((before.len() + 1) as int));
                entries.push(entry);
                assert(entry_views(entries@) =~= entry_views(before).push(entry_view(entry)));
            },
        }
    }
}

/// Reads the entries of an archive up to the first one that refers to a name
/// beyond the table of names, and says whether there is none.
pub fn read_entries(data: &[u8]) -> (r: (Vec<Result<ArchiveItem, String>>, bool))
    ensures
        entry_views(r.0@) == archive_entries(readable_part(data@)),
        r.1 == is_readable(data@),
{
    let part = find_readable_part(data);
    assert(data.len() <= usize::MAX);
    proof {
        readable_part_is_readable(data@);
    }
    (read_archive(part), part.len() == data.len())
}

} // verus!
