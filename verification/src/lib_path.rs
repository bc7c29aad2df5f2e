//! The search for the shared library of LLVM.
use std::path::PathBuf;

use vstd::prelude::*;
use vstd::utf8::*;

use crate::bytes;
use crate::text;

verus! {

/// A Unix path without its last component.
pub uninterp spec fn popped_path(path: Seq<char>) -> Seq<char>;

/// Calls `std::path::PathBuf::pop`, which truncates a path that has a parent to
/// that. Paths are those of Unix throughout this library, whose components `/`
/// separates: there the result depends on the path alone.
#[verifier::external_body]
fn pop_path(path: &str) -> (r: String)
    ensures
        r@ == popped_path(path@),
{
    let mut buf = PathBuf::from(path);
    buf.pop();
    buf.to_string_lossy().into_owned()
}

/// The directory in which the library of the program at `path` stands: `lib`
/// beside the directory of the program.
pub open spec fn library_directory(path: Seq<u8>) -> Seq<u8> {
    let parent = if valid_utf8(path) {
        encode_utf8(popped_path(decode_utf8(path)))
    } else {
        path
    };
    bytes::joined(parent, bytes::ascii("lib"@))
}

/// The directories in a list of directories.
pub open spec fn listed(list: Option<Seq<u8>>, separator: u8) -> Seq<Seq<u8>> {
    match list {
        Some(list) => bytes::parts(list, separator),
        None => Seq::empty(),
    }
}

/// The directories in which the library can stand: those on the two library
/// search paths, and those beside the directories of programs.
pub open spec fn possible_directories(
    ld_library_path: Option<Seq<u8>>,
    dyld_fallback_library_path: Option<Seq<u8>>,
    path: Option<Seq<u8>>,
    separator: u8,
) -> Seq<Seq<u8>> {
    listed(ld_library_path, separator) + listed(dyld_fallback_library_path, separator) + listed(
        path,
        separator,
    ).map_values(|item: Seq<u8>| library_directory(item))
}

/// The contents of an optional byte string.
pub open spec fn option_view(list: Option<&[u8]>) -> Option<Seq<u8>> {
    match list {
        Some(list) => Some(list@),
        None => None,
    }
}

fn append_listed(directories: &mut Vec<Vec<u8>>, list: Option<&[u8]>, separator: u8)
    ensures
        bytes::views(final(directories)@) == bytes::views(old(directories)@) + listed(
            option_view(list),
            separator,
        ),
{
    let ghost before = bytes::views(directories@);
    match list {
        Some(list) => {
            let mut items = bytes::split(list, separator);
            directories.append(&mut items);
            assert(bytes::views(directories@) =~= before + bytes::parts(list@, separator));
        },
        None => {
            assert(before + Seq::<Seq<u8>>::empty() =~= before);
        },
    }
}

/// Collects the directories in which the library can stand, given the values of
/// `LD_LIBRARY_PATH`, `DYLD_FALLBACK_LIBRARY_PATH` and `PATH`.
pub fn collect_possible_directories(
    ld_library_path: Option<&[u8]>,
    dyld_fallback_library_path: Option<&[u8]>,
    path: Option<&[u8]>,
    separator: u8,
) -> (r: Vec<Vec<u8>>)
    ensures
        bytes::views(r@) == possible_directories(
            option_view(ld_library_path),
            option_view(dyld_fallback_library_path),
            option_view(path),
            separator,
        ),
{
    let mut directories: Vec<Vec<u8>> = Vec::new();
    append_listed(&mut directories, ld_library_path, separator);
    append_listed(&mut directories, dyld_fallback_library_path, separator);
    let ghost searched = bytes::views(directories@);
    assert(searched =~= listed(option_view(ld_library_path), separator) + listed(
        option_view(dyld_fallback_library_path),
        separator,
    ));
    let mut programs: Vec<Vec<u8>> = Vec::new();
    append_listed(&mut programs, path, separator);
    let ghost items = listed(option_view(path), separator);
    assert(bytes::views(programs@) =~= items);
    let ghost beside = items.map_values(|item: Seq<u8>| library_directory(item));
    proof {
        reveal_strlit("lib");
    }
    let mut i: usize = 0;
    while i < programs.len()
        invariant
            i <= programs@.len(),
            bytes::views(programs@) == items,
            beside == items.map_values(|item: Seq<u8>| library_directory(item)),
            bytes::views(directories@) =~= searched + beside.take(i as int),
            "lib".is_ascii(),
        decreases programs@.len() - i,
    {
        let ghost before = directories@;
        let item: &[u8] = programs[i].as_slice();
        assert(item@ == items[i as int]);
        let parent: Vec<u8> = match text::str_from_utf8(item) {
            Some(name) => bytes::copy(pop_path(name).as_str().as_bytes()),
            None => bytes::copy(item),
        };
        let directory = bytes::join(parent.as_slice(), bytes::literal("lib"));
        assert(directory@ == library_directory(items[i as int]));
        directories.push(directory);
        assert(bytes::views(directories@) =~= bytes::views(before).push(directory@));
        i = i + 1;
    }
    assert(bytes::views(directories@) =~= searched + beside);
    directories
}

/// Whether a file is the library, by the text of its name.
pub open spec fn is_library(file_name: Seq<u8>) -> bool {
    bytes::begins_with(encode_utf8(text::lossy_utf8(file_name)), bytes::ascii("libLLVM"@))
}

/// The number of the first library in a list of files, from `k` on.
pub open spec fn first_library(files: Seq<Seq<u8>>, k: nat) -> Option<nat>
    decreases files.len() - k,
{
    if k >= files.len() {
        None
    } else if is_library(files[k as int]) {
        Some(k)
    } else {
        first_library(files, k + 1)
    }
}

/// The path of the library in a directory. A directory that cannot be read has
/// none.
pub open spec fn library_in(directory: Seq<u8>, files: Option<Seq<Seq<u8>>>) -> Option<Seq<u8>> {
    match files {
        Some(files) => match first_library(files, 0) {
            Some(k) => Some(bytes::joined(directory, files[k as int])),
            None => None,
        },
        None => None,
    }
}

fn has_library_name(file_name: &[u8]) -> (r: bool)
    ensures
        r == is_library(file_name@),
{
    let shown = text::string_from_utf8_lossy(file_name);
    proof {
        reveal_strlit("libLLVM");
    }
    bytes::starts_with(shown.as_str().as_bytes(), bytes::literal("libLLVM"))
}

/// Finds the path of the library in a directory, given the names of its files or
/// `None` where they could not be read.
pub fn find_library_in_directory(directory: &[u8], listing: &Option<Vec<Vec<u8>>>) -> (r: Option<
    Vec<u8>,
>)
    ensures
        option_path_view(r) == library_in(directory@, files_view(*listing)),
{
    if let Some(files) = listing {
        let ghost names = bytes::views(files@);
        let mut k: usize = 0;
        while k < files.len()
            invariant
                k <= files@.len(),
                names == bytes::views(files@),
                files_view(*listing) == Some(names),
                first_library(names, 0) == first_library(names, k as nat),
            decreases files@.len() - k,
        {
            assert(names[k as int] == files@[k as int]@);
            if has_library_name(files[k].as_slice()) {
                return Some(bytes::join(directory, files[k].as_slice()));
            }
            k = k + 1;
        }
    }
    None
}

/// The contents of an optional path.
pub open spec fn option_path_view(path: Option<Vec<u8>>) -> Option<Seq<u8>> {
    match path {
        Some(path) => Some(path@),
        None => None,
    }
}

/// The contents of an optional list of file names.
pub open spec fn files_view(files: Option<Vec<Vec<u8>>>) -> Option<Seq<Seq<u8>>> {
    match files {
        Some(files) => Some(bytes::views(files@)),
        None => None,
    }
}

/// Why the library was not found.
pub enum LibPathError {
    /// No directory can be searched.
    NoDirectories,
    /// None of these directories has the library.
    NotFound(Vec<Vec<u8>>),
}

/// The text that describes an error.
pub open spec fn lib_path_error_text(directories: Option<Seq<Seq<u8>>>) -> Seq<char> {
    match directories {
        None => "Unable to find possible LLVM shared lib locations."@,
        Some(directories) => "Unable to find LLVM shared lib in possible locations:\n- "@
            + joined_text(directories, directories.len()),
    }
}

/// The first `n` directories, one in a line of a list.
pub open spec fn joined_text(directories: Seq<Seq<u8>>, n: nat) -> Seq<char>
    decreases n,
{
    if n == 0 {
        Seq::empty()
    } else if n == 1 {
        text::lossy_utf8(directories[0])
    } else {
        joined_text(directories, (n - 1) as nat) + "\n- "@ + text::lossy_utf8(directories[n - 1])
    }
}

impl LibPathError {
    /// The text that describes the error.
    pub fn message(&self) -> (r: String)
        ensures
            r@ == lib_path_error_text(
                match *self {
                    LibPathError::NoDirectories => None,
                    LibPathError::NotFound(directories) => Some(bytes::views(directories@)),
                },
            ),
    {
        match self {
            LibPathError::NoDirectories => String::from_str(
                "Unable to find possible LLVM shared lib locations.",
            ),
            LibPathError::NotFound(directories) => {
                let ghost all = bytes::views(directories@);
                let mut list = String::new();
                assert(list@ =~= joined_text(all, 0));
                let mut i: usize = 0;
                while i < directories.len()
                    invariant
                        i <= directories@.len(),
                        all == bytes::views(directories@),
                        list@ == joined_text(all, i as nat),
                    decreases directories@.len() - i,
                {
                    if i > 0 {
                        list.append("\n- ");
                    }
                    assert(all[i as int] == directories@[i as int]@);
                    let shown = text::string_from_utf8_lossy(directories[i].as_slice());
                    list.append(shown.as_str());
                    proof {
                        if i == 0 {
                            assert(list@ =~= shown@);
                        }
                    }
                    i = i + 1;
                }
                let mut r = String::from_str(
                    "Unable to find LLVM shared lib in possible locations:\n- ",
                );
                r.append(list.as_str());
                r
            },
        }
    }
}

/// How the search goes on.
pub enum SearchStep {
    /// The library was found.
    Found(Vec<u8>),
    /// The files of the directory with this number are needed.
    List(usize),
    /// There is no library.
    Failed(LibPathError),
}

/// The number of the first directory, from `k` on, that has the library, among
/// those whose files are known.
pub open spec fn first_hit(
    directories: Seq<Seq<u8>>,
    listings: Seq<Option<Seq<Seq<u8>>>>,
    k: nat,
) -> Option<nat>
    decreases listings.len() - k,
{
    if k >= listings.len() || k >= directories.len() {
        None
    } else if library_in(directories[k as int], listings[k as int]) is Some {
        Some(k)
    } else {
        first_hit(directories, listings, k + 1)
    }
}

/// The contents of a list of listings.
pub open spec fn listing_views(listings: Seq<Option<Vec<Vec<u8>>>>) -> Seq<
    Option<Seq<Seq<u8>>>,
> {
    listings.map_values(|files: Option<Vec<Vec<u8>>>| files_view(files))
}

/// Searches directories in order for the library, given the files of the first
/// few of them. The first directory that has it decides.
pub fn find_lib_path(directories: &Vec<Vec<u8>>, listings: &Vec<Option<Vec<Vec<u8>>>>) -> (r:
    SearchStep)
    ensures
        ({
            let all = bytes::views(directories@);
            let known = listing_views(listings@);
            match first_hit(all, known, 0) {
                Some(k) => {
                    &&& r is Found
                    &&& Some(r->Found_0@) == library_in(all[k as int], known[k as int])
                },
                None => if all.len() == 0 {
                    r matches SearchStep::Failed(LibPathError::NoDirectories)
                } else if known.len() < all.len() {
                    r matches SearchStep::List(i) && i == known.len()
                } else {
                    r matches SearchStep::Failed(LibPathError::NotFound(searched))
                        && bytes::views(searched@) == all
                },
            }
        }),
{
    if directories.len() == 0 {
        return SearchStep::Failed(LibPathError::NoDirectories);
    }
    let ghost all = bytes::views(directories@);
    let ghost known = listing_views(listings@);
    let mut k: usize = 0;
    while k < listings.len() && k < directories.len()
        invariant
            k <= listings@.len(),
            k <= directories@.len(),
            all == bytes::views(directories@),
            known == listing_views(listings@),
            first_hit(all, known, 0) == first_hit(all, known, k as nat),
        decreases listings@.len() - k,
    {
        assert(all[k as int] == directories@[k as int]@);
        assert(known[k as int] == files_view(listings@[k as int]));
        if let Some(path) = find_library_in_directory(directories[k].as_slice(), &listings[k]) {
            return SearchStep::Found(path);
        }
        k = k + 1;
    }
    if listings.len() < directories.len() {
        return SearchStep::List(listings.len());
    }
    let mut searched: Vec<Vec<u8>> = Vec::new();
    let mut i: usize = 0;
    while i < directories.len()
        invariant
            i <= directories@.len(),
            all == bytes::views(directories@),
            bytes::views(searched@) =~= all.take(i as int),
        decreases directories@.len() - i,
    {
        let ghost before = searched@;
        let directory = bytes::copy(directories[i].as_slice());
        assert(directory@ == all[i as int]);
        searched.push(directory);
        assert(bytes::views(searched@) =~= bytes::views(before).push(directory@));
        i = i + 1;
    }
    assert(bytes::views(searched@) =~= all);
    SearchStep::Failed(LibPathError::NotFound(searched))
}

/// The first directory that has the library decides: those in front of it have
/// none, and those behind it do not matter.
pub proof fn first_directory_wins(
    directories: Seq<Seq<u8>>,
    listings: Seq<Option<Seq<Seq<u8>>>>,
    k: nat,
    hit: nat,
)
    requires
        first_hit(directories, listings, k) == Some(hit),
    ensures
        k <= hit < directories.len(),
        hit < listings.len(),
        library_in(directories[hit as int], listings[hit as int]) is Some,
        forall|i: int|
            k <= i < hit ==> library_in(#[trigger] directories[i], listings[i]) is None,
    decreases listings.len() - k,
{
    if library_in(directories[k as int], listings[k as int]) is None {
        first_directory_wins(directories, listings, k + 1, hit);
    }
}

/// The directories in a list that may not be set.
pub open spec fn entries_of(list: Option<Seq<u8>>, separator: u8) -> Seq<Seq<u8>> {
    if list is Some {
        bytes::parts(list->Some_0, separator)
    } else {
        Seq::empty()
    }
}

/// The directories to search are those of the first search path, then those of the second,
/// and then one beside each directory of programs, each list in its order. A list that is
/// not set has none.
pub proof fn directories_are_searched_in_order(
    ld: Option<Seq<u8>>,
    dyld: Option<Seq<u8>>,
    path: Option<Seq<u8>>,
    separator: u8,
    i: int,
)
    ensures
        ({
            let all = possible_directories(ld, dyld, path, separator);
            let a = entries_of(ld, separator);
            let b = entries_of(dyld, separator);
            let c = entries_of(path, separator);
            &&& all.len() == a.len() + b.len() + c.len()
            &&& 0 <= i < a.len() ==> all[i] == a[i]
            &&& 0 <= i < b.len() ==> all[a.len() + i] == b[i]
            &&& 0 <= i < c.len() && valid_utf8(c[i]) ==> all[a.len() + b.len() + i]
                == bytes::joined(
                encode_utf8(popped_path(decode_utf8(c[i]))),
                bytes::ascii("lib"@),
            )
            &&& 0 <= i < c.len() && !valid_utf8(c[i]) ==> all[a.len() + b.len() + i]
                == bytes::joined(c[i], bytes::ascii("lib"@))
        }),
{
}

proof fn lemma_first_library(files: Seq<Seq<u8>>, from: nat, k: nat)
    requires
        from <= k <= files.len(),
        forall|i: int|
            from <= i < k ==> !bytes::begins_with(
                encode_utf8(text::lossy_utf8(#[trigger] files[i])),
                bytes::ascii("libLLVM"@),
            ),
        k < files.len() ==> bytes::begins_with(
            encode_utf8(text::lossy_utf8(files[k as int])),
            bytes::ascii("libLLVM"@),
        ),
    ensures
        first_library(files, from) == (if k < files.len() {
            Some(k)
        } else {
            None
        }),
    decreases k - from,
{
    if from < k {
        assert(!is_library(files[from as int]));
        lemma_first_library(files, from + 1, k);
    }
}

/// The library in a directory is the first file whose name begins with `libLLVM`; a
/// directory without such a file, or one that cannot be read, has none.
pub proof fn first_named_file_is_the_library(directory: Seq<u8>, files: Seq<Seq<u8>>, k: nat)
    requires
        k <= files.len(),
        forall|i: int|
            0 <= i < k ==> !bytes::begins_with(
                encode_utf8(text::lossy_utf8(#[trigger] files[i])),
                bytes::ascii("libLLVM"@),
            ),
        k < files.len() ==> bytes::begins_with(
            encode_utf8(text::lossy_utf8(files[k as int])),
            bytes::ascii("libLLVM"@),
        ),
    ensures
        library_in(directory, Some(files)) == (if k < files.len() {
            Some(bytes::joined(directory, files[k as int]))
        } else {
            None
        }),
        library_in(directory, None) is None,
{
    lemma_first_library(files, 0, k);
}

/// A directory without the library is passed over; where all are, there is no hit.
pub proof fn directories_without_the_library_are_passed_over(
    directories: Seq<Seq<u8>>,
    listings: Seq<Option<Seq<Seq<u8>>>>,
    k: nat,
    hit: nat,
)
    requires
        k <= hit <= directories.len(),
        hit <= listings.len(),
        forall|i: int| k <= i < hit ==> library_in(#[trigger] directories[i], listings[i]) is None,
    ensures
        hit < directories.len() && hit < listings.len() && library_in(
            directories[hit as int],
            listings[hit as int],
        ) is Some ==> first_hit(directories, listings, k) == Some(hit),
        hit == directories.len() || hit == listings.len() ==> first_hit(directories, listings, k)
            is None,
    decreases hit - k,
{
    if k < hit {
        assert(library_in(directories[k as int], listings[k as int]) is None);
        directories_without_the_library_are_passed_over(directories, listings, k + 1, hit);
    }
}

/// The list of directories in the text of an error has one line for each of them, in their
/// order.
pub proof fn every_directory_is_listed(directories: Seq<Seq<u8>>, n: nat)
    requires
        0 < n < directories.len(),
    ensures
        joined_text(directories, 1) == text::lossy_utf8(directories[0]),
        joined_text(directories, n + 1) == joined_text(directories, n) + "\n- "@
            + text::lossy_utf8(directories[n as int]),
        lib_path_error_text(Some(directories))
            == "Unable to find LLVM shared lib in possible locations:\n- "@ + joined_text(
            directories,
            directories.len(),
        ),
{
}

} // verus!
