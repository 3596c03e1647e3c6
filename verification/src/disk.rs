//! What the search learns of the file system.
//!
//! The library reads no file and no directory itself. Its callers hand it
//! probes, which answer what is there. The contracts say twice what a search
//! does: which answers lead to which result, whatever the probes answer; and
//! what the result is when all answers agree with one [`Disk`], as they do while
//! the file system stays as it is.

use crate::path::FsPath;
use vstd::prelude::*;

verus! {

/// What an entry of a directory is, once symbolic links have been followed.
#[derive(Debug, Clone, Copy, PartialEq, Eq, Structural)]
pub enum EntryKind {
    /// A directory.
    Directory,
    /// A regular file.
    File,
    /// Anything else, a link that leads nowhere among them.
    Other,
}

/// One entry of a directory.
#[derive(Debug, PartialEq, Eq)]
pub struct DirEntry {
    /// The entry's name, which need not be valid UTF-8.
    pub name: Vec<u8>,
    /// What the name stands for.
    pub kind: EntryKind,
}

/// The model of a [`DirEntry`].
pub struct Entry {
    pub name: Seq<u8>,
    pub kind: EntryKind,
}

impl View for DirEntry {
    type V = Entry;

    open spec fn view(&self) -> Entry {
        Entry { name: self.name@, kind: self.kind }
    }
}

impl DeepView for DirEntry {
    type V = Entry;

    open spec fn deep_view(&self) -> Entry {
        self@
    }
}

/// The state of a file system, as far as a search looks at it.
pub struct Disk {
    /// The paths at which there is something.
    pub present: Set<Seq<u8>>,
    /// The entries of the directories that can be read, in reading order.
    pub listings: Map<Seq<u8>, Seq<Entry>>,
    /// The contents of the text files that can be read.
    pub texts: Map<Seq<u8>, Seq<char>>,
}

impl Disk {
    /// The entries of the directory at `path`; none if it cannot be read.
    pub open spec fn entries(self, path: Seq<u8>) -> Seq<Entry> {
        if self.listings.contains_key(path) {
            self.listings[path]
        } else {
            Seq::empty()
        }
    }
}

/// Whether the probe can be asked about every path.
pub open spec fn probes_paths<R, P: Fn(&FsPath) -> R>(probe: P) -> bool {
    forall|path: FsPath| #[trigger] call_requires(probe, (&path,))
}

/// Whether `is_present` answers as `disk` is.
pub open spec fn reports_presence<P: Fn(&FsPath) -> bool>(is_present: P, disk: Disk) -> bool {
    forall|path: FsPath, answer: bool| #[trigger]
        call_ensures(is_present, (&path,), answer) ==> answer == disk.present.contains(path@)
}

/// Whether `list_dir` answers as `disk` is.
pub open spec fn reports_listings<L: Fn(&FsPath) -> Option<Vec<DirEntry>>>(
    list_dir: L,
    disk: Disk,
) -> bool {
    forall|path: FsPath, answer: Option<Vec<DirEntry>>| #[trigger]
        call_ensures(list_dir, (&path,), answer) ==> match answer {
            Some(entries) => disk.listings.contains_key(path@) && disk.listings[path@]
                == entries.deep_view(),
            None => !disk.listings.contains_key(path@),
        }
}

/// Whether both probes of a search answer as `disk` is.
pub open spec fn reports<P: Fn(&FsPath) -> bool, L: Fn(&FsPath) -> Option<Vec<DirEntry>>>(
    is_present: P,
    list_dir: L,
    disk: Disk,
) -> bool {
    reports_presence(is_present, disk) && reports_listings(list_dir, disk)
}

/// Whether `read_text` answers as `disk` is.
pub open spec fn reports_texts<T: Fn(&FsPath) -> Option<String>>(
    read_text: T,
    disk: Disk,
) -> bool {
    forall|path: FsPath, answer: Option<String>| #[trigger]
        call_ensures(read_text, (&path,), answer) ==> match answer {
            Some(text) => disk.texts.contains_key(path@) && disk.texts[path@] == text@,
            None => !disk.texts.contains_key(path@),
        }
}

/// Probes report a disk as soon as each of their answers agrees with it: what is
/// present is there, and what can be listed has the entries listed.
pub proof fn agreeing_probes_report_the_disk<
    P: Fn(&FsPath) -> bool,
    L: Fn(&FsPath) -> Option<Vec<DirEntry>>,
    T: Fn(&FsPath) -> Option<String>,
>(is_present: P, list_dir: L, read_text: T, disk: Disk)
    requires
        forall|p: FsPath, answer: bool| #[trigger]
            call_ensures(is_present, (&p,), answer) ==> answer == disk.present.contains(p@),
        forall|p: FsPath, answer: Option<Vec<DirEntry>>| #[trigger]
            call_ensures(list_dir, (&p,), answer) ==> match answer {
                Some(entries) => disk.listings.contains_key(p@) && disk.listings[p@].len()
                    == entries@.len() && forall|i: int|
                    0 <= i < entries@.len() ==> (#[trigger] disk.listings[p@][i]).name
                        == entries@[i].name@ && disk.listings[p@][i].kind == entries@[i].kind,
                None => !disk.listings.contains_key(p@),
            },
        forall|p: FsPath, answer: Option<String>| #[trigger]
            call_ensures(read_text, (&p,), answer) ==> match answer {
                Some(text) => disk.texts.contains_key(p@) && disk.texts[p@] == text@,
                None => !disk.texts.contains_key(p@),
            },
    ensures
        reports(is_present, list_dir, disk),
        reports_presence(is_present, disk),
        reports_listings(list_dir, disk),
        reports_texts(read_text, disk),
{
    assert forall|p: FsPath, answer: Option<Vec<DirEntry>>| #[trigger]
        call_ensures(list_dir, (&p,), answer) implies match answer {
        Some(entries) => disk.listings.contains_key(p@) && disk.listings[p@]
            == entries.deep_view(),
        None => !disk.listings.contains_key(p@),
    } by {
        if let Some(entries) = answer {
            let listed = disk.listings[p@];
            assert forall|i: int| 0 <= i < listed.len() implies listed[i]
                == entries.deep_view()[i] by {
                assert(disk.listings[p@][i].name == entries@[i].name@);
            }
            assert(listed =~= entries.deep_view());
        }
    }
}

/// A directory that can be read has the entries that its listing has, and one
/// that cannot has none.
pub proof fn entries_are_those_listed(disk: Disk, dir: Seq<u8>)
    ensures
        disk.listings.contains_key(dir) ==> disk.entries(dir) == disk.listings[dir],
        !disk.listings.contains_key(dir) ==> disk.entries(dir).len() == 0,
{
}

// ---------------------------------------------------------------------------
// What answers lead to
// ---------------------------------------------------------------------------

/// Whether `is_present` may answer `answer` when it is asked about `file`.
pub open spec fn may_answer<P: Fn(&FsPath) -> bool>(
    is_present: P,
    file: Seq<u8>,
    answer: bool,
) -> bool {
    exists|p: FsPath| p@ == file && #[trigger] call_ensures(is_present, (&p,), answer)
}

/// The entries in an answer; none if the directory could not be read.
pub open spec fn entries_in(answer: Option<Vec<DirEntry>>) -> Seq<Entry> {
    match answer {
        Some(entries) => entries.deep_view(),
        None => Seq::empty(),
    }
}

/// Whether `list_dir` may answer with `entries` when it is asked for `dir`.
pub open spec fn may_list<L: Fn(&FsPath) -> Option<Vec<DirEntry>>>(
    list_dir: L,
    dir: Seq<u8>,
    entries: Seq<Entry>,
) -> bool {
    exists|p: FsPath, answer: Option<Vec<DirEntry>>|
        p@ == dir && entries == entries_in(answer) && #[trigger] call_ensures(
            list_dir,
            (&p,),
            answer,
        )
}

/// Whether looking at a file may end with a result, as a function of both: with
/// the file, or with nothing.
pub open spec fn file_search<P: Fn(&FsPath) -> bool>(is_present: P) -> spec_fn(
    Seq<u8>,
    Option<Seq<u8>>,
) -> bool {
    |file: Seq<u8>, found: Option<Seq<u8>>|
        match found {
            Some(result) => result == file && may_answer(is_present, file, true),
            None => may_answer(is_present, file, false),
        }
}

/// Whether a search through `items` may end with `found`, where it goes from one
/// item to the next up to the first that gives something, and `search` says what
/// the search of one item may end with.
pub open spec fn first_found<T, U>(
    items: Seq<T>,
    search: spec_fn(T, Option<U>) -> bool,
    found: Option<U>,
) -> bool {
    match found {
        Some(_) => exists|i: int|
            {
                &&& 0 <= i < items.len()
                &&& search(#[trigger] items[i], found)
                &&& forall|j: int| 0 <= j < i ==> search(#[trigger] items[j], None)
            },
        None => forall|j: int| 0 <= j < items.len() ==> search(#[trigger] items[j], None),
    }
}

/// A search that found nothing among the first items may go on with the next.
pub proof fn lemma_first_found_step<T, U>(
    items: Seq<T>,
    search: spec_fn(T, Option<U>) -> bool,
    i: int,
    found: Option<U>,
)
    requires
        0 <= i < items.len(),
        first_found(items.take(i), search, None),
        search(items[i], found),
    ensures
        first_found(items.take(i + 1), search, found),
{
    let taken = items.take(i + 1);
    assert forall|j: int| 0 <= j < i implies search(#[trigger] taken[j], None) by {
        assert(search(items.take(i)[j], None));
    }
    assert(search(taken[i], found));
}

/// A search that found something, or went through all items, is at its end.
pub proof fn lemma_first_found_end<T, U>(
    items: Seq<T>,
    search: spec_fn(T, Option<U>) -> bool,
    i: int,
    found: Option<U>,
)
    requires
        0 <= i <= items.len(),
        first_found(items.take(i), search, found),
        found is Some || i == items.len(),
    ensures
        first_found(items, search, found),
{
    let taken = items.take(i);
    if found is Some {
        let k = choose|k: int|
            {
                &&& 0 <= k < taken.len()
                &&& search(#[trigger] taken[k], found)
                &&& forall|j: int| 0 <= j < k ==> search(#[trigger] taken[j], None)
            };
        assert(search(items[k], found)) by {
            assert(taken[k] == items[k]);
        }
        assert forall|j: int| 0 <= j < k implies search(#[trigger] items[j], None) by {
            assert(search(taken[j], None));
        }
    } else {
        assert(taken =~= items);
    }
}

/// Whether `parts` has one part for each of `items`, and `gives` says of each
/// that the item may give it.
pub open spec fn piecewise<T, U>(
    items: Seq<T>,
    gives: spec_fn(T, U) -> bool,
    parts: Seq<U>,
) -> bool {
    &&& parts.len() == items.len()
    &&& forall|i: int| 0 <= i < items.len() ==> gives(items[i], #[trigger] parts[i])
}

/// One more item adds a part that it may give.
pub proof fn lemma_piecewise_step<T, U>(
    items: Seq<T>,
    gives: spec_fn(T, U) -> bool,
    parts: Seq<U>,
    i: int,
    part: U,
)
    requires
        0 <= i < items.len(),
        piecewise(items.take(i), gives, parts),
        gives(items[i], part),
    ensures
        piecewise(items.take(i + 1), gives, parts.push(part)),
{
    assert forall|j: int| 0 <= j < i + 1 implies gives(
        items.take(i + 1)[j],
        #[trigger] parts.push(part)[j],
    ) by {
        if j < i {
            assert(gives(items.take(i)[j], parts[j]));
        }
    }
}

/// Where an item can give one part only, the parts are what the items give.
pub proof fn lemma_piecewise<T, U>(
    items: Seq<T>,
    gives: spec_fn(T, U) -> bool,
    parts: Seq<U>,
    part_of: spec_fn(T) -> U,
)
    requires
        piecewise(items, gives, parts),
        forall|i: int, part: U|
            0 <= i < items.len() && #[trigger] gives(items[i], part) ==> part == part_of(items[i]),
    ensures
        parts == items.map_values(part_of),
{
    assert forall|i: int| 0 <= i < items.len() implies parts[i] == items.map_values(
        part_of,
    )[i] by {
        assert(gives(items[i], parts[i]));
    }
    assert(parts =~= items.map_values(part_of));
}

/// The answer about a directory is what a disk has there, if it agrees with it.
pub proof fn lemma_may_list<L: Fn(&FsPath) -> Option<Vec<DirEntry>>>(
    list_dir: L,
    disk: Disk,
    dir: Seq<u8>,
    entries: Seq<Entry>,
)
    requires
        reports_listings(list_dir, disk),
        may_list(list_dir, dir, entries),
    ensures
        entries == disk.entries(dir),
{
}

// ---------------------------------------------------------------------------
// The first of several files
// ---------------------------------------------------------------------------

/// The first of `files` at which there is something.
pub open spec fn first_present(present: Set<Seq<u8>>, files: Seq<Seq<u8>>) -> Option<Seq<u8>>
    decreases files.len(),
{
    if files.len() == 0 {
        None
    } else if present.contains(files.first()) {
        Some(files.first())
    } else {
        first_present(present, files.drop_first())
    }
}

/// The first file present is one of the files, is present, and comes before
/// every other file that is; where there is none, no file is present.
pub proof fn first_present_is_first(present: Set<Seq<u8>>, files: Seq<Seq<u8>>)
    ensures
        match first_present(present, files) {
            Some(file) => exists|i: int|
                {
                    &&& 0 <= i < files.len()
                    &&& #[trigger] files[i] == file
                    &&& present.contains(file)
                    &&& forall|j: int| 0 <= j < i ==> !present.contains(#[trigger] files[j])
                },
            None => forall|i: int| 0 <= i < files.len() ==> !present.contains(#[trigger] files[i]),
        },
    decreases files.len(),
{
    if files.len() > 0 && !present.contains(files.first()) {
        let rest = files.drop_first();
        first_present_is_first(present, rest);
        match first_present(present, rest) {
            Some(file) => {
                let i = choose|i: int|
                    {
                        &&& 0 <= i < rest.len()
                        &&& #[trigger] rest[i] == file
                        &&& present.contains(file)
                        &&& forall|j: int| 0 <= j < i ==> !present.contains(#[trigger] rest[j])
                    };
                assert(files[i + 1] == file);
                assert forall|j: int| 0 <= j < i + 1 implies !present.contains(
                    #[trigger] files[j],
                ) by {
                    if j > 0 {
                        assert(files[j] == rest[j - 1]);
                    }
                }
            },
            None => {
                assert forall|j: int| 0 <= j < files.len() implies !present.contains(
                    #[trigger] files[j],
                ) by {
                    if j > 0 {
                        assert(files[j] == rest[j - 1]);
                    }
                }
            },
        }
    }
}

/// The first file present among `a` and then `b`.
pub proof fn lemma_first_present_add(present: Set<Seq<u8>>, a: Seq<Seq<u8>>, b: Seq<Seq<u8>>)
    ensures
        first_present(present, a + b) == match first_present(present, a) {
            Some(file) => Some(file),
            None => first_present(present, b),
        },
    decreases a.len(),
{
    if a.len() == 0 {
        assert(a + b =~= b);
    } else {
        assert((a + b).drop_first() =~= a.drop_first() + b);
        lemma_first_present_add(present, a.drop_first(), b);
    }
}

/// Where the files of the items before the `i`-th are all absent, and one of
/// the `i`-th item's files is present, the first of those is the first of all.
pub proof fn lemma_first_present_found<T>(
    present: Set<Seq<u8>>,
    items: Seq<T>,
    files_of: spec_fn(T) -> Seq<Seq<u8>>,
    i: int,
)
    requires
        0 <= i < items.len(),
        forall|j: int|
            0 <= j < i ==> first_present(present, files_of(#[trigger] items[j])) is None,
        first_present(present, files_of(items[i])) is Some,
    ensures
        first_present(present, items.flat_map(files_of)) == first_present(
            present,
            files_of(items[i]),
        ),
    decreases items.len(),
{
    lemma_flat_map_first(items, files_of);
    lemma_first_present_add(
        present,
        files_of(items.first()),
        items.drop_first().flat_map(files_of),
    );
    if i > 0 {
        assert(first_present(present, files_of(items[0])) is None);
        assert forall|j: int| 0 <= j < i - 1 implies first_present(
            present,
            files_of(#[trigger] items.drop_first()[j]),
        ) is None by {
            assert(items.drop_first()[j] == items[j + 1]);
        }
        lemma_first_present_found(present, items.drop_first(), files_of, i - 1);
    }
}

/// Where the files of every item are absent, there is no first one.
pub proof fn lemma_first_present_absent<T>(
    present: Set<Seq<u8>>,
    items: Seq<T>,
    files_of: spec_fn(T) -> Seq<Seq<u8>>,
)
    requires
        forall|j: int|
            0 <= j < items.len() ==> first_present(present, files_of(#[trigger] items[j])) is None,
    ensures
        first_present(present, items.flat_map(files_of)) is None,
    decreases items.len(),
{
    if items.len() > 0 {
        lemma_flat_map_first(items, files_of);
        lemma_first_present_add(
            present,
            files_of(items.first()),
            items.drop_first().flat_map(files_of),
        );
        assert(first_present(present, files_of(items[0])) is None);
        assert forall|j: int| 0 <= j < items.len() - 1 implies first_present(
            present,
            files_of(#[trigger] items.drop_first()[j]),
        ) is None by {
            assert(items.drop_first()[j] == items[j + 1]);
        }
        lemma_first_present_absent(present, items.drop_first(), files_of);
    }
}

/// Where no file is present among those of all items, none is among those of one.
pub proof fn lemma_no_item<T>(
    present: Set<Seq<u8>>,
    items: Seq<T>,
    files_of: spec_fn(T) -> Seq<Seq<u8>>,
    i: int,
)
    requires
        0 <= i < items.len(),
        first_present(present, items.flat_map(files_of)) is None,
    ensures
        first_present(present, files_of(items[i])) is None,
    decreases i,
{
    if first_present(present, files_of(items[i])) is Some {
        assert forall|j: int| 0 <= j < i implies first_present(
            present,
            files_of(#[trigger] items[j]),
        ) is None by {
            lemma_no_item(present, items, files_of, j);
        }
        lemma_first_present_found(present, items, files_of, i);
    }
}

/// Where one of the items' files is present, the first of them belongs to the
/// first item that has one.
pub proof fn lemma_first_present_item<T>(
    present: Set<Seq<u8>>,
    items: Seq<T>,
    files_of: spec_fn(T) -> Seq<Seq<u8>>,
) -> (i: int)
    requires
        first_present(present, items.flat_map(files_of)) is Some,
    ensures
        0 <= i < items.len(),
        first_present(present, files_of(items[i])) == first_present(
            present,
            items.flat_map(files_of),
        ),
        forall|j: int|
            0 <= j < i ==> first_present(present, files_of(#[trigger] items[j])) is None,
    decreases items.len(),
{
    if items.len() == 0 {
        lemma_first_present_absent(present, items, files_of);
        0
    } else {
        let rest = items.drop_first();
        lemma_flat_map_first(items, files_of);
        lemma_first_present_add(present, files_of(items.first()), rest.flat_map(files_of));
        if first_present(present, files_of(items.first())) is Some {
            0
        } else {
            let i = lemma_first_present_item(present, rest, files_of);
            assert forall|j: int| 0 <= j < i + 1 implies first_present(
                present,
                files_of(#[trigger] items[j]),
            ) is None by {
                if j > 0 {
                    assert(items[j] == rest[j - 1]);
                }
            }
            i + 1
        }
    }
}

/// Answers that agree with a disk lead to the first file that it has.
pub proof fn lemma_file_search<P: Fn(&FsPath) -> bool>(
    is_present: P,
    disk: Disk,
    files: Seq<Seq<u8>>,
    found: Option<Seq<u8>>,
)
    requires
        reports_presence(is_present, disk),
        first_found(files, file_search(is_present), found),
    ensures
        found == first_present(disk.present, files),
{
    let search = file_search(is_present);
    assert forall|file: Seq<u8>, answer: bool| #[trigger]
        may_answer(is_present, file, answer) implies answer == disk.present.contains(file) by {}
    first_present_is_first(disk.present, files);
    match found {
        Some(file) => {
            let i = choose|i: int|
                {
                    &&& 0 <= i < files.len()
                    &&& search(#[trigger] files[i], found)
                    &&& forall|j: int| 0 <= j < i ==> search(#[trigger] files[j], None)
                };
            assert(search(files[i], found));
            assert(disk.present.contains(files[i]));
            let first = first_present(disk.present, files)->0;
            let k = choose|k: int|
                {
                    &&& 0 <= k < files.len()
                    &&& #[trigger] files[k] == first
                    &&& disk.present.contains(first)
                    &&& forall|j: int| 0 <= j < k ==> !disk.present.contains(#[trigger] files[j])
                };
            if k < i {
                assert(search(files[k], None));
            }
        },
        None => {
            assert forall|j: int| 0 <= j < files.len() implies !disk.present.contains(
                #[trigger] files[j],
            ) by {
                assert(search(files[j], None));
            }
        },
    }
}

/// Where the search of each item can only end with the first file present among
/// the item's files, the search through all ends with the first among all.
pub proof fn lemma_first_found<T>(
    present: Set<Seq<u8>>,
    items: Seq<T>,
    search: spec_fn(T, Option<Seq<u8>>) -> bool,
    files_of: spec_fn(T) -> Seq<Seq<u8>>,
    found: Option<Seq<u8>>,
)
    requires
        first_found(items, search, found),
        forall|i: int, x: Option<Seq<u8>>|
            0 <= i < items.len() && #[trigger] search(items[i], x) ==> x == first_present(
                present,
                files_of(items[i]),
            ),
    ensures
        found == first_present(present, items.flat_map(files_of)),
{
    match found {
        Some(file) => {
            let i = choose|i: int|
                {
                    &&& 0 <= i < items.len()
                    &&& search(#[trigger] items[i], found)
                    &&& forall|j: int| 0 <= j < i ==> search(#[trigger] items[j], None)
                };
            assert(search(items[i], found));
            assert forall|j: int| 0 <= j < i implies first_present(
                present,
                files_of(#[trigger] items[j]),
            ) is None by {
                assert(search(items[j], None));
            }
            lemma_first_present_found(present, items, files_of, i);
        },
        None => {
            assert forall|j: int| 0 <= j < items.len() implies first_present(
                present,
                files_of(#[trigger] items[j]),
            ) is None by {
                assert(search(items[j], None));
            }
            lemma_first_present_absent(present, items, files_of);
        },
    }
}

/// The files of all items are those of the first, then those of the others.
proof fn lemma_flat_map_first<T, U>(items: Seq<T>, files_of: spec_fn(T) -> Seq<U>)
    requires
        items.len() > 0,
    ensures
        items.flat_map(files_of) == files_of(items.first()) + items.drop_first().flat_map(files_of),
{
    assert(items.map_values(files_of).drop_first() =~= items.drop_first().map_values(files_of));
}

/// A member of a flat map is a member of what one item gives.
pub proof fn lemma_flat_map_member<T, U>(items: Seq<T>, f: spec_fn(T) -> Seq<U>, x: U) -> (k: int)
    requires
        items.flat_map(f).contains(x),
    ensures
        0 <= k < items.len(),
        f(items[k]).contains(x),
    decreases items.len(),
{
    if items.len() == 0 {
        assert(items.flat_map(f) =~= Seq::empty());
        0
    } else {
        let n = items.len() - 1;
        assert(items.take(n + 1) =~= items);
        items.lemma_flat_map_take_append(f, n);
        let i = choose|i: int| 0 <= i < items.flat_map(f).len() && items.flat_map(f)[i] == x;
        let head = items.take(n).flat_map(f);
        if i < head.len() {
            assert(head[i] == x);
            let k = lemma_flat_map_member(items.take(n), f, x);
            assert(items.take(n)[k] == items[k]);
            k
        } else {
            assert(f(items[n])[i - head.len()] == x);
            n
        }
    }
}

/// What one item gives is in the flat map.
pub proof fn lemma_flat_map_contains<T, U>(items: Seq<T>, f: spec_fn(T) -> Seq<U>, k: int, x: U)
    requires
        0 <= k < items.len(),
        f(items[k]).contains(x),
    ensures
        items.flat_map(f).contains(x),
    decreases items.len(),
{
    let n = items.len() - 1;
    assert(items.take(n + 1) =~= items);
    items.lemma_flat_map_take_append(f, n);
    let head = items.take(n).flat_map(f);
    if k < n {
        assert(items.take(n)[k] == items[k]);
        lemma_flat_map_contains(items.take(n), f, k, x);
        let i = choose|i: int| 0 <= i < head.len() && head[i] == x;
        assert(items.flat_map(f)[i] == x);
    } else {
        let last = f(items[n]);
        let i = choose|i: int| 0 <= i < last.len() && last[i] == x;
        assert(items.flat_map(f)[head.len() + i] == x);
    }
}

} // verus!
