//! Looking for an icon whose reverse-DNS name a short query matches.

use crate::disk;
use crate::disk::{DirEntry, Disk, Entry, EntryKind};
use crate::encoding;
use crate::encoding::decode_text;
use crate::icon_dir;
use crate::names;
use crate::names::insert_name;
use crate::path;
use crate::path::FsPath;
use crate::size_dirs;
use crate::text;
use crate::text::{chars_of, contains_char, split_text, starts_with_ignoring_case};
use crate::themes;
use crate::themes::find_named;
use vstd::prelude::*;
use vstd::string::StrSliceExecFns;
use vstd::utf8;

verus! {

// ---------------------------------------------------------------------------
// Matching
// ---------------------------------------------------------------------------

/// Whether the reverse-DNS name `stem` answers to `query`: it has a dot, and one
/// of its dot-separated components begins with `query`, without regard to the
/// case of ASCII letters.
pub open spec fn answers_to(stem: Seq<char>, query: Seq<char>) -> bool {
    &&& stem.contains('.')
    &&& exists|i: int|
        0 <= i < text::split(stem, '.').len() && text::is_folded_prefix(
            query,
            #[trigger] text::split(stem, '.')[i],
        )
}

/// Whether the reverse-DNS name `icon_stem` matches the short `query`.
pub fn matches_query(icon_stem: &str, query: &str) -> (r: bool)
    ensures
        r == answers_to(icon_stem@, query@),
{
    if !contains_char(icon_stem, '.') {
        return false;
    }
    let components = split_text(icon_stem, '.');
    let ghost pieces = text::split(icon_stem@, '.');
    for i in 0..components.len()
        invariant
            icon_stem@.contains('.'),
            pieces == text::split(icon_stem@, '.'),
            components.deep_view() == pieces,
            forall|j: int| 0 <= j < i ==> !text::is_folded_prefix(query@, #[trigger] pieces[j]),
    {
        assert(pieces[i as int] == components@[i as int]@);
        if starts_with_ignoring_case(components[i], query) {
            return true;
        }
    }
    false
}

/// The case of ASCII letters counts neither in the name nor in the query.
pub proof fn matching_ignores_case(
    stem: Seq<char>,
    other_stem: Seq<char>,
    query: Seq<char>,
    other_query: Seq<char>,
)
    requires
        text::folded(stem) == text::folded(other_stem),
        text::folded(query) == text::folded(other_query),
    ensures
        answers_to(stem, query) == answers_to(other_stem, other_query),
{
    lemma_answers_folded(stem, query);
    lemma_answers_folded(other_stem, other_query);
}

/// A name answers to a query as the folded name does to it.
proof fn lemma_answers_folded(stem: Seq<char>, query: Seq<char>)
    ensures
        answers_to(stem, query) == {
            &&& text::folded(stem).contains('.')
            &&& exists|i: int|
                0 <= i < text::split(text::folded(stem), '.').len() && text::folded(
                    query,
                ).is_prefix_of(#[trigger] text::split(text::folded(stem), '.')[i])
        },
{
    let low = text::folded(stem);
    let pieces = text::split(stem, '.');
    let low_pieces = text::split(low, '.');
    text::lemma_split_folded(stem, '.');
    if stem.contains('.') {
        let k = choose|k: int| 0 <= k < stem.len() && stem[k] == '.';
        assert(low[k] == '.');
    }
    if low.contains('.') {
        let k = choose|k: int| 0 <= k < low.len() && low[k] == '.';
        assert(stem[k] == '.');
    }
    if answers_to(stem, query) {
        let i = choose|i: int|
            0 <= i < pieces.len() && text::is_folded_prefix(query, #[trigger] pieces[i]);
        assert(low_pieces[i] == text::folded(pieces[i]));
    }
    if exists|i: int|
        0 <= i < low_pieces.len() && text::folded(query).is_prefix_of(#[trigger] low_pieces[i]) {
        let i = choose|i: int|
            0 <= i < low_pieces.len() && text::folded(query).is_prefix_of(#[trigger] low_pieces[i]);
        assert(text::is_folded_prefix(query, pieces[i]));
    }
}

/// A name with a dot answers to each of its components, and to whatever one of
/// them begins with.
pub proof fn name_answers_to_its_components(stem: Seq<char>, i: int, query: Seq<char>)
    requires
        stem.contains('.'),
        0 <= i < text::split(stem, '.').len(),
        query.is_prefix_of(text::split(stem, '.')[i]),
    ensures
        answers_to(stem, query),
{
    let component = text::split(stem, '.')[i];
    assert(text::folded(query) =~= text::folded(component).subrange(0, query.len() as int));
    assert(text::is_folded_prefix(query, component));
}

/// A name that answers to a query answers to whatever the query begins with.
pub proof fn name_answers_to_shorter_query(stem: Seq<char>, query: Seq<char>, shorter: Seq<char>)
    requires
        answers_to(stem, query),
        shorter.is_prefix_of(query),
    ensures
        answers_to(stem, shorter),
{
    let i = choose|i: int|
        0 <= i < text::split(stem, '.').len() && text::is_folded_prefix(
            query,
            #[trigger] text::split(stem, '.')[i],
        );
    let component = text::folded(text::split(stem, '.')[i]);
    assert(text::folded(query) == component.subrange(0, query.len() as int));
    assert forall|k: int| 0 <= k < shorter.len() implies text::folded(shorter)[k]
        == component[k] by {
        assert(shorter[k] == query[k]);
        assert(text::folded(query)[k] == component[k]);
    }
    assert(text::folded(shorter) =~= component.subrange(0, shorter.len() as int));
    assert(text::is_folded_prefix(shorter, text::split(stem, '.')[i]));
}

/// Whether `query` stands in `stem` at `p`, at the beginning of a component and
/// within it, without regard to the case of ASCII letters.
pub open spec fn stands_at(stem: Seq<char>, query: Seq<char>, p: int) -> bool {
    &&& 0 <= p
    &&& p + query.len() <= stem.len()
    &&& p == 0 || stem[p - 1] == '.'
    &&& forall|m: int| p <= m < p + query.len() ==> #[trigger] stem[m] != '.'
    &&& forall|k: int|
        0 <= k < query.len() ==> text::fold_case(stem[p + k]) == text::fold_case(
            #[trigger] query[k],
        )
}

/// A name answers to a query exactly if it has a dot, and the query stands in it
/// at the beginning of a component.
pub proof fn matching_is_by_component_prefix(stem: Seq<char>, query: Seq<char>)
    ensures
        answers_to(stem, query) <==> stem.contains('.') && exists|p: int| #[trigger]
            stands_at(stem, query, p),
{
    let pieces = text::split(stem, '.');
    if answers_to(stem, query) {
        let i = choose|i: int|
            0 <= i < pieces.len() && text::is_folded_prefix(query, #[trigger] pieces[i]);
        let p = lemma_piece_at(stem, i);
        text::pieces_hold_no_separator(stem, '.', i);
        assert(text::folded(query).len() <= text::folded(pieces[i]).len());
        assert(query.len() <= pieces[i].len());
        assert forall|m: int| p <= m < p + query.len() implies #[trigger] stem[m] != '.' by {
            assert(pieces[i][m - p] == stem[p + (m - p)]);
            assert(pieces[i].contains(pieces[i][m - p]));
        }
        assert forall|k: int| 0 <= k < query.len() implies text::fold_case(stem[p + k])
            == text::fold_case(#[trigger] query[k]) by {
            assert(pieces[i][k] == stem[p + k]);
            assert(text::folded(query)[k] == text::folded(pieces[i])[k]);
        }
        assert(stands_at(stem, query, p));
    }
    if stem.contains('.') && exists|p: int| #[trigger] stands_at(stem, query, p) {
        let p = choose|p: int| #[trigger] stands_at(stem, query, p);
        let i = lemma_piece_from(stem, p, query.len() as int);
        let piece = pieces[i];
        assert forall|k: int| 0 <= k < query.len() implies text::folded(query)[k] == text::folded(
            piece,
        )[k] by {
            assert(piece[k] == stem[p + k]);
            assert(text::fold_case(stem[p + k]) == text::fold_case(query[k]));
        }
        assert(text::folded(query) =~= text::folded(piece).subrange(0, query.len() as int));
        assert(text::is_folded_prefix(query, piece));
    }
}

/// Where a component stands in a name.
proof fn lemma_piece_at(stem: Seq<char>, i: int) -> (p: int)
    requires
        0 <= i < text::split(stem, '.').len(),
    ensures
        0 <= p,
        p + text::split(stem, '.')[i].len() <= stem.len(),
        i == text::split(stem, '.').len() - 1 ==> p + text::split(stem, '.')[i].len()
            == stem.len(),
        p == 0 || stem[p - 1] == '.',
        forall|k: int|
            0 <= k < text::split(stem, '.')[i].len() ==> #[trigger] text::split(stem, '.')[i][k]
                == stem[p + k],
    decreases stem.len(),
{
    if stem.len() == 0 {
        0
    } else {
        let init = stem.drop_last();
        let pieces = text::split(init, '.');
        text::lemma_split_nonempty(init, '.');
        if stem.last() == '.' && i == pieces.len() {
            stem.len() as int
        } else {
            let p = lemma_piece_at(init, i);
            let piece = text::split(stem, '.')[i];
            assert forall|k: int| 0 <= k < piece.len() implies #[trigger] piece[k] == stem[p
                + k] by {
                if k < pieces[i].len() {
                    assert(pieces[i][k] == init[p + k]);
                }
            }
            p
        }
    }
}

/// The component that stands at the beginning of a name, or behind a dot, and
/// goes on for `n` characters at least.
proof fn lemma_piece_from(stem: Seq<char>, p: int, n: int) -> (i: int)
    requires
        0 <= p,
        0 <= n,
        p + n <= stem.len(),
        p == 0 || stem[p - 1] == '.',
        forall|m: int| p <= m < p + n ==> #[trigger] stem[m] != '.',
    ensures
        0 <= i < text::split(stem, '.').len(),
        n <= text::split(stem, '.')[i].len(),
        p + n == stem.len() ==> i == text::split(stem, '.').len() - 1 && text::split(
            stem,
            '.',
        )[i].len() == n,
        forall|k: int| 0 <= k < n ==> #[trigger] text::split(stem, '.')[i][k] == stem[p + k],
    decreases stem.len(),
{
    if stem.len() == 0 {
        0
    } else {
        let init = stem.drop_last();
        let pieces = text::split(init, '.');
        text::lemma_split_nonempty(init, '.');
        if p + n < stem.len() {
            assert forall|m: int| p <= m < p + n implies #[trigger] init[m] != '.' by {
                assert(stem[m] != '.');
            }
            let i = lemma_piece_from(init, p, n);
            assert forall|k: int| 0 <= k < n implies #[trigger] text::split(stem, '.')[i][k]
                == stem[p + k] by {
                assert(pieces[i][k] == init[p + k]);
            }
            i
        } else if n == 0 {
            pieces.len() as int
        } else {
            assert(stem[p + n - 1] != '.');
            assert forall|m: int| p <= m < p + n - 1 implies #[trigger] init[m] != '.' by {
                assert(stem[m] != '.');
            }
            let i = lemma_piece_from(init, p, n - 1);
            assert forall|k: int| 0 <= k < n implies #[trigger] text::split(stem, '.')[i][k]
                == stem[p + k] by {
                if k < n - 1 {
                    assert(pieces[i][k] == init[p + k]);
                }
            }
            i
        }
    }
}

/// A name without a dot answers to no query.
pub proof fn plain_name_answers_to_nothing(stem: Seq<char>, query: Seq<char>)
    requires
        !stem.contains('.'),
    ensures
        !answers_to(stem, query),
{
}

// ---------------------------------------------------------------------------
// The index of reverse-DNS names
// ---------------------------------------------------------------------------

/// The part of a file name before its last dot; the whole of a name without one.
pub open spec fn stem_of(name: Seq<char>) -> Seq<char>
    decreases name.len(),
{
    if !name.contains('.') {
        name
    } else if name.last() == '.' {
        name.drop_last()
    } else {
        stem_of(name.drop_last())
    }
}

/// The stem of a name without a dot is the name.
pub proof fn stem_of_plain_name_is_the_name(name: Seq<char>)
    requires
        !name.contains('.'),
    ensures
        stem_of(name) == name,
{
}

/// The stem of a name is what stands before a dot and a word without one.
pub proof fn stem_ends_before_last_dot(stem: Seq<char>, ext: Seq<char>)
    requires
        !ext.contains('.'),
    ensures
        stem_of(stem.push('.') + ext) == stem,
    decreases ext.len(),
{
    let name = stem.push('.') + ext;
    assert(name[stem.len() as int] == '.');
    if ext.len() == 0 {
        assert(name =~= stem.push('.'));
        assert(name.drop_last() =~= stem);
    } else {
        let init = ext.drop_last();
        assert(ext.contains(ext.last()));
        assert forall|c: char| init.contains(c) implies ext.contains(c) by {
            let k = choose|k: int| 0 <= k < init.len() && init[k] == c;
            assert(ext[k] == c);
        }
        assert(name.last() == ext.last());
        assert(name.drop_last() =~= stem.push('.') + init);
        stem_ends_before_last_dot(stem, init);
    }
}

/// The part of the file name `name` before its last dot.
pub fn file_stem<'a>(name: &'a str) -> (stem: &'a str)
    ensures
        stem@ == stem_of(name@),
{
    let v = chars_of(name);
    let mut i: usize = v.len();
    assert(name@.take(i as int) =~= name@);
    while i > 0
        invariant
            v@ == name@,
            i <= v.len(),
            forall|j: int| i <= j < v.len() ==> name@[j] != '.',
            name@.contains('.') ==> stem_of(name@) == stem_of(name@.take(i as int)),
        decreases i,
    {
        let ghost head = name@.take(i as int);
        assert(head.drop_last() =~= name@.take(i - 1));
        if v[i - 1] == '.' {
            assert(head[i - 1] == '.');
            assert(name@[i - 1] == '.');
            return name.substring_char(0, i - 1);
        }
        assert(name@.contains('.') ==> head.contains('.')) by {
            if name@.contains('.') {
                let k = choose|k: int| 0 <= k < name@.len() && name@[k] == '.';
                assert(head[k] == '.');
            }
        }
        i = i - 1;
    }
    name
}

/// The name that a directory entry adds to the index: the stem of a file, if it
/// is valid UTF-8 and has a dot.
pub open spec fn indexed() -> spec_fn(Entry) -> Set<Seq<char>> {
    |entry: Entry|
        match encoding::text_of(entry.name) {
            Some(name) if entry.kind == EntryKind::File && stem_of(name).contains('.') => set![
                stem_of(name),
            ],
            _ => Set::empty(),
        }
}

/// The subdirectory `apps` of the directory `dir`.
pub open spec fn apps_in(dir: Seq<u8>) -> Seq<u8> {
    path::joined(dir, utf8::encode_utf8("apps"@))
}

/// Where the icons of the size directory at `dir` are: in its subdirectory
/// `apps`, or in the directory itself where there is none.
pub open spec fn icons_in(dir: Seq<u8>, has_apps: bool) -> Seq<u8> {
    if has_apps {
        apps_in(dir)
    } else {
        dir
    }
}

/// Where the icons of the size directory at `dir` are on the disk `disk`.
pub open spec fn icons_of(disk: Disk, dir: Seq<u8>) -> Seq<u8> {
    icons_in(dir, disk.present.contains(apps_in(dir)))
}

/// The names in the size directory at `dir`.
pub open spec fn size_dir_stems(disk: Disk, dir: Seq<u8>) -> Set<Seq<char>> {
    names::gathered(disk.entries(icons_of(disk, dir)), indexed())
}

/// The names below an entry of the theme directory `dir`.
pub open spec fn below_theme(disk: Disk, dir: Seq<u8>) -> spec_fn(Entry) -> Set<Seq<char>> {
    |entry: Entry|
        if entry.kind == EntryKind::Directory {
            size_dir_stems(disk, path::joined(dir, entry.name))
        } else {
            Set::empty()
        }
}

/// The names in the theme directory at `dir`.
pub open spec fn theme_stems(disk: Disk, dir: Seq<u8>) -> Set<Seq<char>> {
    names::gathered(disk.entries(dir), below_theme(disk, dir))
}

/// The names below an entry of the base directory `base`.
pub open spec fn below_base(disk: Disk, base: Seq<u8>) -> spec_fn(Entry) -> Set<Seq<char>> {
    |entry: Entry|
        if entry.kind == EntryKind::Directory {
            theme_stems(disk, path::joined(base, entry.name))
        } else {
            Set::empty()
        }
}

/// The names below a base directory, as a function of that directory.
pub open spec fn base_stems(disk: Disk) -> spec_fn(Seq<u8>) -> Set<Seq<char>> {
    |base: Seq<u8>|
        if size_dirs::is_pixmaps(base) {
            Set::empty()
        } else {
            names::gathered(disk.entries(base), below_base(disk, base))
        }
}

/// All reverse-DNS names below the base directories `bases`, in any theme and
/// at any size, each once and in ascending order.
pub open spec fn fuzzy_index(disk: Disk, bases: Seq<Seq<u8>>) -> Seq<Seq<char>> {
    names::ascending(names::gathered(bases, base_stems(disk)))
}

/// The index lists the reverse-DNS names below the base directories, each once
/// and in ascending order, and every name in it has a dot.
pub proof fn index_lists_each_name_once(disk: Disk, bases: Seq<Seq<u8>>)
    ensures
        fuzzy_index(disk, bases).to_set() == names::gathered(bases, base_stems(disk)),
        is_index(fuzzy_index(disk, bases)),
        fuzzy_index(disk, bases).no_duplicates(),
{
    let index = fuzzy_index(disk, bases);
    let all = names::gathered(bases, base_stems(disk));
    assert forall|k: int| 0 <= k < bases.len() implies base_stems(disk)(
        #[trigger] bases[k],
    ).finite() by {
        lemma_base_stems(disk, bases[k]);
    }
    names::lemma_gathered_finite(bases, base_stems(disk));
    names::ascending_list_exists(all);
    names::lemma_ascending_distinct(index);
    assert forall|i: int| 0 <= i < index.len() implies (#[trigger] index[i]).contains('.') by {
        let stem = index[i];
        assert(index.to_set().contains(stem));
        let k = choose|k: int| 0 <= k < bases.len() && base_stems(disk)(bases[k]).contains(stem);
        lemma_base_stems(disk, bases[k]);
    }
}

/// Below a base directory there are finitely many indexed names, and each has a
/// dot.
proof fn lemma_base_stems(disk: Disk, base: Seq<u8>)
    ensures
        base_stems(disk)(base).finite(),
        forall|stem: Seq<char>| #[trigger]
            base_stems(disk)(base).contains(stem) ==> stem.contains('.'),
{
    let entries = disk.entries(base);
    let f = below_base(disk, base);
    assert forall|k: int| 0 <= k < entries.len() implies f(#[trigger] entries[k]).finite() by {
        lemma_theme_stems(disk, path::joined(base, entries[k].name));
    }
    names::lemma_gathered_finite(entries, f);
    assert forall|stem: Seq<char>| #[trigger]
        base_stems(disk)(base).contains(stem) implies stem.contains('.') by {
        let k = choose|k: int| 0 <= k < entries.len() && f(#[trigger] entries[k]).contains(stem);
        lemma_theme_stems(disk, path::joined(base, entries[k].name));
    }
}

proof fn lemma_theme_stems(disk: Disk, dir: Seq<u8>)
    ensures
        theme_stems(disk, dir).finite(),
        forall|stem: Seq<char>| #[trigger]
            theme_stems(disk, dir).contains(stem) ==> stem.contains('.'),
{
    let entries = disk.entries(dir);
    let f = below_theme(disk, dir);
    assert forall|k: int| 0 <= k < entries.len() implies f(#[trigger] entries[k]).finite() by {
        lemma_size_dir_stems(disk, path::joined(dir, entries[k].name));
    }
    names::lemma_gathered_finite(entries, f);
    assert forall|stem: Seq<char>| #[trigger]
        theme_stems(disk, dir).contains(stem) implies stem.contains('.') by {
        let k = choose|k: int| 0 <= k < entries.len() && f(#[trigger] entries[k]).contains(stem);
        lemma_size_dir_stems(disk, path::joined(dir, entries[k].name));
    }
}

proof fn lemma_size_dir_stems(disk: Disk, dir: Seq<u8>)
    ensures
        size_dir_stems(disk, dir).finite(),
        forall|stem: Seq<char>| #[trigger]
            size_dir_stems(disk, dir).contains(stem) ==> stem.contains('.'),
{
    let entries = disk.entries(icons_of(disk, dir));
    names::lemma_gathered_finite(entries, indexed());
}

/// Whether `stems` can be an index: an ascending list of names with a dot.
pub open spec fn is_index(stems: Seq<Seq<char>>) -> bool {
    &&& names::is_ascending(stems)
    &&& forall|i: int| 0 <= i < stems.len() ==> (#[trigger] stems[i]).contains('.')
}

proof fn lemma_index_insert(stems: Seq<Seq<char>>, longer: Seq<Seq<char>>, stem: Seq<char>)
    requires
        is_index(stems),
        names::is_ascending(longer),
        longer.to_set() == stems.to_set().insert(stem),
        stem.contains('.'),
    ensures
        is_index(longer),
{
    assert forall|i: int| 0 <= i < longer.len() implies (#[trigger] longer[i]).contains('.') by {
        assert(longer.to_set().contains(longer[i]));
        if longer[i] != stem {
            assert(stems.to_set().contains(longer[i]));
        }
    }
}

/// Adds the names that the directory entries `entries` give to `stems`.
fn add_stems(entries: &Vec<DirEntry>, stems: &mut Vec<String>)
    requires
        is_index(old(stems).deep_view()),
    ensures
        is_index(final(stems).deep_view()),
        final(stems).deep_view().to_set() == old(stems).deep_view().to_set().union(
            names::gathered(entries.deep_view(), indexed()),
        ),
{
    let ghost before = stems.deep_view().to_set();
    let ghost model = entries.deep_view();
    assert(model.take(0) =~= Seq::empty());
    proof {
        names::lemma_gathered_empty(indexed());
    }
    assert(before.union(Set::empty()) =~= before);
    for i in 0..entries.len()
        invariant
            model == entries.deep_view(),
            is_index(stems.deep_view()),
            stems.deep_view().to_set() == before.union(
                names::gathered(model.take(i as int), indexed()),
            ),
    {
        let entry = &entries[i];
        assert(model[i as int] == entry@);
        let ghost so_far = stems.deep_view().to_set();
        proof {
            names::lemma_gathered_take(model, indexed(), i as int);
        }
        if entry.kind == EntryKind::File {
            if let Some(name) = decode_text(entry.name.as_slice()) {
                let stem = file_stem(name);
                if contains_char(stem, '.') {
                    let ghost listed = stems.deep_view();
                    insert_name(stems, stem);
                    proof {
                        lemma_index_insert(listed, stems.deep_view(), stem@);
                    }
                    assert(so_far.insert(stem@) =~= so_far.union(indexed()(entry@)));
                }
            }
        }
        assert(stems.deep_view().to_set() =~= so_far.union(indexed()(entry@)));
        assert(stems.deep_view().to_set() =~= before.union(
            names::gathered(model.take(i + 1), indexed()),
        ));
    }
    assert(model.take(model.len() as int) =~= model);
}

// ---------------------------------------------------------------------------
// Collecting the index
// ---------------------------------------------------------------------------

/// Whether the icons of a size directory may be reported with a set of names, as
/// a function of both: its subdirectory `apps` is listed if it is said to be
/// there, else the directory itself.
pub open spec fn reported_icons<P: Fn(&FsPath) -> bool, L: Fn(&FsPath) -> Option<Vec<DirEntry>>>(
    is_present: P,
    list_dir: L,
) -> spec_fn(Seq<u8>, Set<Seq<char>>) -> bool {
    |dir: Seq<u8>, stems: Set<Seq<char>>|
        exists|has_apps: bool, entries: Seq<Entry>|
            {
                &&& #[trigger] disk::may_answer(is_present, apps_in(dir), has_apps)
                &&& #[trigger] disk::may_list(list_dir, icons_in(dir, has_apps), entries)
                &&& stems == names::gathered(entries, indexed())
            }
}

/// Whether an entry of the directory `dir` may be reported with a set of names,
/// as a function of both: only a directory has any, and `gives` says which.
pub open spec fn reported_entry(
    dir: Seq<u8>,
    gives: spec_fn(Seq<u8>, Set<Seq<char>>) -> bool,
) -> spec_fn(Entry, Set<Seq<char>>) -> bool {
    |entry: Entry, stems: Set<Seq<char>>|
        if entry.kind == EntryKind::Directory {
            gives(path::joined(dir, entry.name), stems)
        } else {
            stems == Set::<Seq<char>>::empty()
        }
}

/// Whether the subdirectories of a directory may be reported with a set of names,
/// as a function of both, where `gives` says which names one of them may have.
pub open spec fn reported_below<L: Fn(&FsPath) -> Option<Vec<DirEntry>>>(
    list_dir: L,
    gives: spec_fn(Seq<u8>, Set<Seq<char>>) -> bool,
) -> spec_fn(Seq<u8>, Set<Seq<char>>) -> bool {
    |dir: Seq<u8>, stems: Set<Seq<char>>|
        exists|entries: Seq<Entry>, parts: Seq<Set<Seq<char>>>|
            {
                &&& #[trigger] disk::may_list(list_dir, dir, entries)
                &&& #[trigger] disk::piecewise(entries, reported_entry(dir, gives), parts)
                &&& stems == names::united(parts)
            }
}

/// Whether a theme directory may be reported with a set of names, as a function
/// of both: every size directory in it counts.
pub open spec fn reported_theme<P: Fn(&FsPath) -> bool, L: Fn(&FsPath) -> Option<Vec<DirEntry>>>(
    is_present: P,
    list_dir: L,
) -> spec_fn(Seq<u8>, Set<Seq<char>>) -> bool {
    reported_below(list_dir, reported_icons(is_present, list_dir))
}

/// Whether a base directory may be reported with a set of names, as a function of
/// both: every theme in it counts.
pub open spec fn reported_base<P: Fn(&FsPath) -> bool, L: Fn(&FsPath) -> Option<Vec<DirEntry>>>(
    is_present: P,
    list_dir: L,
) -> spec_fn(Seq<u8>, Set<Seq<char>>) -> bool {
    |base: Seq<u8>, stems: Set<Seq<char>>|
        if size_dirs::is_pixmaps(base) {
            stems == Set::<Seq<char>>::empty()
        } else {
            reported_below(list_dir, reported_theme(is_present, list_dir))(base, stems)
        }
}

/// Whether `index` lists, in ascending order, names that the base directories
/// `bases` may be reported with.
pub open spec fn may_index<P: Fn(&FsPath) -> bool, L: Fn(&FsPath) -> Option<Vec<DirEntry>>>(
    is_present: P,
    list_dir: L,
    bases: Seq<Seq<u8>>,
    index: Seq<Seq<char>>,
) -> bool {
    &&& names::is_ascending(index)
    &&& exists|parts: Seq<Set<Seq<char>>>| #[trigger]
        disk::piecewise(bases, reported_base(is_present, list_dir), parts) && index.to_set()
            == names::united(parts)
}

/// Where a subdirectory can be reported with one set of names only, and answers
/// agree with a disk, the names reported are those gathered from its entries.
proof fn lemma_reported_below<L: Fn(&FsPath) -> Option<Vec<DirEntry>>>(
    list_dir: L,
    disk: Disk,
    gives: spec_fn(Seq<u8>, Set<Seq<char>>) -> bool,
    below: spec_fn(Entry) -> Set<Seq<char>>,
    dir: Seq<u8>,
    stems: Set<Seq<char>>,
)
    requires
        disk::reports_listings(list_dir, disk),
        reported_below(list_dir, gives)(dir, stems),
        forall|entry: Entry, part: Set<Seq<char>>| #[trigger]
            reported_entry(dir, gives)(entry, part) ==> part == below(entry),
    ensures
        stems == names::gathered(disk.entries(dir), below),
{
    let (entries, parts) = choose|entries: Seq<Entry>, parts: Seq<Set<Seq<char>>>|
        {
            &&& #[trigger] disk::may_list(list_dir, dir, entries)
            &&& #[trigger] disk::piecewise(entries, reported_entry(dir, gives), parts)
            &&& stems == names::united(parts)
        };
    disk::lemma_may_list(list_dir, disk, dir, entries);
    disk::lemma_piecewise(entries, reported_entry(dir, gives), parts, below);
    names::lemma_united_map(entries, below);
}

/// Answers that agree with a disk report the names of a theme that it has.
proof fn lemma_reported_theme<P: Fn(&FsPath) -> bool, L: Fn(&FsPath) -> Option<Vec<DirEntry>>>(
    is_present: P,
    list_dir: L,
    disk: Disk,
    dir: Seq<u8>,
    stems: Set<Seq<char>>,
)
    requires
        disk::reports(is_present, list_dir, disk),
        reported_theme(is_present, list_dir)(dir, stems),
    ensures
        stems == theme_stems(disk, dir),
{
    let gives = reported_icons(is_present, list_dir);
    assert forall|entry: Entry, part: Set<Seq<char>>| #[trigger]
        reported_entry(dir, gives)(entry, part) implies part == below_theme(disk, dir)(entry) by {
        if entry.kind == EntryKind::Directory {
            let size_dir = path::joined(dir, entry.name);
            let (has_apps, entries) = choose|has_apps: bool, entries: Seq<Entry>|
                {
                    &&& #[trigger] disk::may_answer(is_present, apps_in(size_dir), has_apps)
                    &&& #[trigger] disk::may_list(list_dir, icons_in(size_dir, has_apps), entries)
                    &&& part == names::gathered(entries, indexed())
                };
            assert(has_apps == disk.present.contains(apps_in(size_dir)));
            disk::lemma_may_list(list_dir, disk, icons_in(size_dir, has_apps), entries);
        }
    }
    lemma_reported_below(list_dir, disk, gives, below_theme(disk, dir), dir, stems);
}

/// Answers that agree with a disk report the names in it.
proof fn lemma_may_index<P: Fn(&FsPath) -> bool, L: Fn(&FsPath) -> Option<Vec<DirEntry>>>(
    is_present: P,
    list_dir: L,
    disk: Disk,
    bases: Seq<Seq<u8>>,
    index: Seq<Seq<char>>,
)
    requires
        disk::reports(is_present, list_dir, disk),
        may_index(is_present, list_dir, bases, index),
    ensures
        index == fuzzy_index(disk, bases),
{
    let gives = reported_base(is_present, list_dir);
    let in_theme = reported_theme(is_present, list_dir);
    let parts = choose|parts: Seq<Set<Seq<char>>>| #[trigger]
        disk::piecewise(bases, gives, parts) && index.to_set() == names::united(parts);
    assert forall|i: int, part: Set<Seq<char>>|
        0 <= i < bases.len() && #[trigger] gives(bases[i], part) implies part == base_stems(disk)(
        bases[i],
    ) by {
        let base = bases[i];
        if !size_dirs::is_pixmaps(base) {
            assert forall|entry: Entry, stems: Set<Seq<char>>| #[trigger]
                reported_entry(base, in_theme)(entry, stems) implies stems == below_base(
                disk,
                base,
            )(entry) by {
                if entry.kind == EntryKind::Directory {
                    lemma_reported_theme(
                        is_present,
                        list_dir,
                        disk,
                        path::joined(base, entry.name),
                        stems,
                    );
                }
            }
            lemma_reported_below(list_dir, disk, in_theme, below_base(disk, base), base, part);
        }
    }
    disk::lemma_piecewise(bases, gives, parts, base_stems(disk));
    names::lemma_united_map(bases, base_stems(disk));
    names::lemma_ascending(index);
}

/// Whether `after` is an index with the names in `before` and those that the
/// directory `dir` may be reported with, as `gives` says.
spec fn extended(
    before: Seq<Seq<char>>,
    after: Seq<Seq<char>>,
    gives: spec_fn(Seq<u8>, Set<Seq<char>>) -> bool,
    dir: Seq<u8>,
) -> bool {
    &&& is_index(after)
    &&& exists|part: Set<Seq<char>>| #[trigger]
        gives(dir, part) && after.to_set() == before.to_set().union(part)
}

/// Adds the names in the size directory at `dir` to `stems`.
fn add_size_dir_stems<P: Fn(&FsPath) -> bool, L: Fn(&FsPath) -> Option<Vec<DirEntry>>>(
    dir: FsPath,
    is_present: &P,
    list_dir: &L,
    stems: &mut Vec<String>,
)
    requires
        disk::probes_paths(*is_present),
        disk::probes_paths(*list_dir),
        is_index(old(stems).deep_view()),
    ensures
        extended(
            old(stems).deep_view(),
            final(stems).deep_view(),
            reported_icons(*is_present, *list_dir),
            dir@,
        ),
{
    let ghost before = stems.deep_view();
    let ghost dir_path = dir@;
    let apps = dir.join_text("apps");
    let has_apps = is_present(&apps);
    assert(disk::may_answer(*is_present, apps_in(dir_path), has_apps));
    let scanned = if has_apps {
        apps
    } else {
        dir
    };
    let answer = list_dir(&scanned);
    let ghost entries = disk::entries_in(answer);
    assert(disk::may_list(*list_dir, icons_in(dir_path, has_apps), entries));
    match answer {
        Some(entries) => {
            add_stems(&entries, stems);
        },
        None => {
            proof {
                names::lemma_gathered_empty(indexed());
            }
            assert(before.to_set().union(Set::empty()) =~= before.to_set());
        },
    }
    assert(reported_icons(*is_present, *list_dir)(
        dir_path,
        names::gathered(entries, indexed()),
    ));
}

/// Adds the names in the theme directory at `dir` to `stems`.
fn add_theme_stems<P: Fn(&FsPath) -> bool, L: Fn(&FsPath) -> Option<Vec<DirEntry>>>(
    dir: &FsPath,
    is_present: &P,
    list_dir: &L,
    stems: &mut Vec<String>,
)
    requires
        disk::probes_paths(*is_present),
        disk::probes_paths(*list_dir),
        is_index(old(stems).deep_view()),
    ensures
        extended(
            old(stems).deep_view(),
            final(stems).deep_view(),
            reported_theme(*is_present, *list_dir),
            dir@,
        ),
{
    let ghost before = stems.deep_view().to_set();
    let ghost gives = reported_icons(*is_present, *list_dir);
    let ghost mut parts: Seq<Set<Seq<char>>> = Seq::empty();
    let answer = list_dir(dir);
    let ghost model = disk::entries_in(answer);
    assert(disk::may_list(*list_dir, dir@, model));
    let entries = match answer {
        Some(entries) => entries,
        None => Vec::new(),
    };
    assert(entries.deep_view() =~= model);
    proof {
        names::lemma_united_empty();
    }
    assert(before.union(Set::empty()) =~= before);
    for i in 0..entries.len()
        invariant
            disk::probes_paths(*is_present),
            disk::probes_paths(*list_dir),
            model == entries.deep_view(),
            gives == reported_icons(*is_present, *list_dir),
            is_index(stems.deep_view()),
            disk::piecewise(model.take(i as int), reported_entry(dir@, gives), parts),
            stems.deep_view().to_set() == before.union(names::united(parts)),
    {
        let entry = &entries[i];
        assert(model[i as int] == entry@);
        let ghost so_far = stems.deep_view().to_set();
        let ghost mut part: Set<Seq<char>> = Set::empty();
        if entry.kind == EntryKind::Directory {
            let size_dir = dir.join(entry.name.as_slice());
            let ghost size_path = size_dir@;
            add_size_dir_stems(size_dir, is_present, list_dir, stems);
            proof {
                part = choose|part: Set<Seq<char>>| #[trigger]
                    gives(size_path, part) && stems.deep_view().to_set() == so_far.union(part);
            }
        }
        proof {
            disk::lemma_piecewise_step(
                model,
                reported_entry(dir@, gives),
                parts,
                i as int,
                part,
            );
            names::lemma_united_push(parts, part);
            parts = parts.push(part);
        }
        assert(stems.deep_view().to_set() =~= before.union(names::united(parts)));
    }
    assert(model.take(model.len() as int) =~= model);
    assert(reported_theme(*is_present, *list_dir)(dir@, names::united(parts)));
}

/// Adds the names below the base directory `base` to `stems`.
fn add_base_stems<P: Fn(&FsPath) -> bool, L: Fn(&FsPath) -> Option<Vec<DirEntry>>>(
    base: &FsPath,
    is_present: &P,
    list_dir: &L,
    stems: &mut Vec<String>,
)
    requires
        disk::probes_paths(*is_present),
        disk::probes_paths(*list_dir),
        is_index(old(stems).deep_view()),
    ensures
        extended(
            old(stems).deep_view(),
            final(stems).deep_view(),
            reported_base(*is_present, *list_dir),
            base@,
        ),
{
    let ghost before = stems.deep_view().to_set();
    assert(before.union(Set::empty()) =~= before);
    if base.ends_with("pixmaps") {
        assert(reported_base(*is_present, *list_dir)(base@, Set::empty()));
        return ;
    }
    let ghost gives = reported_theme(*is_present, *list_dir);
    let ghost mut parts: Seq<Set<Seq<char>>> = Seq::empty();
    let answer = list_dir(base);
    let ghost model = disk::entries_in(answer);
    assert(disk::may_list(*list_dir, base@, model));
    let entries = match answer {
        Some(entries) => entries,
        None => Vec::new(),
    };
    assert(entries.deep_view() =~= model);
    proof {
        names::lemma_united_empty();
    }
    for i in 0..entries.len()
        invariant
            disk::probes_paths(*is_present),
            disk::probes_paths(*list_dir),
            model == entries.deep_view(),
            gives == reported_theme(*is_present, *list_dir),
            is_index(stems.deep_view()),
            disk::piecewise(model.take(i as int), reported_entry(base@, gives), parts),
            stems.deep_view().to_set() == before.union(names::united(parts)),
    {
        let entry = &entries[i];
        assert(model[i as int] == entry@);
        let ghost so_far = stems.deep_view().to_set();
        let ghost mut part: Set<Seq<char>> = Set::empty();
        if entry.kind == EntryKind::Directory {
            let theme = base.join(entry.name.as_slice());
            add_theme_stems(&theme, is_present, list_dir, stems);
            proof {
                part = choose|part: Set<Seq<char>>| #[trigger]
                    gives(theme@, part) && stems.deep_view().to_set() == so_far.union(part);
            }
        }
        proof {
            disk::lemma_piecewise_step(
                model,
                reported_entry(base@, gives),
                parts,
                i as int,
                part,
            );
            names::lemma_united_push(parts, part);
            parts = parts.push(part);
        }
        assert(stems.deep_view().to_set() =~= before.union(names::united(parts)));
    }
    assert(model.take(model.len() as int) =~= model);
    assert(reported_base(*is_present, *list_dir)(base@, names::united(parts)));
}

/// All reverse-DNS names below the directories `base_dirs`, each once and in
/// ascending order.
///
/// Every size directory of every theme is looked at, since an application may
/// ship its icon at one size only.
pub fn build_fuzzy_index<P: Fn(&FsPath) -> bool, L: Fn(&FsPath) -> Option<Vec<DirEntry>>>(
    base_dirs: &Vec<FsPath>,
    is_present: &P,
    list_dir: &L,
) -> (index: Vec<String>)
    requires
        disk::probes_paths(*is_present),
        disk::probes_paths(*list_dir),
    ensures
        may_index(*is_present, *list_dir, base_dirs.deep_view(), index.deep_view()),
        is_index(index.deep_view()),
        forall|disk: Disk| #[trigger]
            disk::reports(*is_present, *list_dir, disk) ==> index.deep_view() == fuzzy_index(
                disk,
                base_dirs.deep_view(),
            ),
{
    let ghost bases = base_dirs.deep_view();
    let ghost gives = reported_base(*is_present, *list_dir);
    let ghost mut parts: Seq<Set<Seq<char>>> = Seq::empty();
    let mut stems: Vec<String> = Vec::new();
    proof {
        names::lemma_united_empty();
    }
    assert(stems.deep_view().to_set() =~= Set::empty());
    for i in 0..base_dirs.len()
        invariant
            disk::probes_paths(*is_present),
            disk::probes_paths(*list_dir),
            bases == base_dirs.deep_view(),
            gives == reported_base(*is_present, *list_dir),
            is_index(stems.deep_view()),
            disk::piecewise(bases.take(i as int), gives, parts),
            stems.deep_view().to_set() == names::united(parts),
    {
        let base = &base_dirs[i];
        assert(bases[i as int] == base@);
        let ghost so_far = stems.deep_view().to_set();
        add_base_stems(base, is_present, list_dir, &mut stems);
        proof {
            let part = choose|part: Set<Seq<char>>| #[trigger]
                gives(base@, part) && stems.deep_view().to_set() == so_far.union(part);
            disk::lemma_piecewise_step(bases, gives, parts, i as int, part);
            names::lemma_united_push(parts, part);
            parts = parts.push(part);
        }
    }
    assert(bases.take(bases.len() as int) =~= bases);
    assert forall|disk: Disk| #[trigger]
        disk::reports(*is_present, *list_dir, disk) implies stems.deep_view() == fuzzy_index(
        disk,
        bases,
    ) by {
        lemma_may_index(*is_present, *list_dir, disk, bases, stems.deep_view());
    }
    stems
}

/// Fills the cache `index` with the index of the directories `base_dirs`, unless
/// it has been filled before.
pub fn fuzzy_index_cached<P: Fn(&FsPath) -> bool, L: Fn(&FsPath) -> Option<Vec<DirEntry>>>(
    index: &mut Option<Vec<String>>,
    base_dirs: &Vec<FsPath>,
    is_present: &P,
    list_dir: &L,
)
    requires
        disk::probes_paths(*is_present),
        disk::probes_paths(*list_dir),
    ensures
        *final(index) is Some,
        *old(index) is Some ==> *final(index) == *old(index),
        *old(index) is None ==> is_index(final(index)->0.deep_view()) && may_index(
            *is_present,
            *list_dir,
            base_dirs.deep_view(),
            final(index)->0.deep_view(),
        ),
        forall|disk: Disk| #[trigger]
            disk::reports(*is_present, *list_dir, disk) && *old(index) is None
                ==> final(index)->0.deep_view() == fuzzy_index(disk, base_dirs.deep_view()),
{
    if index.is_none() {
        *index = Some(build_fuzzy_index(base_dirs, is_present, list_dir));
    }
}

// ---------------------------------------------------------------------------
// Searching
// ---------------------------------------------------------------------------

/// The files that may hold the icon of an indexed name that answers to `query`,
/// as a function of the indexed name.
pub open spec fn candidate_files(
    disk: Disk,
    bases: Seq<Seq<u8>>,
    themes: Seq<Seq<char>>,
    query: Seq<char>,
    size: u32,
) -> spec_fn(Seq<char>) -> Seq<Seq<u8>> {
    |stem: Seq<char>|
        if answers_to(stem, query) {
            themes::named_files(disk, bases, themes, stem, size)
        } else {
            Seq::empty()
        }
}

/// Whether `file` is the path of an icon that has a name in `index` which answers
/// to `query`.
pub open spec fn named_after_similar(
    file: Seq<u8>,
    index: Seq<Seq<char>>,
    query: Seq<char>,
) -> bool {
    exists|stem: Seq<char>|
        {
            &&& index.contains(stem)
            &&& answers_to(stem, query)
            &&& #[trigger] icon_dir::named_after(file, stem)
        }
}

/// The files that may hold the icon of a name in `index` that answers to
/// `query`, one name after the other.
pub open spec fn fuzzy_files(
    disk: Disk,
    bases: Seq<Seq<u8>>,
    themes: Seq<Seq<char>>,
    index: Seq<Seq<char>>,
    query: Seq<char>,
    size: u32,
) -> Seq<Seq<u8>> {
    index.flat_map(candidate_files(disk, bases, themes, query, size))
}

/// What is found for a query is what is found, at the same size and in the same
/// themes, for the first name in the index that answers to it and has an icon;
/// where there is no such name, nothing is found.
pub proof fn first_answering_name_gives_the_icon(
    disk: Disk,
    bases: Seq<Seq<u8>>,
    themes: Seq<Seq<char>>,
    index: Seq<Seq<char>>,
    query: Seq<char>,
    size: u32,
)
    ensures
        ({
            let found = disk::first_present(
                disk.present,
                fuzzy_files(disk, bases, themes, index, query, size),
            );
            let own = |stem: Seq<char>|
                disk::first_present(
                    disk.present,
                    themes::named_files(disk, bases, themes, stem, size),
                );
            match found {
                Some(_) => exists|i: int|
                    {
                        &&& 0 <= i < index.len()
                        &&& answers_to(#[trigger] index[i], query)
                        &&& own(index[i]) == found
                        &&& forall|j: int|
                            0 <= j < i && answers_to(#[trigger] index[j], query) ==> own(index[j])
                                is None
                    },
                None => forall|j: int|
                    0 <= j < index.len() && answers_to(#[trigger] index[j], query) ==> own(
                        index[j],
                    ) is None,
            }
        }),
{
    let files_of = candidate_files(disk, bases, themes, query, size);
    let found = disk::first_present(
        disk.present,
        fuzzy_files(disk, bases, themes, index, query, size),
    );
    if found is Some {
        let i = disk::lemma_first_present_item(disk.present, index, files_of);
        assert(answers_to(index[i], query));
        assert forall|j: int| 0 <= j < i && answers_to(#[trigger] index[j], query) implies
            disk::first_present(
            disk.present,
            themes::named_files(disk, bases, themes, index[j], size),
        ) is None by {
            assert(disk::first_present(disk.present, files_of(index[j])) is None);
        }
    } else {
        assert forall|j: int|
            0 <= j < index.len() && answers_to(#[trigger] index[j], query) implies
            disk::first_present(
            disk.present,
            themes::named_files(disk, bases, themes, index[j], size),
        ) is None by {
            disk::lemma_no_item(disk.present, index, files_of, j);
        }
    }
}

/// Whether looking for the icon of an indexed name may end with a result, as a
/// function of both: only a name that answers to `query` is looked for.
pub open spec fn candidate_search<
    P: Fn(&FsPath) -> bool,
    L: Fn(&FsPath) -> Option<Vec<DirEntry>>,
>(
    is_present: P,
    list_dir: L,
    bases: Seq<Seq<u8>>,
    themes: Seq<Seq<char>>,
    query: Seq<char>,
    size: u32,
) -> spec_fn(Seq<char>, Option<Seq<u8>>) -> bool {
    |stem: Seq<char>, found: Option<Seq<u8>>|
        if answers_to(stem, query) {
            themes::name_search(is_present, list_dir, bases, themes, size)(stem, found)
        } else {
            found is None
        }
}

/// Answers that agree with a disk lead to the first file under a similar name
/// that it has.
proof fn lemma_candidates_search<P: Fn(&FsPath) -> bool, L: Fn(&FsPath) -> Option<Vec<DirEntry>>>(
    is_present: P,
    list_dir: L,
    disk: Disk,
    bases: Seq<Seq<u8>>,
    themes: Seq<Seq<char>>,
    index: Seq<Seq<char>>,
    query: Seq<char>,
    size: u32,
    found: Option<Seq<u8>>,
)
    requires
        disk::reports(is_present, list_dir, disk),
        disk::first_found(
            index,
            candidate_search(is_present, list_dir, bases, themes, query, size),
            found,
        ),
    ensures
        found == disk::first_present(
            disk.present,
            fuzzy_files(disk, bases, themes, index, query, size),
        ),
{
    let search = candidate_search(is_present, list_dir, bases, themes, query, size);
    let files_of = candidate_files(disk, bases, themes, query, size);
    assert forall|i: int, x: Option<Seq<u8>>|
        0 <= i < index.len() && #[trigger] search(index[i], x) implies x == disk::first_present(
        disk.present,
        files_of(index[i]),
    ) by {
        if answers_to(index[i], query) {
            themes::lemma_name_search(
                is_present,
                list_dir,
                disk,
                bases,
                themes,
                index[i],
                size,
                x,
            );
        }
    }
    disk::lemma_first_found(disk.present, index, search, files_of, found);
}

/// The first file that holds the icon of a name in `index` that answers to
/// `query`.
pub fn find_candidate<P: Fn(&FsPath) -> bool, L: Fn(&FsPath) -> Option<Vec<DirEntry>>>(
    query: &str,
    base_dirs: &Vec<FsPath>,
    themes: &Vec<String>,
    size: u32,
    index: &Vec<String>,
    is_present: &P,
    list_dir: &L,
) -> (found: Option<FsPath>)
    requires
        disk::probes_paths(*is_present),
        disk::probes_paths(*list_dir),
    ensures
        disk::first_found(
            index.deep_view(),
            candidate_search(
                *is_present,
                *list_dir,
                base_dirs.deep_view(),
                themes.deep_view(),
                query@,
                size,
            ),
            found.deep_view(),
        ),
        found matches Some(file) ==> disk::may_answer(*is_present, file@, true)
            && named_after_similar(file@, index.deep_view(), query@),
        forall|disk: Disk| #[trigger]
            disk::reports(*is_present, *list_dir, disk) ==> found.deep_view()
                == disk::first_present(
                disk.present,
                fuzzy_files(
                    disk,
                    base_dirs.deep_view(),
                    themes.deep_view(),
                    index.deep_view(),
                    query@,
                    size,
                ),
            ),
{
    let ghost items = index.deep_view();
    let ghost bases = base_dirs.deep_view();
    let ghost search = candidate_search(
        *is_present,
        *list_dir,
        bases,
        themes.deep_view(),
        query@,
        size,
    );
    let mut found: Option<FsPath> = None;
    let mut i: usize = 0;
    while i < index.len() && found.is_none()
        invariant
            disk::probes_paths(*is_present),
            disk::probes_paths(*list_dir),
            items == index.deep_view(),
            bases == base_dirs.deep_view(),
            search == candidate_search(
                *is_present,
                *list_dir,
                bases,
                themes.deep_view(),
                query@,
                size,
            ),
            i <= index.len(),
            disk::first_found(items.take(i as int), search, found.deep_view()),
            found matches Some(file) ==> disk::may_answer(*is_present, file@, true)
                && named_after_similar(file@, items, query@),
        decreases index.len() - i,
    {
        assert(items[i as int] == index@[i as int]@);
        let stem = index[i].as_str();
        if matches_query(stem, query) {
            assert(items.contains(stem@));
            found = find_named(base_dirs, themes, stem, size, is_present, list_dir);
        }
        proof {
            disk::lemma_first_found_step(items, search, i as int, found.deep_view());
        }
        i = i + 1;
    }
    proof {
        disk::lemma_first_found_end(items, search, i as int, found.deep_view());
        assert forall|disk: Disk| #[trigger]
            disk::reports(*is_present, *list_dir, disk) implies found.deep_view()
            == disk::first_present(
            disk.present,
            fuzzy_files(disk, bases, themes.deep_view(), items, query@, size),
        ) by {
            lemma_candidates_search(
                *is_present,
                *list_dir,
                disk,
                bases,
                themes.deep_view(),
                items,
                query@,
                size,
                found.deep_view(),
            );
        }
    }
    found
}

/// The index that a search uses: the cached one, or a new one where nothing has
/// been cached.
pub open spec fn index_used(
    disk: Disk,
    bases: Seq<Seq<u8>>,
    cached: Option<Seq<Seq<char>>>,
) -> Seq<Seq<char>> {
    match cached {
        Some(index) => index,
        None => fuzzy_index(disk, bases),
    }
}

/// An index that has been kept is used as it is; else the names on the disk are.
pub proof fn kept_index_is_used(disk: Disk, bases: Seq<Seq<u8>>, index: Seq<Seq<char>>)
    ensures
        index_used(disk, bases, Some(index)) == index,
        index_used(disk, bases, None) == fuzzy_index(disk, bases),
{
}

/// The first file that holds the icon of a reverse-DNS name that answers to
/// `query`. The names come from the cache `index`, which is filled at the first
/// search.
pub fn find_fuzzy<P: Fn(&FsPath) -> bool, L: Fn(&FsPath) -> Option<Vec<DirEntry>>>(
    query: &str,
    base_dirs: &Vec<FsPath>,
    themes: &Vec<String>,
    size: u32,
    index: &mut Option<Vec<String>>,
    is_present: &P,
    list_dir: &L,
) -> (found: Option<FsPath>)
    requires
        disk::probes_paths(*is_present),
        disk::probes_paths(*list_dir),
    ensures
        *final(index) is Some,
        *old(index) is Some ==> *final(index) == *old(index),
        *old(index) is None ==> is_index(final(index)->0.deep_view()) && may_index(
            *is_present,
            *list_dir,
            base_dirs.deep_view(),
            final(index)->0.deep_view(),
        ),
        disk::first_found(
            final(index)->0.deep_view(),
            candidate_search(
                *is_present,
                *list_dir,
                base_dirs.deep_view(),
                themes.deep_view(),
                query@,
                size,
            ),
            found.deep_view(),
        ),
        found matches Some(file) ==> disk::may_answer(*is_present, file@, true)
            && named_after_similar(file@, final(index)->0.deep_view(), query@),
        forall|disk: Disk| #[trigger]
            disk::reports(*is_present, *list_dir, disk) ==> {
                let used = index_used(disk, base_dirs.deep_view(), old(index).deep_view());
                &&& final(index)->0.deep_view() == used
                &&& found.deep_view() == disk::first_present(
                    disk.present,
                    fuzzy_files(
                        disk,
                        base_dirs.deep_view(),
                        themes.deep_view(),
                        used,
                        query@,
                        size,
                    ),
                )
            },
{
    fuzzy_index_cached(index, base_dirs, is_present, list_dir);
    match index {
        Some(stems) => find_candidate(
            query,
            base_dirs,
            themes,
            size,
            stems,
            is_present,
            list_dir,
        ),
        None => None,
    }
}

} // verus!
