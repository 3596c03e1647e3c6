//! Where an icon can be, said of one place at a time, and what the searches make
//! of all these places.

use crate::disk;
use crate::disk::{Disk, Entry, EntryKind};
use crate::icon_dir;
use crate::number;
use crate::path;
use crate::size_dirs;
use crate::size_dirs::RankedDir;
use crate::themes;
use vstd::prelude::*;
use vstd::utf8;

verus! {

// ---------------------------------------------------------------------------
// Entries of a directory
// ---------------------------------------------------------------------------

/// Whether the directory at `dir` can be read and has an `i`-th entry that is of
/// the kind `kind`.
pub open spec fn is_entry(disk: Disk, dir: Seq<u8>, i: int, kind: EntryKind) -> bool {
    &&& disk.listings.contains_key(dir)
    &&& 0 <= i < disk.listings[dir].len()
    &&& disk.listings[dir][i].kind == kind
}

/// The name of the `i`-th entry of the directory at `dir`.
pub open spec fn entry_name(disk: Disk, dir: Seq<u8>, i: int) -> Seq<u8> {
    disk.listings[dir][i].name
}

/// The path of the `i`-th entry of the directory at `dir`.
pub open spec fn entry_path(disk: Disk, dir: Seq<u8>, i: int) -> Seq<u8> {
    path::joined(dir, entry_name(disk, dir, i))
}

// ---------------------------------------------------------------------------
// Places below a size directory
// ---------------------------------------------------------------------------

/// A place below a size directory where an icon can be: directly in it, or in
/// the category that the given entry is; in one of three formats.
pub struct Spot {
    pub category: Option<int>,
    pub format: int,
}

/// How the file name of an icon ends in each format, the preferred one first.
pub open spec fn ending(format: int) -> Seq<char> {
    if format == 0 {
        ".svg"@
    } else if format == 1 {
        ".png"@
    } else {
        ".xpm"@
    }
}

/// The path of the icon `app` in the format `format` in the directory `dir`.
pub open spec fn icon_at(dir: Seq<u8>, app: Seq<char>, format: int) -> Seq<u8> {
    path::joined(dir, utf8::encode_utf8(app + ending(format)))
}

/// Whether `spot` is a place below the size directory `dir`.
pub open spec fn is_spot(disk: Disk, dir: Seq<u8>, spot: Spot) -> bool {
    &&& 0 <= spot.format < 3
    &&& spot.category matches Some(c) ==> is_entry(disk, dir, c, EntryKind::Directory)
}

/// The path of the icon `app` at `spot` below the size directory `dir`.
pub open spec fn spot_file(disk: Disk, dir: Seq<u8>, app: Seq<char>, spot: Spot) -> Seq<u8> {
    match spot.category {
        Some(c) => icon_at(entry_path(disk, dir, c), app, spot.format),
        None => icon_at(dir, app, spot.format),
    }
}

/// 0 for what is directly in the size directory, 1 for what is in `apps`, 2 for
/// what is in any other category.
pub open spec fn tier(disk: Disk, dir: Seq<u8>, spot: Spot) -> int {
    match spot.category {
        Some(c) => if entry_name(disk, dir, c) == utf8::encode_utf8("apps"@) {
            1
        } else {
            2
        },
        None => 0,
    }
}

/// Whether `a` counts before `b`: by the tier; in the last tier by the order in
/// which the categories are read; in one directory by the format.
pub open spec fn spot_before(disk: Disk, dir: Seq<u8>, a: Spot, b: Spot) -> bool {
    ||| tier(disk, dir, a) < tier(disk, dir, b)
    ||| tier(disk, dir, a) == 2 && tier(disk, dir, b) == 2 && a.category->0 < b.category->0
    ||| tier(disk, dir, a) == tier(disk, dir, b) && (tier(disk, dir, a) == 2 ==> a.category
        == b.category) && a.format < b.format
}

/// Whether the icon `app` is present at `spot` below the size directory `dir`.
pub open spec fn is_at_spot(disk: Disk, dir: Seq<u8>, app: Seq<char>, spot: Spot) -> bool {
    is_spot(disk, dir, spot) && disk.present.contains(spot_file(disk, dir, app, spot))
}

/// Whether the icon `app` is present at `spot`, and at no place before it.
pub open spec fn is_first_spot(disk: Disk, dir: Seq<u8>, app: Seq<char>, spot: Spot) -> bool {
    &&& is_at_spot(disk, dir, app, spot)
    &&& forall|other: Spot| #[trigger]
        is_at_spot(disk, dir, app, other) ==> !spot_before(disk, dir, other, spot)
}

/// In a directory the icon found is the one in the most preferred of the formats
/// present, and none is found only if there is none in any format.
pub proof fn flat_icon_is_in_preferred_format(disk: Disk, dir: Seq<u8>, app: Seq<char>)
    ensures
        match disk::first_present(disk.present, icon_dir::icon_files(dir, app)) {
            Some(file) => exists|f: int|
                {
                    &&& 0 <= f < 3
                    &&& file == #[trigger] icon_at(dir, app, f)
                    &&& disk.present.contains(file)
                    &&& forall|g: int|
                        0 <= g < f ==> !disk.present.contains(#[trigger] icon_at(dir, app, g))
                },
            None => forall|g: int|
                0 <= g < 3 ==> !disk.present.contains(#[trigger] icon_at(dir, app, g)),
        },
{
    lemma_icon_files(dir, app);
    icon_dir::formats_by_preference(disk.present, dir, app);
    assert(icon_at(dir, app, 0) == icon_dir::icon_files(dir, app)[0]);
    assert(icon_at(dir, app, 1) == icon_dir::icon_files(dir, app)[1]);
    assert(icon_at(dir, app, 2) == icon_dir::icon_files(dir, app)[2]);
}

proof fn lemma_icon_files(dir: Seq<u8>, app: Seq<char>)
    ensures
        icon_dir::icon_files(dir, app).len() == 3,
        forall|f: int|
            0 <= f < 3 ==> icon_at(dir, app, f) == #[trigger] icon_dir::icon_files(dir, app)[f],
{
    reveal_strlit("svg");
    reveal_strlit("png");
    reveal_strlit("xpm");
    reveal_strlit(".svg");
    reveal_strlit(".png");
    reveal_strlit(".xpm");
    assert(app + ".svg"@ =~= icon_dir::icon_name(app, "svg"@));
    assert(app + ".png"@ =~= icon_dir::icon_name(app, "png"@));
    assert(app + ".xpm"@ =~= icon_dir::icon_name(app, "xpm"@));
}

/// A file that is present among others makes the search among them find one.
proof fn lemma_present(present: Set<Seq<u8>>, files: Seq<Seq<u8>>, i: int)
    requires
        0 <= i < files.len(),
        present.contains(files[i]),
    ensures
        disk::first_present(present, files) is Some,
{
    disk::first_present_is_first(present, files);
}

/// Below a size directory the icon found is the first there: what is directly in
/// it counts before what is in `apps`, that before what is in any other category,
/// and all categories count. None is found only if there is none at any place.
pub proof fn size_dir_icon_is_first_spot(disk: Disk, dir: Seq<u8>, app: Seq<char>)
    ensures
        match disk::first_present(disk.present, icon_dir::size_dir_files(disk, dir, app)) {
            Some(file) => exists|spot: Spot| #[trigger]
                is_first_spot(disk, dir, app, spot) && file == spot_file(disk, dir, app, spot),
            None => forall|spot: Spot| !#[trigger] is_at_spot(disk, dir, app, spot),
        },
{
    let entries = disk.entries(dir);
    let dirs = icon_dir::category_dirs(dir, entries);
    let direct = icon_dir::icon_files(dir, app);
    let files_of = icon_dir::icon_files_of(app);
    let found = disk::first_present(disk.present, icon_dir::size_dir_files(disk, dir, app));
    disk::lemma_first_present_add(disk.present, direct, icon_dir::files_in_dirs(dirs, app));
    flat_icon_is_in_preferred_format(disk, dir, app);
    assert forall|spot: Spot| #[trigger] is_at_spot(disk, dir, app, spot) implies found
        is Some by {
        lemma_spot_is_searched(disk, dir, app, spot);
        match spot.category {
            Some(c) => {
                lemma_category_position(disk, dir, c);
                let i = category_position(disk, dir, c);
                if disk::first_present(disk.present, dirs.flat_map(files_of)) is None {
                    disk::lemma_no_item(disk.present, dirs, files_of, i);
                }
            },
            None => {},
        }
    }
    if found is Some {
        let file = found->0;
        if disk::first_present(disk.present, direct) is Some {
            let f = choose|f: int|
                {
                    &&& 0 <= f < 3
                    &&& file == #[trigger] icon_at(dir, app, f)
                    &&& disk.present.contains(file)
                    &&& forall|g: int|
                        0 <= g < f ==> !disk.present.contains(#[trigger] icon_at(dir, app, g))
                };
            let spot = Spot { category: None, format: f };
            assert(is_first_spot(disk, dir, app, spot));
        } else {
            let i = disk::lemma_first_present_item(disk.present, dirs, files_of);
            let c = lemma_category_at(disk, dir, i);
            flat_icon_is_in_preferred_format(disk, dirs[i], app);
            let f = choose|f: int|
                {
                    &&& 0 <= f < 3
                    &&& file == #[trigger] icon_at(dirs[i], app, f)
                    &&& disk.present.contains(file)
                    &&& forall|g: int|
                        0 <= g < f ==> !disk.present.contains(#[trigger] icon_at(dirs[i], app, g))
                };
            let spot = Spot { category: Some(c), format: f };
            assert(is_at_spot(disk, dir, app, spot));
            assert forall|other: Spot| #[trigger] is_at_spot(disk, dir, app, other) implies
                !spot_before(disk, dir, other, spot) by {
                lemma_spot_is_searched(disk, dir, app, other);
                if other.category is Some {
                    let d = other.category->0;
                    lemma_category_position(disk, dir, d);
                    lemma_category_position(disk, dir, c);
                    lemma_category_order(disk, dir, d, c);
                    let j = category_position(disk, dir, d);
                    assert(disk::first_present(disk.present, files_of(dirs[j])) is Some);
                    assert(j >= i);
                    if j == i {
                        assert(entry_path(disk, dir, d) == dirs[i]);
                    }
                }
            }
            assert(is_first_spot(disk, dir, app, spot));
        }
    }
}

/// What is found for a place with an icon, were only its directory searched.
proof fn lemma_spot_is_searched(disk: Disk, dir: Seq<u8>, app: Seq<char>, spot: Spot)
    requires
        is_at_spot(disk, dir, app, spot),
    ensures
        match spot.category {
            Some(c) => disk::first_present(
                disk.present,
                icon_dir::icon_files(entry_path(disk, dir, c), app),
            ) is Some,
            None => disk::first_present(disk.present, icon_dir::icon_files(dir, app)) is Some,
        },
{
    let holder = match spot.category {
        Some(c) => entry_path(disk, dir, c),
        None => dir,
    };
    lemma_icon_files(holder, app);
    assert(icon_dir::icon_files(holder, app)[spot.format] == spot_file(disk, dir, app, spot));
    lemma_present(disk.present, icon_dir::icon_files(holder, app), spot.format);
}

/// Where the category that is the `c`-th entry stands among those searched.
spec fn category_position(disk: Disk, dir: Seq<u8>, c: int) -> int {
    let entries = disk.listings[dir];
    if entries[c].name == utf8::encode_utf8("apps"@) {
        0
    } else {
        (if entries.filter(icon_dir::apps_dir()).len() > 0 {
            1int
        } else {
            0
        }) + entries.take(c).filter(icon_dir::other_dir()).len()
    }
}

/// An entry that passes a filter stands there behind those before it that pass.
proof fn lemma_filter_position<T>(s: Seq<T>, pred: spec_fn(T) -> bool, k: int)
    requires
        0 <= k < s.len(),
        pred(s[k]),
    ensures
        s.take(k).filter(pred).len() < s.filter(pred).len(),
        s.filter(pred)[s.take(k).filter(pred).len() as int] == s[k],
{
    let head = s.take(k);
    assert(s =~= head.push(s[k]) + s.skip(k + 1));
    Seq::filter_distributes_over_add(head.push(s[k]), s.skip(k + 1), pred);
    head.lemma_filter_push(s[k], pred);
}

/// Of two entries that pass a filter, the one before the other stays before it.
proof fn lemma_filter_order<T>(s: Seq<T>, pred: spec_fn(T) -> bool, k: int, m: int)
    requires
        0 <= k < m < s.len(),
        pred(s[k]),
    ensures
        s.take(k).filter(pred).len() < s.take(m).filter(pred).len(),
{
    assert(s.take(m).take(k) =~= s.take(k));
    lemma_filter_position(s.take(m), pred, k);
}

/// Whatever passes a filter is an entry.
proof fn lemma_filter_source<T>(s: Seq<T>, pred: spec_fn(T) -> bool, i: int) -> (k: int)
    requires
        0 <= i < s.filter(pred).len(),
    ensures
        0 <= k < s.len(),
        pred(s[k]),
        s.take(k).filter(pred).len() == i,
    decreases s.len(),
{
    if s.len() == 0 {
        assert(s =~= Seq::empty());
        s.lemma_filter_len(pred);
        0
    } else {
        let init = s.drop_last();
        let n = s.len() - 1;
        assert(s =~= init.push(s.last()));
        init.lemma_filter_push(s.last(), pred);
        if i < init.filter(pred).len() {
            let k = lemma_filter_source(init, pred, i);
            assert(init.take(k) =~= s.take(k));
            k
        } else {
            assert(s.take(n) =~= init);
            n
        }
    }
}

proof fn lemma_category_position(disk: Disk, dir: Seq<u8>, c: int)
    requires
        is_entry(disk, dir, c, EntryKind::Directory),
    ensures
        ({
            let dirs = icon_dir::category_dirs(dir, disk.entries(dir));
            let i = category_position(disk, dir, c);
            0 <= i < dirs.len() && dirs[i] == entry_path(disk, dir, c)
        }),
{
    let entries = disk.listings[dir];
    let apps = entries.filter(icon_dir::apps_dir());
    let others = entries.filter(icon_dir::other_dir());
    if entries[c].name == utf8::encode_utf8("apps"@) {
        lemma_filter_position(entries, icon_dir::apps_dir(), c);
        entries.lemma_filter_pred(icon_dir::apps_dir(), apps.len() - 1);
        assert(icon_dir::apps_dir()(apps.last()));
    } else {
        lemma_filter_position(entries, icon_dir::other_dir(), c);
        let i = entries.take(c).filter(icon_dir::other_dir()).len() as int;
        assert(others.map_values(icon_dir::path_in(dir))[i] == entry_path(disk, dir, c));
    }
}

/// Categories of the last tier are searched in reading order.
proof fn lemma_category_order(disk: Disk, dir: Seq<u8>, d: int, c: int)
    requires
        is_entry(disk, dir, d, EntryKind::Directory),
        is_entry(disk, dir, c, EntryKind::Directory),
    ensures
        ({
            let apps = utf8::encode_utf8("apps"@);
            let i = category_position(disk, dir, d);
            let j = category_position(disk, dir, c);
            &&& entry_name(disk, dir, d) == apps && entry_name(disk, dir, c) != apps ==> i < j
            &&& entry_name(disk, dir, d) != apps && entry_name(disk, dir, c) != apps && d < c ==> i
                < j
        }),
{
    let entries = disk.listings[dir];
    if entry_name(disk, dir, d) == utf8::encode_utf8("apps"@) {
        lemma_filter_position(entries, icon_dir::apps_dir(), d);
    } else if d < c {
        lemma_filter_order(entries, icon_dir::other_dir(), d, c);
    }
}

/// Every directory searched is a category.
proof fn lemma_category_at(disk: Disk, dir: Seq<u8>, i: int) -> (c: int)
    requires
        0 <= i < icon_dir::category_dirs(dir, disk.entries(dir)).len(),
    ensures
        is_entry(disk, dir, c, EntryKind::Directory),
        category_position(disk, dir, c) == i,
        icon_dir::category_dirs(dir, disk.entries(dir))[i] == entry_path(disk, dir, c),
{
    let entries = disk.entries(dir);
    let apps = entries.filter(icon_dir::apps_dir());
    let others = entries.filter(icon_dir::other_dir());
    if !disk.listings.contains_key(dir) {
        assert(entries =~= Seq::empty());
        entries.lemma_filter_len(icon_dir::apps_dir());
        entries.lemma_filter_len(icon_dir::other_dir());
    }
    let first = if apps.len() > 0 {
        1int
    } else {
        0
    };
    let c = if i < first {
        lemma_filter_source(entries, icon_dir::apps_dir(), 0)
    } else {
        lemma_filter_source(entries, icon_dir::other_dir(), i - first)
    };
    lemma_category_position(disk, dir, c);
    c
}

/// Whether `p` is the path of a directory among the entries `entries` of the
/// directory `dir`.
pub open spec fn is_category(dir: Seq<u8>, entries: Seq<Entry>, p: Seq<u8>) -> bool {
    exists|c: int|
        0 <= c < entries.len() && (#[trigger] entries[c]).kind == EntryKind::Directory && p
            == path::joined(dir, entries[c].name)
}

/// Whether `p` stands in `dirs` somewhere before a place where `q` stands.
pub open spec fn stands_before(dirs: Seq<Seq<u8>>, p: Seq<u8>, q: Seq<u8>) -> bool {
    exists|i: int, j: int|
        0 <= i < j < dirs.len() && #[trigger] dirs[i] == p && #[trigger] dirs[j] == q
}

/// The categories of a size directory are all directories in it, and no others;
/// `apps` stands in front, the others stand in reading order.
pub proof fn categories_are_all_directories(dir: Seq<u8>, entries: Seq<Entry>)
    ensures
        forall|p: Seq<u8>| #[trigger]
            icon_dir::category_dirs(dir, entries).contains(p) <==> is_category(dir, entries, p),
        forall|c: int|
            0 <= c < entries.len() && (#[trigger] entries[c]).kind == EntryKind::Directory
                && entries[c].name == utf8::encode_utf8("apps"@) ==> icon_dir::category_dirs(
                dir,
                entries,
            )[0] == path::joined(dir, entries[c].name),
        forall|c: int, d: int|
            0 <= c < d < entries.len() && (#[trigger] entries[c]).kind == EntryKind::Directory && (
            #[trigger] entries[d]).kind == EntryKind::Directory && entries[c].name
                != utf8::encode_utf8("apps"@) && entries[d].name != utf8::encode_utf8("apps"@)
                ==> stands_before(
                icon_dir::category_dirs(dir, entries),
                path::joined(dir, entries[c].name),
                path::joined(dir, entries[d].name),
            ),
{
    let disk = Disk {
        present: Set::empty(),
        listings: map![dir => entries],
        texts: Map::empty(),
    };
    let dirs = icon_dir::category_dirs(dir, entries);
    assert(disk.entries(dir) == entries);
    assert forall|p: Seq<u8>| #[trigger] dirs.contains(p) <==> is_category(dir, entries, p) by {
        if dirs.contains(p) {
            let i = choose|i: int| 0 <= i < dirs.len() && dirs[i] == p;
            let c = lemma_category_at(disk, dir, i);
            assert(entries[c].kind == EntryKind::Directory);
        }
        if is_category(dir, entries, p) {
            let c = choose|c: int|
                0 <= c < entries.len() && (#[trigger] entries[c]).kind == EntryKind::Directory && p
                    == path::joined(dir, entries[c].name);
            lemma_category_position(disk, dir, c);
            assert(dirs[category_position(disk, dir, c)] == p);
        }
    }
    assert forall|c: int|
        0 <= c < entries.len() && (#[trigger] entries[c]).kind == EntryKind::Directory
            && entries[c].name == utf8::encode_utf8("apps"@) implies dirs[0] == path::joined(
        dir,
        entries[c].name,
    ) by {
        lemma_category_position(disk, dir, c);
    }
    assert forall|c: int, d: int|
        0 <= c < d < entries.len() && (#[trigger] entries[c]).kind == EntryKind::Directory && (
        #[trigger] entries[d]).kind == EntryKind::Directory && entries[c].name
            != utf8::encode_utf8("apps"@) && entries[d].name != utf8::encode_utf8(
            "apps"@,
        ) implies stands_before(
        dirs,
        path::joined(dir, entries[c].name),
        path::joined(dir, entries[d].name),
    ) by {
        lemma_category_position(disk, dir, c);
        lemma_category_position(disk, dir, d);
        lemma_category_order(disk, dir, c, d);
        let i = category_position(disk, dir, c);
        let j = category_position(disk, dir, d);
        assert(dirs[i] == path::joined(dir, entries[c].name));
        assert(dirs[j] == path::joined(dir, entries[d].name));
    }
}

/// An icon in any category of a size directory, or directly in it, in any format,
/// makes the search there find one.
pub proof fn every_category_is_searched(disk: Disk, dir: Seq<u8>, app: Seq<char>, spot: Spot)
    requires
        is_spot(disk, dir, spot),
        disk.present.contains(spot_file(disk, dir, app, spot)),
    ensures
        disk::first_present(disk.present, icon_dir::size_dir_files(disk, dir, app)) is Some,
        icon_dir::size_dir_files(disk, dir, app).contains(spot_file(disk, dir, app, spot)),
{
    size_dir_icon_is_first_spot(disk, dir, app);
    assert(is_at_spot(disk, dir, app, spot));
    let only = Disk { present: set![spot_file(disk, dir, app, spot)], ..disk };
    assert(is_at_spot(only, dir, app, spot));
    size_dir_icon_is_first_spot(only, dir, app);
    assert(icon_dir::size_dir_files(only, dir, app) == icon_dir::size_dir_files(disk, dir, app));
    disk::first_present_is_first(only.present, icon_dir::size_dir_files(disk, dir, app));
}

// ---------------------------------------------------------------------------
// Size directories of a theme
// ---------------------------------------------------------------------------

/// Whether the base directory `base` holds icons themselves and not themes: its
/// last name is `pixmaps`.
pub open spec fn is_flat(base: Seq<u8>) -> bool {
    path::has_last_name(base, utf8::encode_utf8("pixmaps"@))
}

/// The directory of `theme` below the base directory `base`.
pub open spec fn theme_dir(base: Seq<u8>, theme: Seq<char>) -> Seq<u8> {
    path::joined(base, utf8::encode_utf8(theme))
}

/// Whether the `k`-th entry of the directory of `theme` below the `b`-th base
/// directory is a size directory: a directory whose name is valid UTF-8, where
/// the base directory holds themes.
pub open spec fn is_size_dir(
    disk: Disk,
    bases: Seq<Seq<u8>>,
    theme: Seq<char>,
    b: int,
    k: int,
) -> bool {
    &&& 0 <= b < bases.len()
    &&& !is_flat(bases[b])
    &&& is_entry(disk, theme_dir(bases[b], theme), k, EntryKind::Directory)
    &&& utf8::valid_utf8(entry_name(disk, theme_dir(bases[b], theme), k))
}

/// The path of that size directory.
pub open spec fn size_dir_path(
    disk: Disk,
    bases: Seq<Seq<u8>>,
    theme: Seq<char>,
    b: int,
    k: int,
) -> Seq<u8> {
    entry_path(disk, theme_dir(bases[b], theme), k)
}

/// The name of that size directory.
pub open spec fn size_dir_name(
    disk: Disk,
    bases: Seq<Seq<u8>>,
    theme: Seq<char>,
    b: int,
    k: int,
) -> Seq<char> {
    utf8::decode_utf8(entry_name(disk, theme_dir(bases[b], theme), k))
}

/// That size directory, with the rank that its own name has for `size`.
pub open spec fn size_dir_ranked(
    disk: Disk,
    bases: Seq<Seq<u8>>,
    theme: Seq<char>,
    size: u32,
    b: int,
    k: int,
) -> RankedDir {
    let rank = size_dirs::closeness(size_dir_name(disk, bases, theme, b, k), size);
    RankedDir {
        path: size_dir_path(disk, bases, theme, b, k),
        bucket: rank.0,
        distance: rank.1,
    }
}

/// Every size directory of the theme below any base directory is collected, with
/// the rank that its own name has for the wanted size, and nothing else is.
pub proof fn all_size_dirs_are_collected(
    disk: Disk,
    bases: Seq<Seq<u8>>,
    theme: Seq<char>,
    size: u32,
)
    ensures
        forall|b: int, k: int| #[trigger]
            is_size_dir(disk, bases, theme, b, k) ==> size_dirs::size_dirs(
                disk,
                bases,
                theme,
                size,
            ).contains(size_dir_ranked(disk, bases, theme, size, b, k)),
        forall|dir: RankedDir| #[trigger]
            size_dirs::size_dirs(disk, bases, theme, size).contains(dir) ==> exists|b: int, k: int|
                #[trigger] is_size_dir(disk, bases, theme, b, k) && dir == size_dir_ranked(
                    disk,
                    bases,
                    theme,
                    size,
                    b,
                    k,
                ),
{
    let below = size_dirs::size_dirs_below(disk, theme, size);
    let found = bases.flat_map(below);
    let dirs = size_dirs::size_dirs(disk, bases, theme, size);
    size_dirs::ranking_is_stable_sort(found, 0, 0);
    assert forall|dir: RankedDir| dirs.contains(dir) == #[trigger] found.contains(dir) by {
        found.to_multiset_ensures();
        dirs.to_multiset_ensures();
        assert(found.to_multiset().count(dir) == dirs.to_multiset().count(dir));
    }
    assert forall|b: int, k: int| #[trigger]
        is_size_dir(disk, bases, theme, b, k) implies dirs.contains(
        size_dir_ranked(disk, bases, theme, size, b, k),
    ) by {
        let dir = theme_dir(bases[b], theme);
        let pick = size_dirs::size_dir_at(dir, size);
        let own = size_dir_ranked(disk, bases, theme, size, b, k);
        assert(pick(disk.entries(dir)[k]) == Some(own));
        lemma_filter_map_member(disk.entries(dir), pick, k);
        disk::lemma_flat_map_contains(bases, below, b, own);
        assert(found.contains(own));
    }
    assert forall|dir: RankedDir| #[trigger] dirs.contains(dir) implies exists|b: int, k: int|
        #[trigger] is_size_dir(disk, bases, theme, b, k) && dir == size_dir_ranked(
            disk,
            bases,
            theme,
            size,
            b,
            k,
        ) by {
        assert(found.contains(dir));
        let b = disk::lemma_flat_map_member(bases, below, dir);
        let holder = theme_dir(bases[b], theme);
        let pick = size_dirs::size_dir_at(holder, size);
        let entries = disk.entries(holder);
        entries.lemma_filter_map_contains(pick, dir);
        let entry = choose|entry: Entry| #[trigger]
            entries.contains(entry) && pick(entry) == Some(dir);
        let k = choose|k: int| 0 <= k < entries.len() && entries[k] == entry;
        assert(is_size_dir(disk, bases, theme, b, k));
    }
}

/// An item that a partial function is defined on gives a member.
proof fn lemma_filter_map_member<T, U>(s: Seq<T>, f: spec_fn(T) -> Option<U>, k: int)
    requires
        0 <= k < s.len(),
        f(s[k]) is Some,
    ensures
        s.filter_map(f).contains(f(s[k])->0),
    decreases s.len(),
{
    let n = s.len() - 1;
    let x = f(s[k])->0;
    assert(s.take(n + 1) =~= s);
    s.lemma_filter_map_take_succ(f, n);
    let head = s.take(n).filter_map(f);
    if k < n {
        lemma_filter_map_member(s.take(n), f, k);
        let i = choose|i: int| 0 <= i < head.len() && head[i] == x;
        assert(s.filter_map(f)[i] == x);
    } else {
        assert(s.filter_map(f)[head.len() as int] == x);
    }
}

/// The predicate "is a directory whose name is valid UTF-8".
pub open spec fn named_directory() -> spec_fn(Entry) -> bool {
    |entry: Entry| entry.kind == EntryKind::Directory && utf8::valid_utf8(entry.name)
}

/// What is collected below some base directories and then others is what is
/// collected below each, and below one base directory as much is collected as its
/// theme directory has directories with a name.
pub proof fn size_dirs_are_collected_once(
    disk: Disk,
    bases: Seq<Seq<u8>>,
    more: Seq<Seq<u8>>,
    base: Seq<u8>,
    theme: Seq<char>,
    size: u32,
)
    ensures
        size_dirs::size_dirs(disk, bases + more, theme, size).to_multiset()
            == size_dirs::size_dirs(disk, bases, theme, size).to_multiset().add(
            size_dirs::size_dirs(disk, more, theme, size).to_multiset(),
        ),
        !is_flat(base) && disk.listings.contains_key(theme_dir(base, theme))
            ==> size_dirs::size_dirs(disk, seq![base], theme, size).len()
            == disk.listings[theme_dir(base, theme)].filter(named_directory()).len(),
{
    let below = size_dirs::size_dirs_below(disk, theme, size);
    let a = bases.flat_map(below);
    let b = more.flat_map(below);
    assert((bases + more).map_values(below) =~= bases.map_values(below) + more.map_values(below));
    vstd::seq_lib::lemma_flatten_concat(bases.map_values(below), more.map_values(below));
    size_dirs::ranking_is_stable_sort(a, 0, 0);
    size_dirs::ranking_is_stable_sort(b, 0, 0);
    size_dirs::ranking_is_stable_sort(a + b, 0, 0);
    vstd::seq_lib::lemma_multiset_commutative(a, b);
    let dir = theme_dir(base, theme);
    if !is_flat(base) && disk.listings.contains_key(dir) {
        let pick = size_dirs::size_dir_at(dir, size);
        let entries = disk.listings[dir];
        let found = seq![base].flat_map(below);
        assert(seq![base].map_values(below) =~= seq![below(base)]);
        seq![below(base)].lemma_flatten_one_element();
        assert(found == entries.filter_map(pick));
        lemma_filter_map_len(entries, pick, named_directory());
        size_dirs::ranking_is_stable_sort(found, 0, 0);
        found.to_multiset_ensures();
        size_dirs::ranked(found).to_multiset_ensures();
    }
}

/// A partial function gives as many items as it is defined on.
proof fn lemma_filter_map_len<T, U>(
    s: Seq<T>,
    f: spec_fn(T) -> Option<U>,
    pred: spec_fn(T) -> bool,
)
    requires
        forall|x: T| #[trigger] f(x) is Some <==> pred(x),
    ensures
        s.filter_map(f).len() == s.filter(pred).len(),
    decreases s.len(),
{
    if s.len() > 0 {
        let n = s.len() - 1;
        assert(s.take(n + 1) =~= s);
        assert(s.take(n) =~= s.drop_last());
        assert(s.drop_last().push(s.last()) =~= s);
        s.lemma_filter_map_take_succ(f, n);
        s.drop_last().lemma_filter_push(s.last(), pred);
        lemma_filter_map_len(s.drop_last(), f, pred);
        assert(f(s.last()) is Some <==> pred(s.last()));
    } else {
        s.lemma_filter_len(pred);
    }
}

// ---------------------------------------------------------------------------
// Places in a theme
// ---------------------------------------------------------------------------

/// A place in a theme where an icon can be: below the size directory that the
/// given entry is, below the given base directory.
pub struct Place {
    pub base: int,
    pub entry: int,
    pub spot: Spot,
}

/// The size directory of `place`.
pub open spec fn holder(disk: Disk, bases: Seq<Seq<u8>>, theme: Seq<char>, place: Place) -> Seq<
    u8,
> {
    size_dir_path(disk, bases, theme, place.base, place.entry)
}

/// The name of the size directory of `place`.
pub open spec fn holder_name(
    disk: Disk,
    bases: Seq<Seq<u8>>,
    theme: Seq<char>,
    place: Place,
) -> Seq<char> {
    size_dir_name(disk, bases, theme, place.base, place.entry)
}

/// The path of the icon `app` at `place` in `theme`.
pub open spec fn place_file(
    disk: Disk,
    bases: Seq<Seq<u8>>,
    theme: Seq<char>,
    app: Seq<char>,
    place: Place,
) -> Seq<u8> {
    spot_file(disk, holder(disk, bases, theme, place), app, place.spot)
}

/// Whether the icon `app` of `theme` is present at `place`.
pub open spec fn is_at(
    disk: Disk,
    bases: Seq<Seq<u8>>,
    theme: Seq<char>,
    app: Seq<char>,
    place: Place,
) -> bool {
    &&& is_size_dir(disk, bases, theme, place.base, place.entry)
    &&& is_at_spot(disk, holder(disk, bases, theme, place), app, place.spot)
}

/// Whether a directory named `a` suits icons of the size `size` strictly better
/// than one named `b`.
pub open spec fn suits_better(a: Seq<char>, b: Seq<char>, size: u32) -> bool {
    let x = size_dirs::closeness(a, size);
    let y = size_dirs::closeness(b, size);
    x.0 < y.0 || x.0 == y.0 && x.1 < y.1
}

/// Whether the size directory of `a` counts before that of `b`: it suits better;
/// or it suits as well and is read before it, by the order of the base directories
/// and then of the entries.
pub open spec fn holder_before(
    disk: Disk,
    bases: Seq<Seq<u8>>,
    theme: Seq<char>,
    size: u32,
    a: Place,
    b: Place,
) -> bool {
    let x = holder_name(disk, bases, theme, a);
    let y = holder_name(disk, bases, theme, b);
    ||| suits_better(x, y, size)
    ||| !suits_better(y, x, size) && (a.base < b.base || a.base == b.base && a.entry < b.entry)
}

/// Whether the icon `app` of `theme` is present at `place`, and neither below a
/// size directory that counts before, nor before that place below its own.
pub open spec fn is_best(
    disk: Disk,
    bases: Seq<Seq<u8>>,
    theme: Seq<char>,
    app: Seq<char>,
    size: u32,
    place: Place,
) -> bool {
    &&& is_at(disk, bases, theme, app, place)
    &&& forall|other: Place| #[trigger]
        is_at(disk, bases, theme, app, other) ==> !holder_before(
            disk,
            bases,
            theme,
            size,
            other,
            place,
        )
    &&& is_first_spot(disk, holder(disk, bases, theme, place), app, place.spot)
}

/// Whether the icon `app` is present anywhere in `theme`.
pub open spec fn in_theme(
    disk: Disk,
    bases: Seq<Seq<u8>>,
    theme: Seq<char>,
    app: Seq<char>,
) -> bool {
    exists|place: Place| is_at(disk, bases, theme, app, place)
}

/// Whether `file` is the icon `app` at a best place in `theme`.
pub open spec fn is_best_in(
    disk: Disk,
    bases: Seq<Seq<u8>>,
    theme: Seq<char>,
    app: Seq<char>,
    size: u32,
    file: Seq<u8>,
) -> bool {
    exists|place: Place| #[trigger]
        is_best(disk, bases, theme, app, size, place) && file == place_file(
            disk,
            bases,
            theme,
            app,
            place,
        )
}

/// In a theme the icon found is at a best place for the wanted size, and none is
/// found only if the icon is nowhere in the theme.
pub proof fn theme_icon_is_at_best_place(
    disk: Disk,
    bases: Seq<Seq<u8>>,
    theme: Seq<char>,
    app: Seq<char>,
    size: u32,
)
    ensures
        match disk::first_present(
            disk.present,
            themes::theme_files(disk, bases, theme, app, size),
        ) {
            Some(file) => is_best_in(disk, bases, theme, app, size, file),
            None => !in_theme(disk, bases, theme, app),
        },
{
    let dirs = size_dirs::size_dirs(disk, bases, theme, size);
    let files_of = themes::files_below(disk, app);
    let found = disk::first_present(
        disk.present,
        themes::theme_files(disk, bases, theme, app, size),
    );
    all_size_dirs_are_collected(disk, bases, theme, size);
    size_dirs::size_dirs_are_ranked(disk, bases, theme, size);
    assert forall|place: Place| #[trigger] is_at(disk, bases, theme, app, place) implies exists|
        j: int,
    |
        0 <= j < dirs.len() && #[trigger] dirs[j] == size_dir_ranked(
            disk,
            bases,
            theme,
            size,
            place.base,
            place.entry,
        ) && disk::first_present(disk.present, files_of(dirs[j])) is Some by {
        let own = size_dir_ranked(disk, bases, theme, size, place.base, place.entry);
        assert(dirs.contains(own));
        let j = choose|j: int| 0 <= j < dirs.len() && dirs[j] == own;
        size_dir_icon_is_first_spot(disk, own.path, app);
        assert(is_at_spot(disk, own.path, app, place.spot));
        assert(disk::first_present(disk.present, files_of(dirs[j])) is Some);
    }
    if found is None {
        assert forall|place: Place| !is_at(disk, bases, theme, app, place) by {
            if is_at(disk, bases, theme, app, place) {
                let j = choose|j: int|
                    0 <= j < dirs.len() && #[trigger] dirs[j] == size_dir_ranked(
                        disk,
                        bases,
                        theme,
                        size,
                        place.base,
                        place.entry,
                    ) && disk::first_present(disk.present, files_of(dirs[j])) is Some;
                disk::lemma_no_item(disk.present, dirs, files_of, j);
            }
        }
    } else {
        let i = disk::lemma_first_present_item(disk.present, dirs, files_of);
        let found_dirs = bases.flat_map(size_dirs::size_dirs_below(disk, theme, size));
        let same = size_dirs::of_rank(dirs[i].bucket, dirs[i].distance);
        size_dirs::ranking_is_stable_sort(found_dirs, dirs[i].bucket, dirs[i].distance);
        lemma_filter_position(dirs, same, i);
        let a = dirs.take(i).filter(same).len() as int;
        let m = lemma_filter_source(found_dirs, same, a);
        lemma_filter_position(found_dirs, same, m);
        let (b, k) = lemma_size_dir_source(disk, bases, theme, size, m);
        let dir = dirs[i].path;
        size_dir_icon_is_first_spot(disk, dir, app);
        let spot = choose|spot: Spot| #[trigger]
            is_first_spot(disk, dir, app, spot) && found->0 == spot_file(disk, dir, app, spot);
        let place = Place { base: b, entry: k, spot };
        assert(is_at(disk, bases, theme, app, place));
        assert forall|other: Place| #[trigger] is_at(disk, bases, theme, app, other) implies
            !holder_before(disk, bases, theme, size, other, place) by {
            let j = choose|j: int|
                0 <= j < dirs.len() && #[trigger] dirs[j] == size_dir_ranked(
                    disk,
                    bases,
                    theme,
                    size,
                    other.base,
                    other.entry,
                ) && disk::first_present(disk.present, files_of(dirs[j])) is Some;
            assert(j >= i);
            if j > i {
                assert(!size_dirs::ranks_before(dirs[j], dirs[i]));
            }
            if same(dirs[j]) && (other.base < b || other.base == b && other.entry < k) {
                let n = size_dir_position(disk, bases, theme, size, other.base, other.entry);
                lemma_size_dir_position(disk, bases, theme, size, other.base, other.entry);
                lemma_size_dir_order(disk, bases, theme, size, other.base, other.entry, b, k);
                lemma_filter_position(found_dirs, same, n);
                lemma_filter_order(found_dirs, same, n, m);
                let c = found_dirs.take(n).filter(same).len() as int;
                let h = lemma_filter_source(dirs, same, c);
                lemma_filter_position(dirs, same, h);
                if h >= i {
                    if h > i {
                        lemma_filter_order(dirs, same, i, h);
                    }
                }
                assert(dirs[h] == dirs[j]);
                assert(disk::first_present(disk.present, files_of(dirs[h])) is None);
            }
        }
        assert(is_best(disk, bases, theme, app, size, place));
    }
}

/// Where a size directory stands in the order of reading.
spec fn size_dir_position(
    disk: Disk,
    bases: Seq<Seq<u8>>,
    theme: Seq<char>,
    size: u32,
    b: int,
    k: int,
) -> int {
    let dir = theme_dir(bases[b], theme);
    let before = bases.take(b).flat_map(size_dirs::size_dirs_below(disk, theme, size));
    let beside = disk.entries(dir).take(k).filter_map(size_dirs::size_dir_at(dir, size));
    before.len() as int + beside.len() as int
}

/// What the first items give is what all give, as far as it goes.
proof fn lemma_flat_map_prefix<T, U>(items: Seq<T>, f: spec_fn(T) -> Seq<U>, b: int)
    requires
        0 <= b < items.len(),
    ensures
        items.take(b).flat_map(f).len() + f(items[b]).len() <= items.flat_map(f).len(),
        forall|i: int|
            0 <= i < f(items[b]).len() ==> items.flat_map(f)[items.take(b).flat_map(f).len() + i]
                == #[trigger] f(items[b])[i],
    decreases items.len(),
{
    let n = items.len() - 1;
    assert(items.take(n + 1) =~= items);
    items.lemma_flat_map_take_append(f, n);
    if b < n {
        lemma_flat_map_prefix(items.take(n), f, b);
        assert(items.take(n).take(b) =~= items.take(b));
        assert(items.take(n)[b] == items[b]);
    }
}

/// What the first items give is a prefix of what all give.
proof fn lemma_filter_map_prefix<T, U>(s: Seq<T>, f: spec_fn(T) -> Option<U>, k: int)
    requires
        0 <= k < s.len(),
        f(s[k]) is Some,
    ensures
        s.take(k).filter_map(f).len() < s.filter_map(f).len(),
        s.filter_map(f)[s.take(k).filter_map(f).len() as int] == f(s[k])->0,
    decreases s.len(),
{
    let n = s.len() - 1;
    assert(s.take(n + 1) =~= s);
    s.lemma_filter_map_take_succ(f, n);
    if k < n {
        lemma_filter_map_prefix(s.take(n), f, k);
        assert(s.take(n).take(k) =~= s.take(k));
        assert(s.take(n)[k] == s[k]);
    }
}

/// Whatever a partial function gives comes from an item.
proof fn lemma_filter_map_source<T, U>(s: Seq<T>, f: spec_fn(T) -> Option<U>, i: int) -> (k: int)
    requires
        0 <= i < s.filter_map(f).len(),
    ensures
        0 <= k < s.len(),
        f(s[k]) == Some(s.filter_map(f)[i]),
        s.take(k).filter_map(f).len() == i,
    decreases s.len(),
{
    let n = s.len() - 1;
    assert(s.take(n + 1) =~= s);
    s.lemma_filter_map_take_succ(f, n);
    if i < s.take(n).filter_map(f).len() {
        let k = lemma_filter_map_source(s.take(n), f, i);
        assert(s.take(n).take(k) =~= s.take(k));
        k
    } else {
        n
    }
}

/// Whatever a flat map holds comes from an item.
proof fn lemma_flat_map_source<T, U>(items: Seq<T>, f: spec_fn(T) -> Seq<U>, m: int) -> (r: (
    int,
    int,
))
    requires
        0 <= m < items.flat_map(f).len(),
    ensures
        0 <= r.0 < items.len(),
        0 <= r.1 < f(items[r.0]).len(),
        items.take(r.0).flat_map(f).len() + r.1 == m,
        f(items[r.0])[r.1] == items.flat_map(f)[m],
    decreases items.len(),
{
    if items.len() == 0 {
        assert(items.flat_map(f) =~= Seq::empty());
        (0, 0)
    } else {
        let n = items.len() - 1;
        assert(items.take(n + 1) =~= items);
        items.lemma_flat_map_take_append(f, n);
        let head = items.take(n).flat_map(f);
        if m < head.len() {
            let (b, i) = lemma_flat_map_source(items.take(n), f, m);
            assert(items.take(n).take(b) =~= items.take(b));
            (b, i)
        } else {
            (n, m - head.len())
        }
    }
}

proof fn lemma_size_dir_position(
    disk: Disk,
    bases: Seq<Seq<u8>>,
    theme: Seq<char>,
    size: u32,
    b: int,
    k: int,
)
    requires
        is_size_dir(disk, bases, theme, b, k),
    ensures
        ({
            let found = bases.flat_map(size_dirs::size_dirs_below(disk, theme, size));
            let n = size_dir_position(disk, bases, theme, size, b, k);
            0 <= n < found.len() && found[n] == size_dir_ranked(disk, bases, theme, size, b, k)
        }),
{
    let below = size_dirs::size_dirs_below(disk, theme, size);
    let dir = theme_dir(bases[b], theme);
    let pick = size_dirs::size_dir_at(dir, size);
    let entries = disk.entries(dir);
    assert(pick(entries[k]) == Some(size_dir_ranked(disk, bases, theme, size, b, k)));
    lemma_filter_map_prefix(entries, pick, k);
    lemma_flat_map_prefix(bases, below, b);
    let i = entries.take(k).filter_map(pick).len() as int;
    assert(below(bases[b]) == entries.filter_map(pick));
    assert(below(bases[b])[i] == pick(entries[k])->0);
}

/// Size directories that are read before others stand before them.
proof fn lemma_size_dir_order(
    disk: Disk,
    bases: Seq<Seq<u8>>,
    theme: Seq<char>,
    size: u32,
    b: int,
    k: int,
    c: int,
    l: int,
)
    requires
        is_size_dir(disk, bases, theme, b, k),
        is_size_dir(disk, bases, theme, c, l),
        b < c || b == c && k < l,
    ensures
        size_dir_position(disk, bases, theme, size, b, k) < size_dir_position(
            disk,
            bases,
            theme,
            size,
            c,
            l,
        ),
{
    let below = size_dirs::size_dirs_below(disk, theme, size);
    let dir = theme_dir(bases[b], theme);
    let pick = size_dirs::size_dir_at(dir, size);
    let entries = disk.entries(dir);
    assert(pick(entries[k]) is Some);
    if b < c {
        lemma_filter_map_prefix(entries, pick, k);
        assert(bases.take(c).take(b) =~= bases.take(b));
        assert(bases.take(c)[b] == bases[b]);
        lemma_flat_map_prefix(bases.take(c), below, b);
        assert(below(bases[b]) == entries.filter_map(pick));
    } else {
        assert(entries.take(l).take(k) =~= entries.take(k));
        assert(entries.take(l)[k] == entries[k]);
        lemma_filter_map_prefix(entries.take(l), pick, k);
    }
}

/// Which size directory stands at a position.
proof fn lemma_size_dir_source(
    disk: Disk,
    bases: Seq<Seq<u8>>,
    theme: Seq<char>,
    size: u32,
    m: int,
) -> (r: (int, int))
    requires
        0 <= m < bases.flat_map(size_dirs::size_dirs_below(disk, theme, size)).len(),
    ensures
        is_size_dir(disk, bases, theme, r.0, r.1),
        size_dir_position(disk, bases, theme, size, r.0, r.1) == m,
        bases.flat_map(size_dirs::size_dirs_below(disk, theme, size))[m] == size_dir_ranked(
            disk,
            bases,
            theme,
            size,
            r.0,
            r.1,
        ),
{
    let below = size_dirs::size_dirs_below(disk, theme, size);
    let (b, i) = lemma_flat_map_source(bases, below, m);
    let dir = theme_dir(bases[b], theme);
    let pick = size_dirs::size_dir_at(dir, size);
    let k = lemma_filter_map_source(disk.entries(dir), pick, i);
    (b, k)
}

/// What is found in a theme is in the theme.
pub proof fn lemma_best_is_in_theme(
    disk: Disk,
    bases: Seq<Seq<u8>>,
    theme: Seq<char>,
    app: Seq<char>,
    size: u32,
)
    ensures
        disk::first_present(disk.present, themes::theme_files(disk, bases, theme, app, size))
            is Some ==> in_theme(disk, bases, theme, app),
{
    theme_icon_is_at_best_place(disk, bases, theme, app, size);
    if let Some(file) = disk::first_present(
        disk.present,
        themes::theme_files(disk, bases, theme, app, size),
    ) {
        let place = choose|place: Place| #[trigger]
            is_best(disk, bases, theme, app, size, place) && file == place_file(
                disk,
                bases,
                theme,
                app,
                place,
            );
        assert(is_at(disk, bases, theme, app, place));
    }
}

/// Where a directory named after the wanted size has the icon, the icon found is
/// in a directory whose name is that size and no longer number.
pub proof fn wanted_size_wins(
    disk: Disk,
    bases: Seq<Seq<u8>>,
    theme: Seq<char>,
    app: Seq<char>,
    size: u32,
    place: Place,
    rest: Seq<char>,
)
    requires
        is_at(disk, bases, theme, app, place),
        holder_name(disk, bases, theme, place) == number::decimal(size as nat) + rest,
        rest.len() > 0 ==> !number::is_digit(rest[0]),
    ensures
        exists|best: Place|
            {
                &&& #[trigger] is_at(disk, bases, theme, app, best)
                &&& disk::first_present(
                    disk.present,
                    themes::theme_files(disk, bases, theme, app, size),
                ) == Some(place_file(disk, bases, theme, app, best))
                &&& number::parsed(
                    number::leading_digits(holder_name(disk, bases, theme, best)),
                ) == Some(size)
            },
{
    theme_icon_is_at_best_place(disk, bases, theme, app, size);
    let file = disk::first_present(
        disk.present,
        themes::theme_files(disk, bases, theme, app, size),
    )->0;
    let best = choose|best: Place| #[trigger]
        is_best(disk, bases, theme, app, size, best) && file == place_file(
            disk,
            bases,
            theme,
            app,
            best,
        );
    size_dirs::wanted_size_is_first(size, rest);
    assert(!holder_before(disk, bases, theme, size, place, best));
    size_dirs::first_bucket_is_wanted_size(holder_name(disk, bases, theme, best), size);
    assert(is_at(disk, bases, theme, app, best));
}

/// A directory name that gives the size `n`.
pub open spec fn size_name(n: u32, rest: Seq<char>) -> Seq<char> {
    number::decimal(n as nat).push('x') + rest
}

/// How far the size `n` is off the wanted size.
pub open spec fn pixels_off(wanted: u32, n: u32) -> int {
    if n < wanted {
        wanted - n
    } else {
        n - wanted
    }
}

/// Where the icon found is in a directory of another size than the wanted one, no
/// directory whose size is nearer has the icon.
pub proof fn nearest_size_wins(
    disk: Disk,
    bases: Seq<Seq<u8>>,
    theme: Seq<char>,
    app: Seq<char>,
    size: u32,
    place: Place,
    near: u32,
    rest: Seq<char>,
)
    requires
        is_at(disk, bases, theme, app, place),
        near != size,
        holder_name(disk, bases, theme, place) == size_name(near, rest),
    ensures
        exists|best: Place|
            {
                &&& #[trigger] is_at(disk, bases, theme, app, best)
                &&& disk::first_present(
                    disk.present,
                    themes::theme_files(disk, bases, theme, app, size),
                ) == Some(place_file(disk, bases, theme, app, best))
                &&& forall|other: u32, tail: Seq<char>|
                    other != size && holder_name(disk, bases, theme, best) == #[trigger] size_name(
                        other,
                        tail,
                    ) ==> pixels_off(size, other) <= pixels_off(size, near)
            },
{
    theme_icon_is_at_best_place(disk, bases, theme, app, size);
    let file = disk::first_present(
        disk.present,
        themes::theme_files(disk, bases, theme, app, size),
    )->0;
    let best = choose|best: Place| #[trigger]
        is_best(disk, bases, theme, app, size, best) && file == place_file(
            disk,
            bases,
            theme,
            app,
            best,
        );
    size_dirs::other_size_is_last(size, near, rest);
    assert(!holder_before(disk, bases, theme, size, place, best));
    assert forall|other: u32, tail: Seq<char>|
        other != size && holder_name(disk, bases, theme, best) == #[trigger] size_name(
            other,
            tail,
        ) implies pixels_off(size, other) <= pixels_off(size, near) by {
        size_dirs::other_size_is_last(size, other, tail);
    }
    assert(is_at(disk, bases, theme, app, best));
}

} // verus!
