//! The size directories of a theme, ranked by how well they suit a size.

use crate::disk;
use crate::disk::{DirEntry, Disk, Entry, EntryKind};
use crate::encoding;
use crate::encoding::decode_text;
use crate::number;
use crate::number::{decimal_chars, leading_number, parse_u32};
use crate::path;
use crate::path::FsPath;
use crate::text;
use crate::text::{contains_char, same_text_ignoring_case, split_text, starts_with};
use vstd::prelude::*;
use vstd::utf8;

verus! {

/// A size directory of a theme.
#[derive(Debug, PartialEq, Eq)]
pub struct SizeDir {
    /// Where the directory is.
    pub path: FsPath,
    /// 0 for the wanted size, 1 for scalable icons, 2 for any other size.
    pub bucket: u8,
    /// How far off the directory is among those of its bucket.
    pub distance: u32,
}

/// The model of a [`SizeDir`].
pub struct RankedDir {
    pub path: Seq<u8>,
    pub bucket: u8,
    pub distance: u32,
}

impl View for SizeDir {
    type V = RankedDir;

    open spec fn view(&self) -> RankedDir {
        RankedDir { path: self.path@, bucket: self.bucket, distance: self.distance }
    }
}

impl DeepView for SizeDir {
    type V = RankedDir;

    open spec fn deep_view(&self) -> RankedDir {
        self@
    }
}

/// The number of pixels between `a` and `b`.
pub open spec fn apart(a: u32, b: u32) -> u32 {
    if a < b {
        (b - a) as u32
    } else {
        (a - b) as u32
    }
}

/// The size that the name of a directory gives: the number before its first `x`,
/// or 0 where there is no number.
pub open spec fn nominal_size(name: Seq<char>) -> u32 {
    match number::parsed(text::split(name, 'x').first()) {
        Some(n) => n,
        None => 0,
    }
}

/// Whether the directory `name` is named after the size `size`: its name begins
/// with that size in decimal notation, and the whole number that it begins with
/// is that size.
pub open spec fn names_size(name: Seq<char>, size: u32) -> bool {
    &&& number::decimal(size as nat).is_prefix_of(name)
    &&& number::parsed(number::leading_digits(name)) == Some(size)
}

/// The bucket and the distance of the directory `name` when icons of the size
/// `size` are wanted. A name after the wanted size is in the first bucket, and
/// there those made for a scale factor, with an `@`, come last; `scalable`, in
/// any case, is in the second; every other name is in the third, at the distance
/// of its nominal size.
pub open spec fn closeness(name: Seq<char>, size: u32) -> (u8, u32) {
    if names_size(name, size) {
        (
            0,
            if name.contains('@') {
                1
            } else {
                0
            },
        )
    } else if text::folded(name) == text::folded("scalable"@) {
        (1, 0)
    } else {
        (2, apart(size, nominal_size(name)))
    }
}

/// A directory whose name is the wanted size and then anything but a digit is in
/// the first bucket; there those with an `@` come last.
pub proof fn wanted_size_is_first(size: u32, rest: Seq<char>)
    requires
        rest.len() > 0 ==> !number::is_digit(rest[0]),
    ensures
        closeness(number::decimal(size as nat) + rest, size) == (
            0u8,
            if rest.contains('@') {
                1u32
            } else {
                0u32
            },
        ),
{
    let digits = number::decimal(size as nat);
    let name = digits + rest;
    assert(digits =~= name.subrange(0, digits.len() as int));
    number::lemma_decimal(size as nat);
    number::decimal_round_trip(size);
    number::lemma_leading_digits(digits, rest);
    if rest.contains('@') {
        let k = choose|k: int| 0 <= k < rest.len() && rest[k] == '@';
        assert(name[digits.len() + k] == '@');
    }
    if name.contains('@') {
        let k = choose|k: int| 0 <= k < name.len() && name[k] == '@';
        if k < digits.len() {
            assert(number::is_digit(digits[k]));
        } else {
            assert(rest[k - digits.len()] == '@');
        }
    }
}

/// A directory is in the first bucket exactly if it is named after the wanted
/// size: its name begins with that size, and is not one of a longer number.
pub proof fn first_bucket_is_wanted_size(name: Seq<char>, size: u32)
    ensures
        closeness(name, size).0 == 0 <==> {
            &&& number::decimal(size as nat).is_prefix_of(name)
            &&& number::parsed(number::leading_digits(name)) == Some(size)
        },
        closeness(name, size).0 == 0 ==> closeness(name, size).1 == (if name.contains('@') {
            1u32
        } else {
            0u32
        }),
        closeness(name, size).0 <= 2,
{
}

/// In the third bucket a directory is as far off as the number before the first
/// `x` of its name is from the wanted size, or the whole name where there is no
/// `x`; what is no number counts as 0.
pub proof fn distance_is_by_number_before_x(head: Seq<char>, tail: Seq<char>, size: u32)
    requires
        !head.contains('x'),
    ensures
        ({
            let n = match number::parsed(head) {
                Some(n) => n,
                None => 0,
            };
            let far = if n < size {
                size - n
            } else {
                n - size
            };
            &&& closeness(head, size).0 == 2 ==> closeness(head, size).1 == far
            &&& closeness(head.push('x') + tail, size).0 == 2 ==> closeness(
                head.push('x') + tail,
                size,
            ).1 == far
        }),
{
    text::unsplit_text_is_one_piece(head, 'x');
    text::text_splits_at_first_separator(head, 'x', tail);
}

/// The directory `scalable`, in any case, is in the second bucket, whatever size
/// is wanted, and no other directory is.
pub proof fn only_scalable_is_second(name: Seq<char>, size: u32)
    ensures
        closeness(name, size).0 == 1 <==> {
            &&& name.len() == 8
            &&& name[0] == 's' || name[0] == 'S'
            &&& name[1] == 'c' || name[1] == 'C'
            &&& name[2] == 'a' || name[2] == 'A'
            &&& name[3] == 'l' || name[3] == 'L'
            &&& name[4] == 'a' || name[4] == 'A'
            &&& name[5] == 'b' || name[5] == 'B'
            &&& name[6] == 'l' || name[6] == 'L'
            &&& name[7] == 'e' || name[7] == 'E'
        },
        closeness(name, size).0 == 1 ==> closeness(name, size).1 == 0,
{
    reveal_strlit("scalable");
    let low = text::folded("scalable"@);
    let own = text::folded(name);
    assert(low =~= seq!['s', 'c', 'a', 'l', 'a', 'b', 'l', 'e']);
    number::lemma_decimal(size as nat);
    if names_size(name, size) {
        let digits = number::decimal(size as nat);
        assert(number::is_digit(digits[0]));
        assert(name.subrange(0, digits.len() as int)[0] == name[0]);
        assert(own[0] == name[0]);
    }
    if name.len() == 8 {
        assert forall|i: int| 0 <= i < 8 implies (own[i] == low[i]) == (name[i] == low[i]
            || name[i] as int + 32 == low[i] as int) by {}
        if own == low {
            assert(forall|i: int| 0 <= i < 8 ==> own[i] == low[i]);
        } else if forall|i: int| 0 <= i < 8 ==> own[i] == low[i] {
            assert(own =~= low);
        }
    } else {
        assert(own.len() != low.len());
    }
}

/// A directory whose name begins with no number, and is not `scalable`, counts as
/// one of the size 0.
pub proof fn name_without_number_is_of_size_zero(name: Seq<char>, size: u32)
    requires
        name.len() > 0 ==> !number::is_digit(name[0]) && name[0] != '+',
        text::folded(name) != text::folded("scalable"@),
    ensures
        closeness(name, size) == (2u8, size),
{
    number::lemma_decimal(size as nat);
    let digits = number::decimal(size as nat);
    assert(number::is_digit(digits[0]));
    if names_size(name, size) {
        assert(name.subrange(0, digits.len() as int)[0] == name[0]);
    }
    if name.contains('x') {
        let k = lemma_first_of(name, 'x');
        text::text_splits_at_first_separator(name.take(k), 'x', name.skip(k + 1));
        assert(name =~= name.take(k).push('x') + name.skip(k + 1));
        lemma_no_number(name.take(k));
    } else {
        text::unsplit_text_is_one_piece(name, 'x');
        lemma_no_number(name);
    }
}

proof fn lemma_no_number(s: Seq<char>)
    requires
        s.len() > 0 ==> !number::is_digit(s[0]) && s[0] != '+',
    ensures
        number::parsed(s) is None,
{
    if number::is_numeral(s) {
        assert(number::is_digit(s[0]));
    }
}

/// Where `c` first occurs in `s`.
proof fn lemma_first_of(s: Seq<char>, c: char) -> (k: int)
    requires
        s.contains(c),
    ensures
        0 <= k < s.len(),
        s[k] == c,
        !s.take(k).contains(c),
    decreases s.len(),
{
    let init = s.drop_last();
    if init.contains(c) {
        let k = lemma_first_of(init, c);
        assert(init.take(k) =~= s.take(k));
        k
    } else {
        let k = choose|k: int| 0 <= k < s.len() && s[k] == c;
        if k < init.len() {
            assert(init[k] == c);
        }
        assert(s.take(k) =~= init);
        k
    }
}

/// A directory named after another size, an `x` and anything else is in the third
/// bucket, at the distance between the two sizes.
pub proof fn other_size_is_last(size: u32, other: u32, rest: Seq<char>)
    requires
        other != size,
    ensures
        closeness(number::decimal(other as nat).push('x') + rest, size) == (
            2u8,
            apart(size, other),
        ),
{
    let digits = number::decimal(other as nat);
    let name = digits.push('x') + rest;
    number::lemma_decimal(other as nat);
    number::decimal_round_trip(other);
    nominal_size_is_number_before_x(other, rest);
    assert(name =~= digits + (seq!['x'] + rest));
    number::lemma_leading_digits(digits, seq!['x'] + rest);
    assert(text::folded(name) != text::folded("scalable"@)) by {
        reveal_strlit("scalable");
        assert(number::is_digit(digits[0]));
        assert(name[0] == digits[0]);
        assert(text::folded(name)[0] == name[0]);
        assert(text::folded("scalable"@)[0] == 's');
    }
}

/// The nominal size of a directory named after a number, an `x` and anything
/// else is that number.
pub proof fn nominal_size_is_number_before_x(n: u32, rest: Seq<char>)
    ensures
        nominal_size(number::decimal(n as nat).push('x') + rest) == n,
{
    let digits = number::decimal(n as nat);
    number::lemma_decimal(n as nat);
    number::decimal_round_trip(n);
    text::text_splits_at_first_separator(digits, 'x', rest);
}

/// The bucket and the distance of the directory `name` when icons of the size
/// `size` are wanted.
pub fn classify(name: &str, size: u32) -> (rank: (u8, u32))
    ensures
        rank == closeness(name@, size),
{
    let wanted = decimal_chars(size);
    let begins_with = leading_number(name);
    if starts_with(name, &wanted) && begins_with.is_some() && begins_with.unwrap() == size {
        let distance: u32 = if contains_char(name, '@') {
            1
        } else {
            0
        };
        (0, distance)
    } else if same_text_ignoring_case(name, "scalable") {
        (1, 0)
    } else {
        let pieces = split_text(name, 'x');
        proof {
            text::lemma_split_nonempty(name@, 'x');
        }
        assert(pieces.deep_view()[0] == pieces@[0]@);
        let nominal: u32 = match parse_u32(pieces[0]) {
            Some(n) => n,
            None => 0,
        };
        let distance: u32 = if size < nominal {
            nominal - size
        } else {
            size - nominal
        };
        (2, distance)
    }
}

// ---------------------------------------------------------------------------
// Ranking
// ---------------------------------------------------------------------------

/// Whether `a` suits strictly better than `b`: by bucket, then by distance.
pub open spec fn ranks_before(a: RankedDir, b: RankedDir) -> bool {
    a.bucket < b.bucket || (a.bucket == b.bucket && a.distance < b.distance)
}

/// `dirs` with `dir` put behind every directory that suits at least as well, up
/// to the first one from the back.
pub open spec fn placed(dirs: Seq<RankedDir>, dir: RankedDir) -> Seq<RankedDir>
    decreases dirs.len(),
{
    if dirs.len() > 0 && ranks_before(dir, dirs.last()) {
        placed(dirs.drop_last(), dir).push(dirs.last())
    } else {
        dirs.push(dir)
    }
}

/// `dirs` from the best suited to the least, directories that suit equally well
/// in the order in which they were found.
pub open spec fn ranked(dirs: Seq<RankedDir>) -> Seq<RankedDir>
    decreases dirs.len(),
{
    if dirs.len() == 0 {
        Seq::empty()
    } else {
        placed(ranked(dirs.drop_last()), dirs.last())
    }
}

/// The predicate "suits exactly as well as `(bucket, distance)` says".
pub open spec fn of_rank(bucket: u8, distance: u32) -> spec_fn(RankedDir) -> bool {
    |dir: RankedDir| dir.bucket == bucket && dir.distance == distance
}

/// Whether no directory in `dirs` stands behind one that suits less well.
pub open spec fn is_ranked(dirs: Seq<RankedDir>) -> bool {
    forall|i: int, j: int|
        0 <= i < j < dirs.len() ==> !ranks_before(#[trigger] dirs[j], #[trigger] dirs[i])
}

/// Ranking drops and adds no directory, puts none behind one that suits less
/// well, and keeps those that suit equally well in order.
pub proof fn ranking_is_stable_sort(dirs: Seq<RankedDir>, bucket: u8, distance: u32)
    ensures
        ranked(dirs).to_multiset() == dirs.to_multiset(),
        is_ranked(ranked(dirs)),
        ranked(dirs).filter(of_rank(bucket, distance)) == dirs.filter(of_rank(bucket, distance)),
    decreases dirs.len(),
{
    if dirs.len() > 0 {
        let init = dirs.drop_last();
        ranking_is_stable_sort(init, bucket, distance);
        lemma_placed(ranked(init), dirs.last(), bucket, distance);
        assert(init.push(dirs.last()) =~= dirs);
        vstd::seq_lib::to_multiset_build(init, dirs.last());
        init.lemma_filter_push(dirs.last(), of_rank(bucket, distance));
        ranked(init).lemma_filter_push(dirs.last(), of_rank(bucket, distance));
    } else {
        assert(dirs =~= Seq::empty());
    }
}

proof fn lemma_placed(dirs: Seq<RankedDir>, dir: RankedDir, bucket: u8, distance: u32)
    requires
        is_ranked(dirs),
    ensures
        placed(dirs, dir).to_multiset() == dirs.to_multiset().insert(dir),
        is_ranked(placed(dirs, dir)),
        forall|i: int|
            0 <= i < placed(dirs, dir).len() ==> #[trigger] placed(dirs, dir)[i] == dir
                || dirs.contains(placed(dirs, dir)[i]),
        placed(dirs, dir).filter(of_rank(bucket, distance)) == dirs.push(dir).filter(
            of_rank(bucket, distance),
        ),
    decreases dirs.len(),
{
    let same = of_rank(bucket, distance);
    if dirs.len() > 0 && ranks_before(dir, dirs.last()) {
        let init = dirs.drop_last();
        let last = dirs.last();
        let inner = placed(init, dir);
        assert(is_ranked(init));
        lemma_placed(init, dir, bucket, distance);
        assert(init.push(last) =~= dirs);
        vstd::seq_lib::to_multiset_build(init, last);
        vstd::seq_lib::to_multiset_build(inner, last);
        assert(inner.push(last).to_multiset() =~= dirs.to_multiset().insert(dir));
        assert forall|i: int| 0 <= i < inner.push(last).len() implies #[trigger] inner.push(
            last,
        )[i] == dir || dirs.contains(inner.push(last)[i]) by {
            if i < inner.len() {
                if inner[i] != dir {
                    let k = choose|k: int| 0 <= k < init.len() && init[k] == inner[i];
                    assert(dirs[k] == inner[i]);
                }
            } else {
                assert(dirs[dirs.len() - 1] == last);
            }
        }
        assert forall|i: int, j: int| 0 <= i < j < inner.push(last).len() implies !ranks_before(
            #[trigger] inner.push(last)[j],
            #[trigger] inner.push(last)[i],
        ) by {
            if j == inner.len() && inner[i] != dir {
                let k = choose|k: int| 0 <= k < init.len() && init[k] == inner[i];
                assert(!ranks_before(dirs[dirs.len() - 1], dirs[k]));
            }
        }
        inner.lemma_filter_push(last, same);
        init.lemma_filter_push(dir, same);
        init.lemma_filter_push(last, same);
        dirs.lemma_filter_push(dir, same);
    } else {
        vstd::seq_lib::to_multiset_build(dirs, dir);
        assert forall|i: int, j: int| 0 <= i < j < dirs.push(dir).len() implies !ranks_before(
            #[trigger] dirs.push(dir)[j],
            #[trigger] dirs.push(dir)[i],
        ) by {
            if j == dirs.len() {
                if i < dirs.len() - 1 {
                    assert(!ranks_before(dirs[dirs.len() - 1], dirs[i]));
                }
            }
        }
    }
}

/// Puts `dir` among the ranked directories `dirs`.
fn place(dirs: &mut Vec<SizeDir>, dir: SizeDir)
    ensures
        final(dirs).deep_view() == placed(old(dirs).deep_view(), dir@),
{
    let ghost all = dirs.deep_view();
    let mut i: usize = dirs.len();
    assert(all.take(i as int) =~= all);
    assert(all.skip(i as int) =~= Seq::empty());
    assert(placed(all, dir@) =~= placed(all, dir@) + all.skip(i as int));
    while i > 0 && (dir.bucket < dirs[i - 1].bucket || (dir.bucket == dirs[i - 1].bucket
        && dir.distance < dirs[i - 1].distance))
        invariant
            i <= dirs.len(),
            all == dirs.deep_view(),
            placed(all, dir@) == placed(all.take(i as int), dir@) + all.skip(i as int),
        decreases i,
    {
        assert(all.take(i as int).last() == dirs@[i - 1]@);
        assert(all.take(i as int).drop_last() =~= all.take(i - 1));
        assert(all.skip(i - 1) =~= seq![all[i - 1]] + all.skip(i as int));
        assert(placed(all, dir@) =~= placed(all.take(i - 1), dir@) + all.skip(i - 1));
        i = i - 1;
    }
    assert(i > 0 ==> all.take(i as int).last() == dirs@[i - 1]@);
    dirs.insert(i, dir);
    assert(dirs.deep_view() =~= all.take(i as int).push(dir@) + all.skip(i as int));
}

/// `dirs` from the best suited to the least, directories that suit equally well
/// in the given order.
pub fn rank_dirs(dirs: Vec<SizeDir>) -> (result: Vec<SizeDir>)
    ensures
        result.deep_view() == ranked(dirs.deep_view()),
{
    let ghost found = dirs.deep_view();
    let ghost mut passed: int = 0;
    let mut rest = dirs;
    let mut result: Vec<SizeDir> = Vec::new();
    assert(found.take(0) =~= Seq::empty());
    assert(result.deep_view() =~= ranked(found.take(0)));
    assert(rest.deep_view() =~= found.skip(0));
    while rest.len() > 0
        invariant
            0 <= passed <= found.len(),
            rest.deep_view() == found.skip(passed),
            result.deep_view() == ranked(found.take(passed)),
        decreases rest.len(),
    {
        let ghost before = rest.deep_view();
        assert(before.len() == rest.len());
        let dir = rest.remove(0);
        assert(dir@ == before[0]);
        assert(rest.deep_view() =~= before.skip(1));
        assert(before.skip(1) =~= found.skip(passed + 1));
        assert(found.take(passed + 1).drop_last() =~= found.take(passed));
        place(&mut result, dir);
        proof {
            passed = passed + 1;
        }
    }
    assert(rest.deep_view().len() == 0);
    assert(found.take(passed) =~= found);
    result
}

// ---------------------------------------------------------------------------
// Collecting
// ---------------------------------------------------------------------------

/// The size directory that an entry of the theme directory `dir` is, if it is
/// one, as a function of the entry. Names that are not valid UTF-8 are left out.
pub open spec fn size_dir_at(dir: Seq<u8>, size: u32) -> spec_fn(Entry) -> Option<RankedDir> {
    |entry: Entry|
        match encoding::text_of(entry.name) {
            Some(name) if entry.kind == EntryKind::Directory => Some(
                RankedDir {
                    path: path::joined(dir, entry.name),
                    bucket: closeness(name, size).0,
                    distance: closeness(name, size).1,
                },
            ),
            _ => None,
        }
}

/// Whether the base directory `base` holds icons themselves and not themes.
pub open spec fn is_pixmaps(base: Seq<u8>) -> bool {
    path::has_last_name(base, utf8::encode_utf8("pixmaps"@))
}

/// The size directories of `theme` below one base directory, as a function of
/// that directory.
pub open spec fn size_dirs_below(disk: Disk, theme: Seq<char>, size: u32) -> spec_fn(
    Seq<u8>,
) -> Seq<RankedDir> {
    |base: Seq<u8>|
        {
            let dir = path::joined(base, utf8::encode_utf8(theme));
            if is_pixmaps(base) {
                Seq::empty()
            } else {
                disk.entries(dir).filter_map(size_dir_at(dir, size))
            }
        }
}

/// The size directories of `theme` below the directories `bases`, from the one
/// best suited to icons of the size `size` to the least.
pub open spec fn size_dirs(
    disk: Disk,
    bases: Seq<Seq<u8>>,
    theme: Seq<char>,
    size: u32,
) -> Seq<RankedDir> {
    ranked(bases.flat_map(size_dirs_below(disk, theme, size)))
}

/// The size directories come ranked: no directory stands behind one that suits
/// less well.
pub proof fn size_dirs_are_ranked(disk: Disk, bases: Seq<Seq<u8>>, theme: Seq<char>, size: u32)
    ensures
        is_ranked(size_dirs(disk, bases, theme, size)),
{
    ranking_is_stable_sort(bases.flat_map(size_dirs_below(disk, theme, size)), 0, 0);
}

/// Adds to `found` the size directories among the entries of the theme
/// directory `dir`.
fn add_size_dirs(dir: &FsPath, entries: &Vec<DirEntry>, size: u32, found: &mut Vec<SizeDir>)
    ensures
        final(found).deep_view() == old(found).deep_view() + entries.deep_view().filter_map(
            size_dir_at(dir@, size),
        ),
{
    let ghost before = found.deep_view();
    let ghost model = entries.deep_view();
    let ghost pick = size_dir_at(dir@, size);
    assert(model.take(0) =~= Seq::empty());
    assert(found.deep_view() =~= before + model.take(0).filter_map(pick));
    for i in 0..entries.len()
        invariant
            model == entries.deep_view(),
            pick == size_dir_at(dir@, size),
            found.deep_view() == before + model.take(i as int).filter_map(pick),
    {
        let ghost so_far = found.deep_view();
        let entry = &entries[i];
        assert(model[i as int] == entry@);
        proof {
            model.lemma_filter_map_take_succ(pick, i as int);
        }
        if entry.kind == EntryKind::Directory {
            if let Some(name) = decode_text(entry.name.as_slice()) {
                let (bucket, distance) = classify(name, size);
                let item = SizeDir { path: dir.join(entry.name.as_slice()), bucket, distance };
                found.push(item);
                assert(found.deep_view() =~= so_far.push(item@));
            }
        }
        assert(found.deep_view() =~= before + model.take(i + 1).filter_map(pick));
    }
    assert(model.take(model.len() as int) =~= model);
}

/// Whether the size directories of `theme` below a base directory may be reported
/// as a list of directories, as a function of both.
pub open spec fn reported_size_dirs<L: Fn(&FsPath) -> Option<Vec<DirEntry>>>(
    list_dir: L,
    theme: Seq<char>,
    size: u32,
) -> spec_fn(Seq<u8>, Seq<RankedDir>) -> bool {
    |base: Seq<u8>, dirs: Seq<RankedDir>|
        {
            let dir = path::joined(base, utf8::encode_utf8(theme));
            if is_pixmaps(base) {
                dirs == Seq::<RankedDir>::empty()
            } else {
                exists|entries: Seq<Entry>| #[trigger]
                    disk::may_list(list_dir, dir, entries) && dirs == entries.filter_map(
                        size_dir_at(dir, size),
                    )
            }
        }
}

/// Whether `dirs` are size directories of `theme` below the directories `bases`
/// that may be reported, from the one best suited to `size` to the least.
pub open spec fn may_collect<L: Fn(&FsPath) -> Option<Vec<DirEntry>>>(
    list_dir: L,
    bases: Seq<Seq<u8>>,
    theme: Seq<char>,
    size: u32,
    dirs: Seq<RankedDir>,
) -> bool {
    exists|parts: Seq<Seq<RankedDir>>| #[trigger]
        disk::piecewise(bases, reported_size_dirs(list_dir, theme, size), parts) && dirs == ranked(
            parts.flatten(),
        )
}

/// Answers that agree with a disk report the size directories that it has.
pub proof fn lemma_may_collect<L: Fn(&FsPath) -> Option<Vec<DirEntry>>>(
    list_dir: L,
    disk: Disk,
    bases: Seq<Seq<u8>>,
    theme: Seq<char>,
    size: u32,
    dirs: Seq<RankedDir>,
)
    requires
        disk::reports_listings(list_dir, disk),
        may_collect(list_dir, bases, theme, size, dirs),
    ensures
        dirs == size_dirs(disk, bases, theme, size),
{
    let gives = reported_size_dirs(list_dir, theme, size);
    let below = size_dirs_below(disk, theme, size);
    let parts = choose|parts: Seq<Seq<RankedDir>>| #[trigger]
        disk::piecewise(bases, gives, parts) && dirs == ranked(parts.flatten());
    assert forall|i: int, part: Seq<RankedDir>|
        0 <= i < bases.len() && #[trigger] gives(bases[i], part) implies part == below(
        bases[i],
    ) by {
        if !is_pixmaps(bases[i]) {
            let dir = path::joined(bases[i], utf8::encode_utf8(theme));
            let entries = choose|entries: Seq<Entry>| #[trigger]
                disk::may_list(list_dir, dir, entries) && part == entries.filter_map(
                    size_dir_at(dir, size),
                );
            disk::lemma_may_list(list_dir, disk, dir, entries);
        }
    }
    disk::lemma_piecewise(bases, gives, parts, below);
}

/// The size directories of `theme` below the directories `base_dirs`, from the
/// one best suited to icons of the size `size` to the least.
pub fn collect_size_dirs<L: Fn(&FsPath) -> Option<Vec<DirEntry>>>(
    base_dirs: &Vec<FsPath>,
    theme: &str,
    size: u32,
    list_dir: &L,
) -> (dirs: Vec<SizeDir>)
    requires
        disk::probes_paths(*list_dir),
    ensures
        may_collect(*list_dir, base_dirs.deep_view(), theme@, size, dirs.deep_view()),
        is_ranked(dirs.deep_view()),
        forall|disk: Disk| #[trigger]
            disk::reports_listings(*list_dir, disk) ==> dirs.deep_view() == size_dirs(
                disk,
                base_dirs.deep_view(),
                theme@,
                size,
            ),
{
    let ghost bases = base_dirs.deep_view();
    let ghost gives = reported_size_dirs(*list_dir, theme@, size);
    let ghost mut parts: Seq<Seq<RankedDir>> = Seq::empty();
    let mut found: Vec<SizeDir> = Vec::new();
    assert(found.deep_view() =~= parts.flatten());
    for i in 0..base_dirs.len()
        invariant
            disk::probes_paths(*list_dir),
            bases == base_dirs.deep_view(),
            gives == reported_size_dirs(*list_dir, theme@, size),
            disk::piecewise(bases.take(i as int), gives, parts),
            found.deep_view() == parts.flatten(),
    {
        let base = &base_dirs[i];
        assert(bases[i as int] == base@);
        let ghost mut part: Seq<RankedDir> = Seq::empty();
        if !base.ends_with("pixmaps") {
            let dir = base.join_text(theme);
            let answer = list_dir(&dir);
            let ghost entries = disk::entries_in(answer);
            assert(disk::may_list(*list_dir, dir@, entries));
            proof {
                part = entries.filter_map(size_dir_at(dir@, size));
            }
            match answer {
                Some(entries) => {
                    add_size_dirs(&dir, &entries, size, &mut found);
                },
                None => {
                    assert(part =~= Seq::empty());
                },
            }
        }
        proof {
            disk::lemma_piecewise_step(bases, gives, parts, i as int, part);
            parts.lemma_flatten_push(part);
            parts = parts.push(part);
        }
        assert(found.deep_view() =~= parts.flatten());
    }
    assert(bases.take(bases.len() as int) =~= bases);
    let dirs = rank_dirs(found);
    proof {
        ranking_is_stable_sort(parts.flatten(), 0, 0);
        assert forall|disk: Disk| #[trigger]
            disk::reports_listings(*list_dir, disk) implies dirs.deep_view() == size_dirs(
            disk,
            bases,
            theme@,
            size,
        ) by {
            lemma_may_collect(*list_dir, disk, bases, theme@, size, dirs.deep_view());
        }
    }
    dirs
}

} // verus!
