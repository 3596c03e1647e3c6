//! What the search for an icon comes to, said of what is on the disk.

use crate::disk;
use crate::disk::{Disk, EntryKind};
use crate::finder;
use crate::finder::Cache;
use crate::fuzzy;
use crate::names;
use crate::path;
use crate::places;
use crate::themes;
use vstd::prelude::*;
use vstd::utf8;

verus! {

// ---------------------------------------------------------------------------
// The themes on a disk
// ---------------------------------------------------------------------------

/// Whether the `k`-th entry of the `b`-th base directory is the directory of
/// `theme`, where that base directory holds themes.
pub open spec fn is_theme_at(
    disk: Disk,
    bases: Seq<Seq<u8>>,
    theme: Seq<char>,
    b: int,
    k: int,
) -> bool {
    &&& 0 <= b < bases.len()
    &&& !places::is_flat(bases[b])
    &&& places::is_entry(disk, bases[b], k, EntryKind::Directory)
    &&& places::entry_name(disk, bases[b], k) == utf8::encode_utf8(theme)
}

/// Whether there is a directory of `theme` below the base directories `bases`.
pub open spec fn is_theme(disk: Disk, bases: Seq<Seq<u8>>, theme: Seq<char>) -> bool {
    exists|b: int, k: int| is_theme_at(disk, bases, theme, b, k)
}

/// Whether `theme` counts: it is the active one, or `hicolor`, or there is a
/// directory of it.
pub open spec fn counts(
    disk: Disk,
    bases: Seq<Seq<u8>>,
    active: Seq<char>,
    theme: Seq<char>,
) -> bool {
    theme == active || theme == "hicolor"@ || is_theme(disk, bases, theme)
}

/// 0 for the active theme, 1 for `hicolor`, 2 for any other.
pub open spec fn priority(active: Seq<char>, theme: Seq<char>) -> int {
    if theme == active {
        0
    } else if theme == "hicolor"@ {
        1
    } else {
        2
    }
}

/// Whether the theme `a` counts before the theme `b`: by priority, and in the
/// order of text among those without.
pub open spec fn theme_before(active: Seq<char>, a: Seq<char>, b: Seq<char>) -> bool {
    ||| priority(active, a) < priority(active, b)
    ||| priority(active, a) == 2 && priority(active, b) == 2 && names::comes_before(a, b)
}

/// The themes searched are those that count, in their order.
pub proof fn all_themes_are_searched_in_order(
    disk: Disk,
    bases: Seq<Seq<u8>>,
    active: Seq<char>,
)
    ensures
        forall|theme: Seq<char>| #[trigger]
            finder::other_themes(disk, bases, active).contains(theme) <==> theme != active && theme
                != "hicolor"@ && is_theme(disk, bases, theme),
        forall|theme: Seq<char>| #[trigger]
            finder::searched_themes(disk, bases, active).contains(theme) <==> counts(
                disk,
                bases,
                active,
                theme,
            ),
        forall|i: int, j: int|
            0 <= i < j < finder::searched_themes(disk, bases, active).len() ==> theme_before(
                active,
                #[trigger] finder::searched_themes(disk, bases, active)[i],
                #[trigger] finder::searched_themes(disk, bases, active)[j],
            ),
{
    let first = finder::priority_themes(active);
    let others = finder::other_themes(disk, bases, active);
    let all = finder::searched_themes(disk, bases, active);
    let in_base = finder::themes_in(disk, active);
    finder::themes_are_searched_once(disk, bases, active);
    assert(first[0] == active);
    assert(active != "hicolor"@ ==> first[1] == "hicolor"@);
    assert forall|theme: Seq<char>| #[trigger] others.contains(theme) <==> priority(active, theme)
        == 2 && is_theme(disk, bases, theme) by {
        assert(others.to_set().contains(theme) == others.contains(theme));
        if others.contains(theme) {
            let b = choose|b: int|
                0 <= b < bases.len() && in_base(#[trigger] bases[b]).contains(theme);
            let entries = disk.entries(bases[b]);
            let k = choose|k: int|
                0 <= k < entries.len() && finder::theme_named(active)(
                    #[trigger] entries[k],
                ).contains(theme);
            utf8::decode_utf8_encode_utf8(entries[k].name);
            assert(first.contains(active)) by {
                assert(first[0] == active);
            }
            if active != "hicolor"@ {
                assert(first.contains("hicolor"@)) by {
                    assert(first[1] == "hicolor"@);
                }
            }
            assert(is_theme_at(disk, bases, theme, b, k));
        }
        if priority(active, theme) == 2 && is_theme(disk, bases, theme) {
            let (b, k) = choose|b: int, k: int| is_theme_at(disk, bases, theme, b, k);
            let entries = disk.entries(bases[b]);
            utf8::encode_utf8_valid_utf8(theme);
            utf8::encode_utf8_decode_utf8(theme);
            assert(finder::theme_named(active)(entries[k]).contains(theme));
            assert(in_base(bases[b]).contains(theme));
            assert(names::gathered(bases, in_base).contains(theme));
        }
    }
    assert forall|theme: Seq<char>| #[trigger] all.contains(theme) <==> counts(
        disk,
        bases,
        active,
        theme,
    ) by {
        if all.contains(theme) {
            let i = choose|i: int| 0 <= i < all.len() && all[i] == theme;
            if i >= first.len() {
                assert(others[i - first.len()] == theme);
                assert(others.contains(theme));
            }
        }
        if counts(disk, bases, active, theme) {
            if priority(active, theme) == 0 {
                assert(all[0] == theme);
            } else if priority(active, theme) == 1 {
                assert(all[1] == theme);
            } else {
                assert(others.contains(theme));
                let i = choose|i: int| 0 <= i < others.len() && others[i] == theme;
                assert(all[first.len() + i] == theme);
            }
        }
    }
    assert forall|i: int, j: int| 0 <= i < j < all.len() implies theme_before(
        active,
        #[trigger] all[i],
        #[trigger] all[j],
    ) by {
        if j >= first.len() {
            assert(others[j - first.len()] == all[j]);
            assert(others.contains(all[j]));
            if i >= first.len() {
                assert(others[i - first.len()] == all[i]);
                assert(others.contains(all[i]));
                assert(names::comes_before(others[i - first.len()], others[j - first.len()]));
            }
        }
    }
}

// ---------------------------------------------------------------------------
// Under one name
// ---------------------------------------------------------------------------

/// Whether the icon `app` is present, in the format `f`, in the `b`-th base
/// directory, where that one holds icons themselves.
pub open spec fn is_loose_at(
    disk: Disk,
    bases: Seq<Seq<u8>>,
    app: Seq<char>,
    b: int,
    f: int,
) -> bool {
    &&& 0 <= b < bases.len()
    &&& places::is_flat(bases[b])
    &&& 0 <= f < 3
    &&& disk.present.contains(places::icon_at(bases[b], app, f))
}

/// Whether the icon `app` is present in a base directory that holds icons
/// themselves.
pub open spec fn is_loose(disk: Disk, bases: Seq<Seq<u8>>, app: Seq<char>) -> bool {
    exists|b: int, f: int| is_loose_at(disk, bases, app, b, f)
}

/// Whether `file` is the icon `app` in the first base directory, and there in the
/// most preferred format, that has it among those that hold icons themselves.
pub open spec fn is_first_loose(
    disk: Disk,
    bases: Seq<Seq<u8>>,
    app: Seq<char>,
    file: Seq<u8>,
) -> bool {
    exists|b: int, f: int|
        {
            &&& #[trigger] is_loose_at(disk, bases, app, b, f)
            &&& file == places::icon_at(bases[b], app, f)
            &&& forall|c: int, g: int| #[trigger]
                is_loose_at(disk, bases, app, c, g) ==> b < c || b == c && f <= g
        }
}

/// Among the base directories that hold icons themselves, the icon found is in
/// the first that has it, and none is found only if none has it.
pub proof fn loose_icon_is_in_first_directory(disk: Disk, bases: Seq<Seq<u8>>, app: Seq<char>)
    ensures
        match disk::first_present(
            disk.present,
            bases.flat_map(themes::flat_files_of(app)),
        ) {
            Some(file) => is_first_loose(disk, bases, app, file),
            None => !is_loose(disk, bases, app),
        },
{
    let files_of = themes::flat_files_of(app);
    let found = disk::first_present(disk.present, bases.flat_map(files_of));
    assert forall|b: int, f: int| #[trigger]
        is_loose_at(disk, bases, app, b, f) implies disk::first_present(
        disk.present,
        files_of(bases[b]),
    ) is Some by {
        places::flat_icon_is_in_preferred_format(disk, bases[b], app);
    }
    if found is Some {
        let b = disk::lemma_first_present_item(disk.present, bases, files_of);
        places::flat_icon_is_in_preferred_format(disk, bases[b], app);
        let file = found->0;
        let f = choose|f: int|
            {
                &&& 0 <= f < 3
                &&& file == #[trigger] places::icon_at(bases[b], app, f)
                &&& disk.present.contains(file)
                &&& forall|g: int|
                    0 <= g < f ==> !disk.present.contains(
                        #[trigger] places::icon_at(bases[b], app, g),
                    )
            };
        assert(is_loose_at(disk, bases, app, b, f));
        assert forall|c: int, g: int| #[trigger] is_loose_at(disk, bases, app, c, g) implies b < c
            || b == c && f <= g by {
            assert(disk::first_present(disk.present, files_of(bases[c])) is Some);
        }
    } else {
        assert forall|b: int, f: int| !is_loose_at(disk, bases, app, b, f) by {
            if is_loose_at(disk, bases, app, b, f) {
                disk::lemma_no_item(disk.present, bases, files_of, b);
            }
        }
    }
}

/// The first of `themes` that has the icon gives it, from a best place for the
/// wanted size; where none has it, the base directories that hold icons
/// themselves do; where none of those has it either, none is found.
pub proof fn named_icon_is_in_first_theme(
    disk: Disk,
    bases: Seq<Seq<u8>>,
    themes: Seq<Seq<char>>,
    app: Seq<char>,
    size: u32,
)
    ensures
        ({
            let found = disk::first_present(
                disk.present,
                themes::named_files(disk, bases, themes, app, size),
            );
            &&& forall|i: int|
                0 <= i < themes.len() && places::in_theme(
                    disk,
                    bases,
                    #[trigger] themes[i],
                    app,
                ) && (forall|j: int|
                    0 <= j < i ==> !places::in_theme(disk, bases, #[trigger] themes[j], app))
                    ==> found is Some && places::is_best_in(
                    disk,
                    bases,
                    themes[i],
                    app,
                    size,
                    found->0,
                )
            &&& (forall|i: int|
                0 <= i < themes.len() ==> !places::in_theme(
                    disk,
                    bases,
                    #[trigger] themes[i],
                    app,
                )) ==> match found {
                Some(file) => is_first_loose(disk, bases, app, file),
                None => !is_loose(disk, bases, app),
            }
        }),
{
    let files_of = themes::theme_files_of(disk, bases, app, size);
    let loose = bases.flat_map(themes::flat_files_of(app));
    let found = disk::first_present(
        disk.present,
        themes::named_files(disk, bases, themes, app, size),
    );
    disk::lemma_first_present_add(disk.present, themes.flat_map(files_of), loose);
    loose_icon_is_in_first_directory(disk, bases, app);
    assert forall|i: int| 0 <= i < themes.len() implies (disk::first_present(
        disk.present,
        files_of(#[trigger] themes[i]),
    ) is Some <==> places::in_theme(disk, bases, themes[i], app)) by {
        places::theme_icon_is_at_best_place(disk, bases, themes[i], app, size);
        places::lemma_best_is_in_theme(disk, bases, themes[i], app, size);
    }
    assert forall|i: int|
        0 <= i < themes.len() && places::in_theme(disk, bases, #[trigger] themes[i], app) && (
        forall|j: int| 0 <= j < i ==> !places::in_theme(disk, bases, #[trigger] themes[j], app))
        implies found is Some && places::is_best_in(
        disk,
        bases,
        themes[i],
        app,
        size,
        found->0,
    ) by {
        assert forall|j: int| 0 <= j < i implies disk::first_present(
            disk.present,
            files_of(#[trigger] themes[j]),
        ) is None by {
            assert(!places::in_theme(disk, bases, themes[j], app));
        }
        disk::lemma_first_present_found(disk.present, themes, files_of, i);
        places::theme_icon_is_at_best_place(disk, bases, themes[i], app, size);
    }
    if forall|i: int|
        0 <= i < themes.len() ==> !places::in_theme(disk, bases, #[trigger] themes[i], app) {
        assert forall|j: int| 0 <= j < themes.len() implies disk::first_present(
            disk.present,
            files_of(#[trigger] themes[j]),
        ) is None by {
            assert(!places::in_theme(disk, bases, themes[j], app));
        }
        disk::lemma_first_present_absent(disk.present, themes, files_of);
    }
}

/// Whether there is an icon `app` at all: in a theme that counts, or in a base
/// directory that holds icons themselves.
pub open spec fn is_somewhere(disk: Disk, cache: Cache, app: Seq<char>) -> bool {
    ||| exists|theme: Seq<char>|
        counts(disk, cache.bases, cache.active, theme) && #[trigger] places::in_theme(
            disk,
            cache.bases,
            theme,
            app,
        )
    ||| is_loose(disk, cache.bases, app)
}

proof fn lemma_exact(disk: Disk, cache: Cache, app: Seq<char>, size: u32)
    ensures
        disk::first_present(disk.present, finder::exact_files(disk, cache, app, size)) is Some
            <==> is_somewhere(disk, cache, app),
        disk::first_present(disk.present, finder::exact_files(disk, cache, app, size)) is Some
            ==> finder::icon_path(disk, cache, app, size) == disk::first_present(
            disk.present,
            finder::exact_files(disk, cache, app, size),
        ),
        disk::first_present(disk.present, finder::exact_files(disk, cache, app, size)) is None
            ==> finder::icon_path(disk, cache, app, size) == disk::first_present(
            disk.present,
            finder::similar_files(disk, cache, app, size),
        ),
{
    let themes = finder::searched_themes(disk, cache.bases, cache.active);
    disk::lemma_first_present_add(
        disk.present,
        finder::exact_files(disk, cache, app, size),
        finder::similar_files(disk, cache, app, size),
    );
    all_themes_are_searched_in_order(disk, cache.bases, cache.active);
    lemma_named(disk, cache.bases, themes, app, size);
    if exists|i: int|
        0 <= i < themes.len() && places::in_theme(disk, cache.bases, #[trigger] themes[i], app) {
        let i = choose|i: int|
            0 <= i < themes.len() && places::in_theme(disk, cache.bases, #[trigger] themes[i], app);
        assert(themes.contains(themes[i]));
        assert(is_somewhere(disk, cache, app));
    }
    if exists|theme: Seq<char>|
        counts(disk, cache.bases, cache.active, theme) && #[trigger] places::in_theme(
            disk,
            cache.bases,
            theme,
            app,
        ) {
        let theme = choose|theme: Seq<char>|
            counts(disk, cache.bases, cache.active, theme) && #[trigger] places::in_theme(
                disk,
                cache.bases,
                theme,
                app,
            );
        assert(themes.contains(theme));
        let i = choose|i: int| 0 <= i < themes.len() && themes[i] == theme;
        assert(places::in_theme(disk, cache.bases, themes[i], app));
    }
}

/// When something is found under a name in the given themes.
proof fn lemma_named(
    disk: Disk,
    bases: Seq<Seq<u8>>,
    themes: Seq<Seq<char>>,
    app: Seq<char>,
    size: u32,
)
    ensures
        disk::first_present(
            disk.present,
            themes::named_files(disk, bases, themes, app, size),
        ) is Some <==> {
            ||| exists|i: int|
                0 <= i < themes.len() && places::in_theme(disk, bases, #[trigger] themes[i], app)
            ||| is_loose(disk, bases, app)
        },
{
    named_icon_is_in_first_theme(disk, bases, themes, app, size);
    if exists|i: int|
        0 <= i < themes.len() && places::in_theme(disk, bases, #[trigger] themes[i], app) {
        let i = choose|i: int|
            0 <= i < themes.len() && places::in_theme(disk, bases, #[trigger] themes[i], app);
        let k = lemma_first_theme(disk, bases, themes, app, i);
        assert(places::in_theme(disk, bases, themes[k], app));
    } else {
        let found = disk::first_present(
            disk.present,
            themes::named_files(disk, bases, themes, app, size),
        );
        if found is Some {
            let (b, f) = choose|b: int, f: int|
                {
                    &&& #[trigger] is_loose_at(disk, bases, app, b, f)
                    &&& found->0 == places::icon_at(bases[b], app, f)
                    &&& forall|c: int, g: int| #[trigger]
                        is_loose_at(disk, bases, app, c, g) ==> b < c || b == c && f <= g
                };
            assert(is_loose_at(disk, bases, app, b, f));
        }
    }
}

/// The first theme that has the icon, where one has it.
proof fn lemma_first_theme(
    disk: Disk,
    bases: Seq<Seq<u8>>,
    themes: Seq<Seq<char>>,
    app: Seq<char>,
    i: int,
) -> (k: int)
    requires
        0 <= i < themes.len(),
        places::in_theme(disk, bases, themes[i], app),
    ensures
        0 <= k <= i,
        places::in_theme(disk, bases, themes[k], app),
        forall|j: int| 0 <= j < k ==> !places::in_theme(disk, bases, #[trigger] themes[j], app),
    decreases i,
{
    if exists|j: int| 0 <= j < i && places::in_theme(disk, bases, #[trigger] themes[j], app) {
        let j = choose|j: int|
            0 <= j < i && places::in_theme(disk, bases, #[trigger] themes[j], app);
        lemma_first_theme(disk, bases, themes, app, j)
    } else {
        i
    }
}

// ---------------------------------------------------------------------------
// Laws of the search
// ---------------------------------------------------------------------------

/// An icon in any theme that counts, at any place in it, makes the search find
/// one, whatever size is wanted.
pub proof fn every_theme_is_searched(
    disk: Disk,
    cache: Cache,
    theme: Seq<char>,
    app: Seq<char>,
    size: u32,
)
    requires
        counts(disk, cache.bases, cache.active, theme),
        places::in_theme(disk, cache.bases, theme, app),
    ensures
        finder::icon_path(disk, cache, app, size) is Some,
{
    lemma_exact(disk, cache, app, size);
    assert(is_somewhere(disk, cache, app));
}

/// Of the themes that have the icon, the one that counts before all others gives
/// it, from a best place for the wanted size: the active theme, else `hicolor`,
/// else the first in the order of text. Nothing outside of themes counts then,
/// and the cache stays as it is.
pub proof fn first_theme_wins(
    disk: Disk,
    cache: Cache,
    theme: Seq<char>,
    app: Seq<char>,
    size: u32,
)
    requires
        counts(disk, cache.bases, cache.active, theme),
        places::in_theme(disk, cache.bases, theme, app),
        forall|other: Seq<char>|
            counts(disk, cache.bases, cache.active, other) && #[trigger] places::in_theme(
                disk,
                cache.bases,
                other,
                app,
            ) ==> !theme_before(cache.active, other, theme),
    ensures
        finder::icon_path(disk, cache, app, size) matches Some(file) && places::is_best_in(
            disk,
            cache.bases,
            theme,
            app,
            size,
            file,
        ),
        finder::cache_after(disk, cache, app, size) == cache,
{
    let themes = finder::searched_themes(disk, cache.bases, cache.active);
    all_themes_are_searched_in_order(disk, cache.bases, cache.active);
    lemma_exact(disk, cache, app, size);
    assert(is_somewhere(disk, cache, app));
    assert(themes.contains(theme));
    let i = choose|i: int| 0 <= i < themes.len() && themes[i] == theme;
    assert forall|j: int| 0 <= j < i implies !places::in_theme(
        disk,
        cache.bases,
        #[trigger] themes[j],
        app,
    ) by {
        assert(themes.contains(themes[j]));
        assert(theme_before(cache.active, themes[j], themes[i]));
    }
    named_icon_is_in_first_theme(disk, cache.bases, themes, app, size);
    assert(places::in_theme(disk, cache.bases, themes[i], app));
}

/// Where no theme that counts has the icon, the base directories that hold icons
/// themselves are looked into, and the first that has the icon gives it.
pub proof fn loose_icon_is_found_after_themes(
    disk: Disk,
    cache: Cache,
    app: Seq<char>,
    size: u32,
)
    requires
        forall|theme: Seq<char>|
            counts(disk, cache.bases, cache.active, theme) ==> !#[trigger] places::in_theme(
                disk,
                cache.bases,
                theme,
                app,
            ),
        is_loose(disk, cache.bases, app),
    ensures
        finder::icon_path(disk, cache, app, size) matches Some(file) && is_first_loose(
            disk,
            cache.bases,
            app,
            file,
        ),
        finder::cache_after(disk, cache, app, size) == cache,
{
    let themes = finder::searched_themes(disk, cache.bases, cache.active);
    all_themes_are_searched_in_order(disk, cache.bases, cache.active);
    lemma_exact(disk, cache, app, size);
    named_icon_is_in_first_theme(disk, cache.bases, themes, app, size);
    assert forall|i: int| 0 <= i < themes.len() implies !places::in_theme(
        disk,
        cache.bases,
        #[trigger] themes[i],
        app,
    ) by {
        assert(themes.contains(themes[i]));
    }
}

/// The reverse-DNS names that a search goes by: those kept from an earlier one,
/// or else those on the disk.
pub open spec fn known_names(disk: Disk, cache: Cache) -> Seq<Seq<char>> {
    match cache.index {
        Some(index) => index,
        None => fuzzy::fuzzy_index(disk, cache.bases),
    }
}

/// Whether the `i`-th known name is the first that answers to `app` and has an
/// icon.
pub open spec fn is_first_similar(disk: Disk, cache: Cache, app: Seq<char>, i: int) -> bool {
    let known = known_names(disk, cache);
    &&& 0 <= i < known.len()
    &&& fuzzy::answers_to(known[i], app)
    &&& is_somewhere(disk, cache, known[i])
    &&& forall|j: int|
        0 <= j < i && fuzzy::answers_to(#[trigger] known[j], app) ==> !is_somewhere(
            disk,
            cache,
            known[j],
        )
}

/// The search for a name without an icon of its own finds what the search for the
/// first known name that answers to it, and has an icon, finds at the same size.
pub proof fn similar_name_is_searched_like_its_own(
    disk: Disk,
    cache: Cache,
    app: Seq<char>,
    size: u32,
    i: int,
)
    requires
        !app.contains('.'),
        !is_somewhere(disk, cache, app),
        is_first_similar(disk, cache, app, i),
    ensures
        finder::icon_path(disk, cache, app, size) == finder::icon_path(
            disk,
            cache,
            known_names(disk, cache)[i],
            size,
        ),
        finder::icon_path(disk, cache, app, size) is Some,
        finder::icon_path(disk, cache, app, size) == disk::first_present(
            disk.present,
            finder::exact_files(disk, cache, known_names(disk, cache)[i], size),
        ),
{
    let known = known_names(disk, cache);
    let themes = finder::searched_themes(disk, cache.bases, cache.active);
    let files_of = fuzzy::candidate_files(disk, cache.bases, themes, app, size);
    lemma_exact(disk, cache, app, size);
    lemma_exact(disk, cache, known[i], size);
    assert forall|j: int| 0 <= j < i implies disk::first_present(
        disk.present,
        files_of(#[trigger] known[j]),
    ) is None by {
        if fuzzy::answers_to(known[j], app) {
            lemma_exact(disk, cache, known[j], size);
        }
    }
    disk::lemma_first_present_found(disk.present, known, files_of, i);
}

/// Where there is no icon of the name, and the name has a dot or no known name
/// that answers to it has an icon, none is found.
pub proof fn nothing_is_found_where_nothing_is(
    disk: Disk,
    cache: Cache,
    app: Seq<char>,
    size: u32,
)
    requires
        !is_somewhere(disk, cache, app),
        app.contains('.') || forall|i: int|
            0 <= i < known_names(disk, cache).len() && fuzzy::answers_to(
                #[trigger] known_names(disk, cache)[i],
                app,
            ) ==> !is_somewhere(disk, cache, known_names(disk, cache)[i]),
    ensures
        finder::icon_path(disk, cache, app, size) is None,
{
    let known = known_names(disk, cache);
    let themes = finder::searched_themes(disk, cache.bases, cache.active);
    let files_of = fuzzy::candidate_files(disk, cache.bases, themes, app, size);
    lemma_exact(disk, cache, app, size);
    if !app.contains('.') {
        assert forall|j: int| 0 <= j < known.len() implies disk::first_present(
            disk.present,
            files_of(#[trigger] known[j]),
        ) is None by {
            if fuzzy::answers_to(known[j], app) {
                lemma_exact(disk, cache, known[j], size);
            }
        }
        disk::lemma_first_present_absent(disk.present, known, files_of);
    }
}

/// A search changes the cache only where it goes by known names: then it keeps
/// them.
pub proof fn known_names_are_kept(disk: Disk, cache: Cache, app: Seq<char>, size: u32)
    ensures
        finder::cache_after(disk, cache, app, size) == (if app.contains('.') || is_somewhere(
            disk,
            cache,
            app,
        ) {
            cache
        } else {
            Cache {
                bases: cache.bases,
                active: cache.active,
                index: Some(known_names(disk, cache)),
            }
        }),
{
    lemma_exact(disk, cache, app, size);
}

// ---------------------------------------------------------------------------
// The reverse-DNS names on a disk
// ---------------------------------------------------------------------------

/// Whether the `k`-th entry of the directory `dir` is a file named `stem`, a dot
/// and a word without one, where `stem` has a dot itself.
pub open spec fn is_stem_at(disk: Disk, dir: Seq<u8>, stem: Seq<char>, k: int) -> bool {
    &&& places::is_entry(disk, dir, k, EntryKind::File)
    &&& stem.contains('.')
    &&& exists|ext: Seq<char>|
        !ext.contains('.') && places::entry_name(disk, dir, k) == #[trigger] utf8::encode_utf8(
            stem.push('.') + ext,
        )
}

/// Where the icons of the size directory `dir` are looked for: in `apps`, if that
/// is there.
pub open spec fn icons_of_size(disk: Disk, dir: Seq<u8>) -> Seq<u8> {
    let apps = path::joined(dir, utf8::encode_utf8("apps"@));
    if disk.present.contains(apps) {
        apps
    } else {
        dir
    }
}

/// Whether `stem` is the name of an icon in the `s`-th directory of the `t`-th
/// theme below the `b`-th base directory, there the `k`-th entry.
pub open spec fn is_listed_at(
    disk: Disk,
    bases: Seq<Seq<u8>>,
    stem: Seq<char>,
    b: int,
    t: int,
    s: int,
    k: int,
) -> bool {
    let theme = places::entry_path(disk, bases[b], t);
    let size_dir = places::entry_path(disk, theme, s);
    &&& 0 <= b < bases.len()
    &&& !places::is_flat(bases[b])
    &&& places::is_entry(disk, bases[b], t, EntryKind::Directory)
    &&& places::is_entry(disk, theme, s, EntryKind::Directory)
    &&& is_stem_at(disk, icons_of_size(disk, size_dir), stem, k)
}

/// Whether `stem` is a reverse-DNS name of an icon in any theme and at any size.
pub open spec fn is_listed(disk: Disk, bases: Seq<Seq<u8>>, stem: Seq<char>) -> bool {
    exists|b: int, t: int, s: int, k: int| is_listed_at(disk, bases, stem, b, t, s, k)
}

/// The index holds the reverse-DNS names of the icons in all themes and at all
/// sizes, and no other names.
pub proof fn index_holds_all_names(disk: Disk, bases: Seq<Seq<u8>>, stem: Seq<char>)
    ensures
        fuzzy::fuzzy_index(disk, bases).contains(stem) <==> is_listed(disk, bases, stem),
{
    let index = fuzzy::fuzzy_index(disk, bases);
    fuzzy::index_lists_each_name_once(disk, bases);
    assert(index.to_set().contains(stem) == index.contains(stem));
    if index.contains(stem) {
        let b = choose|b: int|
            0 <= b < bases.len() && fuzzy::base_stems(disk)(#[trigger] bases[b]).contains(stem);
        let in_base = disk.entries(bases[b]);
        let t = choose|t: int|
            0 <= t < in_base.len() && fuzzy::below_base(disk, bases[b])(
                #[trigger] in_base[t],
            ).contains(stem);
        let theme = path::joined(bases[b], in_base[t].name);
        assert(fuzzy::below_base(disk, bases[b])(in_base[t]).contains(stem));
        assert(fuzzy::theme_stems(disk, theme).contains(stem));
        let in_theme = disk.entries(theme);
        let s = choose|s: int|
            0 <= s < in_theme.len() && fuzzy::below_theme(disk, theme)(
                #[trigger] in_theme[s],
            ).contains(stem);
        let size_dir = path::joined(theme, in_theme[s].name);
        assert(fuzzy::below_theme(disk, theme)(in_theme[s]).contains(stem));
        assert(fuzzy::size_dir_stems(disk, size_dir).contains(stem));
        let icons = icons_of_size(disk, size_dir);
        let files = disk.entries(icons);
        let k = choose|k: int|
            0 <= k < files.len() && fuzzy::indexed()(#[trigger] files[k]).contains(stem);
        let name = utf8::decode_utf8(files[k].name);
        utf8::decode_utf8_encode_utf8(files[k].name);
        let ext = lemma_stem(name);
        assert(is_stem_at(disk, icons, stem, k));
        assert(is_listed_at(disk, bases, stem, b, t, s, k));
    }
    if is_listed(disk, bases, stem) {
        let (b, t, s, k) = choose|b: int, t: int, s: int, k: int|
            is_listed_at(disk, bases, stem, b, t, s, k);
        let in_base = disk.entries(bases[b]);
        let theme = places::entry_path(disk, bases[b], t);
        let in_theme = disk.entries(theme);
        let size_dir = places::entry_path(disk, theme, s);
        let icons = icons_of_size(disk, size_dir);
        let files = disk.entries(icons);
        let ext = choose|ext: Seq<char>|
            !ext.contains('.') && places::entry_name(disk, icons, k)
                == #[trigger] utf8::encode_utf8(stem.push('.') + ext);
        let name = stem.push('.') + ext;
        utf8::encode_utf8_valid_utf8(name);
        utf8::encode_utf8_decode_utf8(name);
        fuzzy::stem_ends_before_last_dot(stem, ext);
        assert(fuzzy::indexed()(files[k]).contains(stem));
        assert(fuzzy::size_dir_stems(disk, size_dir).contains(stem));
        assert(fuzzy::below_theme(disk, theme)(in_theme[s]).contains(stem));
        assert(fuzzy::theme_stems(disk, theme).contains(stem));
        assert(fuzzy::below_base(disk, bases[b])(in_base[t]).contains(stem));
        assert(fuzzy::base_stems(disk)(bases[b]).contains(stem));
        assert(names::gathered(bases, fuzzy::base_stems(disk)).contains(stem));
    }
}

/// What stands behind the stem of a name whose stem has a dot.
proof fn lemma_stem(name: Seq<char>) -> (ext: Seq<char>)
    requires
        fuzzy::stem_of(name).contains('.'),
    ensures
        !ext.contains('.'),
        name == fuzzy::stem_of(name).push('.') + ext,
    decreases name.len(),
{
    let init = name.drop_last();
    if name.last() == '.' {
        assert(name =~= init.push('.') + Seq::empty());
        Seq::empty()
    } else {
        assert(fuzzy::stem_of(name) == fuzzy::stem_of(init));
        let ext = lemma_stem(init);
        assert(name =~= init.push(name.last()));
        assert forall|i: int| 0 <= i < ext.push(name.last()).len() implies ext.push(
            name.last(),
        )[i] != '.' by {
            if i < ext.len() {
                assert(ext.contains(ext[i]));
            }
        }
        assert(name =~= fuzzy::stem_of(name).push('.') + ext.push(name.last()));
        ext.push(name.last())
    }
}

} // verus!
