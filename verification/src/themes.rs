//! Looking for an icon in themes and in the directories without themes.

use crate::disk;
use crate::disk::{DirEntry, Disk};
use crate::icon_dir;
use crate::icon_dir::{find_flat, search_in_size_dir};
use crate::path::FsPath;
use crate::size_dirs;
use crate::size_dirs::{collect_size_dirs, RankedDir};
use vstd::prelude::*;

verus! {

/// The files below a size directory that may hold the icon `app`, as a function
/// of that directory.
pub open spec fn files_below(disk: Disk, app: Seq<char>) -> spec_fn(RankedDir) -> Seq<Seq<u8>> {
    |dir: RankedDir| icon_dir::size_dir_files(disk, dir.path, app)
}

/// The files of `theme` that may hold the icon `app`: those below the size
/// directory best suited to `size` come first.
pub open spec fn theme_files(
    disk: Disk,
    bases: Seq<Seq<u8>>,
    theme: Seq<char>,
    app: Seq<char>,
    size: u32,
) -> Seq<Seq<u8>> {
    size_dirs::size_dirs(disk, bases, theme, size).flat_map(files_below(disk, app))
}

/// The icon found in a theme is below a size directory such that no directory
/// that suits better has the icon.
pub proof fn best_suited_size_comes_first(
    disk: Disk,
    bases: Seq<Seq<u8>>,
    theme: Seq<char>,
    app: Seq<char>,
    size: u32,
)
    ensures
        disk::first_present(disk.present, theme_files(disk, bases, theme, app, size)) matches Some(
            file,
        ) ==> exists|i: int| #[trigger]
            has_icon_first(disk, size_dirs::size_dirs(disk, bases, theme, size), app, i, file),
{
    let dirs = size_dirs::size_dirs(disk, bases, theme, size);
    let files_of = files_below(disk, app);
    if let Some(file) = disk::first_present(
        disk.present,
        theme_files(disk, bases, theme, app, size),
    ) {
        let i = disk::lemma_first_present_item(disk.present, dirs, files_of);
        size_dirs::size_dirs_are_ranked(disk, bases, theme, size);
        assert forall|j: int|
            0 <= j < dirs.len() && size_dirs::ranks_before(
                #[trigger] dirs[j],
                dirs[i],
            ) implies disk::first_present(
            disk.present,
            icon_dir::size_dir_files(disk, dirs[j].path, app),
        ) is None by {
            assert(j < i);
            assert(disk::first_present(disk.present, files_of(dirs[j])) is None);
        }
        assert(has_icon_first(disk, dirs, app, i, file));
    }
}

/// Whether `file` is the icon `app` of the `i`-th of the size directories `dirs`,
/// and no directory that suits better has one.
pub open spec fn has_icon_first(
    disk: Disk,
    dirs: Seq<RankedDir>,
    app: Seq<char>,
    i: int,
    file: Seq<u8>,
) -> bool {
    &&& 0 <= i < dirs.len()
    &&& disk::first_present(disk.present, icon_dir::size_dir_files(disk, dirs[i].path, app))
        == Some(file)
    &&& forall|j: int|
        0 <= j < dirs.len() && size_dirs::ranks_before(#[trigger] dirs[j], dirs[i])
            ==> disk::first_present(
            disk.present,
            icon_dir::size_dir_files(disk, dirs[j].path, app),
        ) is None
}

/// Whether looking for the icon `app` below a ranked directory may end with a
/// result, as a function of both.
pub open spec fn ranked_dir_search<
    P: Fn(&FsPath) -> bool,
    L: Fn(&FsPath) -> Option<Vec<DirEntry>>,
>(is_present: P, list_dir: L, app: Seq<char>) -> spec_fn(RankedDir, Option<Seq<u8>>) -> bool {
    |dir: RankedDir, found: Option<Seq<u8>>|
        icon_dir::size_dir_search(is_present, list_dir, app)(dir.path, found)
}

/// Whether looking for the icon `app` in a theme may end with a result, as a
/// function of both: the size directories are collected and then searched, from
/// the one best suited to `size` to the least.
pub open spec fn theme_search<
    P: Fn(&FsPath) -> bool,
    L: Fn(&FsPath) -> Option<Vec<DirEntry>>,
>(is_present: P, list_dir: L, bases: Seq<Seq<u8>>, app: Seq<char>, size: u32) -> spec_fn(
    Seq<char>,
    Option<Seq<u8>>,
) -> bool {
    |theme: Seq<char>, found: Option<Seq<u8>>|
        exists|dirs: Seq<RankedDir>|
            {
                &&& #[trigger] size_dirs::may_collect(list_dir, bases, theme, size, dirs)
                &&& disk::first_found(dirs, ranked_dir_search(is_present, list_dir, app), found)
            }
}

/// Answers that agree with a disk lead to the first file of the theme that it
/// has.
proof fn lemma_theme_search<P: Fn(&FsPath) -> bool, L: Fn(&FsPath) -> Option<Vec<DirEntry>>>(
    is_present: P,
    list_dir: L,
    disk: Disk,
    bases: Seq<Seq<u8>>,
    theme: Seq<char>,
    app: Seq<char>,
    size: u32,
    found: Option<Seq<u8>>,
)
    requires
        disk::reports(is_present, list_dir, disk),
        theme_search(is_present, list_dir, bases, app, size)(theme, found),
    ensures
        found == disk::first_present(disk.present, theme_files(disk, bases, theme, app, size)),
{
    let search = ranked_dir_search(is_present, list_dir, app);
    let dirs = choose|dirs: Seq<RankedDir>|
        {
            &&& #[trigger] size_dirs::may_collect(list_dir, bases, theme, size, dirs)
            &&& disk::first_found(dirs, search, found)
        };
    size_dirs::lemma_may_collect(list_dir, disk, bases, theme, size, dirs);
    assert forall|i: int, x: Option<Seq<u8>>|
        0 <= i < dirs.len() && #[trigger] search(dirs[i], x) implies x == disk::first_present(
        disk.present,
        files_below(disk, app)(dirs[i]),
    ) by {
        icon_dir::lemma_size_dir_search(is_present, list_dir, disk, dirs[i].path, app, x);
    }
    disk::lemma_first_found(disk.present, dirs, search, files_below(disk, app), found);
}

/// The first file of `theme` that holds the icon `app`, the size directories
/// taken from the one best suited to `size` to the least.
pub fn find_in_theme_all_bases<
    P: Fn(&FsPath) -> bool,
    L: Fn(&FsPath) -> Option<Vec<DirEntry>>,
>(
    base_dirs: &Vec<FsPath>,
    theme: &str,
    app: &str,
    size: u32,
    is_present: &P,
    list_dir: &L,
) -> (found: Option<FsPath>)
    requires
        disk::probes_paths(*is_present),
        disk::probes_paths(*list_dir),
    ensures
        theme_search(*is_present, *list_dir, base_dirs.deep_view(), app@, size)(
            theme@,
            found.deep_view(),
        ),
        found matches Some(file) ==> disk::may_answer(*is_present, file@, true)
            && icon_dir::named_after(file@, app@),
        forall|disk: Disk| #[trigger]
            disk::reports(*is_present, *list_dir, disk) ==> found.deep_view()
                == disk::first_present(
                disk.present,
                theme_files(disk, base_dirs.deep_view(), theme@, app@, size),
            ),
{
    let dirs = collect_size_dirs(base_dirs, theme, size, list_dir);
    let ghost items = dirs.deep_view();
    let ghost search = ranked_dir_search(*is_present, *list_dir, app@);
    let mut found: Option<FsPath> = None;
    let mut i: usize = 0;
    while i < dirs.len() && found.is_none()
        invariant
            disk::probes_paths(*is_present),
            disk::probes_paths(*list_dir),
            items == dirs.deep_view(),
            search == ranked_dir_search(*is_present, *list_dir, app@),
            i <= dirs.len(),
            disk::first_found(items.take(i as int), search, found.deep_view()),
            found matches Some(file) ==> disk::may_answer(*is_present, file@, true)
                && icon_dir::named_after(file@, app@),
        decreases dirs.len() - i,
    {
        assert(items[i as int] == dirs@[i as int]@);
        found = search_in_size_dir(&dirs[i].path, app, is_present, list_dir);
        proof {
            disk::lemma_first_found_step(items, search, i as int, found.deep_view());
        }
        i = i + 1;
    }
    proof {
        disk::lemma_first_found_end(items, search, i as int, found.deep_view());
        assert forall|disk: Disk| #[trigger]
            disk::reports(*is_present, *list_dir, disk) implies found.deep_view()
            == disk::first_present(
            disk.present,
            theme_files(disk, base_dirs.deep_view(), theme@, app@, size),
        ) by {
            lemma_theme_search(
                *is_present,
                *list_dir,
                disk,
                base_dirs.deep_view(),
                theme@,
                app@,
                size,
                found.deep_view(),
            );
        }
    }
    found
}

/// The files of a theme that may hold the icon `app`, as a function of the theme.
pub open spec fn theme_files_of(
    disk: Disk,
    bases: Seq<Seq<u8>>,
    app: Seq<char>,
    size: u32,
) -> spec_fn(Seq<char>) -> Seq<Seq<u8>> {
    |theme: Seq<char>| theme_files(disk, bases, theme, app, size)
}

/// The files directly in a base directory that may hold the icon `app`, as a
/// function of that directory: only one named `pixmaps` holds icons itself.
pub open spec fn flat_files_of(app: Seq<char>) -> spec_fn(Seq<u8>) -> Seq<Seq<u8>> {
    |base: Seq<u8>|
        if size_dirs::is_pixmaps(base) {
            icon_dir::icon_files(base, app)
        } else {
            Seq::empty()
        }
}

/// The files that may hold the icon `app`: those of the themes `themes`, one
/// after the other, then those in the base directories without themes.
pub open spec fn named_files(
    disk: Disk,
    bases: Seq<Seq<u8>>,
    themes: Seq<Seq<char>>,
    app: Seq<char>,
    size: u32,
) -> Seq<Seq<u8>> {
    themes.flat_map(theme_files_of(disk, bases, app, size)) + bases.flat_map(flat_files_of(app))
}

/// Whether looking for the icon `app` directly in a base directory may end with a
/// result, as a function of both: only one named `pixmaps` is looked at.
pub open spec fn pixmaps_search<P: Fn(&FsPath) -> bool>(is_present: P, app: Seq<char>) -> spec_fn(
    Seq<u8>,
    Option<Seq<u8>>,
) -> bool {
    |base: Seq<u8>, found: Option<Seq<u8>>|
        if size_dirs::is_pixmaps(base) {
            icon_dir::flat_search(is_present, app)(base, found)
        } else {
            found is None
        }
}

/// Whether looking for the icon of a name may end with a result, as a function of
/// both: the themes `themes` are tried in their order, then the base directories
/// without themes.
pub open spec fn name_search<P: Fn(&FsPath) -> bool, L: Fn(&FsPath) -> Option<Vec<DirEntry>>>(
    is_present: P,
    list_dir: L,
    bases: Seq<Seq<u8>>,
    themes: Seq<Seq<char>>,
    size: u32,
) -> spec_fn(Seq<char>, Option<Seq<u8>>) -> bool {
    |app: Seq<char>, found: Option<Seq<u8>>|
        {
            let in_theme = theme_search(is_present, list_dir, bases, app, size);
            ||| found is Some && disk::first_found(themes, in_theme, found)
            ||| disk::first_found(themes, in_theme, None) && disk::first_found(
                bases,
                pixmaps_search(is_present, app),
                found,
            )
        }
}

/// Answers that agree with a disk lead to the first file of the themes that it
/// has.
proof fn lemma_themes_search<P: Fn(&FsPath) -> bool, L: Fn(&FsPath) -> Option<Vec<DirEntry>>>(
    is_present: P,
    list_dir: L,
    disk: Disk,
    bases: Seq<Seq<u8>>,
    themes: Seq<Seq<char>>,
    app: Seq<char>,
    size: u32,
    found: Option<Seq<u8>>,
)
    requires
        disk::reports(is_present, list_dir, disk),
        disk::first_found(themes, theme_search(is_present, list_dir, bases, app, size), found),
    ensures
        found == disk::first_present(
            disk.present,
            themes.flat_map(theme_files_of(disk, bases, app, size)),
        ),
{
    let search = theme_search(is_present, list_dir, bases, app, size);
    let files_of = theme_files_of(disk, bases, app, size);
    assert forall|i: int, x: Option<Seq<u8>>|
        0 <= i < themes.len() && #[trigger] search(themes[i], x) implies x == disk::first_present(
        disk.present,
        files_of(themes[i]),
    ) by {
        lemma_theme_search(is_present, list_dir, disk, bases, themes[i], app, size, x);
    }
    disk::lemma_first_found(disk.present, themes, search, files_of, found);
}

/// Answers that agree with a disk lead to the first file in the base directories
/// without themes that it has.
proof fn lemma_pixmaps_search<P: Fn(&FsPath) -> bool>(
    is_present: P,
    disk: Disk,
    bases: Seq<Seq<u8>>,
    app: Seq<char>,
    found: Option<Seq<u8>>,
)
    requires
        disk::reports_presence(is_present, disk),
        disk::first_found(bases, pixmaps_search(is_present, app), found),
    ensures
        found == disk::first_present(disk.present, bases.flat_map(flat_files_of(app))),
{
    let search = pixmaps_search(is_present, app);
    assert forall|i: int, x: Option<Seq<u8>>|
        0 <= i < bases.len() && #[trigger] search(bases[i], x) implies x == disk::first_present(
        disk.present,
        flat_files_of(app)(bases[i]),
    ) by {
        if size_dirs::is_pixmaps(bases[i]) {
            disk::lemma_file_search(is_present, disk, icon_dir::icon_files(bases[i], app), x);
        }
    }
    disk::lemma_first_found(disk.present, bases, search, flat_files_of(app), found);
}

/// Answers that agree with a disk lead to the first file under the name that it
/// has.
pub proof fn lemma_name_search<P: Fn(&FsPath) -> bool, L: Fn(&FsPath) -> Option<Vec<DirEntry>>>(
    is_present: P,
    list_dir: L,
    disk: Disk,
    bases: Seq<Seq<u8>>,
    themes: Seq<Seq<char>>,
    app: Seq<char>,
    size: u32,
    found: Option<Seq<u8>>,
)
    requires
        disk::reports(is_present, list_dir, disk),
        name_search(is_present, list_dir, bases, themes, size)(app, found),
    ensures
        found == disk::first_present(disk.present, named_files(disk, bases, themes, app, size)),
{
    let in_theme = theme_search(is_present, list_dir, bases, app, size);
    disk::lemma_first_present_add(
        disk.present,
        themes.flat_map(theme_files_of(disk, bases, app, size)),
        bases.flat_map(flat_files_of(app)),
    );
    if found is Some && disk::first_found(themes, in_theme, found) {
        lemma_themes_search(is_present, list_dir, disk, bases, themes, app, size, found);
    } else {
        lemma_themes_search(is_present, list_dir, disk, bases, themes, app, size, None);
        lemma_pixmaps_search(is_present, disk, bases, app, found);
    }
}

/// The first file of the themes `themes` that holds the icon `app`.
fn find_in_themes<P: Fn(&FsPath) -> bool, L: Fn(&FsPath) -> Option<Vec<DirEntry>>>(
    base_dirs: &Vec<FsPath>,
    themes: &Vec<String>,
    app: &str,
    size: u32,
    is_present: &P,
    list_dir: &L,
) -> (found: Option<FsPath>)
    requires
        disk::probes_paths(*is_present),
        disk::probes_paths(*list_dir),
    ensures
        disk::first_found(
            themes.deep_view(),
            theme_search(*is_present, *list_dir, base_dirs.deep_view(), app@, size),
            found.deep_view(),
        ),
        found matches Some(file) ==> disk::may_answer(*is_present, file@, true)
            && icon_dir::named_after(file@, app@),
{
    let ghost items = themes.deep_view();
    let ghost search = theme_search(*is_present, *list_dir, base_dirs.deep_view(), app@, size);
    let mut found: Option<FsPath> = None;
    let mut i: usize = 0;
    while i < themes.len() && found.is_none()
        invariant
            disk::probes_paths(*is_present),
            disk::probes_paths(*list_dir),
            items == themes.deep_view(),
            search == theme_search(*is_present, *list_dir, base_dirs.deep_view(), app@, size),
            i <= themes.len(),
            disk::first_found(items.take(i as int), search, found.deep_view()),
            found matches Some(file) ==> disk::may_answer(*is_present, file@, true)
                && icon_dir::named_after(file@, app@),
        decreases themes.len() - i,
    {
        assert(items[i as int] == themes@[i as int]@);
        let theme = themes[i].as_str();
        found = find_in_theme_all_bases(base_dirs, theme, app, size, is_present, list_dir);
        proof {
            disk::lemma_first_found_step(items, search, i as int, found.deep_view());
        }
        i = i + 1;
    }
    proof {
        disk::lemma_first_found_end(items, search, i as int, found.deep_view());
    }
    found
}

/// The first file directly in a base directory without themes that holds the
/// icon `app`.
fn find_in_pixmaps<P: Fn(&FsPath) -> bool>(
    base_dirs: &Vec<FsPath>,
    app: &str,
    is_present: &P,
) -> (found: Option<FsPath>)
    requires
        disk::probes_paths(*is_present),
    ensures
        disk::first_found(
            base_dirs.deep_view(),
            pixmaps_search(*is_present, app@),
            found.deep_view(),
        ),
        found matches Some(file) ==> disk::may_answer(*is_present, file@, true)
            && icon_dir::named_after(file@, app@),
{
    let ghost items = base_dirs.deep_view();
    let ghost search = pixmaps_search(*is_present, app@);
    let mut found: Option<FsPath> = None;
    let mut i: usize = 0;
    while i < base_dirs.len() && found.is_none()
        invariant
            disk::probes_paths(*is_present),
            items == base_dirs.deep_view(),
            search == pixmaps_search(*is_present, app@),
            i <= base_dirs.len(),
            disk::first_found(items.take(i as int), search, found.deep_view()),
            found matches Some(file) ==> disk::may_answer(*is_present, file@, true)
                && icon_dir::named_after(file@, app@),
        decreases base_dirs.len() - i,
    {
        assert(items[i as int] == base_dirs@[i as int]@);
        if base_dirs[i].ends_with("pixmaps") {
            found = find_flat(&base_dirs[i], app, is_present);
        }
        proof {
            disk::lemma_first_found_step(items, search, i as int, found.deep_view());
        }
        i = i + 1;
    }
    proof {
        disk::lemma_first_found_end(items, search, i as int, found.deep_view());
    }
    found
}

/// The first file that holds the icon `app`: the themes `themes` are tried in
/// their order, then the base directories without themes.
pub fn find_named<P: Fn(&FsPath) -> bool, L: Fn(&FsPath) -> Option<Vec<DirEntry>>>(
    base_dirs: &Vec<FsPath>,
    themes: &Vec<String>,
    app: &str,
    size: u32,
    is_present: &P,
    list_dir: &L,
) -> (found: Option<FsPath>)
    requires
        disk::probes_paths(*is_present),
        disk::probes_paths(*list_dir),
    ensures
        name_search(
            *is_present,
            *list_dir,
            base_dirs.deep_view(),
            themes.deep_view(),
            size,
        )(app@, found.deep_view()),
        found matches Some(file) ==> disk::may_answer(*is_present, file@, true)
            && icon_dir::named_after(file@, app@),
        forall|disk: Disk| #[trigger]
            disk::reports(*is_present, *list_dir, disk) ==> found.deep_view()
                == disk::first_present(
                disk.present,
                named_files(disk, base_dirs.deep_view(), themes.deep_view(), app@, size),
            ),
{
    let mut found = find_in_themes(base_dirs, themes, app, size, is_present, list_dir);
    if found.is_none() {
        found = find_in_pixmaps(base_dirs, app, is_present);
    }
    assert forall|disk: Disk| #[trigger]
        disk::reports(*is_present, *list_dir, disk) implies found.deep_view()
        == disk::first_present(
        disk.present,
        named_files(disk, base_dirs.deep_view(), themes.deep_view(), app@, size),
    ) by {
        lemma_name_search(
            *is_present,
            *list_dir,
            disk,
            base_dirs.deep_view(),
            themes.deep_view(),
            app@,
            size,
            found.deep_view(),
        );
    }
    found
}

} // verus!
