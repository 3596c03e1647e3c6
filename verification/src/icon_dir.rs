//! Looking for an icon in one directory.

use crate::disk;
use crate::disk::{DirEntry, Disk, Entry, EntryKind};
use crate::path;
use crate::path::{same_bytes, FsPath};
use vstd::prelude::*;
use vstd::string::StringExecFns;
use vstd::utf8;

verus! {

/// The file name of the icon `app` in the format `ext`.
pub open spec fn icon_name(app: Seq<char>, ext: Seq<char>) -> Seq<char> {
    app.push('.') + ext
}

/// The path of the icon `app` in the format `ext` in the directory `dir`.
pub open spec fn icon_file(dir: Seq<u8>, app: Seq<char>, ext: Seq<char>) -> Seq<u8> {
    path::joined(dir, utf8::encode_utf8(icon_name(app, ext)))
}

/// The files in `dir` that may hold the icon `app`, in order of preference.
pub open spec fn icon_files(dir: Seq<u8>, app: Seq<char>) -> Seq<Seq<u8>> {
    seq![icon_file(dir, app, "svg"@), icon_file(dir, app, "png"@), icon_file(dir, app, "xpm"@)]
}

/// Whether `file` is the path of an icon `app`: in some directory, and in one of
/// the known formats.
pub open spec fn named_after(file: Seq<u8>, app: Seq<char>) -> bool {
    exists|dir: Seq<u8>| #[trigger] icon_files(dir, app).contains(file)
}

/// An SVG file is preferred to a PNG file, and that to an XPM file.
pub proof fn formats_by_preference(present: Set<Seq<u8>>, dir: Seq<u8>, app: Seq<char>)
    ensures
        disk::first_present(present, icon_files(dir, app)) == {
            if present.contains(icon_file(dir, app, "svg"@)) {
                Some(icon_file(dir, app, "svg"@))
            } else if present.contains(icon_file(dir, app, "png"@)) {
                Some(icon_file(dir, app, "png"@))
            } else if present.contains(icon_file(dir, app, "xpm"@)) {
                Some(icon_file(dir, app, "xpm"@))
            } else {
                None
            }
        },
{
    let files = icon_files(dir, app);
    reveal_with_fuel(disk::first_present, 4);
    assert(files.drop_first() =~= seq![files[1], files[2]]);
    assert(files.drop_first().drop_first() =~= seq![files[2]]);
}

/// Whether looking for the icon `app` directly in a directory may end with a
/// result, as a function of both: the formats are tried in order of preference.
pub open spec fn flat_search<P: Fn(&FsPath) -> bool>(is_present: P, app: Seq<char>) -> spec_fn(
    Seq<u8>,
    Option<Seq<u8>>,
) -> bool {
    |dir: Seq<u8>, found: Option<Seq<u8>>|
        disk::first_found(icon_files(dir, app), disk::file_search(is_present), found)
}

/// The file name of the icon `app` in the format `ext`.
pub fn format_icon_name(app: &str, ext: &str) -> (name: String)
    ensures
        name@ == icon_name(app@, ext@),
{
    let mut name = String::new();
    name.append(app);
    name.append(".");
    name.append(ext);
    proof {
        reveal_strlit(".");
    }
    assert(name@ =~= icon_name(app@, ext@));
    name
}

/// The first file in `dir` that holds the icon `app`: the formats are tried in
/// order of preference.
pub fn find_flat<P: Fn(&FsPath) -> bool>(dir: &FsPath, app: &str, is_present: &P) -> (found: Option<
    FsPath,
>)
    requires
        disk::probes_paths(*is_present),
    ensures
        flat_search(*is_present, app@)(dir@, found.deep_view()),
        found matches Some(file) ==> disk::may_answer(*is_present, file@, true) && named_after(
            file@,
            app@,
        ),
        forall|disk: Disk| #[trigger]
            disk::reports_presence(*is_present, disk) ==> found.deep_view() == disk::first_present(
                disk.present,
                icon_files(dir@, app@),
            ),
{
    let ghost files = icon_files(dir@, app@);
    let ghost search = disk::file_search(*is_present);
    let formats: [&str; 3] = ["svg", "png", "xpm"];
    let mut found: Option<FsPath> = None;
    let mut i: usize = 0;
    while i < 3 && found.is_none()
        invariant
            disk::probes_paths(*is_present),
            files == icon_files(dir@, app@),
            search == disk::file_search(*is_present),
            formats@ == seq!["svg", "png", "xpm"],
            i <= 3,
            disk::first_found(files.take(i as int), search, found.deep_view()),
            found matches Some(file) ==> disk::may_answer(*is_present, file@, true) && named_after(
                file@,
                app@,
            ),
        decreases 3 - i,
    {
        let file = dir.join_text(format_icon_name(app, formats[i]).as_str());
        assert(file@ == files[i as int]);
        if is_present(&file) {
            assert(files.contains(file@));
            found = Some(file);
        }
        proof {
            disk::lemma_first_found_step(files, search, i as int, found.deep_view());
        }
        i = i + 1;
    }
    proof {
        disk::lemma_first_found_end(files, search, i as int, found.deep_view());
        assert forall|disk: Disk| #[trigger]
            disk::reports_presence(*is_present, disk) implies found.deep_view()
            == disk::first_present(disk.present, files) by {
            disk::lemma_file_search(*is_present, disk, files, found.deep_view());
        }
    }
    found
}

/// The files in the directories `dirs` that may hold the icon `app`.
pub open spec fn files_in_dirs(dirs: Seq<Seq<u8>>, app: Seq<char>) -> Seq<Seq<u8>> {
    dirs.flat_map(icon_files_of(app))
}

/// What [`icon_files`] gives for `app`, as a function of the directory.
pub open spec fn icon_files_of(app: Seq<char>) -> spec_fn(Seq<u8>) -> Seq<Seq<u8>> {
    |dir: Seq<u8>| icon_files(dir, app)
}

/// Answers that agree with a disk lead to the first file in the directories that
/// it has.
proof fn lemma_dirs_search<P: Fn(&FsPath) -> bool>(
    is_present: P,
    disk: Disk,
    dirs: Seq<Seq<u8>>,
    app: Seq<char>,
    found: Option<Seq<u8>>,
)
    requires
        disk::reports_presence(is_present, disk),
        disk::first_found(dirs, flat_search(is_present, app), found),
    ensures
        found == disk::first_present(disk.present, files_in_dirs(dirs, app)),
{
    let search = flat_search(is_present, app);
    assert forall|i: int, x: Option<Seq<u8>>|
        0 <= i < dirs.len() && #[trigger] search(dirs[i], x) implies x == disk::first_present(
        disk.present,
        icon_files_of(app)(dirs[i]),
    ) by {
        disk::lemma_file_search(is_present, disk, icon_files(dirs[i], app), x);
    }
    disk::lemma_first_found(disk.present, dirs, search, icon_files_of(app), found);
}

/// The first file in the directories `dirs`, in their order, that holds the
/// icon `app`.
pub fn find_in_dirs<P: Fn(&FsPath) -> bool>(
    dirs: &Vec<FsPath>,
    app: &str,
    is_present: &P,
) -> (found: Option<FsPath>)
    requires
        disk::probes_paths(*is_present),
    ensures
        disk::first_found(dirs.deep_view(), flat_search(*is_present, app@), found.deep_view()),
        found matches Some(file) ==> disk::may_answer(*is_present, file@, true) && named_after(
            file@,
            app@,
        ),
        forall|disk: Disk| #[trigger]
            disk::reports_presence(*is_present, disk) ==> found.deep_view() == disk::first_present(
                disk.present,
                files_in_dirs(dirs.deep_view(), app@),
            ),
{
    let ghost items = dirs.deep_view();
    let ghost search = flat_search(*is_present, app@);
    let mut found: Option<FsPath> = None;
    let mut i: usize = 0;
    while i < dirs.len() && found.is_none()
        invariant
            disk::probes_paths(*is_present),
            items == dirs.deep_view(),
            search == flat_search(*is_present, app@),
            i <= dirs.len(),
            disk::first_found(items.take(i as int), search, found.deep_view()),
            found matches Some(file) ==> disk::may_answer(*is_present, file@, true) && named_after(
                file@,
                app@,
            ),
        decreases dirs.len() - i,
    {
        assert(items[i as int] == dirs@[i as int]@);
        found = find_flat(&dirs[i], app, is_present);
        proof {
            disk::lemma_first_found_step(items, search, i as int, found.deep_view());
        }
        i = i + 1;
    }
    proof {
        disk::lemma_first_found_end(items, search, i as int, found.deep_view());
        assert forall|disk: Disk| #[trigger]
            disk::reports_presence(*is_present, disk) implies found.deep_view()
            == disk::first_present(disk.present, files_in_dirs(items, app@)) by {
            lemma_dirs_search(*is_present, disk, items, app@, found.deep_view());
        }
    }
    found
}

/// The predicate "is a directory named `apps`".
pub open spec fn apps_dir() -> spec_fn(Entry) -> bool {
    |entry: Entry| entry.kind == EntryKind::Directory && entry.name == utf8::encode_utf8("apps"@)
}

/// The predicate "is a directory not named `apps`".
pub open spec fn other_dir() -> spec_fn(Entry) -> bool {
    |entry: Entry| entry.kind == EntryKind::Directory && entry.name != utf8::encode_utf8("apps"@)
}

/// The path of an entry of the directory `dir`, as a function of the entry.
pub open spec fn path_in(dir: Seq<u8>) -> spec_fn(Entry) -> Seq<u8> {
    |entry: Entry| path::joined(dir, entry.name)
}

/// The subdirectories of `dir`, whose entries are `entries`: first the one named
/// `apps`, then the others in reading order.
pub open spec fn category_dirs(dir: Seq<u8>, entries: Seq<Entry>) -> Seq<Seq<u8>> {
    let apps = entries.filter(apps_dir());
    let others = entries.filter(other_dir());
    (if apps.len() > 0 {
        seq![path_in(dir)(apps.last())]
    } else {
        Seq::empty()
    }) + others.map_values(path_in(dir))
}

/// The subdirectories of `dir`, whose entries are `entries`: first the one named
/// `apps`, then the others in reading order.
pub fn list_categories(dir: &FsPath, entries: &Vec<DirEntry>) -> (dirs: Vec<FsPath>)
    ensures
        dirs.deep_view() == category_dirs(dir@, entries.deep_view()),
{
    let ghost model = entries.deep_view();
    let mut apps: Option<FsPath> = None;
    let mut others: Vec<FsPath> = Vec::new();
    let apps_name = "apps".as_bytes();
    assert(model.take(0) =~= Seq::empty());
    for i in 0..entries.len()
        invariant
            model == entries.deep_view(),
            apps_name@ == utf8::encode_utf8("apps"@),
            match apps {
                Some(p) => model.take(i as int).filter(apps_dir()).len() > 0 && p@ == path_in(dir@)(
                    model.take(i as int).filter(apps_dir()).last(),
                ),
                None => model.take(i as int).filter(apps_dir()).len() == 0,
            },
            others.deep_view() == model.take(i as int).filter(other_dir()).map_values(
                path_in(dir@),
            ),
    {
        let ghost passed = model.take(i as int);
        let ghost before = others.deep_view();
        let entry = &entries[i];
        assert(model[i as int] == entry@);
        assert(model.take(i + 1) =~= passed.push(entry@));
        proof {
            passed.lemma_filter_push(entry@, apps_dir());
            passed.lemma_filter_push(entry@, other_dir());
        }
        if entry.kind == EntryKind::Directory {
            let p = dir.join(entry.name.as_slice());
            if same_bytes(entry.name.as_slice(), apps_name) {
                apps = Some(p);
            } else {
                others.push(p);
                assert(others.deep_view() =~= before.push(p@));
                assert(passed.filter(other_dir()).push(entry@).map_values(path_in(dir@))
                    =~= passed.filter(other_dir()).map_values(path_in(dir@)).push(p@));
            }
        }
    }
    assert(model.take(model.len() as int) =~= model);
    let mut dirs: Vec<FsPath> = Vec::new();
    if let Some(p) = apps {
        dirs.push(p);
    }
    let ghost first = dirs.deep_view();
    let ghost rest = others.deep_view();
    dirs.append(&mut others);
    assert(dirs.deep_view() =~= first + rest);
    assert(dirs.deep_view() =~= category_dirs(dir@, model));
    dirs
}

/// The files below the size directory `dir` that may hold the icon `app`: those
/// in `dir` itself, then those in its subdirectories.
pub open spec fn size_dir_files(disk: Disk, dir: Seq<u8>, app: Seq<char>) -> Seq<Seq<u8>> {
    icon_files(dir, app) + files_in_dirs(category_dirs(dir, disk.entries(dir)), app)
}

/// A file directly in the size directory is preferred to all below it, and one
/// in its `apps` subdirectory to those in its other subdirectories.
pub proof fn direct_children_then_apps(disk: Disk, dir: Seq<u8>, app: Seq<char>, apps: Entry)
    ensures
        disk::first_present(disk.present, icon_files(dir, app)) is Some ==> disk::first_present(
            disk.present,
            size_dir_files(disk, dir, app),
        ) == disk::first_present(disk.present, icon_files(dir, app)),
        ({
            let entries = disk.entries(dir).filter(apps_dir());
            let files = icon_files(path::joined(dir, apps.name), app);
            disk::first_present(disk.present, icon_files(dir, app)) is None && entries == seq![apps]
                && disk::first_present(disk.present, files) is Some ==> disk::first_present(
                disk.present,
                size_dir_files(disk, dir, app),
            ) == disk::first_present(disk.present, files)
        }),
{
    let dirs = category_dirs(dir, disk.entries(dir));
    disk::lemma_first_present_add(
        disk.present,
        icon_files(dir, app),
        files_in_dirs(dirs, app),
    );
    let files = icon_files(path::joined(dir, apps.name), app);
    if disk.entries(dir).filter(apps_dir()) == seq![apps] && disk::first_present(
        disk.present,
        files,
    ) is Some {
        assert(dirs[0] == path::joined(dir, apps.name));
        disk::lemma_first_present_found(disk.present, dirs, icon_files_of(app), 0);
    }
}

/// Whether looking for the icon `app` below a size directory may end with a
/// result, as a function of both: direct children come first, then the
/// subdirectories, which are listed only if there is none.
pub open spec fn size_dir_search<
    P: Fn(&FsPath) -> bool,
    L: Fn(&FsPath) -> Option<Vec<DirEntry>>,
>(is_present: P, list_dir: L, app: Seq<char>) -> spec_fn(Seq<u8>, Option<Seq<u8>>) -> bool {
    |dir: Seq<u8>, found: Option<Seq<u8>>|
        {
            ||| found is Some && flat_search(is_present, app)(dir, found)
            ||| flat_search(is_present, app)(dir, None) && exists|entries: Seq<Entry>|
                {
                    &&& #[trigger] disk::may_list(list_dir, dir, entries)
                    &&& disk::first_found(
                        category_dirs(dir, entries),
                        flat_search(is_present, app),
                        found,
                    )
                }
        }
}

/// Answers that agree with a disk lead to the first file below the size directory
/// that it has.
pub proof fn lemma_size_dir_search<
    P: Fn(&FsPath) -> bool,
    L: Fn(&FsPath) -> Option<Vec<DirEntry>>,
>(is_present: P, list_dir: L, disk: Disk, dir: Seq<u8>, app: Seq<char>, found: Option<Seq<u8>>)
    requires
        disk::reports(is_present, list_dir, disk),
        size_dir_search(is_present, list_dir, app)(dir, found),
    ensures
        found == disk::first_present(disk.present, size_dir_files(disk, dir, app)),
{
    let flat = flat_search(is_present, app);
    let direct = icon_files(dir, app);
    let dirs = category_dirs(dir, disk.entries(dir));
    disk::lemma_first_present_add(disk.present, direct, files_in_dirs(dirs, app));
    if found is Some && flat(dir, found) {
        disk::lemma_file_search(is_present, disk, direct, found);
    } else {
        disk::lemma_file_search(is_present, disk, direct, None);
        let entries = choose|entries: Seq<Entry>|
            {
                &&& #[trigger] disk::may_list(list_dir, dir, entries)
                &&& disk::first_found(category_dirs(dir, entries), flat, found)
            };
        disk::lemma_may_list(list_dir, disk, dir, entries);
        lemma_dirs_search(is_present, disk, dirs, app, found);
    }
}

/// The first file below the size directory `size_dir` that holds the icon `app`:
/// direct children come first, then the `apps` subdirectory, then any other.
pub fn search_in_size_dir<
    P: Fn(&FsPath) -> bool,
    L: Fn(&FsPath) -> Option<Vec<DirEntry>>,
>(size_dir: &FsPath, app: &str, is_present: &P, list_dir: &L) -> (found: Option<FsPath>)
    requires
        disk::probes_paths(*is_present),
        disk::probes_paths(*list_dir),
    ensures
        size_dir_search(*is_present, *list_dir, app@)(size_dir@, found.deep_view()),
        found matches Some(file) ==> disk::may_answer(*is_present, file@, true) && named_after(
            file@,
            app@,
        ),
        forall|disk: Disk| #[trigger]
            disk::reports(*is_present, *list_dir, disk) ==> found.deep_view()
                == disk::first_present(disk.present, size_dir_files(disk, size_dir@, app@)),
{
    let mut found = find_flat(size_dir, app, is_present);
    if found.is_none() {
        let answer = list_dir(size_dir);
        let ghost entries = disk::entries_in(answer);
        assert(disk::may_list(*list_dir, size_dir@, entries));
        let dirs = match answer {
            Some(entries) => list_categories(size_dir, &entries),
            None => Vec::new(),
        };
        assert(dirs.deep_view() =~= category_dirs(size_dir@, entries));
        found = find_in_dirs(&dirs, app, is_present);
    }
    assert forall|disk: Disk| #[trigger]
        disk::reports(*is_present, *list_dir, disk) implies found.deep_view()
        == disk::first_present(disk.present, size_dir_files(disk, size_dir@, app@)) by {
        lemma_size_dir_search(
            *is_present,
            *list_dir,
            disk,
            size_dir@,
            app@,
            found.deep_view(),
        );
    }
    found
}

} // verus!
