use icon_finder::finder::{collect_other_themes, collect_themes};
use icon_finder::fuzzy::{build_fuzzy_index, find_candidate, find_fuzzy, fuzzy_index_cached};
use icon_finder::icon_dir::{format_icon_name, list_categories, search_in_size_dir};
use icon_finder::size_dirs::collect_size_dirs;
use icon_finder::themes::{find_in_theme_all_bases, find_named};
use icon_finder::{find_flat, find_icon, icon_base_dirs, DirEntry, EntryKind, FsPath, IconCache};
use std::cell::RefCell;
use std::collections::BTreeMap;

/// A file system in memory: files and directories by their paths.
struct Tree {
    dirs: BTreeMap<Vec<u8>, Vec<DirEntry>>,
    files: Vec<Vec<u8>>,
    listed: RefCell<Vec<Vec<u8>>>,
}

impl Tree {
    fn new(files: &[&str]) -> Tree {
        let mut tree = Tree {
            dirs: BTreeMap::new(),
            files: Vec::new(),
            listed: RefCell::new(Vec::new()),
        };
        for file in files {
            tree.add(file.as_bytes());
        }
        tree
    }

    fn add(&mut self, file: &[u8]) {
        self.files.push(file.to_vec());
        let mut kind = EntryKind::File;
        let mut path = file.to_vec();
        while let Some(at) = path.iter().rposition(|b| *b == b'/') {
            let name = path[at + 1..].to_vec();
            path.truncate(at);
            let entries = self.dirs.entry(path.clone()).or_default();
            if !entries.iter().any(|e| e.name == name) {
                entries.push(DirEntry { name, kind });
            }
            kind = EntryKind::Directory;
        }
    }

    fn has(&self, path: &FsPath) -> bool {
        self.files.iter().any(|f| f == path.as_bytes()) || self.dirs.contains_key(path.as_bytes())
    }

    fn list(&self, path: &FsPath) -> Option<Vec<DirEntry>> {
        self.listed.borrow_mut().push(path.as_bytes().to_vec());
        let entries = self.dirs.get(path.as_bytes())?;
        Some(entries.iter().map(|e| DirEntry { name: e.name.clone(), kind: e.kind }).collect())
    }
}

fn bases() -> Vec<FsPath> {
    vec![FsPath::new("/icons"), FsPath::new("/more/icons"), FsPath::new("/usr/share/pixmaps")]
}

fn look(tree: &Tree, cache: &mut IconCache, app: &str, size: u32) -> Option<String> {
    find_icon(cache, app, size, &|p: &FsPath| tree.has(p), &|p: &FsPath| tree.list(p))
        .map(|p| String::from_utf8(p.as_bytes().to_vec()).unwrap())
}

fn look_once(tree: &Tree, active: &str, app: &str, size: u32) -> Option<String> {
    look(tree, &mut IconCache::new(bases(), active.to_string()), app, size)
}

fn owned(names: &[&str]) -> Vec<String> {
    names.iter().map(|n| n.to_string()).collect()
}

fn texts(paths: &[FsPath]) -> Vec<String> {
    paths.iter().map(|p| String::from_utf8(p.as_bytes().to_vec()).unwrap()).collect()
}

#[test]
fn icon_names_join_name_and_format() {
    assert_eq!(format_icon_name("firefox", "svg"), "firefox.svg");
    assert_eq!(format_icon_name("", "png"), ".png");
    assert_eq!(format_icon_name("org.a.B", "xpm"), "org.a.B.xpm");
}

#[test]
fn flat_search_prefers_svg_then_png_then_xpm() {
    let dir = FsPath::new("/d");
    let found = |files: &[&str]| {
        let tree = Tree::new(files);
        find_flat(&dir, "a", &|p: &FsPath| tree.has(p)).map(|p| texts(&[p])[0].clone())
    };
    assert_eq!(found(&["/d/a.xpm", "/d/a.png", "/d/a.svg"]), Some("/d/a.svg".to_string()));
    assert_eq!(found(&["/d/a.xpm", "/d/a.png"]), Some("/d/a.png".to_string()));
    assert_eq!(found(&["/d/a.xpm"]), Some("/d/a.xpm".to_string()));
    assert_eq!(found(&["/d/a.gif", "/d/b.svg"]), None);
}

#[test]
fn flat_search_follows_absolute_names() {
    let tree = Tree::new(&["/else/a.png"]);
    let found = find_flat(&FsPath::new("/d"), "/else/a", &|p: &FsPath| tree.has(p));
    assert_eq!(found, Some(FsPath::new("/else/a.png")));
}

#[test]
fn size_dir_search_takes_direct_children_then_apps_then_others() {
    let found = |files: &[&str]| {
        let tree = Tree::new(files);
        search_in_size_dir(
            &FsPath::new("/t/48"),
            "a",
            &|p: &FsPath| tree.has(p),
            &|p: &FsPath| tree.list(p),
        )
        .map(|p| texts(&[p])[0].clone())
    };
    let direct = "/t/48/a.xpm";
    let apps = "/t/48/apps/a.png";
    let devices = "/t/48/devices/a.svg";
    assert_eq!(found(&[devices, apps, direct]), Some(direct.to_string()));
    assert_eq!(found(&[devices, apps]), Some(apps.to_string()));
    assert_eq!(found(&[devices]), Some(devices.to_string()));
    assert_eq!(found(&["/t/48/apps/deeper/a.svg"]), None);
    assert_eq!(found(&[]), None);
}

#[test]
fn categories_are_directories_with_apps_in_front() {
    let entry = |name: &[u8], kind| DirEntry { name: name.to_vec(), kind };
    let entries = vec![
        entry(b"places", EntryKind::Directory),
        entry(b"readme", EntryKind::File),
        entry(b"\xff", EntryKind::Directory),
        entry(b"apps", EntryKind::Directory),
        entry(b"gone", EntryKind::Other),
    ];
    let dirs = list_categories(&FsPath::new("/s"), &entries);
    assert_eq!(
        dirs,
        vec![
            FsPath::new("/s/apps"),
            FsPath::new("/s/places"),
            FsPath::from_bytes(b"/s/\xff".to_vec()),
        ]
    );
    let file_named_apps = vec![entry(b"apps", EntryKind::File)];
    assert!(list_categories(&FsPath::new("/s"), &file_named_apps).is_empty());
}

#[test]
fn category_with_a_name_that_is_no_text_is_searched() {
    let mut tree = Tree::new(&[]);
    tree.add(b"/icons/hicolor/48x48/\xfe/a.png");
    let mut cache = IconCache::new(bases(), "hicolor".to_string());
    let found =
        find_icon(&mut cache, "a", 48, &|p: &FsPath| tree.has(p), &|p: &FsPath| tree.list(p));
    assert_eq!(found, Some(FsPath::from_bytes(b"/icons/hicolor/48x48/\xfe/a.png".to_vec())));
}

#[test]
fn size_dirs_come_ranked_over_all_bases() {
    let mut tree = Tree::new(&[
        "/icons/T/256x256/apps/a.png",
        "/icons/T/Scalable/apps/a.svg",
        "/icons/T/64x64@2/apps/a.png",
        "/more/icons/T/64x64/apps/a.png",
        "/icons/T/72x72/apps/a.png",
        "/icons/T/index.theme",
        "/usr/share/pixmaps/T/64x64/a.png",
    ]);
    tree.add(b"/icons/T/64x64\xff/a.png");
    let dirs = collect_size_dirs(&bases(), "T", 64, &|p: &FsPath| tree.list(p));
    let seen: Vec<(String, u8, u32)> = dirs
        .iter()
        .map(|d| (String::from_utf8(d.path.as_bytes().to_vec()).unwrap(), d.bucket, d.distance))
        .collect();
    let expected: Vec<(String, u8, u32)> = [
        ("/more/icons/T/64x64", 0, 0),
        ("/icons/T/64x64@2", 0, 1),
        ("/icons/T/Scalable", 1, 0),
        ("/icons/T/72x72", 2, 8),
        ("/icons/T/256x256", 2, 192),
    ]
    .iter()
    .map(|(p, b, d)| (p.to_string(), *b, *d))
    .collect();
    assert_eq!(seen, expected);
}

#[test]
fn size_that_begins_like_another_is_not_taken_for_it() {
    let tree = Tree::new(&["/b/T/128x128/apps/a.png", "/b/T/16x16/apps/a.png"]);
    let bases = vec![FsPath::new("/b")];
    let has = |p: &FsPath| tree.has(p);
    let list = |p: &FsPath| tree.list(p);
    let dirs = collect_size_dirs(&bases, "T", 12, &list);
    let seen: Vec<(&[u8], u8, u32)> =
        dirs.iter().map(|d| (d.path.as_bytes(), d.bucket, d.distance)).collect();
    assert_eq!(seen, vec![(&b"/b/T/16x16"[..], 2, 4), (&b"/b/T/128x128"[..], 2, 116)]);
    assert_eq!(
        find_in_theme_all_bases(&bases, "T", "a", 12, &has, &list),
        Some(FsPath::new("/b/T/16x16/apps/a.png"))
    );
}

#[test]
fn size_zero_with_more_digits_is_still_size_zero() {
    let tree = Tree::new(&["/b/T/scalable/apps/a.svg", "/b/T/00x00/apps/a.png"]);
    let bases = vec![FsPath::new("/b")];
    let dirs = collect_size_dirs(&bases, "T", 0, &|p: &FsPath| tree.list(p));
    let seen: Vec<(&[u8], u8, u32)> =
        dirs.iter().map(|d| (d.path.as_bytes(), d.bucket, d.distance)).collect();
    assert_eq!(seen, vec![(&b"/b/T/00x00"[..], 0, 0), (&b"/b/T/scalable"[..], 1, 0)]);
}

#[test]
fn theme_search_takes_the_best_suited_size() {
    let tree = Tree::new(&[
        "/icons/T/16x16/apps/a.png",
        "/icons/T/scalable/apps/a.svg",
        "/icons/T/48x48/apps/a.png",
        "/icons/T/48x48/apps/other.png",
    ]);
    let found = |app: &str, size: u32| {
        find_in_theme_all_bases(
            &bases(),
            "T",
            app,
            size,
            &|p: &FsPath| tree.has(p),
            &|p: &FsPath| tree.list(p),
        )
        .map(|p| texts(&[p])[0].clone())
    };
    assert_eq!(found("a", 48), Some("/icons/T/48x48/apps/a.png".to_string()));
    assert_eq!(found("a", 64), Some("/icons/T/scalable/apps/a.svg".to_string()));
    assert_eq!(found("other", 16), Some("/icons/T/48x48/apps/other.png".to_string()));
    assert_eq!(found("missing", 16), None);
}

#[test]
fn named_search_tries_themes_in_order_then_pixmaps() {
    let tree = Tree::new(&[
        "/usr/share/pixmaps/a.svg",
        "/icons/One/48x48/a.png",
        "/icons/Two/48x48/a.png",
        "/usr/share/pixmaps/b.xpm",
    ]);
    let found = |themes: &[&str], app: &str| {
        find_named(
            &bases(),
            &owned(themes),
            app,
            48,
            &|p: &FsPath| tree.has(p),
            &|p: &FsPath| tree.list(p),
        )
        .map(|p| texts(&[p])[0].clone())
    };
    assert_eq!(found(&["Two", "One"], "a"), Some("/icons/Two/48x48/a.png".to_string()));
    assert_eq!(found(&["Three", "One"], "a"), Some("/icons/One/48x48/a.png".to_string()));
    assert_eq!(found(&["Three"], "a"), Some("/usr/share/pixmaps/a.svg".to_string()));
    assert_eq!(found(&[], "b"), Some("/usr/share/pixmaps/b.xpm".to_string()));
    assert_eq!(found(&["One", "Two"], "c"), None);
}

#[test]
fn themes_are_active_then_hicolor_then_others_ascending() {
    let tree = Tree::new(&[
        "/icons/zeta/x/a.png",
        "/icons/hicolor/x/a.png",
        "/icons/Alpha/x/a.png",
        "/more/icons/zeta/x/a.png",
        "/more/icons/Active/x/a.png",
        "/more/icons/beta/x/a.png",
        "/icons/file.png",
        "/usr/share/pixmaps/dir/a.png",
    ]);
    let list = |p: &FsPath| tree.list(p);
    assert_eq!(collect_other_themes(&bases(), "Active", &list), owned(&["Alpha", "beta", "zeta"]));
    assert_eq!(
        collect_themes(&bases(), "Active", &list),
        owned(&["Active", "hicolor", "Alpha", "beta", "zeta"])
    );
    assert_eq!(
        collect_themes(&bases(), "hicolor", &list),
        owned(&["hicolor", "Active", "Alpha", "beta", "zeta"])
    );
}

#[test]
fn fuzzy_index_is_sorted_without_repeats_and_has_dots() {
    let mut tree = Tree::new(&[
        "/icons/hicolor/48x48/apps/org.z.Last.png",
        "/icons/hicolor/48x48/apps/plain.png",
        "/icons/hicolor/512x512/apps/com.a.First.svg",
        "/icons/hicolor/64x64/apps/org.z.Last.svg",
        "/icons/hicolor/64x64/devices/not.in.apps.png",
        "/more/icons/Other/direct/net.b.Middle.png",
        "/usr/share/pixmaps/t/s/in.pix.maps.png",
        "/icons/hicolor/48x48/apps/name.tar.gz/deep.er.png",
        "/icons/top.level.file.png",
    ]);
    tree.add(b"/icons/hicolor/48x48/apps/bad.\xff.png");
    let index =
        build_fuzzy_index(&bases(), &|p: &FsPath| tree.has(p), &|p: &FsPath| tree.list(p));
    assert_eq!(index, owned(&["com.a.First", "net.b.Middle", "org.z.Last"]));
}

#[test]
fn fuzzy_index_is_built_once() {
    let tree = Tree::new(&["/icons/hicolor/48x48/apps/org.a.B.png"]);
    let has = |p: &FsPath| tree.has(p);
    let list = |p: &FsPath| tree.list(p);
    let mut index: Option<Vec<String>> = None;
    fuzzy_index_cached(&mut index, &bases(), &has, &list);
    assert_eq!(index, Some(owned(&["org.a.B"])));
    let asked = tree.listed.borrow().len();
    fuzzy_index_cached(&mut index, &bases(), &has, &list);
    assert_eq!(tree.listed.borrow().len(), asked);
    let mut filled: Option<Vec<String>> = Some(owned(&["x.y"]));
    fuzzy_index_cached(&mut filled, &bases(), &has, &list);
    assert_eq!(filled, Some(owned(&["x.y"])));
}

#[test]
fn fuzzy_search_takes_the_first_indexed_name_with_an_icon() {
    let tree = Tree::new(&[
        "/icons/hicolor/48x48/apps/com.obsproject.Studio.png",
        "/icons/hicolor/48x48/apps/com.obsidian.App.png",
    ]);
    let has = |p: &FsPath| tree.has(p);
    let list = |p: &FsPath| tree.list(p);
    let themes = owned(&["hicolor"]);
    let mut index: Option<Vec<String>> = None;
    let found = find_fuzzy("OBS", &bases(), &themes, 48, &mut index, &has, &list);
    assert_eq!(found, Some(FsPath::new("/icons/hicolor/48x48/apps/com.obsidian.App.png")));
    assert_eq!(index, Some(owned(&["com.obsidian.App", "com.obsproject.Studio"])));
    let stale = owned(&["a.obs.Gone", "com.obsproject.Studio"]);
    let found = find_candidate("obs", &bases(), &themes, 48, &stale, &has, &list);
    assert_eq!(found, Some(FsPath::new("/icons/hicolor/48x48/apps/com.obsproject.Studio.png")));
    assert_eq!(find_candidate("xyz", &bases(), &themes, 48, &stale, &has, &list), None);
}

#[test]
fn icon_is_found_as_the_readme_shows() {
    let tree = Tree::new(&["/usr/share/icons/hicolor/128x128/apps/firefox.png"]);
    let dirs = icon_base_dirs(Some("/home/u"), None);
    let mut cache = IconCache::new(dirs, "hicolor".to_string());
    assert_eq!(
        look(&tree, &mut cache, "firefox", 128),
        Some("/usr/share/icons/hicolor/128x128/apps/firefox.png".to_string())
    );
}

#[test]
fn active_theme_wins_over_hicolor_and_hicolor_over_others() {
    let tree = Tree::new(&[
        "/icons/Aaa/48x48/apps/a.svg",
        "/icons/hicolor/16x16/apps/a.png",
        "/icons/Papirus/22x22/apps/a.png",
        "/icons/hicolor/16x16/apps/b.png",
        "/icons/Aaa/48x48/apps/b.svg",
    ]);
    assert_eq!(
        look_once(&tree, "Papirus", "a", 48),
        Some("/icons/Papirus/22x22/apps/a.png".to_string())
    );
    assert_eq!(
        look_once(&tree, "Papirus", "b", 48),
        Some("/icons/hicolor/16x16/apps/b.png".to_string())
    );
    assert_eq!(
        look_once(&tree, "Aaa", "b", 48),
        Some("/icons/Aaa/48x48/apps/b.svg".to_string())
    );
}

#[test]
fn exact_name_wins_over_similar_names() {
    let tree = Tree::new(&[
        "/icons/hicolor/48x48/apps/com.obsproject.Studio.png",
        "/usr/share/pixmaps/obs.xpm",
    ]);
    assert_eq!(
        look_once(&tree, "hicolor", "obs", 48),
        Some("/usr/share/pixmaps/obs.xpm".to_string())
    );
    assert_eq!(
        look_once(&tree, "hicolor", "studio", 48),
        Some("/icons/hicolor/48x48/apps/com.obsproject.Studio.png".to_string())
    );
}

#[test]
fn dotted_names_are_only_looked_for_exactly() {
    let tree = Tree::new(&["/icons/hicolor/48x48/apps/com.obsproject.Studio.png"]);
    assert_eq!(
        look_once(&tree, "hicolor", "com.obsproject.Studio", 48),
        Some("/icons/hicolor/48x48/apps/com.obsproject.Studio.png".to_string())
    );
    assert_eq!(look_once(&tree, "hicolor", "com.obsproject", 48), None);
    assert_eq!(look_once(&tree, "hicolor", ".", 48), None);
}

#[test]
fn empty_name_is_similar_to_every_indexed_name() {
    let tree = Tree::new(&["/icons/hicolor/48x48/apps/b.b.png", "/icons/hicolor/48x48/apps/a.b.png"]);
    assert_eq!(
        look_once(&tree, "hicolor", "", 48),
        Some("/icons/hicolor/48x48/apps/a.b.png".to_string())
    );
}

#[test]
fn later_searches_find_what_first_searches_find() {
    let tree = Tree::new(&[
        "/icons/hicolor/48x48/apps/org.mozilla.firefox.png",
        "/icons/hicolor/64x64/apps/gimp.png",
    ]);
    let mut cache = IconCache::new(bases(), "hicolor".to_string());
    for app in ["nothing", "mozilla", "gimp", "fire", "mozilla"] {
        assert_eq!(look(&tree, &mut cache, app, 48), look_once(&tree, "hicolor", app, 48));
    }
}

#[test]
fn index_stays_as_first_collected() {
    let mut tree = Tree::new(&["/icons/hicolor/48x48/apps/org.mozilla.firefox.png"]);
    let mut cache = IconCache::new(bases(), "hicolor".to_string());
    assert_eq!(look(&tree, &mut cache, "studio", 48), None);
    tree.add(b"/icons/hicolor/48x48/apps/com.obsproject.Studio.png");
    assert_eq!(look(&tree, &mut cache, "studio", 48), None);
    assert!(look_once(&tree, "hicolor", "studio", 48).is_some());
}

#[test]
fn size_dir_is_listed_only_without_direct_children() {
    let tree = Tree::new(&["/d/a.png", "/d/apps/a.svg", "/d/apps/b.svg"]);
    let dir = FsPath::new("/d");
    let find = |app: &str| {
        search_in_size_dir(&dir, app, &|p: &FsPath| tree.has(p), &|p: &FsPath| tree.list(p))
            .map(|p| texts(&[p])[0].clone())
    };
    assert_eq!(find("a"), Some("/d/a.png".to_string()));
    assert!(tree.listed.borrow().is_empty());
    assert_eq!(find("b"), Some("/d/apps/b.svg".to_string()));
    assert_eq!(tree.listed.borrow().as_slice(), &[b"/d".to_vec()]);
}

#[test]
fn changing_answers_lead_where_they_lead() {
    let asked: RefCell<Vec<String>> = RefCell::new(Vec::new());
    let third_is_yes = |p: &FsPath| {
        asked.borrow_mut().push(String::from_utf8(p.as_bytes().to_vec()).unwrap());
        asked.borrow().len() == 3
    };
    let found = find_flat(&FsPath::new("/d"), "a", &third_is_yes);
    assert_eq!(found, Some(FsPath::new("/d/a.xpm")));
    assert_eq!(find_flat(&FsPath::new("/d"), "a", &third_is_yes), None);
    assert_eq!(
        asked.borrow().as_slice(),
        &owned(&["/d/a.svg", "/d/a.png", "/d/a.xpm", "/d/a.svg", "/d/a.png", "/d/a.xpm"])[..]
    );
}
