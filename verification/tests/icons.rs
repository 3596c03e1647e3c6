use icon_finder::fuzzy::matches_query;
use icon_finder::{
    current_icon_theme, find_flat, find_icon, icon_base_dirs, DirEntry, EntryKind, FsPath,
    IconCache,
};
use std::path::Path;

fn as_text(path: &FsPath) -> Option<&str> {
    std::str::from_utf8(path.as_bytes()).ok()
}

fn on_disk(path: &FsPath) -> bool {
    match as_text(path) {
        Some(text) => Path::new(text).exists(),
        None => false,
    }
}

fn listed_on_disk(path: &FsPath) -> Option<Vec<DirEntry>> {
    let read = Path::new(as_text(path)?).read_dir().ok()?;
    let mut entries = Vec::new();
    for entry in read.flatten() {
        let kind = match entry.path().metadata() {
            Ok(meta) if meta.is_dir() => EntryKind::Directory,
            Ok(meta) if meta.is_file() => EntryKind::File,
            _ => EntryKind::Other,
        };
        entries.push(DirEntry { name: entry.file_name().as_encoded_bytes().to_vec(), kind });
    }
    Some(entries)
}

#[test]
fn base_dirs_are_non_empty() {
    assert!(!icon_base_dirs(None, None).is_empty());
    assert!(!icon_base_dirs(Some("/home/u"), Some("/usr/share")).is_empty());
    assert!(!icon_base_dirs(Some(""), Some("")).is_empty());
}

#[test]
fn base_dirs_contain_pixmaps() {
    assert!(icon_base_dirs(None, None).iter().any(|p| p.ends_with("pixmaps")));
    assert!(icon_base_dirs(Some("/home/u"), Some("/a:/b")).iter().any(|p| p.ends_with("pixmaps")));
}

#[test]
fn find_flat_returns_none_for_missing() {
    assert!(find_flat(&FsPath::new("/nonexistent"), "someapp", &on_disk).is_none());
}

#[test]
fn find_icon_returns_none_for_fake_app() {
    let mut cache = IconCache::new(icon_base_dirs(None, None), "hicolor".to_string());
    let found =
        find_icon(&mut cache, "__fake_app_that_does_not_exist__", 128, &on_disk, &listed_on_disk);
    assert!(found.is_none());
}

#[test]
fn current_theme_is_non_empty() {
    assert!(!current_icon_theme(None, None, &|_: &FsPath| None, &|| None).is_empty());
    assert!(!current_icon_theme(
        Some("  "),
        Some("/home/u"),
        &|_: &FsPath| Some("gtk-icon-theme-name=''\n".to_string()),
        &|| Some(b"''\n".to_vec()),
    )
    .is_empty());
}

#[test]
fn matches_query_exact_component() {
    assert!(matches_query("com.obsproject.Studio", "studio"));
    assert!(matches_query("com.obsproject.Studio", "Studio"));
}

#[test]
fn matches_query_prefix_component() {
    assert!(matches_query("com.obsproject.Studio", "obs"));
    assert!(matches_query("org.mozilla.firefox", "mozilla"));
}

#[test]
fn matches_query_no_false_positives() {
    assert!(!matches_query("com.obsproject.Studio", "ox"));
    assert!(!matches_query("com.obsproject.Studio", "xyz"));
    assert!(!matches_query("firefox", "fire"));
}
