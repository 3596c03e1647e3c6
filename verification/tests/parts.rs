use icon_finder::active_theme::{parse_gsettings, parse_gtk_settings, read_gtk_icon_theme};
use icon_finder::fuzzy::{file_stem, matches_query};
use icon_finder::names::insert_name;
use icon_finder::number::{decimal_chars, leading_number, parse_u32};
use icon_finder::path::same_bytes;
use icon_finder::size_dirs::{classify, rank_dirs, SizeDir};
use icon_finder::text::{
    chars_of, contains_char, same_text, same_text_ignoring_case, split_text, starts_with,
    starts_with_ignoring_case, to_lower, trim, trim_matches, trim_start, white_space,
};
use icon_finder::{current_icon_theme, icon_base_dirs, FsPath};

fn path(text: &str) -> FsPath {
    FsPath::new(text)
}

#[test]
fn base_dirs_follow_the_environment() {
    assert_eq!(
        icon_base_dirs(Some("/home/u"), Some("/a:/b/")),
        vec![
            path("/home/u/.icons"),
            path("/home/u/.local/share/icons"),
            path("/a/icons"),
            path("/b/icons"),
            path("/usr/share/pixmaps"),
        ]
    );
    assert_eq!(
        icon_base_dirs(None, None),
        vec![
            path("/usr/local/share/icons"),
            path("/usr/share/icons"),
            path("/usr/share/pixmaps"),
        ]
    );
    assert_eq!(
        icon_base_dirs(None, Some("")),
        vec![path("icons"), path("/usr/share/pixmaps")]
    );
    assert_eq!(
        icon_base_dirs(Some(""), Some("/a::b")),
        vec![
            path(".icons"),
            path(".local/share/icons"),
            path("/a/icons"),
            path("icons"),
            path("b/icons"),
            path("/usr/share/pixmaps"),
        ]
    );
}

#[test]
fn only_the_last_base_dir_is_pixmaps() {
    let dirs = icon_base_dirs(Some("/pixmaps"), Some("/x/pixmaps:pixmaps"));
    let flags: Vec<bool> = dirs.iter().map(|d| d.ends_with("pixmaps")).collect();
    assert_eq!(flags, vec![false, false, false, false, true]);
}

#[test]
fn paths_join_as_std_joins_them() {
    for dir in ["", "/", "a", "/a", "/a/", "a//", "."] {
        for name in ["", "b", "/b", "b/c", ".", "../b", "//"] {
            let expected = std::path::Path::new(dir).join(name);
            let joined = path(dir).join_text(name);
            assert_eq!(joined.as_bytes(), expected.as_os_str().as_encoded_bytes());
        }
    }
    assert_eq!(path("/a").join(b"\xff").as_bytes(), b"/a/\xff");
}

#[test]
fn last_names_are_those_of_std() {
    let paths = [
        "/usr/share/pixmaps", "/usr/share/pixmaps/", "/usr/share/pixmaps//", "pixmaps",
        "./pixmaps", "/usr/share/pixmaps/.", "/usr/share/pixmaps/./", "/pixmaps/..",
        "/usr/share/mypixmaps", "/usr/share/pixmaps2", "/pixmaps/icons", "", "/", ".",
        "pixmaps.", "/a/pixmaps/././/",
    ];
    for p in paths {
        assert_eq!(path(p).ends_with("pixmaps"), std::path::Path::new(p).ends_with("pixmaps"));
    }
}

#[test]
fn bytes_are_compared_whole() {
    assert!(same_bytes(b"ab", b"ab"));
    assert!(!same_bytes(b"ab", b"ac"));
    assert!(!same_bytes(b"ab", b"abc"));
}

#[test]
fn settings_give_the_theme_name() {
    let theme = |content: &str| parse_gtk_settings(content);
    assert_eq!(theme("[Settings]\ngtk-icon-theme-name=Papirus\n"), Some("Papirus".to_string()));
    assert_eq!(theme("  gtk-icon-theme-name = 'Papirus-Dark' \r\n"), Some("Papirus-Dark".to_string()));
    assert_eq!(theme("gtk-icon-theme-name=\"Adwaita\""), Some("Adwaita".to_string()));
    assert_eq!(theme("gtk-icon-theme-name='\"Both\"'"), Some("Both".to_string()));
    assert_eq!(theme("gtk-icon-theme-name=\"'Inner'\""), Some("'Inner'".to_string()));
    assert_eq!(theme("gtk-icon-theme-name=a=b"), Some("a=b".to_string()));
    assert_eq!(theme("gtk-theme-name=Papirus\n"), None);
    assert_eq!(theme(""), None);
}

#[test]
fn settings_without_a_name_are_passed_over() {
    assert_eq!(
        parse_gtk_settings("gtk-icon-theme-name=\ngtk-icon-theme-name=''\ngtk-icon-theme-name=B"),
        Some("B".to_string())
    );
}

#[test]
fn malformed_setting_ends_the_search() {
    assert_eq!(parse_gtk_settings("gtk-icon-theme-name Foo\ngtk-icon-theme-name=B"), None);
    assert_eq!(parse_gtk_settings("gtk-icon-theme-name\ngtk-icon-theme-name=B"), None);
    assert_eq!(parse_gtk_settings("gtk-icon-theme-names=A\ngtk-icon-theme-name=B"), None);
}

#[test]
fn settings_file_is_read_where_it_is() {
    let read = |p: &FsPath| {
        if p.as_bytes() == b"/s.ini" {
            Some("gtk-icon-theme-name=S".to_string())
        } else {
            None
        }
    };
    assert_eq!(read_gtk_icon_theme(&path("/s.ini"), &read), Some("S".to_string()));
    assert_eq!(read_gtk_icon_theme(&path("/t.ini"), &read), None);
}

#[test]
fn gsettings_output_is_unquoted() {
    assert_eq!(parse_gsettings("'Yaru'\n"), Some("Yaru".to_string()));
    assert_eq!(parse_gsettings("Yaru"), Some("Yaru".to_string()));
    assert_eq!(parse_gsettings("''\n"), None);
    assert_eq!(parse_gsettings(" \n"), None);
}

#[test]
fn theme_sources_count_in_order() {
    let file = |wanted: &'static str, name: &'static str| {
        move |p: &FsPath| {
            if p.as_bytes() == wanted.as_bytes() {
                Some(format!("gtk-icon-theme-name={}\n", name))
            } else {
                None
            }
        }
    };
    let desktop = || Some(b"'Desktop'\n".to_vec());
    let gtk4 = file("/home/u/.config/gtk-4.0/settings.ini", "Four");
    let gtk3 = file("/home/u/.config/gtk-3.0/settings.ini", "Three");
    let global = file("/etc/gtk-3.0/settings.ini", "Global");
    let home = Some("/home/u");
    assert_eq!(current_icon_theme(Some(" Env\n"), home, &gtk4, &desktop), "Env");
    assert_eq!(current_icon_theme(Some(""), home, &gtk4, &desktop), "Four");
    assert_eq!(current_icon_theme(None, home, &gtk3, &desktop), "Three");
    assert_eq!(current_icon_theme(None, home, &global, &desktop), "Global");
    assert_eq!(current_icon_theme(None, None, &gtk4, &desktop), "Desktop");
    assert_eq!(current_icon_theme(None, home, &|_: &FsPath| None, &|| None), "hicolor");
    let all = |_: &FsPath| Some("gtk-icon-theme-name=First".to_string());
    assert_eq!(current_icon_theme(None, home, &all, &desktop), "First");
    let rooted = file("/.config/gtk-4.0/settings.ini", "Root");
    assert_eq!(current_icon_theme(None, None, &rooted, &desktop), "Root");
}

#[test]
fn gsettings_bytes_are_decoded_with_replacement() {
    let theme = |bytes: &'static [u8]| {
        current_icon_theme(None, None, &|_: &FsPath| None, &|| Some(bytes.to_vec()))
    };
    assert_eq!(theme(b"'Pap\xffirus'\n"), "Pap\u{fffd}irus");
    assert_eq!(theme("'Th\u{e9}me'\n".as_bytes()), "Th\u{e9}me");
    assert_eq!(theme(b"''"), "hicolor");
}

#[test]
fn directories_are_classified_by_name() {
    assert_eq!(classify("64x64", 64), (0, 0));
    assert_eq!(classify("64x64@2", 64), (0, 1));
    assert_eq!(classify("64", 64), (0, 0));
    assert_eq!(classify("64@2x", 64), (0, 1));
    assert_eq!(classify("640x640", 64), (2, 576));
    assert_eq!(classify("640", 64), (2, 576));
    assert_eq!(classify("640x640@2", 64), (2, 576));
    assert_eq!(classify("128x128", 12), (2, 116));
    assert_eq!(classify("6x6", 64), (2, 58));
    assert_eq!(classify("064x064", 64), (2, 0));
    assert_eq!(classify("scalable", 64), (1, 0));
    assert_eq!(classify("SCALABLE", 64), (1, 0));
    assert_eq!(classify("scalable2", 64), (2, 64));
    assert_eq!(classify("48x48", 64), (2, 16));
    assert_eq!(classify("256x256@2", 64), (2, 192));
    assert_eq!(classify("+48x48", 64), (2, 16));
    assert_eq!(classify("symbolic", 64), (2, 64));
    assert_eq!(classify("", 64), (2, 64));
    assert_eq!(classify("0x0", 4294967295), (2, 4294967295));
    assert_eq!(classify("99999999999x", 64), (2, 64));
    assert_eq!(classify("1x", 0), (2, 1));
    assert_eq!(classify("0x0", 0), (0, 0));
    assert_eq!(classify("00x00", 0), (0, 0));
    assert_eq!(classify("000@2x", 0), (0, 1));
    assert_eq!(classify("016x016", 0), (2, 16));
    assert_eq!(classify("4294967295", 4294967295), (0, 0));
    assert_eq!(classify("42949672950x", 4294967295), (2, 4294967295));
}

#[test]
fn ranking_keeps_equals_in_order() {
    let dir = |name: &str, bucket: u8, distance: u32| SizeDir { path: path(name), bucket, distance };
    let ranked = rank_dirs(vec![
        dir("a", 2, 5),
        dir("b", 0, 1),
        dir("c", 2, 0),
        dir("d", 0, 0),
        dir("e", 2, 5),
        dir("f", 1, 0),
        dir("g", 0, 1),
    ]);
    let names: Vec<&[u8]> = ranked.iter().map(|d| d.path.as_bytes()).collect();
    assert_eq!(names, vec![&b"d"[..], b"b", b"g", b"f", b"c", b"a", b"e"]);
    assert!(rank_dirs(Vec::new()).is_empty());
}

#[test]
fn matching_ignores_ascii_case_only() {
    assert!(matches_query("org.GNOME.Maps", "gnome"));
    assert!(matches_query("org.gnome.Maps", "GNOME"));
    assert!(!matches_query("org.caf\u{e9}.X", "CAF\u{c9}"));
    assert!(matches_query("org.caf\u{e9}.X", "CAF\u{e9}"));
}

#[test]
fn every_prefix_of_a_component_matches() {
    for query in ["", "c", "com", "o", "obsproject", "Stu", "STUDIO"] {
        assert!(matches_query("com.obsproject.Studio", query));
    }
    assert!(!matches_query("com.obsproject.Studio", "studios"));
    assert!(!matches_query("com.obsproject.Studio", "obsproject.s"));
    assert!(!matches_query("plain", "plain"));
    assert!(!matches_query("plain", ""));
    assert!(matches_query(".", ""));
    assert!(!matches_query("a.\u{20ac}uro", "\u{20ad}"));
}

#[test]
fn stems_end_before_the_last_dot() {
    assert_eq!(file_stem("org.a.B.png"), "org.a.B");
    assert_eq!(file_stem("plain.svg"), "plain");
    assert_eq!(file_stem("nodot"), "nodot");
    assert_eq!(file_stem(".hidden"), "");
    assert_eq!(file_stem("end."), "end");
    assert_eq!(file_stem(""), "");
}

#[test]
fn names_are_kept_in_the_order_of_strings() {
    let given = ["b", "a", "", "B", "ab", "a", "\u{10000}", "\u{ffff}", "\u{e9}", "z", "b"];
    let mut names: Vec<String> = Vec::new();
    let mut expected = std::collections::BTreeSet::new();
    for name in given {
        insert_name(&mut names, name);
        expected.insert(name.to_string());
        assert_eq!(names, expected.iter().cloned().collect::<Vec<String>>());
    }
}

#[test]
fn numbers_parse_as_std_parses_them() {
    let texts = [
        "", "0", "00", "7", "48", "+48", "++1", "+", "-0", "-1", "4294967295", "4294967296",
        "99999999999999999999999", "1a", "a1", " 1", "1 ", "\u{661}", "0004294967295",
    ];
    for text in texts {
        assert_eq!(parse_u32(text), text.parse::<u32>().ok());
    }
}

#[test]
fn leading_numbers_end_before_the_first_other_character() {
    assert_eq!(leading_number("48x48"), Some(48));
    assert_eq!(leading_number("48"), Some(48));
    assert_eq!(leading_number("007@2"), Some(7));
    assert_eq!(leading_number("x48"), None);
    assert_eq!(leading_number("+48"), None);
    assert_eq!(leading_number(""), None);
    assert_eq!(leading_number("4294967296x"), None);
}

#[test]
fn decimals_are_read_back() {
    for n in [0u32, 9, 10, 48, 256, 1000, 4294967295] {
        let text: String = decimal_chars(n).into_iter().collect();
        assert_eq!(text, n.to_string());
        assert_eq!(parse_u32(&text), Some(n));
    }
}

#[test]
fn white_space_is_that_of_char() {
    for code in 0..0x110000u32 {
        if let Some(c) = char::from_u32(code) {
            assert_eq!(white_space(c), c.is_whitespace());
            assert_eq!(to_lower(c), c.to_ascii_lowercase());
        }
    }
}

#[test]
fn trimming_is_that_of_str() {
    for text in ["", " ", "a", " a b\t\r\n", "\u{3000}x\u{a0}", "''", "'a'b''", "'", " 'a' "] {
        assert_eq!(trim(text), text.trim());
        assert_eq!(trim_start(text), text.trim_start());
        assert_eq!(trim_matches(text, '\''), text.trim_matches('\''));
    }
}

#[test]
fn splitting_is_that_of_str() {
    for text in ["", ".", "a", "a.b", "..", "a..b.", "\u{e9}.\u{20ac}"] {
        assert_eq!(split_text(text, '.'), text.split('.').collect::<Vec<&str>>());
    }
}

#[test]
fn comparisons_are_those_of_str() {
    let texts = ["", "a", "A", "ab", "aB", "b", "\u{e9}", "\u{c9}"];
    for a in texts {
        assert_eq!(chars_of(a), a.chars().collect::<Vec<char>>());
        assert_eq!(contains_char(a, 'a'), a.contains('a'));
        for b in texts {
            assert_eq!(same_text(a, b), a == b);
            assert_eq!(same_text_ignoring_case(a, b), a.eq_ignore_ascii_case(b));
            assert_eq!(starts_with(a, &chars_of(b)), a.starts_with(b));
            let prefix = a.to_ascii_lowercase().starts_with(&b.to_ascii_lowercase());
            assert_eq!(starts_with_ignoring_case(a, b), prefix);
        }
    }
}
