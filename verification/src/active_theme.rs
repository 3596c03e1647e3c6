//! The name of the user's icon theme.

use crate::disk;
use crate::disk::Disk;
use crate::encoding;
use crate::encoding::decode_lossy;
use crate::path::FsPath;
use crate::text;
use crate::text::{chars_of, split_text, starts_with, trim, trim_matches, trim_start};
use vstd::prelude::*;
use vstd::string::{StrSliceExecFns, StringExecFns};
use vstd::utf8;

verus! {

// ---------------------------------------------------------------------------
// The settings files of GTK
// ---------------------------------------------------------------------------

/// What a line of a settings file says of the icon theme.
pub enum Setting<T> {
    /// Nothing: it is about something else, or the name it gives is empty.
    Nothing,
    /// Its key begins like the theme's, but no `=` follows.
    Malformed,
    /// The theme of this name.
    Theme(T),
}

/// What the line `line` says of the icon theme. White space round the line, the
/// key and the value does not count, nor do single and then double quotes round
/// the value.
pub open spec fn setting_of(line: Seq<char>) -> Setting<Seq<char>> {
    let key = "gtk-icon-theme-name"@;
    let rest = text::drop_front(text::trimmed(line).skip(key.len() as int), text::white());
    let value = text::unquoted(
        text::unquoted(text::trimmed(rest.skip(1)), '\''),
        '"',
    );
    if !key.is_prefix_of(text::trimmed(line)) {
        Setting::Nothing
    } else if rest.len() == 0 || rest[0] != '=' {
        Setting::Malformed
    } else if value.len() == 0 {
        Setting::Nothing
    } else {
        Setting::Theme(value)
    }
}

/// The theme that the first line with something to say gives; none if that line
/// is malformed or there is no such line.
pub open spec fn theme_in_lines(lines: Seq<Seq<char>>) -> Option<Seq<char>>
    decreases lines.len(),
{
    if lines.len() == 0 {
        None
    } else {
        match setting_of(lines.first()) {
            Setting::Nothing => theme_in_lines(lines.drop_first()),
            Setting::Malformed => None,
            Setting::Theme(name) => Some(name),
        }
    }
}

/// The theme that the settings file with the contents `content` gives.
pub open spec fn theme_in_settings(content: Seq<char>) -> Option<Seq<char>> {
    theme_in_lines(text::split(content, '\n'))
}

/// A line with the key, an `=` and a name gives that name. White space round the
/// line, the key and the value counts for nothing, nor do the quotes round the
/// name, where double quotes stand inside single ones.
pub proof fn line_gives_the_name(
    lead: Seq<char>,
    gap: Seq<char>,
    space: Seq<char>,
    single: Seq<char>,
    double: Seq<char>,
    name: Seq<char>,
    double_end: Seq<char>,
    single_end: Seq<char>,
    trail: Seq<char>,
)
    requires
        text::consists_of(lead, text::white()),
        text::consists_of(gap, text::white()),
        text::consists_of(space, text::white()),
        text::consists_of(single, text::only('\'')),
        text::consists_of(double, text::only('"')),
        text::consists_of(double_end, text::only('"')),
        text::consists_of(single_end, text::only('\'')),
        text::consists_of(trail, text::white()),
        name.len() > 0,
        name[0] != '"' && name.last() != '"',
        double.len() == 0 ==> name[0] != '\'',
        double_end.len() == 0 ==> name.last() != '\'',
        single.len() == 0 && double.len() == 0 ==> !text::is_white_space(name[0]),
        single_end.len() == 0 && double_end.len() == 0 ==> !text::is_white_space(name.last()),
    ensures
        setting_of(
            lead + "gtk-icon-theme-name"@ + gap + "="@ + space + single + double + name
                + double_end + single_end + trail,
        ) == Setting::Theme(name),
{
    let key = "gtk-icon-theme-name"@;
    reveal_strlit("gtk-icon-theme-name");
    reveal_strlit("=");
    let inner = double + name + double_end;
    let value = single + inner + single_end;
    let core = key + gap + "="@ + space + value;
    let line = lead + key + gap + "="@ + space + single + double + name + double_end + single_end
        + trail;
    assert(line =~= lead + core + trail);
    assert(value.last() == (if single_end.len() > 0 {
        single_end.last()
    } else if double_end.len() > 0 {
        double_end.last()
    } else {
        name.last()
    }));
    assert(value[0] == (if single.len() > 0 {
        single[0]
    } else if double.len() > 0 {
        double[0]
    } else {
        name[0]
    }));
    assert(core.last() == value.last());
    assert(core[0] == key[0]);
    text::white_space_is_trimmed(lead, core, trail);
    assert(key =~= core.subrange(0, key.len() as int));
    let rest = "="@ + space + value;
    assert(core.skip(key.len() as int) =~= gap + rest);
    text::front_is_dropped(gap, rest, text::white());
    assert(rest.skip(1) =~= space + value + Seq::empty());
    text::white_space_is_trimmed(space, value, Seq::empty());
    assert(inner[0] == (if double.len() > 0 {
        double[0]
    } else {
        name[0]
    }));
    assert(inner.last() == (if double_end.len() > 0 {
        double_end.last()
    } else {
        name.last()
    }));
    text::quotes_are_taken_away(single, inner, single_end, '\'');
    text::quotes_are_taken_away(double, name, double_end, '"');
}

/// A line with the key, an `=`, and only white space and quotes behind it says
/// nothing.
pub proof fn line_with_empty_name_says_nothing(
    lead: Seq<char>,
    gap: Seq<char>,
    space: Seq<char>,
    single: Seq<char>,
    double: Seq<char>,
    single_end: Seq<char>,
    trail: Seq<char>,
)
    requires
        text::consists_of(lead, text::white()),
        text::consists_of(gap, text::white()),
        text::consists_of(space, text::white()),
        text::consists_of(single, text::only('\'')),
        text::consists_of(double, text::only('"')),
        text::consists_of(single_end, text::only('\'')),
        text::consists_of(trail, text::white()),
    ensures
        setting_of(
            lead + "gtk-icon-theme-name"@ + gap + "="@ + space + single + double + single_end
                + trail,
        ) == Setting::<Seq<char>>::Nothing,
{
    let key = "gtk-icon-theme-name"@;
    reveal_strlit("gtk-icon-theme-name");
    reveal_strlit("=");
    let value = single + double + single_end;
    let line = lead + key + gap + "="@ + space + single + double + single_end + trail;
    let rest = if value.len() > 0 {
        "="@ + space + value
    } else {
        "="@
    };
    let core = key + gap + rest;
    if value.len() > 0 {
        assert(line =~= lead + core + trail);
        assert(value[0] == (if single.len() > 0 {
            single[0]
        } else if double.len() > 0 {
            double[0]
        } else {
            single_end[0]
        }));
        assert(value.last() == (if single_end.len() > 0 {
            single_end.last()
        } else if double.len() > 0 {
            double.last()
        } else {
            single.last()
        }));
        assert(core.last() == value.last());
        text::white_space_is_trimmed(lead, core, trail);
        assert(rest.skip(1) =~= space + value + Seq::empty());
        text::white_space_is_trimmed(space, value, Seq::empty());
    } else {
        assert(line =~= lead + core + (space + trail));
        text::white_space_is_trimmed(lead, core, space + trail);
        assert(rest.skip(1) =~= Seq::empty() + value + Seq::empty());
        text::white_space_is_trimmed(Seq::empty(), value, Seq::empty());
    }
    assert(key =~= core.subrange(0, key.len() as int));
    assert(core.skip(key.len() as int) =~= gap + rest);
    text::front_is_dropped(gap, rest, text::white());
    text::quotes_are_taken_away(single, double, single_end, '\'');
    assert(double =~= double + Seq::empty() + Seq::empty());
    text::quotes_are_taken_away(double, Seq::empty(), Seq::empty(), '"');
}

/// A line that does not begin with the key says nothing.
pub proof fn line_without_the_key_says_nothing(lead: Seq<char>, rest: Seq<char>)
    requires
        text::consists_of(lead, text::white()),
        rest.len() > 0 ==> !text::is_white_space(rest[0]),
        !"gtk-icon-theme-name"@.is_prefix_of(rest),
    ensures
        setting_of(lead + rest) == Setting::<Seq<char>>::Nothing,
{
    let key = "gtk-icon-theme-name"@;
    text::front_is_dropped(lead, rest, text::white());
    lemma_back_is_prefix(rest);
    let core = text::drop_back(rest, text::white());
    if key.is_prefix_of(core) {
        assert(key =~= rest.subrange(0, key.len() as int)) by {
            assert(key == core.subrange(0, key.len() as int));
        }
    }
}

/// A line with the key and then something other than an `=`, or nothing, is
/// malformed.
pub proof fn line_without_equals_is_malformed(lead: Seq<char>, gap: Seq<char>, rest: Seq<char>)
    requires
        text::consists_of(lead, text::white()),
        text::consists_of(gap, text::white()),
        rest.len() > 0 ==> !text::is_white_space(rest[0]) && rest[0] != '=',
    ensures
        setting_of(lead + "gtk-icon-theme-name"@ + gap + rest) == Setting::<Seq<char>>::Malformed,
{
    let key = "gtk-icon-theme-name"@;
    reveal_strlit("gtk-icon-theme-name");
    let line = lead + key + gap + rest;
    let tail = key + gap + rest;
    assert(line =~= lead + tail);
    text::front_is_dropped(lead, tail, text::white());
    if rest.len() > 0 {
        lemma_back_keeps(rest);
        let kept = text::drop_back(rest, text::white());
        let lost = rest.skip(kept.len() as int);
        assert(tail =~= key + gap + kept + lost);
        text::back_is_dropped(key + gap + kept, lost, text::white());
        let core = key + gap + kept;
        assert(text::trimmed(line) == core);
        assert(key =~= core.subrange(0, key.len() as int));
        assert(core.skip(key.len() as int) =~= gap + kept);
        text::front_is_dropped(gap, kept, text::white());
    } else {
        assert(tail =~= key + gap);
        text::back_is_dropped(key, gap, text::white());
        assert(key =~= key.subrange(0, key.len() as int));
        assert(key.skip(key.len() as int) =~= Seq::empty() + Seq::empty());
        text::front_is_dropped(Seq::empty(), Seq::empty(), text::white());
    }
}

/// What is dropped at the back leaves a prefix.
proof fn lemma_back_is_prefix(s: Seq<char>)
    ensures
        text::drop_back(s, text::white()).len() <= s.len(),
        forall|i: int|
            0 <= i < text::drop_back(s, text::white()).len() ==> #[trigger] text::drop_back(
                s,
                text::white(),
            )[i] == s[i],
    decreases s.len(),
{
    if s.len() > 0 && text::is_white_space(s.last()) {
        lemma_back_is_prefix(s.drop_last());
    }
}

/// What is dropped at the back is white, and leaves something where the text
/// begins with something.
proof fn lemma_back_keeps(s: Seq<char>)
    requires
        s.len() > 0,
        !text::is_white_space(s[0]),
    ensures
        ({
            let kept = text::drop_back(s, text::white());
            &&& 0 < kept.len() <= s.len()
            &&& kept == s.take(kept.len() as int)
            &&& kept[0] == s[0]
            &&& !text::is_white_space(kept.last())
            &&& text::consists_of(s.skip(kept.len() as int), text::white())
        }),
    decreases s.len(),
{
    let kept = text::drop_back(s, text::white());
    if text::is_white_space(s.last()) {
        let init = s.drop_last();
        lemma_back_keeps(init);
        assert(s.take(kept.len() as int) =~= init.take(kept.len() as int));
        let lost = s.skip(kept.len() as int);
        assert forall|i: int| 0 <= i < lost.len() implies text::white()(#[trigger] lost[i]) by {
            if i < lost.len() - 1 {
                assert(lost[i] == init.skip(kept.len() as int)[i]);
            }
        }
    } else {
        assert(s.take(s.len() as int) =~= s);
    }
}

/// The lines of a settings file count in their order: the first that gives a name
/// decides, and a malformed one before it ends the matter.
pub proof fn lines_count_in_order(line: Seq<char>, rest: Seq<char>)
    requires
        !line.contains('\n'),
    ensures
        theme_in_settings(line) == (match setting_of(line) {
            Setting::Theme(name) => Some(name),
            _ => None,
        }),
        theme_in_settings(line.push('\n') + rest) == (match setting_of(line) {
            Setting::Theme(name) => Some(name),
            Setting::Malformed => None,
            Setting::Nothing => theme_in_settings(rest),
        }),
{
    text::unsplit_text_is_one_piece(line, '\n');
    text::text_splits_at_first_separator(line, '\n', rest);
    let lines = seq![line] + text::split(rest, '\n');
    assert(lines.drop_first() =~= text::split(rest, '\n'));
    assert(seq![line].drop_first() =~= Seq::empty());
    assert(theme_in_lines(Seq::empty()) is None);
}

/// What the line `line` says of the icon theme.
pub fn read_setting<'a>(line: &'a str) -> (setting: Setting<&'a str>)
    ensures
        match setting {
            Setting::Nothing => setting_of(line@) == Setting::<Seq<char>>::Nothing,
            Setting::Malformed => setting_of(line@) == Setting::<Seq<char>>::Malformed,
            Setting::Theme(name) => setting_of(line@) == Setting::Theme(name@),
        },
{
    let line = trim(line);
    let key = chars_of("gtk-icon-theme-name");
    if !starts_with(line, &key) {
        return Setting::Nothing;
    }
    let rest = trim_start(line.substring_char(key.len(), line.unicode_len()));
    let rest_len = rest.unicode_len();
    if rest_len == 0 || rest.get_char(0) != '=' {
        return Setting::Malformed;
    }
    let value = trim_matches(trim_matches(trim(rest.substring_char(1, rest_len)), '\''), '"');
    if value.unicode_len() == 0 {
        Setting::Nothing
    } else {
        Setting::Theme(value)
    }
}

/// No line gives an empty name.
proof fn lemma_theme_in_lines_nonempty(lines: Seq<Seq<char>>)
    ensures
        theme_in_lines(lines) matches Some(name) ==> name.len() > 0,
    decreases lines.len(),
{
    if lines.len() > 0 {
        lemma_theme_in_lines_nonempty(lines.drop_first());
    }
}

/// The theme that the settings file with the contents `content` gives.
pub fn parse_gtk_settings(content: &str) -> (theme: Option<String>)
    ensures
        theme.deep_view() == theme_in_settings(content@),
        theme matches Some(name) ==> name@.len() > 0,
{
    proof {
        lemma_theme_in_lines_nonempty(text::split(content@, '\n'));
    }
    let lines = split_text(content, '\n');
    let ghost model = lines.deep_view();
    assert(model.skip(0) =~= model);
    for i in 0..lines.len()
        invariant
            model == lines.deep_view(),
            model == text::split(content@, '\n'),
            theme_in_lines(model) == theme_in_lines(model.skip(i as int)),
    {
        assert(model.skip(i as int).first() == lines@[i as int]@);
        assert(model.skip(i as int).drop_first() =~= model.skip(i + 1));
        match read_setting(lines[i]) {
            Setting::Nothing => {},
            Setting::Malformed => {
                return None;
            },
            Setting::Theme(name) => {
                return Some(name.to_owned());
            },
        }
    }
    None
}

/// The theme that the settings file at `path` gives; none if it cannot be read.
pub open spec fn theme_at(disk: Disk, path: Seq<u8>) -> Option<Seq<char>> {
    if disk.texts.contains_key(path) {
        theme_in_settings(disk.texts[path])
    } else {
        None
    }
}

/// The theme that a settings file gives, where `answer` is what came of reading
/// it.
pub open spec fn theme_in_answer(answer: Option<String>) -> Option<Seq<char>> {
    match answer {
        Some(content) => theme_in_settings(content@),
        None => None,
    }
}

/// Whether reading a settings file may end with a theme, or without one, as a
/// function of both.
pub open spec fn settings_search<T: Fn(&FsPath) -> Option<String>>(read_text: T) -> spec_fn(
    Seq<u8>,
    Option<Seq<char>>,
) -> bool {
    |path: Seq<u8>, theme: Option<Seq<char>>|
        exists|p: FsPath, answer: Option<String>|
            p@ == path && theme == theme_in_answer(answer) && #[trigger] call_ensures(
                read_text,
                (&p,),
                answer,
            )
}

/// The theme that the settings file at `path` gives; none if it cannot be read.
pub fn read_gtk_icon_theme<T: Fn(&FsPath) -> Option<String>>(
    path: &FsPath,
    read_text: &T,
) -> (theme: Option<String>)
    requires
        disk::probes_paths(*read_text),
    ensures
        settings_search(*read_text)(path@, theme.deep_view()),
        theme matches Some(name) ==> name@.len() > 0,
        forall|disk: Disk| #[trigger]
            disk::reports_texts(*read_text, disk) ==> theme.deep_view() == theme_at(disk, path@),
{
    let answer = read_text(path);
    let ghost given = theme_in_answer(answer);
    assert(settings_search(*read_text)(path@, given));
    match answer {
        Some(content) => parse_gtk_settings(content.as_str()),
        None => None,
    }
}

// ---------------------------------------------------------------------------
// The active theme
// ---------------------------------------------------------------------------

/// `name`, unless it is empty.
pub open spec fn nonempty(name: Seq<char>) -> Option<Seq<char>> {
    if name.len() > 0 {
        Some(name)
    } else {
        None
    }
}

/// The theme that the environment asks for: its value without white space round
/// it, unless nothing is left.
pub open spec fn theme_in_env(value: Option<Seq<char>>) -> Option<Seq<char>> {
    match value {
        Some(value) => nonempty(text::trimmed(value)),
        None => None,
    }
}

/// The theme in the text that `gsettings` prints: the text without white space
/// and then single quotes round it, unless nothing is left.
pub open spec fn theme_in_output(output: Seq<char>) -> Option<Seq<char>> {
    nonempty(text::unquoted(text::trimmed(output), '\''))
}

/// The theme that `gsettings` gives with the output `output`, where it succeeds.
pub open spec fn theme_in_gsettings(output: Option<Seq<u8>>) -> Option<Seq<char>> {
    match output {
        Some(bytes) => theme_in_output(encoding::utf8_lossy(bytes)),
        None => None,
    }
}

/// The theme that `gsettings` gives with the output `output`, where it succeeds;
/// else `hicolor`.
pub open spec fn desktop_theme(output: Option<Seq<u8>>) -> Seq<char> {
    match theme_in_gsettings(output) {
        Some(name) => name,
        None => "hicolor"@,
    }
}

/// The settings files of GTK for the home directory `home`, in the order in
/// which they count.
pub open spec fn settings_files(home: Seq<char>) -> Seq<Seq<u8>> {
    seq![
        utf8::encode_utf8(home + "/.config/gtk-4.0/settings.ini"@),
        utf8::encode_utf8(home + "/.config/gtk-3.0/settings.ini"@),
        utf8::encode_utf8("/etc/gtk-3.0/settings.ini"@),
    ]
}

/// The theme that the first of `files` to give one gives.
pub open spec fn theme_in_files(disk: Disk, files: Seq<Seq<u8>>) -> Option<Seq<char>>
    decreases files.len(),
{
    if files.len() == 0 {
        None
    } else {
        match theme_at(disk, files.first()) {
            Some(name) => Some(name),
            None => theme_in_files(disk, files.drop_first()),
        }
    }
}

/// The home directory, which is taken for the empty path where there is none.
pub open spec fn home_of(home: Option<Seq<char>>) -> Seq<char> {
    match home {
        Some(home) => home,
        None => Seq::empty(),
    }
}

/// The active theme: what the environment asks for, else what the settings files
/// give, else what `gsettings` gives, else `hicolor`.
pub open spec fn active_theme(
    icon_theme: Option<Seq<char>>,
    home: Option<Seq<char>>,
    disk: Disk,
    output: Option<Seq<u8>>,
) -> Seq<char> {
    match theme_in_env(icon_theme) {
        Some(name) => name,
        None => match theme_in_files(disk, settings_files(home_of(home))) {
            Some(name) => name,
            None => desktop_theme(output),
        },
    }
}

/// What the environment asks for, without white space round it, is the active
/// theme, whatever else there is.
pub proof fn environment_counts_first(
    lead: Seq<char>,
    name: Seq<char>,
    trail: Seq<char>,
    home: Option<Seq<char>>,
    disk: Disk,
    output: Option<Seq<u8>>,
)
    requires
        text::consists_of(lead, text::white()),
        text::consists_of(trail, text::white()),
        name.len() > 0 ==> !text::is_white_space(name[0]) && !text::is_white_space(name.last()),
    ensures
        active_theme(Some(lead + name + trail), home, disk, output) == (if name.len() > 0 {
            name
        } else {
            active_theme(None, home, disk, output)
        }),
{
    text::white_space_is_trimmed(lead, name, trail);
}

/// Where the environment asks for no theme, the user's settings for version 4
/// count first, then the user's settings for version 3, then those of the
/// system, then what `gsettings` says.
pub proof fn settings_count_in_order(
    home: Option<Seq<char>>,
    disk: Disk,
    output: Option<Seq<u8>>,
)
    ensures
        ({
            let own = match home {
                Some(home) => home,
                None => Seq::empty(),
            };
            let four = utf8::encode_utf8(own + "/.config/gtk-4.0/settings.ini"@);
            let three = utf8::encode_utf8(own + "/.config/gtk-3.0/settings.ini"@);
            let shared = utf8::encode_utf8("/etc/gtk-3.0/settings.ini"@);
            active_theme(None, home, disk, output) == (if gives_theme(disk, four) {
                theme_in_settings(disk.texts[four])->0
            } else if gives_theme(disk, three) {
                theme_in_settings(disk.texts[three])->0
            } else if gives_theme(disk, shared) {
                theme_in_settings(disk.texts[shared])->0
            } else {
                active_theme(
                    None,
                    home,
                    Disk { texts: Map::empty(), ..disk },
                    output,
                )
            })
        }),
{
    let own = home_of(home);
    let files = settings_files(own);
    let bare = Disk { texts: Map::empty(), ..disk };
    reveal_with_fuel(theme_in_files, 4);
    assert(files.drop_first() =~= seq![files[1], files[2]]);
    assert(files.drop_first().drop_first() =~= seq![files[2]]);
    assert(files.drop_first().drop_first().drop_first() =~= Seq::empty());
}

/// Whether the settings file at `path` can be read and gives a theme.
pub open spec fn gives_theme(disk: Disk, path: Seq<u8>) -> bool {
    disk.texts.contains_key(path) && theme_in_settings(disk.texts[path]) is Some
}

/// Where neither the environment nor a settings file gives a theme, it is what
/// `gsettings` prints, without white space and single quotes round it; else
/// `hicolor`.
pub proof fn desktop_counts_last(
    lead: Seq<char>,
    quotes: Seq<char>,
    name: Seq<char>,
    quotes_end: Seq<char>,
    trail: Seq<char>,
    home: Option<Seq<char>>,
    disk: Disk,
    bytes: Seq<u8>,
)
    requires
        disk.texts == Map::<Seq<u8>, Seq<char>>::empty(),
        text::consists_of(lead, text::white()),
        text::consists_of(quotes, text::only('\'')),
        text::consists_of(quotes_end, text::only('\'')),
        text::consists_of(trail, text::white()),
        name.len() > 0 ==> !text::is_white_space(name[0]) && name[0] != '\''
            && !text::is_white_space(name.last()) && name.last() != '\'',
        encoding::utf8_lossy(bytes) == lead + quotes + name + quotes_end + trail,
    ensures
        active_theme(None, home, disk, Some(bytes)) == (if name.len() > 0 {
            name
        } else {
            "hicolor"@
        }),
        active_theme(None, home, disk, None) == "hicolor"@,
{
    let files = settings_files(home_of(home));
    reveal_with_fuel(theme_in_files, 4);
    assert(files.drop_first() =~= seq![files[1], files[2]]);
    assert(files.drop_first().drop_first() =~= seq![files[2]]);
    assert(files.drop_first().drop_first().drop_first() =~= Seq::empty());
    let core = quotes + name + quotes_end;
    assert(lead + quotes + name + quotes_end + trail =~= lead + core + trail);
    if core.len() > 0 {
        assert(core[0] == (if quotes.len() > 0 {
            quotes[0]
        } else if name.len() > 0 {
            name[0]
        } else {
            quotes_end[0]
        }));
        assert(core.last() == (if quotes_end.len() > 0 {
            quotes_end.last()
        } else if name.len() > 0 {
            name.last()
        } else {
            quotes.last()
        }));
    }
    text::white_space_is_trimmed(lead, core, trail);
    text::quotes_are_taken_away(quotes, name, quotes_end, '\'');
}

/// Whether `gsettings` answers with `output`.
pub open spec fn reports_output<G: Fn() -> Option<Vec<u8>>>(
    gsettings: G,
    output: Option<Seq<u8>>,
) -> bool {
    forall|answer: Option<Vec<u8>>| #[trigger]
        call_ensures(gsettings, (), answer) ==> answer.deep_view() == output
}

/// `gsettings` reports an output as soon as each of its answers is that output.
pub proof fn agreeing_answers_report_the_output<G: Fn() -> Option<Vec<u8>>>(
    gsettings: G,
    output: Option<Seq<u8>>,
)
    requires
        forall|answer: Option<Vec<u8>>| #[trigger]
            call_ensures(gsettings, (), answer) ==> match answer {
                Some(bytes) => output == Some(bytes@),
                None => output is None,
            },
    ensures
        reports_output(gsettings, output),
{
    assert forall|answer: Option<Vec<u8>>| #[trigger]
        call_ensures(gsettings, (), answer) implies answer.deep_view() == output by {
        if let Some(bytes) = answer {
            assert(bytes.deep_view() =~= bytes@);
        }
    }
}

/// The theme in the text that `gsettings` prints.
pub fn parse_gsettings(output: &str) -> (theme: Option<String>)
    ensures
        theme.deep_view() == theme_in_output(output@),
{
    let name = trim_matches(trim(output), '\'');
    if name.unicode_len() == 0 {
        None
    } else {
        Some(name.to_owned())
    }
}

/// Answers that agree with a disk lead to the theme that the settings files on it
/// give.
proof fn lemma_settings_search<T: Fn(&FsPath) -> Option<String>>(
    read_text: T,
    disk: Disk,
    files: Seq<Seq<u8>>,
    theme: Option<Seq<char>>,
)
    requires
        disk::reports_texts(read_text, disk),
        disk::first_found(files, settings_search(read_text), theme),
    ensures
        theme == theme_in_files(disk, files),
    decreases files.len(),
{
    let search = settings_search(read_text);
    assert forall|file: Seq<u8>, x: Option<Seq<char>>| #[trigger]
        search(file, x) implies x == theme_at(disk, file) by {
        let (p, answer) = choose|p: FsPath, answer: Option<String>|
            p@ == file && x == theme_in_answer(answer) && #[trigger] call_ensures(
                read_text,
                (&p,),
                answer,
            );
        assert(call_ensures(read_text, (&p,), answer));
    }
    if files.len() > 0 {
        let rest = files.drop_first();
        if theme is Some {
            let i = choose|i: int|
                {
                    &&& 0 <= i < files.len()
                    &&& search(#[trigger] files[i], theme)
                    &&& forall|j: int| 0 <= j < i ==> search(#[trigger] files[j], None)
                };
            assert(search(files[i], theme));
            if i > 0 {
                assert(search(files[0], None));
                assert(rest[i - 1] == files[i]);
                assert(search(rest[i - 1], theme));
                assert forall|j: int| 0 <= j < i - 1 implies search(#[trigger] rest[j], None) by {
                    assert(search(files[j + 1], None));
                }
                lemma_settings_search(read_text, disk, rest, theme);
            }
        } else {
            assert(search(files[0], None));
            assert forall|j: int| 0 <= j < rest.len() implies search(#[trigger] rest[j], None) by {
                assert(search(files[j + 1], None));
            }
            lemma_settings_search(read_text, disk, rest, theme);
        }
    }
}

/// The theme that the first settings file to give one gives, where the home
/// directory is `home`.
fn theme_from_files<T: Fn(&FsPath) -> Option<String>>(
    home: &str,
    read_text: &T,
) -> (theme: Option<String>)
    requires
        disk::probes_paths(*read_text),
    ensures
        disk::first_found(
            settings_files(home@),
            settings_search(*read_text),
            theme.deep_view(),
        ),
        theme matches Some(name) ==> name@.len() > 0,
{
    let ghost files = settings_files(home@);
    let ghost search = settings_search(*read_text);
    let mut gtk4 = home.to_owned();
    gtk4.append("/.config/gtk-4.0/settings.ini");
    let theme = read_gtk_icon_theme(&FsPath::new(gtk4.as_str()), read_text);
    assert(search(files[0], theme.deep_view()));
    if theme.is_some() {
        return theme;
    }
    let mut gtk3 = home.to_owned();
    gtk3.append("/.config/gtk-3.0/settings.ini");
    let theme = read_gtk_icon_theme(&FsPath::new(gtk3.as_str()), read_text);
    assert(search(files[1], theme.deep_view()));
    if theme.is_some() {
        return theme;
    }
    let theme = read_gtk_icon_theme(&FsPath::new("/etc/gtk-3.0/settings.ini"), read_text);
    assert(search(files[2], theme.deep_view()));
    theme
}

/// Whether `theme` may be taken for the active theme, by the answers that the
/// probes may give: the settings files are read only where the environment asks
/// for no theme, and `gsettings` is asked only where no settings file gives one.
pub open spec fn may_be_active<T: Fn(&FsPath) -> Option<String>, G: Fn() -> Option<Vec<u8>>>(
    icon_theme: Option<Seq<char>>,
    home: Option<Seq<char>>,
    read_text: T,
    gsettings: G,
    theme: Seq<char>,
) -> bool {
    let files = settings_files(home_of(home));
    match theme_in_env(icon_theme) {
        Some(name) => theme == name,
        None => {
            ||| disk::first_found(files, settings_search(read_text), Some(theme))
            ||| disk::first_found(files, settings_search(read_text), None)
                && exists|answer: Option<Vec<u8>>| #[trigger]
                call_ensures(gsettings, (), answer) && theme == desktop_theme(answer.deep_view())
        },
    }
}

/// The name of the active icon theme. `icon_theme` and `home` are the values of
/// the environment's `ICON_THEME` and `HOME`; `read_text` reads a text file, and
/// `gsettings` asks the desktop, where its answer is what was printed on success.
///
/// The name is never empty, and what the environment asks for counts before
/// anything that is read.
pub fn current_icon_theme<T: Fn(&FsPath) -> Option<String>, G: Fn() -> Option<Vec<u8>>>(
    icon_theme: Option<&str>,
    home: Option<&str>,
    read_text: &T,
    gsettings: &G,
) -> (theme: String)
    requires
        disk::probes_paths(*read_text),
        call_requires(*gsettings, ()),
    ensures
        may_be_active(
            icon_theme.deep_view(),
            home.deep_view(),
            *read_text,
            *gsettings,
            theme@,
        ),
        theme@.len() > 0,
        forall|disk: Disk, output: Option<Seq<u8>>|
            #![trigger disk::reports_texts(*read_text, disk), reports_output(*gsettings, output)]
            disk::reports_texts(*read_text, disk) && reports_output(*gsettings, output) ==> theme@
                == active_theme(icon_theme.deep_view(), home.deep_view(), disk, output),
{
    if let Some(value) = icon_theme {
        let name = trim(value);
        if name.unicode_len() > 0 {
            return name.to_owned();
        }
    }
    let home_text = match home {
        Some(home) => home,
        None => "",
    };
    proof {
        reveal_strlit("");
        assert(""@ =~= Seq::empty());
    }
    let ghost files = settings_files(home_text@);
    let in_files = theme_from_files(home_text, read_text);
    assert forall|disk: Disk| #[trigger]
        disk::reports_texts(*read_text, disk) implies in_files.deep_view() == theme_in_files(
        disk,
        files,
    ) by {
        lemma_settings_search(*read_text, disk, files, in_files.deep_view());
    }
    if let Some(theme) = in_files {
        return theme;
    }
    let answer = gsettings();
    let ghost output = answer.deep_view();
    if let Some(bytes) = answer {
        assert(bytes.deep_view() =~= bytes@);
        let printed = decode_lossy(bytes.as_slice());
        if let Some(theme) = parse_gsettings(printed.as_str()) {
            assert(theme@ == desktop_theme(output));
            return theme;
        }
    }
    proof {
        reveal_strlit("hicolor");
        assert("hicolor"@ == desktop_theme(output));
    }
    "hicolor".to_owned()
}

} // verus!
