//! The directories below which icons are looked for.

use crate::path;
use crate::path::FsPath;
use crate::size_dirs;
use crate::text;
use crate::text::split_text;
use vstd::prelude::*;
use vstd::utf8;

verus! {

/// The icon directories of a user whose home directory is `home`.
pub open spec fn home_dirs(home: Seq<char>) -> Seq<Seq<u8>> {
    seq![
        path::joined(utf8::encode_utf8(home), utf8::encode_utf8(".icons"@)),
        path::joined(utf8::encode_utf8(home), utf8::encode_utf8(".local/share/icons"@)),
    ]
}

/// The icon directory below a data directory, as a function of that directory.
pub open spec fn icons_below() -> spec_fn(Seq<char>) -> Seq<u8> {
    |data_dir: Seq<char>| path::joined(utf8::encode_utf8(data_dir), utf8::encode_utf8("icons"@))
}

/// The icon directories below the data directories in the colon-separated list
/// `data_dirs`.
pub open spec fn data_icon_dirs(data_dirs: Seq<char>) -> Seq<Seq<u8>> {
    text::split(data_dirs, ':').map_values(icons_below())
}

/// The directories to search, in order: those of the home directory, if it is
/// known, those of the data directories, with a default where none are given,
/// and the one for icons without a theme.
pub open spec fn base_dirs(home: Option<Seq<char>>, data_dirs: Option<Seq<char>>) -> Seq<Seq<u8>> {
    (match home {
        Some(home) => home_dirs(home),
        None => Seq::empty(),
    }) + data_icon_dirs(
        match data_dirs {
            Some(data_dirs) => data_dirs,
            None => "/usr/local/share:/usr/share"@,
        },
    ).push(utf8::encode_utf8("/usr/share/pixmaps"@))
}

/// The last directory to search, and only that one, is for icons without a theme.
pub proof fn only_last_base_is_pixmaps(home: Option<Seq<char>>, data_dirs: Option<Seq<char>>)
    ensures
        base_dirs(home, data_dirs).len() > 0,
        base_dirs(home, data_dirs).last() == utf8::encode_utf8("/usr/share/pixmaps"@),
        forall|i: int|
            0 <= i < base_dirs(home, data_dirs).len() ==> (size_dirs::is_pixmaps(
                #[trigger] base_dirs(home, data_dirs)[i],
            ) <==> i == base_dirs(home, data_dirs).len() - 1),
{
    let dirs = base_dirs(home, data_dirs);
    lemma_names();
    assert forall|i: int| 0 <= i < dirs.len() - 1 implies !size_dirs::is_pixmaps(
        #[trigger] dirs[i],
    ) by {
        let own = match home {
            Some(home) => home_dirs(home),
            None => Seq::empty(),
        };
        let listed = match data_dirs {
            Some(data_dirs) => data_dirs,
            None => "/usr/local/share:/usr/share"@,
        };
        if i < own.len() {
            let home_path = utf8::encode_utf8(home->0);
            if i == 0 {
                path::joined_name_is_last(home_path, utf8::encode_utf8(".icons"@));
            } else {
                let head = utf8::encode_utf8(".local/share"@);
                let name = utf8::encode_utf8("icons"@);
                path::joined_name_is_last(path::joined(home_path, head), name);
                assert(dirs[i] =~= path::joined(path::joined(home_path, head), name));
            }
        } else {
            let data_dir = text::split(listed, ':')[i - own.len()];
            assert(dirs[i] == icons_below()(data_dir));
            path::joined_name_is_last(
                utf8::encode_utf8(data_dir),
                utf8::encode_utf8("icons"@),
            );
        }
    }
}

/// Below a known home directory, `.icons` is searched first and
/// `.local/share/icons` second; what follows is what is searched without one.
pub proof fn home_is_searched_first(home: Seq<char>, data_dirs: Option<Seq<char>>)
    ensures
        base_dirs(Some(home), data_dirs) == seq![
            path::joined(utf8::encode_utf8(home), utf8::encode_utf8(".icons"@)),
            path::joined(utf8::encode_utf8(home), utf8::encode_utf8(".local/share/icons"@)),
        ] + base_dirs(None, data_dirs),
{
    assert(Seq::<Seq<u8>>::empty() + base_dirs(None, data_dirs) =~= base_dirs(None, data_dirs));
    assert(base_dirs(Some(home), data_dirs) =~= seq![
        path::joined(utf8::encode_utf8(home), utf8::encode_utf8(".icons"@)),
        path::joined(utf8::encode_utf8(home), utf8::encode_utf8(".local/share/icons"@)),
    ] + base_dirs(None, data_dirs));
}

/// The data directories are searched in the order in which they are listed, each
/// in its `icons`, and `/usr/share/pixmaps` behind them all.
pub proof fn data_dirs_are_searched_in_order(first: Seq<char>, rest: Seq<char>)
    requires
        !first.contains(':'),
    ensures
        base_dirs(None, Some(first)) == seq![
            path::joined(utf8::encode_utf8(first), utf8::encode_utf8("icons"@)),
            utf8::encode_utf8("/usr/share/pixmaps"@),
        ],
        base_dirs(None, Some(first.push(':') + rest)) == seq![
            path::joined(utf8::encode_utf8(first), utf8::encode_utf8("icons"@)),
        ] + base_dirs(None, Some(rest)),
{
    text::unsplit_text_is_one_piece(first, ':');
    text::text_splits_at_first_separator(first, ':', rest);
    assert(base_dirs(None, Some(first)) =~= seq![
        path::joined(utf8::encode_utf8(first), utf8::encode_utf8("icons"@)),
        utf8::encode_utf8("/usr/share/pixmaps"@),
    ]);
    assert(base_dirs(None, Some(first.push(':') + rest)) =~= seq![
        path::joined(utf8::encode_utf8(first), utf8::encode_utf8("icons"@)),
    ] + base_dirs(None, Some(rest)));
}

/// Where no data directories are given, `/usr/local/share` and then `/usr/share`
/// are taken.
pub proof fn data_dirs_have_a_default(home: Option<Seq<char>>)
    ensures
        base_dirs(None, None) == seq![
            path::joined(utf8::encode_utf8("/usr/local/share"@), utf8::encode_utf8("icons"@)),
            path::joined(utf8::encode_utf8("/usr/share"@), utf8::encode_utf8("icons"@)),
            utf8::encode_utf8("/usr/share/pixmaps"@),
        ],
        base_dirs(home, None) == base_dirs(home, Some("/usr/local/share:/usr/share"@)),
{
    let first = "/usr/local/share"@;
    let second = "/usr/share"@;
    reveal_strlit("/usr/local/share:/usr/share");
    reveal_strlit("/usr/local/share");
    reveal_strlit("/usr/share");
    assert("/usr/local/share:/usr/share"@ =~= first.push(':') + second);
    data_dirs_are_searched_in_order(first, second);
    data_dirs_are_searched_in_order(second, first);
    assert(base_dirs(None, None) =~= seq![
        path::joined(utf8::encode_utf8(first), utf8::encode_utf8("icons"@)),
        path::joined(utf8::encode_utf8(second), utf8::encode_utf8("icons"@)),
        utf8::encode_utf8("/usr/share/pixmaps"@),
    ]);
}

/// What the names of the fixed directories are as bytes.
proof fn lemma_names()
    ensures
        size_dirs::is_pixmaps(utf8::encode_utf8("/usr/share/pixmaps"@)),
        utf8::encode_utf8(".icons"@) != utf8::encode_utf8("pixmaps"@),
        utf8::encode_utf8("icons"@) != utf8::encode_utf8("pixmaps"@),
        path::proper()(utf8::encode_utf8(".icons"@)),
        path::proper()(utf8::encode_utf8("icons"@)),
        !utf8::encode_utf8(".icons"@).contains(path::SLASH),
        !utf8::encode_utf8("icons"@).contains(path::SLASH),
        utf8::encode_utf8(".local/share/icons"@) == path::joined(
            utf8::encode_utf8(".local/share"@),
            utf8::encode_utf8("icons"@),
        ),
        utf8::encode_utf8(".local/share"@).len() > 0,
        utf8::encode_utf8(".local/share"@)[0] != path::SLASH,
        utf8::encode_utf8(".local/share"@).last() != path::SLASH,
{
    reveal_strlit("/usr/share/pixmaps");
    reveal_strlit("/usr/share");
    reveal_strlit("pixmaps");
    reveal_strlit(".icons");
    reveal_strlit("icons");
    reveal_strlit(".local/share/icons");
    reveal_strlit(".local/share");
    utf8::is_ascii_chars_encode_utf8("/usr/share/pixmaps"@);
    utf8::is_ascii_chars_encode_utf8("/usr/share"@);
    utf8::is_ascii_chars_encode_utf8("pixmaps"@);
    utf8::is_ascii_chars_encode_utf8(".icons"@);
    utf8::is_ascii_chars_encode_utf8("icons"@);
    utf8::is_ascii_chars_encode_utf8(".local/share/icons"@);
    utf8::is_ascii_chars_encode_utf8(".local/share"@);
    let pixmaps = utf8::encode_utf8("pixmaps"@);
    assert(pixmaps =~= seq![0x70u8, 0x69, 0x78, 0x6d, 0x61, 0x70, 0x73]);
    assert(utf8::encode_utf8(".icons"@) =~= seq![0x2eu8, 0x69, 0x63, 0x6f, 0x6e, 0x73]);
    assert(utf8::encode_utf8("icons"@) =~= seq![0x69u8, 0x63, 0x6f, 0x6e, 0x73]);
    assert(utf8::encode_utf8("/usr/share/pixmaps"@) =~= path::joined(
        utf8::encode_utf8("/usr/share"@),
        pixmaps,
    ));
    path::joined_name_is_last(utf8::encode_utf8("/usr/share"@), pixmaps);
    assert(utf8::encode_utf8(".local/share/icons"@) =~= path::joined(
        utf8::encode_utf8(".local/share"@),
        utf8::encode_utf8("icons"@),
    ));
}

/// The directories to search for icons, in order. `home` is the user's home
/// directory and `data_dirs` the colon-separated list of data directories, where
/// the environment has them.
pub fn icon_base_dirs(home: Option<&str>, data_dirs: Option<&str>) -> (dirs: Vec<FsPath>)
    ensures
        dirs.deep_view() == base_dirs(home.deep_view(), data_dirs.deep_view()),
{
    let mut dirs: Vec<FsPath> = Vec::new();
    if let Some(home) = home {
        let base = FsPath::new(home);
        dirs.push(base.join_text(".icons"));
        dirs.push(base.join_text(".local/share/icons"));
    }
    let ghost own = dirs.deep_view();
    let listed = match data_dirs {
        Some(data_dirs) => data_dirs,
        None => "/usr/local/share:/usr/share",
    };
    let pieces = split_text(listed, ':');
    let ghost model = pieces.deep_view();
    for i in 0..pieces.len()
        invariant
            model == pieces.deep_view(),
            dirs.deep_view() == own + model.take(i as int).map_values(icons_below()),
    {
        let ghost so_far = dirs.deep_view();
        assert(model[i as int] == pieces@[i as int]@);
        let dir = FsPath::new(pieces[i]).join_text("icons");
        dirs.push(dir);
        assert(dirs.deep_view() =~= so_far.push(dir@));
        assert(dirs.deep_view() =~= own + model.take(i + 1).map_values(icons_below()));
    }
    assert(model.take(model.len() as int) =~= model);
    let ghost so_far = dirs.deep_view();
    dirs.push(FsPath::new("/usr/share/pixmaps"));
    assert(dirs.deep_view() =~= so_far.push(utf8::encode_utf8("/usr/share/pixmaps"@)));
    assert(dirs.deep_view() =~= base_dirs(home.deep_view(), data_dirs.deep_view()));
    dirs
}

} // verus!
