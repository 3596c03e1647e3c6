//! The search for an icon, from its name to its path.

use crate::disk;
use crate::disk::{DirEntry, Disk, Entry, EntryKind};
use crate::encoding;
use crate::encoding::decode_text;
use crate::fuzzy;
use crate::fuzzy::find_fuzzy;
use crate::icon_dir;
use crate::names;
use crate::names::insert_name;
use crate::path::FsPath;
use crate::size_dirs;
use crate::text::{contains_char, same_text};
use crate::themes;
use crate::themes::find_named;
use vstd::prelude::*;

verus! {

// ---------------------------------------------------------------------------
// The themes to search
// ---------------------------------------------------------------------------

/// The themes that come before all others: the active one, then `hicolor`.
pub open spec fn priority_themes(active: Seq<char>) -> Seq<Seq<char>> {
    if active == "hicolor"@ {
        seq![active]
    } else {
        seq![active, "hicolor"@]
    }
}

/// The theme that an entry of a base directory is, if it is one without
/// priority.
pub open spec fn theme_named(active: Seq<char>) -> spec_fn(Entry) -> Set<Seq<char>> {
    |entry: Entry|
        match encoding::text_of(entry.name) {
            Some(name) if entry.kind == EntryKind::Directory && !priority_themes(active).contains(
                name,
            ) => set![name],
            _ => Set::empty(),
        }
}

/// The themes without priority in a base directory, as a function of that
/// directory.
pub open spec fn themes_in(disk: Disk, active: Seq<char>) -> spec_fn(Seq<u8>) -> Set<Seq<char>> {
    |base: Seq<u8>|
        if size_dirs::is_pixmaps(base) {
            Set::empty()
        } else {
            names::gathered(disk.entries(base), theme_named(active))
        }
}

/// The themes without priority, each once and in ascending order.
pub open spec fn other_themes(disk: Disk, bases: Seq<Seq<u8>>, active: Seq<char>) -> Seq<
    Seq<char>,
> {
    names::ascending(names::gathered(bases, themes_in(disk, active)))
}

/// All themes, in the order in which they are searched.
pub open spec fn searched_themes(disk: Disk, bases: Seq<Seq<u8>>, active: Seq<char>) -> Seq<
    Seq<char>,
> {
    priority_themes(active) + other_themes(disk, bases, active)
}

/// Adds the themes without priority among the entries of a base directory to
/// `found`.
fn add_themes(entries: &Vec<DirEntry>, active: &str, found: &mut Vec<String>)
    requires
        names::is_ascending(old(found).deep_view()),
    ensures
        names::is_ascending(final(found).deep_view()),
        final(found).deep_view().to_set() == old(found).deep_view().to_set().union(
            names::gathered(entries.deep_view(), theme_named(active@)),
        ),
{
    let ghost before = found.deep_view().to_set();
    let ghost model = entries.deep_view();
    let ghost pick = theme_named(active@);
    assert(model.take(0) =~= Seq::empty());
    proof {
        names::lemma_gathered_empty(pick);
    }
    assert(before.union(Set::empty()) =~= before);
    for i in 0..entries.len()
        invariant
            model == entries.deep_view(),
            pick == theme_named(active@),
            names::is_ascending(found.deep_view()),
            found.deep_view().to_set() == before.union(
                names::gathered(model.take(i as int), pick),
            ),
    {
        let entry = &entries[i];
        assert(model[i as int] == entry@);
        let ghost so_far = found.deep_view().to_set();
        proof {
            names::lemma_gathered_take(model, pick, i as int);
        }
        if entry.kind == EntryKind::Directory {
            if let Some(name) = decode_text(entry.name.as_slice()) {
                let preferred = same_text(name, active) || same_text(name, "hicolor");
                assert(priority_themes(active@).contains(name@) == preferred) by {
                    let themes = priority_themes(active@);
                    assert(themes[0] == active@);
                    assert(active@ != "hicolor"@ ==> themes[1] == "hicolor"@);
                }
                if !preferred {
                    insert_name(found, name);
                    assert(so_far.insert(name@) =~= so_far.union(pick(entry@)));
                }
            }
        }
        assert(found.deep_view().to_set() =~= so_far.union(pick(entry@)));
        assert(found.deep_view().to_set() =~= before.union(
            names::gathered(model.take(i + 1), pick),
        ));
    }
    assert(model.take(model.len() as int) =~= model);
}

/// Whether a base directory may be reported with a set of themes without
/// priority, as a function of both.
pub open spec fn reported_themes<L: Fn(&FsPath) -> Option<Vec<DirEntry>>>(
    list_dir: L,
    active: Seq<char>,
) -> spec_fn(Seq<u8>, Set<Seq<char>>) -> bool {
    |base: Seq<u8>, themes: Set<Seq<char>>|
        if size_dirs::is_pixmaps(base) {
            themes == Set::<Seq<char>>::empty()
        } else {
            exists|entries: Seq<Entry>| #[trigger]
                disk::may_list(list_dir, base, entries) && themes == names::gathered(
                    entries,
                    theme_named(active),
                )
        }
}

/// Whether `others` lists, in ascending order, themes without priority that the
/// base directories `bases` may be reported with.
pub open spec fn may_be_others<L: Fn(&FsPath) -> Option<Vec<DirEntry>>>(
    list_dir: L,
    bases: Seq<Seq<u8>>,
    active: Seq<char>,
    others: Seq<Seq<char>>,
) -> bool {
    &&& names::is_ascending(others)
    &&& exists|parts: Seq<Set<Seq<char>>>| #[trigger]
        disk::piecewise(bases, reported_themes(list_dir, active), parts) && others.to_set()
            == names::united(parts)
}

/// Whether `themes` are the themes with priority and then others that the base
/// directories `bases` may be reported with.
pub open spec fn may_be_searched<L: Fn(&FsPath) -> Option<Vec<DirEntry>>>(
    list_dir: L,
    bases: Seq<Seq<u8>>,
    active: Seq<char>,
    themes: Seq<Seq<char>>,
) -> bool {
    exists|others: Seq<Seq<char>>| #[trigger]
        may_be_others(list_dir, bases, active, others) && themes == priority_themes(active) + others
}

/// Answers that agree with a disk report the themes that it has.
proof fn lemma_may_be_others<L: Fn(&FsPath) -> Option<Vec<DirEntry>>>(
    list_dir: L,
    disk: Disk,
    bases: Seq<Seq<u8>>,
    active: Seq<char>,
    others: Seq<Seq<char>>,
)
    requires
        disk::reports_listings(list_dir, disk),
        may_be_others(list_dir, bases, active, others),
    ensures
        others == other_themes(disk, bases, active),
{
    let gives = reported_themes(list_dir, active);
    let parts = choose|parts: Seq<Set<Seq<char>>>| #[trigger]
        disk::piecewise(bases, gives, parts) && others.to_set() == names::united(parts);
    assert forall|i: int, part: Set<Seq<char>>|
        0 <= i < bases.len() && #[trigger] gives(bases[i], part) implies part == themes_in(
        disk,
        active,
    )(bases[i]) by {
        if !size_dirs::is_pixmaps(bases[i]) {
            let entries = choose|entries: Seq<Entry>| #[trigger]
                disk::may_list(list_dir, bases[i], entries) && part == names::gathered(
                    entries,
                    theme_named(active),
                );
            disk::lemma_may_list(list_dir, disk, bases[i], entries);
        }
    }
    disk::lemma_piecewise(bases, gives, parts, themes_in(disk, active));
    names::lemma_united_map(bases, themes_in(disk, active));
    names::lemma_ascending(others);
}

/// The themes below the directories `base_dirs` without priority, each once and
/// in ascending order.
pub fn collect_other_themes<L: Fn(&FsPath) -> Option<Vec<DirEntry>>>(
    base_dirs: &Vec<FsPath>,
    active: &str,
    list_dir: &L,
) -> (found: Vec<String>)
    requires
        disk::probes_paths(*list_dir),
    ensures
        may_be_others(*list_dir, base_dirs.deep_view(), active@, found.deep_view()),
        forall|disk: Disk| #[trigger]
            disk::reports_listings(*list_dir, disk) ==> found.deep_view() == other_themes(
                disk,
                base_dirs.deep_view(),
                active@,
            ),
{
    let ghost bases = base_dirs.deep_view();
    let ghost gives = reported_themes(*list_dir, active@);
    let ghost mut parts: Seq<Set<Seq<char>>> = Seq::empty();
    let mut found: Vec<String> = Vec::new();
    proof {
        names::lemma_united_empty();
    }
    assert(found.deep_view().to_set() =~= Set::empty());
    for i in 0..base_dirs.len()
        invariant
            disk::probes_paths(*list_dir),
            bases == base_dirs.deep_view(),
            gives == reported_themes(*list_dir, active@),
            names::is_ascending(found.deep_view()),
            disk::piecewise(bases.take(i as int), gives, parts),
            found.deep_view().to_set() == names::united(parts),
    {
        let base = &base_dirs[i];
        assert(bases[i as int] == base@);
        let ghost so_far = found.deep_view().to_set();
        let ghost mut part: Set<Seq<char>> = Set::empty();
        assert(so_far.union(Set::empty()) =~= so_far);
        if !base.ends_with("pixmaps") {
            let answer = list_dir(base);
            let ghost entries = disk::entries_in(answer);
            assert(disk::may_list(*list_dir, base@, entries));
            proof {
                part = names::gathered(entries, theme_named(active@));
                names::lemma_gathered_empty(theme_named(active@));
            }
            if let Some(entries) = answer {
                add_themes(&entries, active, &mut found);
            }
        }
        proof {
            disk::lemma_piecewise_step(bases, gives, parts, i as int, part);
            names::lemma_united_push(parts, part);
            parts = parts.push(part);
        }
    }
    assert(bases.take(bases.len() as int) =~= bases);
    assert forall|disk: Disk| #[trigger]
        disk::reports_listings(*list_dir, disk) implies found.deep_view() == other_themes(
        disk,
        bases,
        active@,
    ) by {
        lemma_may_be_others(*list_dir, disk, bases, active@, found.deep_view());
    }
    found
}

/// All themes below the directories `base_dirs`, in the order in which they are
/// searched: the active one, `hicolor`, then the others in ascending order.
pub fn collect_themes<L: Fn(&FsPath) -> Option<Vec<DirEntry>>>(
    base_dirs: &Vec<FsPath>,
    active: &str,
    list_dir: &L,
) -> (themes: Vec<String>)
    requires
        disk::probes_paths(*list_dir),
    ensures
        may_be_searched(*list_dir, base_dirs.deep_view(), active@, themes.deep_view()),
        forall|disk: Disk| #[trigger]
            disk::reports_listings(*list_dir, disk) ==> themes.deep_view() == searched_themes(
                disk,
                base_dirs.deep_view(),
                active@,
            ),
{
    let mut themes: Vec<String> = Vec::new();
    themes.push(active.to_owned());
    if !same_text(active, "hicolor") {
        themes.push("hicolor".to_owned());
    }
    assert(themes.deep_view() =~= priority_themes(active@));
    let mut others = collect_other_themes(base_dirs, active, list_dir);
    let ghost rest = others.deep_view();
    themes.append(&mut others);
    assert(themes.deep_view() =~= priority_themes(active@) + rest);
    themes
}

// ---------------------------------------------------------------------------
// The search
// ---------------------------------------------------------------------------

/// What is kept from one search to the next.
pub struct IconCache {
    base_dirs: Vec<FsPath>,
    active_theme: String,
    fuzzy_index: Option<Vec<String>>,
}

/// The model of an [`IconCache`].
#[verifier::ext_equal]
pub struct Cache {
    /// The directories to search.
    pub bases: Seq<Seq<u8>>,
    /// The active theme.
    pub active: Seq<char>,
    /// The reverse-DNS names, once they have been collected.
    pub index: Option<Seq<Seq<char>>>,
}

impl Cache {
    /// Whether the names collected, if they are, can be an index.
    pub open spec fn well_formed(self) -> bool {
        self.index matches Some(index) ==> fuzzy::is_index(index)
    }
}

impl View for IconCache {
    type V = Cache;

    closed spec fn view(&self) -> Cache {
        Cache {
            bases: self.base_dirs.deep_view(),
            active: self.active_theme@,
            index: self.fuzzy_index.deep_view(),
        }
    }
}

impl IconCache {
    /// A cache for searches below `base_dirs` with the theme `active_theme`.
    pub fn new(base_dirs: Vec<FsPath>, active_theme: String) -> (cache: IconCache)
        ensures
            cache@ == (Cache {
                bases: base_dirs.deep_view(),
                active: active_theme@,
                index: None,
            }),
            cache@.well_formed(),
    {
        IconCache { base_dirs, active_theme, fuzzy_index: None }
    }
}

/// The files that may hold the icon under its exact name.
pub open spec fn exact_files(disk: Disk, cache: Cache, app: Seq<char>, size: u32) -> Seq<Seq<u8>> {
    themes::named_files(
        disk,
        cache.bases,
        searched_themes(disk, cache.bases, cache.active),
        app,
        size,
    )
}

/// The files that may hold the icon under a reverse-DNS name that answers to
/// `app`. A name with a dot is not looked for in this way.
pub open spec fn similar_files(disk: Disk, cache: Cache, app: Seq<char>, size: u32) -> Seq<
    Seq<u8>,
> {
    if app.contains('.') {
        Seq::empty()
    } else {
        fuzzy::fuzzy_files(
            disk,
            cache.bases,
            searched_themes(disk, cache.bases, cache.active),
            fuzzy::index_used(disk, cache.bases, cache.index),
            app,
            size,
        )
    }
}

/// All files that may hold the icon `app`, in order of preference.
pub open spec fn searched_files(disk: Disk, cache: Cache, app: Seq<char>, size: u32) -> Seq<
    Seq<u8>,
> {
    exact_files(disk, cache, app, size) + similar_files(disk, cache, app, size)
}

/// The path of the icon `app`: the first file searched that is present.
pub open spec fn icon_path(disk: Disk, cache: Cache, app: Seq<char>, size: u32) -> Option<Seq<u8>> {
    disk::first_present(disk.present, searched_files(disk, cache, app, size))
}

/// The cache after a search for `app`. The index of reverse-DNS names is there
/// from the first search on that gets as far as to need it.
pub open spec fn cache_after(disk: Disk, cache: Cache, app: Seq<char>, size: u32) -> Cache {
    if app.contains('.') || disk::first_present(
        disk.present,
        exact_files(disk, cache, app, size),
    ) is Some {
        cache
    } else {
        Cache { index: Some(fuzzy::index_used(disk, cache.bases, cache.index)), ..cache }
    }
}

// ---------------------------------------------------------------------------
// Laws of the search
// ---------------------------------------------------------------------------

/// The path found is present, and no file searched before it is; where no path
/// is found, no file searched is present.
pub proof fn found_icon_is_first_present(disk: Disk, cache: Cache, app: Seq<char>, size: u32)
    ensures
        match icon_path(disk, cache, app, size) {
            Some(file) => exists|i: int|
                {
                    &&& 0 <= i < searched_files(disk, cache, app, size).len()
                    &&& #[trigger] searched_files(disk, cache, app, size)[i] == file
                    &&& disk.present.contains(file)
                    &&& forall|j: int|
                        0 <= j < i ==> !disk.present.contains(
                            #[trigger] searched_files(disk, cache, app, size)[j],
                        )
                },
            None => forall|i: int|
                0 <= i < searched_files(disk, cache, app, size).len() ==> !disk.present.contains(
                    #[trigger] searched_files(disk, cache, app, size)[i],
                ),
        },
{
    disk::first_present_is_first(disk.present, searched_files(disk, cache, app, size));
}

/// A file under the exact name is found before any under a similar one.
pub proof fn exact_name_comes_first(disk: Disk, cache: Cache, app: Seq<char>, size: u32)
    requires
        disk::first_present(disk.present, exact_files(disk, cache, app, size)) is Some,
    ensures
        icon_path(disk, cache, app, size) == disk::first_present(
            disk.present,
            exact_files(disk, cache, app, size),
        ),
        cache_after(disk, cache, app, size) == cache,
{
    disk::lemma_first_present_add(
        disk.present,
        exact_files(disk, cache, app, size),
        similar_files(disk, cache, app, size),
    );
}

/// A name with a dot is looked for under that name only.
pub proof fn dotted_name_is_exact(disk: Disk, cache: Cache, app: Seq<char>, size: u32)
    requires
        app.contains('.'),
    ensures
        icon_path(disk, cache, app, size) == disk::first_present(
            disk.present,
            exact_files(disk, cache, app, size),
        ),
        cache_after(disk, cache, app, size) == cache,
{
    assert(searched_files(disk, cache, app, size) =~= exact_files(disk, cache, app, size));
}

/// An icon in the active theme is found before any other; one in `hicolor` is
/// found where the active theme has none.
pub proof fn active_theme_then_hicolor(disk: Disk, cache: Cache, app: Seq<char>, size: u32)
    ensures
        ({
            let in_active = disk::first_present(
                disk.present,
                themes::theme_files(disk, cache.bases, cache.active, app, size),
            );
            let in_hicolor = disk::first_present(
                disk.present,
                themes::theme_files(disk, cache.bases, "hicolor"@, app, size),
            );
            &&& in_active is Some ==> icon_path(disk, cache, app, size) == in_active
            &&& in_active is None && in_hicolor is Some ==> icon_path(disk, cache, app, size)
                == in_hicolor
        }),
{
    let themes = searched_themes(disk, cache.bases, cache.active);
    let files_of = themes::theme_files_of(disk, cache.bases, app, size);
    let flat = cache.bases.flat_map(themes::flat_files_of(app));
    disk::lemma_first_present_add(disk.present, themes.flat_map(files_of), flat);
    disk::lemma_first_present_add(
        disk.present,
        exact_files(disk, cache, app, size),
        similar_files(disk, cache, app, size),
    );
    assert(themes[0] == cache.active);
    if disk::first_present(disk.present, files_of(themes[0])) is Some {
        disk::lemma_first_present_found(disk.present, themes, files_of, 0);
    } else if cache.active != "hicolor"@ {
        assert(themes[1] == "hicolor"@);
        if disk::first_present(disk.present, files_of(themes[1])) is Some {
            disk::lemma_first_present_found(disk.present, themes, files_of, 1);
        }
    }
}

/// No theme is searched twice.
pub proof fn themes_are_searched_once(disk: Disk, bases: Seq<Seq<u8>>, active: Seq<char>)
    ensures
        searched_themes(disk, bases, active).no_duplicates(),
        names::is_ascending(other_themes(disk, bases, active)),
        other_themes(disk, bases, active).to_set() == names::gathered(
            bases,
            themes_in(disk, active),
        ),
{
    let first = priority_themes(active);
    let others = other_themes(disk, bases, active);
    let all = names::gathered(bases, themes_in(disk, active));
    assert forall|k: int| 0 <= k < bases.len() implies themes_in(disk, active)(
        #[trigger] bases[k],
    ).finite() by {
        names::lemma_gathered_finite(disk.entries(bases[k]), theme_named(active));
    }
    names::lemma_gathered_finite(bases, themes_in(disk, active));
    names::ascending_list_exists(all);
    names::lemma_ascending_distinct(others);
    assert forall|i: int| 0 <= i < others.len() implies !first.contains(#[trigger] others[i]) by {
        let name = others[i];
        assert(others.to_set().contains(name));
        let k = choose|k: int|
            0 <= k < bases.len() && themes_in(disk, active)(#[trigger] bases[k]).contains(name);
        let entries = disk.entries(bases[k]);
        let m = choose|m: int|
            0 <= m < entries.len() && theme_named(active)(#[trigger] entries[m]).contains(name);
        assert(theme_named(active)(entries[m]).contains(name));
    }
    let themes = searched_themes(disk, bases, active);
    assert forall|i: int, j: int|
        0 <= i < themes.len() && 0 <= j < themes.len() && i != j implies themes[i] != themes[j] by {
        if i < first.len() && j >= first.len() {
            assert(first[i] == themes[i]);
            assert(others[j - first.len()] == themes[j]);
        } else if j < first.len() && i >= first.len() {
            assert(first[j] == themes[j]);
            assert(others[i - first.len()] == themes[i]);
        } else if i >= first.len() {
            assert(others[i - first.len()] == themes[i]);
            assert(others[j - first.len()] == themes[j]);
        }
    }
}

/// While the disk stays as it is, a search finds what it would have found
/// without the searches before it.
pub proof fn earlier_search_changes_nothing(
    disk: Disk,
    cache: Cache,
    earlier_app: Seq<char>,
    earlier_size: u32,
    app: Seq<char>,
    size: u32,
)
    ensures
        icon_path(disk, cache_after(disk, cache, earlier_app, earlier_size), app, size)
            == icon_path(disk, cache, app, size),
{
}

/// Once the index of reverse-DNS names has been collected, no search changes it,
/// whatever becomes of the disk.
pub proof fn index_is_collected_once(disk: Disk, cache: Cache, app: Seq<char>, size: u32)
    requires
        cache.index is Some,
    ensures
        cache_after(disk, cache, app, size) == cache,
{
}

/// The path of the icon is the path of a file named after the application, or,
/// for a name without a dot, after an indexed name that answers to it.
pub proof fn found_icon_has_the_name(disk: Disk, cache: Cache, app: Seq<char>, size: u32)
    ensures
        icon_path(disk, cache, app, size) matches Some(file) ==> {
            ||| icon_dir::named_after(file, app)
            ||| !app.contains('.') && fuzzy::named_after_similar(
                file,
                fuzzy::index_used(disk, cache.bases, cache.index),
                app,
            )
        },
{
    let files = searched_files(disk, cache, app, size);
    let exact = exact_files(disk, cache, app, size);
    let themes = searched_themes(disk, cache.bases, cache.active);
    disk::first_present_is_first(disk.present, files);
    if let Some(file) = icon_path(disk, cache, app, size) {
        let i = choose|i: int| 0 <= i < files.len() && #[trigger] files[i] == file;
        if i < exact.len() {
            assert(exact[i] == file);
            lemma_named_files(disk, cache.bases, themes, app, size, file);
        } else {
            let similar = similar_files(disk, cache, app, size);
            assert(similar[i - exact.len()] == file);
            let index = fuzzy::index_used(disk, cache.bases, cache.index);
            let files_of = fuzzy::candidate_files(disk, cache.bases, themes, app, size);
            let k = disk::lemma_flat_map_member(index, files_of, file);
            lemma_named_files(disk, cache.bases, themes, index[k], size, file);
            assert(icon_dir::named_after(file, index[k]));
        }
    }
}

proof fn lemma_named_files(
    disk: Disk,
    bases: Seq<Seq<u8>>,
    themes: Seq<Seq<char>>,
    app: Seq<char>,
    size: u32,
    file: Seq<u8>,
)
    requires
        themes::named_files(disk, bases, themes, app, size).contains(file),
    ensures
        icon_dir::named_after(file, app),
{
    let themed = themes.flat_map(themes::theme_files_of(disk, bases, app, size));
    let flat = bases.flat_map(themes::flat_files_of(app));
    let i = choose|i: int| 0 <= i < (themed + flat).len() && (themed + flat)[i] == file;
    if i < themed.len() {
        assert(themed[i] == file);
        let k = disk::lemma_flat_map_member(
            themes,
            themes::theme_files_of(disk, bases, app, size),
            file,
        );
        let dirs = size_dirs::size_dirs(disk, bases, themes[k], size);
        let m = disk::lemma_flat_map_member(dirs, themes::files_below(disk, app), file);
        lemma_size_dir_files(disk, dirs[m].path, app, file);
    } else {
        assert(flat[i - themed.len()] == file);
        let k = disk::lemma_flat_map_member(bases, themes::flat_files_of(app), file);
        assert(icon_dir::icon_files(bases[k], app).contains(file));
    }
}

proof fn lemma_size_dir_files(disk: Disk, dir: Seq<u8>, app: Seq<char>, file: Seq<u8>)
    requires
        icon_dir::size_dir_files(disk, dir, app).contains(file),
    ensures
        icon_dir::named_after(file, app),
{
    let direct = icon_dir::icon_files(dir, app);
    let dirs = icon_dir::category_dirs(dir, disk.entries(dir));
    let below = icon_dir::files_in_dirs(dirs, app);
    let i = choose|i: int| 0 <= i < (direct + below).len() && (direct + below)[i] == file;
    if i < direct.len() {
        assert(direct[i] == file);
        assert(icon_dir::icon_files(dir, app).contains(file));
    } else {
        assert(below[i - direct.len()] == file);
        let k = disk::lemma_flat_map_member(dirs, icon_dir::icon_files_of(app), file);
        assert(icon_dir::icon_files(dirs[k], app).contains(file));
    }
}

// ---------------------------------------------------------------------------
// Searching
// ---------------------------------------------------------------------------

/// Whether looking for an icon under the reverse-DNS names that answer to `app`
/// may end with `found` and leave the cache as `after`: the names are taken from
/// the cache, or collected where none have been.
pub open spec fn may_find_similar<
    P: Fn(&FsPath) -> bool,
    L: Fn(&FsPath) -> Option<Vec<DirEntry>>,
>(
    is_present: P,
    list_dir: L,
    before: Cache,
    themes: Seq<Seq<char>>,
    app: Seq<char>,
    size: u32,
    found: Option<Seq<u8>>,
    after: Cache,
) -> bool {
    exists|index: Seq<Seq<char>>|
        {
            &&& after == (Cache { index: Some(index), ..before })
            &&& match before.index {
                Some(cached) => index == cached,
                None => fuzzy::may_index(is_present, list_dir, before.bases, index),
            }
            &&& #[trigger] disk::first_found(
                index,
                fuzzy::candidate_search(is_present, list_dir, before.bases, themes, app, size),
                found,
            )
        }
}

/// Whether the search for the icon `app` may end with `found` and leave the cache
/// as `after`, by the answers that the probes may give: the themes are collected;
/// then the exact name is tried; then, for a name without a dot, those that
/// answer to it.
pub open spec fn may_find<P: Fn(&FsPath) -> bool, L: Fn(&FsPath) -> Option<Vec<DirEntry>>>(
    is_present: P,
    list_dir: L,
    before: Cache,
    app: Seq<char>,
    size: u32,
    found: Option<Seq<u8>>,
    after: Cache,
) -> bool {
    exists|themes: Seq<Seq<char>>|
        {
            let exact = themes::name_search(is_present, list_dir, before.bases, themes, size);
            &&& #[trigger] may_be_searched(list_dir, before.bases, before.active, themes)
            &&& {
                ||| found is Some && exact(app, found) && after == before
                ||| exact(app, None) && app.contains('.') && found is None && after == before
                ||| exact(app, None) && !app.contains('.') && may_find_similar(
                    is_present,
                    list_dir,
                    before,
                    themes,
                    app,
                    size,
                    found,
                    after,
                )
            }
        }
}

/// Finds the path of the icon of the application `app` for the size `size`.
///
/// The exact name is tried first, in the active theme, in `hicolor`, in the
/// other themes and among the icons without a theme; then, for a name without a
/// dot, the reverse-DNS names that answer to it.
pub fn find_icon<P: Fn(&FsPath) -> bool, L: Fn(&FsPath) -> Option<Vec<DirEntry>>>(
    cache: &mut IconCache,
    app: &str,
    size: u32,
    is_present: &P,
    list_dir: &L,
) -> (found: Option<FsPath>)
    requires
        disk::probes_paths(*is_present),
        disk::probes_paths(*list_dir),
    ensures
        may_find(
            *is_present,
            *list_dir,
            old(cache)@,
            app@,
            size,
            found.deep_view(),
            final(cache)@,
        ),
        final(cache)@.bases == old(cache)@.bases,
        final(cache)@.active == old(cache)@.active,
        old(cache)@.index is Some ==> final(cache)@ == old(cache)@,
        app@.contains('.') ==> final(cache)@ == old(cache)@,
        old(cache)@.well_formed() ==> final(cache)@.well_formed(),
        found matches Some(file) ==> disk::may_answer(*is_present, file@, true) && {
            ||| icon_dir::named_after(file@, app@)
            ||| !app@.contains('.') && fuzzy::named_after_similar(
                file@,
                final(cache)@.index->0,
                app@,
            )
        },
        forall|disk: Disk| #[trigger]
            disk::reports(*is_present, *list_dir, disk) ==> {
                &&& found.deep_view() == icon_path(disk, old(cache)@, app@, size)
                &&& final(cache)@ == cache_after(disk, old(cache)@, app@, size)
            },
{
    let ghost before = cache@;
    let themes = collect_themes(&cache.base_dirs, cache.active_theme.as_str(), list_dir);
    let exact = find_named(&cache.base_dirs, &themes, app, size, is_present, list_dir);
    proof {
        assert forall|disk: Disk| #[trigger]
            disk::reports(*is_present, *list_dir, disk) implies icon_path(disk, before, app@, size)
            == match exact.deep_view() {
            Some(file) => Some(file),
            None => disk::first_present(disk.present, similar_files(disk, before, app@, size)),
        } by {
            disk::lemma_first_present_add(
                disk.present,
                exact_files(disk, before, app@, size),
                similar_files(disk, before, app@, size),
            );
        }
    }
    if exact.is_some() {
        return exact;
    }
    if contains_char(app, '.') {
        return None;
    }
    let similar = find_fuzzy(
        app,
        &cache.base_dirs,
        &themes,
        size,
        &mut cache.fuzzy_index,
        is_present,
        list_dir,
    );
    assert(cache@ =~= Cache { index: cache@.index, ..before });
    assert(may_find_similar(
        *is_present,
        *list_dir,
        before,
        themes.deep_view(),
        app@,
        size,
        similar.deep_view(),
        cache@,
    ));
    similar
}

} // verus!
