//! Icon themes: where a theme lives, which of its directories serve a
//! requested size, the order in which its icon files are probed, and the
//! collection of the installed themes.
pub mod directories;
pub mod laws;
pub mod parse;

use vstd::prelude::*;
use crate::paths::{
    path_join, path_join_spec, path_with_file_name, path_with_file_name_spec, path_pop,
    path_pop_spec,
};
use crate::bytes::bytes_eq;
use crate::probe::{IconProbe, strings_view};
use crate::theme::directories::{
    Directory, DirectoryView, match_size_spec, size_distance_spec, clamped_distance,
};
use crate::theme::parse::{directories_spec, dirs_view};

verus! {

/// The directory of an icon theme.
#[derive(Debug)]
pub struct ThemePath(pub String);

/// An installed icon theme: its directory and the `index.theme` file that
/// describes it (its own, or that of the first theme of the same name).
#[derive(Debug)]
pub struct Theme {
    pub path: ThemePath,
    pub index: String,
}

/// A theme, as values.
pub struct ThemeView {
    pub path: Seq<char>,
    pub index: Seq<char>,
}

impl View for Theme {
    type V = ThemeView;

    open spec fn view(&self) -> ThemeView {
        ThemeView { path: self.path.0@, index: self.index@ }
    }
}

/// The views of a sequence of string slices.
pub open spec fn strs_view<'a>(s: Seq<&'a str>) -> Seq<Seq<char>> {
    s.map_values(|x: &'a str| x@)
}

/// The names of the directories among `dirs` that hold icons of exactly
/// `size` at `scale`, in order.
pub open spec fn matching_names(dirs: Seq<DirectoryView>, size: int, scale: int) -> Seq<Seq<char>>
    decreases dirs.len(),
{
    if dirs.len() == 0 {
        seq![]
    } else {
        matching_names(dirs.drop_last(), size, scale) + (if match_size_spec(
            dirs.last(),
            size,
            scale,
        ) {
            seq![dirs.last().name]
        } else {
            seq![]
        })
    }
}

/// The absolute value of a distance.
pub open spec fn abs_i16(d: i16) -> i16 {
    if d < 0 {
        (-d) as i16
    } else {
        d
    }
}

/// The directories among `dirs` whose distance to `size` at `scale` an `i16`
/// holds, each with the absolute distance, in order.
pub open spec fn distance_candidates(dirs: Seq<DirectoryView>, size: int, scale: int) -> Seq<
    (Seq<char>, i16),
>
    decreases dirs.len(),
{
    if dirs.len() == 0 {
        seq![]
    } else {
        let d = clamped_distance(size_distance_spec(dirs.last(), size, scale));
        distance_candidates(dirs.drop_last(), size, scale) + (if d < i16::MAX {
            seq![(dirs.last().name, abs_i16(d))]
        } else {
            seq![]
        })
    }
}

/// The pairs are in ascending order of distance.
pub open spec fn sorted_by_distance(s: Seq<(Seq<char>, i16)>) -> bool {
    forall|i: int, j: int| 0 <= i <= j < s.len() ==> s[i].1 <= s[j].1
}

/// Where a search result says a distance goes.
pub open spec fn insert_position(r: Result<usize, usize>) -> int {
    match r {
        Ok(p) => p as int,
        Err(p) => p as int,
    }
}

/// The directories of `dirs` whose distance to `size` at `scale` an `i16`
/// holds, each with its absolute distance, in the order that inserting them
/// one by one, in file order, at the position the binary search gives makes.
pub open spec fn closest_pairs(dirs: Seq<DirectoryView>, size: int, scale: int) -> Seq<
    (Seq<char>, i16),
>
    decreases dirs.len(),
{
    if dirs.len() == 0 {
        seq![]
    } else {
        let prev = closest_pairs(dirs.drop_last(), size, scale);
        let d = clamped_distance(size_distance_spec(dirs.last(), size, scale));
        if d < i16::MAX {
            let a = abs_i16(d);
            let keys = prev.map_values(|p: (Seq<char>, i16)| p.1);
            prev.insert(insert_position(binary_search_result(keys, a)), (dirs.last().name, a))
        } else {
            prev
        }
    }
}

/// The names of `closest_pairs`, nearest first.
pub open spec fn closest_names(dirs: Seq<DirectoryView>, size: int, scale: int) -> Seq<Seq<char>> {
    closest_pairs(dirs, size, scale).map_values(|p: (Seq<char>, i16)| p.0)
}

/// `names` are the directories of `dirs` that an `i16` distance separates from
/// `size` at `scale`, each once, nearest first.
pub open spec fn closest_order(
    names: Seq<Seq<char>>,
    dirs: Seq<DirectoryView>,
    size: int,
    scale: int,
) -> bool {
    exists|ks: Seq<(Seq<char>, i16)>|
        {
            &&& ks.len() == names.len()
            &&& forall|i: int| 0 <= i < ks.len() ==> #[trigger] ks[i].0 == names[i]
            &&& sorted_by_distance(ks)
            &&& ks.to_multiset() == distance_candidates(dirs, size, scale).to_multiset()
        }
}

/// The extensions of icon files, the preferred one first: svg before png
/// where svg is asked for, png before svg otherwise, xmp last.
pub open spec fn extension_order(force_svg: bool) -> Seq<Seq<char>> {
    if force_svg {
        seq![".svg"@, ".png"@, ".xmp"@]
    } else {
        seq![".png"@, ".svg"@, ".xmp"@]
    }
}

/// The path of `file` in each of `dirs` of the theme at `base`, in order.
pub open spec fn files_in_dirs(base: Seq<char>, dirs: Seq<Seq<char>>, file: Seq<char>) -> Seq<
    Seq<char>,
> {
    dirs.map_values(|d: Seq<char>| path_join_spec(path_join_spec(base, d), file))
}

/// The paths where icon `name` is looked for in `dirs` of the theme at
/// `base`: the preferred extension in every directory first, then the next
/// extension in every directory, then the last.
pub open spec fn icon_candidates(
    base: Seq<char>,
    dirs: Seq<Seq<char>>,
    name: Seq<char>,
    force_svg: bool,
) -> Seq<Seq<char>> {
    let e = extension_order(force_svg);
    files_in_dirs(base, dirs, name + e[0]) + files_in_dirs(base, dirs, name + e[1])
        + files_in_dirs(base, dirs, name + e[2])
}

/// The extension tried in round `k` (0, 1 or 2).
fn extension(force_svg: bool, k: usize) -> (r: &'static str)
    requires
        k < 3,
    ensures
        r@ == extension_order(force_svg)[k as int],
{
    if force_svg {
        if k == 0 {
            ".svg"
        } else if k == 1 {
            ".png"
        } else {
            ".xmp"
        }
    } else {
        if k == 0 {
            ".png"
        } else if k == 1 {
            ".svg"
        } else {
            ".xmp"
        }
    }
}

/// What `<[T]>::binary_search_by_key` returns for `d` on a slice whose keys
/// are `keys`, in order.
pub uninterp spec fn binary_search_result(keys: Seq<i16>, d: i16) -> Result<usize, usize>;

/// The distances of a sequence of pairs, in order.
pub open spec fn distances_of<'a>(s: Seq<(&'a str, i16)>) -> Seq<i16> {
    s.map_values(|p: (&'a str, i16)| p.1)
}

/// Calls `<[T]>::binary_search_by_key` with the distance of each pair as the
/// key. Its result depends on the keys and `d` alone. On pairs in ascending
/// order of distance, it returns `Ok` with the position of a pair of
/// distance `d`, or `Err` with the position where a pair of distance `d`
/// keeps the order, as its documentation says.
#[verifier::external_body]
fn search_distance<'a>(sorted: &[(&'a str, i16)], d: i16) -> (r: Result<usize, usize>)
    requires
        forall|i: int, j: int| 0 <= i <= j < sorted@.len() ==> sorted@[i].1 <= sorted@[j].1,
    ensures
        r == binary_search_result(distances_of(sorted@), d),
        r matches Ok(p) ==> p < sorted@.len() && sorted@[p as int].1 == d,
        r matches Err(p) ==> p <= sorted@.len() && (forall|j: int|
            0 <= j < p ==> sorted@[j].1 < d) && (forall|j: int|
            p <= j < sorted@.len() ==> sorted@[j].1 > d),
{
    sorted.binary_search_by_key(&d, |&(_, k)| k)
}

/// The views of a sequence of name-distance pairs.
pub open spec fn named_view<'a>(s: Seq<(&'a str, i16)>) -> Seq<(Seq<char>, i16)> {
    s.map_values(|p: (&'a str, i16)| (p.0@, p.1))
}

impl Theme {
    /// The directory of this theme.
    pub fn path(&self) -> (r: &String)
        ensures
            r@ == self.path.0@,
    {
        &self.path.0
    }

    /// The names of the directories of `file` that hold icons of exactly
    /// `size` at `scale`, in file order.
    pub fn match_size<'a>(&self, file: &'a [u8], size: u16, scale: u16) -> (r: Vec<&'a str>)
        ensures
            strs_view(r@) == matching_names(directories_spec(file@), size as int, scale as int),
    {
        let dirs = self.get_all_directories(file);
        let mut names: Vec<&'a str> = Vec::new();
        let mut i: usize = 0;
        while i < dirs.len()
            invariant
                i <= dirs@.len(),
                dirs_view(dirs@) == directories_spec(file@),
                strs_view(names@) == matching_names(
                    dirs_view(dirs@).take(i as int),
                    size as int,
                    scale as int,
                ),
            decreases dirs@.len() - i,
        {
            let ghost before = names@;
            assert(dirs_view(dirs@).take(i + 1).drop_last() =~= dirs_view(dirs@).take(i as int));
            assert(dirs_view(dirs@).take(i + 1).last() == dirs@[i as int]@);
            if dirs[i].match_size(size, scale) {
                names.push(dirs[i].name);
            }
            assert(strs_view(names@) =~= matching_names(
                dirs_view(dirs@).take(i + 1),
                size as int,
                scale as int,
            ));
            i = i + 1;
        }
        assert(dirs_view(dirs@).take(i as int) =~= dirs_view(dirs@));
        names
    }

    /// The names of the directories of `file` whose distance to `size` at
    /// `scale` an `i16` holds, nearest first.
    pub fn closest_match_size<'a>(&self, file: &'a [u8], size: u16, scale: u16) -> (r: Vec<&'a str>)
        ensures
            strs_view(r@) == closest_names(directories_spec(file@), size as int, scale as int),
            closest_order(strs_view(r@), directories_spec(file@), size as int, scale as int),
    {
        broadcast use vstd::seq_lib::group_to_multiset_ensures;

        let dirs = self.get_all_directories(file);
        let mut sorted: Vec<(&'a str, i16)> = Vec::new();
        let mut i: usize = 0;
        while i < dirs.len()
            invariant
                i <= dirs@.len(),
                dirs_view(dirs@) == directories_spec(file@),
                sorted_by_distance(named_view(sorted@)),
                named_view(sorted@) == closest_pairs(
                    dirs_view(dirs@).take(i as int),
                    size as int,
                    scale as int,
                ),
                named_view(sorted@).to_multiset() == distance_candidates(
                    dirs_view(dirs@).take(i as int),
                    size as int,
                    scale as int,
                ).to_multiset(),
            decreases dirs@.len() - i,
        {
            let ghost before = named_view(sorted@);
            assert(dirs_view(dirs@).take(i + 1).drop_last() =~= dirs_view(dirs@).take(i as int));
            assert(dirs_view(dirs@).take(i + 1).last() == dirs@[i as int]@);
            let distance = dirs[i].directory_size_distance(size, scale);
            if distance < i16::MAX {
                let a: i16 = if distance < 0 {
                    -distance
                } else {
                    distance
                };
                assert forall|x: int, y: int| 0 <= x <= y < sorted@.len() implies sorted@[x].1
                    <= sorted@[y].1 by {
                    assert(named_view(sorted@)[x].1 == sorted@[x].1);
                    assert(named_view(sorted@)[y].1 == sorted@[y].1);
                }
                let found = search_distance(sorted.as_slice(), a);
                assert(distances_of(sorted@) =~= before.map_values(|p: (Seq<char>, i16)| p.1));
                let pos = match found {
                    Ok(p) => p,
                    Err(p) => p,
                };
                sorted.insert(pos, (dirs[i].name, a));
                assert(named_view(sorted@) =~= before.insert(pos as int, (dirs@[i as int].name@, a)));
                proof {
                    vstd::seq_lib::to_multiset_insert(before, pos as int, (dirs@[i as int].name@, a));
                    vstd::seq_lib::to_multiset_build(
                        distance_candidates(dirs_view(dirs@).take(i as int), size as int, scale as int),
                        (dirs@[i as int].name@, a),
                    );
                }
                assert forall|x: int, y: int|
                    0 <= x <= y < named_view(sorted@).len() implies named_view(
                    sorted@,
                )[x].1 <= named_view(sorted@)[y].1 by {
                    if x < pos && y > pos {
                        assert(before[x].1 <= before[y - 1].1);
                    }
                }
                assert(distance_candidates(dirs_view(dirs@).take(i + 1), size as int, scale as int)
                    =~= distance_candidates(
                    dirs_view(dirs@).take(i as int),
                    size as int,
                    scale as int,
                ).push((dirs@[i as int].name@, a)));
            } else {
                assert(distance_candidates(dirs_view(dirs@).take(i + 1), size as int, scale as int)
                    =~= distance_candidates(
                    dirs_view(dirs@).take(i as int),
                    size as int,
                    scale as int,
                ));
            }
            i = i + 1;
        }
        assert(dirs_view(dirs@).take(i as int) =~= dirs_view(dirs@));
        let mut names: Vec<&'a str> = Vec::new();
        let mut k: usize = 0;
        while k < sorted.len()
            invariant
                k <= sorted@.len(),
                names@.len() == k,
                forall|j: int| 0 <= j < k ==> names@[j]@ == #[trigger] sorted@[j].0@,
            decreases sorted@.len() - k,
        {
            names.push(sorted[k].0);
            k = k + 1;
        }
        let ghost ks = named_view(sorted@);
        assert(forall|j: int| 0 <= j < ks.len() ==> #[trigger] ks[j].0 == strs_view(names@)[j]);
        assert(strs_view(names@) =~= ks.map_values(|p: (Seq<char>, i16)| p.0));
        names
    }

    /// Where icon `name` is looked for in `dirs` of this theme: the preferred
    /// extension (svg where `force_svg`, png otherwise) in every directory
    /// before the next extension, so that a scalable svg wins over a raster
    /// png of the same size where it is asked for.
    pub fn pick_icon(&self, dirs: &[&str], name: &str, force_svg: bool) -> (r: IconProbe)
        ensures
            r.position() == 0,
            r.candidates() == icon_candidates(self.path.0@, strs_view(dirs@), name@, force_svg),
    {
        let base = self.path();
        let mut candidates: Vec<String> = Vec::new();
        let mut k: usize = 0;
        while k < 3
            invariant
                k <= 3,
                base@ == self.path.0@,
                strings_view(candidates@) == (if k == 0 {
                    seq![]
                } else if k == 1 {
                    files_in_dirs(base@, strs_view(dirs@), name@ + extension_order(force_svg)[0])
                } else if k == 2 {
                    files_in_dirs(base@, strs_view(dirs@), name@ + extension_order(force_svg)[0])
                        + files_in_dirs(
                        base@,
                        strs_view(dirs@),
                        name@ + extension_order(force_svg)[1],
                    )
                } else {
                    icon_candidates(base@, strs_view(dirs@), name@, force_svg)
                }),
            decreases 3 - k,
        {
            let mut file_name = String::from_str(name);
            file_name.append(extension(force_svg, k));
            let ghost start = strings_view(candidates@);
            let mut j: usize = 0;
            while j < dirs.len()
                invariant
                    j <= dirs@.len(),
                    strings_view(candidates@) == start + files_in_dirs(
                        base@,
                        strs_view(dirs@).take(j as int),
                        file_name@,
                    ),
                decreases dirs@.len() - j,
            {
                let dir_path = path_join(base.as_str(), dirs[j]);
                let path = path_join(dir_path.as_str(), file_name.as_str());
                let ghost prev = candidates@;
                candidates.push(path);
                assert(strs_view(dirs@).take(j + 1) =~= strs_view(dirs@).take(j as int).push(
                    dirs@[j as int]@,
                ));
                assert(files_in_dirs(base@, strs_view(dirs@).take(j + 1), file_name@) =~= files_in_dirs(
                    base@,
                    strs_view(dirs@).take(j as int),
                    file_name@,
                ).push(path_join_spec(path_join_spec(base@, dirs@[j as int]@), file_name@)));
                assert(strings_view(candidates@) =~= strings_view(prev).push(candidates@[j as int + start.len()]@));
                assert(strings_view(candidates@) =~= start + files_in_dirs(
                    base@,
                    strs_view(dirs@).take(j + 1),
                    file_name@,
                ));
                j = j + 1;
            }
            assert(strs_view(dirs@).take(j as int) =~= strs_view(dirs@));
            k = k + 1;
        }
        IconProbe::new(candidates)
    }

    /// The search for icon `name` in the directories of `file` that hold
    /// exactly `size` at `scale`.
    pub fn try_get_icon_exact_size(
        &self,
        file: &[u8],
        name: &str,
        size: u16,
        scale: u16,
        force_svg: bool,
    ) -> (r: IconProbe)
        ensures
            r.position() == 0,
            r.candidates() == icon_candidates(
                self.path.0@,
                matching_names(directories_spec(file@), size as int, scale as int),
                name@,
                force_svg,
            ),
    {
        let dirs = self.match_size(file, size, scale);
        self.pick_icon(dirs.as_slice(), name, force_svg)
    }

    /// The search for icon `name` in the directories of `file`, nearest to
    /// `size` at `scale` first.
    pub fn try_get_icon_closest_size(
        &self,
        file: &[u8],
        name: &str,
        size: u16,
        scale: u16,
        force_svg: bool,
    ) -> (r: IconProbe)
        ensures
            r.position() == 0,
            r.candidates() == icon_candidates(
                self.path.0@,
                closest_names(directories_spec(file@), size as int, scale as int),
                name@,
                force_svg,
            ),
    {
        let dirs = self.closest_match_size(file, size, scale);
        self.pick_icon(dirs.as_slice(), name, force_svg)
    }

    /// The search for icon `name` in this theme, whose `index.theme` holds
    /// `file`: the directories of exactly the requested size first, and where
    /// none of those has the icon, every directory, nearest size first.
    pub fn try_get_icon(
        &self,
        file: &[u8],
        name: &str,
        size: u16,
        scale: u16,
        force_svg: bool,
    ) -> (r: IconProbe)
        ensures
            r.position() == 0,
            r.candidates() == icon_candidates(
                self.path.0@,
                matching_names(directories_spec(file@), size as int, scale as int),
                name@,
                force_svg,
            ) + icon_candidates(
                self.path.0@,
                closest_names(directories_spec(file@), size as int, scale as int),
                name@,
                force_svg,
            ),
    {
        let exact = self.try_get_icon_exact_size(file, name, size, scale, force_svg);
        let closest = self.try_get_icon_closest_size(file, name, size, scale, force_svg);
        exact.chain(closest)
    }
}


/// The paths tried for icon `name` directly in the directory `path` (as in
/// the `pixmaps` directory): `name` joined to `path`, then its file name
/// replaced by `name` with each extension in turn, each replacement made on
/// the path tried before (so that for a `name` holding `/` the paths go one
/// level deeper each time, as `set_file_name` on one path buffer makes them).
pub open spec fn file_candidates(path: Seq<char>, name: Seq<char>, force_svg: bool) -> Seq<Seq<char>> {
    let e = extension_order(force_svg);
    let c0 = path_with_file_name_spec(path_join_spec(path, name), name + e[0]);
    let c1 = path_with_file_name_spec(c0, name + e[1]);
    let c2 = path_with_file_name_spec(c1, name + e[2]);
    seq![c0, c1, c2]
}

/// The path of icon `name` with extension `ext` beside `path` (whose file
/// name is replaced).
fn ext_candidate(path: &str, name: &str, ext: &str) -> (r: String)
    ensures
        r@ == path_with_file_name_spec(path@, name@ + ext@),
{
    let mut file_name = String::from_str(name);
    file_name.append(ext);
    path_with_file_name(path, file_name.as_str())
}

/// The search for icon `name` directly in the directory `path`, with each
/// extension in turn, the preferred one first.
pub fn try_build_icon_path(path: &str, name: &str, force_svg: bool) -> (r: IconProbe)
    ensures
        r.position() == 0,
        r.candidates() == file_candidates(path@, name@, force_svg),
{
    let joined = path_join(path, name);
    let c0 = ext_candidate(joined.as_str(), name, extension(force_svg, 0));
    let c1 = ext_candidate(c0.as_str(), name, extension(force_svg, 1));
    let c2 = ext_candidate(c1.as_str(), name, extension(force_svg, 2));
    let mut candidates: Vec<String> = Vec::new();
    candidates.push(c0);
    candidates.push(c1);
    candidates.push(c2);
    assert(strings_view(candidates@) =~= file_candidates(path@, name@, force_svg));
    IconProbe::new(candidates)
}

/// The theme that a directory at `path` holds: none unless it is a directory
/// and either has an `index.theme` of its own or `index` (that of an earlier
/// theme of the same name) is given; `index` wins over its own file.
pub open spec fn from_path_spec(
    path: Seq<char>,
    is_dir: bool,
    local_index_exists: bool,
    index: Option<Seq<char>>,
) -> Option<ThemeView> {
    if !(local_index_exists || index is Some) || !is_dir {
        None
    } else {
        let local = path_join_spec(path, "index.theme"@);
        Some(
            ThemeView {
                path: path_pop_spec(local),
                index: match index {
                    Some(i) => i,
                    None => local,
                },
            },
        )
    }
}

/// The view of an optional string.
pub open spec fn opt_view(o: Option<&String>) -> Option<Seq<char>> {
    match o {
        Some(s) => Some(s@),
        None => None,
    }
}

impl Theme {
    /// The theme in the directory `path`, given whether it is a directory and
    /// whether its `index.theme` exists, and the index of an earlier theme of
    /// the same name, if any.
    pub fn from_path(path: &str, is_dir: bool, local_index_exists: bool, index: Option<&String>) -> (r:
        Option<Theme>)
        ensures
            r matches Some(t) ==> from_path_spec(path@, is_dir, local_index_exists, opt_view(index))
                == Some(t@),
            r is None ==> from_path_spec(path@, is_dir, local_index_exists, opt_view(index))
                is None,
    {
        let has_index = local_index_exists || index.is_some();
        if !has_index || !is_dir {
            return None;
        }
        let local = path_join(path, "index.theme");
        let theme_path = path_pop(local.as_str());
        let index = match index {
            Some(i) => i.clone(),
            None => local,
        };
        Some(Theme { path: ThemePath(theme_path), index })
    }
}

/// An entry of a base directory of icon themes, with what the file system
/// says of it: its file name, its path, whether it is a directory, and
/// whether it holds an `index.theme` file.
pub struct ThemeDirEntry {
    pub name: Vec<u8>,
    pub path: String,
    pub is_dir: bool,
    pub has_index: bool,
}

/// An entry, as values.
pub struct EntryView {
    pub name: Seq<u8>,
    pub path: Seq<char>,
    pub is_dir: bool,
    pub has_index: bool,
}

impl View for ThemeDirEntry {
    type V = EntryView;

    open spec fn view(&self) -> EntryView {
        EntryView {
            name: self.name@,
            path: self.path@,
            is_dir: self.is_dir,
            has_index: self.has_index,
        }
    }
}

/// The views of a sequence of entries.
pub open spec fn entries_view(s: Seq<ThemeDirEntry>) -> Seq<EntryView> {
    s.map_values(|e: ThemeDirEntry| e@)
}

/// The index recorded first for `name` in `found`.
pub open spec fn lookup_index(found: Seq<(Seq<u8>, Seq<char>)>, name: Seq<u8>) -> Option<Seq<char>>
    decreases found.len(),
{
    if found.len() == 0 {
        None
    } else if found[0].0 == name {
        Some(found[0].1)
    } else {
        lookup_index(found.drop_first(), name)
    }
}

/// What the first scan over the entries has gathered: the index of the
/// first theme found under each name, the themes in the order they were
/// found, and the directories to look at again.
pub struct ScanState {
    pub found: Seq<(Seq<u8>, Seq<char>)>,
    pub themes: Seq<(Seq<u8>, ThemeView)>,
    pub revisit: Seq<EntryView>,
}

/// The first scan: each entry that holds a theme adds it (and the first theme
/// of a name records its index for the later ones); a directory that holds
/// none is kept to be looked at again.
pub open spec fn first_scan(entries: Seq<EntryView>) -> ScanState
    decreases entries.len(),
{
    if entries.len() == 0 {
        ScanState { found: seq![], themes: seq![], revisit: seq![] }
    } else {
        let st = first_scan(entries.drop_last());
        let e = entries.last();
        let fallback = lookup_index(st.found, e.name);
        match from_path_spec(e.path, e.is_dir, e.has_index, fallback) {
            Some(t) => ScanState {
                found: if fallback is None {
                    st.found.push((e.name, t.index))
                } else {
                    st.found
                },
                themes: st.themes.push((e.name, t)),
                revisit: st.revisit,
            },
            None => if e.is_dir {
                ScanState { revisit: st.revisit.push(e), ..st }
            } else {
                st
            },
        }
    }
}

/// The second scan: each directory kept by the first scan holds a theme
/// where an index of its name was found meanwhile.
pub open spec fn second_scan(revisit: Seq<EntryView>, found: Seq<(Seq<u8>, Seq<char>)>) -> Seq<
    (Seq<u8>, ThemeView),
>
    decreases revisit.len(),
{
    if revisit.len() == 0 {
        seq![]
    } else {
        let e = revisit.last();
        second_scan(revisit.drop_last(), found) + match from_path_spec(
            e.path,
            e.is_dir,
            e.has_index,
            lookup_index(found, e.name),
        ) {
            Some(t) => seq![(e.name, t)],
            None => seq![],
        }
    }
}

/// Every theme found among `entries`, with its name, in the order found.
pub open spec fn themes_found(entries: Seq<EntryView>) -> Seq<(Seq<u8>, ThemeView)> {
    let st = first_scan(entries);
    st.themes + second_scan(st.revisit, st.found)
}

/// The position of `name` among the names of `table`.
pub open spec fn find_name(table: Seq<(Seq<u8>, Seq<ThemeView>)>, name: Seq<u8>) -> Option<int>
    decreases table.len(),
{
    if table.len() == 0 {
        None
    } else if table[0].0 == name {
        Some(0)
    } else {
        match find_name(table.drop_first(), name) {
            Some(i) => Some(i + 1),
            None => None,
        }
    }
}

/// `table` with `theme` added to the themes of `name` (a new last entry
/// where `name` is new).
pub open spec fn add_theme(
    table: Seq<(Seq<u8>, Seq<ThemeView>)>,
    name: Seq<u8>,
    theme: ThemeView,
) -> Seq<(Seq<u8>, Seq<ThemeView>)> {
    match find_name(table, name) {
        Some(j) => table.update(j, (name, table[j].1.push(theme))),
        None => table.push((name, seq![theme])),
    }
}

/// The themes grouped by name: names in the order first found, each with its
/// themes in the order found.
pub open spec fn group_themes(flat: Seq<(Seq<u8>, ThemeView)>) -> Seq<(Seq<u8>, Seq<ThemeView>)>
    decreases flat.len(),
{
    if flat.len() == 0 {
        seq![]
    } else {
        add_theme(group_themes(flat.drop_last()), flat.last().0, flat.last().1)
    }
}

/// The views of a table of themes.
pub open spec fn table_view(t: Seq<(Vec<u8>, Vec<Theme>)>) -> Seq<(Seq<u8>, Seq<ThemeView>)> {
    t.map_values(|e: (Vec<u8>, Vec<Theme>)| (e.0@, e.1@.map_values(|x: Theme| x@)))
}

/// The found-index list, as values.
pub open spec fn found_view(t: Seq<(Vec<u8>, String)>) -> Seq<(Seq<u8>, Seq<char>)> {
    t.map_values(|e: (Vec<u8>, String)| (e.0@, e.1@))
}

proof fn lemma_find_name(table: Seq<(Seq<u8>, Seq<ThemeView>)>, name: Seq<u8>)
    ensures
        find_name(table, name) matches Some(j) ==> 0 <= j < table.len() && table[j].0 == name
            && forall|k: int| 0 <= k < j ==> table[k].0 != name,
        find_name(table, name) is None ==> forall|k: int| 0 <= k < table.len() ==> table[k].0 != name,
    decreases table.len(),
{
    if table.len() > 0 && table[0].0 != name {
        lemma_find_name(table.drop_first(), name);
        assert forall|k: int| 1 <= k < table.len() implies table[k] == table.drop_first()[k - 1] by {}
    }
}

proof fn lemma_lookup_index(found: Seq<(Seq<u8>, Seq<char>)>, name: Seq<u8>)
    ensures
        lookup_index(found, name) matches Some(x) ==> exists|j: int|
            0 <= j < found.len() && found[j] == (name, x) && forall|k: int|
                0 <= k < j ==> #[trigger] found[k].0 != name,
        lookup_index(found, name) is None ==> forall|k: int|
            0 <= k < found.len() ==> #[trigger] found[k].0 != name,
    decreases found.len(),
{
    if found.len() > 0 && found[0].0 != name {
        lemma_lookup_index(found.drop_first(), name);
        assert forall|k: int| 1 <= k < found.len() implies found[k] == found.drop_first()[k - 1] by {}
        if let Some(x) = lookup_index(found, name) {
            let j = choose|j: int|
                0 <= j < found.drop_first().len() && found.drop_first()[j] == (name, x) && forall|
                    k: int,
                | 0 <= k < j ==> #[trigger] found.drop_first()[k].0 != name;
            assert(found[j + 1] == (name, x));
            assert forall|k: int| 0 <= k < j + 1 implies #[trigger] found[k].0 != name by {
                if k > 0 {
                    assert(found[k] == found.drop_first()[k - 1]);
                }
            }
        }
    }
}

/// The index recorded for `name` in `found`, as the exec code finds it.
fn find_index<'b>(found: &'b Vec<(Vec<u8>, String)>, name: &[u8]) -> (r: Option<&'b String>)
    ensures
        opt_view(r) == lookup_index(found_view(found@), name@),
{
    let mut i: usize = 0;
    while i < found.len()
        invariant
            i <= found@.len(),
            forall|k: int| 0 <= k < i ==> found@[k].0@ != name@,
        decreases found@.len() - i,
    {
        if bytes_eq(found[i].0.as_slice(), name) {
            proof {
                let fv = found_view(found@);
                lemma_lookup_index(fv, name@);
                assert(fv[i as int] == (found@[i as int].0@, found@[i as int].1@));
                assert(fv[i as int].0 == name@);
                match lookup_index(fv, name@) {
                    Some(x) => {
                        let j = choose|j: int|
                            0 <= j < fv.len() && fv[j] == (name@, x) && forall|k: int|
                                0 <= k < j ==> #[trigger] fv[k].0 != name@;
                        if j < i {
                            assert(fv[j].0 == found@[j].0@);
                        }
                        if j > i {
                            assert(fv[i as int].0 != name@);
                        }
                        assert(j == i);
                    },
                    None => {
                        assert(fv[i as int].0 != name@);
                    },
                }
            }
            return Some(&found[i].1);
        }
        i = i + 1;
    }
    proof {
        let fv = found_view(found@);
        lemma_lookup_index(fv, name@);
        if let Some(x) = lookup_index(fv, name@) {
            let j = choose|j: int|
                0 <= j < fv.len() && fv[j] == (name@, x) && forall|k: int|
                    0 <= k < j ==> #[trigger] fv[k].0 != name@;
            assert(fv[j].0 == found@[j].0@);
        }
    }
    None
}

/// `table` with `theme` added under `name`, as `add_theme` says.
fn add_to_table(table: &mut Vec<(Vec<u8>, Vec<Theme>)>, name: &[u8], theme: Theme)
    ensures
        table_view(final(table)@) == add_theme(table_view(old(table)@), name@, theme@),
{
    let ghost tv = table_view(table@);
    let mut i: usize = 0;
    while i < table.len()
        invariant
            i <= table@.len(),
            tv == table_view(table@),
            tv == table_view(old(table)@),
            forall|k: int| 0 <= k < i ==> table@[k].0@ != name@,
        decreases table@.len() - i,
    {
        if bytes_eq(table[i].0.as_slice(), name) {
            proof {
                lemma_find_name(tv, name@);
                assert(tv[i as int].0 == name@);
                match find_name(tv, name@) {
                    Some(j) => {
                        if j < i {
                            assert(tv[j].0 == table@[j].0@);
                        }
                        assert(j == i);
                    },
                    None => {
                        assert(tv[i as int].0 != name@);
                    },
                }
            }
            let (key, mut group) = table.remove(i);
            let ghost old_group = group@;
            group.push(theme);
            table.insert(i, (key, group));
            assert(table_view(table@) =~= add_theme(tv, name@, theme@)) by {
                assert(group@.map_values(|x: Theme| x@) =~= old_group.map_values(|x: Theme| x@).push(
                    theme@,
                ));
            }
            return;
        }
        i = i + 1;
    }
    proof {
        lemma_find_name(tv, name@);
        match find_name(tv, name@) {
            Some(j) => {
                assert(tv[j].0 == table@[j].0@);
            },
            None => {},
        }
    }
    let key = vstd::slice::slice_to_vec(name);
    let mut group: Vec<Theme> = Vec::new();
    group.push(theme);
    table.push((key, group));
    assert(table_view(table@) =~= add_theme(tv, name@, theme@)) by {
        assert(group@.map_values(|x: Theme| x@) =~= seq![theme@]);
    }
}


/// The entries at positions `idx`, as values.
pub open spec fn picked_view(idx: Seq<usize>, entries: Seq<EntryView>) -> Seq<EntryView> {
    idx.map_values(|k: usize| entries[k as int])
}

/// Every icon theme among `entries` (the entries of the base directories of
/// icon themes, in the order they are listed), grouped by name, each name
/// with its themes in the order found. A theme directory without an
/// `index.theme` of its own uses that of the first theme found under the
/// same name, also where that one is listed after it.
pub fn get_all_themes(entries: &Vec<ThemeDirEntry>) -> (r: Vec<(Vec<u8>, Vec<Theme>)>)
    ensures
        table_view(r@) == group_themes(themes_found(entries_view(entries@))),
{
    let ghost ev = entries_view(entries@);
    let mut table: Vec<(Vec<u8>, Vec<Theme>)> = Vec::new();
    let mut found: Vec<(Vec<u8>, String)> = Vec::new();
    let mut revisit: Vec<usize> = Vec::new();
    let mut i: usize = 0;
    assert(ev.take(0) =~= Seq::<EntryView>::empty());
    while i < entries.len()
        invariant
            i <= entries@.len(),
            ev == entries_view(entries@),
            found_view(found@) == first_scan(ev.take(i as int)).found,
            table_view(table@) == group_themes(first_scan(ev.take(i as int)).themes),
            forall|k: int| 0 <= k < revisit@.len() ==> revisit@[k] < entries@.len(),
            picked_view(revisit@, ev) == first_scan(ev.take(i as int)).revisit,
        decreases entries@.len() - i,
    {
        let ghost st = first_scan(ev.take(i as int));
        assert(ev.take(i + 1).drop_last() =~= ev.take(i as int));
        assert(ev.take(i + 1).last() == entries@[i as int]@);
        let entry = &entries[i];
        let fallback = find_index(&found, entry.name.as_slice());
        let had_fallback = fallback.is_some();
        let theme = Theme::from_path(entry.path.as_str(), entry.is_dir, entry.has_index, fallback);
        match theme {
            Some(t) => {
                if !had_fallback {
                    let ghost before = found@;
                    found.push((vstd::slice::slice_to_vec(entry.name.as_slice()), t.index.clone()));
                    assert(found_view(found@) =~= found_view(before).push(
                        (entry.name@, t.index@),
                    ));
                }
                let ghost themes = st.themes;
                let ghost name = entry.name@;
                let ghost tv = t@;
                add_to_table(&mut table, entry.name.as_slice(), t);
                assert(themes.push((name, tv)).drop_last() =~= themes);
            },
            None => {
                if entry.is_dir {
                    let ghost before = revisit@;
                    revisit.push(i);
                    assert(picked_view(revisit@, ev) =~= picked_view(before, ev).push(ev[i as int]));
                }
            },
        }
        i = i + 1;
    }
    assert(ev.take(i as int) =~= ev);
    let ghost st = first_scan(ev);
    let mut k: usize = 0;
    assert(picked_view(revisit@, ev).take(0) =~= Seq::<EntryView>::empty());
    assert(st.themes + second_scan(Seq::<EntryView>::empty(), st.found) =~= st.themes);
    while k < revisit.len()
        invariant
            k <= revisit@.len(),
            ev == entries_view(entries@),
            st == first_scan(ev),
            found_view(found@) == st.found,
            forall|j: int| 0 <= j < revisit@.len() ==> revisit@[j] < entries@.len(),
            picked_view(revisit@, ev) == st.revisit,
            table_view(table@) == group_themes(
                st.themes + second_scan(picked_view(revisit@, ev).take(k as int), st.found),
            ),
        decreases revisit@.len() - k,
    {
        let ghost pv = picked_view(revisit@, ev);
        let ghost flat = st.themes + second_scan(pv.take(k as int), st.found);
        assert(pv.take(k + 1).drop_last() =~= pv.take(k as int));
        assert(pv.take(k + 1).last() == entries@[revisit@[k as int] as int]@);
        let entry = &entries[revisit[k]];
        let fallback = find_index(&found, entry.name.as_slice());
        let theme = Theme::from_path(entry.path.as_str(), entry.is_dir, entry.has_index, fallback);
        match theme {
            Some(t) => {
                let ghost name = entry.name@;
                let ghost tv = t@;
                add_to_table(&mut table, entry.name.as_slice(), t);
                assert(st.themes + second_scan(pv.take(k + 1), st.found) =~= flat.push((name, tv)));
                assert(flat.push((name, tv)).drop_last() =~= flat);
            },
            None => {
                assert(st.themes + second_scan(pv.take(k + 1), st.found) =~= flat);
            },
        }
        k = k + 1;
    }
    assert(picked_view(revisit@, ev).take(k as int) =~= picked_view(revisit@, ev));
    table
}


proof fn lemma_find_name_unique(table: Seq<(Seq<u8>, Seq<ThemeView>)>, name: Seq<u8>, j: int)
    requires
        0 <= j < table.len(),
        table[j].0 == name,
        forall|k: int| 0 <= k < j ==> table[k].0 != name,
    ensures
        find_name(table, name) == Some(j),
{
    lemma_find_name(table, name);
    match find_name(table, name) {
        Some(i) => {
            assert(i == j);
        },
        None => {
            assert(table[j].0 != name);
        },
    }
}

proof fn lemma_find_name_none(table: Seq<(Seq<u8>, Seq<ThemeView>)>, name: Seq<u8>)
    requires
        forall|k: int| 0 <= k < table.len() ==> table[k].0 != name,
    ensures
        find_name(table, name) is None,
{
    lemma_find_name(table, name);
}

/// The themes of `flat` that carry `name`, in order.
pub open spec fn themes_named(flat: Seq<(Seq<u8>, ThemeView)>, name: Seq<u8>) -> Seq<ThemeView>
    decreases flat.len(),
{
    if flat.len() == 0 {
        seq![]
    } else {
        themes_named(flat.drop_last(), name) + (if flat.last().0 == name {
            seq![flat.last().1]
        } else {
            seq![]
        })
    }
}

/// The table of themes holds each name once, and under each name exactly
/// the themes found with that name, in the order found; a name that no theme
/// carries is not in it.
pub proof fn law_theme_table(flat: Seq<(Seq<u8>, ThemeView)>, name: Seq<u8>)
    ensures
        forall|i: int, j: int|
            0 <= i < j < group_themes(flat).len() ==> group_themes(flat)[i].0 != group_themes(
                flat,
            )[j].0,
        find_name(group_themes(flat), name) matches Some(j) ==> group_themes(flat)[j].1
            == themes_named(flat, name) && themes_named(flat, name).len() > 0,
        find_name(group_themes(flat), name) is None ==> themes_named(flat, name).len() == 0,
    decreases flat.len(),
{
    if flat.len() > 0 {
        let prev = flat.drop_last();
        let (x, t) = flat.last();
        law_theme_table(prev, name);
        law_theme_table(prev, x);
        let g = group_themes(prev);
        let g2 = group_themes(flat);
        lemma_find_name(g, x);
        lemma_find_name(g, name);
        match find_name(g, x) {
            Some(jx) => {
                assert(g2 == g.update(jx, (x, g[jx].1.push(t))));
                assert(forall|k: int| 0 <= k < g.len() ==> #[trigger] g2[k].0 == g[k].0);
                match find_name(g, name) {
                    Some(j) => {
                        lemma_find_name_unique(g2, name, j);
                        if name == x {
                            assert(j == jx);
                        }
                    },
                    None => {
                        lemma_find_name_none(g2, name);
                    },
                }
            },
            None => {
                assert(g2 == g.push((x, seq![t])));
                assert(forall|k: int| 0 <= k < g.len() ==> #[trigger] g2[k] == g[k]);
                match find_name(g, name) {
                    Some(j) => {
                        lemma_find_name_unique(g2, name, j);
                    },
                    None => {
                        if name == x {
                            lemma_find_name_unique(g2, name, g.len() as int);
                            assert(themes_named(prev, name) =~= Seq::<ThemeView>::empty());
                            assert(themes_named(flat, name) =~= seq![t]);
                        } else {
                            lemma_find_name_none(g2, name);
                        }
                    },
                }
            },
        }
    }
}


/// An icon candidate of a theme is the theme directory, the icon directory
/// and the file name joined by `/`, where the theme directory does not end
/// with `/` and the icon directory is a relative path that does not end with
/// one.
pub proof fn law_candidate_path(base: Seq<char>, dir: Seq<char>, file: Seq<char>)
    requires
        base.len() > 0,
        base.last() != '/',
        dir.len() > 0,
        dir[0] != '/',
        dir.last() != '/',
        file.len() > 0,
        file[0] != '/',
    ensures
        path_join_spec(path_join_spec(base, dir), file) == base + seq!['/'] + dir + seq!['/']
            + file,
{
    let d = base + seq!['/'] + dir;
    assert(path_join_spec(base, dir) == d);
    assert(d.last() == dir.last());
}

} // verus!
