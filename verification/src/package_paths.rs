//! The files of packages, under the paths that they are found at.

use crate::canonicalize::{
    asks_for_unread_links, comes_to, found_free_of_links, found_in_one_place, honest,
    known_directories_change_nothing, known_dirs, known_links, leads_to, never_stuck, on_the_way,
    outcome, parent_walk, plain_dirs, plain_targets, reading_more_changes_nothing, walk_parent,
    walks_fail_for_a_reason, CanonicalizeError, DirCache, LinkMap, LinkRequest, Links, Step, Walk,
};
use crate::components::{FileInfo, FileMap};
use crate::normalize::plain;
use crate::path::{absolute, joined, path_components, well_shaped, Comp};
use crate::path_map::PathMap;
use crate::rpm::{Package, RpmFileInfo};
use vstd::prelude::*;

verus! {

/// Where the walks to several files end, one after the other.
pub enum Walks<T> {
    /// Each file is found.
    Done(T),
    /// The walk to the file `at` ends otherwise.
    Stopped {
        /// What is found of the files before it.
        done: T,
        /// The path of the file.
        at: Seq<Comp>,
        /// Where the walk ends.
        end: Walk,
    },
}

/// What is found of the files that the walks have come to.
pub open spec fn found<T>(walks: Walks<T>) -> T {
    match walks {
        Walks::Done(places) => places,
        Walks::Stopped { done, .. } => done,
    }
}

/// Whether the walks stop at that file with that end.
pub open spec fn stopped_at<T>(walks: Walks<T>, at: Seq<Comp>, end: Walk) -> bool {
    walks is Stopped && walks->at == at && walks->end == end
}

/// Where the walks to the files of a package end.
pub open spec fn files_walk(
    links: Links,
    dirs: Map<Seq<Comp>, Seq<Comp>>,
    paths: Seq<Seq<Comp>>,
) -> (Walks<Seq<Seq<Comp>>>, Map<Seq<Comp>, Seq<Comp>>)
    decreases paths.len(),
{
    if paths.len() == 0 {
        (Walks::Done(seq![]), dirs)
    } else {
        let (front, dirs) = files_walk(links, dirs, paths.drop_last());
        match front {
            Walks::Done(places) => {
                let (end, dirs) = parent_walk(links, dirs, paths.last());
                match end {
                    Walk::Done(place) => (Walks::Done(places.push(place)), dirs),
                    _ => (Walks::Stopped { done: places, at: paths.last(), end }, dirs),
                }
            },
            _ => (front, dirs),
        }
    }
}

/// Where the walks to the files of several packages end.
pub open spec fn packages_walk(
    links: Links,
    dirs: Map<Seq<Comp>, Seq<Comp>>,
    packages: Seq<Seq<Seq<Comp>>>,
) -> (Walks<Seq<Seq<Seq<Comp>>>>, Map<Seq<Comp>, Seq<Comp>>)
    decreases packages.len(),
{
    if packages.len() == 0 {
        (Walks::Done(seq![]), dirs)
    } else {
        let (front, dirs) = packages_walk(links, dirs, packages.drop_last());
        match front {
            Walks::Done(places) => {
                let (last, dirs) = files_walk(links, dirs, packages.last());
                match last {
                    Walks::Done(list) => (Walks::Done(places.push(list)), dirs),
                    Walks::Stopped { done, at, end } => (
                        Walks::Stopped { done: places.push(done), at, end },
                        dirs,
                    ),
                }
            },
            _ => (front, dirs),
        }
    }
}

/// The paths of some entries.
pub open spec fn entry_paths(entries: Seq<(Seq<char>, RpmFileInfo)>) -> Seq<Seq<Comp>> {
    entries.map_values(|e: (Seq<char>, RpmFileInfo)| path_components(e.0))
}

/// The paths of the files of some packages.
pub open spec fn package_paths(packages: Seq<Package>) -> Seq<Seq<Seq<Comp>>> {
    packages.map_values(|package: Package| entry_paths(package.files@))
}

/// The walks to the files of the packages, with nothing known beforehand.
pub open spec fn walk_to_all(
    files: Map<Seq<Comp>, FileInfo>,
    read: Map<Seq<Comp>, Option<String>>,
    packages: Seq<Package>,
) -> Walks<Seq<Seq<Seq<Comp>>>> {
    packages_walk(known_links(files, read), Map::empty(), package_paths(packages)).0
}

/// What the entries tell of the places that their files are found at. Of entries with one
/// place the last counts.
pub open spec fn moved(
    entries: Seq<(Seq<char>, RpmFileInfo)>,
    places: Seq<Seq<Comp>>,
    n: int,
) -> Map<Seq<Comp>, RpmFileInfo>
    decreases n,
{
    if n <= 0 {
        Map::empty()
    } else {
        moved(entries, places, n - 1).insert(places[n - 1], entries[n - 1].1)
    }
}

/// The path of a file of a package cannot be resolved.
#[derive(Debug)]
pub struct PackagePathError {
    /// The path of the file.
    pub path: String,
    /// Why its directory is not found.
    pub error: CanonicalizeError,
}

/// What can be said of packages with the links that have been read.
#[derive(Debug)]
pub enum PackageStep {
    /// Every file is found.
    Done,
    /// On the way to a file, the target of a link has to be read first.
    ReadLink {
        /// The path of the file.
        path: String,
        /// The link.
        link: LinkRequest,
    },
}

/// Whether a result tells where the walks end; `None` tells that one is stuck.
pub open spec fn tells_end<T>(
    r: Option<Result<PackageStep, PackagePathError>>,
    walks: Walks<T>,
) -> bool {
    match r {
        None => walks matches Walks::Stopped { end, .. } && end is Stuck,
        Some(Ok(PackageStep::Done)) => walks is Done,
        Some(Ok(PackageStep::ReadLink { path, link })) => {
            &&& link.wf()
            &&& stopped_at(
                walks,
                path_components(path@),
                Walk::Unread(path_components(link.path@)),
            )
        },
        Some(Err(e)) => stopped_at(walks, path_components(e.path@), outcome(Err(e.error))),
    }
}

/// The files of a package under the paths that they are found at, as far as the walks come.
fn walk_files(
    files: &FileMap,
    links: &LinkMap,
    entries: &PathMap<RpmFileInfo>,
    cache: &mut DirCache,
) -> (r: (PathMap<RpmFileInfo>, Option<Result<PackageStep, PackagePathError>>))
    requires
        files.wf(),
        links.wf(),
        entries.wf(),
        old(cache).wf(),
    ensures
        final(cache).wf(),
        r.0.wf(),
        ({
            let (walks, dirs) = files_walk(
                known_links(files.map(), links.map()),
                known_dirs(old(cache).map()),
                entry_paths(entries@),
            );
            &&& known_dirs(final(cache).map()) == dirs
            &&& tells_end(r.1, walks)
            &&& r.0.map() == moved(entries@, found(walks), found(walks).len() as int)
        }),
{
    let ghost known = known_links(files.map(), links.map());
    let ghost dirs = known_dirs(cache.map());
    let ghost paths = entry_paths(entries@);
    let mut map: PathMap<RpmFileInfo> = PathMap::new();
    let mut i: usize = 0;
    assert(paths.take(0) =~= seq![]);
    while i < entries.len()
        invariant
            i <= entries@.len(),
            files.wf(),
            links.wf(),
            cache.wf(),
            map.wf(),
            known == known_links(files.map(), links.map()),
            dirs == known_dirs(old(cache).map()),
            paths == entry_paths(entries@),
            ({
                let (walks, after) = files_walk(known, dirs, paths.take(i as int));
                &&& known_dirs(cache.map()) == after
                &&& walks is Done
                &&& map.map() == moved(entries@, walks->Done_0, i as int)
                &&& walks->Done_0.len() == i
            }),
        decreases entries@.len() - i,
    {
        let path = entries.path_at(i);
        let ghost before = files_walk(known, dirs, paths.take(i as int)).0->Done_0;
        proof {
            assert(paths.take(i + 1).drop_last() =~= paths.take(i as int));
            assert(paths.take(i + 1).last() == path_components(path@));
        }
        let canonical = match walk_parent(files, links, path, cache) {
            None => {
                proof {
                    lemma_files_stop(known, dirs, paths, i + 1);
                }
                return (map, None);
            },
            Some(Ok(Step::Done(canonical))) => canonical,
            Some(Ok(Step::ReadLink(link))) => {
                proof {
                    lemma_files_stop(known, dirs, paths, i + 1);
                }
                return (map, Some(Ok(PackageStep::ReadLink { path: path.to_owned(), link })));
            },
            Some(Err(error)) => {
                proof {
                    lemma_files_stop(known, dirs, paths, i + 1);
                }
                return (map, Some(Err(PackagePathError { path: path.to_owned(), error })));
            },
        };
        proof {
            let after = before.push(path_components(canonical@));
            lemma_moved_prefix(entries@, before, after, i as int);
        }
        map.insert(canonical, *entries.value_at(i));
        i += 1;
    }
    assert(paths.take(i as int) =~= paths);
    (map, Some(Ok(PackageStep::Done)))
}

proof fn lemma_files_stop(
    links: Links,
    dirs: Map<Seq<Comp>, Seq<Comp>>,
    paths: Seq<Seq<Comp>>,
    n: int,
)
    requires
        0 <= n <= paths.len(),
        files_walk(links, dirs, paths.take(n)).0 is Stopped,
    ensures
        files_walk(links, dirs, paths) == files_walk(links, dirs, paths.take(n)),
    decreases paths.len() - n,
{
    if n == paths.len() {
        assert(paths.take(n) =~= paths);
    } else {
        assert(paths.take(n + 1).drop_last() =~= paths.take(n));
        lemma_files_stop(links, dirs, paths, n + 1);
    }
}

proof fn lemma_moved_prefix(
    entries: Seq<(Seq<char>, RpmFileInfo)>,
    places: Seq<Seq<Comp>>,
    more: Seq<Seq<Comp>>,
    n: int,
)
    requires
        n <= places.len(),
        places.is_prefix_of(more),
    ensures
        moved(entries, places, n) == moved(entries, more, n),
    decreases n,
{
    if n > 0 {
        lemma_moved_prefix(entries, places, more, n - 1);
    }
}

/// The files of the packages under the paths that they are found at, as far as the walks come.
fn walk_packages(files: &FileMap, links: &LinkMap, packages: &Vec<Package>) -> (r: (
    Vec<PathMap<RpmFileInfo>>,
    Option<Result<PackageStep, PackagePathError>>,
))
    requires
        files.wf(),
        links.wf(),
        forall|i: int| 0 <= i < packages@.len() ==> (#[trigger] packages@[i]).files.wf(),
    ensures
        ({
            let walks = walk_to_all(files.map(), links.map(), packages@);
            &&& tells_end(r.1, walks)
            &&& maps_found(r.0@, packages@, found(walks))
        }),
{
    let ghost known = known_links(files.map(), links.map());
    let ghost none = Map::<Seq<Comp>, Seq<Comp>>::empty();
    let ghost paths = package_paths(packages@);
    let mut cache: DirCache = PathMap::new();
    let mut maps: Vec<PathMap<RpmFileInfo>> = Vec::new();
    let mut i: usize = 0;
    assert(paths.take(0) =~= seq![]);
    assert(known_dirs(cache.map()) =~= none);
    while i < packages.len()
        invariant
            i <= packages@.len(),
            files.wf(),
            links.wf(),
            forall|k: int| 0 <= k < packages@.len() ==> (#[trigger] packages@[k]).files.wf(),
            cache.wf(),
            known == known_links(files.map(), links.map()),
            none == Map::<Seq<Comp>, Seq<Comp>>::empty(),
            paths == package_paths(packages@),
            maps@.len() == i,
            ({
                let (walks, after) = packages_walk(known, none, paths.take(i as int));
                &&& known_dirs(cache.map()) == after
                &&& walks is Done
                &&& maps_found(maps@, packages@, walks->Done_0)
            }),
        decreases packages@.len() - i,
    {
        proof {
            assert(paths.take(i + 1).drop_last() =~= paths.take(i as int));
            assert(paths.take(i + 1).last() == entry_paths(packages@[i as int].files@));
        }
        let (map, end) = walk_files(files, links, &packages[i].files, &mut cache);
        maps.push(map);
        match end {
            Some(Ok(PackageStep::Done)) => {},
            end => {
                proof {
                    lemma_packages_stop(known, none, paths, i + 1);
                }
                return (maps, end);
            },
        }
        i += 1;
    }
    assert(paths.take(i as int) =~= paths);
    (maps, Some(Ok(PackageStep::Done)))
}

/// Whether the maps hold the files of the first packages under the places that they are found
/// at.
spec fn maps_found(
    maps: Seq<PathMap<RpmFileInfo>>,
    packages: Seq<Package>,
    places: Seq<Seq<Seq<Comp>>>,
) -> bool {
    &&& maps.len() == places.len() <= packages.len()
    &&& forall|k: int|
        0 <= k < maps.len() ==> {
            &&& (#[trigger] maps[k]).wf()
            &&& maps[k].map() == moved(packages[k].files@, places[k], places[k].len() as int)
        }
}

proof fn lemma_packages_stop(
    links: Links,
    dirs: Map<Seq<Comp>, Seq<Comp>>,
    packages: Seq<Seq<Seq<Comp>>>,
    n: int,
)
    requires
        0 <= n <= packages.len(),
        packages_walk(links, dirs, packages.take(n)).0 is Stopped,
    ensures
        packages_walk(links, dirs, packages) == packages_walk(links, dirs, packages.take(n)),
    decreases packages.len() - n,
{
    if n == packages.len() {
        assert(packages.take(n) =~= packages);
    } else {
        assert(packages.take(n + 1).drop_last() =~= packages.take(n));
        lemma_packages_stop(links, dirs, packages, n + 1);
    }
}

/// Whether some walk to a file of the packages is stuck.
pub open spec fn some_walk_stuck(
    files: Map<Seq<Comp>, FileInfo>,
    read: Map<Seq<Comp>, Option<String>>,
    packages: Seq<Package>,
) -> bool {
    walk_to_all(files, read, packages) matches Walks::Stopped { end, .. } && end is Stuck
}

/// Whether a file of the packages has a path that cannot be walked along: the path is not
/// absolute, or it or the absolute target of a link on the way has a `..` where a name is
/// needed.
pub fn is_stuck(files: &FileMap, links: &LinkMap, packages: &Vec<Package>) -> (r: bool)
    requires
        files.wf(),
        links.wf(),
        forall|i: int| 0 <= i < packages@.len() ==> (#[trigger] packages@[i]).files.wf(),
    ensures
        r == some_walk_stuck(files.map(), links.map(), packages@),
{
    walk_packages(files, links, packages).1.is_none()
}

/// Whether the packages are those before, the first of them with their files under the places
/// that they are found at, and with none but those that have such a place.
pub open spec fn moved_so_far(
    before: Seq<Package>,
    after: Seq<Package>,
    places: Seq<Seq<Seq<Comp>>>,
) -> bool {
    &&& after.len() == before.len()
    &&& places.len() <= after.len()
    &&& forall|i: int|
        0 <= i < places.len() ==> {
            &&& (#[trigger] after[i]) == (Package { files: after[i].files, ..before[i] })
            &&& after[i].files.wf()
            &&& after[i].files.map() == moved(before[i].files@, places[i], places[i].len() as int)
        }
    &&& forall|i: int|
        places.len() <= i < after.len() ==> (#[trigger] after[i]) == before[i]
}

/// Whether the packages are those before, all with all their files under the places that they
/// are found at.
pub open spec fn all_moved(
    before: Seq<Package>,
    after: Seq<Package>,
    places: Seq<Seq<Seq<Comp>>>,
) -> bool {
    &&& moved_so_far(before, after, places)
    &&& places.len() == before.len()
    &&& forall|i: int|
        0 <= i < places.len() ==> (#[trigger] places[i]).len() == before[i].files@.len()
}

/// Canonicalize all file paths in packages by resolving directory symlinks.
///
/// Where a link has to be read first, the packages stay as they are. Where a file cannot be
/// found, the files before it have been moved, and what is left of its package is lost.
pub fn canonicalize_package_paths(
    files: &FileMap,
    links: &LinkMap,
    packages: &mut Vec<Package>,
) -> (r: Result<PackageStep, PackagePathError>)
    requires
        files.wf(),
        links.wf(),
        forall|i: int| 0 <= i < old(packages)@.len() ==> (#[trigger] old(packages)@[i]).files.wf(),
        !some_walk_stuck(files.map(), links.map(), old(packages)@),
    ensures
        ({
            let walks = walk_to_all(files.map(), links.map(), old(packages)@);
            &&& tells_end(Some(r), walks)
            &&& match r {
                Ok(PackageStep::Done) => all_moved(
                    old(packages)@,
                    final(packages)@,
                    walks->Done_0,
                ),
                Ok(PackageStep::ReadLink { .. }) => final(packages)@ == old(packages)@,
                Err(_) => moved_so_far(old(packages)@, final(packages)@, walks->done),
            }
        }),
{
    let ghost before = packages@;
    let ghost walks = walk_to_all(files.map(), links.map(), before);
    let (mut maps, end) = walk_packages(files, links, packages);
    let end = match end.unwrap() {
        Ok(PackageStep::ReadLink { path, link }) => {
            return Ok(PackageStep::ReadLink { path, link });
        },
        end => end,
    };
    let ghost all = maps@;
    let mut k: usize = maps.len();
    while k > 0
        invariant
            k <= all.len() <= before.len(),
            packages@.len() == before.len(),
            maps@ == all.take(k as int),
            forall|i: int| 0 <= i < k ==> (#[trigger] packages@[i]) == before[i],
            forall|i: int|
                k <= i < all.len() ==> (#[trigger] packages@[i]) == (Package {
                    files: all[i],
                    ..before[i]
                }),
            forall|i: int| all.len() <= i < before.len() ==> (#[trigger] packages@[i]) == before[i],
        decreases k,
    {
        k -= 1;
        let map = maps.pop().unwrap();
        assert(map == all[k as int]);
        packages[k].files = map;
        assert(maps@ =~= all.take(k as int));
    }
    proof {
        assert(moved_so_far(before, packages@, found(walks)));
        if walks is Done {
            lemma_all_places(
                known_links(files.map(), links.map()),
                Map::empty(),
                package_paths(before),
            );
        }
    }
    end
}

proof fn lemma_file_count(links: Links, dirs: Map<Seq<Comp>, Seq<Comp>>, paths: Seq<Seq<Comp>>)
    ensures
        files_walk(links, dirs, paths).0 matches Walks::Done(places) ==> places.len()
            == paths.len(),
    decreases paths.len(),
{
    if paths.len() > 0 {
        lemma_file_count(links, dirs, paths.drop_last());
    }
}

proof fn lemma_all_places(
    links: Links,
    dirs: Map<Seq<Comp>, Seq<Comp>>,
    packages: Seq<Seq<Seq<Comp>>>,
)
    ensures
        packages_walk(links, dirs, packages).0 matches Walks::Done(places) ==> places.len()
            == packages.len() && forall|i: int|
            0 <= i < places.len() ==> (#[trigger] places[i]).len() == packages[i].len(),
    decreases packages.len(),
{
    if packages.len() > 0 {
        lemma_all_places(links, dirs, packages.drop_last());
        lemma_file_count(
            links,
            packages_walk(links, dirs, packages.drop_last()).1,
            packages.last(),
        );
    }
}

/// Whether the file `path` is found at `place`: its own name stays, and its directory is where
/// the links lead to.
pub open spec fn file_leads_to(links: Links, path: Seq<Comp>, place: Seq<Comp>) -> bool {
    if path.len() == 1 {
        place == path
    } else {
        exists|dir: Seq<Comp>| #[trigger]
            leads_to(links, path.drop_last(), dir) && place == joined(dir, seq![path.last()])
    }
}

/// A file is found in one place.
pub proof fn file_found_in_one_place(links: Links, path: Seq<Comp>, a: Seq<Comp>, b: Seq<Comp>)
    requires
        file_leads_to(links, path, a),
        file_leads_to(links, path, b),
    ensures
        a == b,
{
    if path.len() != 1 {
        let parent = path.drop_last();
        let x = choose|dir: Seq<Comp>| #[trigger]
            leads_to(links, parent, dir) && a == joined(dir, seq![path.last()]);
        let y = choose|dir: Seq<Comp>| #[trigger]
            leads_to(links, parent, dir) && b == joined(dir, seq![path.last()]);
        found_in_one_place(links, parent, x, y);
    }
}

proof fn lemma_file_place(links: Links, dirs: Map<Seq<Comp>, Seq<Comp>>, path: Seq<Comp>)
    requires
        honest(links, dirs),
    ensures
        honest(links, parent_walk(links, dirs, path).1),
        parent_walk(links, dirs, path).0 matches Walk::Done(place) ==> file_leads_to(
            links,
            path,
            place,
        ),
{
    if absolute(path) && path.len() != 1 {
        known_directories_change_nothing(links, dirs, path.drop_last(), 0);
    }
}

proof fn lemma_file_places(
    links: Links,
    dirs: Map<Seq<Comp>, Seq<Comp>>,
    paths: Seq<Seq<Comp>>,
)
    requires
        honest(links, dirs),
    ensures
        honest(links, files_walk(links, dirs, paths).1),
        files_walk(links, dirs, paths).0 matches Walks::Done(places) ==> files_lead_to(
            links,
            paths,
            places,
        ),
    decreases paths.len(),
{
    if paths.len() > 0 {
        lemma_file_places(links, dirs, paths.drop_last());
        lemma_file_place(links, files_walk(links, dirs, paths.drop_last()).1, paths.last());
    }
}

/// Whether the files are found at the places, one for one.
pub open spec fn files_lead_to(
    links: Links,
    paths: Seq<Seq<Comp>>,
    places: Seq<Seq<Comp>>,
) -> bool {
    &&& places.len() == paths.len()
    &&& forall|k: int|
        0 <= k < places.len() ==> file_leads_to(links, paths[k], #[trigger] places[k])
}

/// Each file of the packages is found where the links lead to, whatever was walked before. So
/// the order of the packages does not matter.
pub proof fn files_found_where_links_lead(
    links: Links,
    dirs: Map<Seq<Comp>, Seq<Comp>>,
    packages: Seq<Seq<Seq<Comp>>>,
)
    requires
        honest(links, dirs),
    ensures
        honest(links, packages_walk(links, dirs, packages).1),
        packages_walk(links, dirs, packages).0 matches Walks::Done(places) ==> places.len()
            == packages.len() && forall|i: int|
            0 <= i < places.len() ==> files_lead_to(links, packages[i], #[trigger] places[i]),
    decreases packages.len(),
{
    if packages.len() > 0 {
        files_found_where_links_lead(links, dirs, packages.drop_last());
        lemma_file_places(
            links,
            packages_walk(links, dirs, packages.drop_last()).1,
            packages.last(),
        );
    }
}

proof fn lemma_files_ask(
    links: Links,
    dirs: Map<Seq<Comp>, Seq<Comp>>,
    paths: Seq<Seq<Comp>>,
)
    ensures
        files_walk(links, dirs, paths).0 matches Walks::Stopped { end, .. } ==> (
        end matches Walk::Unread(link) ==> links.places.contains(link)
            && !links.targets.contains_key(link) && absolute(link)),
    decreases paths.len(),
{
    if paths.len() > 0 {
        lemma_files_ask(links, dirs, paths.drop_last());
        asks_for_unread_links(
            links,
            files_walk(links, dirs, paths.drop_last()).1,
            paths.last().drop_last(),
            0,
        );
    }
}

/// The packages ask for links only, and for none that has been read. So no link is asked for
/// twice, and reading comes to an end.
pub proof fn packages_ask_for_unread_links(
    links: Links,
    dirs: Map<Seq<Comp>, Seq<Comp>>,
    packages: Seq<Seq<Seq<Comp>>>,
)
    ensures
        packages_walk(links, dirs, packages).0 matches Walks::Stopped { end, .. } ==> (
        end matches Walk::Unread(link) ==> links.places.contains(link)
            && !links.targets.contains_key(link) && absolute(link)),
    decreases packages.len(),
{
    if packages.len() > 0 {
        packages_ask_for_unread_links(links, dirs, packages.drop_last());
        lemma_files_ask(
            links,
            packages_walk(links, dirs, packages.drop_last()).1,
            packages.last(),
        );
    }
}

/// Whether the walks stop at a link that has not been read.
pub open spec fn asks<T>(walks: Walks<T>) -> bool {
    walks matches Walks::Stopped { end, .. } && end is Unread
}

proof fn lemma_files_reading_more(
    links: Links,
    more: Links,
    dirs: Map<Seq<Comp>, Seq<Comp>>,
    paths: Seq<Seq<Comp>>,
)
    requires
        links.extended_by(more),
        !asks(files_walk(links, dirs, paths).0),
    ensures
        files_walk(more, dirs, paths) == files_walk(links, dirs, paths),
    decreases paths.len(),
{
    if paths.len() > 0 {
        lemma_files_reading_more(links, more, dirs, paths.drop_last());
        let (front, mid) = files_walk(links, dirs, paths.drop_last());
        let last = paths.last();
        if front is Done && absolute(last) && last.len() != 1 {
            reading_more_changes_nothing(links, more, mid, last.drop_last(), 0);
        }
    }
}

/// Packages that ask for no link are treated the same when more links have been read. So the
/// targets may be read one at a time, and links that no file needs are never read.
pub proof fn packages_reading_more_changes_nothing(
    links: Links,
    more: Links,
    dirs: Map<Seq<Comp>, Seq<Comp>>,
    packages: Seq<Seq<Seq<Comp>>>,
)
    requires
        links.extended_by(more),
        !asks(packages_walk(links, dirs, packages).0),
    ensures
        packages_walk(more, dirs, packages) == packages_walk(links, dirs, packages),
    decreases packages.len(),
{
    if packages.len() > 0 {
        packages_reading_more_changes_nothing(links, more, dirs, packages.drop_last());
        let (front, mid) = packages_walk(links, dirs, packages.drop_last());
        if front is Done {
            lemma_files_reading_more(links, more, mid, packages.last());
        }
    }
}

proof fn lemma_files_never_stuck(
    links: Links,
    dirs: Map<Seq<Comp>, Seq<Comp>>,
    paths: Seq<Seq<Comp>>,
)
    requires
        links.wf(),
        plain_targets(links),
        plain_dirs(dirs),
        forall|k: int| 0 <= k < paths.len() ==> plain(#[trigger] paths[k], true),
    ensures
        files_walk(links, dirs, paths).0 matches Walks::Stopped { end, .. } ==> !(end is Stuck),
        plain_dirs(files_walk(links, dirs, paths).1),
    decreases paths.len(),
{
    if paths.len() > 0 {
        lemma_files_never_stuck(links, dirs, paths.drop_last());
        let (front, mid) = files_walk(links, dirs, paths.drop_last());
        let last = paths.last();
        assert(last == paths[paths.len() - 1]);
        if front is Done && last.len() != 1 {
            let parent = last.drop_last();
            assert(forall|i: int| 0 <= i < parent.len() ==> parent[i] == last[i]);
            assert(last[last.len() - 1] is Name);
            never_stuck(links, mid, parent, 0);
        }
    }
}

/// No walk is stuck where all paths are absolute without `..`, unless the absolute target of a
/// link has one.
pub proof fn packages_never_stuck(
    links: Links,
    dirs: Map<Seq<Comp>, Seq<Comp>>,
    packages: Seq<Seq<Seq<Comp>>>,
)
    requires
        links.wf(),
        plain_targets(links),
        plain_dirs(dirs),
        forall|i: int, k: int|
            0 <= i < packages.len() && 0 <= k < packages[i].len() ==> plain(
                #[trigger] packages[i][k],
                true,
            ),
    ensures
        packages_walk(links, dirs, packages).0 matches Walks::Stopped { end, .. } ==> !(
        end is Stuck),
        plain_dirs(packages_walk(links, dirs, packages).1),
    decreases packages.len(),
{
    if packages.len() > 0 {
        let front = packages.drop_last();
        assert forall|i: int, k: int|
            0 <= i < front.len() && 0 <= k < front[i].len() implies plain(
            #[trigger] front[i][k],
            true,
        ) by {
            assert(front[i][k] == packages[i][k]);
        }
        packages_never_stuck(links, dirs, front);
        let last = packages.last();
        assert forall|k: int| 0 <= k < last.len() implies plain(#[trigger] last[k], true) by {
            assert(last[k] == packages[packages.len() - 1][k]);
        }
        if packages_walk(links, dirs, front).0 is Done {
            lemma_files_never_stuck(links, packages_walk(links, dirs, front).1, last);
        }
    }
}

/// The places that something is told of are those that files are found at.
pub proof fn moved_to_places(
    entries: Seq<(Seq<char>, RpmFileInfo)>,
    places: Seq<Seq<Comp>>,
    n: int,
    cs: Seq<Comp>,
)
    requires
        n <= places.len(),
    ensures
        moved(entries, places, n).contains_key(cs) <==> exists|k: int|
            0 <= k < n && #[trigger] places[k] == cs,
    decreases n,
{
    if n > 0 {
        moved_to_places(entries, places, n - 1, cs);
        if places[n - 1] != cs && moved(entries, places, n).contains_key(cs) {
            let k = choose|k: int| 0 <= k < n - 1 && #[trigger] places[k] == cs;
            assert(places[k] == cs);
        }
    }
}

/// Whether the walk to the file `path` has a reason to end so: a link on the way to its
/// directory that has not been read, or whose target is no UTF-8, or 41 links that are
/// followed.
pub open spec fn fails_for(links: Links, path: Seq<Comp>, end: Walk) -> bool {
    let parent = path.take(path.len() - 1);
    match end {
        Walk::Done(_) => false,
        Walk::Unread(link) => links.places.contains(link) && !links.targets.contains_key(link)
            && on_the_way(links, parent, link, 40),
        Walk::NonUtf8Target(link) => links.places.contains(link) && links.targets.contains_key(
            link,
        ) && links.targets[link] is None && on_the_way(links, parent, link, 40),
        Walk::TooManyLinks(stop) => comes_to(links, parent, stop, 41),
        Walk::Stuck => true,
    }
}

proof fn lemma_file_fails(links: Links, dirs: Map<Seq<Comp>, Seq<Comp>>, path: Seq<Comp>)
    requires
        links.wf(),
        honest(links, dirs),
        well_shaped(path),
        !(parent_walk(links, dirs, path).0 is Done),
    ensures
        fails_for(links, path, parent_walk(links, dirs, path).0),
{
    if absolute(path) && path.len() != 1 {
        let parent = path.drop_last();
        assert(parent =~= path.take(path.len() - 1));
        assert(forall|i: int| 0 <= i < parent.len() ==> parent[i] == path[i]);
        walks_fail_for_a_reason(links, dirs, parent, 0);
    }
}

/// The files of a package are walked to one after the other. The walks stop at the first that
/// fails; all before it are found where the links lead to.
pub proof fn files_are_walked_to_in_order(
    links: Links,
    dirs: Map<Seq<Comp>, Seq<Comp>>,
    paths: Seq<Seq<Comp>>,
)
    requires
        links.wf(),
        honest(links, dirs),
        forall|k: int| 0 <= k < paths.len() ==> well_shaped(#[trigger] paths[k]),
    ensures
        honest(links, files_walk(links, dirs, paths).1),
        match files_walk(links, dirs, paths).0 {
            Walks::Done(places) => files_lead_to(links, paths, places),
            Walks::Stopped { done, at, end } => {
                &&& done.len() < paths.len()
                &&& at == paths[done.len() as int]
                &&& files_lead_to(links, paths.take(done.len() as int), done)
                &&& fails_for(links, at, end)
            },
        },
    decreases paths.len(),
{
    lemma_file_places(links, dirs, paths);
    if paths.len() > 0 {
        let front = paths.drop_last();
        assert forall|k: int| 0 <= k < front.len() implies well_shaped(#[trigger] front[k]) by {
            assert(front[k] == paths[k]);
        }
        files_are_walked_to_in_order(links, dirs, front);
        let (before, mid) = files_walk(links, dirs, front);
        match before {
            Walks::Done(places) => {
                assert(paths.last() == paths[paths.len() - 1]);
                if !(parent_walk(links, mid, paths.last()).0 is Done) {
                    lemma_file_fails(links, mid, paths.last());
                    assert(paths.take(places.len() as int) =~= front);
                }
            },
            Walks::Stopped { done, .. } => {
                assert(paths.take(done.len() as int) =~= front.take(done.len() as int));
                assert(front[done.len() as int] == paths[done.len() as int]);
            },
        }
    }
}

/// The packages are gone through one after the other. The walks stop at the first file that
/// fails; all files before it, of its package and of those before, are found where the links
/// lead to.
pub proof fn packages_are_gone_through_in_order(
    links: Links,
    dirs: Map<Seq<Comp>, Seq<Comp>>,
    packages: Seq<Seq<Seq<Comp>>>,
)
    requires
        links.wf(),
        honest(links, dirs),
        forall|i: int, k: int|
            0 <= i < packages.len() && 0 <= k < packages[i].len() ==> well_shaped(
                #[trigger] packages[i][k],
            ),
    ensures
        honest(links, packages_walk(links, dirs, packages).1),
        match packages_walk(links, dirs, packages).0 {
            Walks::Done(places) => {
                &&& places.len() == packages.len()
                &&& forall|i: int|
                    0 <= i < places.len() ==> files_lead_to(
                        links,
                        packages[i],
                        #[trigger] places[i],
                    )
            },
            Walks::Stopped { done, at, end } => {
                let p = done.len() - 1;
                &&& 0 <= p < packages.len()
                &&& done[p].len() < packages[p].len()
                &&& at == packages[p][done[p].len() as int]
                &&& files_lead_to(links, packages[p].take(done[p].len() as int), done[p])
                &&& forall|i: int|
                    0 <= i < p ==> files_lead_to(links, packages[i], #[trigger] done[i])
                &&& fails_for(links, at, end)
            },
        },
    decreases packages.len(),
{
    files_found_where_links_lead(links, dirs, packages);
    if packages.len() > 0 {
        let front = packages.drop_last();
        assert forall|i: int, k: int|
            0 <= i < front.len() && 0 <= k < front[i].len() implies well_shaped(
            #[trigger] front[i][k],
        ) by {
            assert(front[i][k] == packages[i][k]);
        }
        packages_are_gone_through_in_order(links, dirs, front);
        let (before, mid) = packages_walk(links, dirs, front);
        let last = packages.last();
        assert forall|k: int| 0 <= k < last.len() implies well_shaped(#[trigger] last[k]) by {
            assert(last[k] == packages[packages.len() - 1][k]);
        }
        match before {
            Walks::Done(places) => {
                files_are_walked_to_in_order(links, mid, last);
            },
            Walks::Stopped { done, .. } => {
                assert(front[done.len() - 1] == packages[done.len() - 1]);
            },
        }
    }
}

/// A file is found under its own name in the directory that the path before its name leads to.
pub proof fn files_are_found_in_their_directories(
    links: Links,
    path: Seq<Comp>,
    dir: Seq<Comp>,
    place: Seq<Comp>,
)
    requires
        links.wf(),
        well_shaped(path),
        path.len() > 1,
        path[path.len() - 1] is Name,
    ensures
        leads_to(links, path.take(path.len() - 1), dir) ==> (file_leads_to(links, path, place)
            <==> place == dir.push(path[path.len() - 1])),
        file_leads_to(links, path, place) ==> exists|d: Seq<Comp>| #[trigger]
            leads_to(links, path.take(path.len() - 1), d) && place == d.push(
                path[path.len() - 1],
            ),
{
    let parent = path.drop_last();
    assert(path.take(path.len() - 1) =~= parent);
    assert(forall|i: int| 0 <= i < parent.len() ==> parent[i] == path[i]);
    assert forall|d: Seq<Comp>| #[trigger] leads_to(links, parent, d) implies joined(
        d,
        seq![path.last()],
    ) == d.push(path.last()) by {
        found_free_of_links(links, parent, d);
        assert(joined(d, seq![path.last()]) =~= d.push(path.last()));
    }
    if leads_to(links, parent, dir) {
        assert(file_leads_to(links, path, dir.push(path.last())));
        if file_leads_to(links, path, place) {
            file_found_in_one_place(links, path, place, dir.push(path.last()));
        }
    }
    if file_leads_to(links, path, place) {
        let d = choose|d: Seq<Comp>| #[trigger]
            leads_to(links, parent, d) && place == joined(d, seq![path.last()]);
        assert(leads_to(links, path.take(path.len() - 1), d));
    }
}

/// Of the files that are found in one place, the last tells what is there.
pub proof fn last_file_of_a_place_counts(
    entries: Seq<(Seq<char>, RpmFileInfo)>,
    places: Seq<Seq<Comp>>,
    n: int,
    k: int,
)
    requires
        0 <= k < n <= places.len(),
        forall|j: int| k < j < n ==> #[trigger] places[j] != places[k],
    ensures
        moved(entries, places, n).contains_key(places[k]),
        moved(entries, places, n)[places[k]] == entries[k].1,
    decreases n,
{
    if k < n - 1 {
        last_file_of_a_place_counts(entries, places, n - 1, k);
        assert(places[n - 1] != places[k]);
    }
}

/// What is walked along are the paths of the files of the packages, with the links among the
/// files and nothing known beforehand.
pub proof fn all_files_are_walked_to(
    files: Map<Seq<Comp>, FileInfo>,
    read: Map<Seq<Comp>, Option<String>>,
    packages: Seq<Package>,
    paths: Seq<Seq<Seq<Comp>>>,
)
    requires
        paths.len() == packages.len(),
        forall|i: int|
            0 <= i < paths.len() ==> (#[trigger] paths[i]).len() == packages[i].files@.len(),
        forall|i: int, k: int|
            0 <= i < paths.len() && 0 <= k < paths[i].len() ==> #[trigger] paths[i][k]
                == path_components(packages[i].files@[k].0),
    ensures
        walk_to_all(files, read, packages) == packages_walk(
            known_links(files, read),
            Map::empty(),
            paths,
        ).0,
{
    let all = package_paths(packages);
    assert forall|i: int| 0 <= i < all.len() implies all[i] == paths[i] by {
        assert forall|k: int| 0 <= k < all[i].len() implies all[i][k] == paths[i][k] by {}
        assert(all[i] =~= paths[i]);
    }
    assert(all =~= paths);
}

/// Packages keep everything but the paths of their files. As far as the walks have come, a file
/// is under the place that it is found at, and under no other; the packages behind stay as they
/// are. Where all are moved, all walks have come to their end.
pub proof fn packages_keep_all_but_the_paths(
    before: Seq<Package>,
    after: Seq<Package>,
    places: Seq<Seq<Seq<Comp>>>,
    i: int,
    cs: Seq<Comp>,
)
    requires
        moved_so_far(before, after, places),
        0 <= i < before.len(),
    ensures
        after.len() == before.len(),
        after[i].name == before[i].name,
        after[i].sourcerpm == before[i].sourcerpm,
        after[i].buildtime == before[i].buildtime,
        after[i].changelog_times == before[i].changelog_times,
        i >= places.len() ==> after[i].files == before[i].files,
        i < places.len() ==> (after[i].files.map().contains_key(cs) <==> exists|k: int|
            0 <= k < places[i].len() && #[trigger] places[i][k] == cs),
        i < places.len() ==> forall|k: int|
            0 <= k < places[i].len() && #[trigger] places[i][k] == cs && (forall|j: int|
                k < j < places[i].len() ==> #[trigger] places[i][j] != cs)
                ==> after[i].files.map()[cs] == before[i].files@[k].1,
        all_moved(before, after, places) ==> places.len() == before.len() && places[i].len()
            == before[i].files@.len(),
{
    if i < places.len() {
        let n = places[i].len() as int;
        assert(after[i] == (Package { files: after[i].files, ..before[i] }));
        moved_to_places(before[i].files@, places[i], n, cs);
        assert forall|k: int|
            0 <= k < n && #[trigger] places[i][k] == cs && (forall|j: int|
                k < j < n ==> #[trigger] places[i][j] != cs) implies after[i].files.map()[cs]
            == before[i].files@[k].1 by {
            last_file_of_a_place_counts(before[i].files@, places[i], n, k);
        }
    } else {
        assert(after[i] == before[i]);
    }
}

/// A result for packages tells where the walks to their files end.
pub proof fn package_results_tell_where_the_walks_end<T>(
    r: Option<Result<PackageStep, PackagePathError>>,
    walks: Walks<T>,
)
    requires
        tells_end(r, walks),
    ensures
        walks is Done ==> r matches Some(Ok(PackageStep::Done)),
        walks matches Walks::Stopped { at, end, .. } ==> match end {
            Walk::Unread(cs) => r matches Some(Ok(PackageStep::ReadLink { path, link }))
                && path_components(path@) == at && path_components(link.path@) == cs,
            Walk::TooManyLinks(cs) => r matches Some(Err(e)) && path_components(e.path@) == at && (
            e.error matches CanonicalizeError::TooManyLinks { path } && path_components(path@)
                == cs),
            Walk::NonUtf8Target(cs) => r matches Some(Err(e)) && path_components(e.path@) == at && (
            e.error matches CanonicalizeError::NonUtf8Target { path } && path_components(path@)
                == cs),
            Walk::Stuck => r is None,
            Walk::Done(_) => true,
        },
{
}

} // verus!
