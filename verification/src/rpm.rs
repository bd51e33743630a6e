//! Components by RPM source package.

use crate::canonicalize::{
    comes_to, honest, known_links, known_links_wf, links_are_the_symlinks_among_the_files,
    on_the_way, outcome, CanonicalizeError, LinkMap, LinkRequest, Walk,
};
use crate::components::{ComponentId, ComponentInfo, FileInfo, FileMap, FileType};
use crate::index::{
    entry_names, new_table, table_entries, table_get_index, table_index_of, table_insert_full,
};
use crate::path::{
    absolute, components_well_shaped, name_before_separator, path_components, root_components,
    starts_with, strip_prefix, stripped_text, valid_name, well_shaped, Comp,
};
use crate::package_paths::{
    all_moved, canonicalize_package_paths, file_found_in_one_place, file_leads_to,
    files_found_where_links_lead, files_lead_to, moved_to_places, package_paths,
    packages_are_gone_through_in_order,
    some_walk_stuck, stopped_at, walk_to_all, PackagePathError, PackageStep, Walks,
};
use crate::path_map::{entry_at, map_at, one_place, place_of, sorted, PathMap};
use crate::srpm::{
    is_name_in, is_nvr, only_version_and_release_are_taken_off, parse_srpm_name,
    source_name_is_the_name_in_the_text, srpm_name,
};
use crate::stability::{
    calculate_stability, chance_order_transitive, order_is_total, order_is_transitive,
    span_is_within_lookback, stability_of, Stability,
};
use indexmap::IndexMap;
use vstd::prelude::*;

verus! {

const REPO_NAME: &'static str = "rpm";

/// What an RPM says of a file.
#[derive(Debug, Clone, Copy)]
pub struct RpmFileInfo {
    /// Unix file mode (permissions and type).
    pub mode: u16,
}

/// An installed RPM.
#[derive(Debug)]
pub struct Package {
    /// Its name.
    pub name: String,
    /// The file name of its source package.
    pub sourcerpm: Option<String>,
    /// When it was built, in seconds since the epoch.
    pub buildtime: u64,
    /// The times of its changelog entries, in seconds since the epoch.
    pub changelog_times: Vec<u64>,
    /// Its files.
    pub files: PathMap<RpmFileInfo>,
}

/// The type bits of a mode: `libc::S_IFMT`.
#[verifier::external_body]
fn type_bits() -> (r: u32)
    ensures
        r == 0o170000,
{
    libc::S_IFMT
}

/// The type of a directory: `libc::S_IFDIR`.
#[verifier::external_body]
fn directory_bits() -> (r: u32)
    ensures
        r == 0o040000,
{
    libc::S_IFDIR
}

/// The type of a regular file: `libc::S_IFREG`.
#[verifier::external_body]
fn regular_bits() -> (r: u32)
    ensures
        r == 0o100000,
{
    libc::S_IFREG
}

/// The type of a symbolic link: `libc::S_IFLNK`.
#[verifier::external_body]
fn symlink_bits() -> (r: u32)
    ensures
        r == 0o120000,
{
    libc::S_IFLNK
}

/// The kind of file that a mode tells of: its four highest bits.
pub open spec fn mode_file_type(mode: u16) -> Option<FileType> {
    let kind = mode as int / 0o10000;
    if kind == 0o4 {
        Some(FileType::Directory)
    } else if kind == 0o10 {
        Some(FileType::File)
    } else if kind == 0o12 {
        Some(FileType::Symlink)
    } else {
        None
    }
}

/// The kind of file that an RPM says a file is.
pub fn file_info_to_file_type(fi: &RpmFileInfo) -> (r: Option<FileType>)
    ensures
        r == mode_file_type(fi.mode),
{
    let mode: u16 = fi.mode;
    let wide: u32 = mode as u32;
    let file_type: u32 = wide & type_bits();
    assert(wide & 0o170000u32 == (wide / 0o10000u32) * 0o10000u32) by (bit_vector)
        requires
            wide < 0x10000u32,
    ;
    if file_type == directory_bits() {
        Some(FileType::Directory)
    } else if file_type == regular_bits() {
        Some(FileType::File)
    } else if file_type == symlink_bits() {
        Some(FileType::Symlink)
    } else {
        None
    }
}

/// The component of a package: its source package, or its own name where that is not known.
pub open spec fn package_component(package: Package) -> Seq<char> {
    match package.sourcerpm {
        Some(srpm) => srpm_name(srpm@),
        None => package.name@,
    }
}

/// The stability of a package.
pub open spec fn package_stability(package: Package, now: u64) -> Stability {
    stability_of(package.changelog_times@, package.buildtime, now)
}

/// The components of the first `n` packages, each where it is seen first.
pub open spec fn component_names(packages: Seq<Package>, n: int) -> Seq<Seq<char>>
    decreases n,
{
    if n <= 0 {
        seq![]
    } else {
        let before = component_names(packages, n - 1);
        let name = package_component(packages[n - 1]);
        if before.contains(name) {
            before
        } else {
            before.push(name)
        }
    }
}

/// The latest build time of the first `n` packages of a component.
pub open spec fn latest_build(packages: Seq<Package>, n: int, name: Seq<char>) -> u64
    decreases n,
{
    if n <= 0 {
        0
    } else {
        let before = latest_build(packages, n - 1, name);
        let package = packages[n - 1];
        if package_component(package) == name && package.buildtime > before {
            package.buildtime
        } else {
            before
        }
    }
}

/// The lowest stability of the first `n` packages of a component, of equal chances the one with
/// the shortest span.
pub open spec fn lowest_stability(
    packages: Seq<Package>,
    now: u64,
    n: int,
    name: Seq<char>,
) -> Stability
    decreases n,
{
    if n <= 0 {
        Stability::VeryStable
    } else {
        let before = lowest_stability(packages, now, n - 1, name);
        let package = packages[n - 1];
        if package_component(package) == name {
            before.first_of(package_stability(package, now))
        } else {
            before
        }
    }
}

/// The components of the first `n` packages with their build times and stabilities.
pub open spec fn component_table(
    packages: Seq<Package>,
    now: u64,
    n: int,
) -> Seq<(Seq<char>, (u64, Stability))> {
    component_names(packages, n).map_values(
        |name: Seq<char>|
            (name, (latest_build(packages, n, name), lowest_stability(packages, now, n, name))),
    )
}

/// Whether a list of owners has that component.
pub open spec fn has_owner(owners: Seq<(Seq<char>, RpmFileInfo)>, name: Seq<char>) -> bool {
    exists|a: int| 0 <= a < owners.len() && (#[trigger] owners[a]).0 == name
}

/// The components that own the path `cs` by the first `n` packages, in the order of the
/// packages. Of packages of one component the first counts.
pub open spec fn path_owners(packages: Seq<Package>, n: int, cs: Seq<Comp>) -> Seq<
    (Seq<char>, RpmFileInfo),
>
    decreases n,
{
    if n <= 0 {
        seq![]
    } else {
        let before = path_owners(packages, n - 1, cs);
        let package = packages[n - 1];
        let name = package_component(package);
        if package.files.map().contains_key(cs) && !has_owner(before, name) {
            before.push((name, package.files.map()[cs]))
        } else {
            before
        }
    }
}

/// Whether a list of ids stands for a list of owners.
pub open spec fn stand_for(
    list: Seq<(ComponentId, RpmFileInfo)>,
    owners: Seq<(Seq<char>, RpmFileInfo)>,
    names: Seq<Seq<char>>,
) -> bool {
    &&& list.len() == owners.len()
    &&& forall|a: int|
        0 <= a < list.len() ==> {
            let e = #[trigger] list[a];
            &&& e.0.0 < names.len()
            &&& names[e.0.0 as int] == owners[a].0
            &&& e.1 == owners[a].1
        }
}

/// Whether the map holds exactly those owners of the path `cs`.
spec fn owners_held(
    map: Map<Seq<Comp>, Vec<(ComponentId, RpmFileInfo)>>,
    cs: Seq<Comp>,
    owners: Seq<(Seq<char>, RpmFileInfo)>,
    names: Seq<Seq<char>>,
) -> bool {
    &&& map.contains_key(cs) <==> owners.len() > 0
    &&& map.contains_key(cs) ==> stand_for(map[cs]@, owners, names)
}

proof fn lemma_names(packages: Seq<Package>, n: int)
    requires
        0 <= n < packages.len(),
    ensures
        component_names(packages, n).no_duplicates(),
        component_names(packages, n + 1).no_duplicates(),
        component_names(packages, n).len() <= component_names(packages, n + 1).len(),
        forall|k: int|
            0 <= k < component_names(packages, n).len() ==> component_names(packages, n)[k]
                == #[trigger] component_names(packages, n + 1)[k],
    decreases n,
{
    if n > 0 {
        lemma_names(packages, n - 1);
    }
}

proof fn lemma_unseen(packages: Seq<Package>, now: u64, n: int, name: Seq<char>)
    requires
        0 <= n <= packages.len(),
        !component_names(packages, n).contains(name),
    ensures
        latest_build(packages, n, name) == 0,
        lowest_stability(packages, now, n, name) == Stability::VeryStable,
    decreases n,
{
    if n > 0 {
        let before = component_names(packages, n - 1);
        let last = package_component(packages[n - 1]);
        let after = component_names(packages, n);
        if before.contains(name) {
            let k = choose|k: int| 0 <= k < before.len() && before[k] == name;
            assert(after[k] == name);
        }
        if last == name && !before.contains(name) {
            assert(after[before.len() as int] == name);
        }
        lemma_unseen(packages, now, n - 1, name);
    }
}

proof fn lemma_table_names(packages: Seq<Package>, now: u64, n: int)
    ensures
        entry_names(component_table(packages, now, n)) == component_names(packages, n),
{
    assert(entry_names(component_table(packages, now, n)) =~= component_names(packages, n));
}

/// Whether some entry is that of the component.
fn owned_by(list: &Vec<(ComponentId, RpmFileInfo)>, id: ComponentId) -> (r: bool)
    ensures
        r == exists|a: int| 0 <= a < list@.len() && (#[trigger] list@[a]).0 == id,
{
    let mut a: usize = 0;
    while a < list.len()
        invariant
            a <= list@.len(),
            forall|b: int| 0 <= b < a ==> (#[trigger] list@[b]).0 != id,
        decreases list@.len() - a,
    {
        if list[a].0 == id {
            return true;
        }
        a += 1;
    }
    false
}

/// Whether the changelog of the package at `n` makes for another chance than those of the
/// packages of its component before it. A package without a changelog, and the first of a
/// component, do not differ.
pub open spec fn changelog_differs(packages: Seq<Package>, now: u64, n: int) -> bool {
    let package = packages[n];
    let name = package_component(package);
    &&& component_names(packages, n).contains(name)
    &&& package.changelog_times@.len() > 0
    &&& !package_stability(package, now).same_chance(lowest_stability(packages, now, n, name))
}

/// The places of those of the first `n` packages whose changelogs differ.
pub open spec fn differing(packages: Seq<Package>, now: u64, n: int) -> Seq<int>
    decreases n,
{
    if n <= 0 {
        seq![]
    } else if changelog_differs(packages, now, n - 1) {
        differing(packages, now, n - 1).push(n - 1)
    } else {
        differing(packages, now, n - 1)
    }
}

/// Takes the package at `n` into the table of those before it. Gives the id of its component,
/// and whether its changelog differs.
fn add_to_table(
    components: &mut IndexMap<String, (u64, Stability)>,
    packages: &Vec<Package>,
    n: usize,
    now: u64,
) -> (r: (ComponentId, bool))
    requires
        n < packages@.len(),
        table_entries(*old(components)) == component_table(packages@, now, n as int),
    ensures
        table_entries(*final(components)) == component_table(packages@, now, n + 1),
        r.0.0 < component_names(packages@, n + 1).len(),
        component_names(packages@, n + 1)[r.0.0 as int] == package_component(packages@[n as int]),
        r.1 == changelog_differs(packages@, now, n as int),
{
    let ghost all = packages@;
    let ghost names_before = component_names(all, n as int);
    let ghost table_before = table_entries(*components);
    let pkg = &packages[n];
    // Use the source RPM as the component name, falling back to package name
    let component_name: &str = match &pkg.sourcerpm {
        Some(srpm) => parse_srpm_name(srpm.as_str()),
        None => pkg.name.as_str(),
    };
    let stability = calculate_stability(pkg.changelog_times.as_slice(), pkg.buildtime, now);
    proof {
        lemma_names(all, n as int);
        lemma_table_names(all, now, n as int);
        lemma_table_names(all, now, n + 1);
    }
    let (component_id, differs): (ComponentId, bool) = match table_index_of(
        components,
        component_name,
    ) {
        Some(idx) => {
            // Build time across subpackages for a given SRPM can vary.
            // We want the max() of all of them as the clamp.
            // For determinism, we want the min() of all stabilities if they differ.
            let (_name, existing) = table_get_index(components, idx).unwrap();
            let (existing_bt, existing_stability) = *existing;
            let bt: u64 = if pkg.buildtime > existing_bt {
                pkg.buildtime
            } else {
                existing_bt
            };
            // Stability was derived from changelogs only and yet they're different? This
            // likely means that the RPMs coming from different versions of the same SRPM are
            // intermixed in the rootfs. This yields suboptimal packing and likely indicates a
            // compose bug.
            let differs = pkg.changelog_times.len() > 0 && (stability.is_below(existing_stability)
                || existing_stability.is_below(stability));
            let value = (bt, existing_stability.first(stability));
            let (at, _old) = table_insert_full(components, component_name.to_owned(), value);
            proof {
                assert(names_before[idx as int] == component_name@);
                assert(names_before[at as int] == component_name@);
            }
            (ComponentId(idx), differs)
        },
        None => {
            proof {
                lemma_unseen(all, now, n as int, component_name@);
            }
            let (at, _old) = table_insert_full(
                components,
                component_name.to_owned(),
                (pkg.buildtime, stability),
            );
            (ComponentId(at), false)
        },
    };
    proof {
        lemma_table_next(
            all,
            now,
            n as int,
            table_before,
            table_entries(*components),
            component_id,
        );
    }
    (component_id, differs)
}

/// The places of the packages whose changelog makes for another chance than those of the
/// packages of the same component before them. This likely means that RPMs from different
/// versions of the same SRPM are intermixed.
pub fn differing_changelogs(packages: &Vec<Package>, now: u64) -> (r: Vec<usize>)
    ensures
        r@.map_values(|k: usize| k as int) == differing(packages@, now, packages@.len() as int),
{
    let mut places: Vec<usize> = Vec::new();
    let mut components = new_table();
    let mut n: usize = 0;
    proof {
        assert(component_table(packages@, now, 0) =~= seq![]);
        assert(places@.map_values(|k: usize| k as int) =~= seq![]);
    }
    while n < packages.len()
        invariant
            n <= packages@.len(),
            table_entries(components) == component_table(packages@, now, n as int),
            places@.map_values(|k: usize| k as int) == differing(packages@, now, n as int),
        decreases packages@.len() - n,
    {
        let ghost before = places@;
        let (_id, differs) = add_to_table(&mut components, packages, n, now);
        if differs {
            places.push(n);
            assert(places@.map_values(|k: usize| k as int) =~= before.map_values(
                |k: usize| k as int,
            ).push(n as int));
        }
        n += 1;
    }
    places
}

/// RPM-based components repo implementation.
///
/// Uses the RPM database to determine file ownership and groups files
/// by their SRPM.
pub struct RpmRepo {
    /// Unique component (SRPM) names mapped to (buildtime, stability), indexed by ComponentId.
    components: IndexMap<String, (u64, Stability)>,

    /// Mapping from path to list of (ComponentId, RpmFileInfo).
    ///
    /// It's common for directories to be owned by more than one component (i.e.
    /// from _different_ SRPMs). It's much more uncommon for files/symlinks
    /// though we do handle it to ensure reproducible layers.
    path_to_components: PathMap<Vec<(ComponentId, RpmFileInfo)>>,
}

/// What can be loaded with the links that have been read.
pub enum RpmLoad {
    /// There is no RPM database.
    NoDatabase,
    /// On the way to a file, the target of a link has to be read first.
    ReadLink {
        /// The path of the file.
        path: String,
        /// The link.
        link: LinkRequest,
        /// The packages, as they were handed in.
        packages: Vec<Package>,
    },
    /// The repository.
    Loaded(RpmRepo),
}

/// Whether the result is that of loading the packages, where the walks to their files end as
/// `walks` says.
pub open spec fn loads(
    r: Result<RpmLoad, PackagePathError>,
    walks: Walks<Seq<Seq<Seq<Comp>>>>,
    list: Seq<Package>,
    now: u64,
) -> bool {
    match r {
        Ok(RpmLoad::NoDatabase) => false,
        Ok(RpmLoad::ReadLink { path, link, packages }) => {
            &&& link.wf()
            &&& stopped_at(
                walks,
                path_components(path@),
                Walk::Unread(path_components(link.path@)),
            )
            &&& packages@ == list
        },
        Ok(RpmLoad::Loaded(repo)) => {
            &&& repo.wf()
            &&& walks is Done
            &&& exists|after: Seq<Package>|
                all_moved(list, after, walks->Done_0) && #[trigger] repo.made_from(after, now)
        },
        Err(e) => stopped_at(walks, path_components(e.path@), outcome(Err(e.error))),
    }
}

impl RpmRepo {
    /// The components with their build times and stabilities, by their ids.
    pub closed spec fn table(&self) -> Seq<(Seq<char>, (u64, Stability))> {
        table_entries(self.components)
    }

    /// The owners of each path.
    pub closed spec fn owners(&self) -> Map<Seq<Comp>, Vec<(ComponentId, RpmFileInfo)>> {
        self.path_to_components.map()
    }

    /// No name occurs twice, every id that is given out has one, and none is given out twice
    /// for one path.
    pub closed spec fn wf(&self) -> bool {
        &&& self.path_to_components.wf()
        &&& entry_names(self.table()).no_duplicates()
        &&& forall|cs: Seq<Comp>, a: int|
            #![trigger self.owners()[cs]@[a]]
            self.owners().contains_key(cs) && 0 <= a < self.owners()[cs]@.len()
                ==> self.owners()[cs]@[a].0.0 < self.table().len()
        &&& forall|cs: Seq<Comp>, a: int, b: int|
            #![trigger self.owners()[cs]@[a], self.owners()[cs]@[b]]
            self.owners().contains_key(cs) && 0 <= a < b < self.owners()[cs]@.len()
                ==> self.owners()[cs]@[a].0 != self.owners()[cs]@[b].0
    }

    /// Whether the repository is that of the packages.
    pub open spec fn made_from(&self, packages: Seq<Package>, now: u64) -> bool {
        let n = packages.len() as int;
        &&& self.table() == component_table(packages, now, n)
        &&& forall|cs: Seq<Comp>| #[trigger]
            self.owners().contains_key(cs) <==> path_owners(packages, n, cs).len() > 0
        &&& forall|cs: Seq<Comp>| #[trigger]
            self.owners().contains_key(cs) ==> stand_for(
                self.owners()[cs]@,
                path_owners(packages, n, cs),
                component_names(packages, n),
            )
    }

    /// Loads the RPM database that was read from the root filesystem, if there is one. The
    /// `files` and the targets of their `links` are used to canonicalize paths from the RPM
    /// database.
    pub fn load(
        files: &FileMap,
        links: &LinkMap,
        packages: Option<Vec<Package>>,
        now: u64,
    ) -> (r: Result<RpmLoad, PackagePathError>)
        requires
            files.wf(),
            links.wf(),
            packages matches Some(list) ==> {
                &&& forall|i: int| 0 <= i < list@.len() ==> (#[trigger] list@[i]).files.wf()
                &&& !some_walk_stuck(files.map(), links.map(), list@)
            },
        ensures
            r matches Ok(RpmLoad::NoDatabase) <==> packages is None,
            packages matches Some(list) ==> loads(
                r,
                walk_to_all(files.map(), links.map(), list@),
                list@,
                now,
            ),
    {
        let mut packages = match packages {
            Some(packages) => packages,
            None => {
                return Ok(RpmLoad::NoDatabase);
            },
        };
        let ghost list = packages@;
        let ghost walks = walk_to_all(files.map(), links.map(), list);
        match canonicalize_package_paths(files, links, &mut packages) {
            Ok(PackageStep::Done) => {
                let ghost after = packages@;
                let repo = Self::load_from_packages(packages, now);
                assert(all_moved(list, after, walks->Done_0) && repo.made_from(after, now));
                Ok(RpmLoad::Loaded(repo))
            },
            Ok(PackageStep::ReadLink { path, link }) => {
                assert(packages@ == list);
                Ok(RpmLoad::ReadLink { path, link, packages })
            },
            Err(e) => Err(e),
        }
    }

    /// Groups the files of the packages by component. The packages may come in any order.
    pub fn load_from_packages(packages: Vec<Package>, now: u64) -> (r: Self)
        requires
            forall|i: int| 0 <= i < packages@.len() ==> (#[trigger] packages@[i]).files.wf(),
        ensures
            r.wf(),
            r.made_from(packages@, now),
    {
        let ghost all = packages@;
        let mut components = new_table();
        let mut path_to_components: PathMap<Vec<(ComponentId, RpmFileInfo)>> = PathMap::new();
        let mut n: usize = 0;
        proof {
            assert(component_table(all, now, 0) =~= seq![]);
        }
        while n < packages.len()
            invariant
                all == packages@,
                n <= all.len(),
                forall|i: int| 0 <= i < all.len() ==> (#[trigger] all[i]).files.wf(),
                path_to_components.wf(),
                table_entries(components) == component_table(all, now, n as int),
                component_names(all, n as int).no_duplicates(),
                forall|cs: Seq<Comp>|
                    #![trigger path_to_components.map().contains_key(cs)]
                    owners_held(
                        path_to_components.map(),
                        cs,
                        path_owners(all, n as int, cs),
                        component_names(all, n as int),
                    ),
            decreases all.len() - n,
        {
            let pkg = &packages[n];
            let ghost names_before = component_names(all, n as int);
            let ghost names = component_names(all, n + 1);
            let (component_id, _differs) = add_to_table(&mut components, &packages, n, now);
            proof {
                lemma_names(all, n as int);
            }

            let ghost map_before = path_to_components.map();
            let mut k: usize = 0;
            proof {
                assert forall|cs: Seq<Comp>|
                    #![trigger path_to_components.map().contains_key(cs)]
                    owners_held(map_before, cs, path_owners(all, n as int, cs), names) by {
                    lemma_held_more(
                        map_before,
                        cs,
                        path_owners(all, n as int, cs),
                        names_before,
                        names,
                    );
                }
            }
            while k < pkg.files.len()
                invariant
                    n < all.len(),
                    *pkg == all[n as int],
                    pkg.files.wf(),
                    k <= pkg.files@.len(),
                    path_to_components.wf(),
                    names == component_names(all, n + 1),
                    names.no_duplicates(),
                    component_id.0 < names.len(),
                    names[component_id.0 as int] == package_component(all[n as int]),
                    forall|cs: Seq<Comp>|
                        #![trigger path_to_components.map().contains_key(cs)]
                        owners_held(
                            path_to_components.map(),
                            cs,
                            path_owners(
                                all,
                                if among(pkg.files@, k as int, cs) {
                                    n + 1
                                } else {
                                    n as int
                                },
                                cs,
                            ),
                            names,
                        ),
                decreases pkg.files@.len() - k,
            {
                let path = pkg.files.path_at(k);
                let file_info: RpmFileInfo = *pkg.files.value_at(k);
                let ghost cs = path_components(path@);
                let ghost before = path_to_components.map();
                // Skip if this component already owns this path (can happen when multiple
                // subpackages from the same SRPM own the same path).
                let entries = path_to_components.entry(path.to_owned(), Vec::new());
                let ghost found = entries@;
                if !owned_by(entries, component_id) {
                    entries.push((component_id, file_info));
                }
                proof {
                    map_at(pkg.files@, k as int);
                    lemma_not_yet(pkg.files@, k as int);
                    assert(owners_held(before, cs, path_owners(all, n as int, cs), names)) by {
                        assert(before.contains_key(cs) || !before.contains_key(cs));
                    }
                    lemma_owners_step(
                        found,
                        path_to_components.map()[cs]@,
                        path_owners(all, n as int, cs),
                        path_owners(all, n + 1, cs),
                        names,
                        component_id,
                        package_component(all[n as int]),
                        file_info,
                    );
                    assert forall|c: Seq<Comp>|
                        #![trigger path_to_components.map().contains_key(c)]
                        owners_held(
                            path_to_components.map(),
                            c,
                            path_owners(
                                all,
                                if among(pkg.files@, k + 1, c) {
                                    n + 1
                                } else {
                                    n as int
                                },
                                c,
                            ),
                            names,
                        ) by {
                        lemma_among_next(pkg.files@, k as int, c);
                        if c != cs {
                            assert(path_to_components.map().contains_key(c)
                                <==> before.contains_key(c));
                        }
                    }
                }
                k += 1;
            }
            proof {
                assert forall|cs: Seq<Comp>|
                    #![trigger path_to_components.map().contains_key(cs)]
                    owners_held(
                        path_to_components.map(),
                        cs,
                        path_owners(all, n + 1, cs),
                        names,
                    ) by {
                    if !among(pkg.files@, k as int, cs) {
                        if pkg.files.map().contains_key(cs) {
                            let m = place_of(pkg.files@, cs);
                            assert(entry_at(pkg.files@, m, cs));
                        }
                        assert(!pkg.files.map().contains_key(cs));
                    }
                }
            }
            n += 1;
        }
        let repo = RpmRepo { components, path_to_components };
        proof {
            lemma_table_names(all, now, n as int);
            assert forall|cs: Seq<Comp>, a: int|
                #![trigger repo.owners()[cs]@[a]]
                repo.owners().contains_key(cs) && 0 <= a < repo.owners()[cs]@.len() implies
                repo.owners()[cs]@[a].0.0 < repo.table().len() by {
                assert(owners_held(
                    repo.path_to_components.map(),
                    cs,
                    path_owners(all, n as int, cs),
                    component_names(all, n as int),
                ));
                assert(entry_names(repo.table()).len() == repo.table().len());
            }
            assert forall|cs: Seq<Comp>, a: int, b: int|
                #![trigger repo.owners()[cs]@[a], repo.owners()[cs]@[b]]
                repo.owners().contains_key(cs) && 0 <= a < b < repo.owners()[cs]@.len() implies
                repo.owners()[cs]@[a].0 != repo.owners()[cs]@[b].0 by {
                let owners = path_owners(all, n as int, cs);
                assert(owners_held(
                    repo.path_to_components.map(),
                    cs,
                    owners,
                    component_names(all, n as int),
                ));
                owner_once(all, n as int, cs, a, b);
                assert(owners[a].0 != owners[b].0);
            }
        }
        repo
    }

    /// The name of the repository.
    pub fn name(&self) -> (r: &'static str)
        ensures
            r@ == "rpm"@,
    {
        REPO_NAME
    }

    /// Where the repository comes among others, the lowest first.
    pub fn default_priority(&self) -> (r: usize)
        ensures
            r == 10,
    {
        10
    }

    /// The components that own the path as a file of that type.
    pub fn claims_for_path(&self, path: &str, file_type: FileType) -> (r: Vec<ComponentId>)
        requires
            self.wf(),
        ensures
            r@ == (if in_rpmdb(path_components(path@)) || !self.owners().contains_key(
                path_components(path@),
            ) {
                seq![]
            } else {
                owners_of_type(self.owners()[path_components(path@)]@, file_type)
            }),
            forall|k: int| 0 <= k < r@.len() ==> (#[trigger] r@[k]).0 < self.table().len(),
    {
        let ghost cs = path_components(path@);
        // Don't claim RPM database paths - let them fall into chunkah/unclaimed
        if is_rpmdb_path(path) {
            return Vec::new();
        }
        let mut claims: Vec<ComponentId> = Vec::new();
        if let Some(entries) = self.path_to_components.get(path) {
            let mut a: usize = 0;
            let ghost list = entries@;
            let ghost wanted = |e: (ComponentId, RpmFileInfo)|
                mode_file_type(e.1.mode) == Some(file_type);
            let ghost id_of = |e: (ComponentId, RpmFileInfo)| e.0;
            assert(list.take(0).filter(wanted).map_values(id_of) =~= seq![]) by {
                reveal(Seq::filter);
            }
            assert forall|b: int| 0 <= b < list.len() implies (#[trigger] list[b]).0.0
                < self.table().len() by {
                assert(self.owners()[cs]@[b] == list[b]);
            }
            while a < entries.len()
                invariant
                    a <= list.len(),
                    list == entries@,
                    wanted == (|e: (ComponentId, RpmFileInfo)|
                        mode_file_type(e.1.mode) == Some(file_type)),
                    id_of == (|e: (ComponentId, RpmFileInfo)| e.0),
                    claims@ == list.take(a as int).filter(wanted).map_values(id_of),
                    forall|b: int|
                        0 <= b < list.len() ==> (#[trigger] list[b]).0.0 < self.table().len(),
                    forall|k: int|
                        0 <= k < claims@.len() ==> (#[trigger] claims@[k]).0 < self.table().len(),
                decreases list.len() - a,
            {
                let (id, info) = entries[a];
                proof {
                    reveal(Seq::filter);
                    assert(list.take(a + 1).drop_last() =~= list.take(a as int));
                    assert(list.take(a + 1).last() == list[a as int]);
                    let seen = list.take(a as int).filter(wanted);
                    assert(seen.push(list[a as int]).map_values(id_of) =~= seen.map_values(
                        id_of,
                    ).push(id));
                }
                match file_info_to_file_type(&info) {
                    Some(found) => if found == file_type {
                        claims.push(id);
                    },
                    None => {},
                }
                a += 1;
            }
            assert(list.take(a as int) =~= list);
        }
        claims
    }

    /// What is known of a component.
    pub fn component_info(&self, id: ComponentId) -> (r: ComponentInfo<'_>)
        requires
            id.0 < self.table().len(),
        ensures
            (r.name@, (r.mtime_clamp, r.stability)) == self.table()[id.0 as int],
    {
        let (name, value) = table_get_index(&self.components, id.0).unwrap();
        ComponentInfo { name: name.as_str(), mtime_clamp: value.0, stability: value.1 }
    }
}

/// The places where an RPM database can be, seen from the root.
pub open spec fn rpmdb_paths() -> Seq<Seq<char>> {
    seq!["usr/lib/sysimage/rpm"@, "usr/share/rpm"@, "var/lib/rpm"@]
}

/// Whether the path is one of an RPM database or lies in one.
pub open spec fn in_rpmdb(cs: Seq<Comp>) -> bool {
    absolute(cs) && exists|k: int|
        0 <= k < rpmdb_paths().len() && path_components(#[trigger] rpmdb_paths()[k]).is_prefix_of(
            cs.skip(1),
        )
}

/// The ids of the owners to which the file is one of that type.
pub open spec fn owners_of_type(
    list: Seq<(ComponentId, RpmFileInfo)>,
    file_type: FileType,
) -> Seq<ComponentId> {
    list.filter(
        |e: (ComponentId, RpmFileInfo)| mode_file_type(e.1.mode) == Some(file_type),
    ).map_values(|e: (ComponentId, RpmFileInfo)| e.0)
}

fn rpmdb_path(k: usize) -> (r: &'static str)
    requires
        k < 3,
    ensures
        r@ == rpmdb_paths()[k as int],
{
    if k == 0 {
        "usr/lib/sysimage/rpm"
    } else if k == 1 {
        "usr/share/rpm"
    } else {
        "var/lib/rpm"
    }
}

fn is_rpmdb_path(path: &str) -> (r: bool)
    ensures
        r == in_rpmdb(path_components(path@)),
{
    let ghost cs = path_components(path@);
    proof {
        root_components();
        assert(absolute(cs) || !absolute(cs));
    }
    if let Some(rel_path) = strip_prefix(path, "/") {
        let mut k: usize = 0;
        while k < 3
            invariant
                k <= 3,
                absolute(cs),
                cs == path_components(path@),
                path_components(rel_path@) == cs.skip(1),
                forall|j: int|
                    0 <= j < k ==> !path_components(#[trigger] rpmdb_paths()[j]).is_prefix_of(
                        cs.skip(1),
                    ),
            decreases 3 - k,
        {
            if starts_with(rel_path, rpmdb_path(k)) {
                assert(path_components(rpmdb_paths()[k as int]).is_prefix_of(cs.skip(1)));
                return true;
            }
            k += 1;
        }
    }
    false
}

/// What to do next to find out whether there is an RPM database.
#[derive(Debug, Clone, Copy)]
pub enum RpmdbProbe {
    /// See whether this path exists, seen from the root.
    Check(&'static str),
    /// There is one.
    Present,
    /// There is none.
    Absent,
}

/// Check if any known RPM database path exists in the rootfs, given whether each of the first
/// ones does. The paths behind one that exists are not asked for.
pub fn has_rpmdb(exists_so_far: &[bool]) -> (r: RpmdbProbe)
    ensures
        r is Present <==> exists_so_far@.contains(true),
        r is Absent <==> !exists_so_far@.contains(true) && exists_so_far@.len()
            >= rpmdb_paths().len(),
        r matches RpmdbProbe::Check(path) ==> path@ == rpmdb_paths()[exists_so_far@.len() as int],
{
    let mut k: usize = 0;
    while k < exists_so_far.len()
        invariant
            k <= exists_so_far@.len(),
            forall|j: int| 0 <= j < k ==> !#[trigger] exists_so_far@[j],
        decreases exists_so_far@.len() - k,
    {
        if exists_so_far[k] {
            return RpmdbProbe::Present;
        }
        k += 1;
    }
    if k < 3 {
        RpmdbProbe::Check(rpmdb_path(k))
    } else {
        RpmdbProbe::Absent
    }
}

/// A path has each of its owners once.
pub proof fn owner_once(packages: Seq<Package>, n: int, cs: Seq<Comp>, a: int, b: int)
    requires
        0 <= n <= packages.len(),
        0 <= a < b < path_owners(packages, n, cs).len(),
    ensures
        path_owners(packages, n, cs)[a].0 != path_owners(packages, n, cs)[b].0,
    decreases n,
{
    let before = path_owners(packages, n - 1, cs);
    let after = path_owners(packages, n, cs);
    if after == before {
        owner_once(packages, n - 1, cs, a, b);
    } else if b < before.len() {
        assert(after[a] == before[a] && after[b] == before[b]);
        owner_once(packages, n - 1, cs, a, b);
    } else {
        assert(after[a] == before[a]);
    }
}

/// Whether one of the first `n` packages is of that component and has the path `cs`.
pub open spec fn package_has(
    packages: Seq<Package>,
    n: int,
    name: Seq<char>,
    cs: Seq<Comp>,
) -> bool {
    exists|i: int|
        0 <= i < n && package_component(#[trigger] packages[i]) == name
            && packages[i].files.map().contains_key(cs)
}

/// Whether the package at `i` is the first of its component that has the path `cs`.
pub open spec fn first_with_path(packages: Seq<Package>, i: int, cs: Seq<Comp>) -> bool {
    &&& packages[i].files.map().contains_key(cs)
    &&& forall|j: int|
        0 <= j < i && package_component(#[trigger] packages[j]) == package_component(packages[i])
            ==> !packages[j].files.map().contains_key(cs)
}

/// What an owner tells of a path is what the first of its packages that has it tells.
pub proof fn owner_tells_of_first_package(packages: Seq<Package>, n: int, cs: Seq<Comp>, a: int)
    requires
        0 <= n <= packages.len(),
        0 <= a < path_owners(packages, n, cs).len(),
    ensures
        exists|i: int|
            0 <= i < n && #[trigger] first_with_path(packages, i, cs) && path_owners(
                packages,
                n,
                cs,
            )[a] == (package_component(packages[i]), packages[i].files.map()[cs]),
    decreases n,
{
    let before = path_owners(packages, n - 1, cs);
    let after = path_owners(packages, n, cs);
    if a < before.len() {
        assert(after[a] == before[a]);
        owner_tells_of_first_package(packages, n - 1, cs, a);
        let i = choose|i: int|
            0 <= i < n - 1 && #[trigger] first_with_path(packages, i, cs) && before[a] == (
                package_component(packages[i]),
                packages[i].files.map()[cs],
            );
        assert(first_with_path(packages, i, cs));
    } else {
        let name = package_component(packages[n - 1]);
        owner_has_package(packages, n - 1, name, cs);
        assert(first_with_path(packages, n - 1, cs)) by {
            assert forall|j: int|
                0 <= j < n - 1 && package_component(#[trigger] packages[j]) == name implies
                !packages[j].files.map().contains_key(cs) by {
                if packages[j].files.map().contains_key(cs) {
                    assert(package_has(packages, n - 1, name, cs));
                }
            }
        }
    }
}

/// A component owns a path if and only if one of its packages has it.
pub proof fn owner_has_package(packages: Seq<Package>, n: int, name: Seq<char>, cs: Seq<Comp>)
    requires
        0 <= n <= packages.len(),
    ensures
        has_owner(path_owners(packages, n, cs), name) <==> package_has(packages, n, name, cs),
    decreases n,
{
    if n > 0 {
        owner_has_package(packages, n - 1, name, cs);
        let before = path_owners(packages, n - 1, cs);
        let after = path_owners(packages, n, cs);
        let last = package_component(packages[n - 1]);
        if has_owner(after, name) {
            let a = choose|a: int| 0 <= a < after.len() && (#[trigger] after[a]).0 == name;
            if a < before.len() {
                assert(before[a].0 == name);
                let i = choose|i: int|
                    0 <= i < n - 1 && package_component(#[trigger] packages[i]) == name
                        && packages[i].files.map().contains_key(cs);
                assert(package_component(packages[i]) == name);
            } else {
                assert(package_component(packages[n - 1]) == name);
            }
        }
        if package_has(packages, n, name, cs) {
            let i = choose|i: int|
                0 <= i < n && package_component(#[trigger] packages[i]) == name
                    && packages[i].files.map().contains_key(cs);
            if i < n - 1 {
                assert(package_component(packages[i]) == name);
                assert(has_owner(before, name));
                let a = choose|a: int| 0 <= a < before.len() && (#[trigger] before[a]).0 == name;
                assert(after[a].0 == name);
            } else if has_owner(before, name) {
                let a = choose|a: int| 0 <= a < before.len() && (#[trigger] before[a]).0 == name;
                assert(after[a].0 == name);
            } else {
                assert(after[before.len() as int].0 == name);
            }
        }
    }
}

/// Every package has its component in the table.
pub proof fn package_is_in_table(packages: Seq<Package>, n: int, name: Seq<char>)
    requires
        0 <= n <= packages.len(),
    ensures
        component_names(packages, n).contains(name) <==> exists|i: int|
            0 <= i < n && package_component(#[trigger] packages[i]) == name,
    decreases n,
{
    if n > 0 {
        package_is_in_table(packages, n - 1, name);
        let before = component_names(packages, n - 1);
        let after = component_names(packages, n);
        if after.contains(name) {
            let k = choose|k: int| 0 <= k < after.len() && after[k] == name;
            if k < before.len() {
                assert(before[k] == name);
                assert(before.contains(name));
                let i = choose|i: int|
                    0 <= i < n - 1 && package_component(#[trigger] packages[i]) == name;
                assert(package_component(packages[i]) == name);
            } else {
                assert(package_component(packages[n - 1]) == name);
            }
        }
        if exists|i: int| 0 <= i < n && package_component(#[trigger] packages[i]) == name {
            let i = choose|i: int| 0 <= i < n && package_component(#[trigger] packages[i]) == name;
            if i < n - 1 {
                assert(package_component(packages[i]) == name);
                let k = choose|k: int| 0 <= k < before.len() && before[k] == name;
                assert(after[k] == name);
            } else if before.contains(name) {
                let k = choose|k: int| 0 <= k < before.len() && before[k] == name;
                assert(after[k] == name);
            } else {
                assert(after[before.len() as int] == name);
            }
        }
    }
}

/// The build time of a component is that of one of its packages, and none was built later.
pub proof fn latest_build_is_greatest(packages: Seq<Package>, n: int, name: Seq<char>)
    requires
        0 <= n <= packages.len(),
    ensures
        forall|i: int|
            0 <= i < n && package_component(#[trigger] packages[i]) == name ==> packages[i].buildtime
                <= latest_build(packages, n, name),
        latest_build(packages, n, name) > 0 ==> exists|i: int|
            0 <= i < n && package_component(#[trigger] packages[i]) == name && packages[i].buildtime
                == latest_build(packages, n, name),
    decreases n,
{
    if n > 0 {
        latest_build_is_greatest(packages, n - 1, name);
        let before = latest_build(packages, n - 1, name);
        if latest_build(packages, n, name) == before && before > 0 {
            let i = choose|i: int|
                0 <= i < n - 1 && package_component(#[trigger] packages[i]) == name
                    && packages[i].buildtime == before;
            assert(package_component(packages[i]) == name);
        } else if latest_build(packages, n, name) > 0 {
            assert(package_component(packages[n - 1]) == name);
        }
    }
}

proof fn lemma_stability_wf(package: Package, now: u64)
    requires
        package.changelog_times@.len() <= u64::MAX,
    ensures
        package_stability(package, now).wf(),
{
    span_is_within_lookback(package.changelog_times@, package.buildtime, now);
}

/// The stability of a component is that of one of its packages, and none of them has a lower
/// chance, nor the same chance over a shorter span: the most pessimistic one counts.
pub proof fn lowest_stability_is_least(
    packages: Seq<Package>,
    now: u64,
    n: int,
    name: Seq<char>,
)
    requires
        0 <= n <= packages.len(),
        forall|i: int|
            0 <= i < packages.len() ==> (#[trigger] packages[i]).changelog_times@.len() <= u64::MAX,
    ensures
        lowest_stability(packages, now, n, name).wf(),
        forall|i: int|
            0 <= i < n && package_component(#[trigger] packages[i]) == name ==> {
                let own = package_stability(packages[i], now);
                let lowest = lowest_stability(packages, now, n, name);
                !own.below(lowest) && !own.precedes(lowest)
            },
        lowest_stability(packages, now, n, name) == Stability::VeryStable || exists|i: int|
            0 <= i < n && package_component(#[trigger] packages[i]) == name && package_stability(
                packages[i],
                now,
            ) == lowest_stability(packages, now, n, name),
    decreases n,
{
    if n > 0 {
        lowest_stability_is_least(packages, now, n - 1, name);
        let before = lowest_stability(packages, now, n - 1, name);
        let after = lowest_stability(packages, now, n, name);
        let own = package_stability(packages[n - 1], now);
        lemma_stability_wf(packages[n - 1], now);
        assert forall|i: int|
            0 <= i < n && package_component(#[trigger] packages[i]) == name implies {
            let stability = package_stability(packages[i], now);
            !stability.below(after) && !stability.precedes(after)
        } by {
            if i < n - 1 {
                lemma_stability_wf(packages[i], now);
                if after != before {
                    // own precedes before, which the stability of packages[i] does not precede
                    order_is_total(after, before);
                    order_is_transitive(
                        after,
                        before,
                        package_stability(packages[i], now),
                    );
                }
            }
        }
        if after == before {
            if before != Stability::VeryStable {
                let i = choose|i: int|
                    0 <= i < n - 1 && package_component(#[trigger] packages[i]) == name
                        && package_stability(packages[i], now) == before;
                assert(package_component(packages[i]) == name);
            }
        } else {
            assert(package_component(packages[n - 1]) == name && own == after);
        }
    }
}

/// Whether the path `cs` is one of the first `n` entries.
spec fn among(files: Seq<(Seq<char>, RpmFileInfo)>, n: int, cs: Seq<Comp>) -> bool {
    exists|m: int| m < n && #[trigger] entry_at(files, m, cs)
}

proof fn lemma_among_next(files: Seq<(Seq<char>, RpmFileInfo)>, k: int, cs: Seq<Comp>)
    requires
        0 <= k < files.len(),
    ensures
        among(files, k + 1, cs) <==> among(files, k, cs) || cs == path_components(files[k].0),
{
    if among(files, k + 1, cs) {
        let m = choose|m: int| m < k + 1 && #[trigger] entry_at(files, m, cs);
        if m < k {
            assert(entry_at(files, m, cs));
        }
    }
    if among(files, k, cs) {
        let m = choose|m: int| m < k && #[trigger] entry_at(files, m, cs);
        assert(m < k + 1 && entry_at(files, m, cs));
    }
    if cs == path_components(files[k].0) {
        assert(entry_at(files, k, cs));
    }
}

proof fn lemma_not_yet(files: Seq<(Seq<char>, RpmFileInfo)>, k: int)
    requires
        sorted(files),
        0 <= k < files.len(),
    ensures
        !among(files, k, path_components(files[k].0)),
{
    let cs = path_components(files[k].0);
    if among(files, k, cs) {
        let m = choose|m: int| m < k && #[trigger] entry_at(files, m, cs);
        one_place(files, m, k);
    }
}

proof fn lemma_held_more(
    map: Map<Seq<Comp>, Vec<(ComponentId, RpmFileInfo)>>,
    cs: Seq<Comp>,
    owners: Seq<(Seq<char>, RpmFileInfo)>,
    names_before: Seq<Seq<char>>,
    names: Seq<Seq<char>>,
)
    requires
        owners_held(map, cs, owners, names_before),
        names_before.len() <= names.len(),
        forall|k: int| 0 <= k < names_before.len() ==> names_before[k] == #[trigger] names[k],
    ensures
        owners_held(map, cs, owners, names),
{
    if map.contains_key(cs) {
        let list = map[cs]@;
        assert forall|a: int| 0 <= a < list.len() implies {
            let e = #[trigger] list[a];
            &&& e.0.0 < names.len()
            &&& names[e.0.0 as int] == owners[a].0
            &&& e.1 == owners[a].1
        } by {
            let e = list[a];
            assert(names_before[e.0.0 as int] == names[e.0.0 as int]);
        }
    }
}

proof fn lemma_owners_step(
    before: Seq<(ComponentId, RpmFileInfo)>,
    after: Seq<(ComponentId, RpmFileInfo)>,
    owners_before: Seq<(Seq<char>, RpmFileInfo)>,
    owners_after: Seq<(Seq<char>, RpmFileInfo)>,
    names: Seq<Seq<char>>,
    id: ComponentId,
    name: Seq<char>,
    info: RpmFileInfo,
)
    requires
        names.no_duplicates(),
        id.0 < names.len(),
        names[id.0 as int] == name,
        stand_for(before, owners_before, names),
        owners_after == (if has_owner(owners_before, name) {
            owners_before
        } else {
            owners_before.push((name, info))
        }),
        after == (if exists|a: int| 0 <= a < before.len() && (#[trigger] before[a]).0 == id {
            before
        } else {
            before.push((id, info))
        }),
    ensures
        stand_for(after, owners_after, names),
        owners_after.len() > 0,
{
    let known = exists|a: int| 0 <= a < before.len() && (#[trigger] before[a]).0 == id;
    if known {
        let a = choose|a: int| 0 <= a < before.len() && (#[trigger] before[a]).0 == id;
        assert(owners_before[a].0 == name);
    }
    if has_owner(owners_before, name) {
        let a = choose|a: int| 0 <= a < owners_before.len() && (#[trigger] owners_before[a]).0 == name;
        assert(names[before[a].0.0 as int] == name);
        assert(before[a].0.0 == id.0);
        assert(before[a].0 == id);
    } else {
        assert forall|a: int| 0 <= a < after.len() implies {
            let e = #[trigger] after[a];
            &&& e.0.0 < names.len()
            &&& names[e.0.0 as int] == owners_after[a].0
            &&& e.1 == owners_after[a].1
        } by {
            if a < before.len() {
                assert(after[a] == before[a]);
                assert(owners_after[a] == owners_before[a]);
            }
        }
    }
}

proof fn lemma_table_next(
    packages: Seq<Package>,
    now: u64,
    n: int,
    before: Seq<(Seq<char>, (u64, Stability))>,
    after: Seq<(Seq<char>, (u64, Stability))>,
    id: ComponentId,
)
    requires
        0 <= n < packages.len(),
        before == component_table(packages, now, n),
        ({
            let name = package_component(packages[n]);
            let value = (
                latest_build(packages, n + 1, name),
                lowest_stability(packages, now, n + 1, name),
            );
            &&& component_names(packages, n).contains(name) ==> id.0 < before.len()
                && before[id.0 as int].0 == name && after == before.update(
                id.0 as int,
                (name, value),
            )
            &&& !component_names(packages, n).contains(name) ==> id.0 == before.len() && after
                == before.push((name, value))
        }),
    ensures
        after == component_table(packages, now, n + 1),
        id.0 < component_names(packages, n + 1).len(),
        component_names(packages, n + 1)[id.0 as int] == package_component(packages[n]),
{
    lemma_names(packages, n);
    let name = package_component(packages[n]);
    let names = component_names(packages, n);
    let table = component_table(packages, now, n + 1);
    assert(after.len() == table.len());
    assert forall|k: int| 0 <= k < after.len() implies after[k] == table[k] by {
        if k < names.len() {
            assert(before[k].0 == names[k]);
            if k != id.0 {
                if names.contains(name) {
                    assert(before[id.0 as int].0 == names[id.0 as int]);
                }
                assert(names[k] != name);
            }
        }
    }
    assert(after =~= table);
}

/// Whether the same packages stand in both lists, in whatever order.
pub open spec fn same_packages(a: Seq<Package>, b: Seq<Package>) -> bool {
    forall|p: Package| #[trigger] a.contains(p) <==> b.contains(p)
}

proof fn lemma_order_one_way(
    a: Seq<Package>,
    b: Seq<Package>,
    now: u64,
    name: Seq<char>,
    cs: Seq<Comp>,
)
    requires
        same_packages(a, b),
        forall|i: int| 0 <= i < a.len() ==> (#[trigger] a[i]).changelog_times@.len() <= u64::MAX,
        forall|i: int| 0 <= i < b.len() ==> (#[trigger] b[i]).changelog_times@.len() <= u64::MAX,
    ensures
        component_names(a, a.len() as int).contains(name) ==> component_names(
            b,
            b.len() as int,
        ).contains(name),
        latest_build(a, a.len() as int, name) <= latest_build(b, b.len() as int, name),
        lowest_stability(a, now, a.len() as int, name).wf(),
        !lowest_stability(a, now, a.len() as int, name).precedes(
            lowest_stability(b, now, b.len() as int, name),
        ),
        has_owner(path_owners(a, a.len() as int, cs), name) ==> has_owner(
            path_owners(b, b.len() as int, cs),
            name,
        ),
{
    let m = a.len() as int;
    let n = b.len() as int;
    assert forall|i: int|
        #![trigger a[i]]
        0 <= i < m implies exists|j: int| 0 <= j < n && #[trigger] b[j] == a[i] by {
        assert(a.contains(a[i]));
        assert(b.contains(a[i]));
    }
    package_is_in_table(a, m, name);
    package_is_in_table(b, n, name);
    latest_build_is_greatest(a, m, name);
    latest_build_is_greatest(b, n, name);
    lowest_stability_is_least(a, now, m, name);
    lowest_stability_is_least(b, now, n, name);
    owner_has_package(a, m, name, cs);
    owner_has_package(b, n, name, cs);
    if component_names(a, m).contains(name) {
        let i = choose|i: int| 0 <= i < m && package_component(#[trigger] a[i]) == name;
        let j = choose|j: int| 0 <= j < n && #[trigger] b[j] == a[i];
        assert(package_component(b[j]) == name);
    }
    if latest_build(a, m, name) > 0 {
        let i = choose|i: int|
            0 <= i < m && package_component(#[trigger] a[i]) == name && a[i].buildtime
                == latest_build(a, m, name);
        let j = choose|j: int| 0 <= j < n && #[trigger] b[j] == a[i];
        assert(package_component(b[j]) == name);
    }
    let low = lowest_stability(a, now, m, name);
    if low != Stability::VeryStable {
        let i = choose|i: int|
            0 <= i < m && package_component(#[trigger] a[i]) == name && package_stability(a[i], now)
                == low;
        let j = choose|j: int| 0 <= j < n && #[trigger] b[j] == a[i];
        assert(package_component(b[j]) == name);
    }
    if package_has(a, m, name, cs) {
        let i = choose|i: int|
            0 <= i < m && package_component(#[trigger] a[i]) == name
                && a[i].files.map().contains_key(cs);
        let j = choose|j: int| 0 <= j < n && #[trigger] b[j] == a[i];
        assert(package_component(b[j]) == name);
    }
}

/// Whatever order the packages come in, there are the same components, each with the same
/// build time, the same stability, and the same paths.
pub proof fn order_does_not_matter(
    a: Seq<Package>,
    b: Seq<Package>,
    now: u64,
    name: Seq<char>,
    cs: Seq<Comp>,
)
    requires
        same_packages(a, b),
        forall|i: int| 0 <= i < a.len() ==> (#[trigger] a[i]).changelog_times@.len() <= u64::MAX,
        forall|i: int| 0 <= i < b.len() ==> (#[trigger] b[i]).changelog_times@.len() <= u64::MAX,
    ensures
        component_names(a, a.len() as int).contains(name) <==> component_names(
            b,
            b.len() as int,
        ).contains(name),
        latest_build(a, a.len() as int, name) == latest_build(b, b.len() as int, name),
        lowest_stability(a, now, a.len() as int, name) == lowest_stability(
            b,
            now,
            b.len() as int,
            name,
        ),
        has_owner(path_owners(a, a.len() as int, cs), name) <==> has_owner(
            path_owners(b, b.len() as int, cs),
            name,
        ),
{
    lemma_order_one_way(a, b, now, name, cs);
    lemma_order_one_way(b, a, now, name, cs);
    order_is_total(
        lowest_stability(a, now, a.len() as int, name),
        lowest_stability(b, now, b.len() as int, name),
    );
}

proof fn lemma_owned_where_found(
    before: Seq<Package>,
    after: Seq<Package>,
    places: Seq<Seq<Seq<Comp>>>,
    name: Seq<char>,
    cs: Seq<Comp>,
)
    requires
        all_moved(before, after, places),
    ensures
        has_owner(path_owners(after, after.len() as int, cs), name) <==> exists|i: int, k: int|
            0 <= i < places.len() && 0 <= k < places[i].len() && package_component(before[i])
                == name && #[trigger] places[i][k] == cs,
{
    owner_has_package(after, after.len() as int, name, cs);
    if package_has(after, after.len() as int, name, cs) {
        let i = choose|i: int|
            0 <= i < after.len() && package_component(#[trigger] after[i]) == name
                && after[i].files.map().contains_key(cs);
        moved_to_places(before[i].files@, places[i], places[i].len() as int, cs);
        let k = choose|k: int| 0 <= k < places[i].len() && #[trigger] places[i][k] == cs;
        assert(places[i][k] == cs);
    }
    if exists|i: int, k: int|
        0 <= i < places.len() && 0 <= k < places[i].len() && package_component(before[i]) == name
            && #[trigger] places[i][k] == cs {
        let (i, k) = choose|i: int, k: int|
            0 <= i < places.len() && 0 <= k < places[i].len() && package_component(before[i])
                == name && #[trigger] places[i][k] == cs;
        assert(places[i].len() == before[i].files@.len());
        moved_to_places(before[i].files@, places[i], places[i].len() as int, cs);
        assert(package_component(after[i]) == name);
    }
}

/// Of canonicalized packages, a component owns a path if and only if the links lead from a
/// file of one of its packages to that path.
pub proof fn owned_where_links_lead(
    files: Map<Seq<Comp>, FileInfo>,
    read: Map<Seq<Comp>, Option<String>>,
    before: Seq<Package>,
    after: Seq<Package>,
    name: Seq<char>,
    cs: Seq<Comp>,
)
    requires
        walk_to_all(files, read, before) is Done,
        all_moved(before, after, walk_to_all(files, read, before)->Done_0),
    ensures
        has_owner(path_owners(after, after.len() as int, cs), name) <==> exists|i: int, k: int|
            0 <= i < before.len() && 0 <= k < before[i].files@.len() && package_component(before[i])
                == name && file_leads_to(
                known_links(files, read),
                path_components((#[trigger] before[i].files@[k]).0),
                cs,
            ),
{
    let links = known_links(files, read);
    let paths = package_paths(before);
    let places = walk_to_all(files, read, before)->Done_0;
    files_found_where_links_lead(links, Map::empty(), paths);
    lemma_owned_where_found(before, after, places, name, cs);
    if has_owner(path_owners(after, after.len() as int, cs), name) {
        let (i, k) = choose|i: int, k: int|
            0 <= i < places.len() && 0 <= k < places[i].len() && package_component(before[i])
                == name && #[trigger] places[i][k] == cs;
        assert(files_lead_to(links, paths[i], places[i]));
        assert(paths[i][k] == path_components(before[i].files@[k].0));
    }
    if exists|i: int, k: int|
        0 <= i < before.len() && 0 <= k < before[i].files@.len() && package_component(before[i])
            == name && file_leads_to(
            links,
            path_components((#[trigger] before[i].files@[k]).0),
            cs,
        ) {
        let (i, k) = choose|i: int, k: int|
            0 <= i < before.len() && 0 <= k < before[i].files@.len() && package_component(before[i])
                == name && file_leads_to(
                links,
                path_components((#[trigger] before[i].files@[k]).0),
                cs,
            );
        assert(files_lead_to(links, paths[i], places[i]));
        assert(paths[i][k] == path_components(before[i].files@[k].0));
        file_found_in_one_place(links, paths[i][k], cs, places[i][k]);
        assert(places[i][k] == cs);
    }
}

/// Whether `text` is the file name of a source package without the `.src.rpm` at the end.
pub open spec fn is_stem(srpm: Seq<char>, text: Seq<char>) -> bool {
    srpm == text + ".src.rpm"@ || (srpm == text && !".src.rpm"@.is_suffix_of(srpm))
}

/// Whether a package is of the component `name`: that is the name in the file name of its
/// source package, or where that is not known, its own name.
pub open spec fn is_of(package: Package, name: Seq<char>) -> bool {
    match package.sourcerpm {
        Some(srpm) => exists|text: Seq<char>| #[trigger]
            is_stem(srpm@, text) && is_name_in(text, name),
        None => name == package.name@,
    }
}

/// A package is of one component: the name of its source package, which with version and
/// release makes the file name of that, or its own name.
pub proof fn components_are_source_packages(package: Package, name: Seq<char>)
    ensures
        package_component(package) == name <==> is_of(package, name),
        package.sourcerpm is None ==> package_component(package) == package.name@,
        package.sourcerpm matches Some(srpm) ==> forall|version: Seq<char>, release: Seq<char>|
            #![trigger is_nvr(srpm@, name, version, release)]
            #![trigger name + seq!['-'] + version + seq!['-'] + release + ".src.rpm"@]
            !version.contains('-') && !release.contains('-') && srpm@ == name + seq!['-'] + version
                + seq!['-'] + release + ".src.rpm"@ ==> package_component(package) == name,
{
    match package.sourcerpm {
        Some(srpm) => {
            let suffix = ".src.rpm"@;
            let stem = if suffix.is_suffix_of(srpm@) {
                srpm@.take(srpm@.len() - suffix.len())
            } else {
                srpm@
            };
            if suffix.is_suffix_of(srpm@) {
                assert(srpm@ =~= stem + suffix);
            }
            assert(is_stem(srpm@, stem));
            source_name_is_the_name_in_the_text(srpm@, stem, name);
            if is_of(package, name) {
                let text = choose|text: Seq<char>| #[trigger]
                    is_stem(srpm@, text) && is_name_in(text, name);
                source_name_is_the_name_in_the_text(srpm@, text, name);
            }
            assert forall|version: Seq<char>, release: Seq<char>|
                #![trigger is_nvr(srpm@, name, version, release)]
                #![trigger name + seq!['-'] + version + seq!['-'] + release + ".src.rpm"@]
                !version.contains('-') && !release.contains('-') && srpm@ == name + seq!['-']
                    + version + seq!['-'] + release + ".src.rpm"@ implies package_component(package)
                == name by {
                assert forall|i: int| 0 <= i < version.len() implies #[trigger] version[i] != '-' by {
                    assert(version.contains(version[i]));
                }
                assert forall|i: int| 0 <= i < release.len() implies #[trigger] release[i] != '-' by {
                    assert(release.contains(release[i]));
                }
                only_version_and_release_are_taken_off(name, version, release, seq![]);
            }
        },
        None => {},
    }
}

proof fn lemma_of(packages: Seq<Package>)
    ensures
        forall|i: int, name: Seq<char>|
            0 <= i < packages.len() ==> (#[trigger] is_of(packages[i], name) <==> package_component(
                packages[i],
            ) == name),
{
    assert forall|i: int, name: Seq<char>|
        0 <= i < packages.len() implies (#[trigger] is_of(packages[i], name) <==> package_component(
        packages[i],
    ) == name) by {
        components_are_source_packages(packages[i], name);
    }
}

/// The latest build time and the lowest stability of the packages of a component are its own.
/// There is no component without a package.
pub proof fn components_sum_up_their_packages(
    packages: Seq<Package>,
    repo: RpmRepo,
    now: u64,
    id: int,
    name: Seq<char>,
    buildtime: u64,
    stability: Stability,
)
    requires
        repo.table() == component_table(packages, now, packages.len() as int),
        0 <= id < repo.table().len(),
        repo.table()[id] == (name, (buildtime, stability)),
        forall|i: int|
            0 <= i < packages.len() ==> (#[trigger] packages[i]).changelog_times@.len() <= u64::MAX,
    ensures
        exists|i: int|
            0 <= i < packages.len() && #[trigger] is_of(packages[i], name) && packages[i].buildtime
                == buildtime,
        forall|i: int|
            0 <= i < packages.len() && #[trigger] is_of(packages[i], name)
                ==> packages[i].buildtime <= buildtime,
        exists|i: int|
            0 <= i < packages.len() && #[trigger] is_of(packages[i], name) && stability_of(
                packages[i].changelog_times@,
                packages[i].buildtime,
                now,
            ) == stability,
        forall|i: int|
            0 <= i < packages.len() && #[trigger] is_of(packages[i], name) ==> {
                let own = stability_of(packages[i].changelog_times@, packages[i].buildtime, now);
                &&& !own.below(stability)
                &&& own is Poisson && stability is Poisson && own.same_chance(stability)
                    ==> stability->span_secs <= own->span_secs
            },
{
    let n = packages.len() as int;
    let names = component_names(packages, n);
    assert(names[id] == name);
    lemma_of(packages);
    package_is_in_table(packages, n, name);
    latest_build_is_greatest(packages, n, name);
    lowest_stability_is_least(packages, now, n, name);
    assert(names.contains(name));
    let i = choose|i: int| 0 <= i < n && package_component(#[trigger] packages[i]) == name;
    assert(is_of(packages[i], name));
    assert(buildtime == latest_build(packages, n, name));
    assert(stability == lowest_stability(packages, now, n, name));
    let b = if buildtime > 0 {
        choose|b: int|
            0 <= b < n && package_component(#[trigger] packages[b]) == name
                && packages[b].buildtime == buildtime
    } else {
        i
    };
    assert(is_of(packages[b], name) && packages[b].buildtime == buildtime);
    if stability == Stability::VeryStable {
        lemma_stability_wf(packages[i], now);
        order_is_total(package_stability(packages[i], now), stability);
        assert(package_stability(packages[i], now) == stability);
    } else {
        let c = choose|c: int|
            0 <= c < n && package_component(#[trigger] packages[c]) == name && package_stability(
                packages[c],
                now,
            ) == stability;
        assert(is_of(packages[c], name));
    }
    assert forall|e: int|
        0 <= e < n && #[trigger] is_of(packages[e], name) implies packages[e].buildtime
        <= buildtime && !package_stability(packages[e], now).below(stability)
        && !package_stability(packages[e], now).precedes(stability) by {
        assert(package_component(packages[e]) == name);
    }
}

proof fn lemma_first_of_name(packages: Seq<Package>, n: int, m: int)
    requires
        0 <= n <= packages.len(),
        0 <= m < component_names(packages, n).len(),
    ensures
        exists|k: int|
            0 <= k < n && package_component(#[trigger] packages[k]) == component_names(
                packages,
                n,
            )[m] && component_names(packages, k) == component_names(packages, n).take(m),
    decreases n,
{
    if n > 0 {
        let before = component_names(packages, n - 1);
        let after = component_names(packages, n);
        if m < before.len() {
            lemma_first_of_name(packages, n - 1, m);
            let k = choose|k: int|
                0 <= k < n - 1 && package_component(#[trigger] packages[k]) == before[m]
                    && component_names(packages, k) == before.take(m);
            assert(after.take(m) =~= before.take(m));
            assert(package_component(packages[k]) == after[m]);
        } else {
            assert(after.take(m) =~= before);
            assert(package_component(packages[n - 1]) == after[m]);
        }
    }
}

/// Each package has its component, no two components have one name, and they are numbered in
/// the order in which the packages come: the packages before the first of a component are of
/// components with a lower number.
pub proof fn components_are_numbered_as_their_packages_come(
    packages: Seq<Package>,
    repo: RpmRepo,
    now: u64,
    id: int,
    i: int,
    name: Seq<char>,
)
    requires
        repo.table() == component_table(packages, now, packages.len() as int),
    ensures
        0 <= i < packages.len() && is_of(packages[i], name) ==> exists|k: int|
            0 <= k < repo.table().len() && (#[trigger] repo.table()[k]).0 == name,
        forall|a: int, b: int|
            0 <= a < b < repo.table().len() ==> (#[trigger] repo.table()[a]).0 != (
            #[trigger] repo.table()[b]).0,
        0 <= id < repo.table().len() ==> exists|k: int|
            0 <= k < packages.len() && #[trigger] is_of(packages[k], repo.table()[id].0)
                && forall|j: int, other: Seq<char>|
                0 <= j < k && #[trigger] is_of(packages[j], other) ==> exists|e: int|
                    0 <= e < id && (#[trigger] repo.table()[e]).0 == other,
{
    let n = packages.len() as int;
    let names = component_names(packages, n);
    let table = repo.table();
    lemma_of(packages);
    lemma_all_names(packages, n);
    assert(forall|k: int| 0 <= k < table.len() ==> (#[trigger] table[k]).0 == names[k]);
    if 0 <= i < n && is_of(packages[i], name) {
        package_is_in_table(packages, n, name);
        assert(package_component(packages[i]) == name);
        let k = choose|k: int| 0 <= k < names.len() && names[k] == name;
        assert(table[k].0 == name);
    }
    if 0 <= id < table.len() {
        lemma_first_of_name(packages, n, id);
        let k = choose|k: int|
            0 <= k < n && package_component(#[trigger] packages[k]) == names[id]
                && component_names(packages, k) == names.take(id);
        assert(is_of(packages[k], table[id].0));
        assert forall|j: int, other: Seq<char>|
            0 <= j < k && #[trigger] is_of(packages[j], other) implies exists|e: int|
            0 <= e < id && (#[trigger] table[e]).0 == other by {
            package_is_in_table(packages, k, other);
            assert(package_component(packages[j]) == other);
            let e = choose|e: int| 0 <= e < names.take(id).len() && names.take(id)[e] == other;
            assert(table[e].0 == other);
        }
    }
}

proof fn lemma_all_names(packages: Seq<Package>, n: int)
    requires
        0 <= n <= packages.len(),
    ensures
        component_names(packages, n).no_duplicates(),
    decreases n,
{
    if n > 0 {
        lemma_all_names(packages, n - 1);
    }
}

proof fn lemma_owner_place(packages: Seq<Package>, n: int, cs: Seq<Comp>, a: int)
    requires
        0 <= n <= packages.len(),
        0 <= a < path_owners(packages, n, cs).len(),
    ensures
        exists|i: int|
            0 <= i < n && #[trigger] first_with_path(packages, i, cs) && path_owners(
                packages,
                n,
                cs,
            )[a] == (package_component(packages[i]), packages[i].files.map()[cs]) && path_owners(
                packages,
                i,
                cs,
            ) == path_owners(packages, n, cs).take(a),
    decreases n,
{
    let before = path_owners(packages, n - 1, cs);
    let after = path_owners(packages, n, cs);
    if a < before.len() {
        assert(after[a] == before[a]);
        lemma_owner_place(packages, n - 1, cs, a);
        let i = choose|i: int|
            0 <= i < n - 1 && #[trigger] first_with_path(packages, i, cs) && before[a] == (
                package_component(packages[i]),
                packages[i].files.map()[cs],
            ) && path_owners(packages, i, cs) == before.take(a);
        assert(after.take(a) =~= before.take(a));
        assert(first_with_path(packages, i, cs));
    } else {
        owner_tells_of_first_package(packages, n, cs, a);
        assert(after.take(a) =~= before);
        let name = package_component(packages[n - 1]);
        owner_has_package(packages, n - 1, name, cs);
        assert(first_with_path(packages, n - 1, cs)) by {
            assert forall|j: int|
                0 <= j < n - 1 && package_component(#[trigger] packages[j]) == name implies
                !packages[j].files.map().contains_key(cs) by {
                if packages[j].files.map().contains_key(cs) {
                    assert(package_has(packages, n - 1, name, cs));
                }
            }
        }
    }
}

/// A path is owned by the components of the packages that have it, each of them once, in the
/// order in which the packages come. Of packages of one component the first that has the path
/// tells what it is.
pub proof fn paths_are_owned_by_their_packages(
    packages: Seq<Package>,
    repo: RpmRepo,
    now: u64,
    cs: Seq<Comp>,
    i: int,
    name: Seq<char>,
    a: int,
)
    requires
        repo.made_from(packages, now),
    ensures
        repo.owners().contains_key(cs) <==> exists|j: int|
            0 <= j < packages.len() && (#[trigger] packages[j]).files.map().contains_key(cs),
        0 <= i < packages.len() && is_of(packages[i], name)
            && packages[i].files.map().contains_key(cs) ==> repo.owners().contains_key(cs)
            && exists|b: int|
            0 <= b < repo.owners()[cs]@.len() && repo.table()[(
            #[trigger] repo.owners()[cs]@[b]).0.0 as int].0 == name,
        repo.owners().contains_key(cs) && 0 <= a < repo.owners()[cs]@.len() ==> {
            let (id, info) = repo.owners()[cs]@[a];
            &&& id.0 < repo.table().len()
            &&& exists|k: int|
                {
                    &&& 0 <= k < packages.len()
                    &&& #[trigger] is_of(packages[k], repo.table()[id.0 as int].0)
                    &&& packages[k].files.map().contains_key(cs)
                    &&& packages[k].files.map()[cs] == info
                    &&& forall|j: int, other: Seq<char>|
                        0 <= j < k && packages[j].files.map().contains_key(cs) && #[trigger] is_of(
                            packages[j],
                            other,
                        ) ==> other != repo.table()[id.0 as int].0 && exists|b: int|
                            0 <= b < a && repo.table()[(
                            #[trigger] repo.owners()[cs]@[b]).0.0 as int].0 == other
                }
        },
{
    let n = packages.len() as int;
    let owners = path_owners(packages, n, cs);
    let names = component_names(packages, n);
    let table = repo.table();
    lemma_of(packages);
    assert(forall|k: int| 0 <= k < names.len() ==> (#[trigger] table[k]).0 == names[k]);
    if repo.owners().contains_key(cs) {
        lemma_owner_place(packages, n, cs, 0);
        let k = choose|k: int| 0 <= k < n && #[trigger] first_with_path(packages, k, cs);
        assert(packages[k].files.map().contains_key(cs));
        assert(stand_for(repo.owners()[cs]@, owners, names));
    }
    assert forall|j: int|
        0 <= j < n && (#[trigger] packages[j]).files.map().contains_key(cs) implies
        repo.owners().contains_key(cs) && exists|b: int|
        0 <= b < repo.owners()[cs]@.len() && repo.table()[(
        #[trigger] repo.owners()[cs]@[b]).0.0 as int].0 == package_component(packages[j]) by {
        let own = package_component(packages[j]);
        owner_has_package(packages, n, own, cs);
        assert(package_has(packages, n, own, cs));
        let b = choose|b: int| 0 <= b < owners.len() && (#[trigger] owners[b]).0 == own;
        assert(repo.owners().contains_key(cs));
        assert(stand_for(repo.owners()[cs]@, owners, names));
        let e = repo.owners()[cs]@[b];
        assert(names[e.0.0 as int] == owners[b].0);
        assert(table[e.0.0 as int].0 == own);
    }
    if repo.owners().contains_key(cs) && 0 <= a < repo.owners()[cs]@.len() {
        let list = repo.owners()[cs]@;
        let (id, info) = list[a];
        lemma_owner_place(packages, n, cs, a);
        let k = choose|k: int|
            0 <= k < n && #[trigger] first_with_path(packages, k, cs) && owners[a] == (
                package_component(packages[k]),
                packages[k].files.map()[cs],
            ) && path_owners(packages, k, cs) == owners.take(a);
        assert(table[id.0 as int].0 == owners[a].0);
        assert(is_of(packages[k], table[id.0 as int].0));
        assert forall|j: int, other: Seq<char>|
            0 <= j < k && packages[j].files.map().contains_key(cs) && #[trigger] is_of(
                packages[j],
                other,
            ) implies other != table[id.0 as int].0 && exists|b: int|
            0 <= b < a && table[(#[trigger] list[b]).0.0 as int].0 == other by {
            assert(package_component(packages[j]) == other);
            owner_has_package(packages, k, other, cs);
            assert(package_has(packages, k, other, cs));
            let before = path_owners(packages, k, cs);
            let b = choose|b: int| 0 <= b < before.len() && (#[trigger] before[b]).0 == other;
            assert(owners[b] == before[b]);
            let e = list[b];
            assert(names[e.0.0 as int] == owners[b].0);
            assert(table[e.0.0 as int].0 == other);
        }
    }
}

/// The file type is in the four highest of the sixteen bits of a mode.
pub proof fn file_types_are_in_the_mode(mode: u16)
    ensures
        mode_file_type(mode) == Some(FileType::Directory) <==> 0o040000 <= mode < 0o050000,
        mode_file_type(mode) == Some(FileType::File) <==> 0o100000 <= mode < 0o110000,
        mode_file_type(mode) == Some(FileType::Symlink) <==> 0o120000 <= mode < 0o130000,
{
}

/// Whether a mode is that of a file of the type.
pub open spec fn mode_is_of(mode: u16, file_type: FileType) -> bool {
    match file_type {
        FileType::Directory => 0o040000 <= mode < 0o050000,
        FileType::File => 0o100000 <= mode < 0o110000,
        FileType::Symlink => 0o120000 <= mode < 0o130000,
    }
}

/// Of the owners of a path those claim it to which it is of the type that is asked for, in
/// their order.
pub proof fn owners_claim_by_type(
    list: Seq<(ComponentId, RpmFileInfo)>,
    owner: (ComponentId, RpmFileInfo),
    file_type: FileType,
)
    ensures
        owners_of_type(seq![], file_type) == Seq::<ComponentId>::empty(),
        owners_of_type(list.push(owner), file_type) == (if mode_is_of(owner.1.mode, file_type) {
            owners_of_type(list, file_type).push(owner.0)
        } else {
            owners_of_type(list, file_type)
        }),
{
    reveal(Seq::filter);
    file_types_are_in_the_mode(owner.1.mode);
    let f = |e: (ComponentId, RpmFileInfo)| mode_file_type(e.1.mode) == Some(file_type);
    let g = |e: (ComponentId, RpmFileInfo)| e.0;
    let none = Seq::<(ComponentId, RpmFileInfo)>::empty();
    assert(none.filter(f).map_values(g) =~= Seq::<ComponentId>::empty());
    assert(list.push(owner).drop_last() =~= list);
    if f(owner) {
        assert(list.push(owner).filter(f) =~= list.filter(f).push(owner));
        assert(list.filter(f).push(owner).map_values(g) =~= list.filter(f).map_values(g).push(
            owner.0,
        ));
    }
}

proof fn lemma_valid(name: Seq<char>)
    requires
        name.len() > 0,
        name[0] != '.',
        forall|i: int| 0 <= i < name.len() ==> #[trigger] name[i] != '/',
    ensures
        valid_name(name),
{
    assert(seq!['.'][0] == '.');
    assert(seq!['.', '.'][0] == '.');
}

proof fn lemma_rpmdb_names()
    ensures
        path_components("usr/lib/sysimage/rpm"@) == seq![
            Comp::Name("usr"@),
            Comp::Name("lib"@),
            Comp::Name("sysimage"@),
            Comp::Name("rpm"@),
        ],
        path_components("usr/share/rpm"@) == seq![
            Comp::Name("usr"@),
            Comp::Name("share"@),
            Comp::Name("rpm"@),
        ],
        path_components("var/lib/rpm"@) == seq![
            Comp::Name("var"@),
            Comp::Name("lib"@),
            Comp::Name("rpm"@),
        ],
{
    reveal_strlit("usr");
    reveal_strlit("lib");
    reveal_strlit("sysimage");
    reveal_strlit("rpm");
    reveal_strlit("share");
    reveal_strlit("var");
    reveal_strlit("usr/lib/sysimage/rpm");
    reveal_strlit("usr/share/rpm");
    reveal_strlit("var/lib/rpm");
    lemma_valid("usr"@);
    lemma_valid("lib"@);
    lemma_valid("sysimage"@);
    lemma_valid("rpm"@);
    lemma_valid("share"@);
    lemma_valid("var"@);
    let sysimage = "sysimage"@ + seq!['/'] + "rpm"@;
    name_before_separator("sysimage"@, "rpm"@);
    name_before_separator("rpm"@, seq![]);
    name_before_separator("lib"@, sysimage);
    name_before_separator("usr"@, "lib"@ + seq!['/'] + sysimage);
    assert("usr/lib/sysimage/rpm"@ =~= "usr"@ + seq!['/'] + ("lib"@ + seq!['/'] + sysimage));
    assert(path_components("usr/lib/sysimage/rpm"@) =~= seq![
        Comp::Name("usr"@),
        Comp::Name("lib"@),
        Comp::Name("sysimage"@),
        Comp::Name("rpm"@),
    ]);
    name_before_separator("share"@, "rpm"@);
    name_before_separator("usr"@, "share"@ + seq!['/'] + "rpm"@);
    assert("usr/share/rpm"@ =~= "usr"@ + seq!['/'] + ("share"@ + seq!['/'] + "rpm"@));
    assert(path_components("usr/share/rpm"@) =~= seq![
        Comp::Name("usr"@),
        Comp::Name("share"@),
        Comp::Name("rpm"@),
    ]);
    name_before_separator("lib"@, "rpm"@);
    name_before_separator("var"@, "lib"@ + seq!['/'] + "rpm"@);
    assert("var/lib/rpm"@ =~= "var"@ + seq!['/'] + ("lib"@ + seq!['/'] + "rpm"@));
    assert(path_components("var/lib/rpm"@) =~= seq![
        Comp::Name("var"@),
        Comp::Name("lib"@),
        Comp::Name("rpm"@),
    ]);
}

/// The RPM databases are `/usr/lib/sysimage/rpm`, `/usr/share/rpm` and `/var/lib/rpm`, and what
/// is below them.
pub proof fn rpmdbs_are_in_three_places(cs: Seq<Comp>)
    ensures
        rpmdb_paths() == seq!["usr/lib/sysimage/rpm"@, "usr/share/rpm"@, "var/lib/rpm"@],
        in_rpmdb(cs) <==> {
            ||| seq![
                Comp::Root,
                Comp::Name("usr"@),
                Comp::Name("lib"@),
                Comp::Name("sysimage"@),
                Comp::Name("rpm"@),
            ].is_prefix_of(cs)
            ||| seq![
                Comp::Root,
                Comp::Name("usr"@),
                Comp::Name("share"@),
                Comp::Name("rpm"@),
            ].is_prefix_of(cs)
            ||| seq![
                Comp::Root,
                Comp::Name("var"@),
                Comp::Name("lib"@),
                Comp::Name("rpm"@),
            ].is_prefix_of(cs)
        },
{
    lemma_rpmdb_names();
    let all = rpmdb_paths();
    lemma_below_root(path_components(all[0]), cs);
    lemma_below_root(path_components(all[1]), cs);
    lemma_below_root(path_components(all[2]), cs);
    assert(seq![Comp::Root] + path_components(all[0]) =~= seq![
        Comp::Root,
        Comp::Name("usr"@),
        Comp::Name("lib"@),
        Comp::Name("sysimage"@),
        Comp::Name("rpm"@),
    ]);
    assert(seq![Comp::Root] + path_components(all[1]) =~= seq![
        Comp::Root,
        Comp::Name("usr"@),
        Comp::Name("share"@),
        Comp::Name("rpm"@),
    ]);
    assert(seq![Comp::Root] + path_components(all[2]) =~= seq![
        Comp::Root,
        Comp::Name("var"@),
        Comp::Name("lib"@),
        Comp::Name("rpm"@),
    ]);
    assert(all.len() == 3);
    if in_rpmdb(cs) {
        let k = choose|k: int|
            0 <= k < all.len() && path_components(#[trigger] all[k]).is_prefix_of(cs.skip(1));
        assert(k == 0 || k == 1 || k == 2);
    }
}

proof fn lemma_below_root(rest: Seq<Comp>, cs: Seq<Comp>)
    ensures
        (seq![Comp::Root] + rest).is_prefix_of(cs) <==> cs.len() > 0 && cs[0] is Root
            && rest.is_prefix_of(cs.skip(1)),
{
    let whole = seq![Comp::Root] + rest;
    if whole.is_prefix_of(cs) {
        assert(whole[0] == cs[0]);
        assert forall|i: int| 0 <= i < rest.len() implies rest[i] == cs.skip(1)[i] by {
            assert(whole[i + 1] == cs[i + 1]);
        }
        assert(rest =~= cs.skip(1).subrange(0, rest.len() as int));
    }
    if cs.len() > 0 && cs[0] is Root && rest.is_prefix_of(cs.skip(1)) {
        assert forall|i: int| 0 <= i < whole.len() implies whole[i] == cs[i] by {
            if i > 0 {
                assert(rest[i - 1] == cs.skip(1)[i - 1]);
            }
        }
        assert(whole =~= cs.subrange(0, whole.len() as int));
    }
}

proof fn lemma_differing(packages: Seq<Package>, now: u64, n: int, k: int)
    requires
        0 <= n <= packages.len(),
    ensures
        differing(packages, now, n).contains(k) <==> 0 <= k < n && changelog_differs(
            packages,
            now,
            k,
        ),
        forall|a: int|
            0 <= a < differing(packages, now, n).len() ==> 0 <= #[trigger] differing(
                packages,
                now,
                n,
            )[a] < n,
        forall|a: int, b: int|
            0 <= a < b < differing(packages, now, n).len() ==> #[trigger] differing(
                packages,
                now,
                n,
            )[a] < #[trigger] differing(packages, now, n)[b],
    decreases n,
{
    if n > 0 {
        lemma_differing(packages, now, n - 1, k);
        let before = differing(packages, now, n - 1);
        let after = differing(packages, now, n);
        if before.contains(k) {
            let a = choose|a: int| 0 <= a < before.len() && before[a] == k;
            assert(after[a] == k);
        }
        if after.contains(k) {
            let a = choose|a: int| 0 <= a < after.len() && after[a] == k;
            if a < before.len() {
                assert(before[a] == k);
            }
        }
        if k == n - 1 && changelog_differs(packages, now, k) {
            assert(after[before.len() as int] == k);
        }
    }
}

/// A package with a changelog is listed if and only if there are packages of its component
/// before it, and one of them has a lower chance or all of them have a higher one. The list is
/// in the order of the packages.
pub proof fn differing_packages_have_another_chance(
    packages: Seq<Package>,
    now: u64,
    k: int,
    name: Seq<char>,
)
    requires
        0 <= k < packages.len(),
        is_of(packages[k], name),
        forall|i: int|
            0 <= i < packages.len() ==> (#[trigger] packages[i]).changelog_times@.len() <= u64::MAX,
    ensures
        ({
            let list = differing(packages, now, packages.len() as int);
            let own = stability_of(packages[k].changelog_times@, packages[k].buildtime, now);
            let lower = exists|j: int|
                0 <= j < k && #[trigger] is_of(packages[j], name) && stability_of(
                    packages[j].changelog_times@,
                    packages[j].buildtime,
                    now,
                ).below(own);
            let higher = forall|j: int|
                0 <= j < k && #[trigger] is_of(packages[j], name) ==> own.below(
                    stability_of(packages[j].changelog_times@, packages[j].buildtime, now),
                );
            let any = exists|j: int| 0 <= j < k && #[trigger] is_of(packages[j], name);
            &&& list.contains(k) <==> packages[k].changelog_times@.len() > 0 && any && (lower
                || higher)
            &&& forall|a: int, b: int|
                0 <= a < b < list.len() ==> #[trigger] list[a] < #[trigger] list[b]
        }),
{
    let list = differing(packages, now, packages.len() as int);
    let own = stability_of(packages[k].changelog_times@, packages[k].buildtime, now);
    let low = lowest_stability(packages, now, k, name);
    lemma_of(packages);
    lemma_differing(packages, now, packages.len() as int, k);
    package_is_in_table(packages, k, name);
    lowest_stability_is_least(packages, now, k, name);
    lemma_stability_wf(packages[k], now);
    assert(own == package_stability(packages[k], now));
    let any = exists|j: int| 0 <= j < k && #[trigger] is_of(packages[j], name);
    if any {
        let j = choose|j: int| 0 <= j < k && #[trigger] is_of(packages[j], name);
        assert(package_component(packages[j]) == name);
        assert(component_names(packages, k).contains(name));
        let m = if low == Stability::VeryStable {
            j
        } else {
            choose|m: int|
                0 <= m < k && package_component(#[trigger] packages[m]) == name
                    && package_stability(packages[m], now) == low
        };
        lemma_stability_wf(packages[m], now);
        if low == Stability::VeryStable {
            order_is_total(package_stability(packages[m], now), low);
        }
        assert(is_of(packages[m], name) && package_stability(packages[m], now) == low);
        assert forall|e: int| 0 <= e < k && #[trigger] is_of(packages[e], name) implies {
            let st = stability_of(packages[e].changelog_times@, packages[e].buildtime, now);
            &&& st.below(own) ==> low.below(own)
            &&& own.below(low) ==> own.below(st)
        } by {
            assert(package_component(packages[e]) == name);
            let st = package_stability(packages[e], now);
            lemma_stability_wf(packages[e], now);
            if st.below(own) && !low.below(own) {
                chance_order_transitive(own, low, st);
            }
            if own.below(low) && !own.below(st) {
                chance_order_transitive(low, st, own);
            }
        }
    } else if component_names(packages, k).contains(name) {
        let j = choose|j: int| 0 <= j < k && package_component(#[trigger] packages[j]) == name;
        assert(is_of(packages[j], name));
    }
}

proof fn lemma_table_keeps(before: Seq<Package>, after: Seq<Package>, now: u64, n: int)
    requires
        0 <= n <= before.len() == after.len(),
        forall|i: int|
            0 <= i < after.len() ==> (#[trigger] after[i]) == (Package {
                files: after[i].files,
                ..before[i]
            }),
    ensures
        component_names(after, n) == component_names(before, n),
        forall|name: Seq<char>| #[trigger]
            latest_build(after, n, name) == latest_build(before, n, name),
        forall|name: Seq<char>| #[trigger]
            lowest_stability(after, now, n, name) == lowest_stability(before, now, n, name),
    decreases n,
{
    if n > 0 {
        lemma_table_keeps(before, after, now, n - 1);
        assert(after[n - 1] == (Package { files: after[n - 1].files, ..before[n - 1] }));
        assert(package_component(after[n - 1]) == package_component(before[n - 1]));
        assert(package_stability(after[n - 1], now) == package_stability(before[n - 1], now));
        assert forall|name: Seq<char>| #[trigger] latest_build(after, n, name) == latest_build(
            before,
            n,
            name,
        ) by {
            assert(latest_build(after, n - 1, name) == latest_build(before, n - 1, name));
        }
        assert forall|name: Seq<char>| #[trigger]
            lowest_stability(after, now, n, name) == lowest_stability(before, now, n, name) by {
            assert(lowest_stability(after, now, n - 1, name) == lowest_stability(
                before,
                now,
                n - 1,
                name,
            ));
        }
    }
}

/// A repository that is loaded has the components of the packages, and a component owns a path
/// if and only if the links lead from a file of one of its packages to that path.
pub proof fn loaded_files_are_owned_where_links_lead(
    files: Map<Seq<Comp>, FileInfo>,
    read: Map<Seq<Comp>, Option<String>>,
    packages: Seq<Package>,
    repo: RpmRepo,
    now: u64,
    name: Seq<char>,
    cs: Seq<Comp>,
)
    requires
        loads(
            Ok(RpmLoad::Loaded(repo)),
            walk_to_all(files, read, packages),
            packages,
            now,
        ),
    ensures
        repo.table() == component_table(packages, now, packages.len() as int),
        (repo.owners().contains_key(cs) && exists|b: int|
            0 <= b < repo.owners()[cs]@.len() && repo.table()[(
            #[trigger] repo.owners()[cs]@[b]).0.0 as int].0 == name) <==> exists|i: int, k: int|
            0 <= i < packages.len() && 0 <= k < packages[i].files@.len() && is_of(packages[i], name)
                && file_leads_to(
                known_links(files, read),
                path_components((#[trigger] packages[i].files@[k]).0),
                cs,
            ),
{
    let n = packages.len() as int;
    let walks = walk_to_all(files, read, packages);
    let after = choose|after: Seq<Package>|
        all_moved(packages, after, walks->Done_0) && #[trigger] repo.made_from(after, now);
    assert(after.len() == n);
    lemma_table_keeps(packages, after, now, n);
    assert(component_table(after, now, n) =~= component_table(packages, now, n));
    lemma_of(packages);
    owned_where_links_lead(files, read, packages, after, name, cs);
    let owners = path_owners(after, n, cs);
    let names = component_names(after, n);
    let table = repo.table();
    assert(forall|k: int| 0 <= k < names.len() ==> (#[trigger] table[k]).0 == names[k]);
    if repo.owners().contains_key(cs) {
        let list = repo.owners()[cs]@;
        assert(stand_for(list, owners, names));
        if exists|b: int| 0 <= b < list.len() && table[(#[trigger] list[b]).0.0 as int].0 == name {
            let b = choose|b: int|
                0 <= b < list.len() && table[(#[trigger] list[b]).0.0 as int].0 == name;
            let e = list[b];
            assert(names[e.0.0 as int] == owners[b].0);
            assert(owners[b].0 == name);
        }
        if has_owner(owners, name) {
            let b = choose|b: int| 0 <= b < owners.len() && (#[trigger] owners[b]).0 == name;
            let e = list[b];
            assert(names[e.0.0 as int] == owners[b].0);
            assert(table[e.0.0 as int].0 == name);
        }
    }
    if exists|i: int, k: int|
        0 <= i < packages.len() && 0 <= k < packages[i].files@.len() && is_of(packages[i], name)
            && file_leads_to(
            known_links(files, read),
            path_components((#[trigger] packages[i].files@[k]).0),
            cs,
        ) {
        let (i, k) = choose|i: int, k: int|
            0 <= i < packages.len() && 0 <= k < packages[i].files@.len() && is_of(packages[i], name)
                && file_leads_to(
                known_links(files, read),
                path_components((#[trigger] packages[i].files@[k]).0),
                cs,
            );
        assert(package_component(packages[i]) == name);
        assert(has_owner(owners, name));
    }
    if has_owner(owners, name) {
        let (i, k) = choose|i: int, k: int|
            0 <= i < packages.len() && 0 <= k < packages[i].files@.len() && package_component(
                packages[i],
            ) == name && file_leads_to(
                known_links(files, read),
                path_components((#[trigger] packages[i].files@[k]).0),
                cs,
            );
        assert(is_of(packages[i], name));
    }
}

/// Where a link is asked for, the packages are handed back, and the link is a symbolic link among
/// the files that has not been read, on the way to the directory of a file of the packages. Where
/// loading fails, a file of the packages cannot be found: a link on the way to its directory has
/// a target that is no UTF-8, or following 41 links one comes to the path that is told.
pub proof fn loading_stops_for_a_reason(
    files: Map<Seq<Comp>, FileInfo>,
    read: Map<Seq<Comp>, Option<String>>,
    packages: Seq<Package>,
    r: Result<RpmLoad, PackagePathError>,
    now: u64,
)
    requires
        loads(r, walk_to_all(files, read, packages), packages, now),
    ensures
        !(r matches Ok(RpmLoad::NoDatabase)),
        r matches Ok(RpmLoad::ReadLink { path, link, packages: same }) ==> {
            let cs = path_components(path@);
            let at = path_components(link.path@);
            &&& same@ == packages
            &&& has_file(packages, cs)
            &&& files.contains_key(at) && files[at].file_type == FileType::Symlink
            &&& !read.contains_key(at)
            &&& on_the_way(known_links(files, read), cs.take(cs.len() - 1), at, 40)
            &&& link.rel_path@ == stripped_text(link.path@, "/"@)
        },
        r matches Err(e) ==> {
            let cs = path_components(e.path@);
            &&& has_file(packages, cs)
            &&& e.error matches CanonicalizeError::NonUtf8Target { path } ==> {
                let at = path_components(path@);
                &&& files.contains_key(at) && files[at].file_type == FileType::Symlink
                &&& read.contains_key(at) && read[at] is None
                &&& on_the_way(known_links(files, read), cs.take(cs.len() - 1), at, 40)
            }
            &&& e.error matches CanonicalizeError::TooManyLinks { path } ==> comes_to(
                known_links(files, read),
                cs.take(cs.len() - 1),
                path_components(path@),
                41,
            )
        },
{
    let links = known_links(files, read);
    let all = package_paths(packages);
    known_links_wf(files, read);
    assert(honest(links, Map::<Seq<Comp>, Seq<Comp>>::empty()));
    assert forall|i: int, k: int| 0 <= i < all.len() && 0 <= k < all[i].len() implies well_shaped(
        #[trigger] all[i][k],
    ) by {
        components_well_shaped(packages[i].files@[k].0);
    }
    packages_are_gone_through_in_order(links, Map::empty(), all);
    let walks = walk_to_all(files, read, packages);
    match walks {
        Walks::Stopped { done, at, end } => {
            let p = done.len() - 1;
            let k = done[p].len() as int;
            assert(all[p][k] == path_components(packages[p].files@[k].0));
            assert(has_file(packages, at));
            match end {
                Walk::Unread(link) => links_are_the_symlinks_among_the_files(files, read, link),
                Walk::NonUtf8Target(link) => links_are_the_symlinks_among_the_files(
                    files,
                    read,
                    link,
                ),
                _ => {},
            }
        },
        _ => {},
    }
}

/// Whether one of the packages has a file of that path.
pub open spec fn has_file(packages: Seq<Package>, cs: Seq<Comp>) -> bool {
    exists|i: int, k: int|
        0 <= i < packages.len() && 0 <= k < packages[i].files@.len() && path_components(
            (#[trigger] packages[i].files@[k]).0,
        ) == cs
}

} // verus!
