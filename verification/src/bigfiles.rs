//! Components of single big files.

use crate::components::{ComponentId, ComponentInfo, FileInfo, FileMap, FileType, Files};
use crate::index::{
    new_set, set_contains, set_get_index, set_insert_full, set_len, set_names,
};
use crate::path::{
    absolute, components_well_shaped, file_name, inner_component, path_components,
    plain_absolute, root_components, strip_prefix, stripped_text, Comp,
};
use crate::path_map::{entry_at, one_place, sorted, PathMap};
use crate::stability::Stability;
use indexmap::IndexSet;
use std::collections::HashMap;
use vstd::prelude::*;

verus! {

broadcast use vstd::std_specs::hash::group_hash_axioms;

/// Minimum file size in bytes to be considered a "big file" (1 MB).
pub const MIN_SIZE: u64 = 1024 * 1024;

const REPO_NAME: &'static str = "bigfiles";

/// Whether the path at `i` is a big file.
pub open spec fn is_big(files: Files, i: int) -> bool {
    files[i].1.file_type == FileType::File && files[i].1.size >= MIN_SIZE
}

/// Whether the path at `i` is one of several links to a big file with that inode.
pub open spec fn is_link(files: Files, i: int, ino: u64) -> bool {
    is_big(files, i) && files[i].1.nlink > 1 && files[i].1.ino == ino
}

/// Whether one of the first `n` paths is a big file with that inode.
pub open spec fn inode_seen(files: Files, n: int, ino: u64) -> bool {
    exists|j: int| 0 <= j < n && #[trigger] is_big(files, j) && files[j].1.ino == ino
}

/// Whether the path at `i` gets a component made for it: a big file that is not a link to one
/// that has come before.
pub open spec fn leads(files: Files, i: int) -> bool {
    is_big(files, i) && (files[i].1.nlink <= 1 || !inode_seen(files, i, files[i].1.ino))
}

/// The first of the paths from `from` on that is a big file with that inode.
pub open spec fn first_with_inode(files: Files, from: int, ino: u64) -> int
    decreases files.len() - from,
{
    if from >= files.len() || (is_big(files, from) && files[from].1.ino == ino) {
        from
    } else {
        first_with_inode(files, from + 1, ino)
    }
}

/// The path whose component the path at `i` belongs to: its own, or that of the first link to
/// the same inode.
pub open spec fn leader(files: Files, i: int) -> int {
    if files[i].1.nlink <= 1 {
        i
    } else {
        first_with_inode(files, 0, files[i].1.ino)
    }
}

/// The last component of the path at `i`.
pub open spec fn base_name(files: Files, i: int) -> Seq<char> {
    path_components(files[i].0).last()->Name_0
}

/// The name of the component that is made for the path at `i`: its file name, or where that
/// is taken, the path without the leading `/`, or where that is taken too, with it.
pub open spec fn made_name(files: Files, i: int) -> Seq<char>
    decreases i, 1int,
{
    let stripped = stripped_text(files[i].0, "/"@);
    if i < 0 || !names_made(files, i).contains(base_name(files, i)) {
        base_name(files, i)
    } else if !names_made(files, i).contains(stripped) {
        stripped
    } else {
        "/"@ + stripped
    }
}

/// The names of the components that are made for the first `n` paths, one for each path that
/// leads.
pub open spec fn names_made(files: Files, n: int) -> Seq<Seq<char>>
    decreases n, 0int,
{
    if n <= 0 {
        seq![]
    } else {
        let before = names_made(files, n - 1);
        if leads(files, n - 1) {
            before.push(made_name(files, n - 1))
        } else {
            before
        }
    }
}

/// Whether a name can be made for the path at `i`: it has a file name, and where that is
/// taken, the path is absolute.
pub open spec fn nameable(files: Files, i: int) -> bool {
    &&& path_components(files[i].0).len() > 0
    &&& path_components(files[i].0).last() is Name
    &&& names_made(files, i).contains(base_name(files, i)) ==> absolute(path_components(files[i].0))
}

/// The components made for the first `n` paths are different ones.
pub open spec fn made_separate(files: Files, n: int) -> bool {
    forall|i: int, j: int|
        #![trigger made_name(files, i), made_name(files, j)]
        0 <= i < j < n && leads(files, i) && leads(files, j) ==> made_name(files, i)
            != made_name(files, j)
}

/// Where the file name is taken, a component made for one of the first `n` paths is named by
/// all that follows the leading `/`, or where that is taken too, by the whole path.
pub open spec fn named_by_path(files: Files, n: int) -> bool {
    forall|i: int|
        0 <= i < n && leads(files, i) && names_made(files, i).contains(base_name(files, i))
            && plain_absolute(files[i].0) ==> #[trigger] made_name(files, i) == (
        if names_made(files, i).contains(files[i].0.skip(1)) {
            files[i].0
        } else {
            files[i].0.skip(1)
        })
}

/// The ids of `assigned` are those of the big files whose leader is among the first `n` paths.
pub open spec fn assigns(
    files: Files,
    n: int,
    names: Seq<Seq<char>>,
    assigned: Map<Seq<Comp>, ComponentId>,
) -> bool {
    &&& forall|cs: Seq<Comp>|
        assigned.contains_key(cs) <==> exists|k: int|
            entry_at(files, k, cs) && #[trigger] is_big(files, k) && leader(files, k) < n
    &&& forall|k: int|
        0 <= k < files.len() && #[trigger] is_big(files, k) && leader(files, k) < n ==> {
            let id = assigned[path_components(files[k].0)];
            id.0 < names.len() && names[id.0 as int] == made_name(files, leader(files, k))
        }
}

proof fn lemma_first_with_inode(files: Files, from: int, ino: u64)
    requires
        0 <= from <= files.len(),
    ensures
        from <= first_with_inode(files, from, ino) <= files.len(),
        first_with_inode(files, from, ino) < files.len() ==> is_big(
            files,
            first_with_inode(files, from, ino),
        ) && files[first_with_inode(files, from, ino)].1.ino == ino,
        forall|j: int|
            from <= j < first_with_inode(files, from, ino) ==> !(#[trigger] is_big(files, j)
                && files[j].1.ino == ino),
    decreases files.len() - from,
{
    if !(from >= files.len() || (is_big(files, from) && files[from].1.ino == ino)) {
        lemma_first_with_inode(files, from + 1, ino);
    }
}

/// The leader of a big file has a component made for it, and comes no later.
pub proof fn leader_leads(files: Files, i: int)
    requires
        0 <= i < files.len(),
        is_big(files, i),
    ensures
        0 <= leader(files, i) <= i,
        leads(files, leader(files, i)),
        files[leader(files, i)].1.ino == files[i].1.ino,
        leads(files, i) ==> leader(files, i) == i,
{
    lemma_first_with_inode(files, 0, files[i].1.ino);
}

/// The big files are claimed, and nothing else is.
pub proof fn big_files_are_claimed(
    files: Files,
    names: Seq<Seq<char>>,
    assigned: Map<Seq<Comp>, ComponentId>,
    cs: Seq<Comp>,
)
    requires
        assigns(files, files.len() as int, names, assigned),
    ensures
        assigned.contains_key(cs) <==> exists|k: int|
            entry_at(files, k, cs) && #[trigger] is_big(files, k),
{
    if exists|k: int| entry_at(files, k, cs) && #[trigger] is_big(files, k) {
        let k = choose|k: int| entry_at(files, k, cs) && #[trigger] is_big(files, k);
        leader_leads(files, k);
    }
}

/// Whether the paths at `i` and `j` are one big file: the same path, or links to one inode.
pub open spec fn one_file(files: Files, i: int, j: int) -> bool {
    i == j || (is_link(files, i, files[i].1.ino) && is_link(files, j, files[i].1.ino))
}

/// Big files belong to the same component if and only if they are one file, or one of them
/// leads the other: that is so of a file that comes first with its inode, though it counts no
/// other link, and the links to that inode.
pub proof fn components_are_separate(
    files: Files,
    names: Seq<Seq<char>>,
    assigned: Map<Seq<Comp>, ComponentId>,
    i: int,
    j: int,
)
    requires
        assigns(files, files.len() as int, names, assigned),
        names.no_duplicates(),
        made_separate(files, files.len() as int),
        0 <= i < files.len(),
        0 <= j < files.len(),
        is_big(files, i),
        is_big(files, j),
    ensures
        assigned.contains_key(path_components(files[i].0)),
        assigned.contains_key(path_components(files[j].0)),
        assigned[path_components(files[i].0)] == assigned[path_components(files[j].0)]
            <==> one_file(files, i, j) || leader(files, i) == j || leader(files, j) == i,
{
    leader_leads(files, i);
    leader_leads(files, j);
    assert(entry_at(files, i, path_components(files[i].0)));
    assert(entry_at(files, j, path_components(files[j].0)));
    let a = assigned[path_components(files[i].0)];
    let b = assigned[path_components(files[j].0)];
    let li = leader(files, i);
    let lj = leader(files, j);
    leader_leads(files, li);
    leader_leads(files, lj);
    assert(names[a.0 as int] == made_name(files, li));
    assert(names[b.0 as int] == made_name(files, lj));
    if a == b && li != lj {
        assert(made_name(files, li) == made_name(files, lj));
    }
}

/// Big files of different inodes belong to different components.
pub proof fn different_inodes_are_separate(
    files: Files,
    names: Seq<Seq<char>>,
    assigned: Map<Seq<Comp>, ComponentId>,
    i: int,
    j: int,
)
    requires
        assigns(files, files.len() as int, names, assigned),
        names.no_duplicates(),
        made_separate(files, files.len() as int),
        0 <= i < files.len(),
        0 <= j < files.len(),
        is_big(files, i),
        is_big(files, j),
        files[i].1.ino != files[j].1.ino,
    ensures
        assigned[path_components(files[i].0)] != assigned[path_components(files[j].0)],
{
    components_are_separate(files, names, assigned, i, j);
    leader_leads(files, i);
    leader_leads(files, j);
}

/// The lists hold all links to each inode that no big file among the first `n` paths has.
spec fn table_holds(files: Files, n: int, table: Map<u64, Vec<usize>>) -> bool {
    &&& forall|ino: u64|
        #[trigger] table.contains_key(ino) <==> !inode_seen(files, n, ino) && exists|k: int|
            0 <= k < files.len() && #[trigger] is_link(files, k, ino)
    &&& forall|ino: u64| #[trigger]
        table.contains_key(ino) ==> lists_links(files, files.len() as int, table[ino]@, ino)
}

/// The list holds the links to an inode among the first `n` paths.
spec fn lists_links(files: Files, n: int, list: Seq<usize>, ino: u64) -> bool {
    &&& forall|a: int|
        0 <= a < list.len() ==> (#[trigger] list[a]) < n && is_link(files, list[a] as int, ino)
    &&& forall|k: int|
        0 <= k < n && #[trigger] is_link(files, k, ino) ==> exists|a: int|
            0 <= a < list.len() && (#[trigger] list[a]) == k
}

/// What the table holds while the first `n` paths have been looked at.
spec fn table_grows(files: Files, n: int, table: Map<u64, Vec<usize>>) -> bool {
    &&& forall|ino: u64|
        #[trigger] table.contains_key(ino) <==> exists|k: int|
            0 <= k < n && #[trigger] is_link(files, k, ino)
    &&& forall|ino: u64| #[trigger]
        table.contains_key(ino) ==> lists_links(files, n, table[ino]@, ino)
}

/// The links to each inode among the big files, by their places.
fn link_table(files: &FileMap) -> (r: HashMap<u64, Vec<usize>>)
    ensures
        table_holds(files@, 0, r@),
{
    let ghost all = files@;
    let mut table: HashMap<u64, Vec<usize>> = HashMap::new();
    let mut i: usize = 0;
    while i < files.len()
        invariant
            all == files@,
            i <= all.len(),
            table_grows(all, i as int, table@),
        decreases all.len() - i,
    {
        let info = files.value_at(i);
        let ghost before = table@;
        if info.file_type == FileType::File && info.nlink > 1 && info.size >= MIN_SIZE {
            let ino: u64 = info.ino;
            let mut list: Vec<usize> = match table.remove(&ino) {
                Some(list) => list,
                None => Vec::new(),
            };
            let ghost shorter = list@;
            list.push(i);
            let ghost longer = list@;
            table.insert(ino, list);
            proof {
                assert(is_link(all, i as int, ino));
                assert(lists_links(all, i as int, shorter, ino)) by {
                    if !before.contains_key(ino) {
                        assert forall|k: int| 0 <= k < i implies !#[trigger] is_link(all, k, ino) by {
                            if is_link(all, k, ino) {
                                assert(before.contains_key(ino));
                            }
                        }
                    }
                }
                assert(lists_links(all, i + 1, longer, ino)) by {
                    assert forall|a: int| 0 <= a < longer.len() implies (#[trigger] longer[a]) < i + 1
                        && is_link(all, longer[a] as int, ino) by {
                        if a < shorter.len() {
                            assert(longer[a] == shorter[a]);
                        }
                    }
                    assert forall|k: int|
                        0 <= k < i + 1 && #[trigger] is_link(all, k, ino) implies exists|a: int|
                        0 <= a < longer.len() && (#[trigger] longer[a]) == k by {
                        if k < i {
                            let a = choose|a: int|
                                0 <= a < shorter.len() && (#[trigger] shorter[a]) == k;
                            assert(longer[a] == shorter[a]);
                        } else {
                            assert(longer[shorter.len() as int] == k);
                        }
                    }
                }
                assert forall|other: u64| #[trigger] table@.contains_key(other) <==> exists|k: int|
                    0 <= k < i + 1 && #[trigger] is_link(all, k, other) by {
                    if other != ino {
                        assert(table@.contains_key(other) <==> before.contains_key(other));
                        assert(!is_link(all, i as int, other));
                    }
                }
                assert forall|other: u64| #[trigger] table@.contains_key(other) implies lists_links(
                    all,
                    i + 1,
                    table@[other]@,
                    other,
                ) by {
                    if other != ino {
                        assert(before.contains_key(other));
                        assert(table@[other] == before[other]);
                        lemma_lists_more(all, i as int, before[other]@, other);
                    }
                }
            }
        } else {
            proof {
                assert forall|ino: u64| !#[trigger] is_link(all, i as int, ino) by {}
                assert forall|ino: u64| #[trigger] table@.contains_key(ino) implies lists_links(
                    all,
                    i + 1,
                    table@[ino]@,
                    ino,
                ) by {
                    lemma_lists_more(all, i as int, table@[ino]@, ino);
                }
                assert forall|ino: u64| #[trigger] table@.contains_key(ino) <==> exists|k: int|
                    0 <= k < i + 1 && #[trigger] is_link(all, k, ino) by {}
            }
        }
        i += 1;
    }
    proof {
        assert forall|ino: u64| !inode_seen(all, 0, ino) by {}
    }
    table
}

proof fn lemma_lists_more(files: Files, n: int, list: Seq<usize>, ino: u64)
    requires
        lists_links(files, n, list, ino),
        !is_link(files, n, ino),
    ensures
        lists_links(files, n + 1, list, ino),
{
    assert forall|k: int| 0 <= k < n + 1 && #[trigger] is_link(files, k, ino) implies exists|a: int|
        0 <= a < list.len() && (#[trigger] list[a]) == k by {
        assert(k < n);
    }
}

/// Big files component repo implementation.
///
/// Claims any file of at least 1 MB into separate standalone components. This
/// solves a conceptual issue in the unclaimed files logic: by grouping together
/// all those files, they can't ever be broken back out into separate layers;
/// the packer considers each component as one monolithic unit. By breaking them
/// out, the packer can choose to merge them back in (or leave them separate)
/// as it sees fit.
///
/// Some special handling for hardlinked files (same inode): unclaimed files that are
/// hardlinked still end up in the same component.
pub struct BigfilesRepo {
    /// Component names, indexed by ComponentId.
    components: IndexSet<String>,
    /// Mapping from path to ComponentId.
    path_to_component: PathMap<ComponentId>,
    /// Default mtime clamp for components.
    default_mtime_clamp: u64,
}

proof fn lemma_names_grow(files: Files, a: int, b: int)
    requires
        0 <= a <= b,
    ensures
        names_made(files, a).len() <= names_made(files, b).len(),
        forall|k: int|
            0 <= k < names_made(files, a).len() ==> names_made(files, a)[k] == #[trigger] names_made(
                files,
                b,
            )[k],
    decreases b - a,
{
    if a < b {
        lemma_names_grow(files, a, b - 1);
    }
}

proof fn lemma_name_is_made(files: Files, k: int, n: int)
    requires
        0 <= k < n,
        leads(files, k),
    ensures
        names_made(files, n).contains(made_name(files, k)),
{
    lemma_names_grow(files, k + 1, n);
    let at = names_made(files, k).len() as int;
    assert(names_made(files, k + 1)[at] == made_name(files, k));
    assert(names_made(files, n)[at] == made_name(files, k));
}

proof fn lemma_maker(files: Files, n: int, name: Seq<char>)
    requires
        0 <= n,
        names_made(files, n).contains(name),
    ensures
        exists|k: int| 0 <= k < n && #[trigger] leads(files, k) && made_name(files, k) == name,
    decreases n,
{
    if n > 0 {
        let before = names_made(files, n - 1);
        if before.contains(name) {
            lemma_maker(files, n - 1, name);
            let k = choose|k: int|
                0 <= k < n - 1 && #[trigger] leads(files, k) && made_name(files, k) == name;
            assert(leads(files, k));
        } else {
            let after = names_made(files, n);
            let at = choose|at: int| 0 <= at < after.len() && after[at] == name;
            if at < before.len() {
                assert(before[at] == name);
            }
            assert(leads(files, n - 1) && made_name(files, n - 1) == name);
        }
    }
}

proof fn lemma_no_names(files: Files, n: int)
    requires
        0 <= n <= files.len(),
    ensures
        names_made(files, n).len() == 0 <==> forall|k: int|
            0 <= k < n ==> !#[trigger] leads(files, k),
    decreases n,
{
    if n > 0 {
        lemma_no_names(files, n - 1);
        if names_made(files, n - 1).len() > 0 {
            let k = choose|k: int| 0 <= k < n - 1 && #[trigger] leads(files, k);
            assert(leads(files, k));
        }
    }
}

/// A path that leads adds one component to those before it.
pub proof fn leading_path_adds_a_component(files: Files, i: int)
    requires
        0 <= i < files.len(),
    ensures
        leads(files, i) ==> names_made(files, i + 1) == names_made(files, i).push(
            made_name(files, i),
        ),
        !leads(files, i) ==> names_made(files, i + 1) == names_made(files, i),
{
}

/// What taking off the leading `/` leaves of the path at `k`.
spec fn stripped_known(files: Files, k: int) -> bool {
    leads(files, k) && names_made(files, k).contains(base_name(files, k)) ==> {
        &&& absolute(path_components(files[k].0))
        &&& path_components(stripped_text(files[k].0, "/"@)) == path_components(files[k].0).skip(1)
        &&& plain_absolute(files[k].0) ==> stripped_text(files[k].0, "/"@) == files[k].0.skip(1)
    }
}

/// The name that is made for the path at `i` is none of those before it.
proof fn lemma_fresh_name(files: Files, i: int)
    requires
        sorted(files),
        0 <= i < files.len(),
        leads(files, i),
        forall|k: int| 0 <= k <= i && #[trigger] leads(files, k) ==> nameable(files, k),
        forall|k: int| 0 <= k <= i ==> #[trigger] stripped_known(files, k),
    ensures
        !names_made(files, i).contains(made_name(files, i)),
{
    let name = made_name(files, i);
    let stripped = stripped_text(files[i].0, "/"@);
    if names_made(files, i).contains(name) {
        reveal_strlit("/");
        assert(name == "/"@ + stripped);
        assert(name[0] == '/');
        lemma_maker(files, i, name);
        let k = choose|k: int|
            0 <= k < i && #[trigger] leads(files, k) && made_name(files, k) == name;
        assert(nameable(files, k));
        assert(stripped_known(files, k) && stripped_known(files, i));
        let ci = path_components(files[i].0);
        let ck = path_components(files[k].0);
        components_well_shaped(files[i].0);
        components_well_shaped(files[k].0);
        components_well_shaped(name);
        let other = stripped_text(files[k].0, "/"@);
        if !names_made(files, k).contains(base_name(files, k)) {
            assert(ck[ck.len() - 1] == Comp::Name(name));
            assert(name.contains(name[0]));
        } else if !names_made(files, k).contains(other) {
            assert(path_components(name) == ck.skip(1));
            assert(ck.skip(1)[0] == ck[1]);
            assert(inner_component(ck[1]));
        } else {
            assert(other =~= name.skip(1));
            assert(stripped =~= name.skip(1));
            assert(ci.skip(1) == ck.skip(1));
            assert(ci =~= seq![Comp::Root] + ci.skip(1));
            assert(ck =~= seq![Comp::Root] + ck.skip(1));
            one_place(files, k, i);
        }
    }
}

proof fn lemma_separate_next(files: Files, i: int)
    requires
        0 <= i < files.len(),
        made_separate(files, i),
        leads(files, i) ==> !names_made(files, i).contains(made_name(files, i)),
    ensures
        made_separate(files, i + 1),
{
    assert forall|a: int, b: int|
        #![trigger made_name(files, a), made_name(files, b)]
        0 <= a < b < i + 1 && leads(files, a) && leads(files, b) implies made_name(files, a)
        != made_name(files, b) by {
        if b == i {
            lemma_name_is_made(files, a, b);
        }
    }
}

proof fn lemma_leader_is(files: Files, k: int, i: int)
    requires
        0 <= k < files.len(),
        0 <= i < files.len(),
        is_big(files, k),
        leads(files, i),
    ensures
        leader(files, k) == i <==> (k == i || (is_link(files, k, files[i].1.ino) && !inode_seen(
            files,
            i,
            files[i].1.ino,
        ))),
{
    let ino = files[k].1.ino;
    lemma_first_with_inode(files, 0, ino);
    leader_leads(files, k);
    leader_leads(files, i);
    let f = first_with_inode(files, 0, ino);
    if files[k].1.nlink > 1 {
        if f == i {
            assert(!inode_seen(files, i, ino));
        }
        if files[i].1.ino == ino && !inode_seen(files, i, ino) {
            if f < i {
                assert(is_big(files, f) && files[f].1.ino == ino);
            }
            assert(f == i);
        }
    }
}

proof fn lemma_assigned_next(
    files: Files,
    i: int,
    names_before: Seq<Seq<char>>,
    names: Seq<Seq<char>>,
    before: Map<Seq<Comp>, ComponentId>,
    after: Map<Seq<Comp>, ComponentId>,
    id: ComponentId,
)
    requires
        sorted(files),
        0 <= i < files.len(),
        leads(files, i),
        assigns(files, i, names_before, before),
        names_before.len() <= names.len(),
        forall|k: int| 0 <= k < names_before.len() ==> names_before[k] == #[trigger] names[k],
        id.0 < names.len(),
        names[id.0 as int] == made_name(files, i),
        forall|cs: Seq<Comp>|
            #[trigger] after.contains_key(cs) <==> before.contains_key(cs) || joins(files, i, cs),
        forall|cs: Seq<Comp>| #[trigger]
            after.contains_key(cs) ==> after[cs] == (if joins(files, i, cs) {
                id
            } else {
                before[cs]
            }),
    ensures
        assigns(files, i + 1, names, after),
{
    assert forall|k: int| 0 <= k < files.len() && #[trigger] is_big(files, k) implies (leader(
        files,
        k,
    ) == i <==> joins(files, i, path_components(files[k].0))) by {
        lemma_leader_is(files, k, i);
        let cs = path_components(files[k].0);
        if leader(files, k) == i && k != i {
            assert(entry_at(files, k, cs) && is_link(files, k, files[i].1.ino));
        }
        if joins(files, i, cs) && leader(files, k) != i {
            if cs == path_components(files[i].0) {
                one_place(files, k, i);
            } else {
                let m = choose|m: int|
                    entry_at(files, m, cs) && #[trigger] is_link(files, m, files[i].1.ino);
                one_place(files, k, m);
            }
        }
    }
    assert forall|cs: Seq<Comp>|
        after.contains_key(cs) <==> exists|k: int|
            entry_at(files, k, cs) && #[trigger] is_big(files, k) && leader(files, k) < i + 1 by {
        if after.contains_key(cs) {
            if joins(files, i, cs) {
                if cs == path_components(files[i].0) {
                    assert(entry_at(files, i, cs) && is_big(files, i) && leader(files, i) < i + 1);
                } else {
                    let m = choose|m: int|
                        entry_at(files, m, cs) && #[trigger] is_link(files, m, files[i].1.ino);
                    assert(entry_at(files, m, cs) && is_big(files, m) && leader(files, m) < i + 1);
                }
            } else {
                assert(before.contains_key(cs));
                let k = choose|k: int|
                    entry_at(files, k, cs) && #[trigger] is_big(files, k) && leader(files, k) < i;
                assert(entry_at(files, k, cs) && is_big(files, k) && leader(files, k) < i + 1);
            }
        }
        if exists|k: int|
            entry_at(files, k, cs) && #[trigger] is_big(files, k) && leader(files, k) < i + 1 {
            let k = choose|k: int|
                entry_at(files, k, cs) && #[trigger] is_big(files, k) && leader(files, k) < i + 1;
            if leader(files, k) < i {
                assert(before.contains_key(cs));
            }
        }
    }
    assert forall|k: int|
        0 <= k < files.len() && #[trigger] is_big(files, k) && leader(files, k) < i + 1 implies {
        let aid = after[path_components(files[k].0)];
        aid.0 < names.len() && names[aid.0 as int] == made_name(files, leader(files, k))
    } by {
        let cs = path_components(files[k].0);
        assert(entry_at(files, k, cs));
        assert(after.contains_key(cs));
        if leader(files, k) < i {
            assert(!joins(files, i, cs));
            assert(before.contains_key(cs));
            let bid = before[cs];
            assert(names_before[bid.0 as int] == names[bid.0 as int]);
        }
    }
}

/// Whether the path `cs` belongs to the component that is made for the path at `i`.
spec fn joins(files: Files, i: int, cs: Seq<Comp>) -> bool {
    cs == path_components(files[i].0) || (!inode_seen(files, i, files[i].1.ino) && exists|k: int|
        entry_at(files, k, cs) && #[trigger] is_link(files, k, files[i].1.ino))
}

proof fn lemma_assigned_same(
    files: Files,
    i: int,
    names: Seq<Seq<char>>,
    assigned: Map<Seq<Comp>, ComponentId>,
)
    requires
        0 <= i < files.len(),
        !leads(files, i),
        assigns(files, i, names, assigned),
    ensures
        assigns(files, i + 1, names, assigned),
{
    assert forall|k: int| 0 <= k < files.len() && #[trigger] is_big(files, k) implies leader(files, k)
        != i by {
        leader_leads(files, k);
    }
    assert forall|cs: Seq<Comp>|
        assigned.contains_key(cs) <==> exists|k: int|
            entry_at(files, k, cs) && #[trigger] is_big(files, k) && leader(files, k) < i + 1 by {
        if assigned.contains_key(cs) {
            let k = choose|k: int|
                entry_at(files, k, cs) && #[trigger] is_big(files, k) && leader(files, k) < i;
            assert(entry_at(files, k, cs) && is_big(files, k) && leader(files, k) < i + 1);
        }
        if exists|k: int|
            entry_at(files, k, cs) && #[trigger] is_big(files, k) && leader(files, k) < i + 1 {
            let k = choose|k: int|
                entry_at(files, k, cs) && #[trigger] is_big(files, k) && leader(files, k) < i + 1;
            assert(entry_at(files, k, cs) && is_big(files, k) && leader(files, k) < i);
        }
    }
}

/// Gives all the listed places the same component.
fn assign_links(
    files: &FileMap,
    list: &Vec<usize>,
    id: ComponentId,
    path_to_component: &mut PathMap<ComponentId>,
)
    requires
        old(path_to_component).wf(),
        forall|a: int| 0 <= a < list@.len() ==> (#[trigger] list@[a]) < files@.len(),
    ensures
        final(path_to_component).wf(),
        forall|cs: Seq<Comp>|
            #[trigger] final(path_to_component).map().contains_key(cs) <==> old(
                path_to_component,
            ).map().contains_key(cs) || listed(files@, list@, list@.len() as int, cs),
        forall|cs: Seq<Comp>| #[trigger]
            final(path_to_component).map().contains_key(cs) ==> final(path_to_component).map()[cs]
                == (if listed(files@, list@, list@.len() as int, cs) {
                id
            } else {
                old(path_to_component).map()[cs]
            }),
{
    let ghost all = files@;
    let ghost start = path_to_component.map();
    let mut a: usize = 0;
    while a < list.len()
        invariant
            all == files@,
            a <= list@.len(),
            path_to_component.wf(),
            forall|b: int| 0 <= b < list@.len() ==> (#[trigger] list@[b]) < all.len(),
            forall|cs: Seq<Comp>|
                #[trigger] path_to_component.map().contains_key(cs) <==> start.contains_key(cs)
                    || listed(all, list@, a as int, cs),
            forall|cs: Seq<Comp>| #[trigger]
                path_to_component.map().contains_key(cs) ==> path_to_component.map()[cs] == (
                if listed(all, list@, a as int, cs) {
                    id
                } else {
                    start[cs]
                }),
        decreases list@.len() - a,
    {
        let ghost before = path_to_component.map();
        let k = list[a];
        path_to_component.insert(files.path_at(k).to_owned(), id);
        proof {
            assert forall|cs: Seq<Comp>|
                listed(all, list@, a + 1, cs) <==> listed(all, list@, a as int, cs) || cs
                    == path_components(all[k as int].0) by {
                if listed(all, list@, a + 1, cs) {
                    let b = choose|b: int|
                        0 <= b < a + 1 && entry_at(all, (#[trigger] list@[b]) as int, cs);
                    if b < a {
                        assert(entry_at(all, list@[b] as int, cs));
                    }
                }
                if listed(all, list@, a as int, cs) {
                    let b = choose|b: int|
                        0 <= b < a && entry_at(all, (#[trigger] list@[b]) as int, cs);
                    assert(0 <= b < a + 1 && entry_at(all, list@[b] as int, cs));
                }
                if cs == path_components(all[k as int].0) {
                    assert(entry_at(all, list@[a as int] as int, cs));
                }
            }
        }
        a += 1;
    }
}

/// Whether the path `cs` is at one of the first `n` listed places.
spec fn listed(files: Files, list: Seq<usize>, n: int, cs: Seq<Comp>) -> bool {
    exists|b: int| 0 <= b < n && entry_at(files, (#[trigger] list[b]) as int, cs)
}

/// The name of the component that is made for a path when the names before it are known;
/// `None` where there is none.
fn derive_name(components: &IndexSet<String>, path: &str) -> (r: Option<String>)
    ensures
        ({
            let cs = path_components(path@);
            let named = cs.len() > 0 && cs.last() is Name;
            let taken = set_names(*components).contains(cs.last()->Name_0);
            let stripped = stripped_text(path@, "/"@);
            &&& r is Some <==> named && (taken ==> absolute(cs))
            &&& r is Some && !taken ==> r->0@ == cs.last()->Name_0
            &&& r is Some && taken ==> r->0@ == (if set_names(*components).contains(stripped) {
                "/"@ + stripped
            } else {
                stripped
            })
            &&& r is Some && taken ==> path_components(stripped) == cs.skip(1)
            &&& r is Some && taken && plain_absolute(path@) ==> stripped == path@.skip(1)
        }),
{
    let filename = match file_name(path) {
        Some(filename) => filename,
        None => {
            return None;
        },
    };
    if !set_contains(components, filename) {
        return Some(filename.to_owned());
    }
    // filename already used, use full path without leading '/'
    proof {
        root_components();
        assert(absolute(path_components(path@)) || !absolute(path_components(path@)));
    }
    let rel_path = match strip_prefix(path, "/") {
        Some(rel_path) => rel_path,
        None => {
            return None;
        },
    };
    if !set_contains(components, rel_path) {
        return Some(rel_path.to_owned());
    }
    // a path right below the root is no longer than its filename, use it with the '/'
    let mut full: String = "/".to_owned();
    full.append(rel_path);
    Some(full)
}

/// No name can be made for a big file: its path has no file name, or is not absolute and its
/// file name is taken.
#[derive(Debug)]
pub struct UnnamedFile {
    /// The path of the file.
    pub path: String,
}

/// The first path that a component has to be made for without a name for it.
fn find_unnamed(files: &FileMap) -> (r: Option<usize>)
    requires
        files.wf(),
    ensures
        r is None ==> forall|k: int|
            0 <= k < files@.len() && #[trigger] leads(files@, k) ==> nameable(files@, k),
        r matches Some(i) ==> {
            &&& i < files@.len()
            &&& leads(files@, i as int) && !nameable(files@, i as int)
            &&& forall|k: int| 0 <= k < i && #[trigger] leads(files@, k) ==> nameable(files@, k)
        },
{
    let ghost all = files@;
    let mut components = new_set();
    let mut inode_to_paths = link_table(files);
    let mut i: usize = 0;
    while i < files.len()
        invariant
            all == files@,
            files.wf(),
            i <= all.len(),
            forall|k: int| 0 <= k < i && #[trigger] leads(all, k) ==> nameable(all, k),
            forall|k: int| 0 <= k < i ==> #[trigger] stripped_known(all, k),
            set_names(components) == names_made(all, i as int),
            table_holds(all, i as int, inode_to_paths@),
        decreases all.len() - i,
    {
        let info = files.value_at(i);
        let ino: u64 = info.ino;
        let ghost table_before = inode_to_paths@;
        let big = info.file_type == FileType::File && info.size >= MIN_SIZE;
        let leading = big && (info.nlink <= 1 || inode_to_paths.contains_key(&ino));
        proof {
            if is_big(all, i as int) && info.nlink > 1 {
                assert(is_link(all, i as int, ino));
            }
            assert(leading == leads(all, i as int));
        }
        if leading {
            let component_name = match derive_name(&components, files.path_at(i)) {
                Some(component_name) => component_name,
                None => {
                    return Some(i);
                },
            };
            proof {
                assert(component_name@ == made_name(all, i as int));
                assert(nameable(all, i as int) && stripped_known(all, i as int));
                lemma_fresh_name(all, i as int);
            }
            set_insert_full(&mut components, component_name);
            inode_to_paths.remove(&ino);
        }
        proof {
            assert(stripped_known(all, i as int));
            lemma_table_next(all, i as int, table_before, inode_to_paths@);
        }
        i += 1;
    }
    None
}

impl BigfilesRepo {
    /// The names of the components, by their ids.
    pub closed spec fn names(&self) -> Seq<Seq<char>> {
        set_names(self.components)
    }

    /// The component of each path that has one.
    pub closed spec fn assigned(&self) -> Map<Seq<Comp>, ComponentId> {
        self.path_to_component.map()
    }

    /// The modification time that files are clamped to.
    pub closed spec fn mtime_clamp(&self) -> u64 {
        self.default_mtime_clamp
    }

    /// No name occurs twice, and every id that is given out has one.
    pub closed spec fn wf(&self) -> bool {
        &&& self.path_to_component.wf()
        &&& self.names().no_duplicates()
        &&& forall|cs: Seq<Comp>|
            #[trigger] self.assigned().contains_key(cs) ==> self.assigned()[cs].0
                < self.names().len()
    }

    /// Whether the repository is that of the files.
    pub open spec fn made_from(&self, files: Files, default_mtime_clamp: u64) -> bool {
        let n = files.len() as int;
        &&& self.names() == names_made(files, n)
        &&& self.names().no_duplicates()
        &&& assigns(files, n, self.names(), self.assigned())
        &&& made_separate(files, n)
        &&& named_by_path(files, n)
        &&& self.mtime_clamp() == default_mtime_clamp
    }

    /// Load bigfiles repo by scanning for files >= MIN_SIZE.
    ///
    /// Returns None if no qualifying files are found. Hardlinked files (same
    /// inode, nlink > 1) are grouped into the same component.
    pub fn load(files: &FileMap, default_mtime_clamp: u64) -> (r: Option<Self>)
        requires
            files.wf(),
            forall|i: int|
                0 <= i < files@.len() && #[trigger] leads(files@, i) ==> nameable(files@, i),
        ensures
            r is None <==> forall|i: int| 0 <= i < files@.len() ==> !#[trigger] is_big(files@, i),
            r matches Some(repo) ==> repo.wf() && repo.made_from(files@, default_mtime_clamp),
    {
        let ghost all = files@;
        let mut components = new_set();
        let mut path_to_component: PathMap<ComponentId> = PathMap::new();
        // build inode table for hardlink handling
        let mut inode_to_paths = link_table(files);
        let mut i: usize = 0;
        proof {
            assert forall|k: int| 0 <= k < all.len() && #[trigger] is_big(all, k) implies leader(all, k)
                >= 0 by {
                leader_leads(all, k);
            }
        }
        while i < files.len()
            invariant
                all == files@,
                files.wf(),
                i <= all.len(),
                forall|k: int| 0 <= k < all.len() && #[trigger] leads(all, k) ==> nameable(all, k),
                path_to_component.wf(),
                set_names(components) == names_made(all, i as int),
                set_names(components).no_duplicates(),
                table_holds(all, i as int, inode_to_paths@),
                assigns(all, i as int, set_names(components), path_to_component.map()),
                forall|k: int| 0 <= k < i ==> #[trigger] stripped_known(all, k),
                made_separate(all, i as int),
            decreases all.len() - i,
        {
            let path = files.path_at(i);
            let info = files.value_at(i);
            let ino: u64 = info.ino;
            let ghost names_before = set_names(components);
            let ghost table_before = inode_to_paths@;
            let big = info.file_type == FileType::File && info.size >= MIN_SIZE;
            // skip if this inode was already processed via an earlier hardlink
            let leading = big && (info.nlink <= 1 || inode_to_paths.contains_key(&ino));
            proof {
                if is_big(all, i as int) && info.nlink > 1 {
                    assert(is_link(all, i as int, ino));
                }
                assert(leading == leads(all, i as int));
            }
            if leading {
                // derive component name from filename
                assert(nameable(all, i as int));
                let component_name = derive_name(&components, path).unwrap();
                assert(component_name@ == made_name(all, i as int));
                proof {
                    assert(stripped_known(all, i as int));
                    lemma_fresh_name(all, i as int);
                }

                // create a component for this path
                let (idx, _new) = set_insert_full(&mut components, component_name);
                let component_id = ComponentId(idx);
                let ghost map_before = path_to_component.map();
                path_to_component.insert(path.to_owned(), component_id);
                proof {
                    lemma_names_grow(all, i as int, i + 1);
                }

                // if it has hardlinks, also shove those into the same component
                match inode_to_paths.remove(&ino) {
                    Some(linked_paths) => {
                        assign_links(files, &linked_paths, component_id, &mut path_to_component);
                        proof {
                            assert forall|cs: Seq<Comp>|
                                joins(all, i as int, cs) <==> cs == path_components(
                                    all[i as int].0,
                                ) || listed(all, linked_paths@, linked_paths@.len() as int, cs) by {
                                if joins(all, i as int, cs) && cs != path_components(
                                    all[i as int].0,
                                ) {
                                    let k = choose|k: int|
                                        entry_at(all, k, cs) && #[trigger] is_link(all, k, ino);
                                    let b = choose|b: int|
                                        0 <= b < linked_paths@.len() && (#[trigger] linked_paths@[b])
                                            == k;
                                    assert(entry_at(all, linked_paths@[b] as int, cs));
                                }
                                if listed(all, linked_paths@, linked_paths@.len() as int, cs) {
                                    let b = choose|b: int|
                                        0 <= b < linked_paths@.len() && entry_at(
                                            all,
                                            (#[trigger] linked_paths@[b]) as int,
                                            cs,
                                        );
                                    assert(is_link(all, linked_paths@[b] as int, ino));
                                }
                            }
                        }
                    },
                    None => {
                        proof {
                            assert forall|cs: Seq<Comp>|
                                joins(all, i as int, cs) <==> cs == path_components(
                                    all[i as int].0,
                                ) by {
                                if joins(all, i as int, cs) && cs != path_components(
                                    all[i as int].0,
                                ) {
                                    let k = choose|k: int|
                                        entry_at(all, k, cs) && #[trigger] is_link(all, k, ino);
                                    assert(is_link(all, k, ino));
                                    assert(table_before.contains_key(ino));
                                }
                            }
                        }
                    },
                }
                proof {
                    lemma_assigned_next(
                        all,
                        i as int,
                        names_before,
                        set_names(components),
                        map_before,
                        path_to_component.map(),
                        component_id,
                    );
                }
            } else {
                proof {
                    lemma_assigned_same(
                        all,
                        i as int,
                        set_names(components),
                        path_to_component.map(),
                    );
                    assert(stripped_known(all, i as int));
                }
            }
            proof {
                lemma_separate_next(all, i as int);
                lemma_table_next(all, i as int, table_before, inode_to_paths@);
            }
            i += 1;
        }
        proof {
            assert forall|k: int|
                0 <= k < all.len() && leads(all, k) && names_made(all, k).contains(
                    base_name(all, k),
                ) && plain_absolute(all[k].0) implies #[trigger] made_name(all, k) == (
            if names_made(all, k).contains(all[k].0.skip(1)) {
                all[k].0
            } else {
                all[k].0.skip(1)
            }) by {
                assert(stripped_known(all, k));
                components_well_shaped(all[k].0);
                reveal_strlit("/");
                assert("/"@ + all[k].0.skip(1) =~= all[k].0);
            }
            lemma_no_names(all, all.len() as int);
            if forall|k: int| 0 <= k < all.len() ==> !#[trigger] leads(all, k) {
                assert forall|k: int| 0 <= k < all.len() implies !#[trigger] is_big(all, k) by {
                    if is_big(all, k) {
                        leader_leads(all, k);
                    }
                }
            }
        }
        if set_len(&components) == 0 {
            return None;
        }
        let repo = BigfilesRepo { components, path_to_component, default_mtime_clamp };
        Some(repo)
    }

    /// `load`, where a name can be made for each component; else the first file without one.
    pub fn try_load(files: &FileMap, default_mtime_clamp: u64) -> (r: Result<
        Option<Self>,
        UnnamedFile,
    >)
        requires
            files.wf(),
        ensures
            r is Ok <==> forall|i: int|
                0 <= i < files@.len() && #[trigger] leads(files@, i) ==> nameable(files@, i),
            r matches Ok(loaded) ==> {
                &&& loaded is None <==> forall|i: int|
                    0 <= i < files@.len() ==> !#[trigger] is_big(files@, i)
                &&& loaded matches Some(repo) ==> repo.wf() && repo.made_from(
                    files@,
                    default_mtime_clamp,
                )
            },
            r matches Err(e) ==> exists|i: int|
                {
                    &&& 0 <= i < files@.len()
                    &&& #[trigger] leads(files@, i) && !nameable(files@, i)
                    &&& e.path@ == files@[i].0
                    &&& forall|k: int|
                        0 <= k < i && #[trigger] leads(files@, k) ==> nameable(files@, k)
                },
    {
        match find_unnamed(files) {
            Some(i) => Err(UnnamedFile { path: files.path_at(i).to_owned() }),
            None => Ok(Self::load(files, default_mtime_clamp)),
        }
    }

    /// The name of the repository.
    pub fn name(&self) -> (r: &'static str)
        ensures
            r@ == "bigfiles"@,
    {
        REPO_NAME
    }

    /// Where the repository comes among others, the lowest first.
    pub fn default_priority(&self) -> (r: usize)
        ensures
            r == 80,
    {
        80
    }

    /// The number of components.
    pub fn component_count(&self) -> (r: usize)
        ensures
            r == self.names().len(),
    {
        set_len(&self.components)
    }

    /// The component that the path was assigned, whatever is known of the file by now.
    pub fn strong_claims_for_path(&self, path: &str, _file_info: &FileInfo) -> (r: Vec<
        ComponentId,
    >)
        requires
            self.wf(),
        ensures
            r@ == (if self.assigned().contains_key(path_components(path@)) {
                seq![self.assigned()[path_components(path@)]]
            } else {
                seq![]
            }),
            forall|k: int| 0 <= k < r@.len() ==> (#[trigger] r@[k]).0 < self.names().len(),
    {
        let mut claims: Vec<ComponentId> = Vec::new();
        if let Some(id) = self.path_to_component.get(path) {
            assert(self.assigned().contains_key(path_components(path@)));
            assert(id.0 < self.names().len());
            claims.push(*id);
            assert(claims@ =~= seq![*id]);
        }
        claims
    }

    /// What is known of a component.
    pub fn component_info(&self, id: ComponentId) -> (r: ComponentInfo<'_>)
        requires
            id.0 < self.names().len(),
        ensures
            r.name@ == self.names()[id.0 as int],
            r.mtime_clamp == self.mtime_clamp(),
            r.stability == Stability::Unstable,
    {
        ComponentInfo {
            name: set_get_index(&self.components, id.0).unwrap().as_str(),
            mtime_clamp: self.default_mtime_clamp,
            stability: Stability::Unstable,
        }
    }
}

proof fn lemma_table_next(
    files: Files,
    i: int,
    before: Map<u64, Vec<usize>>,
    after: Map<u64, Vec<usize>>,
)
    requires
        0 <= i < files.len(),
        table_holds(files, i, before),
        leads(files, i) ==> after == before.remove(files[i].1.ino),
        !leads(files, i) ==> after == before,
    ensures
        table_holds(files, i + 1, after),
{
    let mine = files[i].1.ino;
    assert forall|ino: u64|
        inode_seen(files, i + 1, ino) <==> inode_seen(files, i, ino) || (is_big(files, i) && mine
            == ino) by {
        if inode_seen(files, i + 1, ino) {
            let j = choose|j: int|
                0 <= j < i + 1 && #[trigger] is_big(files, j) && files[j].1.ino == ino;
            if j < i {
                assert(is_big(files, j));
            }
        }
        if inode_seen(files, i, ino) {
            let j = choose|j: int|
                0 <= j < i && #[trigger] is_big(files, j) && files[j].1.ino == ino;
            assert(is_big(files, j));
        }
        if is_big(files, i) && mine == ino {
            assert(0 <= i < i + 1 && is_big(files, i));
        }
    }
}

/// Whether a file is regular and of a megabyte or more.
pub open spec fn regular_of_a_megabyte(info: FileInfo) -> bool {
    info.file_type == FileType::File && info.size >= 1024 * 1024
}

proof fn lemma_big(files: Files, i: int)
    ensures
        is_big(files, i) <==> regular_of_a_megabyte(files[i].1),
{
}

/// A path is claimed if and only if it is that of a regular file of a megabyte or more.
pub proof fn claims_are_regular_files_of_a_megabyte(
    files: Files,
    repo: BigfilesRepo,
    clamp: u64,
    cs: Seq<Comp>,
)
    requires
        repo.made_from(files, clamp),
    ensures
        repo.assigned().contains_key(cs) <==> exists|k: int|
            0 <= k < files.len() && path_components(files[k].0) == cs && #[trigger]
                regular_of_a_megabyte(files[k].1),
        repo.mtime_clamp() == clamp,
{
    big_files_are_claimed(files, repo.names(), repo.assigned(), cs);
    if repo.assigned().contains_key(cs) {
        let k = choose|k: int| entry_at(files, k, cs) && #[trigger] is_big(files, k);
        lemma_big(files, k);
        assert(regular_of_a_megabyte(files[k].1));
    }
    if exists|k: int|
        0 <= k < files.len() && path_components(files[k].0) == cs && #[trigger]
            regular_of_a_megabyte(files[k].1) {
        let k = choose|k: int|
            0 <= k < files.len() && path_components(files[k].0) == cs && #[trigger]
                regular_of_a_megabyte(files[k].1);
        assert(entry_at(files, k, cs) && is_big(files, k));
    }
}

/// Big files share a component if and only if they have one inode and are both hard links to
/// it, or one of them is the first with that inode and the other one is a hard link. All hard
/// links to one inode are together, however many they are.
pub proof fn hard_links_and_nothing_else_is_together(
    files: Files,
    repo: BigfilesRepo,
    clamp: u64,
    i: int,
    j: int,
)
    requires
        repo.made_from(files, clamp),
        0 <= i < j < files.len(),
        files[i].1.file_type == FileType::File && files[i].1.size >= 1024 * 1024,
        files[j].1.file_type == FileType::File && files[j].1.size >= 1024 * 1024,
    ensures
        repo.assigned().contains_key(path_components(files[i].0)),
        repo.assigned().contains_key(path_components(files[j].0)),
        files[i].1.ino == files[j].1.ino && files[i].1.nlink > 1 && files[j].1.nlink > 1
            ==> repo.assigned()[path_components(files[i].0)]
            == repo.assigned()[path_components(files[j].0)],
        repo.assigned()[path_components(files[i].0)] == repo.assigned()[path_components(
            files[j].0,
        )] <==> files[i].1.ino == files[j].1.ino && files[j].1.nlink > 1 && (files[i].1.nlink > 1
            || forall|k: int|
            0 <= k < i && #[trigger] regular_of_a_megabyte(files[k].1) ==> files[k].1.ino
                != files[i].1.ino),
{
    let ino = files[j].1.ino;
    components_are_separate(files, repo.names(), repo.assigned(), i, j);
    leader_leads(files, i);
    leader_leads(files, j);
    lemma_first_with_inode(files, 0, ino);
    let f = first_with_inode(files, 0, ino);
    assert forall|k: int| 0 <= k < i implies (#[trigger] regular_of_a_megabyte(files[k].1)
        <==> is_big(files, k)) by {}
    if leader(files, j) == i && files[i].1.nlink <= 1 {
        assert forall|k: int|
            0 <= k < i && #[trigger] regular_of_a_megabyte(files[k].1) implies files[k].1.ino
            != files[i].1.ino by {
            assert(is_big(files, k));
        }
    }
    if files[i].1.ino == ino && files[j].1.nlink > 1 && files[i].1.nlink <= 1 && f < i {
        assert(regular_of_a_megabyte(files[f].1));
    }
}

proof fn lemma_lower_names(files: Files, i: int, m: int)
    requires
        0 <= i <= files.len(),
        0 <= m < names_made(files, i).len(),
    ensures
        exists|k: int|
            0 <= k < i && #[trigger] leads(files, k) && names_made(files, k).len() == m,
    decreases i,
{
    if i > 0 {
        if m < names_made(files, i - 1).len() {
            lemma_lower_names(files, i - 1, m);
            let k = choose|k: int|
                0 <= k < i - 1 && #[trigger] leads(files, k) && names_made(files, k).len() == m;
            assert(leads(files, k));
        } else {
            assert(leads(files, i - 1));
        }
    }
}

proof fn lemma_id(files: Files, repo: BigfilesRepo, clamp: u64, i: int)
    requires
        repo.made_from(files, clamp),
        0 <= i < files.len(),
        leads(files, i),
    ensures
        repo.assigned().contains_key(path_components(files[i].0)),
        repo.assigned()[path_components(files[i].0)].0 == names_made(files, i).len(),
        names_made(files, i).len() < repo.names().len(),
{
    let n = files.len() as int;
    leader_leads(files, i);
    assert(entry_at(files, i, path_components(files[i].0)));
    lemma_names_grow(files, i + 1, n);
    let at = names_made(files, i).len() as int;
    assert(names_made(files, i + 1)[at] == made_name(files, i));
    assert(repo.names()[at] == made_name(files, i));
}

/// The components are numbered in the order of the first of their paths, and none is without
/// one.
pub proof fn components_are_numbered_as_they_are_seen(
    files: Files,
    repo: BigfilesRepo,
    clamp: u64,
    i: int,
    id: int,
)
    requires
        repo.made_from(files, clamp),
        0 <= i <= files.len(),
        0 <= id < repo.names().len(),
        i < files.len() ==> regular_of_a_megabyte(files[i].1)
            && repo.assigned()[path_components(files[i].0)].0 > id,
    ensures
        exists|k: int|
            0 <= k < i && #[trigger] regular_of_a_megabyte(files[k].1)
                && repo.assigned()[path_components(files[k].0)].0 == id,
{
    let lead = if i < files.len() {
        leader(files, i)
    } else {
        i
    };
    if i < files.len() {
        assert(is_big(files, i));
        leader_leads(files, i);
        lemma_id(files, repo, clamp, lead);
        if lead != i {
            assert(one_file(files, i, lead) || leader(files, i) == lead);
            components_are_separate(files, repo.names(), repo.assigned(), i, lead);
        }
    }
    lemma_lower_names(files, lead, id);
    let k = choose|k: int|
        0 <= k < lead && #[trigger] leads(files, k) && names_made(files, k).len() == id;
    lemma_id(files, repo, clamp, k);
    assert(regular_of_a_megabyte(files[k].1));
}

/// The first path of a component names it: by its last name, or where an earlier component has
/// that name, by what taking off the leading `/` leaves of it, or where that is had too, by
/// that with the `/` in front.
pub proof fn components_are_named_by_their_first_path(
    files: Files,
    repo: BigfilesRepo,
    clamp: u64,
    i: int,
    last: Seq<char>,
)
    requires
        repo.made_from(files, clamp),
        0 <= i < files.len(),
        regular_of_a_megabyte(files[i].1),
        path_components(files[i].0).last() == Comp::Name(last),
        forall|k: int|
            0 <= k < i && #[trigger] regular_of_a_megabyte(files[k].1)
                ==> repo.assigned()[path_components(files[k].0)]
                != repo.assigned()[path_components(files[i].0)],
    ensures
        ({
            let id = repo.assigned()[path_components(files[i].0)].0 as int;
            let earlier = repo.names().take(id);
            let rest = stripped_text(files[i].0, "/"@);
            &&& 0 <= id < repo.names().len()
            &&& !earlier.contains(last) ==> repo.names()[id] == last
            &&& earlier.contains(last) && !earlier.contains(rest) ==> repo.names()[id] == rest
            &&& earlier.contains(last) && earlier.contains(rest) ==> repo.names()[id] == "/"@
                + rest
            &&& earlier.contains(last) && plain_absolute(files[i].0) ==> repo.names()[id] == (
            if earlier.contains(files[i].0.skip(1)) {
                files[i].0
            } else {
                files[i].0.skip(1)
            })
        }),
{
    assert(is_big(files, i));
    leader_leads(files, i);
    let lead = leader(files, i);
    if lead != i {
        components_are_separate(files, repo.names(), repo.assigned(), i, lead);
        assert(regular_of_a_megabyte(files[lead].1));
    }
    lemma_id(files, repo, clamp, i);
    lemma_names_grow(files, i, files.len() as int);
    lemma_names_grow(files, i + 1, files.len() as int);
    let id = names_made(files, i).len() as int;
    assert(repo.names().take(id) =~= names_made(files, i));
    assert(names_made(files, i + 1)[id] == made_name(files, i));
}

/// A big file can be named where its path is absolute and ends in a name, and cannot where the
/// path does not end in a name. Where it is relative, the name must not be taken, as that of the
/// first big file never is.
pub proof fn absolute_paths_can_be_named(files: Files, i: int)
    requires
        0 <= i < files.len(),
    ensures
        path_components(files[i].0).len() > 0 && path_components(files[i].0).last() is Name && (
        path_components(files[i].0)[0] is Root || forall|k: int|
            0 <= k < i ==> !#[trigger] regular_of_a_megabyte(files[k].1)) ==> nameable(files, i),
        nameable(files, i) <==> path_components(files[i].0).len() > 0 && path_components(
            files[i].0,
        ).last() is Name && (path_components(files[i].0)[0] is Root || !names_made(
            files,
            i,
        ).contains(path_components(files[i].0).last()->Name_0)),
{
    if forall|k: int| 0 <= k < i ==> !#[trigger] regular_of_a_megabyte(files[k].1) {
        lemma_no_names(files, i);
        assert forall|k: int| 0 <= k < i implies !#[trigger] leads(files, k) by {
            assert(!regular_of_a_megabyte(files[k].1));
        }
    }
}

} // verus!
