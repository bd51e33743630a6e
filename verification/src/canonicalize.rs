//! Resolving the symbolic links in a path.
//!
//! What a link points to is read from the root filesystem by the caller. A walk that comes to
//! a link whose target is not known yet stops and asks for it; the caller puts the target
//! into the map of links and walks again.

use crate::components::{FileInfo, FileMap, FileType};
use crate::path::{
    absolute, compare, components_well_shaped, file_name, inner_component, is_absolute, join,
    joined, name_components, parent, path_components, plain_absolute, root_components,
    strip_prefix, stripped_text, well_shaped, Comp, PathOrder,
};
use crate::normalize::{
    go_along, joined_goes_along, names_are_appended, normalize_path, normalized,
    normalized_is_plain, plain,
};
use crate::path_map::PathMap;
use vstd::prelude::*;

verus! {

/// Maximum depth for symlink resolution to prevent infinite loops.
pub const MAX_SYMLINK_DEPTH: usize = 40;

/// What the symbolic links that have been read point to. `None` stands for a target that is
/// no UTF-8.
pub type LinkMap = PathMap<Option<String>>;

/// Where directories have been found by their paths.
pub type DirCache = PathMap<String>;

/// The symbolic links of a root filesystem, as far as they are known.
pub struct Links {
    /// The paths that are symbolic links.
    pub places: Set<Seq<Comp>>,
    /// Where the links point to that have been read. `None` stands for a target that is no
    /// UTF-8.
    pub targets: Map<Seq<Comp>, Option<Seq<Comp>>>,
}

impl Links {
    /// The targets are paths.
    pub open spec fn wf(self) -> bool {
        forall|cs: Seq<Comp>| #[trigger]
            self.targets.contains_key(cs) && self.targets[cs] is Some ==> well_shaped(
                self.targets[cs]->0,
            )
    }

    /// Whether more is known of the same links.
    pub open spec fn extended_by(self, more: Links) -> bool {
        &&& self.places == more.places
        &&& forall|cs: Seq<Comp>| #[trigger]
            self.targets.contains_key(cs) ==> more.targets.contains_key(cs) && more.targets[cs]
                == self.targets[cs]
    }
}

/// The links among the files, with the targets that have been read.
pub open spec fn known_links(
    files: Map<Seq<Comp>, FileInfo>,
    read: Map<Seq<Comp>, Option<String>>,
) -> Links {
    Links {
        places: Set::new(
            |cs: Seq<Comp>| files.contains_key(cs) && files[cs].file_type == FileType::Symlink,
        ),
        targets: read.map_values(
            |target: Option<String>|
                match target {
                    Some(text) => Some(path_components(text@)),
                    None => None,
                },
        ),
    }
}

/// The links that are read from texts have paths as targets.
pub proof fn known_links_wf(
    files: Map<Seq<Comp>, FileInfo>,
    read: Map<Seq<Comp>, Option<String>>,
)
    ensures
        known_links(files, read).wf(),
{
    let links = known_links(files, read);
    assert forall|cs: Seq<Comp>| #[trigger]
        links.targets.contains_key(cs) && links.targets[cs] is Some implies well_shaped(
        links.targets[cs]->0,
    ) by {
        components_well_shaped(read[cs]->0@);
    }
}

/// Where a walk along a path ends.
pub enum Walk {
    /// The directory is found under this path.
    Done(Seq<Comp>),
    /// The target of this link has to be read first.
    Unread(Seq<Comp>),
    /// Too many links led to this path.
    TooManyLinks(Seq<Comp>),
    /// The target of this link is no UTF-8.
    NonUtf8Target(Seq<Comp>),
    /// The path is not absolute, or does not end in a name where one is needed.
    Stuck,
}

/// The path that the link at `here` in the directory `dir` leads to, or the end of the walk
/// there.
pub open spec fn link_target(links: Links, dir: Seq<Comp>, here: Seq<Comp>) -> Result<
    Seq<Comp>,
    Walk,
> {
    if !absolute(here) {
        Err(Walk::Stuck)
    } else if !links.targets.contains_key(here) {
        Err(Walk::Unread(here))
    } else {
        match links.targets[here] {
            None => Err(Walk::NonUtf8Target(here)),
            Some(target) => Ok(
                if absolute(target) {
                    target
                } else {
                    normalized(joined(dir, target))
                },
            ),
        }
    }
}

/// The directory that `path` is, when `depth` links have been followed: the links are
/// resolved from the root down.
pub open spec fn resolved(links: Links, path: Seq<Comp>, depth: int) -> Walk
    decreases MAX_SYMLINK_DEPTH + 1 - depth, path.len(),
{
    if !absolute(path) {
        Walk::Stuck
    } else if depth > MAX_SYMLINK_DEPTH {
        Walk::TooManyLinks(path)
    } else if path.len() == 1 {
        Walk::Done(path)
    } else {
        match resolved(links, path.drop_last(), depth) {
            Walk::Done(dir) => {
                let here = joined(dir, seq![path.last()]);
                if path.last() !is Name {
                    Walk::Stuck
                } else if !links.places.contains(here) {
                    Walk::Done(here)
                } else {
                    match link_target(links, dir, here) {
                        Ok(target) => resolved(links, target, depth + 1),
                        Err(end) => end,
                    }
                }
            },
            end => end,
        }
    }
}

/// `resolved` with the directories `dirs` known from earlier walks, and the directories known
/// after it.
pub open spec fn walk(
    links: Links,
    dirs: Map<Seq<Comp>, Seq<Comp>>,
    path: Seq<Comp>,
    depth: int,
) -> (Walk, Map<Seq<Comp>, Seq<Comp>>)
    decreases MAX_SYMLINK_DEPTH + 1 - depth, path.len(),
{
    if !absolute(path) {
        (Walk::Stuck, dirs)
    } else if depth > MAX_SYMLINK_DEPTH {
        (Walk::TooManyLinks(path), dirs)
    } else if dirs.contains_key(path) {
        (Walk::Done(dirs[path]), dirs)
    } else if path.len() == 1 {
        (Walk::Done(path), dirs)
    } else {
        let (up, dirs) = walk(links, dirs, path.drop_last(), depth);
        match up {
            Walk::Done(dir) => {
                let here = joined(dir, seq![path.last()]);
                if path.last() !is Name {
                    (Walk::Stuck, dirs)
                } else if !links.places.contains(here) {
                    (Walk::Done(here), dirs.insert(path, here))
                } else {
                    match link_target(links, dir, here) {
                        Ok(target) => {
                            let (end, dirs) = walk(links, dirs, target, depth + 1);
                            match end {
                                Walk::Done(found) => (end, dirs.insert(path, found)),
                                _ => (end, dirs),
                            }
                        },
                        Err(end) => (end, dirs),
                    }
                }
            },
            _ => (up, dirs),
        }
    }
}

/// Whether the directory `path` is found at `found`, after however many links.
pub open spec fn leads_to(links: Links, path: Seq<Comp>, found: Seq<Comp>) -> bool {
    exists|depth: int| #[trigger] resolved(links, path, depth) == Walk::Done(found)
}

/// Whether all known directories are where the links lead to.
pub open spec fn honest(links: Links, dirs: Map<Seq<Comp>, Seq<Comp>>) -> bool {
    forall|cs: Seq<Comp>| #[trigger]
        dirs.contains_key(cs) ==> leads_to(links, cs, dirs[cs])
}

proof fn lemma_more_links(links: Links, path: Seq<Comp>, depth: int, lower: int)
    requires
        lower <= depth,
        resolved(links, path, depth) is Done,
    ensures
        resolved(links, path, lower) == resolved(links, path, depth),
    decreases MAX_SYMLINK_DEPTH + 1 - depth, path.len(),
{
    if path.len() > 1 {
        lemma_more_links(links, path.drop_last(), depth, lower);
        let dir = resolved(links, path.drop_last(), depth)->Done_0;
        let here = joined(dir, seq![path.last()]);
        if links.places.contains(here) {
            lemma_more_links(links, link_target(links, dir, here)->Ok_0, depth + 1, lower + 1);
        }
    }
}

/// A directory is found in one place.
pub proof fn found_in_one_place(links: Links, path: Seq<Comp>, a: Seq<Comp>, b: Seq<Comp>)
    requires
        leads_to(links, path, a),
        leads_to(links, path, b),
    ensures
        a == b,
{
    let i = choose|depth: int| #[trigger] resolved(links, path, depth) == Walk::Done(a);
    let j = choose|depth: int| #[trigger] resolved(links, path, depth) == Walk::Done(b);
    if i <= j {
        lemma_more_links(links, path, j, i);
    } else {
        lemma_more_links(links, path, i, j);
    }
}

/// Known directories never change where a path leads to: what a walk finds is where the links
/// lead to, and what is found without known directories is found with them.
pub proof fn known_directories_change_nothing(
    links: Links,
    dirs: Map<Seq<Comp>, Seq<Comp>>,
    path: Seq<Comp>,
    depth: int,
)
    requires
        honest(links, dirs),
    ensures
        honest(links, walk(links, dirs, path, depth).1),
        walk(links, dirs, path, depth).0 matches Walk::Done(found) ==> leads_to(
            links,
            path,
            found,
        ),
        resolved(links, path, depth) is Done ==> walk(links, dirs, path, depth).0 == resolved(
            links,
            path,
            depth,
        ),
    decreases MAX_SYMLINK_DEPTH + 1 - depth, path.len(),
{
    if !absolute(path) || depth > MAX_SYMLINK_DEPTH {
    } else if dirs.contains_key(path) {
        if resolved(links, path, depth) is Done {
            let other = resolved(links, path, depth)->Done_0;
            assert(leads_to(links, path, other));
            found_in_one_place(links, path, dirs[path], other);
        }
    } else if path.len() == 1 {
        assert(resolved(links, path, depth) == Walk::Done(path));
    } else {
        let parent = path.drop_last();
        known_directories_change_nothing(links, dirs, parent, depth);
        let (up, mid) = walk(links, dirs, parent, depth);
        if up is Done && path.last() is Name {
            let dir = up->Done_0;
            let here = joined(dir, seq![path.last()]);
            let i = choose|d: int| #[trigger] resolved(links, parent, d) == Walk::Done(dir);
            if resolved(links, parent, depth) is Done {
                assert(resolved(links, parent, depth) == Walk::Done(dir));
            }
            if !links.places.contains(here) {
                assert(resolved(links, path, i) == Walk::Done(here));
                assert(leads_to(links, path, here));
            } else if link_target(links, dir, here) is Ok {
                let target = link_target(links, dir, here)->Ok_0;
                known_directories_change_nothing(links, mid, target, depth + 1);
                let (end, after) = walk(links, mid, target, depth + 1);
                if end is Done {
                    let found = end->Done_0;
                    let j = choose|d: int| #[trigger]
                        resolved(links, target, d) == Walk::Done(found);
                    let low = if i < j { i } else { j } - 1;
                    lemma_more_links(links, parent, i, low);
                    lemma_more_links(links, target, j, low + 1);
                    assert(resolved(links, path, low) == Walk::Done(found));
                    assert(leads_to(links, path, found));
                }
            }
        }
    }
}

/// Whether a path is made of names below the root, with no symbolic link on the way or at its
/// end.
pub open spec fn free_of_links(links: Links, path: Seq<Comp>) -> bool {
    &&& plain(path, true)
    &&& forall|k: int| 2 <= k <= path.len() ==> !links.places.contains(#[trigger] path.take(k))
}

proof fn lemma_target_shape(links: Links, dir: Seq<Comp>, here: Seq<Comp>)
    requires
        links.wf(),
        plain(dir, true),
        link_target(links, dir, here) is Ok,
    ensures
        well_shaped(link_target(links, dir, here)->Ok_0),
        absolute(link_target(links, dir, here)->Ok_0),
        links.targets[here] is Some,
        !absolute(links.targets[here]->0) ==> plain(link_target(links, dir, here)->Ok_0, true),
{
    let target = links.targets[here]->0;
    if !absolute(target) {
        let whole = joined(dir, target);
        assert forall|i: int| 1 <= i < whole.len() implies inner_component(#[trigger] whole[i]) by {
            if i < dir.len() {
                assert(whole[i] == dir[i]);
            } else if target[0] is Cur {
                assert(whole[i] == target[i - dir.len() + 1]);
            } else {
                assert(whole[i] == target[i - dir.len()]);
            }
        }
        assert(whole[0] == dir[0]);
        normalized_is_plain(whole);
        let r = normalized(whole);
        assert forall|i: int| 1 <= i < r.len() implies inner_component(#[trigger] r[i]) by {
            assert(r[i] is Name);
        }
    }
}

/// Where a directory is found, no link is left to resolve.
pub proof fn found_free_of_links(links: Links, path: Seq<Comp>, found: Seq<Comp>)
    requires
        links.wf(),
        well_shaped(path),
        leads_to(links, path, found),
    ensures
        free_of_links(links, found),
{
    let depth = choose|depth: int| #[trigger] resolved(links, path, depth) == Walk::Done(found);
    lemma_free_of_links(links, path, depth);
}

proof fn lemma_free_of_links(links: Links, path: Seq<Comp>, depth: int)
    requires
        links.wf(),
        well_shaped(path),
        resolved(links, path, depth) is Done,
    ensures
        free_of_links(links, resolved(links, path, depth)->Done_0),
    decreases MAX_SYMLINK_DEPTH + 1 - depth, path.len(),
{
    if path.len() > 1 {
        let parent = path.drop_last();
        assert(forall|i: int| 0 <= i < parent.len() ==> parent[i] == path[i]);
        lemma_free_of_links(links, parent, depth);
        let dir = resolved(links, parent, depth)->Done_0;
        let here = joined(dir, seq![path.last()]);
        assert(path.last() == path[path.len() - 1]);
        assert(here =~= dir.push(path.last()));
        if links.places.contains(here) {
            lemma_target_shape(links, dir, here);
            lemma_free_of_links(links, link_target(links, dir, here)->Ok_0, depth + 1);
        } else {
            assert forall|k: int| 2 <= k <= here.len() implies !links.places.contains(
                #[trigger] here.take(k),
            ) by {
                if k == here.len() {
                    assert(here.take(k) =~= here);
                } else {
                    assert(here.take(k) =~= dir.take(k));
                }
            }
        }
    }
}

/// A path without links stays as it is.
pub proof fn stays_without_links(links: Links, path: Seq<Comp>, depth: int)
    requires
        free_of_links(links, path),
        depth <= MAX_SYMLINK_DEPTH,
    ensures
        resolved(links, path, depth) == Walk::Done(path),
    decreases path.len(),
{
    if path.len() > 1 {
        let parent = path.drop_last();
        assert(forall|i: int| 0 <= i < parent.len() ==> parent[i] == path[i]);
        assert forall|k: int| 2 <= k <= parent.len() implies !links.places.contains(
            #[trigger] parent.take(k),
        ) by {
            assert(parent.take(k) =~= path.take(k));
        }
        stays_without_links(links, parent, depth);
        assert(path[path.len() - 1] is Name);
        assert(joined(parent, seq![path.last()]) =~= path);
        assert(path.take(path.len() as int) =~= path);
    }
}

/// What has been found is found again where it is.
pub proof fn found_once_and_for_all(links: Links, path: Seq<Comp>, found: Seq<Comp>)
    requires
        links.wf(),
        well_shaped(path),
        leads_to(links, path, found),
    ensures
        resolved(links, found, 0) == Walk::Done(found),
{
    found_free_of_links(links, path, found);
    stays_without_links(links, found, 0);
}

/// A walk asks for links only, and for none that has been read.
pub proof fn asks_for_unread_links(
    links: Links,
    dirs: Map<Seq<Comp>, Seq<Comp>>,
    path: Seq<Comp>,
    depth: int,
)
    ensures
        walk(links, dirs, path, depth).0 matches Walk::Unread(link) ==> links.places.contains(link)
            && !links.targets.contains_key(link) && absolute(link),
    decreases MAX_SYMLINK_DEPTH + 1 - depth, path.len(),
{
    if absolute(path) && depth <= MAX_SYMLINK_DEPTH && !dirs.contains_key(path) && path.len() > 1 {
        asks_for_unread_links(links, dirs, path.drop_last(), depth);
        let (up, mid) = walk(links, dirs, path.drop_last(), depth);
        if up is Done {
            let dir = up->Done_0;
            let here = joined(dir, seq![path.last()]);
            if links.places.contains(here) && link_target(links, dir, here) is Ok {
                asks_for_unread_links(links, mid, link_target(links, dir, here)->Ok_0, depth + 1);
            }
        }
    }
}

/// A walk that asks for no link goes the same way when more links have been read.
pub proof fn reading_more_changes_nothing(
    links: Links,
    more: Links,
    dirs: Map<Seq<Comp>, Seq<Comp>>,
    path: Seq<Comp>,
    depth: int,
)
    requires
        links.extended_by(more),
        !(walk(links, dirs, path, depth).0 is Unread),
    ensures
        walk(more, dirs, path, depth) == walk(links, dirs, path, depth),
    decreases MAX_SYMLINK_DEPTH + 1 - depth, path.len(),
{
    if absolute(path) && depth <= MAX_SYMLINK_DEPTH && !dirs.contains_key(path) && path.len() > 1 {
        reading_more_changes_nothing(links, more, dirs, path.drop_last(), depth);
        let (up, mid) = walk(links, dirs, path.drop_last(), depth);
        if up is Done && path.last() is Name {
            let dir = up->Done_0;
            let here = joined(dir, seq![path.last()]);
            if links.places.contains(here) && link_target(links, dir, here) is Ok {
                reading_more_changes_nothing(
                    links,
                    more,
                    mid,
                    link_target(links, dir, here)->Ok_0,
                    depth + 1,
                );
            }
        }
    }
}

/// Whether all known directories are made of names below the root.
pub open spec fn plain_dirs(dirs: Map<Seq<Comp>, Seq<Comp>>) -> bool {
    forall|cs: Seq<Comp>| #[trigger] dirs.contains_key(cs) ==> plain(dirs[cs], true)
}

/// Whether no absolute target of a link has a `..`.
pub open spec fn plain_targets(links: Links) -> bool {
    forall|cs: Seq<Comp>| #[trigger]
        links.targets.contains_key(cs) && links.targets[cs] is Some && absolute(
            links.targets[cs]->0,
        ) ==> plain(links.targets[cs]->0, true)
}

/// A walk is stuck nowhere on an absolute path without `..`, unless the absolute target of a
/// link has one.
pub proof fn never_stuck(
    links: Links,
    dirs: Map<Seq<Comp>, Seq<Comp>>,
    path: Seq<Comp>,
    depth: int,
)
    requires
        links.wf(),
        plain_targets(links),
        plain_dirs(dirs),
        plain(path, true),
    ensures
        !(walk(links, dirs, path, depth).0 is Stuck),
        walk(links, dirs, path, depth).0 matches Walk::Done(found) ==> plain(found, true),
        plain_dirs(walk(links, dirs, path, depth).1),
    decreases MAX_SYMLINK_DEPTH + 1 - depth, path.len(),
{
    if depth <= MAX_SYMLINK_DEPTH && !dirs.contains_key(path) && path.len() > 1 {
        let parent = path.drop_last();
        assert(forall|i: int| 0 <= i < parent.len() ==> parent[i] == path[i]);
        never_stuck(links, dirs, parent, depth);
        let (up, mid) = walk(links, dirs, parent, depth);
        assert(path[path.len() - 1] is Name);
        if up is Done {
            let dir = up->Done_0;
            let here = joined(dir, seq![path.last()]);
            assert(here =~= dir.push(path.last()));
            if links.places.contains(here) && link_target(links, dir, here) is Ok {
                lemma_target_shape(links, dir, here);
                never_stuck(links, mid, link_target(links, dir, here)->Ok_0, depth + 1);
            }
        }
    }
}

/// A link whose target has to be read.
#[derive(Debug)]
pub struct LinkRequest {
    /// The path of the link.
    pub path: String,
    /// The same path, seen from the root.
    pub rel_path: String,
}

impl LinkRequest {
    /// The second path is what taking off the root leaves of the first.
    pub open spec fn wf(&self) -> bool {
        &&& absolute(path_components(self.path@))
        &&& self.rel_path@ == stripped_text(self.path@, "/"@)
        &&& path_components(self.rel_path@) == path_components(self.path@).skip(1)
        &&& plain_absolute(self.path@) ==> self.rel_path@ == self.path@.skip(1)
    }
}

/// What can be said with the links that have been read.
#[derive(Debug)]
pub enum Step<T> {
    /// This is the result.
    Done(T),
    /// The target of this link has to be read first.
    ReadLink(LinkRequest),
}

/// A directory cannot be found.
#[derive(Debug)]
pub enum CanonicalizeError {
    /// Too many links led to this path.
    TooManyLinks {
        /// The path.
        path: String,
    },
    /// The target of this link is no UTF-8.
    NonUtf8Target {
        /// The path of the link.
        path: String,
    },
}

/// The end of the walk that a result tells of.
pub open spec fn outcome(r: Result<Step<String>, CanonicalizeError>) -> Walk {
    match r {
        Ok(Step::Done(path)) => Walk::Done(path_components(path@)),
        Ok(Step::ReadLink(request)) => Walk::Unread(path_components(request.path@)),
        Err(CanonicalizeError::TooManyLinks { path }) => Walk::TooManyLinks(path_components(path@)),
        Err(CanonicalizeError::NonUtf8Target { path }) => Walk::NonUtf8Target(
            path_components(path@),
        ),
    }
}

/// The directories of a cache.
pub open spec fn known_dirs(cache: Map<Seq<Comp>, String>) -> Map<Seq<Comp>, Seq<Comp>> {
    cache.map_values(|text: String| path_components(text@))
}

/// Follows the path from the root down; `None` where the walk is stuck.
fn walk_dir(
    files: &FileMap,
    links: &LinkMap,
    path: &str,
    cache: &mut DirCache,
    depth: usize,
) -> (r: Option<Result<Step<String>, CanonicalizeError>>)
    requires
        files.wf(),
        links.wf(),
        old(cache).wf(),
    ensures
        final(cache).wf(),
        ({
            let (end, dirs) = walk(
                known_links(files.map(), links.map()),
                known_dirs(old(cache).map()),
                path_components(path@),
                depth as int,
            );
            &&& known_dirs(final(cache).map()) == dirs
            &&& r is None <==> end is Stuck
            &&& r is Some ==> outcome(r->0) == end
        }),
        r matches Some(Ok(Step::ReadLink(request))) ==> request.wf(),
    decreases MAX_SYMLINK_DEPTH + 1 - depth, path_components(path@).len(),
{
    let ghost known = known_links(files.map(), links.map());
    let ghost cs = path_components(path@);
    if !is_absolute(path) {
        return None;
    }
    if depth > MAX_SYMLINK_DEPTH {
        return Some(Err(CanonicalizeError::TooManyLinks { path: path.to_owned() }));
    }
    // check cache first
    if let Some(cached) = cache.get(path) {
        return Some(Ok(Step::Done(cached.as_str().to_owned())));
    }
    // base case: root
    proof {
        root_components();
    }
    if compare(path, "/") == PathOrder::Same {
        return Some(Ok(Step::Done("/".to_owned())));
    }
    proof {
        components_well_shaped(path@);
        if cs.len() == 1 {
            assert(cs =~= seq![Comp::Root]);
        }
        assert(cs.last() == cs[cs.len() - 1]);
        assert(inner_component(cs[cs.len() - 1]));
    }
    // recursively canonicalize the parent
    let parent_path = parent(path).unwrap();
    let canonical_parent = match walk_dir(files, links, parent_path, cache, depth) {
        Some(Ok(Step::Done(canonical_parent))) => canonical_parent,
        end => {
            return end;
        },
    };
    let filename = match file_name(path) {
        Some(filename) => filename,
        None => {
            return None;
        },
    };
    let current_path = join(canonical_parent.as_str(), filename);
    let ghost dir = path_components(canonical_parent@);
    let ghost here = path_components(current_path@);
    proof {
        name_components(filename@);
        assert(here == joined(dir, seq![cs.last()]));
    }
    let is_symlink = match files.get(current_path.as_str()) {
        Some(fi) => fi.file_type == FileType::Symlink,
        None => false,
    };
    assert(is_symlink == known.places.contains(here));

    let canonical: String = if is_symlink {
        let rel_path = match strip_prefix(current_path.as_str(), "/") {
            Some(rel_path) => rel_path,
            None => {
                assert(!absolute(here));
                return None;
            },
        };
        assert(absolute(here));
        let target = match links.get(current_path.as_str()) {
            Some(Some(target)) => target,
            Some(None) => {
                return Some(Err(CanonicalizeError::NonUtf8Target { path: current_path }));
            },
            None => {
                let rel_path = rel_path.to_owned();
                let request = LinkRequest { path: current_path, rel_path };
                return Some(Ok(Step::ReadLink(request)));
            },
        };
        assert(known.targets[here] == Some(path_components(target@)));
        let end = if is_absolute(target.as_str()) {
            // absolute symlink - recurse to resolve any symlinks in target
            walk_dir(files, links, target.as_str(), cache, depth + 1)
        } else {
            // relative symlink - join with parent and normalize
            let resolved_path = join(canonical_parent.as_str(), target.as_str());
            let normal_path = normalize_path(resolved_path.as_str()).unwrap();
            // recurse to resolve any symlinks in the resolved path
            walk_dir(files, links, normal_path.as_str(), cache, depth + 1)
        };
        match end {
            Some(Ok(Step::Done(canonical))) => canonical,
            end => {
                return end;
            },
        }
    } else {
        current_path
    };

    let ghost before = cache.map();
    let entry = canonical.as_str().to_owned();
    proof {
        assert(known_dirs(before.insert(cs, entry)) =~= known_dirs(before).insert(
            cs,
            path_components(canonical@),
        ));
    }
    cache.insert(path.to_owned(), entry);
    Some(Ok(Step::Done(canonical)))
}

/// Canonicalize a directory path by resolving symlinks, when `depth` of them have been
/// followed. What is found on the way goes into the cache.
pub fn canonicalize_dir_path(
    files: &FileMap,
    links: &LinkMap,
    path: &str,
    cache: &mut DirCache,
    depth: usize,
) -> (r: Result<Step<String>, CanonicalizeError>)
    requires
        files.wf(),
        links.wf(),
        old(cache).wf(),
        !(walk(
            known_links(files.map(), links.map()),
            known_dirs(old(cache).map()),
            path_components(path@),
            depth as int,
        ).0 is Stuck),
    ensures
        final(cache).wf(),
        (outcome(r), known_dirs(final(cache).map())) == walk(
            known_links(files.map(), links.map()),
            known_dirs(old(cache).map()),
            path_components(path@),
            depth as int,
        ),
        r matches Ok(Step::ReadLink(request)) ==> request.wf(),
{
    walk_dir(files, links, path, cache, depth).unwrap()
}

/// Where the walk to a file ends, whose own name is not followed.
pub open spec fn parent_walk(
    links: Links,
    dirs: Map<Seq<Comp>, Seq<Comp>>,
    path: Seq<Comp>,
) -> (Walk, Map<Seq<Comp>, Seq<Comp>>) {
    if !absolute(path) {
        (Walk::Stuck, dirs)
    } else if path.len() == 1 {
        (Walk::Done(path), dirs)
    } else {
        let (up, dirs) = walk(links, dirs, path.drop_last(), 0);
        match up {
            Walk::Done(dir) => if path.last() is Name {
                (Walk::Done(joined(dir, seq![path.last()])), dirs)
            } else {
                (Walk::Stuck, dirs)
            },
            _ => (up, dirs),
        }
    }
}

/// Follows the path up to its last name; `None` where the walk is stuck.
pub(crate) fn walk_parent(
    files: &FileMap,
    links: &LinkMap,
    path: &str,
    cache: &mut DirCache,
) -> (r: Option<Result<Step<String>, CanonicalizeError>>)
    requires
        files.wf(),
        links.wf(),
        old(cache).wf(),
    ensures
        final(cache).wf(),
        ({
            let (end, dirs) = parent_walk(
                known_links(files.map(), links.map()),
                known_dirs(old(cache).map()),
                path_components(path@),
            );
            &&& known_dirs(final(cache).map()) == dirs
            &&& r is None <==> end is Stuck
            &&& r is Some ==> outcome(r->0) == end
        }),
        r matches Some(Ok(Step::ReadLink(request))) ==> request.wf(),
{
    let ghost cs = path_components(path@);
    if !is_absolute(path) {
        return None;
    }
    proof {
        root_components();
    }
    if compare(path, "/") == PathOrder::Same {
        return Some(Ok(Step::Done("/".to_owned())));
    }
    proof {
        components_well_shaped(path@);
        if cs.len() == 1 {
            assert(cs =~= seq![Comp::Root]);
        }
        assert(cs.last() == cs[cs.len() - 1]);
        assert(inner_component(cs[cs.len() - 1]));
    }
    // recursively canonicalize the parent
    let parent_path = parent(path).unwrap();
    let canonical_parent = match walk_dir(files, links, parent_path, cache, 0) {
        Some(Ok(Step::Done(canonical_parent))) => canonical_parent,
        end => {
            return end;
        },
    };
    match file_name(path) {
        Some(filename) => {
            proof {
                name_components(filename@);
            }
            Some(Ok(Step::Done(join(canonical_parent.as_str(), filename))))
        },
        None => None,
    }
}

/// Canonicalize the parent directory of a path by resolving symlinks.
///
/// Given `/lib/modules/5.x/vmlinuz`, if `/lib` -> `usr/lib`, returns
/// `/usr/lib/modules/5.x/vmlinuz`. Only symlinks in directory components are
/// resolved, not the final component (the reason is that if the final component
/// is supposed to be a file/directory according to the rpmdb, but it turns out
/// to be symlink, then something is off and we don't want the RPM to claim it).
///
/// The path must be absolute.
pub fn canonicalize_parent_path(
    files: &FileMap,
    links: &LinkMap,
    path: &str,
    cache: &mut DirCache,
) -> (r: Result<Step<String>, CanonicalizeError>)
    requires
        files.wf(),
        links.wf(),
        old(cache).wf(),
        !(parent_walk(
            known_links(files.map(), links.map()),
            known_dirs(old(cache).map()),
            path_components(path@),
        ).0 is Stuck),
    ensures
        final(cache).wf(),
        (outcome(r), known_dirs(final(cache).map())) == parent_walk(
            known_links(files.map(), links.map()),
            known_dirs(old(cache).map()),
            path_components(path@),
        ),
        r matches Ok(Step::ReadLink(request)) ==> request.wf(),
{
    walk_parent(files, links, path, cache).unwrap()
}

/// The links are the symbolic links among the files, and their targets are those that have been
/// read.
pub proof fn links_are_the_symlinks_among_the_files(
    files: Map<Seq<Comp>, FileInfo>,
    read: Map<Seq<Comp>, Option<String>>,
    cs: Seq<Comp>,
)
    ensures
        known_links(files, read).places.contains(cs) <==> files.contains_key(cs)
            && files[cs].file_type == FileType::Symlink,
        known_links(files, read).targets.contains_key(cs) <==> read.contains_key(cs),
        read.contains_key(cs) && read[cs] is None ==> known_links(files, read).targets[cs] is None,
        read.contains_key(cs) && read[cs] is Some ==> known_links(files, read).targets[cs] == Some(
            path_components(read[cs]->0@),
        ),
{
}

/// Where the target of a link in the directory `dir` points to: an absolute one is a path of
/// its own, a relative one is gone along from the directory of the link.
pub open spec fn points_to(dir: Seq<Comp>, target: Seq<Comp>) -> Seq<Comp> {
    if target.len() > 0 && target[0] is Root {
        target
    } else {
        go_along(dir, target)
    }
}

proof fn lemma_dir_plain(links: Links, parent: Seq<Comp>, dir: Seq<Comp>)
    requires
        links.wf(),
        well_shaped(parent),
        leads_to(links, parent, dir),
    ensures
        plain(dir, true),
{
    found_free_of_links(links, parent, dir);
}

proof fn lemma_points_to(links: Links, dir: Seq<Comp>, name: Comp)
    requires
        links.wf(),
        plain(dir, true),
        links.targets.contains_key(dir.push(name)),
        links.targets[dir.push(name)] is Some,
    ensures
        joined(dir, seq![name]) == dir.push(name) || name is Root || name is Cur,
        link_target(links, dir, dir.push(name)) == Ok::<Seq<Comp>, Walk>(
            points_to(dir, links.targets[dir.push(name)]->0),
        ),
{
    let here = dir.push(name);
    let target = links.targets[here]->0;
    assert(joined(dir, seq![name]) =~= here || name is Root || name is Cur);
    assert(here[0] == dir[0]);
    if !absolute(target) {
        joined_goes_along(dir, target);
    }
}

/// The root leads to itself and nowhere else, and a path that does not start at the root leads
/// nowhere.
pub proof fn root_leads_to_itself(links: Links, path: Seq<Comp>, found: Seq<Comp>)
    ensures
        leads_to(links, seq![Comp::Root], found) <==> found == seq![Comp::Root],
        !(path.len() > 0 && path[0] is Root) ==> !leads_to(links, path, found),
{
    assert(resolved(links, seq![Comp::Root], 0) == Walk::Done(seq![Comp::Root]));
    if leads_to(links, seq![Comp::Root], found) {
        found_in_one_place(links, seq![Comp::Root], found, seq![Comp::Root]);
    }
}

/// A name that is no link leads to that name in the directory that the path before it leads to.
pub proof fn name_leads_into_the_directory(
    links: Links,
    parent: Seq<Comp>,
    dir: Seq<Comp>,
    name: Seq<char>,
    found: Seq<Comp>,
)
    requires
        links.wf(),
        well_shaped(parent),
        leads_to(links, parent, dir),
        !links.places.contains(dir.push(Comp::Name(name))),
    ensures
        leads_to(links, parent.push(Comp::Name(name)), found) <==> found == dir.push(
            Comp::Name(name),
        ),
{
    let path = parent.push(Comp::Name(name));
    let here = dir.push(Comp::Name(name));
    lemma_dir_plain(links, parent, dir);
    let i = choose|i: int| #[trigger] resolved(links, parent, i) == Walk::Done(dir);
    assert(path.drop_last() =~= parent);
    assert(joined(dir, seq![Comp::Name(name)]) =~= here);
    assert(path[0] == parent[0]);
    assert(resolved(links, path, i) == Walk::Done(here));
    assert(leads_to(links, path, here));
    if leads_to(links, path, found) {
        found_in_one_place(links, path, found, here);
    }
}

/// A link leads to where its target does. A relative target is gone along from the directory
/// that the path of the link before its name leads to.
pub proof fn link_leads_where_its_target_does(
    links: Links,
    parent: Seq<Comp>,
    dir: Seq<Comp>,
    name: Seq<char>,
    found: Seq<Comp>,
)
    requires
        links.wf(),
        well_shaped(parent),
        leads_to(links, parent, dir),
        links.places.contains(dir.push(Comp::Name(name))),
        links.targets.contains_key(dir.push(Comp::Name(name))),
        links.targets[dir.push(Comp::Name(name))] is Some,
    ensures
        ({
            let target = links.targets[dir.push(Comp::Name(name))]->0;
            &&& target.len() > 0 && target[0] is Root ==> (leads_to(
                links,
                parent.push(Comp::Name(name)),
                found,
            ) <==> leads_to(links, target, found))
            &&& !(target.len() > 0 && target[0] is Root) ==> (leads_to(
                links,
                parent.push(Comp::Name(name)),
                found,
            ) <==> leads_to(links, go_along(dir, target), found))
            &&& (forall|i: int| 0 <= i < target.len() ==> (#[trigger] target[i]) is Name) ==> (
            leads_to(links, parent.push(Comp::Name(name)), found) <==> leads_to(
                links,
                dir + target,
                found,
            ))
        }),
{
    let path = parent.push(Comp::Name(name));
    let here = dir.push(Comp::Name(name));
    let target = links.targets[here]->0;
    let next = points_to(dir, target);
    lemma_dir_plain(links, parent, dir);
    lemma_points_to(links, dir, Comp::Name(name));
    assert(path.drop_last() =~= parent);
    assert(path[0] == parent[0]);
    let i = choose|i: int| #[trigger] resolved(links, parent, i) == Walk::Done(dir);
    if leads_to(links, path, found) {
        let d = choose|d: int| #[trigger] resolved(links, path, d) == Walk::Done(found);
        let other = resolved(links, parent, d)->Done_0;
        assert(leads_to(links, parent, other));
        found_in_one_place(links, parent, dir, other);
        assert(resolved(links, next, d + 1) == Walk::Done(found));
    }
    if leads_to(links, next, found) {
        let j = choose|j: int| #[trigger] resolved(links, next, j) == Walk::Done(found);
        let low = if i < j { i } else { j } - 1;
        lemma_more_links(links, parent, i, low);
        lemma_more_links(links, next, j, low + 1);
        assert(resolved(links, path, low) == Walk::Done(found));
    }
    if forall|k: int| 0 <= k < target.len() ==> (#[trigger] target[k]) is Name {
        names_are_appended(dir, target);
        if target.len() > 0 {
            assert(target[0] is Name);
        }
    }
}

/// A path leads somewhere only where the path before its last name does, where it ends in a
/// name, and where a link there has been read and has a target in UTF-8.
pub proof fn path_leads_through_its_parent(links: Links, path: Seq<Comp>, found: Seq<Comp>)
    requires
        links.wf(),
        well_shaped(path),
        leads_to(links, path, found),
        path.len() != 1,
    ensures
        path.len() > 1 && path[path.len() - 1] is Name,
        exists|dir: Seq<Comp>|
            {
                let here = dir.push(path[path.len() - 1]);
                &&& #[trigger] leads_to(links, path.take(path.len() - 1), dir)
                &&& links.places.contains(here) ==> links.targets.contains_key(here)
                    && links.targets[here] is Some
            },
{
    let d = choose|d: int| #[trigger] resolved(links, path, d) == Walk::Done(found);
    let parent = path.take(path.len() - 1);
    assert(parent =~= path.drop_last());
    let dir = resolved(links, parent, d)->Done_0;
    assert(leads_to(links, parent, dir));
    lemma_parent_shape(path);
    lemma_dir_plain(links, parent, dir);
    assert(joined(dir, seq![path.last()]) =~= dir.push(path.last()));
}

proof fn lemma_parent_shape(path: Seq<Comp>)
    requires
        well_shaped(path),
        path.len() > 1,
    ensures
        well_shaped(path.drop_last()),
        well_shaped(path.take(path.len() - 1)),
        path.take(path.len() - 1) == path.drop_last(),
{
    let parent = path.drop_last();
    assert(path.take(path.len() - 1) =~= parent);
    assert(forall|i: int| 0 <= i < parent.len() ==> parent[i] == path[i]);
}

/// Whether following a link on the way along `path` one comes to `next`.
pub open spec fn follows(links: Links, path: Seq<Comp>, next: Seq<Comp>) -> bool {
    exists|m: int, dir: Seq<Comp>|
        {
            let here = dir.push(path[m]);
            &&& 1 <= m < path.len()
            &&& path[m] is Name
            &&& #[trigger] leads_to(links, path.take(m), dir)
            &&& links.places.contains(here)
            &&& links.targets.contains_key(here)
            &&& links.targets[here] is Some
            &&& next == points_to(dir, links.targets[here]->0)
        }
}

/// Whether one comes by `link` on the way along `path`, before any link in it is followed.
pub open spec fn comes_by(links: Links, path: Seq<Comp>, link: Seq<Comp>) -> bool {
    exists|m: int, dir: Seq<Comp>|
        1 <= m < path.len() && path[m] is Name && #[trigger] leads_to(links, path.take(m), dir)
            && link == dir.push(path[m])
}

/// Whether one comes by `link` on the way along `path`, when at most `n` links are followed.
pub open spec fn on_the_way(links: Links, path: Seq<Comp>, link: Seq<Comp>, n: int) -> bool
    decreases n,
{
    comes_by(links, path, link) || (n > 0 && exists|next: Seq<Comp>| #[trigger]
        follows(links, path, next) && on_the_way(links, next, link, n - 1))
}

/// Whether one comes to `end` when `n` links are followed from `path` on, one in the target of
/// the other.
pub open spec fn comes_to(links: Links, path: Seq<Comp>, end: Seq<Comp>, n: int) -> bool
    decreases n,
{
    if n <= 0 {
        end == path
    } else {
        exists|next: Seq<Comp>| #[trigger]
            follows(links, path, next) && comes_to(links, next, end, n - 1)
    }
}

proof fn lemma_follows_longer(links: Links, path: Seq<Comp>, next: Seq<Comp>)
    requires
        path.len() > 1,
        follows(links, path.drop_last(), next),
    ensures
        follows(links, path, next),
{
    let parent = path.drop_last();
    let (m, dir) = choose|m: int, dir: Seq<Comp>|
        {
            let here = dir.push(parent[m]);
            &&& 1 <= m < parent.len()
            &&& parent[m] is Name
            &&& #[trigger] leads_to(links, parent.take(m), dir)
            &&& links.places.contains(here)
            &&& links.targets.contains_key(here)
            &&& links.targets[here] is Some
            &&& next == points_to(dir, links.targets[here]->0)
        };
    assert(path.take(m) =~= parent.take(m));
    assert(path[m] == parent[m]);
    assert(leads_to(links, path.take(m), dir));
}

proof fn lemma_on_the_way_longer(links: Links, path: Seq<Comp>, link: Seq<Comp>, n: int)
    requires
        path.len() > 1,
        on_the_way(links, path.drop_last(), link, n),
    ensures
        on_the_way(links, path, link, n),
{
    let parent = path.drop_last();
    if comes_by(links, parent, link) {
        let (m, dir) = choose|m: int, dir: Seq<Comp>|
            1 <= m < parent.len() && parent[m] is Name && #[trigger] leads_to(
                links,
                parent.take(m),
                dir,
            ) && link == dir.push(parent[m]);
        assert(path.take(m) =~= parent.take(m));
        assert(path[m] == parent[m]);
        assert(leads_to(links, path.take(m), dir));
    } else {
        let next = choose|next: Seq<Comp>| #[trigger]
            follows(links, parent, next) && on_the_way(links, next, link, n - 1);
        lemma_follows_longer(links, path, next);
    }
}

/// Why a walk does not find a directory: it comes by a link that has not been read, or by one
/// whose target is no UTF-8, or it comes to a path by following 41 links.
pub proof fn walks_fail_for_a_reason(
    links: Links,
    dirs: Map<Seq<Comp>, Seq<Comp>>,
    path: Seq<Comp>,
    depth: int,
)
    requires
        links.wf(),
        honest(links, dirs),
        well_shaped(path),
    ensures
        walk(links, dirs, path, depth).0 matches Walk::Unread(link) ==> links.places.contains(link)
            && !links.targets.contains_key(link) && on_the_way(links, path, link, 40 - depth),
        walk(links, dirs, path, depth).0 matches Walk::NonUtf8Target(link)
            ==> links.places.contains(link) && links.targets.contains_key(link)
            && links.targets[link] is None && on_the_way(links, path, link, 40 - depth),
        walk(links, dirs, path, depth).0 matches Walk::TooManyLinks(end) ==> comes_to(
            links,
            path,
            end,
            41 - depth,
        ),
    decreases MAX_SYMLINK_DEPTH + 1 - depth, path.len(),
{
    if absolute(path) && depth <= MAX_SYMLINK_DEPTH && !dirs.contains_key(path) && path.len() > 1 {
        let parent = path.drop_last();
        let last = path.last();
        let (up, mid) = walk(links, dirs, parent, depth);
        lemma_parent_shape(path);
        walks_fail_for_a_reason(links, dirs, parent, depth);
        known_directories_change_nothing(links, dirs, parent, depth);
        if up is Unread {
            lemma_on_the_way_longer(links, path, up->Unread_0, 40 - depth);
        } else if up is NonUtf8Target {
            lemma_on_the_way_longer(links, path, up->NonUtf8Target_0, 40 - depth);
        } else if up is TooManyLinks {
            let end = up->TooManyLinks_0;
            let next = choose|next: Seq<Comp>| #[trigger]
                follows(links, parent, next) && comes_to(links, next, end, 41 - depth - 1);
            lemma_follows_longer(links, path, next);
        } else if up is Done && last is Name {
            let dir = up->Done_0;
            let here = dir.push(last);
            let m = path.len() - 1;
            lemma_dir_plain(links, parent, dir);
            assert(joined(dir, seq![last]) =~= here);
            assert(path.take(m) == parent);
            assert(leads_to(links, path.take(m), dir));
            assert(path[m] == last);
            assert(comes_by(links, path, here));
            if links.places.contains(here) && link_target(links, dir, here) is Ok {
                lemma_points_to(links, dir, last);
                lemma_target_shape(links, dir, here);
                let target = link_target(links, dir, here)->Ok_0;
                assert(follows(links, path, target));
                walks_fail_for_a_reason(links, mid, target, depth + 1);
                let end = walk(links, mid, target, depth + 1).0;
                if end is Unread {
                    assert(on_the_way(links, target, end->Unread_0, 40 - depth - 1));
                } else if end is NonUtf8Target {
                    assert(on_the_way(links, target, end->NonUtf8Target_0, 40 - depth - 1));
                } else if end is TooManyLinks {
                    assert(comes_to(links, target, end->TooManyLinks_0, 41 - depth - 1));
                }
            }
        }
    }
}

/// A walk along a path that leads somewhere comes there, unless there are too many links on
/// the way.
pub proof fn walks_come_where_the_path_leads(
    links: Links,
    dirs: Map<Seq<Comp>, Seq<Comp>>,
    path: Seq<Comp>,
    depth: int,
    found: Seq<Comp>,
)
    requires
        links.wf(),
        honest(links, dirs),
        well_shaped(path),
        leads_to(links, path, found),
    ensures
        walk(links, dirs, path, depth).0 == Walk::Done(found) || walk(
            links,
            dirs,
            path,
            depth,
        ).0 is TooManyLinks,
    decreases MAX_SYMLINK_DEPTH + 1 - depth, path.len(),
{
    let d = choose|d: int| #[trigger] resolved(links, path, d) == Walk::Done(found);
    if depth > MAX_SYMLINK_DEPTH {
    } else if dirs.contains_key(path) {
        found_in_one_place(links, path, found, dirs[path]);
    } else if path.len() > 1 {
        let parent = path.drop_last();
        let last = path.last();
        lemma_parent_shape(path);
        let dir = resolved(links, parent, d)->Done_0;
        assert(leads_to(links, parent, dir));
        walks_come_where_the_path_leads(links, dirs, parent, depth, dir);
        known_directories_change_nothing(links, dirs, parent, depth);
        let (up, mid) = walk(links, dirs, parent, depth);
        if up is Done {
            lemma_dir_plain(links, parent, dir);
            let here = joined(dir, seq![last]);
            if links.places.contains(here) {
                lemma_target_shape(links, dir, here);
                let target = link_target(links, dir, here)->Ok_0;
                assert(resolved(links, target, d + 1) == Walk::Done(found));
                assert(leads_to(links, target, found));
                walks_come_where_the_path_leads(links, mid, target, depth + 1, found);
            }
        }
    }
}

/// A chain of links with absolute targets, in directories without links, is followed to its end
/// if there are no more than 40 of them, and no further than the 41st path if there are more.
pub proof fn chains_are_followed_up_to_the_limit(
    links: Links,
    chain: Seq<Seq<Comp>>,
    depth: int,
)
    requires
        chain.len() > 0,
        depth <= 41,
        free_of_links(links, chain.last()),
        forall|k: int|
            0 <= k < chain.len() ==> (#[trigger] chain[k]).len() > 1 && plain(chain[k], true)
                && free_of_links(links, chain[k].drop_last()),
        forall|k: int|
            0 <= k < chain.len() - 1 ==> links.places.contains(#[trigger] chain[k])
                && links.targets.contains_key(chain[k]) && links.targets[chain[k]] == Some(
                chain[k + 1],
            ),
    ensures
        resolved(links, chain[0], depth) == (if depth + chain.len() - 1 <= 40 {
            Walk::Done(chain.last())
        } else {
            Walk::TooManyLinks(chain[41 - depth])
        }),
    decreases chain.len(),
{
    let path = chain[0];
    if depth <= 40 {
        let parent = path.drop_last();
        stays_without_links(links, parent, depth);
        assert(path[path.len() - 1] is Name);
        assert(joined(parent, seq![path.last()]) =~= path);
        if chain.len() == 1 {
            assert(path.take(path.len() as int) =~= path);
        } else {
            let rest = chain.skip(1);
            assert forall|k: int| 0 <= k < rest.len() implies (#[trigger] rest[k]).len() > 1 && plain(
                rest[k],
                true,
            ) && free_of_links(links, rest[k].drop_last()) by {
                assert(rest[k] == chain[k + 1]);
            }
            assert forall|k: int| 0 <= k < rest.len() - 1 implies links.places.contains(
                #[trigger] rest[k],
            ) && links.targets.contains_key(rest[k]) && links.targets[rest[k]] == Some(
                rest[k + 1],
            ) by {
                assert(rest[k] == chain[k + 1]);
                assert(rest[k + 1] == chain[k + 2]);
            }
            assert(links.places.contains(chain[0]));
            assert(rest[0] == chain[1]);
            assert(absolute(chain[1]));
            chains_are_followed_up_to_the_limit(links, rest, depth + 1);
        }
    }
}

/// Whether a path ends in a link whose target points to a path of the set.
pub open spec fn ends_in_link_into(
    links: Links,
    circle: Set<Seq<Comp>>,
    path: Seq<Comp>,
) -> bool {
    &&& well_shaped(path)
    &&& path.len() > 1
    &&& path[path.len() - 1] is Name
    &&& exists|dir: Seq<Comp>|
        {
            let here = dir.push(path[path.len() - 1]);
            &&& #[trigger] leads_to(links, path.take(path.len() - 1), dir)
            &&& links.places.contains(here)
            &&& links.targets.contains_key(here)
            &&& links.targets[here] is Some
            &&& circle.contains(points_to(dir, links.targets[here]->0))
        }
}

/// Links in a circle lead nowhere: a set of paths that end in links whose targets point to paths
/// of that set.
pub proof fn circles_lead_nowhere(
    links: Links,
    circle: Set<Seq<Comp>>,
    path: Seq<Comp>,
    found: Seq<Comp>,
)
    requires
        links.wf(),
        circle.contains(path),
        forall|p: Seq<Comp>|
            circle.contains(p) ==> #[trigger] ends_in_link_into(links, circle, p),
    ensures
        !leads_to(links, path, found),
{
    if leads_to(links, path, found) {
        let d = choose|d: int| #[trigger] resolved(links, path, d) == Walk::Done(found);
        lemma_circle(links, circle, path, d);
    }
}

proof fn lemma_circle(links: Links, circle: Set<Seq<Comp>>, path: Seq<Comp>, depth: int)
    requires
        links.wf(),
        circle.contains(path),
        forall|p: Seq<Comp>|
            circle.contains(p) ==> #[trigger] ends_in_link_into(links, circle, p),
    ensures
        !(resolved(links, path, depth) is Done),
    decreases MAX_SYMLINK_DEPTH + 1 - depth,
{
    if resolved(links, path, depth) is Done {
        assert(ends_in_link_into(links, circle, path));
        lemma_parent_shape(path);
        let parent = path.drop_last();
        let dir = choose|dir: Seq<Comp>|
            {
                let here = dir.push(path[path.len() - 1]);
                &&& #[trigger] leads_to(links, path.take(path.len() - 1), dir)
                &&& links.places.contains(here)
                &&& links.targets.contains_key(here)
                &&& links.targets[here] is Some
                &&& circle.contains(points_to(dir, links.targets[here]->0))
            };
        let other = resolved(links, parent, depth)->Done_0;
        assert(leads_to(links, parent, other));
        found_in_one_place(links, parent, dir, other);
        lemma_dir_plain(links, parent, dir);
        lemma_points_to(links, dir, path.last());
        lemma_circle(
            links,
            circle,
            points_to(dir, links.targets[dir.push(path.last())]->0),
            depth + 1,
        );
    }
}

/// The walk to a file follows the links in its directory and leaves its own name as it is.
pub proof fn files_keep_their_own_names(
    links: Links,
    dirs: Map<Seq<Comp>, Seq<Comp>>,
    path: Seq<Comp>,
)
    requires
        links.wf(),
        honest(links, dirs),
        well_shaped(path),
    ensures
        path == seq![Comp::Root] ==> parent_walk(links, dirs, path).0 == Walk::Done(path),
        path.len() > 1 && path[0] is Root && path[path.len() - 1] is Name ==> match walk(
            links,
            dirs,
            path.take(path.len() - 1),
            0,
        ).0 {
            Walk::Done(dir) => {
                &&& leads_to(links, path.take(path.len() - 1), dir)
                &&& parent_walk(links, dirs, path).0 == Walk::Done(
                    dir.push(path[path.len() - 1]),
                )
            },
            end => parent_walk(links, dirs, path).0 == end,
        },
{
    if path.len() > 1 {
        lemma_parent_shape(path);
        let parent = path.drop_last();
        known_directories_change_nothing(links, dirs, parent, 0);
        let end = walk(links, dirs, parent, 0).0;
        if end is Done {
            lemma_dir_plain(links, parent, end->Done_0);
            if path.last() is Name {
                assert(joined(end->Done_0, seq![path.last()]) =~= end->Done_0.push(path.last()));
            }
        }
    }
}

/// What a walk finds is remembered under its path, and what was known before stays known.
pub proof fn walks_are_remembered(
    links: Links,
    dirs: Map<Seq<Comp>, Seq<Comp>>,
    path: Seq<Comp>,
    depth: int,
    cs: Seq<Comp>,
)
    ensures
        walk(links, dirs, path, depth).0 matches Walk::Done(found) ==> path.len() == 1 || (walk(
            links,
            dirs,
            path,
            depth,
        ).1.contains_key(path) && walk(links, dirs, path, depth).1[path] == found),
        dirs.contains_key(cs) ==> walk(links, dirs, path, depth).1.contains_key(cs),
    decreases MAX_SYMLINK_DEPTH + 1 - depth, path.len(),
{
    if absolute(path) && depth <= MAX_SYMLINK_DEPTH && !dirs.contains_key(path) && path.len() > 1 {
        walks_are_remembered(links, dirs, path.drop_last(), depth, cs);
        let (up, mid) = walk(links, dirs, path.drop_last(), depth);
        if up is Done {
            let dir = up->Done_0;
            let here = joined(dir, seq![path.last()]);
            if links.places.contains(here) && link_target(links, dir, here) is Ok {
                walks_are_remembered(
                    links,
                    mid,
                    link_target(links, dir, here)->Ok_0,
                    depth + 1,
                    cs,
                );
            }
        }
    }
}

/// What a result tells is where the walk ends: each kind of result stands for one end, with the
/// path that it holds.
pub proof fn results_tell_where_the_walk_ends(
    r: Result<Step<String>, CanonicalizeError>,
    end: Walk,
)
    requires
        outcome(r) == end,
    ensures
        match end {
            Walk::Done(cs) => r matches Ok(Step::Done(path)) && path_components(path@) == cs,
            Walk::Unread(cs) => r matches Ok(Step::ReadLink(request)) && path_components(
                request.path@,
            ) == cs,
            Walk::TooManyLinks(cs) => r matches Err(CanonicalizeError::TooManyLinks { path })
                && path_components(path@) == cs,
            Walk::NonUtf8Target(cs) => r matches Err(CanonicalizeError::NonUtf8Target { path })
                && path_components(path@) == cs,
            Walk::Stuck => false,
        },
{
}

/// A request holds the path of a link and the same path without the root, and a cache holds the
/// paths that it has texts for.
pub proof fn requests_and_caches_hold_paths(
    request: LinkRequest,
    cache: Map<Seq<Comp>, String>,
    cs: Seq<Comp>,
)
    ensures
        request.wf() ==> path_components(request.path@).len() > 0 && path_components(
            request.path@,
        )[0] is Root && request.rel_path@ == stripped_text(request.path@, "/"@)
            && path_components(request.rel_path@) == path_components(request.path@).skip(1),
        known_dirs(cache).contains_key(cs) <==> cache.contains_key(cs),
        cache.contains_key(cs) ==> known_dirs(cache)[cs] == path_components(cache[cs]@),
{
}

} // verus!
