//! Components named by an extended attribute.

use crate::components::{ComponentId, ComponentInfo, FileInfo, FileMap, FileType, Files};
use crate::index::{
    new_set, set_get_index, set_index_of, set_insert_full, set_len, set_names,
};
use crate::path::{
    compare, directory_comes_first, path_components, path_lt, path_order_total, starts_with,
    subtree_is_contiguous, Comp, PathOrder,
};
use crate::path_map::{entry_at, one_place, sorted, PathMap};
use crate::stability::Stability;
use indexmap::IndexSet;
use std::string::FromUtf8Error;
use vstd::prelude::*;
use vstd::utf8::{decode_utf8, valid_utf8};

verus! {

/// The extended attribute that names the component of a file.
pub const XATTR_NAME: &'static str = "user.component";

const REPO_NAME: &'static str = "xattr";

/// The error of `String::from_utf8`.
#[verifier::external_type_specification]
#[verifier::external_body]
pub struct ExFromUtf8Error(FromUtf8Error);

/// `String::from_utf8`: claims that it decodes what is valid UTF-8 and fails on all else. What
/// the error holds is not stated: it is only handed on.
pub assume_specification[ String::from_utf8 ](vec: Vec<u8>) -> (r: Result<String, FromUtf8Error>)
    ensures
        r is Ok <==> valid_utf8(vec@),
        r matches Ok(s) ==> s@ == decode_utf8(vec@),
;

/// The value of the first attribute of that name.
pub open spec fn first_value(xattrs: Seq<(String, Vec<u8>)>, name: Seq<char>) -> Option<Seq<u8>>
    decreases xattrs.len(),
{
    if xattrs.len() == 0 {
        None
    } else if xattrs[0].0@ == name {
        Some(xattrs[0].1@)
    } else {
        first_value(xattrs.skip(1), name)
    }
}

/// The bytes that name the component of a file.
pub open spec fn component_bytes(info: FileInfo) -> Option<Seq<u8>> {
    first_value(info.xattrs@, XATTR_NAME@)
}

/// The bytes that name the component of a file are no text.
pub open spec fn broken_name(info: FileInfo) -> bool {
    component_bytes(info) is Some && !valid_utf8(component_bytes(info)->0)
}

/// The component that a file itself names.
pub open spec fn own_name(info: FileInfo) -> Option<Seq<char>> {
    match component_bytes(info) {
        Some(bytes) => Some(decode_utf8(bytes)),
        None => None,
    }
}

/// An extended attribute holds no UTF-8.
#[derive(Debug)]
pub struct InvalidUtf8 {
    /// What `String::from_utf8` says of the bytes.
    pub error: FromUtf8Error,
}

/// The component attribute of a path holds no UTF-8.
#[derive(Debug)]
pub struct XattrError {
    /// The path whose attribute it is.
    pub path: String,
    /// What is wrong with it.
    pub error: InvalidUtf8,
}

/// Extract the user.component xattr value from cached xattrs.
pub fn get_component_xattr(file_info: &FileInfo) -> (r: Result<Option<String>, InvalidUtf8>)
    ensures
        r is Err <==> broken_name(*file_info),
        r matches Ok(name) ==> match name {
            Some(text) => own_name(*file_info) == Some(text@),
            None => own_name(*file_info) is None,
        },
{
    let wanted: String = XATTR_NAME.to_owned();
    let xattrs = &file_info.xattrs;
    let mut i: usize = 0;
    assert(xattrs@.skip(0) =~= xattrs@);
    while i < xattrs.len()
        invariant
            i <= xattrs@.len(),
            *xattrs == file_info.xattrs,
            wanted@ == XATTR_NAME@,
            component_bytes(*file_info) == first_value(xattrs@.skip(i as int), XATTR_NAME@),
        decreases xattrs@.len() - i,
    {
        assert(xattrs@.skip(i as int)[0] == xattrs@[i as int]);
        if xattrs[i].0 == wanted {
            let bytes: Vec<u8> = xattrs[i].1.clone();
            assert(bytes@ =~= xattrs@[i as int].1@);
            return match String::from_utf8(bytes) {
                Ok(text) => Ok(Some(text)),
                Err(error) => Err(InvalidUtf8 { error }),
            };
        }
        assert(xattrs@.skip(i as int).skip(1) =~= xattrs@.skip(i + 1));
        i += 1;
    }
    Ok(None)
}

/// Whether the path at `j` is a directory above the path at `i`, or that path itself.
pub open spec fn at_or_above(files: Files, j: int, i: int) -> bool {
    path_components(files[j].0).is_prefix_of(path_components(files[i].0))
}

/// Whether the path at `j` is a directory that hands its component down.
pub open spec fn hands_down(files: Files, j: int) -> bool {
    files[j].1.file_type == FileType::Directory && own_name(files[j].1) is Some
}

/// The last of the first `n` paths that hands its component down to the path at `i`.
pub open spec fn giver(files: Files, i: int, n: int) -> Option<int>
    decreases n,
{
    if n <= 0 {
        None
    } else if hands_down(files, n - 1) && at_or_above(files, n - 1, i) {
        Some(n - 1)
    } else {
        giver(files, i, n - 1)
    }
}

/// The component of the path at `i`: the one that it names itself, or else the one of the
/// nearest directory above it that names one.
pub open spec fn effective_name(files: Files, i: int) -> Option<Seq<char>> {
    match own_name(files[i].1) {
        Some(name) => Some(name),
        None => match giver(files, i, i) {
            Some(j) => own_name(files[j].1),
            None => None,
        },
    }
}

/// The names that the first `n` paths name themselves, each where it is seen first.
pub open spec fn names_seen(files: Files, n: int) -> Seq<Seq<char>>
    decreases n,
{
    if n <= 0 {
        seq![]
    } else {
        let before = names_seen(files, n - 1);
        match own_name(files[n - 1].1) {
            Some(name) => if before.contains(name) {
                before
            } else {
                before.push(name)
            },
            None => before,
        }
    }
}

/// The ids of `assigned` are those of the components of the first `n` paths.
pub open spec fn assigns(
    files: Files,
    n: int,
    names: Seq<Seq<char>>,
    assigned: Map<Seq<Comp>, ComponentId>,
) -> bool {
    &&& forall|cs: Seq<Comp>|
        assigned.contains_key(cs) <==> exists|k: int|
            k < n && entry_at(files, k, cs) && #[trigger] effective_name(files, k) is Some
    &&& forall|k: int|
        0 <= k < n && (#[trigger] effective_name(files, k)) is Some ==> {
            let id = assigned[path_components(files[k].0)];
            id.0 < names.len() && names[id.0 as int] == effective_name(files, k)->0
        }
}

proof fn lemma_giver(files: Files, i: int, n: int)
    ensures
        giver(files, i, n) matches Some(j) ==> 0 <= j < n && hands_down(files, j) && at_or_above(
            files,
            j,
            i,
        ) && forall|k: int|
            j < k < n ==> !(#[trigger] hands_down(files, k) && at_or_above(files, k, i)),
        giver(files, i, n) is None ==> forall|k: int|
            0 <= k < n ==> !(#[trigger] hands_down(files, k) && at_or_above(files, k, i)),
    decreases n,
{
    if n > 0 {
        lemma_giver(files, i, n - 1);
    }
}

/// A path that names no component has the one of the nearest directory above it that names
/// one: every other such directory is above that one.
pub proof fn inherits_from_nearest(files: Files, i: int, k: int)
    requires
        sorted(files),
        0 <= i < files.len(),
        0 <= k < files.len(),
        own_name(files[i].1) is None,
        hands_down(files, k),
        at_or_above(files, k, i),
    ensures
        giver(files, i, i) is Some,
        ({
            let j = giver(files, i, i)->0;
            &&& 0 <= j < i
            &&& hands_down(files, j)
            &&& at_or_above(files, j, i)
            &&& at_or_above(files, k, j)
            &&& effective_name(files, i) == own_name(files[j].1)
        }),
{
    let ci = path_components(files[i].0);
    let ck = path_components(files[k].0);
    lemma_giver(files, i, i);
    if ck == ci {
        one_place(files, k, i);
    }
    directory_comes_first(ck, ci);
    path_order_total(ck, ci);
    if i < k {
        assert(path_lt(path_components(files[i].0), path_components(files[k].0)));
    }
    assert(k < i);
    let j = giver(files, i, i)->0;
    let cj = path_components(files[j].0);
    assert(k <= j);
    if k < j {
        assert(path_lt(path_components(files[k].0), path_components(files[j].0)));
        path_order_total(cj, ck);
        if ck.len() > cj.len() {
            assert(cj.is_prefix_of(ck));
            directory_comes_first(cj, ck);
        }
    }
}

/// A path that names a component has that one, whatever is above it.
pub proof fn own_name_overrides(files: Files, i: int)
    requires
        0 <= i < files.len(),
        own_name(files[i].1) is Some,
    ensures
        effective_name(files, i) == own_name(files[i].1),
{
}

/// A path that names no component and has no directory above it that names one has none.
pub proof fn nothing_to_inherit(files: Files, i: int)
    requires
        0 <= i < files.len(),
        own_name(files[i].1) is None,
        forall|k: int|
            0 <= k < i ==> !(#[trigger] hands_down(files, k) && at_or_above(files, k, i)),
    ensures
        effective_name(files, i) is None,
{
    lemma_giver(files, i, i);
}

/// Paths belong to the same component if and only if they have the same name for it.
pub proof fn one_component_for_each_name(
    files: Files,
    names: Seq<Seq<char>>,
    assigned: Map<Seq<Comp>, ComponentId>,
    i: int,
    j: int,
)
    requires
        assigns(files, files.len() as int, names, assigned),
        names.no_duplicates(),
        0 <= i < files.len(),
        0 <= j < files.len(),
        effective_name(files, i) is Some,
        effective_name(files, j) is Some,
    ensures
        assigned[path_components(files[i].0)] == assigned[path_components(files[j].0)]
            <==> effective_name(files, i) == effective_name(files, j),
{
    let a = assigned[path_components(files[i].0)];
    let b = assigned[path_components(files[j].0)];
    assert(names[a.0 as int] == effective_name(files, i)->0);
    assert(names[b.0 as int] == effective_name(files, j)->0);
}

/// Xattr-based components repo implementation.
///
/// Uses the `user.component` extended attribute to determine file ownership.
/// Directories with this xattr apply to all files underneath unless overridden.
/// Directory inheritance is pre-computed during load.
pub struct XattrRepo {
    /// Component names, indexed by ComponentId.
    components: IndexSet<String>,
    /// Mapping from path to ComponentId (pre-computed with inheritance).
    path_to_component: PathMap<ComponentId>,
    /// The on-disk mtime is canonical and is clamped to this.
    default_mtime_clamp: u64,
}

/// Whether a path is below a directory.
fn is_below(path: &str, dir: &str) -> (r: bool)
    ensures
        r == (path_components(dir@).is_prefix_of(path_components(path@)) && path_components(dir@)
            != path_components(path@)),
{
    starts_with(path, dir) && compare(path, dir) != PathOrder::Same
}

/// The stack holds directories among the first `n` paths that hand their component down, in
/// their order, each with the id of its name.
spec fn stack_holds(
    files: Files,
    n: int,
    names: Seq<Seq<char>>,
    stack: Seq<(usize, ComponentId)>,
) -> bool {
    &&& forall|a: int|
        0 <= a < stack.len() ==> {
            let e = #[trigger] stack[a];
            &&& e.0 < n
            &&& hands_down(files, e.0 as int)
            &&& e.1.0 < names.len()
            &&& Some(names[e.1.0 as int]) == own_name(files[e.0 as int].1)
        }
    &&& forall|a: int, b: int|
        #![trigger stack[a], stack[b]]
        0 <= a < b < stack.len() ==> stack[a].0 < stack[b].0
}

/// All directories on the stack are at or above the path at `i`.
spec fn stack_above(files: Files, i: int, stack: Seq<(usize, ComponentId)>) -> bool {
    forall|a: int|
        0 <= a < stack.len() ==> at_or_above(files, (#[trigger] stack[a]).0 as int, i)
}

/// Every directory among the first `n` paths that hands its component down to the path at `i`
/// is on the stack.
spec fn stack_complete(files: Files, n: int, i: int, stack: Seq<(usize, ComponentId)>) -> bool {
    forall|j: int|
        #![trigger hands_down(files, j)]
        0 <= j < n && hands_down(files, j) && at_or_above(files, j, i) ==> exists|a: int|
            0 <= a < stack.len() && (#[trigger] stack[a]).0 == j
}

proof fn lemma_still_complete(files: Files, i: int, stack: Seq<(usize, ComponentId)>)
    requires
        sorted(files),
        0 < i < files.len(),
        stack_complete(files, i, i - 1, stack),
    ensures
        stack_complete(files, i, i, stack),
{
    assert forall|j: int|
        #![trigger hands_down(files, j)]
        0 <= j < i && hands_down(files, j) && at_or_above(files, j, i) implies exists|a: int|
        0 <= a < stack.len() && (#[trigger] stack[a]).0 == j by {
        if j < i - 1 {
            assert(path_lt(path_components(files[j].0), path_components(files[i - 1].0)));
            assert(path_lt(path_components(files[i - 1].0), path_components(files[i].0)));
            subtree_is_contiguous(
                path_components(files[j].0),
                path_components(files[i - 1].0),
                path_components(files[i].0),
            );
        }
        assert(at_or_above(files, j, i - 1));
    }
}

proof fn lemma_popped(
    files: Files,
    i: int,
    names: Seq<Seq<char>>,
    stack: Seq<(usize, ComponentId)>,
)
    requires
        sorted(files),
        0 <= i < files.len(),
        stack.len() > 0,
        stack_holds(files, i, names, stack),
        stack_complete(files, i, i, stack),
        !(at_or_above(files, stack.last().0 as int, i) && path_components(
            files[stack.last().0 as int].0,
        ) != path_components(files[i].0)),
    ensures
        stack_holds(files, i, names, stack.drop_last()),
        stack_complete(files, i, i, stack.drop_last()),
        i > 0 && stack_above(files, i - 1, stack) ==> stack_above(files, i - 1, stack.drop_last()),
{
    let less = stack.drop_last();
    let top = stack[stack.len() - 1].0 as int;
    if path_components(files[top].0) == path_components(files[i].0) {
        one_place(files, top, i);
    }
    assert(forall|a: int| 0 <= a < less.len() ==> less[a] == stack[a]);
    assert forall|j: int|
        #![trigger hands_down(files, j)]
        0 <= j < i && hands_down(files, j) && at_or_above(files, j, i) implies exists|a: int|
        0 <= a < less.len() && (#[trigger] less[a]).0 == j by {
        let a = choose|a: int| 0 <= a < stack.len() && (#[trigger] stack[a]).0 == j;
        assert(less[a] == stack[a]);
    }
}

proof fn lemma_all_above(
    files: Files,
    i: int,
    names: Seq<Seq<char>>,
    stack: Seq<(usize, ComponentId)>,
)
    requires
        sorted(files),
        0 < i < files.len(),
        stack.len() > 0,
        stack_holds(files, i, names, stack),
        stack_above(files, i - 1, stack),
        at_or_above(files, stack.last().0 as int, i),
    ensures
        stack_above(files, i, stack),
{
    let top = stack[stack.len() - 1].0 as int;
    let ctop = path_components(files[top].0);
    assert forall|a: int| 0 <= a < stack.len() implies at_or_above(
        files,
        (#[trigger] stack[a]).0 as int,
        i,
    ) by {
        let j = stack[a].0 as int;
        let cj = path_components(files[j].0);
        if a < stack.len() - 1 {
            assert(j < top);
            assert(path_lt(path_components(files[j].0), path_components(files[top].0)));
            path_order_total(cj, ctop);
            assert(at_or_above(files, j, i - 1));
            assert(at_or_above(files, stack[stack.len() - 1].0 as int, i - 1));
            if cj.len() > ctop.len() {
                assert(ctop.is_prefix_of(cj));
                directory_comes_first(ctop, cj);
            }
            assert(cj.is_prefix_of(ctop));
        }
    }
}

proof fn lemma_stack_next(
    files: Files,
    i: int,
    names_before: Seq<Seq<char>>,
    names: Seq<Seq<char>>,
    before: Seq<(usize, ComponentId)>,
    after: Seq<(usize, ComponentId)>,
    own_id: Option<ComponentId>,
)
    requires
        0 <= i < files.len(),
        i <= usize::MAX,
        stack_holds(files, i, names_before, before),
        stack_above(files, i, before),
        stack_complete(files, i, i, before),
        names_before.len() <= names.len(),
        forall|k: int| 0 <= k < names_before.len() ==> names[k] == names_before[k],
        own_id is Some <==> own_name(files[i].1) is Some,
        own_id matches Some(id) ==> id.0 < names.len() && Some(names[id.0 as int]) == own_name(
            files[i].1,
        ),
        after == (if hands_down(files, i) {
            before.push((i as usize, own_id->0))
        } else {
            before
        }),
    ensures
        stack_holds(files, i + 1, names, after),
        stack_above(files, i, after),
        stack_complete(files, i + 1, i, after),
{
    assert forall|a: int| 0 <= a < after.len() implies {
        let e = #[trigger] after[a];
        &&& e.0 < i + 1
        &&& hands_down(files, e.0 as int)
        &&& e.1.0 < names.len()
        &&& Some(names[e.1.0 as int]) == own_name(files[e.0 as int].1)
        &&& at_or_above(files, e.0 as int, i)
    } by {
        if a < before.len() {
            assert(after[a] == before[a]);
        }
    }
    assert forall|j: int|
        #![trigger hands_down(files, j)]
        0 <= j < i + 1 && hands_down(files, j) && at_or_above(files, j, i) implies exists|a: int|
        0 <= a < after.len() && (#[trigger] after[a]).0 == j by {
        if j == i {
            assert(after[before.len() as int].0 == j);
        } else {
            let a = choose|a: int| 0 <= a < before.len() && (#[trigger] before[a]).0 == j;
            assert(after[a] == before[a]);
        }
    }
    assert forall|a: int, b: int|
        #![trigger after[a], after[b]]
        0 <= a < b < after.len() implies after[a].0 < after[b].0 by {
        assert(after[a] == before[a]);
        if b < before.len() {
            assert(after[b] == before[b]);
        }
    }
}

proof fn lemma_effective(
    files: Files,
    i: int,
    names_before: Seq<Seq<char>>,
    names: Seq<Seq<char>>,
    before: Seq<(usize, ComponentId)>,
    after: Seq<(usize, ComponentId)>,
    own_id: Option<ComponentId>,
    effective_id: Option<ComponentId>,
)
    requires
        0 <= i < files.len(),
        stack_holds(files, i, names_before, before),
        stack_above(files, i, before),
        stack_complete(files, i, i, before),
        names_before.len() <= names.len(),
        forall|k: int| 0 <= k < names_before.len() ==> names[k] == names_before[k],
        own_id is Some <==> own_name(files[i].1) is Some,
        own_id matches Some(id) ==> id.0 < names.len() && Some(names[id.0 as int]) == own_name(
            files[i].1,
        ),
        own_id is None ==> after == before,
        effective_id == (match own_id {
            Some(id) => Some(id),
            None => if after.len() > 0 {
                Some(after.last().1)
            } else {
                None
            },
        }),
    ensures
        effective_id is Some <==> effective_name(files, i) is Some,
        effective_id matches Some(id) ==> id.0 < names.len() && names[id.0 as int]
            == effective_name(files, i)->0,
{
    lemma_giver(files, i, i);
    if own_id is None {
        if before.len() > 0 {
            let top = before[before.len() - 1];
            assert(hands_down(files, top.0 as int));
            let j = giver(files, i, i)->0;
            let a = choose|a: int| 0 <= a < before.len() && (#[trigger] before[a]).0 == j;
            assert(before[a].0 == j);
            assert(j == top.0);
        } else {
            if giver(files, i, i) is Some {
                assert(hands_down(files, giver(files, i, i)->0));
            }
        }
    }
}

proof fn lemma_assigned_next(
    files: Files,
    i: int,
    names_before: Seq<Seq<char>>,
    names: Seq<Seq<char>>,
    before: Map<Seq<Comp>, ComponentId>,
    after: Map<Seq<Comp>, ComponentId>,
    effective_id: Option<ComponentId>,
)
    requires
        sorted(files),
        0 <= i < files.len(),
        assigns(files, i, names_before, before),
        names_before.len() <= names.len(),
        forall|k: int| 0 <= k < names_before.len() ==> names[k] == names_before[k],
        effective_id is Some <==> effective_name(files, i) is Some,
        effective_id matches Some(id) ==> id.0 < names.len() && names[id.0 as int]
            == effective_name(files, i)->0,
        after == (match effective_id {
            Some(id) => before.insert(path_components(files[i].0), id),
            None => before,
        }),
    ensures
        assigns(files, i + 1, names, after),
{
    let ci = path_components(files[i].0);
    assert forall|cs: Seq<Comp>|
        after.contains_key(cs) <==> exists|k: int|
            k < i + 1 && entry_at(files, k, cs) && #[trigger] effective_name(files, k) is Some by {
        if after.contains_key(cs) {
            if cs == ci && effective_id is Some {
                assert(entry_at(files, i, cs) && effective_name(files, i) is Some);
            } else {
                assert(before.contains_key(cs));
                let k = choose|k: int|
                    k < i && entry_at(files, k, cs) && #[trigger] effective_name(files, k) is Some;
                assert(k < i + 1 && entry_at(files, k, cs) && effective_name(files, k) is Some);
            }
        }
        if exists|k: int|
            k < i + 1 && entry_at(files, k, cs) && #[trigger] effective_name(files, k) is Some {
            let k = choose|k: int|
                k < i + 1 && entry_at(files, k, cs) && #[trigger] effective_name(files, k) is Some;
            if k < i {
                assert(before.contains_key(cs));
            }
        }
    }
    assert forall|k: int|
        0 <= k < i + 1 && (#[trigger] effective_name(files, k)) is Some implies {
        let id = after[path_components(files[k].0)];
        id.0 < names.len() && names[id.0 as int] == effective_name(files, k)->0
    } by {
        if k < i {
            if path_components(files[k].0) == ci {
                one_place(files, k, i);
            }
        }
    }
}

impl XattrRepo {
    /// The names of the components, by their ids.
    pub closed spec fn names(&self) -> Seq<Seq<char>> {
        set_names(self.components)
    }

    /// The component of each path that has one.
    pub closed spec fn assigned(&self) -> Map<Seq<Comp>, ComponentId> {
        self.path_to_component.map()
    }

    /// The modification time that files are clamped to.
    pub closed spec fn mtime_clamp(&self) -> u64 {
        self.default_mtime_clamp
    }

    /// No name occurs twice, and every id that is given out has one.
    pub closed spec fn wf(&self) -> bool {
        &&& self.path_to_component.wf()
        &&& self.names().no_duplicates()
        &&& forall|cs: Seq<Comp>|
            #[trigger] self.assigned().contains_key(cs) ==> self.assigned()[cs].0
                < self.names().len()
    }

    /// Load xattr repo from the `user.component` xattrs of the files.
    /// Pre-computes directory inheritance for all paths in `files`.
    ///
    /// Fails on the first path whose attribute is no UTF-8. Gives `None` where no path has the
    /// attribute.
    pub fn load(files: &FileMap, default_mtime_clamp: u64) -> (r: Result<
        Option<Self>,
        XattrError,
    >)
        requires
            files.wf(),
        ensures
            r is Err <==> exists|i: int|
                0 <= i < files@.len() && broken_name((#[trigger] files@[i]).1),
            r matches Err(e) ==> exists|i: int|
                #![trigger files@[i]]
                0 <= i < files@.len() && broken_name(files@[i].1) && e.path@ == files@[i].0
                    && forall|k: int| 0 <= k < i ==> !broken_name((#[trigger] files@[k]).1),
            r matches Ok(repo) ==> (repo is None <==> forall|i: int|
                0 <= i < files@.len() ==> own_name((#[trigger] files@[i]).1) is None),
            r matches Ok(Some(repo)) ==> {
                &&& repo.wf()
                &&& repo.names() == names_seen(files@, files@.len() as int)
                &&& repo.names().no_duplicates()
                &&& assigns(files@, files@.len() as int, repo.names(), repo.assigned())
                &&& repo.mtime_clamp() == default_mtime_clamp
            },
    {
        let ghost all = files@;
        let mut components = new_set();
        let mut path_to_component: PathMap<ComponentId> = PathMap::new();
        // Directories that are open and hand their component down, by their place
        let mut dir_stack: Vec<(usize, ComponentId)> = Vec::new();
        let mut i: usize = 0;
        while i < files.len()
            invariant
                all == files@,
                files.wf(),
                i <= all.len(),
                path_to_component.wf(),
                set_names(components) == names_seen(all, i as int),
                set_names(components).no_duplicates(),
                set_names(components).len() == 0 <==> forall|k: int|
                    0 <= k < i ==> own_name((#[trigger] all[k]).1) is None,
                forall|k: int| 0 <= k < i ==> !broken_name((#[trigger] all[k]).1),
                assigns(all, i as int, set_names(components), path_to_component.map()),
                stack_holds(all, i as int, set_names(components), dir_stack@),
                i > 0 ==> stack_above(all, i - 1, dir_stack@),
                i > 0 ==> stack_complete(all, i as int, i - 1, dir_stack@),
                i == 0 ==> dir_stack@.len() == 0,
            decreases all.len() - i,
        {
            let path = files.path_at(i);
            let file_info = files.value_at(i);

            // Pop directories that are not ancestors of current path
            proof {
                if i > 0 {
                    lemma_still_complete(all, i as int, dir_stack@);
                }
            }
            while dir_stack.len() > 0 && !is_below(
                path,
                files.path_at(dir_stack[dir_stack.len() - 1].0),
            )
                invariant
                    all == files@,
                    files.wf(),
                    i < all.len(),
                    path@ == all[i as int].0,
                    stack_holds(all, i as int, set_names(components), dir_stack@),
                    i > 0 ==> stack_above(all, i - 1, dir_stack@),
                    stack_complete(all, i as int, i as int, dir_stack@),
                    i == 0 ==> dir_stack@.len() == 0,
                decreases dir_stack@.len(),
            {
                let ghost before = dir_stack@;
                dir_stack.pop();
                proof {
                    lemma_popped(all, i as int, set_names(components), before);
                }
            }
            proof {
                if dir_stack@.len() > 0 {
                    lemma_all_above(all, i as int, set_names(components), dir_stack@);
                }
            }

            let own = match get_component_xattr(file_info) {
                Ok(own) => own,
                Err(error) => {
                    return Err(XattrError { path: path.to_owned(), error });
                },
            };

            // If this path has an xattr, get or create its ComponentId
            let ghost names_before = set_names(components);
            let own_component_id: Option<ComponentId> = match own {
                Some(name) => {
                    let idx: usize = match set_index_of(&components, name.as_str()) {
                        Some(idx) => idx,
                        None => set_insert_full(&mut components, name).0,
                    };
                    Some(ComponentId(idx))
                },
                None => None,
            };
            let ghost names = set_names(components);
            proof {
                assert(names == names_seen(all, i + 1));
                assert(forall|k: int| 0 <= k < names_before.len() ==> names[k] == names_before[k]);
            }

            // If this directory has an xattr, push to stack for children to inherit
            let ghost stack_before = dir_stack@;
            if file_info.file_type == FileType::Directory {
                if let Some(id) = own_component_id {
                    dir_stack.push((i, id));
                }
            }
            proof {
                lemma_stack_next(
                    all,
                    i as int,
                    names_before,
                    names,
                    stack_before,
                    dir_stack@,
                    own_component_id,
                );
            }

            // Determine effective component: own xattr or inherited from parent dir
            let effective_id: Option<ComponentId> = match own_component_id {
                Some(id) => Some(id),
                None => if dir_stack.len() > 0 {
                    Some(dir_stack[dir_stack.len() - 1].1)
                } else {
                    None
                },
            };
            proof {
                lemma_effective(
                    all,
                    i as int,
                    names_before,
                    names,
                    stack_before,
                    dir_stack@,
                    own_component_id,
                    effective_id,
                );
            }

            let ghost map_before = path_to_component.map();
            if let Some(id) = effective_id {
                path_to_component.insert(path.to_owned(), id);
            }
            proof {
                lemma_assigned_next(
                    all,
                    i as int,
                    names_before,
                    names,
                    map_before,
                    path_to_component.map(),
                    effective_id,
                );
            }
            i += 1;
        }

        if set_len(&components) == 0 {
            return Ok(None);
        }
        let repo = XattrRepo { components, path_to_component, default_mtime_clamp };
        Ok(Some(repo))
    }

    /// The name of the repository.
    pub fn name(&self) -> (r: &'static str)
        ensures
            r@ == "xattr"@,
    {
        REPO_NAME
    }

    /// Where the repository comes among others, the lowest first.
    pub fn default_priority(&self) -> (r: usize)
        ensures
            r == 0,
    {
        0
    }

    /// The component that the path was assigned, whatever is known of the file by now.
    pub fn strong_claims_for_path(&self, path: &str, _file_info: &FileInfo) -> (r: Vec<
        ComponentId,
    >)
        requires
            self.wf(),
        ensures
            r@ == (if self.assigned().contains_key(path_components(path@)) {
                seq![self.assigned()[path_components(path@)]]
            } else {
                seq![]
            }),
            forall|k: int| 0 <= k < r@.len() ==> (#[trigger] r@[k]).0 < self.names().len(),
    {
        let mut claims: Vec<ComponentId> = Vec::new();
        if let Some(id) = self.path_to_component.get(path) {
            assert(self.assigned().contains_key(path_components(path@)));
            assert(id.0 < self.names().len());
            claims.push(*id);
            assert(claims@ =~= seq![*id]);
        }
        claims
    }

    /// What is known of a component.
    pub fn component_info(&self, id: ComponentId) -> (r: ComponentInfo<'_>)
        requires
            id.0 < self.names().len(),
        ensures
            r.name@ == self.names()[id.0 as int],
            r.mtime_clamp == self.mtime_clamp(),
            r.stability == Stability::Unstable,
    {
        ComponentInfo {
            name: set_get_index(&self.components, id.0).unwrap().as_str(),
            mtime_clamp: self.default_mtime_clamp,
            stability: Stability::Unstable,
        }
    }
}

/// Whether the attribute at `a` is the first called `user.component`.
pub open spec fn first_attribute(info: FileInfo, a: int) -> bool {
    &&& 0 <= a < info.xattrs@.len()
    &&& info.xattrs@[a].0@ == "user.component"@
    &&& forall|b: int| 0 <= b < a ==> (#[trigger] info.xattrs@[b]).0@ != "user.component"@
}

/// Whether there is no attribute called `user.component`.
pub open spec fn no_attribute(info: FileInfo) -> bool {
    forall|b: int|
        0 <= b < info.xattrs@.len() ==> (#[trigger] info.xattrs@[b]).0@ != "user.component"@
}

proof fn lemma_first_value(xattrs: Seq<(String, Vec<u8>)>, name: Seq<char>)
    ensures
        first_value(xattrs, name) is None <==> forall|b: int|
            0 <= b < xattrs.len() ==> (#[trigger] xattrs[b]).0@ != name,
        forall|a: int|
            #![trigger xattrs[a]]
            0 <= a < xattrs.len() && xattrs[a].0@ == name && (forall|b: int|
                0 <= b < a ==> (#[trigger] xattrs[b]).0@ != name) ==> first_value(xattrs, name)
                == Some(xattrs[a].1@),
    decreases xattrs.len(),
{
    if xattrs.len() > 0 && xattrs[0].0@ != name {
        let rest = xattrs.skip(1);
        lemma_first_value(rest, name);
        if first_value(xattrs, name) is None {
            assert forall|b: int| 0 <= b < xattrs.len() implies (#[trigger] xattrs[b]).0@ != name by {
                if b > 0 {
                    assert(rest[b - 1] == xattrs[b]);
                }
            }
        }
        if forall|b: int| 0 <= b < xattrs.len() ==> (#[trigger] xattrs[b]).0@ != name {
            assert forall|b: int| 0 <= b < rest.len() implies (#[trigger] rest[b]).0@ != name by {
                assert(rest[b] == xattrs[b + 1]);
            }
        }
        assert forall|a: int|
            #![trigger xattrs[a]]
            0 <= a < xattrs.len() && xattrs[a].0@ == name && (forall|b: int|
                0 <= b < a ==> (#[trigger] xattrs[b]).0@ != name) implies first_value(xattrs, name)
            == Some(xattrs[a].1@) by {
            assert(rest[a - 1] == xattrs[a]);
            assert forall|b: int| 0 <= b < a - 1 implies (#[trigger] rest[b]).0@ != name by {
                assert(rest[b] == xattrs[b + 1]);
            }
        }
    }
}

/// The first attribute called `user.component` names the component of a file: its bytes, taken
/// as UTF-8. It is an error where they are none. A file without it names no component.
pub proof fn first_attribute_names_the_component(info: FileInfo, a: int)
    ensures
        first_attribute(info, a) ==> own_name(info) == Some(decode_utf8(info.xattrs@[a].1@)),
        first_attribute(info, a) ==> (broken_name(info) <==> !valid_utf8(info.xattrs@[a].1@)),
        no_attribute(info) ==> own_name(info) is None && !broken_name(info),
        own_name(info) is Some ==> exists|b: int| #[trigger] first_attribute(info, b),
{
    lemma_first_value(info.xattrs@, "user.component"@);
    if own_name(info) is Some {
        lemma_some_first(info);
    }
}

proof fn lemma_some_first(info: FileInfo)
    requires
        !no_attribute(info),
    ensures
        exists|b: int| #[trigger] first_attribute(info, b),
{
    let b = choose|b: int|
        0 <= b < info.xattrs@.len() && (#[trigger] info.xattrs@[b]).0@ == "user.component"@;
    lemma_first_up_to(info, b);
}

proof fn lemma_first_up_to(info: FileInfo, b: int)
    requires
        0 <= b < info.xattrs@.len(),
        info.xattrs@[b].0@ == "user.component"@,
    ensures
        exists|a: int| #[trigger] first_attribute(info, a),
    decreases b,
{
    if exists|c: int| 0 <= c < b && (#[trigger] info.xattrs@[c]).0@ == "user.component"@ {
        let c = choose|c: int|
            0 <= c < b && (#[trigger] info.xattrs@[c]).0@ == "user.component"@;
        lemma_first_up_to(info, c);
    } else {
        assert(first_attribute(info, b));
    }
}

/// Whether the path at `k` is a directory with the attribute, and the path at `i` is below it
/// or is that path.
pub open spec fn attributed_directory_above(files: Files, k: int, i: int) -> bool {
    &&& files[k].1.file_type == FileType::Directory
    &&& !no_attribute(files[k].1)
    &&& path_components(files[k].0).is_prefix_of(path_components(files[i].0))
}

proof fn lemma_hands_down(files: Files, k: int, i: int)
    ensures
        attributed_directory_above(files, k, i) <==> hands_down(files, k) && at_or_above(
            files,
            k,
            i,
        ),
{
    first_attribute_names_the_component(files[k].1, 0);
    if !no_attribute(files[k].1) {
        lemma_some_first(files[k].1);
        let a = choose|a: int| #[trigger] first_attribute(files[k].1, a);
        first_attribute_names_the_component(files[k].1, a);
    }
}

/// A path with the attribute belongs to the component that it names, whatever stands above it.
pub proof fn attribute_of_the_path_itself_counts(
    files: Files,
    names: Seq<Seq<char>>,
    assigned: Map<Seq<Comp>, ComponentId>,
    i: int,
    a: int,
)
    requires
        assigns(files, files.len() as int, names, assigned),
        0 <= i < files.len(),
        first_attribute(files[i].1, a),
    ensures
        assigned.contains_key(path_components(files[i].0)),
        assigned[path_components(files[i].0)].0 < names.len(),
        names[assigned[path_components(files[i].0)].0 as int] == decode_utf8(
            files[i].1.xattrs@[a].1@,
        ),
{
    first_attribute_names_the_component(files[i].1, a);
    assert(effective_name(files, i) is Some);
    assert(entry_at(files, i, path_components(files[i].0)));
}

/// A path without the attribute belongs to the component of the longest path above it that is
/// a directory with the attribute, at whatever depth that stands.
pub proof fn directories_hand_down_to_all_below(
    files: Files,
    names: Seq<Seq<char>>,
    assigned: Map<Seq<Comp>, ComponentId>,
    i: int,
    k: int,
    a: int,
)
    requires
        sorted(files),
        assigns(files, files.len() as int, names, assigned),
        0 <= i < files.len(),
        no_attribute(files[i].1),
        0 <= k < files.len(),
        files[k].1.file_type == FileType::Directory,
        first_attribute(files[k].1, a),
        path_components(files[k].0).is_prefix_of(path_components(files[i].0)),
        forall|m: int|
            0 <= m < files.len() && #[trigger] attributed_directory_above(files, m, i)
                ==> path_components(files[m].0).len() <= path_components(files[k].0).len(),
    ensures
        assigned.contains_key(path_components(files[i].0)),
        assigned[path_components(files[i].0)].0 < names.len(),
        names[assigned[path_components(files[i].0)].0 as int] == decode_utf8(
            files[k].1.xattrs@[a].1@,
        ),
{
    first_attribute_names_the_component(files[i].1, 0);
    first_attribute_names_the_component(files[k].1, a);
    lemma_hands_down(files, k, i);
    assert(attributed_directory_above(files, k, i));
    inherits_from_nearest(files, i, k);
    let j = giver(files, i, i)->0;
    lemma_hands_down(files, j, i);
    assert(attributed_directory_above(files, j, i));
    assert(path_components(files[j].0) =~= path_components(files[k].0));
    one_place(files, j, k);
    assert(effective_name(files, i) is Some);
    assert(entry_at(files, i, path_components(files[i].0)));
}

/// A path without the attribute and without a directory above it that has it belongs to no
/// component, and neither does a path that is not there.
pub proof fn nothing_else_is_claimed(
    files: Files,
    names: Seq<Seq<char>>,
    assigned: Map<Seq<Comp>, ComponentId>,
    cs: Seq<Comp>,
)
    requires
        sorted(files),
        assigns(files, files.len() as int, names, assigned),
        assigned.contains_key(cs),
    ensures
        exists|i: int|
            0 <= i < files.len() && path_components((#[trigger] files[i]).0) == cs && (
            !no_attribute(files[i].1) || exists|k: int|
                0 <= k < files.len() && #[trigger] attributed_directory_above(files, k, i)),
{
    let i = choose|i: int|
        i < files.len() && entry_at(files, i, cs) && #[trigger] effective_name(files, i) is Some;
    first_attribute_names_the_component(files[i].1, 0);
    lemma_giver(files, i, i);
    if no_attribute(files[i].1) {
        let k = giver(files, i, i)->0;
        lemma_hands_down(files, k, i);
        assert(attributed_directory_above(files, k, i));
    }
    assert(path_components(files[i].0) == cs);
}

proof fn lemma_seen(files: Files, n: int, name: Seq<char>)
    requires
        0 <= n <= files.len(),
    ensures
        names_seen(files, n).contains(name) <==> exists|i: int|
            0 <= i < n && own_name((#[trigger] files[i]).1) == Some(name),
    decreases n,
{
    if n > 0 {
        lemma_seen(files, n - 1, name);
        let before = names_seen(files, n - 1);
        let after = names_seen(files, n);
        if after.contains(name) {
            let k = choose|k: int| 0 <= k < after.len() && after[k] == name;
            if k < before.len() {
                assert(before[k] == name);
                assert(before.contains(name));
                let i = choose|i: int|
                    0 <= i < n - 1 && own_name((#[trigger] files[i]).1) == Some(name);
                assert(own_name(files[i].1) == Some(name));
            } else {
                assert(own_name(files[n - 1].1) == Some(name));
            }
        }
        if exists|i: int| 0 <= i < n && own_name((#[trigger] files[i]).1) == Some(name) {
            let i = choose|i: int|
                0 <= i < n && own_name((#[trigger] files[i]).1) == Some(name);
            if before.contains(name) {
                let k = choose|k: int| 0 <= k < before.len() && before[k] == name;
                assert(after[k] == name);
            } else if i < n - 1 {
                assert(own_name(files[i].1) == Some(name));
            } else {
                assert(after[before.len() as int] == name);
            }
        }
    }
}

proof fn lemma_seen_first(files: Files, n: int, m: int)
    requires
        0 <= n <= files.len(),
        0 <= m < names_seen(files, n).len(),
    ensures
        exists|k: int|
            0 <= k < n && own_name((#[trigger] files[k]).1) == Some(names_seen(files, n)[m])
                && names_seen(files, k) == names_seen(files, n).take(m),
    decreases n,
{
    if n > 0 {
        let before = names_seen(files, n - 1);
        let after = names_seen(files, n);
        if m < before.len() {
            lemma_seen_first(files, n - 1, m);
            let k = choose|k: int|
                0 <= k < n - 1 && own_name((#[trigger] files[k]).1) == Some(before[m])
                    && names_seen(files, k) == before.take(m);
            assert(after.take(m) =~= before.take(m));
            assert(own_name(files[k].1) == Some(after[m]));
        } else {
            assert(after.take(m) =~= before);
            assert(own_name(files[n - 1].1) == Some(after[m]));
        }
    }
}

/// The components are the names that the attributes of the paths give, numbered in the order in
/// which the paths give them: behind each name stands a path that gives it, and the names that
/// the paths before it give are those with a lower number.
pub proof fn names_are_numbered_as_they_are_seen(
    files: Files,
    id: int,
    a: int,
    i: int,
)
    requires
        0 <= id < names_seen(files, files.len() as int).len(),
    ensures
        exists|k: int, b: int|
            0 <= k < files.len() && #[trigger] first_attribute(files[k].1, b) && decode_utf8(
                files[k].1.xattrs@[b].1@,
            ) == names_seen(files, files.len() as int)[id] && forall|e: int, c: int|
                0 <= e < k && #[trigger] first_attribute(files[e].1, c) ==> names_seen(
                    files,
                    files.len() as int,
                ).take(id).contains(decode_utf8(files[e].1.xattrs@[c].1@)),
        0 <= i < files.len() && first_attribute(files[i].1, a) ==> names_seen(
            files,
            files.len() as int,
        ).contains(decode_utf8(files[i].1.xattrs@[a].1@)),
{
    let n = files.len() as int;
    let names = names_seen(files, n);
    lemma_seen_first(files, n, id);
    let k = choose|k: int|
        0 <= k < n && own_name((#[trigger] files[k]).1) == Some(names[id]) && names_seen(files, k)
            == names.take(id);
    first_attribute_names_the_component(files[k].1, 0);
    let b = choose|b: int| #[trigger] first_attribute(files[k].1, b);
    first_attribute_names_the_component(files[k].1, b);
    assert forall|e: int, c: int|
        0 <= e < k && #[trigger] first_attribute(files[e].1, c) implies names.take(id).contains(
        decode_utf8(files[e].1.xattrs@[c].1@),
    ) by {
        first_attribute_names_the_component(files[e].1, c);
        assert(own_name(files[e].1) == Some(decode_utf8(files[e].1.xattrs@[c].1@)));
        lemma_seen(files, k, decode_utf8(files[e].1.xattrs@[c].1@));
    }
    if 0 <= i < n && first_attribute(files[i].1, a) {
        first_attribute_names_the_component(files[i].1, a);
        assert(own_name(files[i].1) == Some(decode_utf8(files[i].1.xattrs@[a].1@)));
        lemma_seen(files, n, decode_utf8(files[i].1.xattrs@[a].1@));
    }
}

} // verus!
