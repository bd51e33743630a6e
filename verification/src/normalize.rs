//! Paths without `.` and `..`.

use crate::path::{
    absolute, components, components_well_shaped, has_parent, inner_component, join,
    joined, name_components, parent, path_components, root_components, valid_name, well_shaped,
    Comp, PathComponent,
};
use vstd::prelude::*;

verus! {

/// A path has a Windows prefix. This does not occur on Unix.
#[derive(Debug)]
pub struct InvalidPrefix {
    /// The prefix.
    pub prefix: String,
}

/// What one more component makes of a path without `.` and `..`.
pub open spec fn normal_step(path: Seq<Comp>, c: Comp) -> Seq<Comp> {
    match c {
        Comp::Root => seq![Comp::Root],
        Comp::Parent => if has_parent(path) {
            path.drop_last()
        } else {
            path
        },
        Comp::Name(_) => path.push(c),
        _ => path,
    }
}

/// The path without `.` and `..`: each `..` takes off what stands before it.
pub open spec fn normalized(cs: Seq<Comp>) -> Seq<Comp>
    decreases cs.len(),
{
    if cs.len() == 0 {
        seq![]
    } else {
        normal_step(normalized(cs.drop_last()), cs.last())
    }
}

/// Whether there is nothing but names, below the root where `rooted`.
pub open spec fn plain(cs: Seq<Comp>, rooted: bool) -> bool {
    &&& rooted ==> absolute(cs)
    &&& forall|i: int|
        0 <= i < cs.len() && !(rooted && i == 0) ==> (#[trigger] cs[i]) is Name && valid_name(
            cs[i]->Name_0,
        )
}

/// What is left of a path is nothing but names, below the root where the path was absolute.
pub proof fn normalized_is_plain(cs: Seq<Comp>)
    requires
        well_shaped(cs),
    ensures
        plain(normalized(cs), absolute(cs)),
    decreases cs.len(),
{
    if cs.len() > 0 {
        let front = cs.drop_last();
        assert(well_shaped(front)) by {
            assert(forall|i: int| 0 <= i < front.len() ==> front[i] == cs[i]);
        }
        normalized_is_plain(front);
        let before = normalized(front);
        let after = normalized(cs);
        let rooted = absolute(cs);
        assert(cs.last() == cs[cs.len() - 1]);
        if front.len() > 0 {
            assert(front[0] == cs[0]);
            assert(inner_component(cs[cs.len() - 1]));
            assert(absolute(front) == rooted);
            if has_parent(before) && cs.last() is Parent {
                assert(forall|i: int| 0 <= i < after.len() ==> after[i] == before[i]);
                if rooted {
                    assert(before.len() > 1);
                }
            }
        } else {
            assert(before =~= seq![]);
        }
    }
}

/// A path of nothing but names stays as it is.
pub proof fn plain_is_normalized(cs: Seq<Comp>, rooted: bool)
    requires
        plain(cs, rooted),
    ensures
        normalized(cs) == cs,
    decreases cs.len(),
{
    if cs.len() > 0 {
        let front = cs.drop_last();
        if cs.len() == 1 && rooted {
            assert(cs =~= seq![Comp::Root]);
        } else {
            assert(forall|i: int| 0 <= i < front.len() ==> front[i] == cs[i]);
            assert(plain(front, rooted));
            plain_is_normalized(front, rooted);
            assert(cs[cs.len() - 1] is Name);
            assert(cs =~= front.push(cs.last()));
        }
    }
}

/// A path without `.` and `..` has none to resolve.
pub proof fn normalized_once_and_for_all(cs: Seq<Comp>)
    requires
        well_shaped(cs),
    ensures
        normalized(normalized(cs)) == normalized(cs),
{
    normalized_is_plain(cs);
    plain_is_normalized(normalized(cs), absolute(cs));
}

/// Normalize a path by resolving `.` and `..` components.
pub fn normalize_path(path: &str) -> (r: Result<String, InvalidPrefix>)
    ensures
        r is Ok,
        path_components(r->Ok_0@) == normalized(path_components(path@)),
{
    let ghost cs = path_components(path@);
    let list = components(path);
    let ghost views = list@.map_values(|c: PathComponent| c@);
    let mut result: String = String::new();
    let mut i: usize = 0;
    proof {
        components_well_shaped(path@);
        assert(result@ =~= seq![]);
        assert(cs.take(0) =~= seq![]);
        assert(result@.take(0) =~= seq![]);
    }
    while i < list.len()
        invariant
            i <= list@.len(),
            views == list@.map_values(|c: PathComponent| c@),
            views == cs,
            well_shaped(cs),
            path_components(result@) == normalized(cs.take(i as int)),
        decreases list@.len() - i,
    {
        proof {
            assert(views[i as int] == list@[i as int]@);
            assert(cs.take(i + 1).drop_last() =~= cs.take(i as int));
            assert(cs.take(i + 1).last() == cs[i as int]);
            if i > 0 {
                assert(inner_component(cs[i as int]));
            }
        }
        match &list[i] {
            PathComponent::RootDir => {
                proof {
                    root_components();
                }
                result = join(result.as_str(), "/");
            },
            PathComponent::ParentDir => {
                if let Some(up) = parent(result.as_str()) {
                    result = up.to_owned();
                }
            },
            PathComponent::Normal(name) => {
                let ghost before = path_components(result@);
                proof {
                    name_components(name@);
                }
                result = join(result.as_str(), name.as_str());
                assert(path_components(result@) =~= before.push(Comp::Name(name@)));
            },
            PathComponent::CurDir => {},
            PathComponent::Prefix(prefix) => {
                return Err(InvalidPrefix { prefix: prefix.clone() });
            },
        }
        i += 1;
    }
    assert(cs.take(i as int) =~= cs);
    Ok(result)
}

/// Where one comes to from `dir` by going on along `rest`: down by a name, and up by a `..`, but
/// not above where there is nothing to take off.
pub open spec fn go_along(dir: Seq<Comp>, rest: Seq<Comp>) -> Seq<Comp>
    decreases rest.len(),
{
    if rest.len() == 0 {
        dir
    } else {
        let next = match rest[0] {
            Comp::Name(_) => dir.push(rest[0]),
            Comp::Parent => if dir.len() > 0 && !(dir[dir.len() - 1] is Root) {
                dir.take(dir.len() - 1)
            } else {
                dir
            },
            _ => dir,
        };
        go_along(next, rest.skip(1))
    }
}

proof fn lemma_go_along_step(dir: Seq<Comp>, rest: Seq<Comp>)
    requires
        rest.len() > 0,
        !(rest.last() is Root),
    ensures
        go_along(dir, rest) == normal_step(go_along(dir, rest.drop_last()), rest.last()),
    decreases rest.len(),
{
    let next = match rest[0] {
        Comp::Name(_) => dir.push(rest[0]),
        Comp::Parent => if dir.len() > 0 && !(dir[dir.len() - 1] is Root) {
            dir.take(dir.len() - 1)
        } else {
            dir
        },
        _ => dir,
    };
    if rest.len() == 1 {
        assert(rest.drop_last() =~= seq![]);
        assert(rest.skip(1) =~= seq![]);
        assert(go_along(next, rest.skip(1)) == next);
        assert(go_along(dir, rest.drop_last()) == dir);
        if dir.len() > 0 {
            assert(dir.take(dir.len() - 1) =~= dir.drop_last());
        }
    } else {
        lemma_go_along_step(next, rest.skip(1));
        assert(rest.skip(1).drop_last() =~= rest.drop_last().skip(1));
        assert(rest.skip(1).last() == rest.last());
        assert(rest.drop_last()[0] == rest[0]);
    }
}

proof fn lemma_normalized_sum(a: Seq<Comp>, b: Seq<Comp>)
    requires
        forall|i: int| 0 <= i < b.len() ==> !((#[trigger] b[i]) is Root),
    ensures
        normalized(a + b) == go_along(normalized(a), b),
    decreases b.len(),
{
    if b.len() == 0 {
        assert(a + b =~= a);
    } else {
        let front = b.drop_last();
        assert forall|i: int| 0 <= i < front.len() implies !((#[trigger] front[i]) is Root) by {
            assert(front[i] == b[i]);
        }
        lemma_normalized_sum(a, front);
        assert((a + b).drop_last() =~= a + front);
        assert((a + b).last() == b.last());
        assert(b.last() == b[b.len() - 1]);
        lemma_go_along_step(normalized(a), b);
    }
}

/// A path without `.` and `..` is where one comes to from the root, or from where one is, by
/// going along it.
pub proof fn normalized_goes_along(cs: Seq<Comp>)
    requires
        well_shaped(cs),
    ensures
        cs.len() > 0 && cs[0] is Root ==> normalized(cs) == go_along(
            seq![Comp::Root],
            cs.skip(1),
        ),
        !(cs.len() > 0 && cs[0] is Root) ==> normalized(cs) == go_along(seq![], cs),
{
    if cs.len() > 0 && cs[0] is Root {
        let rest = cs.skip(1);
        assert forall|i: int| 0 <= i < rest.len() implies !((#[trigger] rest[i]) is Root) by {
            assert(rest[i] == cs[i + 1]);
            assert(inner_component(cs[i + 1]));
        }
        lemma_normalized_sum(seq![Comp::Root], rest);
        assert(seq![Comp::Root] + rest =~= cs);
        plain_is_normalized(seq![Comp::Root], true);
    } else {
        assert forall|i: int| 0 <= i < cs.len() implies !((#[trigger] cs[i]) is Root) by {
            if i > 0 {
                assert(inner_component(cs[i]));
            }
        }
        lemma_normalized_sum(seq![], cs);
        assert(seq![] + cs =~= cs);
        plain_is_normalized(seq![], false);
    }
}

/// Going along a name and a `..`, one comes back.
pub proof fn name_and_parent_cancel(dir: Seq<Comp>, name: Seq<char>, rest: Seq<Comp>)
    ensures
        go_along(dir, seq![Comp::Name(name), Comp::Parent] + rest) == go_along(dir, rest),
{
    let all = seq![Comp::Name(name), Comp::Parent] + rest;
    let down = dir.push(Comp::Name(name));
    assert(all.skip(1)[0] == Comp::Parent);
    assert(down.take(down.len() - 1) =~= dir);
    assert(all.skip(1).skip(1) =~= rest);
    assert(go_along(dir, all) == go_along(down, all.skip(1)));
    assert(go_along(down, all.skip(1)) == go_along(dir, rest));
}

/// Going along a path of names, each of them is appended.
pub proof fn names_are_appended(dir: Seq<Comp>, rest: Seq<Comp>)
    requires
        forall|i: int| 0 <= i < rest.len() ==> (#[trigger] rest[i]) is Name,
    ensures
        go_along(dir, rest) == dir + rest,
    decreases rest.len(),
{
    if rest.len() == 0 {
        assert(dir + rest =~= dir);
    } else {
        let tail = rest.skip(1);
        assert(rest[0] is Name);
        assert forall|i: int| 0 <= i < tail.len() implies (#[trigger] tail[i]) is Name by {
            assert(tail[i] == rest[i + 1]);
        }
        names_are_appended(dir.push(rest[0]), tail);
        assert(dir.push(rest[0]) + tail =~= dir + rest);
    }
}

/// A relative path behind a path without `.` and `..` is gone along from there.
pub proof fn joined_goes_along(dir: Seq<Comp>, rest: Seq<Comp>)
    requires
        plain(dir, true),
        well_shaped(rest),
        !(rest.len() > 0 && rest[0] is Root),
    ensures
        normalized(joined(dir, rest)) == go_along(dir, rest),
{
    plain_is_normalized(dir, true);
    if rest.len() > 0 && rest[0] is Cur {
        let tail = rest.skip(1);
        assert forall|i: int| 0 <= i < tail.len() implies !((#[trigger] tail[i]) is Root) by {
            assert(tail[i] == rest[i + 1]);
            assert(inner_component(rest[i + 1]));
        }
        lemma_normalized_sum(dir, tail);
    } else {
        assert forall|i: int| 0 <= i < rest.len() implies !((#[trigger] rest[i]) is Root) by {
            if i > 0 {
                assert(inner_component(rest[i]));
            }
        }
        lemma_normalized_sum(dir, rest);
    }
}

} // verus!
