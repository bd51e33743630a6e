//! Paths as text, and what their components are.
//!
//! A path is a `String` or a `&str`. Its meaning is the sequence of its components: two texts
//! with the same components are the same path, as they are for `camino::Utf8Path`. All
//! statements here are for Unix, where `/` is the only separator.

use camino::{Utf8Component, Utf8Path};
use vstd::prelude::*;

verus! {

/// One component of a path.
pub enum Comp {
    /// A Windows drive or share. It does not occur on Unix.
    Prefix(Seq<char>),
    /// The leading `/` of an absolute path.
    Root,
    /// A leading `.`.
    Cur,
    /// A `..`.
    Parent,
    /// Any other name between separators.
    Name(Seq<char>),
}

/// The number of characters in front of the first separator.
pub open spec fn first_len(text: Seq<char>) -> nat
    decreases text.len(),
{
    if text.len() == 0 || text[0] == '/' {
        0
    } else {
        1 + first_len(text.skip(1))
    }
}

/// What stands between two separators: nothing for `.`, else one component.
pub open spec fn piece_components(piece: Seq<char>) -> Seq<Comp> {
    if piece == seq!['.'] {
        seq![]
    } else if piece == seq!['.', '.'] {
        seq![Comp::Parent]
    } else {
        seq![Comp::Name(piece)]
    }
}

/// The components of the text, without the leading `/` or `.`.
pub open spec fn body_components(text: Seq<char>) -> Seq<Comp>
    decreases text.len(),
{
    if text.len() == 0 {
        seq![]
    } else if text[0] == '/' {
        body_components(text.skip(1))
    } else {
        let n = first_len(text) as int;
        if 0 < n <= text.len() {
            piece_components(text.take(n)) + body_components(text.skip(n))
        } else {
            seq![]
        }
    }
}

/// The components of a path. Repeated and trailing separators and every `.` but a leading one
/// leave no trace.
pub open spec fn path_components(text: Seq<char>) -> Seq<Comp> {
    let body = body_components(text);
    if text.len() > 0 && text[0] == '/' {
        seq![Comp::Root] + body
    } else if text.take(first_len(text) as int) == seq!['.'] {
        seq![Comp::Cur] + body
    } else {
        body
    }
}

/// Whether a name can stand between two separators as a component of its own.
pub open spec fn valid_name(name: Seq<char>) -> bool {
    &&& name.len() > 0
    &&& !name.contains('/')
    &&& name != seq!['.']
    &&& name != seq!['.', '.']
}

/// Whether a component can stand behind the first place.
pub open spec fn inner_component(c: Comp) -> bool {
    match c {
        Comp::Prefix(_) => false,
        Comp::Root => false,
        Comp::Cur => false,
        Comp::Parent => true,
        Comp::Name(name) => valid_name(name),
    }
}

/// The shape of every component sequence: `/` or `.` stands at most in front.
pub open spec fn well_shaped(cs: Seq<Comp>) -> bool {
    &&& forall|i: int| 1 <= i < cs.len() ==> inner_component(#[trigger] cs[i])
    &&& cs.len() > 0 ==> (cs[0] is Root || cs[0] is Cur || inner_component(cs[0]))
}

/// Whether the path starts at the root.
pub open spec fn absolute(cs: Seq<Comp>) -> bool {
    cs.len() > 0 && cs[0] is Root
}

/// Whether the last component can be taken off.
pub open spec fn has_parent(cs: Seq<Comp>) -> bool {
    cs.len() > 0 && cs.last() !is Root
}

/// The path `b`, seen from the directory `a`.
pub open spec fn joined(a: Seq<Comp>, b: Seq<Comp>) -> Seq<Comp> {
    if absolute(b) || a.len() == 0 {
        b
    } else if b.len() > 0 && b[0] is Cur {
        a + b.skip(1)
    } else {
        a + b
    }
}

proof fn lemma_first_len(text: Seq<char>)
    ensures
        first_len(text) <= text.len(),
        !text.take(first_len(text) as int).contains('/'),
        first_len(text) < text.len() ==> text[first_len(text) as int] == '/',
    decreases text.len(),
{
    if text.len() == 0 || text[0] == '/' {
        assert(text.take(0) =~= Seq::<char>::empty());
    } else {
        lemma_first_len(text.skip(1));
        let n = first_len(text.skip(1)) as int;
        let front = text.take(n + 1);
        let rest = text.skip(1).take(n);
        assert forall|i: int| 0 <= i < front.len() implies #[trigger] front[i] != '/' by {
            if i > 0 {
                assert(rest[i - 1] == front[i]);
                assert(rest.contains(rest[i - 1]));
            }
        }
    }
}

proof fn lemma_body_shape(text: Seq<char>)
    ensures
        forall|i: int|
            0 <= i < body_components(text).len() ==> inner_component(
                #[trigger] body_components(text)[i],
            ),
    decreases text.len(),
{
    if text.len() > 0 {
        if text[0] == '/' {
            lemma_body_shape(text.skip(1));
            assert(body_components(text) == body_components(text.skip(1)));
        } else {
            lemma_first_len(text);
            let n = first_len(text) as int;
            lemma_body_shape(text.skip(n));
            let front = piece_components(text.take(n));
            let rest = body_components(text.skip(n));
            let all = body_components(text);
            assert(all == front + rest);
            assert forall|i: int| 0 <= i < all.len() implies inner_component(#[trigger] all[i]) by {
                if i < front.len() {
                    assert(all[i] == front[i]);
                } else {
                    assert(all[i] == rest[i - front.len()]);
                }
            }
        }
    }
}

/// The components of any text have the shape that `well_shaped` names.
pub proof fn components_well_shaped(text: Seq<char>)
    ensures
        well_shaped(path_components(text)),
        absolute(path_components(text)) <==> (text.len() > 0 && text[0] == '/'),
{
    lemma_body_shape(text);
    lemma_first_len(text);
    let body = body_components(text);
    let cs = path_components(text);
    if text.len() > 0 && text[0] == '/' {
        assert(cs[0] is Root);
    } else if text.take(first_len(text) as int) == seq!['.'] {
        assert(cs[0] is Cur);
    } else if body.len() > 0 {
        assert(inner_component(body[0]));
    }
    assert forall|i: int| 1 <= i < cs.len() implies inner_component(#[trigger] cs[i]) by {
        if cs.len() == body.len() {
            assert(cs[i] == body[i]);
        } else {
            assert(cs[i] == body[i - 1]);
        }
    }
}

proof fn lemma_first_len_of_name(name: Seq<char>)
    requires
        !name.contains('/'),
    ensures
        first_len(name) == name.len(),
    decreases name.len(),
{
    if name.len() > 0 {
        assert(name.contains(name[0]));
        let rest = name.skip(1);
        assert forall|i: int| 0 <= i < rest.len() implies #[trigger] rest[i] != '/' by {
            assert(name.contains(name[i + 1]));
        }
        lemma_first_len_of_name(rest);
    }
}

/// A name that can be a component is a path of that one component.
pub proof fn name_components(name: Seq<char>)
    requires
        valid_name(name),
    ensures
        path_components(name) == seq![Comp::Name(name)],
{
    lemma_first_len_of_name(name);
    assert(name.contains(name[0]));
    assert(name.take(name.len() as int) =~= name);
    assert(body_components(name.skip(name.len() as int)) =~= seq![]);
    assert(body_components(name) =~= seq![Comp::Name(name)]);
}

/// The text `/` is the root, and the absolute paths are those that start with it.
pub proof fn root_components()
    ensures
        path_components("/"@) == seq![Comp::Root],
        forall|cs: Seq<Comp>| #[trigger] absolute(cs) <==> path_components("/"@).is_prefix_of(cs),
{
    reveal_strlit("/");
    assert("/"@ =~= seq!['/']);
    assert("/"@.skip(1) =~= Seq::<char>::empty());
    assert(body_components("/"@.skip(1)) =~= seq![]);
    assert(body_components("/"@) =~= seq![]);
    assert(path_components("/"@) =~= seq![Comp::Root]);
    assert forall|cs: Seq<Comp>| #[trigger] absolute(cs) <==> path_components("/"@).is_prefix_of(
        cs,
    ) by {
        if path_components("/"@).is_prefix_of(cs) {
            assert(cs.subrange(0, 1)[0] == Comp::Root);
        }
    }
}

/// The text of a component.
pub open spec fn component_text(c: Comp) -> Seq<char> {
    match c {
        Comp::Prefix(text) => text,
        Comp::Root => seq!['/'],
        Comp::Cur => seq!['.'],
        Comp::Parent => seq!['.', '.'],
        Comp::Name(name) => name,
    }
}

/// The components written with one separator between two of them.
pub open spec fn relative_text(cs: Seq<Comp>) -> Seq<char>
    decreases cs.len(),
{
    if cs.len() == 0 {
        seq![]
    } else if cs.len() == 1 {
        component_text(cs[0])
    } else {
        component_text(cs[0]) + seq!['/'] + relative_text(cs.skip(1))
    }
}

/// Whether the text is an absolute path without superfluous separators or dots.
pub open spec fn plain_absolute(text: Seq<char>) -> bool {
    &&& absolute(path_components(text))
    &&& text == seq!['/'] + relative_text(path_components(text).skip(1))
}

/// The text that is left of `path` behind `base`, where `base` is a prefix of it.
pub uninterp spec fn stripped_text(path: Seq<char>, base: Seq<char>) -> Seq<char>;

/// Lexicographic order of names by their characters.
pub open spec fn name_lt(a: Seq<char>, b: Seq<char>) -> bool
    decreases a.len(),
{
    if b.len() == 0 {
        false
    } else if a.len() == 0 {
        true
    } else {
        a[0] < b[0] || (a[0] == b[0] && name_lt(a.skip(1), b.skip(1)))
    }
}

/// The kinds of components in their order.
pub open spec fn component_rank(c: Comp) -> int {
    match c {
        Comp::Prefix(_) => 0,
        Comp::Root => 1,
        Comp::Cur => 2,
        Comp::Parent => 3,
        Comp::Name(_) => 4,
    }
}

/// The order of components: by kind, and names among themselves by their characters.
pub open spec fn component_lt(a: Comp, b: Comp) -> bool {
    match (a, b) {
        (Comp::Prefix(x), Comp::Prefix(y)) => name_lt(x, y),
        (Comp::Name(x), Comp::Name(y)) => name_lt(x, y),
        _ => component_rank(a) < component_rank(b),
    }
}

/// Lexicographic order of paths by their components. A directory comes before all that is
/// below it.
pub open spec fn path_lt(a: Seq<Comp>, b: Seq<Comp>) -> bool
    decreases a.len(),
{
    if b.len() == 0 {
        false
    } else if a.len() == 0 {
        true
    } else {
        component_lt(a[0], b[0]) || (a[0] == b[0] && path_lt(a.skip(1), b.skip(1)))
    }
}

proof fn lemma_name_order(a: Seq<char>, b: Seq<char>)
    ensures
        !(name_lt(a, b) && name_lt(b, a)),
        a == b ==> !name_lt(a, b),
        a != b ==> name_lt(a, b) || name_lt(b, a),
    decreases a.len(),
{
    if a.len() > 0 && b.len() > 0 {
        lemma_name_order(a.skip(1), b.skip(1));
        if a[0] == b[0] && a.skip(1) == b.skip(1) {
            assert(a =~= seq![a[0]] + a.skip(1));
            assert(b =~= seq![b[0]] + b.skip(1));
        }
    } else if a.len() == 0 && b.len() == 0 {
        assert(a =~= b);
    }
}

proof fn lemma_name_transitive(a: Seq<char>, b: Seq<char>, c: Seq<char>)
    requires
        name_lt(a, b),
        name_lt(b, c),
    ensures
        name_lt(a, c),
    decreases a.len(),
{
    if a.len() > 0 && a[0] == b[0] && b[0] == c[0] {
        lemma_name_transitive(a.skip(1), b.skip(1), c.skip(1));
    }
}

proof fn lemma_component_order(a: Comp, b: Comp)
    ensures
        !(component_lt(a, b) && component_lt(b, a)),
        a == b ==> !component_lt(a, b),
        a != b ==> component_lt(a, b) || component_lt(b, a),
{
    match (a, b) {
        (Comp::Prefix(x), Comp::Prefix(y)) => lemma_name_order(x, y),
        (Comp::Name(x), Comp::Name(y)) => lemma_name_order(x, y),
        _ => {},
    }
}

proof fn lemma_component_transitive(a: Comp, b: Comp, c: Comp)
    requires
        component_lt(a, b),
        component_lt(b, c),
    ensures
        component_lt(a, c),
{
    match (a, b, c) {
        (Comp::Prefix(x), Comp::Prefix(y), Comp::Prefix(z)) => lemma_name_transitive(x, y, z),
        (Comp::Name(x), Comp::Name(y), Comp::Name(z)) => lemma_name_transitive(x, y, z),
        _ => {},
    }
}

/// Of two paths exactly one holds: the first comes before, the second does, or they are equal.
pub proof fn path_order_total(a: Seq<Comp>, b: Seq<Comp>)
    ensures
        !(path_lt(a, b) && path_lt(b, a)),
        a == b ==> !path_lt(a, b),
        a != b ==> path_lt(a, b) || path_lt(b, a),
    decreases a.len(),
{
    if a.len() > 0 && b.len() > 0 {
        lemma_component_order(a[0], b[0]);
        path_order_total(a.skip(1), b.skip(1));
        if a[0] == b[0] && a.skip(1) == b.skip(1) {
            assert(a =~= seq![a[0]] + a.skip(1));
            assert(b =~= seq![b[0]] + b.skip(1));
        }
    } else if a.len() == 0 && b.len() == 0 {
        assert(a =~= b);
    }
}

/// The order of paths is transitive.
pub proof fn path_order_transitive(a: Seq<Comp>, b: Seq<Comp>, c: Seq<Comp>)
    requires
        path_lt(a, b),
        path_lt(b, c),
    ensures
        path_lt(a, c),
    decreases a.len(),
{
    if a.len() > 0 {
        if component_lt(a[0], b[0]) {
            if component_lt(b[0], c[0]) {
                lemma_component_transitive(a[0], b[0], c[0]);
            }
        } else if !component_lt(b[0], c[0]) {
            path_order_transitive(a.skip(1), b.skip(1), c.skip(1));
        }
    }
}

/// What stands between a directory and something below it is below that directory too.
pub proof fn subtree_is_contiguous(dir: Seq<Comp>, mid: Seq<Comp>, below: Seq<Comp>)
    requires
        dir.is_prefix_of(below),
        path_lt(dir, mid),
        path_lt(mid, below),
    ensures
        dir.is_prefix_of(mid),
    decreases dir.len(),
{
    if dir.len() > 0 {
        assert(dir[0] == below[0]);
        lemma_component_order(dir[0], mid[0]);
        lemma_component_order(mid[0], below[0]);
        assert(dir[0] == mid[0]);
        assert(dir.skip(1).is_prefix_of(below.skip(1)));
        subtree_is_contiguous(dir.skip(1), mid.skip(1), below.skip(1));
        assert forall|i: int| 0 <= i < dir.len() implies dir[i] == mid[i] by {
            if i > 0 {
                assert(dir.skip(1)[i - 1] == mid.skip(1)[i - 1]);
            }
        }
    }
}

/// A directory comes before all that is below it.
pub proof fn directory_comes_first(dir: Seq<Comp>, below: Seq<Comp>)
    requires
        dir.is_prefix_of(below),
        dir != below,
    ensures
        path_lt(dir, below),
    decreases dir.len(),
{
    if dir.len() > 0 {
        assert(dir[0] == below[0]);
        assert(dir.skip(1).is_prefix_of(below.skip(1)));
        if dir.skip(1) == below.skip(1) {
            assert(dir =~= seq![dir[0]] + dir.skip(1));
            assert(below =~= seq![below[0]] + below.skip(1));
        }
        directory_comes_first(dir.skip(1), below.skip(1));
    } else if below.len() == 0 {
        assert(dir =~= below);
    }
}

/// One component of a path, as a value to compute with.
#[derive(Debug)]
pub enum PathComponent {
    /// A Windows drive or share.
    Prefix(String),
    /// The leading `/`.
    RootDir,
    /// A leading `.`.
    CurDir,
    /// A `..`.
    ParentDir,
    /// A name.
    Normal(String),
}

impl View for PathComponent {
    type V = Comp;

    open spec fn view(&self) -> Comp {
        match self {
            PathComponent::Prefix(text) => Comp::Prefix(text@),
            PathComponent::RootDir => Comp::Root,
            PathComponent::CurDir => Comp::Cur,
            PathComponent::ParentDir => Comp::Parent,
            PathComponent::Normal(name) => Comp::Name(name@),
        }
    }
}

/// The outcome of comparing two paths.
#[derive(Debug, Clone, Copy, PartialEq, Eq, Structural)]
pub enum PathOrder {
    /// The first comes before the second.
    Before,
    /// The two are the same path.
    Same,
    /// The first comes after the second.
    After,
}

/// `Utf8Path::components`: claims that the components it walks over are those of
/// `path_components`.
#[verifier::external_body]
pub(crate) fn components(path: &str) -> (r: Vec<PathComponent>)
    ensures
        r@.map_values(|c: PathComponent| c@) == path_components(path@),
{
    Utf8Path::new(path).components().map(|c| match c {
        Utf8Component::Prefix(p) => PathComponent::Prefix(p.as_str().to_string()),
        Utf8Component::RootDir => PathComponent::RootDir,
        Utf8Component::CurDir => PathComponent::CurDir,
        Utf8Component::ParentDir => PathComponent::ParentDir,
        Utf8Component::Normal(n) => PathComponent::Normal(n.to_string()),
    }).collect()
}

/// `Utf8Path::is_absolute`: claims that it tells whether the path has a root.
#[verifier::external_body]
pub(crate) fn is_absolute(path: &str) -> (r: bool)
    ensures
        r == absolute(path_components(path@)),
{
    Utf8Path::new(path).is_absolute()
}

/// `Utf8Path::parent`: claims that it gives the path without its last component, and `None`
/// where there is none or it is the root. Of the text of the parent only its components are
/// stated: superfluous separators in it may stay.
#[verifier::external_body]
pub(crate) fn parent(path: &str) -> (r: Option<&str>)
    ensures
        r is Some <==> has_parent(path_components(path@)),
        r is Some ==> path_components(r->0@) == path_components(path@).drop_last(),
{
    Utf8Path::new(path).parent().map(|p| p.as_str())
}

/// `Utf8Path::file_name`: claims that it gives the last component where that is a name, and
/// `None` else.
#[verifier::external_body]
pub(crate) fn file_name(path: &str) -> (r: Option<&str>)
    ensures
        r is Some <==> (path_components(path@).len() > 0 && path_components(path@).last() is Name),
        r is Some ==> path_components(path@).last() == Comp::Name(r->0@),
{
    Utf8Path::new(path).file_name()
}

/// `Utf8Path::join`: claims that an absolute `path` replaces `base` and that a relative one is
/// added to it. Of the text only its components are stated.
#[verifier::external_body]
pub(crate) fn join(base: &str, path: &str) -> (r: String)
    ensures
        path_components(r@) == joined(path_components(base@), path_components(path@)),
{
    Utf8Path::new(base).join(path).into_string()
}

/// `Utf8Path::starts_with`: claims that it compares whole components.
#[verifier::external_body]
pub(crate) fn starts_with(path: &str, base: &str) -> (r: bool)
    ensures
        r == path_components(base@).is_prefix_of(path_components(path@)),
{
    Utf8Path::new(path).starts_with(base)
}

/// `Utf8Path::strip_prefix`: claims that it succeeds where `base` is a prefix by whole
/// components, that what is left has the components behind `base`, and that of an absolute
/// path without superfluous separators or dots the text behind the leading `/` is left.
#[verifier::external_body]
pub(crate) fn strip_prefix<'a>(path: &'a str, base: &str) -> (r: Option<&'a str>)
    ensures
        r is Some <==> path_components(base@).is_prefix_of(path_components(path@)),
        r is Some ==> r->0@ == stripped_text(path@, base@),
        r is Some ==> path_components(r->0@) == path_components(path@).skip(
            path_components(base@).len() as int,
        ),
        r is Some && base@ == "/"@ && plain_absolute(path@) ==> r->0@ == path@.skip(1),
{
    Utf8Path::new(path).strip_prefix(base).ok().map(|p| p.as_str())
}

/// The order of `Utf8Path`: claims that it is the lexicographic order of the components, in
/// which a name is compared with a name by its bytes, which is by its characters.
#[verifier::external_body]
pub(crate) fn compare(a: &str, b: &str) -> (r: PathOrder)
    ensures
        r == PathOrder::Same <==> path_components(a@) == path_components(b@),
        r == PathOrder::Before <==> path_lt(path_components(a@), path_components(b@)),
{
    match Utf8Path::new(a).cmp(Utf8Path::new(b)) {
        std::cmp::Ordering::Less => PathOrder::Before,
        std::cmp::Ordering::Equal => PathOrder::Same,
        std::cmp::Ordering::Greater => PathOrder::After,
    }
}

proof fn lemma_first_len_before(name: Seq<char>, rest: Seq<char>)
    requires
        !name.contains('/'),
    ensures
        first_len(name + seq!['/'] + rest) == name.len(),
    decreases name.len(),
{
    let text = name + seq!['/'] + rest;
    if name.len() > 0 {
        assert(name.contains(name[0]));
        assert(text[0] == name[0]);
        let less = name.skip(1);
        assert forall|i: int| 0 <= i < less.len() implies #[trigger] less[i] != '/' by {
            assert(name.contains(name[i + 1]));
        }
        lemma_first_len_before(less, rest);
        assert(text.skip(1) =~= less + seq!['/'] + rest);
    } else {
        assert(text[0] == '/');
    }
}

/// A relative path of a name, a separator and more has that name as its first component.
pub proof fn name_before_separator(name: Seq<char>, rest: Seq<char>)
    requires
        valid_name(name),
    ensures
        path_components(name + seq!['/'] + rest) == seq![Comp::Name(name)] + body_components(rest),
        body_components(name + seq!['/'] + rest) == seq![Comp::Name(name)] + body_components(rest),
        body_components(name) == seq![Comp::Name(name)],
{
    let text = name + seq!['/'] + rest;
    lemma_first_len_before(name, rest);
    lemma_first_len_of_name(name);
    name_components(name);
    assert(name.contains(name[0]));
    assert(text[0] == name[0]);
    assert(text.take(name.len() as int) =~= name);
    let tail = text.skip(name.len() as int);
    assert(tail[0] == '/');
    assert(tail.skip(1) =~= rest);
    assert(body_components(tail) == body_components(rest));
    assert(piece_components(name) == seq![Comp::Name(name)]);
    assert(body_components(text) == seq![Comp::Name(name)] + body_components(tail));
    assert(name.take(name.len() as int) =~= name);
    assert(name.skip(name.len() as int) =~= seq![]);
    assert(body_components(name.skip(name.len() as int)) =~= seq![]);
    assert(body_components(name) =~= seq![Comp::Name(name)]);
}

} // verus!
