//! Lexical path arithmetic: normalising a path and computing the relative
//! path from one file to another.
//!
//! The library works on the component lists that `std::path::Path::components`
//! yields; reading a path into components and gluing components back into a
//! path are left to `std::path`, behind the two trusted wrappers below.
use vstd::prelude::*;

verus! {

/// One component of a path, as `std::path::Path::components` reports it.
pub enum PathComponent {
    /// A Windows path prefix such as `C:`, held as its text.
    Prefix(String),
    /// The root directory separator.
    RootDir,
    /// `.`
    CurDir,
    /// `..`
    ParentDir,
    /// An ordinary name.
    Normal(String),
}

/// The mathematical value of a [`PathComponent`].
pub enum ComponentView {
    Prefix(Seq<char>),
    RootDir,
    CurDir,
    ParentDir,
    Normal(Seq<char>),
}

impl DeepView for PathComponent {
    type V = ComponentView;

    open spec fn deep_view(&self) -> ComponentView {
        match self {
            PathComponent::Prefix(s) => ComponentView::Prefix(s@),
            PathComponent::RootDir => ComponentView::RootDir,
            PathComponent::CurDir => ComponentView::CurDir,
            PathComponent::ParentDir => ComponentView::ParentDir,
            PathComponent::Normal(s) => ComponentView::Normal(s@),
        }
    }
}

/// The components that `std::path::Path::new(path).components()` yields for
/// the text `path` (on the platform the crate is built for).
pub uninterp spec fn std_path_components(path: Seq<char>) -> Seq<ComponentView>;

/// The text of the path that `std::path::PathBuf::push` makes when the
/// component `part` is pushed onto the path with text `base`.
pub uninterp spec fn std_path_push(base: Seq<char>, part: ComponentView) -> Seq<char>;

/// The text of the path that `std::path::PathBuf::pop` leaves of the path with
/// text `path` (its parent, or the path itself where it has none).
pub uninterp spec fn std_path_pop(path: Seq<char>) -> Seq<char>;

/// Truncates a path to its parent with `std::path::PathBuf::pop`.
/// The contract claims only that the resulting text is the one the name
/// [`std_path_pop`] gives to the path's text.
#[verifier::external_body]
fn path_pop(path: &str) -> (r: String)
    ensures
        r@ == std_path_pop(path@),
{
    let mut buf = std::path::PathBuf::from(path);
    buf.pop();
    buf.to_string_lossy().into_owned()
}

/// Reads a path into its components with `std::path::Path::components`.
/// The contract claims only that the result is the one the name
/// [`std_path_components`] gives to the path's text.
#[verifier::external_body]
fn path_components(path: &str) -> (r: Vec<PathComponent>)
    ensures
        r.deep_view() == std_path_components(path@),
{
    std::path::Path::new(path).components().map(|c| match c {
        std::path::Component::Prefix(p) => PathComponent::Prefix(p.as_os_str().to_string_lossy().into_owned()),
        std::path::Component::RootDir => PathComponent::RootDir,
        std::path::Component::CurDir => PathComponent::CurDir,
        std::path::Component::ParentDir => PathComponent::ParentDir,
        std::path::Component::Normal(s) => PathComponent::Normal(s.to_string_lossy().into_owned()),
    }).collect()
}

/// Pushes one component onto a path with `std::path::PathBuf::push`.
/// The contract claims only that the resulting text is the one the name
/// [`std_path_push`] gives to the base text and the component.
#[verifier::external_body]
fn path_push(base: &str, part: &PathComponent) -> (r: String)
    ensures
        r@ == std_path_push(base@, part.deep_view()),
{
    let mut buf = std::path::PathBuf::from(base);
    match part {
        PathComponent::Prefix(s) => buf.push(s),
        PathComponent::RootDir => buf.push(std::path::Component::RootDir),
        PathComponent::CurDir => buf.push(std::path::Component::CurDir),
        PathComponent::ParentDir => buf.push(std::path::Component::ParentDir),
        PathComponent::Normal(s) => buf.push(s),
    }
    buf.to_string_lossy().into_owned()
}

// ---------------------------------------------------------------------------
// Specification
// ---------------------------------------------------------------------------

/// The effect of one component on the stack of a path being normalised:
/// `.` is dropped, `..` removes the last entry (if any), a name is pushed,
/// and a root or prefix starts the stack afresh.
pub open spec fn normalize_step(stack: Seq<ComponentView>, c: ComponentView) -> Seq<ComponentView> {
    match c {
        ComponentView::CurDir => stack,
        ComponentView::Normal(_) => stack.push(c),
        ComponentView::ParentDir => if stack.len() > 0 {
            stack.drop_last()
        } else {
            stack
        },
        _ => seq![c],
    }
}

/// The stack after the components `cs` were applied in order to `stack`.
pub open spec fn normalize_from(stack: Seq<ComponentView>, cs: Seq<ComponentView>) -> Seq<ComponentView>
    decreases cs.len(),
{
    if cs.len() == 0 {
        stack
    } else {
        normalize_step(normalize_from(stack, cs.drop_last()), cs.last())
    }
}

/// The lexically normalised form of a component list.
pub open spec fn spec_normalize(cs: Seq<ComponentView>) -> Seq<ComponentView> {
    normalize_from(seq![], cs)
}

/// A normalised component list: names only, except that the first entry may be
/// a root or a prefix.
pub open spec fn is_normalized(cs: Seq<ComponentView>) -> bool {
    forall|i: int|
        0 <= i < cs.len() ==> (#[trigger] cs[i] is Normal || (i == 0 && (cs[i] is Prefix || cs[i] is RootDir)))
}

/// `std::path::PathBuf::pop`: the last component goes unless the path ends in
/// a root or a prefix or is empty.
pub open spec fn spec_pop(cs: Seq<ComponentView>) -> Seq<ComponentView> {
    if cs.len() > 0 && (cs.last() is Normal || cs.last() is CurDir || cs.last() is ParentDir) {
        cs.drop_last()
    } else {
        cs
    }
}

/// The number of leading positions at which `a` and `b` agree.
pub open spec fn common_prefix_len(a: Seq<ComponentView>, b: Seq<ComponentView>) -> nat
    decreases a.len(),
{
    if a.len() == 0 || b.len() == 0 || a[0] != b[0] {
        0
    } else {
        1 + common_prefix_len(a.drop_first(), b.drop_first())
    }
}

/// The way back up out of a directory: each name becomes `..`, `.` stays,
/// and a root or a prefix is left out. (`..` never occurs in a normalised
/// path; it is left out too.)
pub open spec fn upward(cs: Seq<ComponentView>) -> Seq<ComponentView>
    decreases cs.len(),
{
    if cs.len() == 0 {
        seq![]
    } else {
        let rest = upward(cs.drop_last());
        match cs.last() {
            ComponentView::CurDir => rest.push(ComponentView::CurDir),
            ComponentView::Normal(_) => rest.push(ComponentView::ParentDir),
            _ => rest,
        }
    }
}

/// The components of the relative path from the directory with components
/// `f` to the path with components `t`: the common leading part is skipped,
/// the rest of `f` is climbed with `..` and the rest of `t` is appended. A
/// result that would start with something else than `.` or `..` gets a
/// leading `.`.
pub open spec fn spec_relative_parts(f: Seq<ComponentView>, t: Seq<ComponentView>) -> Seq<ComponentView> {
    let n = common_prefix_len(f, t) as int;
    let body = upward(f.skip(n)) + t.skip(n);
    if body.len() > 0 && !(body[0] is CurDir || body[0] is ParentDir) {
        seq![ComponentView::CurDir] + body
    } else {
        body
    }
}

/// The part of the directory `f` that is climbed on the way to `t` holds no
/// `..` (a `..` there cannot be climbed back over).
pub open spec fn climbs_only_names(f: Seq<ComponentView>, t: Seq<ComponentView>) -> bool {
    forall|i: int| common_prefix_len(f, t) <= i < f.len() ==> !(#[trigger] f[i] is ParentDir)
}

/// The components of the relative path from the file `from` to `to`, on
/// component lists: both are normalised, the file name of `from` is dropped,
/// and the rest is [`spec_relative_parts`].
pub open spec fn spec_relative(from: Seq<ComponentView>, to: Seq<ComponentView>) -> Seq<ComponentView> {
    spec_relative_parts(spec_pop(spec_normalize(from)), spec_normalize(to))
}

/// The text of the normalised path `path`.
pub open spec fn normalized_text(path: Seq<char>) -> Seq<char> {
    spec_join(spec_normalize(std_path_components(path)))
}

/// The components read back from the directory of the normalised `from`.
pub open spec fn directory_components(from: Seq<char>) -> Seq<ComponentView> {
    std_path_components(std_path_pop(normalized_text(from)))
}

/// The components read back from the normalised `to`.
pub open spec fn target_components(to: Seq<char>) -> Seq<ComponentView> {
    std_path_components(normalized_text(to))
}

/// The text of the path built by pushing `cs` in order onto an empty path.
pub open spec fn spec_join(cs: Seq<ComponentView>) -> Seq<char>
    decreases cs.len(),
{
    if cs.len() == 0 {
        seq![]
    } else {
        std_path_push(spec_join(cs.drop_last()), cs.last())
    }
}

// ---------------------------------------------------------------------------
// Executable code
// ---------------------------------------------------------------------------

fn copy_component(c: &PathComponent) -> (r: PathComponent)
    ensures
        r.deep_view() == c.deep_view(),
{
    match c {
        PathComponent::Prefix(s) => PathComponent::Prefix(s.clone()),
        PathComponent::RootDir => PathComponent::RootDir,
        PathComponent::CurDir => PathComponent::CurDir,
        PathComponent::ParentDir => PathComponent::ParentDir,
        PathComponent::Normal(s) => PathComponent::Normal(s.clone()),
    }
}

fn same_component(a: &PathComponent, b: &PathComponent) -> (r: bool)
    ensures
        r == (a.deep_view() == b.deep_view()),
{
    match (a, b) {
        (PathComponent::Prefix(x), PathComponent::Prefix(y)) => *x == *y,
        (PathComponent::RootDir, PathComponent::RootDir) => true,
        (PathComponent::CurDir, PathComponent::CurDir) => true,
        (PathComponent::ParentDir, PathComponent::ParentDir) => true,
        (PathComponent::Normal(x), PathComponent::Normal(y)) => *x == *y,
        _ => false,
    }
}

/// Normalises a component list: `.` is dropped, `..` removes the entry
/// before it, and a root or a prefix discards everything before it.
pub fn normalize_components(cs: &Vec<PathComponent>) -> (r: Vec<PathComponent>)
    ensures
        r.deep_view() == spec_normalize(cs.deep_view()),
{
    let mut stack: Vec<PathComponent> = Vec::new();
    let mut i: usize = 0;
    assert(cs.deep_view().take(0) =~= Seq::<ComponentView>::empty());
    assert(stack.deep_view() =~= Seq::<ComponentView>::empty());
    while i < cs.len()
        invariant
            i <= cs.len(),
            stack.deep_view() == normalize_from(seq![], cs.deep_view().take(i as int)),
        decreases cs.len() - i,
    {
        let ghost before = stack.deep_view();
        let ghost c = cs.deep_view()[i as int];
        match &cs[i] {
            PathComponent::CurDir => {},
            PathComponent::Normal(s) => {
                stack.push(PathComponent::Normal(s.clone()));
                assert(stack.deep_view() =~= before.push(c));
            },
            PathComponent::ParentDir => {
                if stack.len() > 0 {
                    stack.pop();
                    assert(stack.deep_view() =~= before.drop_last());
                }
            },
            PathComponent::Prefix(s) => {
                stack = Vec::new();
                stack.push(PathComponent::Prefix(s.clone()));
                assert(stack.deep_view() =~= seq![c]);
            },
            PathComponent::RootDir => {
                stack = Vec::new();
                stack.push(PathComponent::RootDir);
                assert(stack.deep_view() =~= seq![c]);
            },
        }
        assert(cs.deep_view().take(i + 1).drop_last() =~= cs.deep_view().take(i as int));
        i = i + 1;
    }
    assert(cs.deep_view().take(i as int) =~= cs.deep_view());
    stack
}

proof fn lemma_common_prefix_len(a: Seq<ComponentView>, b: Seq<ComponentView>, k: int)
    requires
        0 <= k <= a.len(),
        k <= b.len(),
        forall|i: int| 0 <= i < k ==> a[i] == b[i],
        k == a.len() || k == b.len() || a[k] != b[k],
    ensures
        common_prefix_len(a, b) == k,
    decreases k,
{
    if k > 0 {
        assert(a[0] == b[0]);
        lemma_common_prefix_len(a.drop_first(), b.drop_first(), k - 1);
    }
}

fn common_prefix(a: &Vec<PathComponent>, b: &Vec<PathComponent>) -> (n: usize)
    ensures
        n == common_prefix_len(a.deep_view(), b.deep_view()),
        n <= a.len(),
        n <= b.len(),
{
    let mut k: usize = 0;
    while k < a.len() && k < b.len() && same_component(&a[k], &b[k])
        invariant
            k <= a.len(),
            k <= b.len(),
            forall|i: int| 0 <= i < k ==> a.deep_view()[i] == b.deep_view()[i],
        decreases a.len() - k,
    {
        k = k + 1;
    }
    proof {
        lemma_common_prefix_len(a.deep_view(), b.deep_view(), k as int);
    }
    k
}

/// Computes the components of the relative path from the directory whose
/// components are `f` to the path whose components are `t`. A `..` in the
/// part of `f` that is climbed cannot be reversed, and is left out by the
/// precondition.
pub fn relative_from_components(f: &Vec<PathComponent>, t: &Vec<PathComponent>) -> (r: Vec<PathComponent>)
    requires
        climbs_only_names(f.deep_view(), t.deep_view()),
    ensures
        r.deep_view() == spec_relative_parts(f.deep_view(), t.deep_view()),
{
    let n = common_prefix(f, t);
    let ghost fv = f.deep_view();
    let ghost tv = t.deep_view();

    let mut body: Vec<PathComponent> = Vec::new();
    let mut i: usize = n;
    assert(fv.subrange(n as int, n as int) =~= Seq::<ComponentView>::empty());
    assert(body.deep_view() =~= Seq::<ComponentView>::empty());
    while i < f.len()
        invariant
            n <= i <= f.len(),
            fv == f.deep_view(),
            body.deep_view() == upward(fv.subrange(n as int, i as int)),
        decreases f.len() - i,
    {
        let ghost before = body.deep_view();
        match &f[i] {
            PathComponent::CurDir => {
                body.push(PathComponent::CurDir);
                assert(body.deep_view() =~= before.push(ComponentView::CurDir));
            },
            PathComponent::Normal(_) => {
                body.push(PathComponent::ParentDir);
                assert(body.deep_view() =~= before.push(ComponentView::ParentDir));
            },
            _ => {},
        }
        assert(fv.subrange(n as int, i + 1).drop_last() =~= fv.subrange(n as int, i as int));
        i = i + 1;
    }
    assert(fv.subrange(n as int, f.len() as int) =~= fv.skip(n as int));
    let ghost up = body.deep_view();

    let mut j: usize = n;
    while j < t.len()
        invariant
            n <= j <= t.len(),
            tv == t.deep_view(),
            body.deep_view() == up + tv.subrange(n as int, j as int),
        decreases t.len() - j,
    {
        let ghost before = body.deep_view();
        body.push(copy_component(&t[j]));
        assert(body.deep_view() =~= before.push(tv[j as int]));
        assert(up + tv.subrange(n as int, j + 1) =~= (up + tv.subrange(n as int, j as int)).push(tv[j as int]));
        j = j + 1;
    }
    assert(tv.subrange(n as int, t.len() as int) =~= tv.skip(n as int));

    let needs_dot = body.len() > 0 && match &body[0] {
        PathComponent::CurDir | PathComponent::ParentDir => false,
        _ => true,
    };
    if needs_dot {
        let mut result: Vec<PathComponent> = Vec::new();
        result.push(PathComponent::CurDir);
        let ghost b = body.deep_view();
        result.append(&mut body);
        assert(result.deep_view() =~= seq![ComponentView::CurDir] + b);
        result
    } else {
        body
    }
}

/// Computes the components of the relative path from the file whose
/// components are `from` to the path whose components are `to`, on
/// component lists: both are normalised and the file name of `from` is
/// dropped first.
pub fn relative_components(from: &Vec<PathComponent>, to: &Vec<PathComponent>) -> (r: Vec<PathComponent>)
    ensures
        r.deep_view() == spec_relative(from.deep_view(), to.deep_view()),
{
    let mut f = normalize_components(from);
    let flen = f.len();
    if flen > 0 {
        match &f[flen - 1] {
            PathComponent::Normal(_) | PathComponent::CurDir | PathComponent::ParentDir => {
                let ghost before = f.deep_view();
                f.pop();
                assert(f.deep_view() =~= before.drop_last());
            },
            _ => {},
        }
    }
    assert(f.deep_view() == spec_pop(spec_normalize(from.deep_view())));
    let t = normalize_components(to);
    proof {
        lemma_normalize_idempotent(from.deep_view());
        let fa = spec_normalize(from.deep_view());
        assert forall|i: int| 0 <= i < f.deep_view().len() implies !(#[trigger] f.deep_view()[i] is ParentDir) by {
            assert(f.deep_view()[i] == fa[i]);
        }
    }
    relative_from_components(&f, &t)
}

/// Builds the text of a path by pushing the components in order onto an
/// empty path.
pub fn join_components(cs: &Vec<PathComponent>) -> (r: String)
    ensures
        r@ == spec_join(cs.deep_view()),
{
    let mut text = String::new();
    let mut i: usize = 0;
    assert(cs.deep_view().take(0) =~= Seq::<ComponentView>::empty());
    while i < cs.len()
        invariant
            i <= cs.len(),
            text@ == spec_join(cs.deep_view().take(i as int)),
        decreases cs.len() - i,
    {
        text = path_push(text.as_str(), &cs[i]);
        assert(cs.deep_view().take(i + 1).drop_last() =~= cs.deep_view().take(i as int));
        i = i + 1;
    }
    assert(cs.deep_view().take(i as int) =~= cs.deep_view());
    text
}

/// Normalises a path lexically: `.` components are dropped, `..` removes the
/// component before it, and a root or a prefix discards what came before.
pub fn normalize(path: &str) -> (r: String)
    ensures
        r@ == spec_join(spec_normalize(std_path_components(path@))),
{
    let cs = path_components(path);
    let normalized = normalize_components(&cs);
    join_components(&normalized)
}

fn climbs_only_names_exec(f: &Vec<PathComponent>, t: &Vec<PathComponent>) -> (b: bool)
    ensures
        b == climbs_only_names(f.deep_view(), t.deep_view()),
{
    let n = common_prefix(f, t);
    let mut i: usize = n;
    while i < f.len()
        invariant
            n <= i <= f.len(),
            n == common_prefix_len(f.deep_view(), t.deep_view()),
            forall|j: int| n <= j < i ==> !(#[trigger] f.deep_view()[j] is ParentDir),
        decreases f.len() - i,
    {
        if let PathComponent::ParentDir = &f[i] {
            assert(f.deep_view()[i as int] is ParentDir);
            return false;
        }
        i = i + 1;
    }
    true
}

/// Calculates the relative path from the file `from` to the path `to`.
///
/// Both paths are normalised; the directory of `from` (the normalised path
/// with its last component popped) and the normalised `to` are read back
/// into components, and the relative path is built from those. The result
/// starts with `./` or `../` where it is relative. The part of the directory
/// that is climbed must hold no `..`.
pub fn relative_path(from: &str, to: &str) -> (r: String)
    requires
        climbs_only_names(directory_components(from@), target_components(to@)),
    ensures
        r@ == spec_join(spec_relative_parts(directory_components(from@), target_components(to@))),
{
    let from_text = normalize(from);
    let from_dir = path_pop(from_text.as_str());
    let to_text = normalize(to);
    let from_cs = path_components(from_dir.as_str());
    let to_cs = path_components(to_text.as_str());
    let rel = relative_from_components(&from_cs, &to_cs);
    join_components(&rel)
}

/// [`relative_path`], or `None` where the part of the directory of `from` that
/// would be climbed holds a `..`.
pub fn checked_relative_path(from: &str, to: &str) -> (r: Option<String>)
    ensures
        r is Some <==> climbs_only_names(directory_components(from@), target_components(to@)),
        r matches Some(p) ==> p@ == spec_join(
            spec_relative_parts(directory_components(from@), target_components(to@)),
        ),
{
    let from_text = normalize(from);
    let from_dir = path_pop(from_text.as_str());
    let to_text = normalize(to);
    let from_cs = path_components(from_dir.as_str());
    let to_cs = path_components(to_text.as_str());
    if climbs_only_names_exec(&from_cs, &to_cs) {
        Some(relative_path(from, to))
    } else {
        None
    }
}

// ---------------------------------------------------------------------------
// Laws
// ---------------------------------------------------------------------------

/// A path that starts at a root or at a prefix.
pub open spec fn is_anchored(cs: Seq<ComponentView>) -> bool {
    cs.len() > 0 && (cs[0] is Prefix || cs[0] is RootDir)
}

proof fn lemma_normalize_append(s: Seq<ComponentView>, a: Seq<ComponentView>, b: Seq<ComponentView>)
    ensures
        normalize_from(s, a + b) == normalize_from(normalize_from(s, a), b),
    decreases b.len(),
{
    if b.len() == 0 {
        assert(a + b =~= a);
    } else {
        assert((a + b).drop_last() =~= a + b.drop_last());
        lemma_normalize_append(s, a, b.drop_last());
    }
}

proof fn lemma_normalize_from_normalized(stack: Seq<ComponentView>, cs: Seq<ComponentView>)
    requires
        is_normalized(stack),
    ensures
        is_normalized(normalize_from(stack, cs)),
    decreases cs.len(),
{
    if cs.len() > 0 {
        lemma_normalize_from_normalized(stack, cs.drop_last());
        let st = normalize_from(stack, cs.drop_last());
        let next = normalize_step(st, cs.last());
        assert forall|i: int| 0 <= i < next.len() implies (#[trigger] next[i] is Normal || (i == 0 && (
        next[i] is Prefix || next[i] is RootDir))) by {
            if i < st.len() {
                assert(st[i] is Normal || (i == 0 && (st[i] is Prefix || st[i] is RootDir)));
            }
        }
    }
}

proof fn lemma_normalized_is_fixed(cs: Seq<ComponentView>)
    requires
        is_normalized(cs),
    ensures
        spec_normalize(cs) == cs,
    decreases cs.len(),
{
    if cs.len() > 0 {
        let d = cs.drop_last();
        assert(is_normalized(d)) by {
            assert forall|i: int| 0 <= i < d.len() implies (#[trigger] d[i] is Normal || (i == 0 && (
            d[i] is Prefix || d[i] is RootDir))) by {
                assert(d[i] == cs[i]);
            }
        }
        lemma_normalized_is_fixed(d);
        let last = cs[cs.len() - 1];
        if last is Normal {
            assert(d.push(last) =~= cs);
        } else {
            assert(cs.len() == 1);
            assert(seq![last] =~= cs);
        }
    }
}

/// Normalising is idempotent, and a normalised path holds no `.` and no `..`:
/// only names, after at most one leading root or prefix.
pub proof fn lemma_normalize_idempotent(cs: Seq<ComponentView>)
    ensures
        is_normalized(spec_normalize(cs)),
        spec_normalize(spec_normalize(cs)) == spec_normalize(cs),
{
    lemma_normalize_from_normalized(seq![], cs);
    lemma_normalized_is_fixed(spec_normalize(cs));
}

proof fn lemma_pop_parents(s: Seq<ComponentView>, k: nat)
    requires
        k <= s.len(),
    ensures
        normalize_from(s, Seq::new(k, |i: int| ComponentView::ParentDir)) == s.take(s.len() - k),
    decreases k,
{
    let p = Seq::new(k, |i: int| ComponentView::ParentDir);
    if k == 0 {
        assert(s.take(s.len() as int) =~= s);
    } else {
        assert(p.drop_last() =~= Seq::new((k - 1) as nat, |i: int| ComponentView::ParentDir));
        lemma_pop_parents(s, (k - 1) as nat);
        assert(s.take(s.len() - k + 1).drop_last() =~= s.take(s.len() - k));
    }
}

proof fn lemma_upward_normalized(cs: Seq<ComponentView>)
    requires
        is_normalized(cs),
        !is_anchored(cs),
    ensures
        upward(cs) == Seq::new(cs.len(), |i: int| ComponentView::ParentDir),
    decreases cs.len(),
{
    if cs.len() > 0 {
        let d = cs.drop_last();
        assert(is_normalized(d)) by {
            assert forall|i: int| 0 <= i < d.len() implies (#[trigger] d[i] is Normal || (i == 0 && (
            d[i] is Prefix || d[i] is RootDir))) by {
                assert(d[i] == cs[i]);
            }
        }
        if d.len() > 0 {
            assert(d[0] == cs[0]);
        }
        lemma_upward_normalized(d);
        assert(cs[cs.len() - 1] is Normal);
        assert(Seq::new(d.len(), |i: int| ComponentView::ParentDir).push(ComponentView::ParentDir)
            =~= Seq::new(cs.len(), |i: int| ComponentView::ParentDir));
    }
}

proof fn lemma_upward_anchored(cs: Seq<ComponentView>)
    requires
        is_normalized(cs),
        is_anchored(cs),
    ensures
        upward(cs) == Seq::new((cs.len() - 1) as nat, |i: int| ComponentView::ParentDir),
{
    let rest = cs.skip(1);
    assert(is_normalized(rest) && !is_anchored(rest)) by {
        assert forall|i: int| 0 <= i < rest.len() implies #[trigger] rest[i] is Normal by {
            assert(rest[i] == cs[i + 1]);
        }
    }
    lemma_upward_normalized(rest);
    lemma_upward_append_one(cs[0], rest);
    assert(seq![cs[0]] + rest =~= cs);
}

proof fn lemma_upward_append_one(c: ComponentView, rest: Seq<ComponentView>)
    requires
        c is Prefix || c is RootDir,
    ensures
        upward(seq![c] + rest) == upward(rest),
    decreases rest.len(),
{
    if rest.len() == 0 {
        assert(seq![c] + rest =~= seq![c]);
        assert(seq![c].drop_last() =~= Seq::<ComponentView>::empty());
        assert(upward(seq![c].drop_last()) == Seq::<ComponentView>::empty());
        assert(upward(seq![c]) == upward(seq![c].drop_last()));
    } else {
        assert((seq![c] + rest).drop_last() =~= seq![c] + rest.drop_last());
        assert((seq![c] + rest).last() == rest.last());
        lemma_upward_append_one(c, rest.drop_last());
        assert(upward(seq![c] + rest) == upward(rest));
    }
}

proof fn lemma_common_prefix_props(a: Seq<ComponentView>, b: Seq<ComponentView>)
    ensures
        common_prefix_len(a, b) <= a.len(),
        common_prefix_len(a, b) <= b.len(),
        forall|i: int| 0 <= i < common_prefix_len(a, b) ==> a[i] == b[i],
    decreases a.len(),
{
    if !(a.len() == 0 || b.len() == 0 || a[0] != b[0]) {
        lemma_common_prefix_props(a.drop_first(), b.drop_first());
        assert forall|i: int| 0 <= i < common_prefix_len(a, b) implies a[i] == b[i] by {
            if i > 0 {
                assert(a[i] == a.drop_first()[i - 1]);
                assert(b[i] == b.drop_first()[i - 1]);
            }
        }
    }
}

proof fn lemma_anchor_resets(s: Seq<ComponentView>, t: Seq<ComponentView>)
    requires
        is_anchored(t),
    ensures
        normalize_from(s, t) == normalize_from(seq![], t),
{
    let head = seq![t[0]];
    let rest = t.skip(1);
    assert(head + rest =~= t);
    assert(head.drop_last() =~= Seq::<ComponentView>::empty());
    assert(normalize_from(s, head) == seq![t[0]]);
    assert(normalize_from(seq![], head) == seq![t[0]]);
    lemma_normalize_append(s, head, rest);
    lemma_normalize_append(seq![], head, rest);
}

proof fn lemma_normalized_parts(cs: Seq<ComponentView>, n: int)
    requires
        is_normalized(cs),
        0 <= n <= cs.len(),
    ensures
        is_normalized(cs.take(n)),
        is_normalized(cs.skip(n)),
        n > 0 ==> !is_anchored(cs.skip(n)),
{
    assert forall|i: int| 0 <= i < cs.take(n).len() implies (#[trigger] cs.take(n)[i] is Normal || (i
        == 0 && (cs.take(n)[i] is Prefix || cs.take(n)[i] is RootDir))) by {
        assert(cs.take(n)[i] == cs[i]);
    }
    assert forall|i: int| 0 <= i < cs.skip(n).len() implies (#[trigger] cs.skip(n)[i] is Normal || (i
        == 0 && (cs.skip(n)[i] is Prefix || cs.skip(n)[i] is RootDir))) by {
        assert(cs.skip(n)[i] == cs[i + n]);
    }
    if n > 0 && cs.skip(n).len() > 0 {
        assert(cs.skip(n)[0] == cs[n]);
    }
}

/// Resolving the relative path against the directory of `from` gives back
/// `to`: normalising the directory of `from` followed by
/// `relative_path(from, to)` yields the normalised `to`. This holds whenever
/// `to` is anchored (at a root or a prefix) if `from` is.
pub proof fn lemma_relative_path_resolves(from: Seq<ComponentView>, to: Seq<ComponentView>)
    requires
        is_anchored(spec_normalize(from)) ==> is_anchored(spec_normalize(to)),
    ensures
        spec_normalize(spec_pop(spec_normalize(from)) + spec_relative(from, to)) == spec_normalize(to),
{
    let fa = spec_normalize(from);
    let f = spec_pop(fa);
    let t = spec_normalize(to);
    lemma_normalize_idempotent(from);
    lemma_normalize_idempotent(to);
    if fa.len() > 0 {
        lemma_normalized_parts(fa, fa.len() - 1);
        if f.len() == fa.len() - 1 {
            assert(f =~= fa.take(fa.len() - 1));
        }
    }
    assert(is_normalized(f));
    if is_anchored(f) {
        assert(f[0] == fa[0]);
    }
    let n = common_prefix_len(f, t) as int;
    lemma_common_prefix_props(f, t);
    let up = upward(f.skip(n));
    let body = up + t.skip(n);
    let res = spec_relative(from, to);
    lemma_normalized_is_fixed(f);
    lemma_normalize_append(seq![], f, res);
    // normalize(f + res) == normalize_from(f, res)
    if body.len() > 0 && !(body[0] is CurDir || body[0] is ParentDir) {
        let dot = seq![ComponentView::CurDir];
        assert(dot.drop_last() =~= Seq::<ComponentView>::empty());
        assert(normalize_from(f, dot.drop_last()) == f);
        assert(normalize_from(f, dot) == f);
        lemma_normalize_append(f, dot, body);
    }
    assert(normalize_from(f, res) == normalize_from(f, body));
    lemma_normalize_append(f, up, t.skip(n));
    lemma_normalized_parts(f, n);
    lemma_normalized_parts(t, n);
    if is_anchored(f) && n == 0 {
        assert(f.skip(0) =~= f);
        assert(t.skip(0) =~= t);
        lemma_upward_anchored(f);
        lemma_pop_parents(f, (f.len() - 1) as nat);
        lemma_anchor_resets(f.take(1), t);
        lemma_normalized_is_fixed(t);
    } else {
        if n == 0 && f.len() > 0 {
            assert(f.skip(0) =~= f);
        }
        lemma_upward_normalized(f.skip(n));
        lemma_pop_parents(f, (f.len() - n) as nat);
        assert(f.take(n) =~= t.take(n));
        assert(t.take(n) + t.skip(n) =~= t);
        lemma_normalize_append(seq![], t.take(n), t.skip(n));
        lemma_normalized_is_fixed(t.take(n));
        lemma_normalized_is_fixed(t);
    }
}

/// A relative path that is not empty starts with `.` or `..`.
pub proof fn lemma_relative_path_is_explicit(from: Seq<ComponentView>, to: Seq<ComponentView>)
    ensures
        spec_relative(from, to).len() == 0 || spec_relative(from, to)[0] is CurDir
            || spec_relative(from, to)[0] is ParentDir,
{
}

/// From a file to a path in the same directory, the relative path is `./`
/// followed by the name.
pub proof fn lemma_relative_path_same_directory(
    from: Seq<ComponentView>,
    to: Seq<ComponentView>,
    name: Seq<char>,
)
    requires
        spec_normalize(to) == spec_pop(spec_normalize(from)).push(ComponentView::Normal(name)),
    ensures
        spec_relative(from, to) == seq![ComponentView::CurDir, ComponentView::Normal(name)],
{
    let f = spec_pop(spec_normalize(from));
    let t = spec_normalize(to);
    lemma_common_prefix_len(f, t, f.len() as int);
    assert(f.skip(f.len() as int) =~= Seq::<ComponentView>::empty());
    assert(t.skip(f.len() as int) =~= seq![ComponentView::Normal(name)]);
    assert(upward(Seq::<ComponentView>::empty()) =~= Seq::<ComponentView>::empty());
    assert(Seq::<ComponentView>::empty() + seq![ComponentView::Normal(name)] =~= seq![ComponentView::Normal(name)]);
    assert(seq![ComponentView::CurDir] + seq![ComponentView::Normal(name)] =~= seq![ComponentView::CurDir, ComponentView::Normal(name)]);
}

} // verus!
