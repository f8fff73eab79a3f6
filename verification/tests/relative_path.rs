use nitrogql::relative_path::{
    join_components, normalize, normalize_components, relative_components, relative_path, PathComponent,
};

fn normal(s: &str) -> PathComponent {
    PathComponent::Normal(s.to_string())
}

fn is_same(a: &PathComponent, b: &PathComponent) -> bool {
    match (a, b) {
        (PathComponent::Prefix(x), PathComponent::Prefix(y)) => x == y,
        (PathComponent::RootDir, PathComponent::RootDir) => true,
        (PathComponent::CurDir, PathComponent::CurDir) => true,
        (PathComponent::ParentDir, PathComponent::ParentDir) => true,
        (PathComponent::Normal(x), PathComponent::Normal(y)) => x == y,
        _ => false,
    }
}

fn same_list(a: &[PathComponent], b: &[PathComponent]) -> bool {
    a.len() == b.len() && a.iter().zip(b.iter()).all(|(x, y)| is_same(x, y))
}

#[test]
fn sibling_file() {
    assert_eq!(relative_path("/a/b/c.ts", "/a/b/d.ts"), "./d.ts");
}

#[test]
fn file_to_itself() {
    assert_eq!(relative_path("/a/b/c.ts", "/a/b/c.ts"), "./c.ts");
}

#[test]
fn cousin_file() {
    assert_eq!(relative_path("/a/b/c.ts", "/a/d/e.ts"), "../d/e.ts");
}

#[test]
fn distant_file() {
    assert_eq!(relative_path("/a/b/c.ts", "/x/y.ts"), "../../x/y.ts");
}

#[test]
fn relative_inputs() {
    assert_eq!(relative_path("src/a/index.ts", "src/b.ts"), "../b.ts");
}

#[test]
fn into_subdirectory() {
    assert_eq!(relative_path("/a/b.ts", "/a/b/c.ts"), "./b/c.ts");
}

#[test]
fn dots_are_normalized_first() {
    assert_eq!(relative_path("a/./b/../c.ts", "a/d.ts"), "./d.ts");
}

#[test]
fn relative_from_to_absolute_target() {
    // climbing out of a relative directory cannot reach an absolute path: the root wins
    assert_eq!(relative_path("a.ts", "/x/y.ts"), "/x/y.ts");
}

#[test]
fn normalize_drops_dots() {
    assert_eq!(normalize("a/./b/../c"), "a/c");
    assert_eq!(normalize("/a/b/../../c"), "/c");
}

#[test]
fn normalize_parent_of_nothing() {
    assert_eq!(normalize("../a"), "a");
    assert_eq!(normalize("/../a"), "a");
}

#[test]
fn normalize_is_idempotent_on_examples() {
    for p in ["a/./b/../c", "/x/../y/z", "./q", "", "/"] {
        let once = normalize(p);
        assert_eq!(normalize(&once), once);
    }
}

#[test]
fn normalize_components_example() {
    let cs = vec![
        PathComponent::RootDir,
        normal("a"),
        PathComponent::CurDir,
        normal("b"),
        PathComponent::ParentDir,
        normal("c"),
    ];
    let n = normalize_components(&cs);
    assert!(same_list(&n, &[PathComponent::RootDir, normal("a"), normal("c")]));
}

#[test]
fn relative_components_example() {
    let from = vec![PathComponent::RootDir, normal("a"), normal("b"), normal("f.ts")];
    let to = vec![PathComponent::RootDir, normal("a"), normal("c"), normal("g.ts")];
    let r = relative_components(&from, &to);
    assert!(same_list(&r, &[PathComponent::ParentDir, normal("c"), normal("g.ts")]));
}

#[test]
fn relative_components_adds_leading_dot() {
    let from = vec![normal("a"), normal("f.ts")];
    let to = vec![normal("a"), normal("g.ts")];
    let r = relative_components(&from, &to);
    assert!(same_list(&r, &[PathComponent::CurDir, normal("g.ts")]));
}

#[test]
fn resolving_the_relative_path_gives_the_target() {
    // the directory of `from` joined with the relative path normalizes to `to`
    let pairs = [("/a/b/c.ts", "/a/d/e.ts"), ("x/y/z.ts", "x/w.ts"), ("/p.ts", "/q/r/s.ts")];
    for (from, to) in pairs {
        let rel = relative_path(from, to);
        let dir = std::path::Path::new(from).parent().unwrap();
        let joined = dir.join(&rel);
        assert_eq!(normalize(joined.to_str().unwrap()), normalize(to));
    }
}

#[test]
fn join_components_example() {
    let cs = vec![PathComponent::ParentDir, normal("a"), normal("b.ts")];
    assert_eq!(join_components(&cs), "../a/b.ts");
}

#[test]
fn checked_relative_path_examples() {
    assert_eq!(nitrogql::relative_path::checked_relative_path("/a/b/c.ts", "/a/d/e.ts"), Some("../d/e.ts".to_string()));
    assert_eq!(nitrogql::relative_path::checked_relative_path("../x/y.ts", "z.ts"), Some("../z.ts".to_string()));
}
