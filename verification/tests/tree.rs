use configuration::Item;
use configuration::Node;
use configuration::Kind;
use configuration::TOML;
use configuration::Tree;

#[test]
fn branch() {
    let tree = TOML::parse(
        r#"
        qux = 69

        [foo]
        bar = 42

        [[bar.baz]]
        qux = 42
    "#,
    )
    .unwrap();

    {
        let tree = tree.branch("foo").unwrap();
        assert_eq!(tree.get("bar", Kind::Integer), Some(&Item::Integer(42)));
        assert_eq!(tree.get("qux", Kind::Integer), Some(&Item::Integer(69)));
    }
    {
        let tree = tree.branch("bar").unwrap();
        assert_eq!(tree.get("qux", Kind::Integer), Some(&Item::Integer(69)));
    }
    {
        let tree = tree.branch("bar.baz.0").unwrap();
        assert_eq!(tree.get("qux", Kind::Integer), Some(&Item::Integer(42)));
    }
}

#[test]
fn forest() {
    let tree = TOML::parse(
        r#"
        [[foo.bar]]
        baz = 42

        [[foo.bar]]
        baz = 69
    "#,
    )
    .unwrap();

    let baz = tree
        .forest("foo.bar")
        .unwrap()
        .iter()
        .map(|tree| match tree.get("baz", Kind::Integer).unwrap() {
            Item::Integer(i) => *i,
            _ => panic!("expected an integer"),
        })
        .collect::<Vec<_>>();

    assert_eq!(&baz, &[42, 69]);
}

#[test]
fn get() {
    let tree = TOML::parse(
        r#"
        qux = 69

        [foo]
        bar = 42
    "#,
    )
    .unwrap();

    assert_eq!(tree.get("qux", Kind::Integer), Some(&Item::Integer(69)));
    assert_eq!(tree.get("foo.bar", Kind::Integer), Some(&Item::Integer(42)));
    assert_eq!(tree.get("foo.qux", Kind::Integer), Some(&Item::Integer(69)));
}

#[test]
fn set() {
    let mut tree = TOML::parse(
        r#"
        qux = 69

        [foo]
        bar = 42
    "#,
    )
    .unwrap();

    tree.set("qux", Item::Integer(42)).unwrap();
    assert_eq!(tree.get("qux", Kind::Integer), Some(&Item::Integer(42)));

    tree.set("foo.bar", Item::Integer(69)).unwrap();
    assert_eq!(tree.get("foo.bar", Kind::Integer), Some(&Item::Integer(69)));

    tree.set("foo.bar.baz", Item::Integer(42)).unwrap();
    assert_eq!(tree.get("foo.bar.baz", Kind::Integer), Some(&Item::Integer(42)));
}

#[test]
fn fallback_from_descendants() {
    let tree = TOML::parse(
        r#"
        answer = 7

        [a.b.c]
        x = 1
    "#,
    )
    .unwrap();

    let nested = tree.branch("a.b.c").unwrap();
    assert_eq!(nested.get("answer", Kind::Integer), Some(&Item::Integer(7)));
    assert_eq!(nested.get("x", Kind::Integer), Some(&Item::Integer(1)));
}

#[test]
fn shadowing() {
    let tree = TOML::parse(
        r#"
        k = 1

        [s]
        k = 2

        [s.d]
        k = 3
    "#,
    )
    .unwrap();

    assert_eq!(tree.get("k", Kind::Integer), Some(&Item::Integer(1)));
    let s = tree.branch("s").unwrap();
    assert_eq!(s.get("k", Kind::Integer), Some(&Item::Integer(2)));
    let d = tree.branch("s.d").unwrap();
    assert_eq!(d.get("k", Kind::Integer), Some(&Item::Integer(3)));
}

#[test]
fn sibling_isolation() {
    let tree = TOML::parse(
        r#"
        [s.a]
        x = 1

        [s.b]
        y = 2
    "#,
    )
    .unwrap();

    let b = tree.branch("s.b").unwrap();
    assert_eq!(b.get("x", Kind::Integer), None);
    assert_eq!(b.get("y", Kind::Integer), Some(&Item::Integer(2)));
}

#[test]
fn type_mismatch_falls_back() {
    let tree = TOML::parse(
        r#"
        bar = 42

        [foo]
        bar = "words"
    "#,
    )
    .unwrap();

    let foo = tree.branch("foo").unwrap();
    assert_eq!(foo.get("bar", Kind::Text), Some(&Item::Text("words".to_string())));
    assert_eq!(foo.get("bar", Kind::Integer), Some(&Item::Integer(42)));
}

#[test]
fn root_and_nested_scenario() {
    let tree = TOML::parse(
        r#"
        qux = 69

        [foo]
        bar = 42
    "#,
    )
    .unwrap();

    assert_eq!(tree.get("qux", Kind::Integer), Some(&Item::Integer(69)));
    let foo = tree.branch("foo").unwrap();
    assert_eq!(foo.get("bar", Kind::Integer), Some(&Item::Integer(42)));
    assert_eq!(foo.get("qux", Kind::Integer), Some(&Item::Integer(69)));
}

#[test]
fn empty_sequence_yields_empty_forest() {
    let tree = TOML::parse("foo = []").unwrap();
    let views = tree.forest("foo").unwrap();
    assert!(views.is_empty());
}

#[test]
fn forest_of_missing_path() {
    let tree = TOML::parse("foo = 1").unwrap();
    assert!(tree.forest("foo").is_none());
    assert!(tree.forest("bar").is_none());
}

#[test]
fn branch_of_missing_path() {
    let tree = TOML::parse("foo = 1").unwrap();
    assert!(tree.branch("foo").is_none());
    assert!(tree.branch("bar").is_none());
}

#[test]
fn branch_does_not_fall_back() {
    let tree = TOML::parse(
        r#"
        [shared]
        x = 1

        [s]
        y = 2
    "#,
    )
    .unwrap();

    let s = tree.branch("s").unwrap();
    assert!(s.branch("shared").is_none());
}

#[test]
fn sequence_index_edges() {
    let tree = TOML::parse(
        r#"
        [[foo.bar]]
        baz = 42
    "#,
    )
    .unwrap();

    assert_eq!(tree.get("foo.bar.0.baz", Kind::Integer), Some(&Item::Integer(42)));
    assert_eq!(tree.get("foo.bar.1.baz", Kind::Integer), None);
    assert_eq!(tree.get("foo.bar.x.baz", Kind::Integer), None);
    assert_eq!(tree.get("foo.bar.18446744073709551616.baz", Kind::Integer), None);
}

#[test]
fn set_fails_while_shared() {
    let mut tree = TOML::parse(
        r#"
        [foo]
        bar = 42
    "#,
    )
    .unwrap();

    let view = tree.branch("foo").unwrap();
    assert_eq!(tree.set("qux", Item::Integer(1)), None);
    assert_eq!(tree.get("qux", Kind::Integer), None);

    drop(view);
    assert_eq!(tree.set("qux", Item::Integer(1)), Some(()));
    assert_eq!(tree.get("qux", Kind::Integer), Some(&Item::Integer(1)));
}

#[test]
fn node_level_storage() {
    let mut node = Node::new();
    node.set("a.b", Item::Integer(3)).unwrap();
    assert_eq!(node.get("a.b", Kind::Integer), Some(&Item::Integer(3)));
    assert!(node.get("a", Kind::Node).is_some());
    assert_eq!(node.get("a", Kind::Integer), None);
    assert_eq!(node.get("a.b.c", Kind::Integer), None);

    let tree = Tree::new(node);
    assert_eq!(tree.get("a.b", Kind::Integer), Some(&Item::Integer(3)));
    let a = tree.branch("a").unwrap();
    assert_eq!(a.get("b", Kind::Integer), Some(&Item::Integer(3)));
}

#[test]
fn set_overwrites_scalar_with_scope() {
    let mut tree = TOML::parse("foo = 1").unwrap();
    tree.set("foo.bar", Item::Integer(2)).unwrap();
    assert_eq!(tree.get("foo.bar", Kind::Integer), Some(&Item::Integer(2)));
    assert_eq!(tree.get("foo", Kind::Integer), None);
}
