use configuration::format::toml::collect_errors;
use configuration::Item;
use configuration::Kind;
use configuration::TOML;

#[test]
fn scalars_come_through() {
    let tree = TOML::parse(
        r#"
        flag = true
        count = -3
        ratio = 1.5
        name = "hello"
        when = 1979-05-27T07:32:00Z
    "#,
    )
    .unwrap();

    assert_eq!(tree.get("flag", Kind::Boolean), Some(&Item::Boolean(true)));
    assert_eq!(tree.get("count", Kind::Integer), Some(&Item::Integer(-3)));
    assert_eq!(tree.get("ratio", Kind::Float), Some(&Item::Float(1.5f64.to_bits())));
    assert_eq!(tree.get("name", Kind::Text), Some(&Item::Text("hello".to_string())));
    assert_eq!(
        tree.get("when", Kind::Datetime),
        Some(&Item::Datetime("1979-05-27T07:32:00Z".to_string())),
    );
}

#[test]
fn type_mismatch_and_absence_agree() {
    let tree = TOML::parse(r#"x = "words""#).unwrap();
    assert_eq!(tree.get("x", Kind::Integer), None);
    assert_eq!(tree.get("y", Kind::Integer), None);
}

#[test]
fn structural_rejection() {
    let error = TOML::parse("foo = [1, 2]").unwrap_err();
    assert_eq!(error.description(), "expected a table");

    let error = TOML::parse(r#"foo = [{ bar = 1 }, 2]"#).unwrap_err();
    assert_eq!(error.description(), "expected a table");
}

#[test]
fn parse_failure_reports_diagnostics() {
    let error = TOML::parse("qux = ").unwrap_err();
    assert!(error.description().starts_with("failed to parse ("));
    assert!(error.description().ends_with(")"));
    assert!(error.description().len() > "failed to parse ()".len());
}

#[test]
fn nested_tables_convert() {
    let tree = TOML::parse(
        r#"
        [outer]
        a = 1

        [outer.inner]
        b = 2
    "#,
    )
    .unwrap();

    assert_eq!(tree.get("outer.inner.b", Kind::Integer), Some(&Item::Integer(2)));
    assert!(tree.branch("outer.inner").is_some());
    assert!(tree.get("outer", Kind::Node).is_some());
}

#[test]
fn joined_diagnostics() {
    assert_eq!(collect_errors(&vec![]), "");
    assert_eq!(collect_errors(&vec!["one".to_string()]), "one");
    assert_eq!(
        collect_errors(&vec!["one".to_string(), "two".to_string(), "three".to_string()]),
        "one, two, three",
    );
}
