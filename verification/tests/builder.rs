use toml::{Table, Value, ValueBuilder, Visitor};

fn text_at<'a>(root: &'a Value, path: &str) -> Option<&'a str> {
    root.lookup(path).and_then(|v| v.get_str()).map(|s| s.as_str())
}

fn int_at(root: &Value, path: &str) -> Option<i64> {
    root.lookup(path).and_then(|v| v.get_int())
}

fn finish(b: ValueBuilder) -> Value {
    Value::Table(b.into_root())
}

fn path(segments: &[&str]) -> Vec<String> {
    segments.iter().map(|s| s.to_string()).collect()
}

#[test]
fn new_builder_has_an_empty_root() {
    let b = ValueBuilder::new();
    assert_eq!(b.get_root().len(), 0);
}

#[test]
fn pair_before_any_section_goes_to_the_root() {
    let mut b = ValueBuilder::new();
    assert!(b.pair("a".to_string(), Value::Unsigned(1)));
    assert!(matches!(b.get_root().get("a"), Some(Value::Unsigned(1))));
}

#[test]
fn pair_goes_to_the_section_opened_last() {
    let mut b = ValueBuilder::new();
    assert!(b.section("s".to_string(), false));
    assert!(b.pair("a".to_string(), Value::Unsigned(1)));
    assert!(b.section("t".to_string(), false));
    assert!(b.pair("a".to_string(), Value::Unsigned(2)));
    let root = finish(b);
    assert_eq!(int_at(&root, "s.a"), Some(1));
    assert_eq!(int_at(&root, "t.a"), Some(2));
    assert!(root.lookup("a").is_none());
}

#[test]
fn duplicate_key_is_refused_and_the_first_value_stays() {
    let mut b = ValueBuilder::new();
    assert!(b.pair("a".to_string(), Value::Unsigned(1)));
    assert!(!b.pair("a".to_string(), Value::Unsigned(2)));
    assert!(b.pair("b".to_string(), Value::Unsigned(3)));
    let root = finish(b);
    assert_eq!(int_at(&root, "a"), Some(1));
    assert_eq!(int_at(&root, "b"), Some(3));
}

#[test]
fn same_key_may_stand_in_different_tables() {
    let mut b = ValueBuilder::new();
    assert!(b.pair("a".to_string(), Value::Unsigned(1)));
    assert!(b.section("s".to_string(), false));
    assert!(b.pair("a".to_string(), Value::Unsigned(2)));
    let root = finish(b);
    assert_eq!(int_at(&root, "a"), Some(1));
    assert_eq!(int_at(&root, "s.a"), Some(2));
}

#[test]
fn dotted_header_creates_the_tables_on_its_path() {
    let mut b = ValueBuilder::new();
    assert!(b.section("a.b.c".to_string(), false));
    assert!(b.pair("k".to_string(), Value::Unsigned(1)));
    let root = finish(b);
    assert!(root.lookup("a").and_then(|v| v.get_table()).is_some());
    assert!(root.lookup("a.b").and_then(|v| v.get_table()).is_some());
    assert_eq!(root.lookup("a.b.c").and_then(|v| v.get_table()).map(|t| t.len()), Some(1));
    assert_eq!(int_at(&root, "a.b.c.k"), Some(1));
}

#[test]
fn header_goes_on_in_an_existing_table() {
    let mut b = ValueBuilder::new();
    assert!(b.section("a".to_string(), false));
    assert!(b.pair("x".to_string(), Value::Unsigned(1)));
    assert!(b.section("a.b".to_string(), false));
    assert!(b.pair("y".to_string(), Value::Unsigned(2)));
    let root = finish(b);
    assert_eq!(int_at(&root, "a.x"), Some(1));
    assert_eq!(int_at(&root, "a.b.y"), Some(2));
}

#[test]
fn empty_segment_refuses_the_header() {
    let mut b = ValueBuilder::new();
    assert!(!b.section("".to_string(), false));
    assert!(!b.section("a..b".to_string(), false));
    assert!(!b.section(".a".to_string(), false));
    assert!(!b.section("a.".to_string(), true));
    assert_eq!(b.get_root().len(), 0);
}

#[test]
fn refused_header_changes_nothing() {
    let mut b = ValueBuilder::new();
    assert!(b.section("s".to_string(), false));
    assert!(b.pair("a".to_string(), Value::Unsigned(1)));
    assert!(!b.section("s.t.".to_string(), false));
    assert!(b.pair("b".to_string(), Value::Unsigned(2)));
    let root = finish(b);
    assert_eq!(int_at(&root, "s.a"), Some(1));
    assert_eq!(int_at(&root, "s.b"), Some(2));
    assert!(root.lookup("s.t").is_none());
}

#[test]
fn table_header_may_be_opened_again_and_gathers_pairs_in_one_table() {
    let mut b = ValueBuilder::new();
    assert!(b.section("s".to_string(), false));
    assert!(b.pair("a".to_string(), Value::Unsigned(1)));
    assert!(b.section("other".to_string(), false));
    assert!(b.section("s".to_string(), false));
    assert!(b.pair("b".to_string(), Value::Unsigned(2)));
    assert!(!b.pair("a".to_string(), Value::Unsigned(3)));
    let root = finish(b);
    assert_eq!(root.lookup("s").and_then(|v| v.get_table()).map(|t| t.len()), Some(2));
    assert_eq!(int_at(&root, "s.a"), Some(1));
    assert_eq!(int_at(&root, "s.b"), Some(2));
}

#[test]
fn header_of_the_other_kind_is_refused() {
    let mut b = ValueBuilder::new();
    assert!(b.section("s".to_string(), false));
    assert!(!b.section("s".to_string(), true));
    assert!(b.section("t".to_string(), true));
    assert!(!b.section("t".to_string(), false));
    assert!(b.section("t".to_string(), true));
    let root = finish(b);
    assert!(root.lookup("s").and_then(|v| v.get_table()).is_some());
    assert_eq!(root.lookup("t").and_then(|v| v.get_table_array()).map(|v| v.len()), Some(2));
}

#[test]
fn header_at_a_plain_value_is_refused() {
    let mut b = ValueBuilder::new();
    assert!(b.pair("a".to_string(), Value::Unsigned(1)));
    assert!(!b.section("a".to_string(), false));
    assert!(!b.section("a".to_string(), true));
    assert!(matches!(b.get_root().get("a"), Some(Value::Unsigned(1))));
}

#[test]
fn header_through_a_plain_value_puts_a_table_in_its_place() {
    let mut b = ValueBuilder::new();
    assert!(b.pair("a".to_string(), Value::Unsigned(1)));
    assert!(b.section("a.b".to_string(), false));
    assert!(b.pair("k".to_string(), Value::Unsigned(2)));
    let root = finish(b);
    assert!(root.lookup("a").and_then(|v| v.get_table()).is_some());
    assert_eq!(int_at(&root, "a.b.k"), Some(2));
}

#[test]
fn array_of_tables_grows_by_one_table_per_header() {
    let mut b = ValueBuilder::new();
    assert!(b.section("fruit".to_string(), true));
    assert!(b.pair("name".to_string(), Value::String("apple".to_string())));
    assert!(b.section("fruit".to_string(), true));
    assert!(b.pair("name".to_string(), Value::String("banana".to_string())));
    assert!(b.section("fruit".to_string(), true));
    let root = finish(b);
    assert_eq!(root.lookup("fruit").and_then(|v| v.get_table_array()).map(|v| v.len()), Some(3));
    assert_eq!(text_at(&root, "fruit.0.name"), Some("apple"));
    assert_eq!(text_at(&root, "fruit.1.name"), Some("banana"));
    assert_eq!(root.lookup("fruit.2").and_then(|v| v.get_table()).map(|t| t.len()), Some(0));
}

#[test]
fn header_below_an_array_of_tables_goes_to_its_last_table() {
    let mut b = ValueBuilder::new();
    assert!(b.section("fruit".to_string(), true));
    assert!(b.section("fruit.physical".to_string(), false));
    assert!(b.pair("color".to_string(), Value::String("red".to_string())));
    assert!(b.section("fruit".to_string(), true));
    assert!(b.section("fruit.physical".to_string(), false));
    assert!(b.pair("color".to_string(), Value::String("yellow".to_string())));
    assert!(b.section("fruit.variety".to_string(), true));
    assert!(b.pair("name".to_string(), Value::String("plantain".to_string())));
    let root = finish(b);
    assert_eq!(text_at(&root, "fruit.0.physical.color"), Some("red"));
    assert_eq!(text_at(&root, "fruit.1.physical.color"), Some("yellow"));
    assert!(root.lookup("fruit.0.variety").is_none());
    assert_eq!(text_at(&root, "fruit.1.variety.0.name"), Some("plantain"));
}

#[test]
fn recursive_create_tree_opens_a_path_in_a_table() {
    let mut t = Table::new();
    assert!(ValueBuilder::recursive_create_tree(&path(&["a", "b"]), &mut t, true));
    assert!(ValueBuilder::recursive_create_tree(&path(&["a", "b"]), &mut t, true));
    assert!(!ValueBuilder::recursive_create_tree(&path(&["a", "b"]), &mut t, false));
    assert!(!ValueBuilder::recursive_create_tree(&path(&[]), &mut t, false));
    assert!(!ValueBuilder::recursive_create_tree(&path(&["a", ""]), &mut t, false));
    let root = Value::Table(t);
    assert_eq!(root.lookup("a.b").and_then(|v| v.get_table_array()).map(|v| v.len()), Some(2));
}

#[test]
fn recursive_create_tree_refuses_an_array_of_tables_without_a_last_table() {
    let mut t = Table::new();
    t.insert("a".to_string(), Value::TableArray(vec![]));
    assert!(!ValueBuilder::recursive_create_tree(&path(&["a", "b"]), &mut t, false));
    let mut u = Table::new();
    u.insert("a".to_string(), Value::TableArray(vec![Value::Unsigned(1)]));
    assert!(!ValueBuilder::recursive_create_tree(&path(&["a", "b"]), &mut u, false));
}

#[test]
fn insert_value_sets_a_key_at_the_end_of_a_path() {
    let mut t = Table::new();
    assert!(ValueBuilder::recursive_create_tree(&path(&["a", "b"]), &mut t, false));
    assert!(ValueBuilder::insert_value(&path(&["a", "b"]), "k", &mut t, Value::Unsigned(1)));
    assert!(!ValueBuilder::insert_value(&path(&["a", "b"]), "k", &mut t, Value::Unsigned(2)));
    assert!(ValueBuilder::insert_value(&path(&["a"]), "k", &mut t, Value::Unsigned(3)));
    assert!(ValueBuilder::insert_value(&path(&[]), "k", &mut t, Value::Unsigned(4)));
    let root = Value::Table(t);
    assert_eq!(int_at(&root, "a.b.k"), Some(1));
    assert_eq!(int_at(&root, "a.k"), Some(3));
    assert_eq!(int_at(&root, "k"), Some(4));
}

#[test]
fn insert_value_fails_where_the_path_leads_to_no_table() {
    let mut t = Table::new();
    t.insert("v".to_string(), Value::Unsigned(1));
    assert!(!ValueBuilder::insert_value(&path(&["missing"]), "k", &mut t, Value::Unsigned(2)));
    assert!(!ValueBuilder::insert_value(&path(&["v"]), "k", &mut t, Value::Unsigned(2)));
    assert_eq!(t.len(), 1);
    assert!(matches!(t.get("v"), Some(Value::Unsigned(1))));
}
