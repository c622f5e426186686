use confparse::ConfList;
use confparse::ConfValue;
use confparse::ConfVecValue;

#[test]
fn insert_then_lookup_returns_the_value() {
    let mut tree = ConfList::new();
    tree.add_value(
        "database.host",
        ConfValue::StrValue("localhost".to_string()),
    );
    let database = tree.get("database").unwrap().as_conf().unwrap();
    assert_eq!(
        database.get("host").unwrap().as_str().unwrap(),
        &"localhost".to_string()
    );
}

#[test]
fn deeper_insert_discards_scalar() {
    let mut tree = ConfList::new();
    tree.add_value("a.b", ConfValue::StrValue("x".to_string()));
    tree.add_value("a.b.c", ConfValue::StrValue("y".to_string()));
    let a = tree.get("a").unwrap().as_conf().unwrap();
    let b = a.get("b").unwrap().as_conf().unwrap();
    assert_eq!(b.get("c").unwrap().as_str().unwrap(), &"y".to_string());
    assert!(a.get("b").unwrap().as_str().is_err());
    assert_eq!(
        tree.to_vec(),
        vec![(
            "a".to_string(),
            ConfVecValue::Conf(vec![(
                "b".to_string(),
                ConfVecValue::Conf(vec![(
                    "c".to_string(),
                    ConfVecValue::StrValue("y".to_string())
                )])
            )])
        )]
    );
}

#[test]
fn reinsert_replaces_without_duplicates() {
    let mut tree = ConfList::new();
    tree.add_value("key", ConfValue::StrValue("first".to_string()));
    tree.add_value("key", ConfValue::StrValue("second".to_string()));
    assert_eq!(
        tree.to_vec(),
        vec![(
            "key".to_string(),
            ConfVecValue::StrValue("second".to_string())
        )]
    );
}

#[test]
fn later_scalar_overwrites_table() {
    let mut tree = ConfList::new();
    tree.add_value("a.b", ConfValue::StrValue("x".to_string()));
    tree.add_value("a", ConfValue::StrValue("y".to_string()));
    assert_eq!(
        tree.to_vec(),
        vec![("a".to_string(), ConfVecValue::StrValue("y".to_string()))]
    );
}

#[test]
fn replacement_keeps_insertion_order() {
    let mut tree = ConfList::new();
    tree.add_value("one", ConfValue::StrValue("1".to_string()));
    tree.add_value("two", ConfValue::StrValue("2".to_string()));
    tree.add_value("one", ConfValue::BoolValue(true));
    assert_eq!(
        tree.to_vec(),
        vec![
            ("one".to_string(), ConfVecValue::BoolValue(true)),
            ("two".to_string(), ConfVecValue::StrValue("2".to_string())),
        ]
    );
}

#[test]
fn sibling_keys_survive_nested_insert() {
    let mut tree = ConfList::new();
    tree.add_value("log.file", ConfValue::StrValue("a.log".to_string()));
    tree.add_value("log.level", ConfValue::StrValue("warn".to_string()));
    let log = tree.get("log").unwrap().as_conf().unwrap();
    assert_eq!(
        log.get("file").unwrap().as_str().unwrap(),
        &"a.log".to_string()
    );
    assert_eq!(
        log.get("level").unwrap().as_str().unwrap(),
        &"warn".to_string()
    );
}

#[test]
fn typed_accessors_reject_other_variants() {
    let mut tree = ConfList::new();
    tree.add_value("s", ConfValue::StrValue("text".to_string()));
    tree.add_value("b", ConfValue::BoolValue(false));
    tree.add_value("n", ConfValue::NumberValue("3.5".to_string()));
    let s = tree.get("s").unwrap();
    assert!(s.as_bool().is_err());
    assert!(s.as_number().is_err());
    assert!(s.as_conf().is_err());
    assert_eq!(s.as_str().unwrap(), &"text".to_string());
    let b = tree.get("b").unwrap();
    assert!(!b.as_bool().unwrap());
    assert!(b.as_str().is_err());
    let n = tree.get("n").unwrap();
    assert_eq!(n.as_number().unwrap(), &"3.5".to_string());
    assert!(n.as_str().is_err());
}

#[test]
fn missing_keys_are_absent() {
    let mut tree = ConfList::new();
    tree.add_value("present", ConfValue::BoolValue(true));
    assert!(tree.contains_key("present"));
    assert!(!tree.contains_key("absent"));
    assert!(tree.get("absent").is_none());
}
