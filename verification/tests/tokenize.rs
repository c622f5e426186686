use confparse::parse_line;
use confparse::parse_schema;
use confparse::parse_schema_line;
use confparse::split_by_str;
use confparse::SchemaType;

#[test]
fn line_tokenizer_trims_key_and_value() {
    assert_eq!(parse_line("  key =  value  "), Some(("key", "value")));
    assert_eq!(parse_line("a=b"), Some(("a", "b")));
}

#[test]
fn line_tokenizer_splits_at_first_equals() {
    assert_eq!(parse_line("a = b=c"), Some(("a", "b=c")));
}

#[test]
fn line_tokenizer_drops_lines_without_content() {
    assert_eq!(parse_line(""), None);
    assert_eq!(parse_line("   "), None);
    assert_eq!(parse_line("# comment = 1"), None);
    assert_eq!(parse_line("; comment = 1"), None);
    assert_eq!(parse_line("  # indented"), None);
    assert_eq!(parse_line("noequals"), None);
    assert_eq!(parse_line("= value"), None);
    assert_eq!(parse_line("key ="), None);
}

#[test]
fn schema_tokenizer_trims_key_and_type() {
    assert_eq!(parse_schema_line(" a.b ->  string "), Some(("a.b", "string")));
    assert_eq!(parse_schema_line("k->t"), Some(("k", "t")));
}

#[test]
fn schema_tokenizer_drops_lines_without_content() {
    assert_eq!(parse_schema_line(""), None);
    assert_eq!(parse_schema_line("   "), None);
    assert_eq!(parse_schema_line("no arrow"), None);
    assert_eq!(parse_schema_line("-> string"), None);
    assert_eq!(parse_schema_line("key ->"), None);
}

#[test]
fn schema_lines_have_no_comment_syntax() {
    // Unlike config lines, a leading `#` is part of the schema key.
    assert_eq!(parse_schema_line("# a -> string"), Some(("# a", "string")));
    let table = parse_schema(&vec!["# a -> string".to_string()]).unwrap();
    assert_eq!(table.get("# a"), Some(SchemaType::Str));
    assert_eq!(table.get("a"), None);
}

#[test]
fn schema_redeclaration_last_wins() {
    let lines = vec!["k -> string".to_string(), "k -> bool".to_string()];
    let table = parse_schema(&lines).unwrap();
    assert_eq!(table.get("k"), Some(SchemaType::Bool));
}

#[test]
fn split_by_str_splits_at_first_occurrence() {
    assert_eq!(split_by_str("a->b->c", "->"), Some(("a", "b->c")));
    assert_eq!(split_by_str("->x", "->"), Some(("", "x")));
    assert_eq!(split_by_str("abc", "->"), None);
}
