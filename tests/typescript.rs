use srgn::typescript::{CustomTypeScriptQuery, PremadeTypeScriptQuery};

#[test]
fn premade_queries_compile() {
    assert!(PremadeTypeScriptQuery::Comments.query().is_ok());
    assert!(PremadeTypeScriptQuery::Strings.query().is_ok());
    assert_eq!(PremadeTypeScriptQuery::Comments.source(), "(comment) @comment");
}

#[test]
fn custom_query_accepts_valid_source() {
    let q = CustomTypeScriptQuery::new("(comment) @c").unwrap();
    assert_eq!(q.source(), "(comment) @c");
    assert!(q.query().is_ok());
    let parsed: CustomTypeScriptQuery = "(string) @s".parse().unwrap();
    assert_eq!(parsed.source(), "(string) @s");
}

#[test]
fn custom_query_rejects_invalid_source() {
    assert!(CustomTypeScriptQuery::new("(((").is_err());
    assert!(CustomTypeScriptQuery::new("(no_such_node) @x").is_err());
    assert!(CustomTypeScriptQuery::new("(zzz").is_err());
    assert!(CustomTypeScriptQuery::new("(comment) @c (zzz").is_err());
    assert!("(zzz".parse::<CustomTypeScriptQuery>().is_err());
}
