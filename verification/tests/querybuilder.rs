use planetscale_driver::{query, QueryBuilder};

#[test]
pub fn simple_query() {
    let query = QueryBuilder::new("SELECT * FROM test");

    assert_eq!(query.generate_query(), "SELECT * FROM test");
}

#[test]
pub fn query_simple_bind() {
    let query = QueryBuilder::new("SELECT * FROM test WHERE id = $0").bind(&69.to_string());

    assert_eq!(query.generate_query(), "SELECT * FROM test WHERE id = 69");
}

#[test]
pub fn query_more_advanced_bind() {
    let query = QueryBuilder::new(
        "SELECT *, (SELECT COUNT(*) FROM test2 WHERE other_id = $0) FROM test WHERE id = $0",
    )
    .bind(&69.to_string());

    assert_eq!(
        query.generate_query(),
        "SELECT *, (SELECT COUNT(*) FROM test2 WHERE other_id = 69) FROM test WHERE id = 69"
    );
}

#[test]
pub fn query_sql_injection_bind() {
    let query = QueryBuilder::new("SELECT * FROM test WHERE text = \"$0\"")
        .bind("dsa\"; DROP DATABASE; --");

    assert_eq!(
        query.generate_query(),
        "SELECT * FROM test WHERE text = \"dsa\\\"; DROP DATABASE; --\""
    );
}

fn std_sanitize(v: &str) -> String {
    v.replace("\\", "\\\\").replace("'", "''").replace("\"", "\\\"").replace("`", "\\`")
}

fn std_generate(template: &str, values: &[String]) -> String {
    let mut q = template.to_string();
    for (i, v) in values.iter().enumerate() {
        q = q.replace(&format!("${}", i), v);
    }
    q
}

/// One pass over the template from the left: where the placeholder of some
/// bound value starts, the value of the smallest such index goes in and the
/// placeholder is skipped; text that comes from a value is never read again.
fn single_pass_generate(template: &str, values: &[String]) -> String {
    let mut out = String::new();
    let mut rest = template;
    while let Some(c) = rest.chars().next() {
        let hit = (0..values.len()).find(|i| rest.starts_with(&format!("${}", i)));
        match hit {
            Some(i) => {
                out.push_str(&values[i]);
                rest = &rest[format!("${}", i).len()..];
            }
            None => {
                out.push(c);
                rest = &rest[c.len_utf8()..];
            }
        }
    }
    out
}

#[test]
fn query_wrapper_matches_new() {
    assert_eq!(query("SELECT $0").bind("1").generate_query(), "SELECT 1");
}

#[test]
fn bind_escapes_all_three_quotes() {
    let q = QueryBuilder::new("$0").bind("it's a \"test\" with `ticks`");
    assert_eq!(q.generate_query(), "it''s a \\\"test\\\" with \\`ticks\\`");
}

#[test]
fn template_without_placeholder_is_unchanged() {
    let q = QueryBuilder::new("SELECT 1").bind("x").bind("y");
    assert_eq!(q.generate_query(), "SELECT 1");
}

#[test]
fn placeholder_one_is_prefix_of_ten() {
    let mut q = QueryBuilder::new("$1 $10");
    for i in 0..11 {
        q = q.bind(&format!("v{}", i));
    }
    // `$1` is the smallest index whose placeholder starts at `$10`.
    assert_eq!(q.generate_query(), "v1 v10");
    let values: Vec<String> = (0..11).map(|i| format!("v{}", i)).collect();
    assert_eq!(q.generate_query(), std_generate("$1 $10", &values));
}

#[test]
fn value_holding_later_placeholder_is_kept() {
    let q = QueryBuilder::new("$0 $1").bind("$1").bind("x");
    assert_eq!(q.generate_query(), "$1 x");
}

#[test]
fn value_holding_own_placeholder_is_kept() {
    let q = QueryBuilder::new("a$0b").bind("$0$0");
    assert_eq!(q.generate_query(), "a$0$0b");
}

#[test]
fn no_values_leaves_template_unchanged() {
    let q = QueryBuilder::new("SELECT $0, $1");
    assert_eq!(q.generate_query(), "SELECT $0, $1");
}

#[test]
fn unbound_placeholder_is_kept() {
    let q = QueryBuilder::new("$0 $1 $2").bind("a");
    assert_eq!(q.generate_query(), "a $1 $2");
}

#[test]
fn generate_agrees_with_single_pass() {
    let templates = [
        "",
        "$",
        "$$0",
        "SELECT $0, $1, '$2' FROM t WHERE a = \"$0\"",
        "$0$0$0",
        "héllo $1 wörld $0 $11",
        "$10$1$0",
    ];
    let raw_values = ["a", "it's", "\"q\"", "`b`", "$0", "", "ünï", "x'y\"z`w", "9", "$1"];
    for t in templates.iter() {
        for n in 0..raw_values.len() {
            let mut q = QueryBuilder::new(t);
            let mut expected_values = Vec::new();
            for v in raw_values.iter().take(n) {
                q = q.bind(v);
                expected_values.push(std_sanitize(v));
            }
            assert_eq!(q.generate_query(), single_pass_generate(t, &expected_values));
            if !expected_values.iter().any(|v| v.contains('$')) {
                assert_eq!(q.generate_query(), std_generate(t, &expected_values));
            }
        }
    }
}

#[test]
fn backslash_in_value_cannot_close_literal() {
    let q = QueryBuilder::new(r#"SELECT "$0""#).bind(r#"a\"; DROP DATABASE; --"#);
    assert_eq!(q.generate_query(), r#"SELECT "a\\\"; DROP DATABASE; --""#);
    let q = QueryBuilder::new("SELECT '$0'").bind("x\\");
    assert_eq!(q.generate_query(), "SELECT 'x\\\\'");
}
