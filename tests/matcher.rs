use mrdm::matcher::{create_regex, ConfigError, Matcher};

fn matcher_for(categories: Vec<&str>) -> Matcher {
    match create_regex(categories) {
        Ok(m) => m,
        Err(_) => panic!("rule did not compile"),
    }
}

#[test]
fn test_regex() {
    let re = matcher_for(vec!["TODO", "FIXME"]);

    let caps = re.match_line("// TODO(6): test").unwrap();
    assert_eq!(caps.category.as_str(), "TODO");
    assert_eq!(caps.title.as_str(), "test");

    let caps = re.match_line("// FIXME(2): test").unwrap();
    assert_eq!(caps.category.as_str(), "FIXME");
    assert_eq!(caps.id.as_deref(), Some("2"));
    assert_eq!(caps.title.as_str(), "test");

    let caps = re
        .match_line(
            r#"
            testing("// TODO: test");"#,
        )
        .is_none();

    assert_eq!(caps, true);
}

#[test]
fn todo_with_id_reports_its_id() {
    let re = matcher_for(vec!["TODO", "FIXME"]);
    let caps = re.match_line("// TODO(6): test").unwrap();
    assert_eq!(caps.id.as_deref(), Some("6"));
    assert_eq!(caps.before.as_str(), "");
}

#[test]
fn annotation_after_code_keeps_prefix() {
    let re = matcher_for(vec!["TODO"]);
    let caps = re.match_line("let x = 1; //   TODO:   tidy up").unwrap();
    assert_eq!(caps.before.as_str(), "let x = 1; ");
    assert_eq!(caps.category.as_str(), "TODO");
    assert_eq!(caps.id, None);
    assert_eq!(caps.title.as_str(), "tidy up");
}

#[test]
fn annotation_after_balanced_string_matches() {
    let re = matcher_for(vec!["TODO"]);
    let caps = re.match_line(r#"print("a"); // TODO: b"#).unwrap();
    assert_eq!(caps.before.as_str(), r#"print("a"); "#);
    assert_eq!(caps.title.as_str(), "b");
}

#[test]
fn unknown_category_does_not_match() {
    let re = matcher_for(vec!["TODO"]);
    assert!(re.match_line("// HACK: later").is_none());
    assert!(re.match_line("TODO: no comment marker").is_none());
}

#[test]
fn rule_text_joins_categories() {
    let re = matcher_for(vec!["TODO", "FIXME"]);
    assert_eq!(
        re.rule_source().as_str(),
        r#"^(?<before>[^"]*("[^"]*"[^"]*)*)//\s*(?<category>TODO|FIXME)(\((?<id>\d+)\))?:\s*(?<title>.*)"#
    );
}

#[test]
fn no_categories_is_a_config_error() {
    assert!(matches!(create_regex(vec![]), Err(ConfigError::NoCategories)));
}

#[test]
fn unbalanced_category_is_an_invalid_rule() {
    match create_regex(vec!["TODO("]) {
        Err(ConfigError::InvalidRule { rule }) => assert!(rule.contains("TODO(")),
        _ => panic!("expected an invalid rule"),
    }
}

#[test]
fn only_empty_categories_is_a_config_error() {
    assert!(matches!(create_regex(vec![""]), Err(ConfigError::NoCategories)));
    assert!(matches!(create_regex(vec!["", ""]), Err(ConfigError::NoCategories)));
    assert!(create_regex(vec!["", "TODO"]).is_ok());
}

#[test]
fn head_runs_through_the_category() {
    let re = matcher_for(vec!["TODO"]);
    let caps = re.match_line("x // TODO(3): y").unwrap();
    assert_eq!(caps.head.as_str(), "x // TODO");
}
