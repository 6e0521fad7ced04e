use kdx::labels::LabelMap;
use kdx::selector::LabelSelector;

fn create_test_labels() -> LabelMap {
    let mut labels = LabelMap::new();
    labels.insert("app".to_string(), "web".to_string());
    labels.insert("tier".to_string(), "frontend".to_string());
    labels.insert("version".to_string(), "v1.0.0".to_string());
    labels.insert("environment".to_string(), "production".to_string());
    labels
}

#[test]
fn test_label_selector_equals() {
    let selector = LabelSelector::parse("app=web").unwrap();
    let labels = create_test_labels();

    assert!(selector.matches(&labels));

    let mut wrong_labels = labels.clone();
    wrong_labels.insert("app".to_string(), "api".to_string());
    assert!(!selector.matches(&wrong_labels));
}

#[test]
fn test_label_selector_not_equals() {
    let selector = LabelSelector::parse("tier!=backend").unwrap();
    let labels = create_test_labels();

    assert!(selector.matches(&labels)); // tier=frontend, not backend

    let mut backend_labels = labels.clone();
    backend_labels.insert("tier".to_string(), "backend".to_string());
    assert!(!selector.matches(&backend_labels));
}

#[test]
fn test_label_selector_in() {
    let selector = LabelSelector::parse("environment in (production,staging)").unwrap();
    let labels = create_test_labels();

    assert!(selector.matches(&labels)); // environment=production

    let mut staging_labels = labels.clone();
    staging_labels.insert("environment".to_string(), "staging".to_string());
    assert!(selector.matches(&staging_labels));

    let mut dev_labels = labels.clone();
    dev_labels.insert("environment".to_string(), "development".to_string());
    assert!(!selector.matches(&dev_labels));
}

#[test]
fn test_label_selector_not_in() {
    let selector = LabelSelector::parse("tier notin (backend,database)").unwrap();
    let labels = create_test_labels();

    assert!(selector.matches(&labels)); // tier=frontend

    let mut backend_labels = labels.clone();
    backend_labels.insert("tier".to_string(), "backend".to_string());
    assert!(!selector.matches(&backend_labels));
}

#[test]
fn test_label_selector_exists() {
    let selector = LabelSelector::parse("app").unwrap();
    let labels = create_test_labels();

    assert!(selector.matches(&labels));

    let mut no_app_labels = labels.clone();
    no_app_labels.remove("app");
    assert!(!selector.matches(&no_app_labels));
}

#[test]
fn test_label_selector_not_exists() {
    let selector = LabelSelector::parse("!database").unwrap();
    let labels = create_test_labels();

    assert!(selector.matches(&labels)); // no database label

    let mut with_database = labels.clone();
    with_database.insert("database".to_string(), "mysql".to_string());
    assert!(!selector.matches(&with_database));
}

#[test]
fn test_label_selector_multiple_expressions() {
    let selector =
        LabelSelector::parse("app=web,tier=frontend,environment in (production,staging)").unwrap();
    let labels = create_test_labels();

    assert!(selector.matches(&labels));

    let mut wrong_app = labels.clone();
    wrong_app.insert("app".to_string(), "api".to_string());
    assert!(!selector.matches(&wrong_app));
}

#[test]
fn test_label_selector_parse_errors() {
    assert!(LabelSelector::parse("app=").is_err());
    assert!(LabelSelector::parse("=web").is_err());
    assert!(LabelSelector::parse("app in web").is_err()); // missing parentheses
    assert!(LabelSelector::parse("app in ()").is_err()); // empty values
}

#[test]
fn test_label_selector_unbalanced_parens() {
    assert!(LabelSelector::parse("app in (a,b").is_err());
    assert!(LabelSelector::parse("app in a,b)").is_err());
}

#[test]
fn test_label_selector_not_exists_empty_labels() {
    let selector = LabelSelector::parse("!database").unwrap();
    let empty = LabelMap::new();
    assert!(selector.matches(&empty));

    let mut with_database = LabelMap::new();
    with_database.insert("database".to_string(), "mysql".to_string());
    assert!(!selector.matches(&with_database));
}

#[test]
fn test_label_selector_empty_string_matches_everything() {
    let selector = LabelSelector::parse("").unwrap();
    assert!(selector.matches(&LabelMap::new()));
    assert!(selector.matches(&create_test_labels()));

    let spaces = LabelSelector::parse("   ").unwrap();
    assert!(spaces.matches(&LabelMap::new()));
}

#[test]
fn test_label_selector_repeated_evaluation_is_stable() {
    let labels = create_test_labels();
    let selector = LabelSelector::parse("app=web,environment in (production,staging)").unwrap();
    let first = selector.matches(&labels);
    for _ in 0..5 {
        assert_eq!(selector.matches(&labels), first);
    }
    let reparsed = LabelSelector::parse("app=web,environment in (production,staging)").unwrap();
    assert_eq!(reparsed.matches(&labels), first);
}

#[test]
fn test_label_selector_equals_cases() {
    let mut labels = LabelMap::new();
    labels.insert("app".to_string(), "web".to_string());
    assert!(LabelSelector::parse("app=web").unwrap().matches(&labels));

    let mut other = LabelMap::new();
    other.insert("app".to_string(), "api".to_string());
    assert!(!LabelSelector::parse("app=web").unwrap().matches(&other));
}

#[test]
fn test_label_selector_not_equals_absent_key() {
    let selector = LabelSelector::parse("tier!=backend").unwrap();
    let empty = LabelMap::new();
    // NotEquals treats absence as satisfying
    assert!(selector.matches(&empty));
}

#[test]
fn test_label_selector_in_cases() {
    let selector = LabelSelector::parse("env in (prod,staging)").unwrap();
    let mut staging = LabelMap::new();
    staging.insert("env".to_string(), "staging".to_string());
    assert!(selector.matches(&staging));

    let mut dev = LabelMap::new();
    dev.insert("env".to_string(), "dev".to_string());
    assert!(!selector.matches(&dev));
}

#[test]
fn test_label_selector_whitespace_tolerance() {
    let selector = LabelSelector::parse("  app = web , tier != backend ").unwrap();
    let mut labels = LabelMap::new();
    labels.insert("app".to_string(), "web".to_string());
    labels.insert("tier".to_string(), "frontend".to_string());
    assert!(selector.matches(&labels));
}
