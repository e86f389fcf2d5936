use asset360_rules::shacl_ast::{EnforcementLevel, PropertyPath};

#[test]
fn test_property_path_local_name() {
    let path = PropertyPath::iri("https://data.infrabel.be/asset360/ceAssetPrimaryStatus");
    assert_eq!(path.local_name(), Some("ceAssetPrimaryStatus"));

    let path = PropertyPath::iri("http://example.org/schema#name");
    assert_eq!(path.local_name(), Some("name"));

    let path = PropertyPath::sequence(vec![]);
    assert_eq!(path.local_name(), None);
}

#[test]
fn test_enforcement_level_blocking() {
    assert!(EnforcementLevel::Critical.is_blocking());
    assert!(EnforcementLevel::Serious.is_blocking());
    assert!(!EnforcementLevel::Error.is_blocking());
    assert!(!EnforcementLevel::Unlikely.is_blocking());
}

#[test]
fn local_name_of_iri_without_separator_is_none() {
    let path = PropertyPath::iri("plain");
    assert_eq!(path.local_name(), None);
    let inv = PropertyPath::inverse(PropertyPath::iri("http://example.org/a"));
    assert_eq!(inv.local_name(), None);
}

#[test]
fn local_name_prefers_fragment_over_slash() {
    let path = PropertyPath::iri("http://example.org/a/b#c");
    assert_eq!(path.local_name(), Some("c"));
}

#[test]
fn enforcement_level_default_and_names() {
    assert_eq!(EnforcementLevel::default(), EnforcementLevel::Serious);
    assert_eq!(EnforcementLevel::Critical.as_str(), "critical");
    assert_eq!(EnforcementLevel::Unlikely.as_str(), "unlikely");
}
