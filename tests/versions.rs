use mcvm::versions::{VersionInfo, VersionPattern};

#[test]
fn test_version_pattern() {
    let versions = vec![
        "1.16.5".to_string(),
        "1.17".to_string(),
        "1.18".to_string(),
        "1.19.3".to_string(),
    ];

    assert_eq!(
        VersionPattern::Single("1.19.3".into()).get_match(&versions),
        Some("1.19.3".into())
    );
    assert_eq!(
        VersionPattern::Single("1.18".into()).get_match(&versions),
        Some("1.18".into())
    );
    assert_eq!(
        VersionPattern::Single(String::new()).get_match(&versions),
        None
    );
    assert_eq!(
        VersionPattern::Before("1.18".into()).get_match(&versions),
        Some("1.18".into())
    );
    assert_eq!(
        VersionPattern::After("1.16.5".into()).get_match(&versions),
        Some("1.19.3".into())
    );

    assert_eq!(
        VersionPattern::Before("1.17".into()).get_matches(&versions),
        vec!["1.16.5".to_string(), "1.17".to_string()]
    );
    assert_eq!(
        VersionPattern::After("1.17".into()).get_matches(&versions),
        vec!["1.17".to_string(), "1.18".to_string(), "1.19.3".to_string()]
    );
    assert_eq!(
        VersionPattern::Range("1.16.5".into(), "1.18".into()).get_matches(&versions),
        vec!["1.16.5".to_string(), "1.17".to_string(), "1.18".to_string()]
    );

    assert!(VersionPattern::Before("1.18".into()).matches_single("1.16.5", &versions));
    assert!(VersionPattern::After("1.18".into()).matches_single("1.19.3", &versions));
    assert!(VersionPattern::Latest(None).matches_single("1.19.3", &versions));
}

#[test]
fn test_version_pattern_parse() {
    assert_eq!(
        VersionPattern::from("+1.19.5"),
        VersionPattern::Single("+1.19.5".into())
    );
    assert_eq!(VersionPattern::from("latest"), VersionPattern::Latest(None));
    assert_eq!(
        VersionPattern::from("1.19.5-"),
        VersionPattern::Before("1.19.5".into())
    );
    assert_eq!(
        VersionPattern::from("1.19.5+"),
        VersionPattern::After("1.19.5".into())
    );
    assert_eq!(
        VersionPattern::from("1.17.1..1.19.3"),
        VersionPattern::Range("1.17.1".into(), "1.19.3".into())
    );
}

#[test]
fn test_version_pattern_parse_escape() {
    assert_eq!(
        VersionPattern::from("1.19.5\\+"),
        VersionPattern::Single("1.19.5+".into())
    );
    assert_eq!(
        VersionPattern::from("1.17.1\\..1.19.3"),
        VersionPattern::Single("1.17.1..1.19.3".into())
    );
}

#[test]
fn test_version_pattern_validation() {
    assert!(VersionPattern::validate("hello"));
    assert!(!VersionPattern::validate("latest"));
    assert!(!VersionPattern::validate("foo-"));
    assert!(!VersionPattern::validate("foo+"));
    assert!(!VersionPattern::validate("f*o"));
    assert!(!VersionPattern::validate("f..o"));
}

#[test]
fn version_pattern_any_and_star() {
    let versions = vec!["a".to_string(), "b".to_string()];
    assert_eq!(VersionPattern::from("*"), VersionPattern::Any);
    assert_eq!(VersionPattern::Any.get_matches(&versions), versions);
    assert!(VersionPattern::Any.matches_single("b", &versions));
    assert!(!VersionPattern::Any.matches_single("c", &versions));
}

#[test]
fn version_pattern_crossed_range_is_empty() {
    let versions = vec!["1".to_string(), "2".to_string(), "3".to_string()];
    assert!(VersionPattern::Range("3".into(), "1".into()).get_matches(&versions).is_empty());
    assert!(!VersionPattern::Range("3".into(), "1".into()).matches_single("2", &versions));
    assert!(VersionPattern::Range("1".into(), "3".into()).matches_single("2", &versions));
}

#[test]
fn version_pattern_text_form() {
    assert_eq!(VersionPattern::Before("1.2".into()).to_string(), "1.2-");
    assert_eq!(VersionPattern::After("1.2".into()).to_string(), "1.2+");
    assert_eq!(VersionPattern::Range("1".into(), "2".into()).to_string(), "1..2");
    assert_eq!(VersionPattern::Latest(Some("x".into())).to_string(), "latest");
    assert_eq!(VersionPattern::Any.to_string(), "*");
    assert_eq!(VersionPattern::from("a..b..c"), VersionPattern::Single("a..b..c".into()));
    assert_eq!(VersionPattern::from("-"), VersionPattern::Before(String::new()));
}

#[test]
fn version_pattern_union_and_info() {
    let versions = vec!["1".to_string(), "2".to_string(), "3".to_string()];
    let union = VersionPattern::Before("2".into())
        .match_union(&VersionPattern::Range("1".into(), "3".into()), &versions);
    assert_eq!(union, vec!["1".to_string(), "2".to_string()]);
    let info = VersionInfo { version: "2".into(), versions: versions.clone() };
    assert!(VersionPattern::After("1".into()).matches_info(&info));
    assert!(!VersionPattern::Single("3".into()).matches_info(&info));
    assert_eq!(VersionPattern::Latest(None).get_match(&versions), Some("3".into()));
    assert_eq!(VersionPattern::Latest(None).get_matches(&versions), vec!["3".to_string()]);
    assert!(VersionPattern::Latest(None).get_matches(&[]).is_empty());
    assert_eq!(VersionPattern::Latest(Some("9".into())).get_match(&versions), Some("9".into()));
}
