use mcvm::classpath::{Classpath, CLASSPATH_SEP};

#[test]
fn test_classpath() {
    let mut classpath = Classpath::new();
    assert_eq!(classpath.get_str(), String::new());
    classpath.add("foo");
    assert_eq!(classpath.get_str(), "foo".to_string());
    classpath.add("bar");
    assert_eq!(
        classpath.get_str(),
        "foo".to_string() + &CLASSPATH_SEP.to_string() + "bar"
    );
}

#[test]
fn test_classpath_extension() {
    let mut classpath = Classpath::new();
    classpath.add("foo");
    classpath.add("bar");
    classpath.add("baz");
    let mut classpath2 = Classpath::new();
    classpath2.add("hello");
    classpath2.add("world");
    classpath.extend(classpath2);
    assert_eq!(
        classpath.get_str(),
        format!("foo{0}bar{0}baz{0}hello{0}world", CLASSPATH_SEP)
    );
}

#[test]
fn classpath_separator_not_doubled() {
    let mut classpath = Classpath::new();
    classpath.add("foo");
    classpath.add_sep();
    classpath.add("bar");
    assert_eq!(classpath.get_str(), "foo:bar");
}

#[test]
fn classpath_entries_split_at_separator() {
    let mut classpath = Classpath::new();
    classpath.add("a");
    classpath.add("b/c.jar");
    assert_eq!(classpath.get_entries(), vec!["a".to_string(), "b/c.jar".to_string()]);
    assert_eq!(classpath.get_paths().len(), 2);
    assert_eq!(Classpath::new().get_entries(), vec![String::new()]);
}

#[test]
fn classpath_add_path() {
    let mut classpath = Classpath::new();
    classpath.add("a");
    assert!(classpath.add_path(std::path::Path::new("lib/x.jar")).is_ok());
    assert_eq!(classpath.get_str(), "a:lib/x.jar");
    assert_eq!(classpath.get_paths()[1], std::path::PathBuf::from("lib/x.jar"));
}

#[test]
fn classpath_add_path_text() {
    let mut classpath = Classpath::new();
    classpath.add("a");
    assert_eq!(classpath.add_path_text(None), Err(mcvm::classpath::ClasspathError::NotUnicode));
    assert_eq!(classpath.get_str(), "a");
    assert!(classpath.add_path_text(Some("b")).is_ok());
    assert_eq!(classpath.get_str(), "a:b");
}
