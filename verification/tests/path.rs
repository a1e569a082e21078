use tiny_os::path::{Path, PathBuf};

#[test]
fn path() {
    let mut path = PathBuf::new();
    assert!(path.is_relative());
    path.push(Path::new("/foo"));
    path.push(Path::new("bar/baz"));
    assert!(!path.is_relative());

    let components = path.as_path().traverse();
    assert_eq!(components, vec!["", "foo", "bar", "baz"]);

    let mut ancestors = path.as_path().ancestors();
    assert_eq!(ancestors.next().unwrap().as_str(), path.as_str());
    assert_eq!(
        ancestors.next().map(|p| p.as_str()),
        path.as_path().parent().map(|p| p.as_str())
    );
    assert_eq!(ancestors.next().unwrap().as_str(), "/foo");
    assert_eq!(ancestors.next().unwrap().as_str(), "");
    assert!(ancestors.next().is_none());

    path.add_extension("txt");
    path.add_extension("gz");
    assert_eq!(path.as_path().extension(), "gz");
    path.clear_extension();
    assert_eq!(path.as_path().extension(), "txt");
    path.set_extension(".rs");
    assert_eq!(path.as_path().extension(), "rs");
    assert_eq!(path.as_path().file_prefix(), "baz");
    path.up();
    assert_eq!(path.as_path().file_prefix(), "bar");

    path.push(Path::new("./baz/../../foo.bar"));
    path.canonicalize();
    assert_eq!(path.as_path().file(), "foo.bar");
    assert_eq!(path.as_path().parent().unwrap().file(), "foo");
}

#[test]
fn push_absolute_replaces() {
    let mut p = PathBuf::from_str_slice("/a/b");
    p.push(Path::new("/c"));
    assert_eq!(p.as_str(), "/c");
    p.push(Path::new("d"));
    assert_eq!(p.as_str(), "/c/d");
}

#[test]
fn up_undoes_push() {
    let mut p = PathBuf::from_str_slice("/usr/lib");
    p.push(Path::new("x"));
    assert_eq!(p.as_str(), "/usr/lib/x");
    p.up();
    assert_eq!(p.as_str(), "/usr/lib");
}

#[test]
fn canonicalize_removes_dots() {
    let mut p = PathBuf::from_str_slice("/a/./b//../c/");
    p.canonicalize();
    assert_eq!(p.as_str(), "/a/c");
}

#[test]
fn strip_prefix_rest() {
    let p = Path::new("/ram/foo/bar.txt");
    assert_eq!(p.strip_prefix(Path::new("/ram")).unwrap().as_str(), "/foo/bar.txt");
    assert!(p.strip_prefix(Path::new("/proc")).is_none());
}

#[test]
fn extension_set_and_clear() {
    let mut p = PathBuf::from_str_slice("/x/file");
    p.set_extension("md");
    assert_eq!(p.as_str(), "/x/filemd");
    p.add_extension("gz");
    assert_eq!(p.as_str(), "/x/filemd.gz");
    p.clear_extension();
    assert_eq!(p.as_str(), "/x/filemd");
}

#[test]
fn canonicalizing_again_changes_nothing() {
    let mut p = PathBuf::from_str_slice("/x/../../y/./z/..//w");
    p.canonicalize();
    assert_eq!(p.as_str(), "/y/w");
    p.canonicalize();
    assert_eq!(p.as_str(), "/y/w");
}

#[test]
fn default_path_is_the_empty_one() {
    let p = PathBuf::default();
    assert_eq!(p.as_str(), "");
    assert_eq!(p.as_str(), PathBuf::new().as_str());
    assert!(p.is_relative());
    assert!(p.as_path().parent().is_none());
}
