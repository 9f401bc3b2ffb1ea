use kernel::vfs::KPath;

#[test]
fn kpath_parent_of_nested_and_top_level() {
    assert_eq!(KPath::new("/a/b").parent().unwrap().as_str(), "/a");
    assert_eq!(KPath::new("/a").parent().unwrap().as_str(), "/");
    assert_eq!(KPath::new("/a/b/").parent().unwrap().as_str(), "/a");
    assert!(KPath::new("/").parent().is_none());
    assert!(KPath::new("a").parent().is_none());
    assert!(KPath::new("").parent().is_none());
}

#[test]
fn kpath_name_ignores_trailing_slashes() {
    assert_eq!(KPath::new("/a/b//").name(), "b");
    assert_eq!(KPath::new("abc").name(), "abc");
    assert_eq!(KPath::new("/").name(), "");
    assert_eq!(KPath::new("/x/héllo").name(), "héllo");
}

#[test]
fn kpath_join_relative_and_absolute() {
    assert_eq!(KPath::new("/a").join("b").as_str(), "/a/b");
    assert_eq!(KPath::new("/a/").join("b").as_str(), "/a/b");
    assert_eq!(KPath::new("/a").join("/x").as_str(), "/x");
    assert_eq!(KPath::new("").join("b").as_str(), "/b");
}

#[test]
fn kpath_parent_join_name_rebuilds_path() {
    let p = KPath::new("/usr/local/bin/");
    let parent = p.parent().unwrap();
    assert_eq!(parent.join(p.name()).as_str(), "/usr/local/bin");
}
