use filen_cli::path::RemotePath;

#[test]
fn test_remote_path_navigate() {
    let path = RemotePath::new("/root/dir");
    assert_eq!(path.navigate("subdir").0, "/root/dir/subdir");
    assert_eq!(path.navigate("..").0, "/root");
    assert_eq!(path.navigate("../..").0, "/");
    assert_eq!(path.navigate("./file.txt").0, "/root/dir/file.txt");
    assert_eq!(path.navigate("./../notthedir/.././adir").0, "/root/adir"); // complex
    assert_eq!(path.navigate("../../..").0, "/"); // root has no parent
}

#[test]
fn new_adds_exactly_one_leading_slash() {
    assert_eq!(RemotePath::new("").0, "/");
    assert_eq!(RemotePath::new("a/b").0, "/a/b");
    assert_eq!(RemotePath::new("///a").0, "/a");
}

#[test]
fn navigate_absolute_replaces() {
    let path = RemotePath::new("/root/dir");
    assert_eq!(path.navigate("/other").0, "/other");
    assert_eq!(path.navigate("//other/x").0, "/other/x");
}

#[test]
fn navigate_relative_appends() {
    let path = RemotePath::new("/root/dir");
    assert_eq!(path.navigate("subdir").0, "/root/dir/subdir");
    assert_eq!(path.navigate("a//b/").0, "/root/dir/a/b");
    assert_eq!(path.navigate("").0, "/root/dir");
    assert_eq!(path.navigate(".").0, "/root/dir");
}

#[test]
fn navigate_parent() {
    let path = RemotePath::new("/root/dir");
    assert_eq!(path.navigate("..").0, "/root");
}

#[test]
fn navigate_compound() {
    let path = RemotePath::new("/root/dir");
    assert_eq!(path.navigate("./../notthedir/.././adir").0, "/root/adir");
}

#[test]
fn navigate_above_root_is_root() {
    let path = RemotePath::new("/root/dir");
    assert_eq!(path.navigate("../../..").0, "/");
    assert_eq!(path.navigate("../../../../x").0, "/x");
    let root = RemotePath::new("/");
    assert_eq!(root.navigate("..").0, "/");
    assert_eq!(root.navigate("x").0, "/x");
}

#[test]
fn to_string_gives_the_path() {
    let path = RemotePath::new("root").navigate("dir");
    assert_eq!(path.to_string(), "/root/dir");
}
