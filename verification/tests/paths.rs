use file_commander::path::{sort_paths, FsPath};
use std::path::{Path, PathBuf};

fn p(s: &str) -> FsPath {
    FsPath::from_text(s)
}

#[test]
fn text_is_kept_as_given() {
    for s in ["/home/user", "/home//user/", "/home/./user", "./a/b", "", "/"] {
        assert_eq!(p(s).to_text(), s);
    }
}

#[test]
fn equality_goes_by_components() {
    assert!(p(".").same_as(&p("./")));
    assert!(p("/a/b").same_as(&p("/a/b/")));
    assert!(p("/a/b").same_as(&p("/a//b/.")));
    assert!(!p("/a/b").same_as(&p("a/b")));
    assert!(!p("./a").same_as(&p("a")));
    assert!(!p("/a/b").same_as(&p("/a/c")));
}

#[test]
fn parent_drops_the_last_component() {
    assert_eq!(p("/home/user").parent(), Some(p("/home")));
    assert_eq!(p("/home").parent(), Some(p("/")));
    assert_eq!(p("/").parent(), None);
    assert_eq!(p("").parent(), None);
    assert_eq!(p("a").parent(), Some(FsPath::empty()));
    assert_eq!(p("a/..").parent(), Some(p("a")));
    assert_eq!(p("/home/u/").parent(), Some(p("/home")));
}

#[test]
fn file_name_is_the_last_named_component() {
    assert_eq!(p("/home/user/notes.txt").file_name(), Some("notes.txt".to_string()));
    assert_eq!(p("/home/user/").file_name(), Some("user".to_string()));
    assert_eq!(p("/").file_name(), None);
    assert_eq!(p("a/..").file_name(), None);
    assert_eq!(p(".").file_name(), None);
}

#[test]
fn join_appends_or_replaces() {
    assert_eq!(p("/home").join_str("user").to_text(), "/home/user");
    assert_eq!(p("/home/").join_str("user").to_text(), "/home/user");
    assert_eq!(p("/home").join_str("/etc").to_text(), "/etc");
    assert_eq!(p("/home").join_str("./x").to_text(), "/home/./x");
    assert_eq!(p("").join_str("./x").to_text(), "./x");
    assert_eq!(p("/home").join_str("a/b").to_text(), "/home/a/b");
    assert_eq!(p("/home").join_str("").to_text(), "/home/");
    assert_eq!(p("/home").join_str("x/").to_text(), "/home/x/");
    assert_eq!(p("/home").join(&p("New Folder")).to_text(), "/home/New Folder");
}

#[test]
fn join_agrees_with_std() {
    let bases = ["", "/", "/home", "/home/", "a", "./", "a//"];
    let names = ["", "x", "x/", "/etc", "./y", "a/b", ".."];
    for b in bases.iter() {
        for n in names.iter() {
            let expected = Path::new(b).join(n);
            assert_eq!(p(b).join_str(n).to_text(), expected.to_string_lossy(), "{} + {}", b, n);
        }
    }
}

#[test]
fn extension_and_stem_follow_the_last_dot() {
    assert_eq!(p("/Applications/Safari.app").extension(), Some("app".to_string()));
    assert_eq!(p("/Applications/Safari.app").file_stem(), Some("Safari".to_string()));
    assert_eq!(p("/x/archive.tar.gz").extension(), Some("gz".to_string()));
    assert_eq!(p("/x/archive.tar.gz").file_stem(), Some("archive.tar".to_string()));
    assert_eq!(p("/x/.bashrc").extension(), None);
    assert_eq!(p("/x/.bashrc").file_stem(), Some(".bashrc".to_string()));
    assert_eq!(p("/x/README").extension(), None);
    assert_eq!(p("/x/README").file_stem(), Some("README".to_string()));
    assert_eq!(p("/x/trailing.").extension(), Some("".to_string()));
    assert_eq!(p("/").extension(), None);
    assert_eq!(p("/").file_stem(), None);
}

#[test]
fn path_order_matches_std() {
    let samples = [
        "/", "", "a", "/a", "/a/b", "/a-b", "/a/b/c", "/B", "/b", "./a", "../a", "a/..", "/Applications/Safari.app",
        "/System/Applications/Mail.app", "/a.app", "/ä", "/z", "/a//b/",
    ];
    for x in samples.iter() {
        for y in samples.iter() {
            let expected = Path::new(x) < Path::new(y);
            assert_eq!(p(x).less_than(&p(y)), expected, "{} < {}", x, y);
        }
    }
}

#[test]
fn sort_paths_orders_like_std() {
    let names = ["/b/x", "/a-b", "/a/b", "/A", "/a", "/Applications/Zed.app", "/Applications/Calculator.app", "/a/", "/a/b/"];
    let sorted = sort_paths(names.iter().map(|s| p(s)).collect());
    let mut expected: Vec<PathBuf> = names.iter().map(PathBuf::from).collect();
    expected.sort();
    let got: Vec<String> = sorted.iter().map(|q| q.to_text()).collect();
    let want: Vec<String> = expected.iter().map(|q| q.to_string_lossy().to_string()).collect();
    assert_eq!(got, want);
}

#[test]
fn components_agree_with_std() {
    let samples = [
        "/", "", ".", "./", "./a", "a/./b", "//a//b//", "/./a/.", "..", "../..", "a/../b", ".hidden", "a/.b/c.",
        "/home/user/My Documents/x.txt",
    ];
    for s in samples.iter() {
        let std_path = Path::new(s);
        let normal: PathBuf = std_path.components().collect();
        assert!(p(s).same_as(&p(&normal.to_string_lossy())), "{}", s);
        assert_eq!(p(s).file_name(), std_path.file_name().map(|n| n.to_string_lossy().to_string()), "{}", s);
        assert_eq!(
            p(s).parent().map(|q| q.to_text()),
            std_path.parent().map(|q| q.to_string_lossy().to_string()),
            "{}",
            s
        );
    }
}

#[test]
fn child_then_parent_returns() {
    let dir = p("/home/u");
    let child = dir.join_str("docs");
    assert_eq!(child.parent(), Some(dir.clone()));
    assert_eq!(child.file_name(), Some("docs".to_string()));
    assert!(child.parent().unwrap().join_str(&child.file_name().unwrap()).same_as(&child));
}

#[test]
fn paths_are_equal_by_components() {
    assert_eq!(p("/a/b"), p("/a/b/"));
    assert_eq!(p("/a/./b"), p("/a//b"));
    assert_ne!(p("/a/b"), p("/a/c"));
    assert_ne!(p("a/b"), p("/a/b"));
    assert_ne!(p("/a/b").to_text(), p("/a/b/").to_text());
}
