use erisharness::paths::{equal, join, parent, parts, within};
use erisharness::tools::errors::{code, message, node, text_before, OsError};
use erisharness::tools::resolve;

#[test]
fn resolves_like_node_path_resolve() {
    assert_eq!(resolve("a/b", "/w", "/root"), "/w/a/b");
    assert_eq!(resolve("/x/../y/./z", "/w", "/root"), "/y/z");
    assert_eq!(resolve("../../..", "/w/a", "/root"), "/");
    assert_eq!(resolve("~", "/w", "/root"), "/root");
    assert_eq!(resolve("~/f", "/w", "/root"), "/root/f");
    assert_eq!(resolve("@src/x", "/w", "/root"), "/w/src/x");
    assert_eq!(resolve("a\u{00A0}b", "/w", "/root"), "/w/a b");
    assert_eq!(resolve("file:///etc/x", "/w", "/root"), "/etc/x");
}

#[test]
fn resolved_paths_resolve_to_themselves() {
    for input in ["a/../b//c/.", "~/../x", "@@y", "", "."] {
        let once = resolve(input, "/w/d", "/home/me");
        assert!(once.starts_with('/'));
        assert_eq!(resolve(&once, "/elsewhere", "/nobody"), once);
    }
}

#[test]
fn paths_join_as_in_std() {
    for (dir, path) in [("/a", "b"), ("/a/", "b"), ("", "b"), ("/a", "/b"), ("/a", ""), ("a", "b/c")] {
        assert_eq!(join(dir, path), std::path::Path::new(dir).join(path).to_str().unwrap());
    }
}

#[test]
fn paths_are_equal_as_in_std() {
    let all = ["/a/b", "/a//b", "/a/b/", "/a/./b", "./a", "a", "a/.", "/", "", ".", "a/../b", "/a/c"];
    for a in all {
        for b in all {
            let (left, right) = (std::path::Path::new(a), std::path::Path::new(b));
            assert_eq!(equal(a, b), left == right, "{a:?} {b:?}");
            assert_eq!(within(a, b), left.starts_with(right), "{a:?} {b:?}");
        }
    }
}

#[test]
fn parents_are_those_of_std() {
    for path in ["/a/b", "/a", "/", "a", "a/b/", "", "/a/./b", "./x"] {
        let expected = std::path::Path::new(path).parent();
        let found = parent(path);
        assert_eq!(found.is_some(), expected.is_some(), "{path:?}");
        if let (Some(found), Some(expected)) = (found, expected) {
            assert_eq!(std::path::Path::new(&found), expected, "{path:?}");
        }
    }
    assert_eq!(parts("/a//b/./c"), ["a", "b", "c"]);
}

#[test]
fn filesystem_errors_are_worded_as_models_know_them() {
    let missing = OsError { errno: Some(2), text: "No such file or directory (os error 2)".into() };
    assert_eq!(code(&missing), "ENOENT");
    assert_eq!(node(&missing, "access", "/x"), "ENOENT: no such file or directory, access '/x'");
    assert_eq!(node(&missing, "read", ""), "ENOENT: no such file or directory, read");
    let directory = OsError { errno: Some(21), text: String::new() };
    assert_eq!(node(&directory, "read", ""), "EISDIR: illegal operation on a directory, read");
}

#[test]
fn unknown_errors_keep_their_own_words() {
    let odd = OsError { errno: Some(111), text: "Connection Refused (os error 111)".into() };
    assert_eq!(node(&odd, "open", "/s"), "ECONNREFUSED: connection refused, open '/s'");
    let other = OsError { errno: None, text: "Something ÜBLES".into() };
    assert_eq!(code(&other), "EIO");
    assert_eq!(node(&other, "open", ""), "EIO: something übles, open");
    assert_eq!(text_before("a: b: c", ": "), "a");
    assert_eq!(message("E", "d", "s", "p"), "E: d, s 'p'");
}

#[test]
fn every_known_error_has_its_words() {
    let known = [
        (2, "ENOENT", "no such file or directory"),
        (13, "EACCES", "permission denied"),
        (21, "EISDIR", "illegal operation on a directory"),
        (20, "ENOTDIR", "not a directory"),
        (40, "ELOOP", "too many symbolic links encountered"),
        (36, "ENAMETOOLONG", "name too long"),
        (30, "EROFS", "read-only file system"),
        (28, "ENOSPC", "no space left on device"),
        (1, "EPERM", "operation not permitted"),
        (17, "EEXIST", "file already exists"),
        (16, "EBUSY", "resource busy or locked"),
        (26, "ETXTBSY", "text file is busy"),
        (27, "EFBIG", "file too large"),
        (24, "EMFILE", "too many open files"),
        (5, "EIO", "i/o error"),
    ];
    for (errno, symbol, words) in known {
        let error = OsError { errno: Some(errno), text: "something else".into() };
        assert_eq!(node(&error, "open", "/p"), format!("{symbol}: {words}, open '/p'"));
    }
}
