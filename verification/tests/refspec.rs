use radfetch::path::{PathError, RefPath};
use radfetch::refspec::Refspec;

fn side(text: &str) -> RefPath {
    RefPath::parse(text).unwrap()
}

#[test]
fn a_directive_is_remote_colon_local() {
    let spec = Refspec::new(side("refs/local"), side("refs/remote"), false).unwrap();
    assert_eq!(spec.as_refspec(), "refs/remote:refs/local");
    assert_eq!(spec.local(), &side("refs/local"));
    assert_eq!(spec.remote(), &side("refs/remote"));
    assert!(!spec.force());
}

#[test]
fn a_forced_directive_begins_with_a_plus() {
    let spec = Refspec::new(side("a/*"), side("b/*"), true).unwrap();
    assert_eq!(spec.as_refspec(), "+b/*:a/*");
    assert!(spec.force());
}

#[test]
fn sides_are_both_patterns_or_both_paths() {
    assert_eq!(
        Refspec::new(side("a/*"), side("b"), false).unwrap_err(),
        PathError::MixedPattern
    );
    assert_eq!(
        Refspec::new(side("a"), side("b/*"), true).unwrap_err(),
        PathError::MixedPattern
    );
    assert!(Refspec::new(side("a"), side("b"), true).is_ok());
    assert!(Refspec::new(side("*"), side("b/*"), true).is_ok());
}

#[test]
fn a_written_directive_reads_back() {
    for (local, remote, force) in [
        ("refs/heads/main", "refs/remotes/x/refs/heads/main", false),
        ("refs/heads/main", "refs/remotes/x/refs/heads/main", true),
        ("a/*", "b/c/*", false),
        ("*", "*", true),
        ("lo:cal", "remote", false),
        ("local", "+remote", true),
        ("+local", "remote", false),
    ] {
        let spec = Refspec::new(side(local), side(remote), force).unwrap();
        let read = Refspec::parse(&spec.as_refspec()).unwrap();
        assert_eq!(read, spec);
        assert_eq!(read.force(), force);
        assert_eq!(read.local().to_string(), local);
        assert_eq!(read.remote().to_string(), remote);
        assert_eq!(read.clone(), spec);
    }
}

#[test]
fn a_colon_or_a_plus_in_the_remote_side_does_not_read_back() {
    let colon = Refspec::new(side("local"), side("re:mote"), false).unwrap();
    assert_eq!(colon.as_refspec(), "re:mote:local");
    let read = Refspec::parse(&colon.as_refspec()).unwrap();
    assert_ne!(read, colon);
    assert_eq!(read.remote().to_string(), "re");
    assert_eq!(read.local().to_string(), "mote:local");

    let plus = Refspec::new(side("local"), side("+remote"), false).unwrap();
    let read = Refspec::parse(&plus.as_refspec()).unwrap();
    assert!(read.force());
    assert_eq!(read.remote().to_string(), "remote");
}

#[test]
fn what_is_no_directive_does_not_read() {
    for text in ["", "+", ":", "a", "+a", "a:", ":a", "a/:b", "a:b/", "a//b:c", "+:a", "a:../b"] {
        assert_eq!(
            Refspec::parse(text).unwrap_err(),
            PathError::InvalidPath,
            "{}",
            text
        );
    }
    for text in ["a/*:b", "a:b/*", "+*:b"] {
        assert_eq!(
            Refspec::parse(text).unwrap_err(),
            PathError::MixedPattern,
            "{}",
            text
        );
    }
}

#[test]
fn the_first_colon_parts_the_sides() {
    let spec = Refspec::parse("+a:b:c").unwrap();
    assert!(spec.force());
    assert_eq!(spec.remote().to_string(), "a");
    assert_eq!(spec.local().to_string(), "b:c");
    let spec = Refspec::parse("++a:b").unwrap();
    assert!(spec.force());
    assert_eq!(spec.remote().to_string(), "+a");
}
