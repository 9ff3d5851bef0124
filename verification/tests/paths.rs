use radfetch::path::{join, PathError, RefLike, RefPath, RefspecPattern};

fn reflike(text: &str) -> RefLike {
    RefLike::parse(text).unwrap()
}

#[test]
fn parse_and_render_a_path() {
    let path = reflike("refs/heads/main");
    assert_eq!(path.to_string(), "refs/heads/main");
    assert_eq!(path.len(), 3);
    assert_eq!(reflike("x").len(), 1);
    assert_eq!(reflike("x").to_string(), "x");
}

#[test]
fn parse_rejects_malformed_text() {
    for text in [
        "", "/", "/a", "a/", "a//b", "a/../b", "..", "a/*", "*", "a\u{7}b", "a/b\n", "\u{7f}",
        "a/\u{85}",
    ] {
        assert_eq!(RefLike::parse(text).unwrap_err(), PathError::InvalidPath);
    }
}

#[test]
fn parse_accepts_what_is_not_excluded() {
    for text in [".", "...", "a..b", "a*", "*a", "a b", "a:b", "+a", "ż/ó/łć", "a/.b/c."] {
        assert_eq!(reflike(text).to_string(), text);
    }
}

#[test]
fn join_appends_segments() {
    let a = reflike("refs/namespaces");
    let b = reflike("x/y");
    assert_eq!(a.join(&b).to_string(), "refs/namespaces/x/y");
    assert_eq!(a.join(&b), reflike("refs/namespaces/x/y"));
    assert_eq!(a.join(&b).len(), 4);
}

#[test]
fn join_is_associative() {
    let a = reflike("a/b");
    let b = reflike("c");
    let c = reflike("d/e/f");
    assert_eq!(a.join(&b).join(&c), a.join(&b.join(&c)));
    assert_eq!(a.join(&b).join(&c).to_string(), "a/b/c/d/e/f");
}

#[test]
fn join_of_texts_fails_on_an_invalid_side() {
    assert_eq!(join("a/b", "c").unwrap().to_string(), "a/b/c");
    assert_eq!(join("a/", "c").unwrap_err(), PathError::InvalidPath);
    assert_eq!(join("a", "").unwrap_err(), PathError::InvalidPath);
    assert_eq!(join("a", "b/*").unwrap_err(), PathError::InvalidPath);
    assert_eq!(join("..", "b").unwrap_err(), PathError::InvalidPath);
}

#[test]
fn patterns_end_in_one_wildcard() {
    let pattern = RefspecPattern::parse("refs/rad/ids/*").unwrap();
    assert_eq!(pattern.to_string(), "refs/rad/ids/*");
    assert_eq!(RefspecPattern::parse("*").unwrap().to_string(), "*");
    assert_eq!(RefspecPattern::any().to_string(), "*");
    assert_eq!(RefspecPattern::any(), RefspecPattern::parse("*").unwrap());
    for text in ["", "a", "a/b", "*/a", "a/*/b", "a/*/*", "a//*", "/*", "a/**", "../*", "a/\u{1}/*"] {
        assert_eq!(
            RefspecPattern::parse(text).unwrap_err(),
            PathError::InvalidPath
        );
    }
}

#[test]
fn a_pattern_is_suffixed_to_a_path() {
    let base = reflike("refs/namespaces/x");
    let suffix = RefspecPattern::parse("refs/rad/ids/*").unwrap();
    let pattern = base.with_pattern_suffix(&suffix);
    assert_eq!(pattern.to_string(), "refs/namespaces/x/refs/rad/ids/*");
    assert_eq!(
        base.with_pattern_suffix(&RefspecPattern::any()).to_string(),
        "refs/namespaces/x/*"
    );
}

#[test]
fn a_side_is_a_path_or_a_pattern() {
    let path = RefPath::parse("a/b").unwrap();
    let pattern = RefPath::parse("a/*").unwrap();
    assert!(!path.is_pattern());
    assert!(pattern.is_pattern());
    assert_eq!(path.to_string(), "a/b");
    assert_eq!(pattern.to_string(), "a/*");
    assert_eq!(path.as_path(), Some(&reflike("a/b")));
    assert_eq!(pattern.as_path(), None);
    assert_ne!(path, pattern);
    assert_eq!(path, RefPath::Path(reflike("a/b")));
    assert_eq!(
        pattern,
        RefPath::Pattern(RefspecPattern::parse("a/*").unwrap())
    );
    assert_eq!(RefPath::parse("a//*").unwrap_err(), PathError::InvalidPath);
    assert_eq!(RefPath::parse("").unwrap_err(), PathError::InvalidPath);
}

#[test]
fn paths_are_ordered_segment_by_segment() {
    let ordered = ["a", "a/b", "a/b/c", "a/c", "a-b", "ab", "b"];
    for (i, low) in ordered.iter().enumerate() {
        for (j, high) in ordered.iter().enumerate() {
            assert_eq!(
                reflike(low).precedes(&reflike(high)),
                i < j,
                "{} before {}",
                low,
                high
            );
        }
    }
}

#[test]
fn clones_are_equal() {
    let path = reflike("refs/heads/main");
    assert_eq!(path.clone(), path);
    let pattern = RefspecPattern::parse("refs/*").unwrap();
    assert_eq!(pattern.clone(), pattern);
    let side = RefPath::Pattern(pattern);
    assert_eq!(side.clone(), side);
}
