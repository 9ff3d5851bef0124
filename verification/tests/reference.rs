use radfetch::identity::{Namespace, PeerId, Urn};
use radfetch::path::{PathError, RefLike};
use radfetch::reference::Reference;

fn namespace() -> Namespace {
    Namespace::from(&Urn::from_id("hyyy1y").unwrap())
}

fn peer(name: &str) -> PeerId {
    PeerId::parse(name).unwrap()
}

fn reflike(text: &str) -> RefLike {
    RefLike::parse(text).unwrap()
}

#[test]
fn the_five_categories_in_the_own_section() {
    assert_eq!(
        Reference::rad_id(namespace()).to_string(),
        "refs/namespaces/hyyy1y/refs/rad/id"
    );
    assert_eq!(
        Reference::rad_self(namespace(), None).to_string(),
        "refs/namespaces/hyyy1y/refs/rad/self"
    );
    assert_eq!(
        Reference::rad_ids_glob(namespace()).to_string(),
        "refs/namespaces/hyyy1y/refs/rad/ids/*"
    );
    assert_eq!(
        Reference::rad_signed_refs(namespace(), peer("lolek"))
            .set_remote(None)
            .to_string(),
        "refs/namespaces/hyyy1y/refs/rad/signed_refs"
    );
    assert_eq!(
        Reference::head(namespace(), None, reflike("main")).to_string(),
        "refs/namespaces/hyyy1y/refs/heads/main"
    );
}

#[test]
fn the_five_categories_in_the_section_of_a_peer() {
    let lolek = || Some(peer("lolek"));
    assert_eq!(
        Reference::rad_id(namespace()).set_remote(lolek()).to_string(),
        "refs/namespaces/hyyy1y/refs/remotes/lolek/refs/rad/id"
    );
    assert_eq!(
        Reference::rad_self(namespace(), lolek()).to_string(),
        "refs/namespaces/hyyy1y/refs/remotes/lolek/refs/rad/self"
    );
    assert_eq!(
        Reference::rad_ids_glob(namespace())
            .set_remote(lolek())
            .to_string(),
        "refs/namespaces/hyyy1y/refs/remotes/lolek/refs/rad/ids/*"
    );
    assert_eq!(
        Reference::rad_signed_refs(namespace(), peer("lolek")).to_string(),
        "refs/namespaces/hyyy1y/refs/remotes/lolek/refs/rad/signed_refs"
    );
    assert_eq!(
        Reference::head(namespace(), lolek(), reflike("feature/x")).to_string(),
        "refs/namespaces/hyyy1y/refs/remotes/lolek/refs/heads/feature/x"
    );
}

#[test]
fn set_remote_moves_between_sections() {
    let owned = Reference::head(namespace(), None, reflike("main"));
    let scoped = owned.set_remote(Some(peer("bolek")));
    assert_ne!(owned, scoped);
    assert_eq!(scoped.set_remote(None), owned);
    assert_eq!(
        scoped.set_remote(Some(peer("lolek"))),
        Reference::head(namespace(), Some(peer("lolek")), reflike("main"))
    );
}

#[test]
fn only_the_glob_renders_to_a_pattern() {
    assert!(Reference::rad_ids_glob(namespace()).render().is_pattern());
    assert!(!Reference::rad_id(namespace()).render().is_pattern());
    assert!(!Reference::head(namespace(), None, reflike("main"))
        .render()
        .is_pattern());
}

#[test]
fn a_rendered_reference_reads_back() {
    let references = [
        Reference::rad_id(namespace()),
        Reference::rad_id(namespace()).set_remote(Some(peer("tola"))),
        Reference::rad_self(namespace(), None),
        Reference::rad_self(namespace(), Some(peer("tola"))),
        Reference::rad_ids_glob(namespace()),
        Reference::rad_ids_glob(namespace()).set_remote(Some(peer("tola"))),
        Reference::rad_signed_refs(namespace(), peer("tola")),
        Reference::rad_signed_refs(namespace(), peer("tola")).set_remote(None),
        Reference::head(namespace(), None, reflike("main")),
        Reference::head(namespace(), Some(peer("tola")), reflike("a/b/c")),
        Reference::head(namespace(), None, reflike("refs/remotes/x/refs/rad/id")),
        Reference::head(namespace(), Some(peer("refs")), reflike("refs/heads/refs")),
        Reference::head(namespace(), Some(peer("a:b")), reflike("+/x y")),
    ];
    for reference in references {
        let text = reference.to_string();
        assert_eq!(Reference::parse(&text), Some(reference.clone()), "{}", text);
        assert_eq!(Reference::parse(&text).unwrap().to_string(), text);
    }
}

#[test]
fn what_is_no_reference_does_not_read() {
    for text in [
        "",
        "refs",
        "refs/namespaces/hyyy1y",
        "refs/namespaces/hyyy1y/refs/rad",
        "refs/namespaces/hyyy1y/refs/rad/id/x",
        "refs/namespaces/hyyy1y/refs/rad/ids",
        "refs/namespaces/hyyy1y/refs/rad/ids/x",
        "refs/namespaces/hyyy1y/refs/rad/ids/*/x",
        "refs/namespaces/hyyy1y/refs/heads",
        "refs/namespaces/hyyy1y/refs/heads/",
        "refs/namespaces/hyyy1y/refs/heads/a//b",
        "refs/namespaces/hyyy1y/refs/heads/*",
        "refs/namespaces/hyyy1y/refs/tags/v1",
        "refs/namespaces/hyyy1y/refs/remotes/lolek",
        "refs/namespaces/hyyy1y/refs/remotes/lolek/rad/id",
        "refs/namespaces/hyyy1y/refs/remotes/lolek/heads/main",
        "refs/namespaces/../refs/rad/id",
        "refs/namespace/hyyy1y/refs/rad/id",
        "/refs/namespaces/hyyy1y/refs/rad/id",
        "refs/namespaces/hyyy1y/refs/rad/id/",
        "refs/heads/main",
    ] {
        assert_eq!(Reference::parse(text), None, "{}", text);
    }
}

#[test]
fn a_reference_is_paired_with_one_of_its_kind() {
    let local = Reference::rad_id(namespace()).set_remote(Some(peer("tola")));
    let remote = Reference::rad_id(namespace());
    let spec = local.refspec(&remote, false).unwrap();
    assert_eq!(
        spec.as_refspec(),
        "refs/namespaces/hyyy1y/refs/rad/id:refs/namespaces/hyyy1y/refs/remotes/tola/refs/rad/id"
    );
    let glob = Reference::rad_ids_glob(namespace());
    assert_eq!(
        glob.refspec(&remote, false).unwrap_err(),
        PathError::MixedPattern
    );
    assert_eq!(
        remote.refspec(&glob, true).unwrap_err(),
        PathError::MixedPattern
    );
    assert_eq!(
        glob.set_remote(Some(peer("tola")))
            .refspec(&glob, true)
            .unwrap()
            .as_refspec(),
        "+refs/namespaces/hyyy1y/refs/rad/ids/*:refs/namespaces/hyyy1y/refs/remotes/tola/refs/rad/ids/*"
    );
}

#[test]
fn namespaces_tell_projects_apart() {
    let a = Urn::from_id("hyyy1y").unwrap();
    let b = Urn::from_id("hyyyon").unwrap();
    assert_eq!(Namespace::from(&a), Namespace::from(&a.clone()));
    assert_ne!(Namespace::from(&a), Namespace::from(&b));
    assert_eq!(Namespace::from(&a).to_string(), "hyyy1y");
    assert_eq!(Namespace::from(&a).urn(), &a);
    assert_eq!(Namespace::from(&a).as_path(), &reflike("hyyy1y"));
}

#[test]
fn peers_are_named_by_one_segment() {
    assert_eq!(peer("lolek").to_string(), "lolek");
    assert_eq!(peer("lolek").as_path(), &reflike("lolek"));
    assert_eq!(peer("lolek"), peer("lolek").clone());
    assert_ne!(peer("lolek"), peer("bolek"));
    assert!(peer("bolek").precedes(&peer("lolek")));
    assert!(!peer("lolek").precedes(&peer("bolek")));
    assert!(!peer("lolek").precedes(&peer("lolek")));
    for text in ["", "a/b", "..", "*", "a\u{0}", "/"] {
        assert_eq!(PeerId::parse(text).unwrap_err(), PathError::InvalidPath);
        assert_eq!(Urn::from_id(text).unwrap_err(), PathError::InvalidPath);
    }
    assert!(Urn::from_id("a").unwrap().precedes(&Urn::from_id("b").unwrap()));
}
