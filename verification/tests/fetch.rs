use std::collections::BTreeSet;

use radfetch::collections::{PeerSet, Refs, RemoteHeads, TrackedSigrefs, UrnSet};
use radfetch::fetch::{peek, replicate, signed_refs, Fetchspecs};
use radfetch::identity::{Oid, PeerId, Urn};
use radfetch::path::{RefLike, RefspecPattern};
use radfetch::refspec::Refspec;

fn reflike(text: &str) -> RefLike {
    RefLike::parse(text).unwrap()
}

fn refspec_pattern(text: &str) -> RefspecPattern {
    RefspecPattern::parse(text).unwrap()
}

fn peer(name: &str) -> PeerId {
    PeerId::parse(name).unwrap()
}

fn lolek() -> PeerId {
    peer("lolek")
}

fn bolek() -> PeerId {
    peer("bolek")
}

fn tola() -> PeerId {
    peer("tola")
}

fn project_urn() -> Urn {
    Urn::from_id("hyyy1y").unwrap()
}

fn lolek_urn() -> Urn {
    Urn::from_id("hyyyon").unwrap()
}

fn bolek_urn() -> Urn {
    Urn::from_id("hyyyor").unwrap()
}

fn namespace_of(urn: &Urn) -> RefLike {
    reflike("refs/namespaces").join(urn.as_path())
}

fn rendered(specs: &[Refspec]) -> Vec<String> {
    specs.iter().map(|spec| spec.as_refspec()).collect()
}

#[test]
fn peek_looks_legit() {
    let specs = Fetchspecs::Peek.refspecs(&project_urn(), tola());
    let project = namespace_of(&project_urn());
    let mut expected = Vec::new();
    for (remote, local) in [
        ("refs/rad/id", "refs/remotes/tola/refs/rad/id"),
        ("refs/rad/self", "refs/remotes/tola/refs/rad/self"),
    ] {
        expected.push(format!(
            "{}:{}",
            project.join(&reflike(remote)).to_string(),
            project.join(&reflike(local)).to_string()
        ));
    }
    expected.push(format!(
        "{}:{}",
        project
            .with_pattern_suffix(&refspec_pattern("refs/rad/ids/*"))
            .to_string(),
        project
            .with_pattern_suffix(&refspec_pattern("refs/remotes/tola/refs/rad/ids/*"))
            .to_string()
    ));
    assert_eq!(rendered(&specs), expected);
}

#[test]
fn signed_refs_looks_legit() {
    let specs = Fetchspecs::SignedRefs {
        tracked_peers: PeerSet::new().insert(lolek()).insert(bolek()),
    }
    .refspecs(&project_urn(), tola());
    let project = namespace_of(&project_urn());
    let mut expected = Vec::new();
    for (remote, local) in [
        (
            "refs/remotes/bolek/refs/rad/signed_refs",
            "refs/remotes/bolek/refs/rad/signed_refs",
        ),
        (
            "refs/remotes/lolek/refs/rad/signed_refs",
            "refs/remotes/lolek/refs/rad/signed_refs",
        ),
    ] {
        expected.push(format!(
            "{}:{}",
            project.join(&reflike(remote)).to_string(),
            project.join(&reflike(local)).to_string()
        ));
    }
    assert_eq!(rendered(&specs), expected);
}

fn replicate_fixture() -> Fetchspecs {
    let zero = Oid::zero();
    let delegates = UrnSet::new().insert(lolek_urn()).insert(bolek_urn());
    let tracked_sigrefs = TrackedSigrefs::new()
        .insert(lolek(), Refs::new().insert_head(reflike("mister"), zero))
        .insert(
            bolek(),
            Refs::new()
                .insert_head(reflike("mister"), zero)
                .insert_head(reflike("next"), zero),
        );
    let namespaces = reflike("refs/namespaces");
    let project = namespaces.join(project_urn().as_path());
    let remote_heads = RemoteHeads::new()
        .insert(project.join(&reflike("refs/heads/mister")), zero)
        .insert(project.join(&reflike("refs/rad/id")), zero)
        .insert(
            project
                .join(&reflike("refs/rad/ids"))
                .join(lolek_urn().as_path()),
            zero,
        )
        .insert(
            project
                .join(&reflike("refs/rad/ids"))
                .join(bolek_urn().as_path()),
            zero,
        )
        .insert(
            project.join(&reflike("refs/remotes/lolek/refs/heads/mister")),
            zero,
        )
        .insert(
            project.join(&reflike("refs/remotes/bolek/refs/heads/mister")),
            zero,
        )
        .insert(
            project.join(&reflike("refs/remotes/bolek/refs/heads/next")),
            zero,
        )
        .insert(
            namespaces
                .join(lolek_urn().as_path())
                .join(&reflike("refs/rad/id")),
            zero,
        )
        .insert(
            namespaces
                .join(bolek_urn().as_path())
                .join(&reflike("refs/rad/id")),
            zero,
        );
    Fetchspecs::Replicate {
        remote_heads,
        tracked_sigrefs,
        delegates,
    }
}

fn replicate_expected() -> Vec<String> {
    let project = namespace_of(&project_urn());
    let lolek_ns = namespace_of(&lolek_urn());
    let bolek_ns = namespace_of(&bolek_urn());
    let plain = |ns: &RefLike, mark: &str, remote: &str, local: &str| {
        format!(
            "{}{}:{}",
            mark,
            ns.join(&reflike(remote)).to_string(),
            ns.join(&reflike(local)).to_string()
        )
    };
    let glob = |ns: &RefLike, remote: &str, local: &str| {
        format!(
            "{}:{}",
            ns.with_pattern_suffix(&refspec_pattern(remote)).to_string(),
            ns.with_pattern_suffix(&refspec_pattern(local)).to_string()
        )
    };
    let mut expected = vec![
        plain(
            &project,
            "+",
            "refs/remotes/bolek/refs/heads/mister",
            "refs/remotes/bolek/refs/heads/mister",
        ),
        plain(
            &project,
            "+",
            "refs/remotes/bolek/refs/heads/next",
            "refs/remotes/bolek/refs/heads/next",
        ),
        plain(
            &project,
            "+",
            "refs/remotes/lolek/refs/heads/mister",
            "refs/remotes/lolek/refs/heads/mister",
        ),
    ];
    for ns in [&project, &bolek_ns, &lolek_ns] {
        expected.push(plain(ns, "", "refs/rad/id", "refs/remotes/tola/refs/rad/id"));
        expected.push(plain(
            ns,
            "",
            "refs/rad/self",
            "refs/remotes/tola/refs/rad/self",
        ));
        expected.push(glob(
            ns,
            "refs/rad/ids/*",
            "refs/remotes/tola/refs/rad/ids/*",
        ));
        if ns != &project {
            for name in ["bolek", "lolek"] {
                let side = format!("refs/remotes/{}/refs/rad/signed_refs", name);
                expected.push(plain(ns, "", &side, &side));
            }
        }
    }
    expected
}

#[test]
fn replicate_looks_legit() {
    let specs = replicate_fixture().refspecs(&project_urn(), tola());
    assert_eq!(
        rendered(&specs).into_iter().collect::<BTreeSet<String>>(),
        replicate_expected().into_iter().collect::<BTreeSet<String>>()
    );
    assert_eq!(specs.len(), 16);
}

#[test]
fn replicate_keeps_its_order() {
    let specs = replicate_fixture().refspecs(&project_urn(), tola());
    let text = rendered(&specs);
    assert_eq!(
        text[0],
        "+refs/namespaces/hyyy1y/refs/remotes/bolek/refs/heads/mister:refs/namespaces/hyyy1y/refs/remotes/bolek/refs/heads/mister"
    );
    assert_eq!(
        text[1],
        "+refs/namespaces/hyyy1y/refs/remotes/bolek/refs/heads/next:refs/namespaces/hyyy1y/refs/remotes/bolek/refs/heads/next"
    );
    assert_eq!(
        text[2],
        "+refs/namespaces/hyyy1y/refs/remotes/lolek/refs/heads/mister:refs/namespaces/hyyy1y/refs/remotes/lolek/refs/heads/mister"
    );
    assert_eq!(
        text[3],
        "refs/namespaces/hyyy1y/refs/rad/id:refs/namespaces/hyyy1y/refs/remotes/tola/refs/rad/id"
    );
    assert_eq!(
        text[5],
        "refs/namespaces/hyyy1y/refs/rad/ids/*:refs/namespaces/hyyy1y/refs/remotes/tola/refs/rad/ids/*"
    );
    // the delegates follow in ascending order of their ids: hyyyon, then hyyyor
    assert_eq!(
        text[6],
        "refs/namespaces/hyyyon/refs/rad/id:refs/namespaces/hyyyon/refs/remotes/tola/refs/rad/id"
    );
    assert_eq!(
        text[9],
        "refs/namespaces/hyyyon/refs/remotes/bolek/refs/rad/signed_refs:refs/namespaces/hyyyon/refs/remotes/bolek/refs/rad/signed_refs"
    );
    assert_eq!(
        text[11],
        "refs/namespaces/hyyyor/refs/rad/id:refs/namespaces/hyyyor/refs/remotes/tola/refs/rad/id"
    );
    assert_eq!(
        text[15],
        "refs/namespaces/hyyyor/refs/remotes/lolek/refs/rad/signed_refs:refs/namespaces/hyyyor/refs/remotes/lolek/refs/rad/signed_refs"
    );
}

#[test]
fn plans_are_the_same_on_every_call() {
    let fixture = replicate_fixture();
    let once = rendered(&fixture.refspecs(&project_urn(), tola()));
    let again = rendered(&fixture.refspecs(&project_urn(), tola()));
    assert_eq!(once, again);
    assert_eq!(
        rendered(&peek(&project_urn(), tola())),
        rendered(&Fetchspecs::Peek.refspecs(&project_urn(), tola()))
    );
}

#[test]
fn peek_is_three_unforced_directives() {
    let specs = peek(&project_urn(), tola());
    assert_eq!(specs.len(), 3);
    for spec in &specs {
        assert!(!spec.force());
    }
    assert_eq!(
        specs[0].local().to_string(),
        "refs/namespaces/hyyy1y/refs/remotes/tola/refs/rad/id"
    );
    assert_eq!(specs[0].remote().to_string(), "refs/namespaces/hyyy1y/refs/rad/id");
    assert_eq!(
        specs[1].local().to_string(),
        "refs/namespaces/hyyy1y/refs/remotes/tola/refs/rad/self"
    );
    assert_eq!(
        specs[2].remote().to_string(),
        "refs/namespaces/hyyy1y/refs/rad/ids/*"
    );
    assert!(specs[2].local().is_pattern());
    assert!(!specs[0].local().is_pattern());
}

#[test]
fn signed_refs_of_the_contacted_peer_come_from_its_own_section() {
    let peers = PeerSet::new().insert(lolek()).insert(bolek());
    let specs = signed_refs(&project_urn(), &bolek(), &peers);
    assert_eq!(
        rendered(&specs),
        vec![
            "refs/namespaces/hyyy1y/refs/rad/signed_refs:refs/namespaces/hyyy1y/refs/remotes/bolek/refs/rad/signed_refs"
                .to_string(),
            "refs/namespaces/hyyy1y/refs/remotes/lolek/refs/rad/signed_refs:refs/namespaces/hyyy1y/refs/remotes/lolek/refs/rad/signed_refs"
                .to_string(),
        ]
    );
}

#[test]
fn signed_refs_of_no_peer_is_empty() {
    assert!(signed_refs(&project_urn(), &tola(), &PeerSet::new()).is_empty());
}

fn oid(byte: u8) -> Oid {
    Oid::from_bytes([byte; 20])
}

#[test]
fn a_branch_at_another_object_is_not_fetched() {
    let sigrefs = TrackedSigrefs::new().insert(
        lolek(),
        Refs::new().insert_head(reflike("main"), oid(1)),
    );
    let at = reflike("refs/namespaces/hyyy1y/refs/remotes/lolek/refs/heads/main");
    let diverged = RemoteHeads::new().insert(at.clone(), oid(2));
    let specs = replicate(&project_urn(), &tola(), &diverged, &sigrefs, &UrnSet::new());
    assert_eq!(specs.len(), 3);
    assert!(specs.iter().all(|spec| !spec.force()));

    let converged = RemoteHeads::new().insert(at, oid(1));
    let specs = replicate(&project_urn(), &tola(), &converged, &sigrefs, &UrnSet::new());
    assert_eq!(specs.len(), 4);
    assert_eq!(
        specs[0].as_refspec(),
        "+refs/namespaces/hyyy1y/refs/remotes/lolek/refs/heads/main:refs/namespaces/hyyy1y/refs/remotes/lolek/refs/heads/main"
    );
    assert_eq!(specs.iter().filter(|spec| spec.force()).count(), 1);
}

#[test]
fn a_branch_that_is_not_advertised_is_skipped() {
    let sigrefs = TrackedSigrefs::new().insert(
        lolek(),
        Refs::new().insert_head(reflike("main"), oid(1)),
    );
    let specs = replicate(
        &project_urn(),
        &tola(),
        &RemoteHeads::new(),
        &sigrefs,
        &UrnSet::new(),
    );
    assert_eq!(rendered(&specs), rendered(&peek(&project_urn(), tola())));
}

#[test]
fn the_contacted_peer_is_looked_up_in_its_own_section() {
    let sigrefs = TrackedSigrefs::new().insert(
        tola(),
        Refs::new().insert_head(reflike("feature/x"), oid(7)),
    );
    let scoped = RemoteHeads::new().insert(
        reflike("refs/namespaces/hyyy1y/refs/remotes/tola/refs/heads/feature/x"),
        oid(7),
    );
    assert_eq!(
        replicate(&project_urn(), &tola(), &scoped, &sigrefs, &UrnSet::new()).len(),
        3
    );
    let owned = RemoteHeads::new().insert(
        reflike("refs/namespaces/hyyy1y/refs/heads/feature/x"),
        oid(7),
    );
    let specs = replicate(&project_urn(), &tola(), &owned, &sigrefs, &UrnSet::new());
    assert_eq!(
        specs[0].as_refspec(),
        "+refs/namespaces/hyyy1y/refs/heads/feature/x:refs/namespaces/hyyy1y/refs/remotes/tola/refs/heads/feature/x"
    );
}

#[test]
fn delegates_are_expanded_whatever_was_signed() {
    let delegates = UrnSet::new().insert(lolek_urn());
    let sigrefs = TrackedSigrefs::new()
        .insert(lolek(), Refs::new())
        .insert(bolek(), Refs::new());
    let specs = replicate(
        &project_urn(),
        &tola(),
        &RemoteHeads::new(),
        &sigrefs,
        &delegates,
    );
    let text = rendered(&specs);
    let mut expected = rendered(&peek(&project_urn(), tola()));
    expected.extend(rendered(&peek(&lolek_urn(), tola())));
    expected.extend(rendered(&signed_refs(
        &lolek_urn(),
        &tola(),
        &PeerSet::new().insert(bolek()).insert(lolek()),
    )));
    assert_eq!(text, expected);
    assert_eq!(text.len(), 8);
}
