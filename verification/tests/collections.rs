use radfetch::collections::{PeerSet, Refs, RemoteHeads, TrackedSigrefs, UrnSet};
use radfetch::fetch::{collect_heads, Advertised};
use radfetch::identity::{Oid, PeerId, Urn};
use radfetch::path::RefLike;

fn peer(name: &str) -> PeerId {
    PeerId::parse(name).unwrap()
}

fn reflike(text: &str) -> RefLike {
    RefLike::parse(text).unwrap()
}

fn oid(byte: u8) -> Oid {
    Oid::from_bytes([byte; 20])
}

fn names(set: &PeerSet) -> Vec<String> {
    (0..set.len()).map(|i| set.get(i).to_string()).collect()
}

#[test]
fn a_peer_set_is_kept_in_ascending_order() {
    let set = PeerSet::new()
        .insert(peer("tola"))
        .insert(peer("lolek"))
        .insert(peer("bolek"))
        .insert(peer("lolek"))
        .insert(peer("b"))
        .insert(peer("bolek2"));
    assert_eq!(names(&set), ["b", "bolek", "bolek2", "lolek", "tola"]);
    assert_eq!(set.len(), 5);
    assert!(set.contains(&peer("bolek")));
    assert!(!set.contains(&peer("bole")));
    assert!(!set.contains(&peer("zz")));
}

#[test]
fn an_empty_set_holds_nothing() {
    assert_eq!(PeerSet::new().len(), 0);
    assert!(!PeerSet::new().contains(&peer("a")));
    assert_eq!(UrnSet::new().len(), 0);
    assert_eq!(TrackedSigrefs::new().len(), 0);
    assert_eq!(RemoteHeads::new().len(), 0);
    assert_eq!(Refs::new().len(), 0);
    assert_eq!(Refs::new().remotes().len(), 0);
}

#[test]
fn a_urn_set_is_kept_in_ascending_order() {
    let urn = |id: &str| Urn::from_id(id).unwrap();
    let set = UrnSet::new()
        .insert(urn("hyyyor"))
        .insert(urn("hyyyon"))
        .insert(urn("hyyyor"));
    assert_eq!(set.len(), 2);
    assert_eq!(set.get(0), &urn("hyyyon"));
    assert_eq!(set.get(1), &urn("hyyyor"));
    assert!(set.contains(&urn("hyyyon")));
    assert!(!set.contains(&urn("hyyy1y")));
}

#[test]
fn branches_are_kept_by_name_and_the_last_target_counts() {
    let refs = Refs::new()
        .insert_head(reflike("next"), oid(1))
        .insert_head(reflike("mister"), oid(2))
        .insert_head(reflike("feature/x"), oid(3))
        .insert_head(reflike("mister"), oid(4))
        .with_remotes(PeerSet::new().insert(peer("tola")));
    assert_eq!(refs.len(), 3);
    assert_eq!(refs.name_at(0), &reflike("feature/x"));
    assert_eq!(refs.target_at(0), oid(3));
    assert_eq!(refs.name_at(1), &reflike("mister"));
    assert_eq!(refs.target_at(1), oid(4));
    assert_eq!(refs.name_at(2), &reflike("next"));
    assert_eq!(refs.target_at(2), oid(1));
    assert_eq!(names(refs.remotes()), ["tola"]);
}

#[test]
fn the_signed_state_is_kept_by_peer() {
    let sigrefs = TrackedSigrefs::new()
        .insert(peer("lolek"), Refs::new().insert_head(reflike("a"), oid(1)))
        .insert(peer("bolek"), Refs::new())
        .insert(peer("lolek"), Refs::new().insert_head(reflike("b"), oid(2)));
    assert_eq!(sigrefs.len(), 2);
    assert_eq!(sigrefs.peer_at(0), &peer("bolek"));
    assert_eq!(sigrefs.refs_at(0).len(), 0);
    assert_eq!(sigrefs.peer_at(1), &peer("lolek"));
    assert_eq!(sigrefs.refs_at(1).len(), 1);
    assert_eq!(sigrefs.refs_at(1).name_at(0), &reflike("b"));
    assert_eq!(names(&sigrefs.peers()), ["bolek", "lolek"]);
}

#[test]
fn a_listing_is_looked_up_by_path() {
    let heads = RemoteHeads::new()
        .insert(reflike("refs/heads/b"), oid(1))
        .insert(reflike("refs/heads/a"), oid(2))
        .insert(reflike("refs/heads/b"), oid(3));
    assert_eq!(heads.len(), 2);
    assert_eq!(heads.get(&reflike("refs/heads/a")), Some(oid(2)));
    assert_eq!(heads.get(&reflike("refs/heads/b")), Some(oid(3)));
    assert_eq!(heads.get(&reflike("refs/heads")), None);
    assert_eq!(heads.get(&reflike("refs/heads/c")), None);
}

#[test]
fn symbolic_and_malformed_names_are_dropped_from_a_listing() {
    let entry = |name: &str, byte: u8, symbolic: bool| Advertised {
        name: name.to_string(),
        target: oid(byte),
        symbolic,
    };
    let heads = collect_heads(&vec![
        entry("HEAD", 1, true),
        entry("refs/heads/main", 2, false),
        entry("refs/heads/../x", 3, false),
        entry("refs//heads", 4, false),
        entry("refs/heads/", 5, false),
        entry("", 6, false),
        entry("refs/heads/next", 7, false),
        entry("refs/heads/main", 8, false),
        entry("refs/heads/next", 9, true),
    ]);
    assert_eq!(heads.len(), 2);
    assert_eq!(heads.get(&reflike("refs/heads/main")), Some(oid(8)));
    assert_eq!(heads.get(&reflike("refs/heads/next")), Some(oid(7)));
    assert_eq!(heads.get(&reflike("HEAD")), None);
    assert_eq!(collect_heads(&Vec::new()).len(), 0);
}
