//! The sets and maps that a plan is made from. Each keeps its entries in
//! ascending order, every key once, and hands them out in that order.

use vstd::prelude::*;
use crate::identity::{Oid, PeerId, Urn};
use crate::path::{valid_segment, valid_segments, RefLike};
use crate::sorted::{
    ascending, keys_with, lemma_ascending_distinct, lemma_keys_with, lemma_rank_of_member, rank,
    values_with, SortedMap,
};

verus! {

/// The names as paths of one segment each.
pub open spec fn as_keys(names: Seq<Seq<char>>) -> Seq<Seq<Seq<char>>> {
    Seq::new(names.len(), |i: int| seq![names[i]])
}

/// Names in strictly ascending order, each a valid segment.
pub open spec fn valid_names(names: Seq<Seq<char>>) -> bool {
    &&& ascending(as_keys(names))
    &&& forall|i: int| 0 <= i < names.len() ==> valid_segment(#[trigger] names[i])
}

/// The names after `name` is put in at its place in the order: unchanged
/// where it is there already.
pub open spec fn names_with(names: Seq<Seq<char>>, name: Seq<char>) -> Seq<Seq<char>> {
    if names.contains(name) {
        names
    } else {
        names.insert(rank(as_keys(names), seq![name]), name)
    }
}

/// A name is among the names exactly when its path is among their paths.
pub proof fn lemma_as_keys_contains(names: Seq<Seq<char>>, name: Seq<char>)
    ensures
        names.contains(name) <==> as_keys(names).contains(seq![name]),
{
    let keys = as_keys(names);
    if names.contains(name) {
        let i = choose|i: int| 0 <= i < names.len() && names[i] == name;
        assert(keys[i] == seq![name]);
    }
    if keys.contains(seq![name]) {
        let i = choose|i: int| 0 <= i < keys.len() && keys[i] == seq![name];
        assert(keys[i][0] == name);
        assert(names[i] == name);
    }
}

/// Putting a name into valid names gives valid names.
pub proof fn lemma_names_with(names: Seq<Seq<char>>, name: Seq<char>)
    requires
        valid_names(names),
        valid_segment(name),
    ensures
        valid_names(names_with(names, name)),
        as_keys(names_with(names, name)) == keys_with(as_keys(names), seq![name]),
{
    let keys = as_keys(names);
    let key = seq![name];
    lemma_as_keys_contains(names, name);
    lemma_keys_with(keys, key);
    let now = names_with(names, name);
    assert(as_keys(now) =~= keys_with(keys, key));
    if !names.contains(name) {
        let at = rank(keys, key);
        assert forall|i: int| 0 <= i < now.len() implies valid_segment(#[trigger] now[i]) by {
            if i < at {
                assert(now[i] == names[i]);
            } else if i > at {
                assert(now[i] == names[i - 1]);
            }
        }
    }
}

/// A set of peers, in ascending order of their names.
#[derive(Debug)]
pub struct PeerSet {
    map: SortedMap<PeerId>,
}

impl View for PeerSet {
    type V = Seq<Seq<char>>;

    closed spec fn view(&self) -> Seq<Seq<char>> {
        Seq::new(self.map.keys().len(), |i: int| self.map.values()[i]@)
    }
}

impl PeerSet {
    #[verifier::type_invariant]
    closed spec fn inv(&self) -> bool {
        &&& self.map.wf()
        &&& self.map.keys() == as_keys(self@)
    }

    /// The names ascend, and each is a valid segment.
    pub open spec fn wf(&self) -> bool {
        valid_names(self@)
    }

    /// What the invariant means for the names.
    proof fn lemma_inv(&self)
        requires
            self.inv(),
        ensures
            self.wf(),
            self@.len() == self.map.keys().len(),
            self@.len() == self.map.values().len(),
    {
        assert forall|i: int| 0 <= i < self@.len() implies valid_segment(#[trigger] self@[i]) by {
            assert(valid_segments(self.map.keys()[i]));
            assert(self.map.keys()[i] == seq![self@[i]]);
            assert(self.map.keys()[i][0] == self@[i]);
        }
    }

    /// The empty set.
    pub fn new() -> (out: PeerSet)
        ensures
            out@ == Seq::<Seq<char>>::empty(),
            out.wf(),
    {
        let map: SortedMap<PeerId> = SortedMap::new();
        let ghost names = Seq::new(map.keys().len(), |i: int| map.values()[i]@);
        assert(names =~= Seq::<Seq<char>>::empty());
        assert(map.keys() =~= as_keys(names));
        PeerSet { map }
    }

    /// The set with `peer` in it.
    pub fn insert(self, peer: PeerId) -> (out: PeerSet)
        ensures
            out@ == names_with(self@, peer@),
            out.wf(),
            self.wf(),
    {
        proof {
            use_type_invariant(&self);
            self.lemma_inv();
        }
        let key = peer.as_path().clone();
        let ghost keys = self.map.keys();
        let ghost values = self.map.values();
        let ghost names = self@;
        let map = self.map.insert(key, peer);
        proof {
            lemma_as_keys_contains(names, peer@);
            lemma_names_with(names, peer@);
            lemma_keys_with(keys, seq![peer@]);
            let now = Seq::new(map.keys().len(), |i: int| map.values()[i]@);
            let at = rank(keys, seq![peer@]);
            if names.contains(peer@) {
                assert(keys[at] == seq![names[at]]);
                assert(keys[at][0] == peer@);
                assert(now =~= names);
            } else {
                assert(now =~= names.insert(at, peer@));
            }
        }
        PeerSet { map }
    }

    /// The number of peers.
    pub fn len(&self) -> (n: usize)
        ensures
            n == self@.len(),
            self.wf(),
    {
        proof {
            use_type_invariant(self);
            self.lemma_inv();
        }
        self.map.len()
    }

    /// The peer at position `i` of the ascending order.
    pub fn get(&self, i: usize) -> (peer: &PeerId)
        requires
            i < self@.len(),
        ensures
            peer@ == self@[i as int],
    {
        proof {
            use_type_invariant(self);
            self.lemma_inv();
        }
        self.map.value_at(i)
    }

    /// Whether `peer` is in the set.
    pub fn contains(&self, peer: &PeerId) -> (found: bool)
        ensures
            found == self@.contains(peer@),
    {
        proof {
            use_type_invariant(self);
            self.lemma_inv();
            lemma_as_keys_contains(self@, peer@);
        }
        self.map.find(peer.as_path()).is_some()
    }
}

/// A set of project identifiers, in ascending order of their ids.
#[derive(Debug)]
pub struct UrnSet {
    map: SortedMap<Urn>,
}

impl View for UrnSet {
    type V = Seq<Seq<char>>;

    closed spec fn view(&self) -> Seq<Seq<char>> {
        Seq::new(self.map.keys().len(), |i: int| self.map.values()[i]@)
    }
}

impl UrnSet {
    #[verifier::type_invariant]
    closed spec fn inv(&self) -> bool {
        &&& self.map.wf()
        &&& self.map.keys() == as_keys(self@)
    }

    /// The ids ascend, and each is a valid segment.
    pub open spec fn wf(&self) -> bool {
        valid_names(self@)
    }

    /// What the invariant means for the ids.
    proof fn lemma_inv(&self)
        requires
            self.inv(),
        ensures
            self.wf(),
            self@.len() == self.map.keys().len(),
            self@.len() == self.map.values().len(),
    {
        assert forall|i: int| 0 <= i < self@.len() implies valid_segment(#[trigger] self@[i]) by {
            assert(valid_segments(self.map.keys()[i]));
            assert(self.map.keys()[i] == seq![self@[i]]);
            assert(self.map.keys()[i][0] == self@[i]);
        }
    }

    /// The empty set.
    pub fn new() -> (out: UrnSet)
        ensures
            out@ == Seq::<Seq<char>>::empty(),
            out.wf(),
    {
        let map: SortedMap<Urn> = SortedMap::new();
        let ghost names = Seq::new(map.keys().len(), |i: int| map.values()[i]@);
        assert(names =~= Seq::<Seq<char>>::empty());
        assert(map.keys() =~= as_keys(names));
        UrnSet { map }
    }

    /// The set with `urn` in it.
    pub fn insert(self, urn: Urn) -> (out: UrnSet)
        ensures
            out@ == names_with(self@, urn@),
            out.wf(),
            self.wf(),
    {
        proof {
            use_type_invariant(&self);
            self.lemma_inv();
        }
        let key = urn.as_path().clone();
        let ghost keys = self.map.keys();
        let ghost values = self.map.values();
        let ghost names = self@;
        let map = self.map.insert(key, urn);
        proof {
            lemma_as_keys_contains(names, urn@);
            lemma_names_with(names, urn@);
            lemma_keys_with(keys, seq![urn@]);
            let now = Seq::new(map.keys().len(), |i: int| map.values()[i]@);
            let at = rank(keys, seq![urn@]);
            if names.contains(urn@) {
                assert(keys[at] == seq![names[at]]);
                assert(keys[at][0] == urn@);
                assert(now =~= names);
            } else {
                assert(now =~= names.insert(at, urn@));
            }
        }
        UrnSet { map }
    }

    /// The number of identifiers.
    pub fn len(&self) -> (n: usize)
        ensures
            n == self@.len(),
            self.wf(),
    {
        proof {
            use_type_invariant(self);
            self.lemma_inv();
        }
        self.map.len()
    }

    /// The identifier at position `i` of the ascending order.
    pub fn get(&self, i: usize) -> (urn: &Urn)
        requires
            i < self@.len(),
        ensures
            urn@ == self@[i as int],
    {
        proof {
            use_type_invariant(self);
            self.lemma_inv();
        }
        self.map.value_at(i)
    }

    /// Whether `urn` is in the set.
    pub fn contains(&self, urn: &Urn) -> (found: bool)
        ensures
            found == self@.contains(urn@),
    {
        proof {
            use_type_invariant(self);
            self.lemma_inv();
            lemma_as_keys_contains(self@, urn@);
        }
        self.map.find(urn.as_path()).is_some()
    }
}

/// A branch and the object it points to, as a mathematical value.
pub struct HeadView {
    pub name: Seq<Seq<char>>,
    pub target: Seq<u8>,
}

/// The names of the branches, in order.
pub open spec fn head_names(heads: Seq<HeadView>) -> Seq<Seq<Seq<char>>> {
    Seq::new(heads.len(), |i: int| heads[i].name)
}

/// Branches in strictly ascending order of their names, each name a valid
/// path.
pub open spec fn valid_heads(heads: Seq<HeadView>) -> bool {
    &&& ascending(head_names(heads))
    &&& forall|i: int| 0 <= i < heads.len() ==> valid_segments(#[trigger] heads[i].name)
}

/// The branches after `name` is made to point to `target`: in the place of
/// the entry of that name, or as a new entry at its place in the order.
pub open spec fn heads_with(heads: Seq<HeadView>, name: Seq<Seq<char>>, target: Seq<u8>) -> Seq<
    HeadView,
> {
    values_with(head_names(heads), heads, name, HeadView { name, target })
}

/// What a peer has signed: the branches it published, each with the object
/// it pointed to, and the peers that it tracks itself.
#[derive(Debug)]
pub struct Refs {
    heads: SortedMap<Oid>,
    remotes: PeerSet,
}

/// The signed state of a peer as a mathematical value.
pub struct RefsView {
    pub heads: Seq<HeadView>,
    pub remotes: Seq<Seq<char>>,
}

impl View for Refs {
    type V = RefsView;

    closed spec fn view(&self) -> RefsView {
        RefsView {
            heads: Seq::new(
                self.heads.keys().len(),
                |i: int| HeadView { name: self.heads.keys()[i], target: self.heads.values()[i]@ },
            ),
            remotes: self.remotes@,
        }
    }
}

impl Refs {
    #[verifier::type_invariant]
    closed spec fn inv(&self) -> bool {
        self.heads.wf()
    }

    /// The branches ascend by name, and each name is a valid path.
    pub open spec fn wf(&self) -> bool {
        valid_heads(self@.heads)
    }

    /// What the invariant means for the branches.
    proof fn lemma_inv(&self)
        requires
            self.inv(),
        ensures
            self.wf(),
            self@.heads.len() == self.heads.keys().len(),
            head_names(self@.heads) == self.heads.keys(),
    {
        assert(head_names(self@.heads) =~= self.heads.keys());
    }

    /// The state with no branch and no tracked peer.
    pub fn new() -> (out: Refs)
        ensures
            out@.heads == Seq::<HeadView>::empty(),
            out@.remotes == Seq::<Seq<char>>::empty(),
            out.wf(),
    {
        let heads: SortedMap<Oid> = SortedMap::new();
        let remotes = PeerSet::new();
        let out = Refs { heads, remotes };
        assert(out@.heads =~= Seq::<HeadView>::empty());
        proof {
            out.lemma_inv();
        }
        out
    }

    /// The state in which the branch `name` points to `target`.
    pub fn insert_head(self, name: RefLike, target: Oid) -> (out: Refs)
        ensures
            out@.heads == heads_with(self@.heads, name@, target@),
            out@.remotes == self@.remotes,
            out.wf(),
            self.wf(),
    {
        proof {
            use_type_invariant(&self);
            self.lemma_inv();
        }
        let ghost keys = self.heads.keys();
        let ghost before = self@.heads;
        let heads = self.heads.insert(name, target);
        let out = Refs { heads, remotes: self.remotes };
        proof {
            lemma_keys_with(keys, name@);
            let at = rank(keys, name@);
            if keys.contains(name@) {
                assert(out@.heads =~= before.update(at, HeadView { name: name@, target: target@ }));
            } else {
                assert(out@.heads =~= before.insert(at, HeadView { name: name@, target: target@ }));
            }
            out.lemma_inv();
        }
        out
    }

    /// The state in which the peer tracks `remotes`.
    pub fn with_remotes(self, remotes: PeerSet) -> (out: Refs)
        ensures
            out@.heads == self@.heads,
            out@.remotes == remotes@,
            out.wf(),
    {
        proof {
            use_type_invariant(&self);
        }
        let out = Refs { heads: self.heads, remotes };
        proof {
            out.lemma_inv();
        }
        out
    }

    /// The number of branches.
    pub fn len(&self) -> (n: usize)
        ensures
            n == self@.heads.len(),
            self.wf(),
    {
        proof {
            use_type_invariant(self);
            self.lemma_inv();
        }
        self.heads.len()
    }

    /// The name of the branch at position `i` of the ascending order.
    pub fn name_at(&self, i: usize) -> (name: &RefLike)
        requires
            i < self@.heads.len(),
        ensures
            name@ == self@.heads[i as int].name,
            name.wf(),
    {
        proof {
            use_type_invariant(self);
            self.lemma_inv();
        }
        self.heads.key_at(i)
    }

    /// The object that the branch at position `i` points to.
    pub fn target_at(&self, i: usize) -> (target: Oid)
        requires
            i < self@.heads.len(),
        ensures
            target@ == self@.heads[i as int].target,
    {
        proof {
            use_type_invariant(self);
            self.lemma_inv();
        }
        *self.heads.value_at(i)
    }

    /// The peers that the signing peer tracks.
    pub fn remotes(&self) -> (remotes: &PeerSet)
        ensures
            remotes@ == self@.remotes,
    {
        &self.remotes
    }
}

/// A tracked peer and what it has signed, as a mathematical value.
pub struct TrackedView {
    pub peer: Seq<char>,
    pub refs: RefsView,
}

/// The names of the tracked peers, in order.
pub open spec fn tracked_peers(entries: Seq<TrackedView>) -> Seq<Seq<char>> {
    Seq::new(entries.len(), |i: int| entries[i].peer)
}

/// PeerRefs peers in strictly ascending order of their names, each name a
/// valid segment, each with valid branches.
pub open spec fn valid_tracked(entries: Seq<TrackedView>) -> bool {
    &&& valid_names(tracked_peers(entries))
    &&& forall|i: int| 0 <= i < entries.len() ==> valid_heads(#[trigger] entries[i].refs.heads)
}

/// The tracked peers after the signed state of `peer` is set to `refs`: in
/// the place of the entry of that peer, or as a new entry at its place in
/// the order.
pub open spec fn tracked_with(entries: Seq<TrackedView>, peer: Seq<char>, refs: RefsView) -> Seq<
    TrackedView,
> {
    values_with(as_keys(tracked_peers(entries)), entries, seq![peer], TrackedView { peer, refs })
}

/// A tracked peer with its signed state.
#[derive(Debug)]
pub struct PeerRefs {
    peer: PeerId,
    refs: Refs,
}

impl View for PeerRefs {
    type V = TrackedView;

    closed spec fn view(&self) -> TrackedView {
        TrackedView { peer: self.peer@, refs: self.refs@ }
    }
}

impl PeerRefs {
    #[verifier::type_invariant]
    closed spec fn inv(&self) -> bool {
        self.refs.wf()
    }
}

/// The signed state held for every tracked peer, in ascending order of the
/// peers' names.
#[derive(Debug)]
pub struct TrackedSigrefs {
    map: SortedMap<PeerRefs>,
}

impl View for TrackedSigrefs {
    type V = Seq<TrackedView>;

    closed spec fn view(&self) -> Seq<TrackedView> {
        Seq::new(self.map.keys().len(), |i: int| self.map.values()[i]@)
    }
}

impl TrackedSigrefs {
    #[verifier::type_invariant]
    closed spec fn inv(&self) -> bool {
        &&& self.map.wf()
        &&& self.map.keys() == as_keys(tracked_peers(self@))
        &&& forall|i: int|
            0 <= i < self.map.keys().len() ==> (#[trigger] self.map.values()[i]).refs.wf()
    }

    /// The peers ascend by name, each name is a valid segment, and each
    /// peer's branches are valid.
    pub open spec fn wf(&self) -> bool {
        valid_tracked(self@)
    }

    /// What the invariant means for the entries.
    proof fn lemma_inv(&self)
        requires
            self.inv(),
        ensures
            self.wf(),
            self@.len() == self.map.keys().len(),
            self@.len() == self.map.values().len(),
    {
        let peers = tracked_peers(self@);
        assert forall|i: int| 0 <= i < peers.len() implies valid_segment(#[trigger] peers[i]) by {
            assert(valid_segments(self.map.keys()[i]));
            assert(self.map.keys()[i] == seq![peers[i]]);
            assert(self.map.keys()[i][0] == peers[i]);
        }
        assert forall|i: int| 0 <= i < self@.len() implies valid_heads(
            #[trigger] self@[i].refs.heads,
        ) by {
            assert(self.map.values()[i].refs.wf());
        }
    }

    /// No tracked peer.
    pub fn new() -> (out: TrackedSigrefs)
        ensures
            out@ == Seq::<TrackedView>::empty(),
            out.wf(),
    {
        let map: SortedMap<PeerRefs> = SortedMap::new();
        let ghost entries = Seq::new(map.keys().len(), |i: int| map.values()[i]@);
        assert(entries =~= Seq::<TrackedView>::empty());
        assert(map.keys() =~= as_keys(tracked_peers(entries)));
        let out = TrackedSigrefs { map };
        proof {
            out.lemma_inv();
        }
        out
    }

    /// The state in which `peer` is tracked and has signed `refs`.
    pub fn insert(self, peer: PeerId, refs: Refs) -> (out: TrackedSigrefs)
        ensures
            out@ == tracked_with(self@, peer@, refs@),
            out.wf(),
            self.wf(),
    {
        proof {
            use_type_invariant(&self);
            self.lemma_inv();
        }
        let key = peer.as_path().clone();
        proof {
            use_type_invariant(&refs);
            refs.lemma_inv();
        }
        let ghost keys = self.map.keys();
        let ghost values = self.map.values();
        let ghost before = self@;
        let entry = PeerRefs { peer, refs };
        let ghost added = entry@;
        let map = self.map.insert(key, entry);
        proof {
            lemma_keys_with(keys, seq![peer@]);
            let at = rank(keys, seq![peer@]);
            let now = Seq::new(map.keys().len(), |i: int| map.values()[i]@);
            if keys.contains(seq![peer@]) {
                assert(now =~= before.update(at, added));
                assert(map.keys() =~= as_keys(tracked_peers(now)));
            } else {
                assert(now =~= before.insert(at, added));
                assert(tracked_peers(now) =~= tracked_peers(before).insert(at, peer@));
                assert(map.keys() =~= as_keys(tracked_peers(now)));
            }
        }
        let out = TrackedSigrefs { map };
        proof {
            out.lemma_inv();
        }
        out
    }

    /// The number of tracked peers.
    pub fn len(&self) -> (n: usize)
        ensures
            n == self@.len(),
            self.wf(),
    {
        proof {
            use_type_invariant(self);
            self.lemma_inv();
        }
        self.map.len()
    }

    /// The peer at position `i` of the ascending order.
    pub fn peer_at(&self, i: usize) -> (peer: &PeerId)
        requires
            i < self@.len(),
        ensures
            peer@ == self@[i as int].peer,
    {
        proof {
            use_type_invariant(self);
            self.lemma_inv();
        }
        &self.map.value_at(i).peer
    }

    /// What the peer at position `i` has signed.
    pub fn refs_at(&self, i: usize) -> (refs: &Refs)
        requires
            i < self@.len(),
        ensures
            refs@ == self@[i as int].refs,
    {
        proof {
            use_type_invariant(self);
            self.lemma_inv();
        }
        &self.map.value_at(i).refs
    }

    /// The tracked peers as a set.
    pub fn peers(&self) -> (out: PeerSet)
        ensures
            out@ == tracked_peers(self@),
            out.wf(),
    {
        proof {
            use_type_invariant(self);
            self.lemma_inv();
        }
        let ghost peers = tracked_peers(self@);
        let mut out = PeerSet::new();
        let mut i: usize = 0;
        while i < self.map.len()
            invariant
                i <= self@.len(),
                self@.len() == self.map.keys().len(),
                self.wf(),
                peers == tracked_peers(self@),
                out@ == peers.subrange(0, i as int),
                out.wf(),
            decreases self@.len() - i,
        {
            let peer = self.peer_at(i).clone();
            proof {
                let done = peers.subrange(0, i as int);
                let keys = as_keys(peers);
                assert forall|k: int| 0 <= k < done.len() implies crate::path::path_lt(
                    #[trigger] as_keys(done)[k],
                    seq![peer@],
                ) by {
                    assert(as_keys(done)[k] == keys[k]);
                    assert(crate::path::path_lt(keys[k], keys[i as int]));
                }
                crate::sorted::lemma_rank_is_position(as_keys(done), seq![peer@], i as int);
                crate::path::lemma_path_lt_irreflexive(seq![peer@], 0);
                if done.contains(peer@) {
                    let k = choose|k: int| 0 <= k < done.len() && done[k] == peer@;
                    assert(as_keys(done)[k] == seq![peer@]);
                }
                assert(names_with(done, peer@) =~= peers.subrange(0, i + 1));
            }
            out = out.insert(peer);
            i += 1;
        }
        assert(peers.subrange(0, i as int) =~= peers);
        out
    }
}

/// The references that a remote peer advertises, each with the object it
/// points to.
#[derive(Debug)]
pub struct RemoteHeads {
    map: SortedMap<Oid>,
}

/// The map that the keys and values of a sorted map stand for.
pub open spec fn targets(keys: Seq<Seq<Seq<char>>>, values: Seq<Oid>) -> Map<
    Seq<Seq<char>>,
    Seq<u8>,
> {
    Map::new(|k: Seq<Seq<char>>| keys.contains(k), |k: Seq<Seq<char>>| values[rank(keys, k)]@)
}

impl View for RemoteHeads {
    type V = Map<Seq<Seq<char>>, Seq<u8>>;

    closed spec fn view(&self) -> Map<Seq<Seq<char>>, Seq<u8>> {
        targets(self.map.keys(), self.map.values())
    }
}

impl RemoteHeads {
    #[verifier::type_invariant]
    closed spec fn inv(&self) -> bool {
        self.map.wf()
    }

    /// Nothing advertised.
    pub fn new() -> (out: RemoteHeads)
        ensures
            out@ == Map::<Seq<Seq<char>>, Seq<u8>>::empty(),
    {
        let map: SortedMap<Oid> = SortedMap::new();
        assert(targets(map.keys(), map.values()) =~= Map::<Seq<Seq<char>>, Seq<u8>>::empty());
        RemoteHeads { map }
    }

    /// The listing in which the reference `name` points to `target`.
    pub fn insert(self, name: RefLike, target: Oid) -> (out: RemoteHeads)
        ensures
            out@ == self@.insert(name@, target@),
    {
        proof {
            use_type_invariant(&self);
        }
        let ghost keys = self.map.keys();
        let ghost values = self.map.values();
        let map = self.map.insert(name, target);
        proof {
            lemma_keys_with(keys, name@);
            let now_keys = map.keys();
            let now_values = map.values();
            let at = rank(keys, name@);
            let before = targets(keys, values);
            let after = targets(now_keys, now_values);
            assert forall|k: Seq<Seq<char>>| after.contains_key(k) implies #[trigger] after[k]
                == before.insert(name@, target@)[k] by {
                let i = choose|i: int| 0 <= i < now_keys.len() && now_keys[i] == k;
                lemma_rank_of_member(now_keys, i);
                if k == name@ {
                    if keys.contains(name@) {
                        lemma_ascending_distinct(now_keys, i, at);
                    } else {
                        assert(now_keys[at] == name@);
                        lemma_ascending_distinct(now_keys, i, at);
                    }
                } else {
                    let j = choose|j: int| 0 <= j < keys.len() && keys[j] == k;
                    lemma_rank_of_member(keys, j);
                    if keys.contains(name@) {
                        lemma_ascending_distinct(now_keys, i, j);
                    } else if j < at {
                        assert(now_keys[j] == k);
                        lemma_ascending_distinct(now_keys, i, j);
                    } else {
                        assert(now_keys[j + 1] == k);
                        lemma_ascending_distinct(now_keys, i, j + 1);
                    }
                }
            }
            assert(after =~= before.insert(name@, target@));
        }
        RemoteHeads { map }
    }

    /// The object that the reference `name` points to, if it is advertised.
    pub fn get(&self, name: &RefLike) -> (out: Option<Oid>)
        ensures
            out is Some <==> self@.contains_key(name@),
            out matches Some(target) ==> target@ == self@[name@],
    {
        proof {
            use_type_invariant(self);
        }
        match self.map.find(name) {
            Some(i) => {
                proof {
                    lemma_rank_of_member(self.map.keys(), i as int);
                }
                Some(*self.map.value_at(i))
            },
            None => None,
        }
    }

    /// The number of advertised references.
    pub fn len(&self) -> (n: usize)
        ensures
            n == self@.dom().len(),
    {
        proof {
            use_type_invariant(self);
            lemma_keys_as_set(self.map.keys());
            assert(self@.dom() =~= self.map.keys().to_set());
        }
        self.map.len()
    }
}

/// An ascending sequence has as many keys as the set of its keys has
/// members.
pub proof fn lemma_keys_as_set(keys: Seq<Seq<Seq<char>>>)
    requires
        ascending(keys),
    ensures
        keys.to_set().len() == keys.len(),
        keys.to_set().finite(),
{
    assert(keys.no_duplicates()) by {
        assert forall|i: int, j: int|
            0 <= i < keys.len() && 0 <= j < keys.len() && i != j implies keys[i] != keys[j] by {
            if keys[i] == keys[j] {
                lemma_ascending_distinct(keys, i, j);
            }
        }
    }
    keys.unique_seq_to_set();
}

} // verus!
