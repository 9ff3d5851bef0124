//! What to fetch from a remote peer: the three plans, each a pure function
//! from what is known locally to an ordered list of transfer directives.

use vstd::prelude::*;
use crate::collections::{
    tracked_peers, HeadView, PeerSet, Refs, RemoteHeads, TrackedSigrefs, TrackedView, UrnSet,
};
use crate::identity::{namespace_of, Namespace, Oid, PeerId, Urn};
use crate::path::{split, valid_text, RefLike};
use crate::reference::{reference_segments, CategoryView, Reference, ReferenceView};
use crate::refspec::{Refspec, RefspecView};

verus! {

/// The directives of a plan, as mathematical values.
pub open spec fn plan_view(plan: Seq<Refspec>) -> Seq<RefspecView> {
    Seq::new(plan.len(), |i: int| plan[i]@)
}

/// The reference of `category` in the namespace of `urn`, in the section of
/// `remote` or in the project's own.
pub open spec fn reference_in(
    urn: Seq<char>,
    remote: Option<Seq<char>>,
    category: CategoryView,
) -> Seq<Seq<char>> {
    reference_segments(ReferenceView { namespace: namespace_of(urn), remote, category })
}

/// The directive that copies what the contacted peer holds of `category` in
/// its own section to the section kept for that peer locally, unforced.
pub open spec fn peek_entry(
    urn: Seq<char>,
    remote_peer: Seq<char>,
    category: CategoryView,
) -> RefspecView {
    RefspecView {
        local: reference_in(urn, Some(remote_peer), category),
        remote: reference_in(urn, None, category),
        force: false,
    }
}

/// The plan that looks at the identity of the contacted peer: its identity
/// document, its profile and the identities it delegates to.
pub open spec fn peek_plan(urn: Seq<char>, remote_peer: Seq<char>) -> Seq<RefspecView> {
    seq![
        peek_entry(urn, remote_peer, CategoryView::RadId),
        peek_entry(urn, remote_peer, CategoryView::RadSelf),
        peek_entry(urn, remote_peer, CategoryView::RadIdsGlob),
    ]
}

/// The section in which the contacted peer keeps what belongs to `peer`:
/// its own section where it is that peer, the section kept for `peer`
/// otherwise.
pub open spec fn section_at_remote(peer: Seq<char>, remote_peer: Seq<char>) -> Option<Seq<char>> {
    if peer == remote_peer {
        None
    } else {
        Some(peer)
    }
}

/// The directive that fetches the signed state of `peer`, unforced.
pub open spec fn signed_refs_entry(
    urn: Seq<char>,
    remote_peer: Seq<char>,
    peer: Seq<char>,
) -> RefspecView {
    RefspecView {
        local: reference_in(urn, Some(peer), CategoryView::SignedRefs),
        remote: reference_in(urn, section_at_remote(peer, remote_peer), CategoryView::SignedRefs),
        force: false,
    }
}

/// The plan that fetches the signed state of each of `peers`, in their
/// order.
pub open spec fn signed_refs_plan(
    urn: Seq<char>,
    remote_peer: Seq<char>,
    peers: Seq<Seq<char>>,
) -> Seq<RefspecView> {
    Seq::new(peers.len(), |i: int| signed_refs_entry(urn, remote_peer, peers[i]))
}

/// Where the contacted peer advertises the branch `name` of `peer`.
pub open spec fn advertised_head(
    urn: Seq<char>,
    remote_peer: Seq<char>,
    peer: Seq<char>,
    name: Seq<Seq<char>>,
) -> Seq<Seq<char>> {
    reference_in(urn, section_at_remote(peer, remote_peer), CategoryView::Head(name))
}

/// Whether the contacted peer advertises the branch that `peer` signed, at
/// the object that `peer` signed.
pub open spec fn head_trusted(
    remote_heads: Map<Seq<Seq<char>>, Seq<u8>>,
    urn: Seq<char>,
    remote_peer: Seq<char>,
    peer: Seq<char>,
    head: HeadView,
) -> bool {
    let at = advertised_head(urn, remote_peer, peer, head.name);
    remote_heads.contains_key(at) && remote_heads[at] == head.target
}

/// The directive that fetches the branch `name` of `peer`, forced.
pub open spec fn head_entry(
    urn: Seq<char>,
    remote_peer: Seq<char>,
    peer: Seq<char>,
    name: Seq<Seq<char>>,
) -> RefspecView {
    RefspecView {
        local: reference_in(urn, Some(peer), CategoryView::Head(name)),
        remote: advertised_head(urn, remote_peer, peer, name),
        force: true,
    }
}

/// The directives for those of the branches `heads` of `peer` that the
/// contacted peer advertises as signed, in the order of the branches.
pub open spec fn trusted_heads_of(
    remote_heads: Map<Seq<Seq<char>>, Seq<u8>>,
    urn: Seq<char>,
    remote_peer: Seq<char>,
    peer: Seq<char>,
    heads: Seq<HeadView>,
) -> Seq<RefspecView>
    decreases heads.len(),
{
    if heads.len() == 0 {
        Seq::<RefspecView>::empty()
    } else {
        let front = trusted_heads_of(remote_heads, urn, remote_peer, peer, heads.drop_last());
        if head_trusted(remote_heads, urn, remote_peer, peer, heads.last()) {
            front.push(head_entry(urn, remote_peer, peer, heads.last().name))
        } else {
            front
        }
    }
}

/// The directives for the trusted branches of every tracked peer, peer by
/// peer in their order.
pub open spec fn trusted_heads(
    remote_heads: Map<Seq<Seq<char>>, Seq<u8>>,
    urn: Seq<char>,
    remote_peer: Seq<char>,
    sigrefs: Seq<TrackedView>,
) -> Seq<RefspecView>
    decreases sigrefs.len(),
{
    if sigrefs.len() == 0 {
        Seq::<RefspecView>::empty()
    } else {
        trusted_heads(remote_heads, urn, remote_peer, sigrefs.drop_last()) + trusted_heads_of(
            remote_heads,
            urn,
            remote_peer,
            sigrefs.last().peer,
            sigrefs.last().refs.heads,
        )
    }
}

/// What is fetched for one delegate: a look at its identity, then the
/// signed state that each of `peers` holds of it.
pub open spec fn delegate_plan(
    delegate: Seq<char>,
    remote_peer: Seq<char>,
    peers: Seq<Seq<char>>,
) -> Seq<RefspecView> {
    peek_plan(delegate, remote_peer) + signed_refs_plan(delegate, remote_peer, peers)
}

/// What is fetched for the delegates, one after the other in their order.
pub open spec fn delegates_plan(
    delegates: Seq<Seq<char>>,
    remote_peer: Seq<char>,
    peers: Seq<Seq<char>>,
) -> Seq<RefspecView>
    decreases delegates.len(),
{
    if delegates.len() == 0 {
        Seq::<RefspecView>::empty()
    } else {
        delegates_plan(delegates.drop_last(), remote_peer, peers) + delegate_plan(
            delegates.last(),
            remote_peer,
            peers,
        )
    }
}

/// The plan that replicates a project: the trusted branches of the tracked
/// peers, then a look at the contacted peer, then what is fetched for the
/// delegates.
pub open spec fn replicate_plan(
    urn: Seq<char>,
    remote_peer: Seq<char>,
    remote_heads: Map<Seq<Seq<char>>, Seq<u8>>,
    sigrefs: Seq<TrackedView>,
    delegates: Seq<Seq<char>>,
) -> Seq<RefspecView> {
    trusted_heads(remote_heads, urn, remote_peer, sigrefs) + peek_plan(urn, remote_peer)
        + delegates_plan(delegates, remote_peer, tracked_peers(sigrefs))
}

/// Moves the directives of `more` to the end of `plan`.
fn extend(plan: &mut Vec<Refspec>, more: Vec<Refspec>)
    ensures
        plan_view(final(plan)@) == plan_view(old(plan)@) + plan_view(more@),
{
    let mut more = more;
    let ghost before = plan@;
    let ghost added = more@;
    plan.append(&mut more);
    assert(plan_view(plan@) =~= plan_view(before) + plan_view(added));
}

/// The plan that looks at the identity of the contacted peer: three
/// unforced directives, for the identity document, the profile and the
/// identities delegated to, each from the peer's own section to the section
/// kept for that peer locally.
pub fn peek(urn: &Urn, remote_peer: PeerId) -> (plan: Vec<Refspec>)
    ensures
        plan_view(plan@) == peek_plan(urn@, remote_peer@),
{
    let namespace = Namespace::from(urn);
    let rad_id = Reference::rad_id(namespace.clone());
    let rad_self = Reference::rad_self(namespace.clone(), None);
    let rad_ids = Reference::rad_ids_glob(namespace);
    let mut plan: Vec<Refspec> = Vec::new();
    plan.push(rad_id.set_remote(Some(remote_peer.clone())).refspec(&rad_id, false).unwrap());
    plan.push(rad_self.set_remote(Some(remote_peer.clone())).refspec(&rad_self, false).unwrap());
    plan.push(rad_ids.set_remote(Some(remote_peer)).refspec(&rad_ids, false).unwrap());
    assert(plan_view(plan@) =~= peek_plan(urn@, remote_peer@));
    plan
}

/// The plan that fetches the signed state of each tracked peer: one
/// unforced directive per peer, in the order of the peers. The local side
/// lies in the section kept for the tracked peer. The remote side lies in
/// the contacted peer's own section where the tracked peer is the contacted
/// peer, and equals the local side otherwise.
pub fn signed_refs(urn: &Urn, remote_peer: &PeerId, peers: &PeerSet) -> (plan: Vec<Refspec>)
    ensures
        plan_view(plan@) == signed_refs_plan(urn@, remote_peer@, peers@),
{
    let mut plan: Vec<Refspec> = Vec::new();
    let mut i: usize = 0;
    while i < peers.len()
        invariant
            i <= peers@.len(),
            plan_view(plan@) == signed_refs_plan(urn@, remote_peer@, peers@).subrange(0, i as int),
        decreases peers@.len() - i,
    {
        let peer = peers.get(i);
        let local = Reference::rad_signed_refs(Namespace::from(urn), peer.clone());
        let remote = if peer == remote_peer {
            local.set_remote(None)
        } else {
            local.clone()
        };
        let ghost before = plan_view(plan@);
        let entry = local.refspec(&remote, false).unwrap();
        plan.push(entry);
        assert(plan_view(plan@) =~= before.push(
            signed_refs_entry(urn@, remote_peer@, peers@[i as int]),
        ));
        assert(signed_refs_plan(urn@, remote_peer@, peers@).subrange(0, i + 1) =~= before.push(
            signed_refs_entry(urn@, remote_peer@, peers@[i as int]),
        ));
        i += 1;
    }
    assert(signed_refs_plan(urn@, remote_peer@, peers@).subrange(0, i as int)
        =~= signed_refs_plan(urn@, remote_peer@, peers@));
    plan
}

/// The directives for those branches of `peer` that the contacted peer
/// advertises at the object that `peer` signed.
fn trusted_heads_for(
    urn: &Urn,
    remote_peer: &PeerId,
    remote_heads: &RemoteHeads,
    peer: &PeerId,
    refs: &Refs,
) -> (plan: Vec<Refspec>)
    ensures
        plan_view(plan@) == trusted_heads_of(
            remote_heads@,
            urn@,
            remote_peer@,
            peer@,
            refs@.heads,
        ),
{
    let mut plan: Vec<Refspec> = Vec::new();
    let mut i: usize = 0;
    assert(refs@.heads.subrange(0, 0) =~= Seq::<HeadView>::empty());
    while i < refs.len()
        invariant
            i <= refs@.heads.len(),
            plan_view(plan@) == trusted_heads_of(
                remote_heads@,
                urn@,
                remote_peer@,
                peer@,
                refs@.heads.subrange(0, i as int),
            ),
        decreases refs@.heads.len() - i,
    {
        let ghost upto = refs@.heads.subrange(0, i + 1);
        assert(upto.drop_last() =~= refs@.heads.subrange(0, i as int));
        assert(upto.last() == refs@.heads[i as int]);
        let name = refs.name_at(i);
        let target = refs.target_at(i);
        let local = Reference::head(Namespace::from(urn), Some(peer.clone()), name.clone());
        let remote = if peer == remote_peer {
            local.set_remote(None)
        } else {
            local.clone()
        };
        let advertised = remote.render();
        let matches = match advertised.as_path() {
            Some(path) => match remote_heads.get(path) {
                Some(found) => found == target,
                None => false,
            },
            None => false,
        };
        if matches {
            let ghost before = plan_view(plan@);
            plan.push(local.refspec(&remote, true).unwrap());
            assert(plan_view(plan@) =~= before.push(
                head_entry(urn@, remote_peer@, peer@, refs@.heads[i as int].name),
            ));
        }
        i += 1;
    }
    assert(refs@.heads.subrange(0, i as int) =~= refs@.heads);
    plan
}

/// The plan that replicates a project. First, for every tracked peer and
/// every branch it signed, in their order, a forced directive, provided
/// that the contacted peer advertises that branch at the signed object: in
/// its own section where the tracked peer is the contacted peer, in the
/// section kept for the tracked peer otherwise. Then the directives that
/// look at the contacted peer. Then, for every delegate in their order, the
/// directives that look at the delegate and those that fetch the signed
/// state which each tracked peer holds of it.
pub fn replicate(
    urn: &Urn,
    remote_peer: &PeerId,
    remote_heads: &RemoteHeads,
    tracked_sigrefs: &TrackedSigrefs,
    delegates: &UrnSet,
) -> (plan: Vec<Refspec>)
    ensures
        plan_view(plan@) == replicate_plan(
            urn@,
            remote_peer@,
            remote_heads@,
            tracked_sigrefs@,
            delegates@,
        ),
{
    let mut plan: Vec<Refspec> = Vec::new();
    let mut i: usize = 0;
    assert(tracked_sigrefs@.subrange(0, 0) =~= Seq::<TrackedView>::empty());
    while i < tracked_sigrefs.len()
        invariant
            i <= tracked_sigrefs@.len(),
            plan_view(plan@) == trusted_heads(
                remote_heads@,
                urn@,
                remote_peer@,
                tracked_sigrefs@.subrange(0, i as int),
            ),
        decreases tracked_sigrefs@.len() - i,
    {
        let ghost upto = tracked_sigrefs@.subrange(0, i + 1);
        assert(upto.drop_last() =~= tracked_sigrefs@.subrange(0, i as int));
        assert(upto.last() == tracked_sigrefs@[i as int]);
        let more = trusted_heads_for(
            urn,
            remote_peer,
            remote_heads,
            tracked_sigrefs.peer_at(i),
            tracked_sigrefs.refs_at(i),
        );
        extend(&mut plan, more);
        i += 1;
    }
    assert(tracked_sigrefs@.subrange(0, i as int) =~= tracked_sigrefs@);
    extend(&mut plan, peek(urn, remote_peer.clone()));
    let peers = tracked_sigrefs.peers();
    let ghost head = plan_view(plan@);
    let mut j: usize = 0;
    assert(delegates@.subrange(0, 0) =~= Seq::<Seq<char>>::empty());
    while j < delegates.len()
        invariant
            j <= delegates@.len(),
            peers@ == tracked_peers(tracked_sigrefs@),
            plan_view(plan@) == head + delegates_plan(
                delegates@.subrange(0, j as int),
                remote_peer@,
                peers@,
            ),
        decreases delegates@.len() - j,
    {
        let ghost upto = delegates@.subrange(0, j + 1);
        assert(upto.drop_last() =~= delegates@.subrange(0, j as int));
        assert(upto.last() == delegates@[j as int]);
        let delegate = delegates.get(j);
        let ghost before = plan_view(plan@);
        extend(&mut plan, peek(delegate, remote_peer.clone()));
        extend(&mut plan, signed_refs(delegate, remote_peer, &peers));
        assert(plan_view(plan@) =~= before + delegate_plan(delegate@, remote_peer@, peers@));
        assert(plan_view(plan@) =~= head + delegates_plan(upto, remote_peer@, peers@));
        j += 1;
    }
    assert(delegates@.subrange(0, j as int) =~= delegates@);
    plan
}

/// Which plan to make.
#[derive(Debug)]
pub enum Fetchspecs {
    /// Look at the identity of the contacted peer.
    Peek,
    /// Fetch the signed state of the tracked peers.
    SignedRefs { tracked_peers: PeerSet },
    /// Replicate the project: what the remote peer advertises, the signed
    /// state held for every tracked peer, and the identities that the
    /// project delegates to.
    Replicate { remote_heads: RemoteHeads, tracked_sigrefs: TrackedSigrefs, delegates: UrnSet },
}

impl Fetchspecs {
    /// The plan that this choice makes for the project `urn` and the
    /// contacted peer `remote_peer`.
    pub open spec fn plan(&self, urn: Seq<char>, remote_peer: Seq<char>) -> Seq<RefspecView> {
        match self {
            Fetchspecs::Peek => peek_plan(urn, remote_peer),
            Fetchspecs::SignedRefs { tracked_peers } => signed_refs_plan(
                urn,
                remote_peer,
                tracked_peers@,
            ),
            Fetchspecs::Replicate { remote_heads, tracked_sigrefs, delegates } => replicate_plan(
                urn,
                remote_peer,
                remote_heads@,
                tracked_sigrefs@,
                delegates@,
            ),
        }
    }

    /// The directives to hand to the transport, in order. They depend on
    /// nothing but the choice, the project and the contacted peer.
    pub fn refspecs(&self, urn: &Urn, remote_peer: PeerId) -> (plan: Vec<Refspec>)
        ensures
            plan_view(plan@) == self.plan(urn@, remote_peer@),
    {
        match self {
            Fetchspecs::Peek => peek(urn, remote_peer),
            Fetchspecs::SignedRefs { tracked_peers } => signed_refs(
                urn,
                &remote_peer,
                tracked_peers,
            ),
            Fetchspecs::Replicate { remote_heads, tracked_sigrefs, delegates } => replicate(
                urn,
                &remote_peer,
                remote_heads,
                tracked_sigrefs,
                delegates,
            ),
        }
    }
}

/// A reference as a remote peer lists it, or as the transport reports it
/// moved: its name as sent, the object it points to, and whether it is a
/// symbolic reference.
#[derive(Debug)]
pub struct Advertised {
    pub name: String,
    pub target: Oid,
    pub symbolic: bool,
}

/// A listed reference as a mathematical value.
pub struct AdvertisedView {
    pub name: Seq<char>,
    pub target: Seq<u8>,
    pub symbolic: bool,
}

impl View for Advertised {
    type V = AdvertisedView;

    open spec fn view(&self) -> AdvertisedView {
        AdvertisedView { name: self.name@, target: self.target@, symbolic: self.symbolic }
    }
}

/// The listed references, as mathematical values.
pub open spec fn listing_view(listing: Seq<Advertised>) -> Seq<AdvertisedView> {
    Seq::new(listing.len(), |i: int| listing[i]@)
}

/// The map that a listing stands for: symbolic references and names that
/// are no valid path are left out; of two entries of one name the later
/// one counts.
pub open spec fn listed(listing: Seq<AdvertisedView>) -> Map<Seq<Seq<char>>, Seq<u8>>
    decreases listing.len(),
{
    if listing.len() == 0 {
        Map::<Seq<Seq<char>>, Seq<u8>>::empty()
    } else {
        let before = listed(listing.drop_last());
        let entry = listing.last();
        if !entry.symbolic && valid_text(entry.name) {
            before.insert(split(entry.name), entry.target)
        } else {
            before
        }
    }
}

/// The references of a listing, each with the object it points to.
/// Symbolic references and malformed names are dropped.
pub fn collect_heads(listing: &Vec<Advertised>) -> (heads: RemoteHeads)
    ensures
        heads@ == listed(listing_view(listing@)),
{
    let mut heads = RemoteHeads::new();
    let mut i: usize = 0;
    let ghost all = listing_view(listing@);
    assert(all.subrange(0, 0) =~= Seq::<AdvertisedView>::empty());
    while i < listing.len()
        invariant
            i <= listing@.len(),
            all == listing_view(listing@),
            heads@ == listed(all.subrange(0, i as int)),
        decreases listing@.len() - i,
    {
        let ghost upto = all.subrange(0, i + 1);
        assert(upto.drop_last() =~= all.subrange(0, i as int));
        assert(upto.last() == listing@[i as int]@);
        let entry = &listing[i];
        if !entry.symbolic {
            match RefLike::parse(entry.name.as_str()) {
                Ok(name) => {
                    heads = heads.insert(name, entry.target);
                },
                Err(_) => {},
            }
        }
        i += 1;
    }
    assert(all.subrange(0, i as int) =~= all);
    heads
}

/// What a fetch brought: what the remote peer advertised, and the local
/// references that moved, each with its new object.
#[derive(Debug)]
pub struct FetchResult {
    pub remote_heads: RemoteHeads,
    pub updated_tips: RemoteHeads,
}

/// What carries a plan out against one remote peer, for one project.
pub trait Fetcher {
    /// Why a fetch failed.
    type Error;

    /// The peer that is contacted.
    fn remote_peer(&self) -> PeerId;

    /// The project that is fetched.
    fn urn(&self) -> &Urn;

    /// Makes the plan that `fetchspecs` chooses, carries it out, and says
    /// what the remote peer advertised and which local references moved.
    fn fetch(&mut self, fetchspecs: Fetchspecs) -> Result<FetchResult, Self::Error>;
}

/// A look at a peer is always three unforced directives: the identity
/// document, the profile and the identities delegated to, each copied from
/// the peer's own section to the section kept for the peer locally.
pub proof fn law_peek_shape(urn: Seq<char>, remote_peer: Seq<char>)
    ensures
        peek_plan(urn, remote_peer).len() == 3,
        forall|i: int| 0 <= i < 3 ==> !(#[trigger] peek_plan(urn, remote_peer)[i]).force,
        peek_plan(urn, remote_peer)[0].local == reference_in(
            urn,
            Some(remote_peer),
            CategoryView::RadId,
        ),
        peek_plan(urn, remote_peer)[0].remote == reference_in(urn, None, CategoryView::RadId),
        peek_plan(urn, remote_peer)[1].local == reference_in(
            urn,
            Some(remote_peer),
            CategoryView::RadSelf,
        ),
        peek_plan(urn, remote_peer)[1].remote == reference_in(urn, None, CategoryView::RadSelf),
        peek_plan(urn, remote_peer)[2].local == reference_in(
            urn,
            Some(remote_peer),
            CategoryView::RadIdsGlob,
        ),
        peek_plan(urn, remote_peer)[2].remote == reference_in(
            urn,
            None,
            CategoryView::RadIdsGlob,
        ),
{
}

/// The plan for the signed state has one unforced directive per tracked
/// peer, whose local side lies in the section kept for that peer. For the
/// contacted peer itself the remote side lies in the peer's own section;
/// for every other peer the remote side is the local side.
pub proof fn law_signed_refs_symmetry(
    urn: Seq<char>,
    remote_peer: Seq<char>,
    peers: Seq<Seq<char>>,
    i: int,
)
    requires
        0 <= i < peers.len(),
    ensures
        signed_refs_plan(urn, remote_peer, peers).len() == peers.len(),
        !signed_refs_plan(urn, remote_peer, peers)[i].force,
        signed_refs_plan(urn, remote_peer, peers)[i].local == reference_in(
            urn,
            Some(peers[i]),
            CategoryView::SignedRefs,
        ),
        peers[i] == remote_peer ==> signed_refs_plan(urn, remote_peer, peers)[i].remote
            == reference_in(urn, None, CategoryView::SignedRefs),
        peers[i] != remote_peer ==> signed_refs_plan(urn, remote_peer, peers)[i].remote
            == signed_refs_plan(urn, remote_peer, peers)[i].local,
{
}

} // verus!
