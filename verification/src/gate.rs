//! What the replication plan guarantees: which branches pass the trust
//! gate, and where the directives for the delegates stand.

use vstd::prelude::*;
use crate::collections::{
    as_keys, head_names, tracked_peers, valid_heads, valid_names, valid_tracked, HeadView,
    TrackedView,
};
use crate::fetch::{
    delegate_plan, delegates_plan, head_entry, head_trusted, peek_plan, reference_in,
    replicate_plan, signed_refs_plan, trusted_heads, trusted_heads_of,
};
use crate::identity::namespace_of;
use crate::path::{valid_segment, valid_segments};
use crate::reference::{
    lemma_reference_segments_round_trip, reference_segments, valid_reference, CategoryView,
    ReferenceView,
};
use crate::refspec::RefspecView;
use crate::sorted::lemma_ascending_distinct;

verus! {

/// How many directives of `plan` have `local` as their local side.
pub open spec fn occurrences(plan: Seq<RefspecView>, local: Seq<Seq<char>>) -> nat
    decreases plan.len(),
{
    if plan.len() == 0 {
        0
    } else if plan.last().local == local {
        occurrences(plan.drop_last(), local) + 1
    } else {
        occurrences(plan.drop_last(), local)
    }
}

/// The occurrences in two plans put together are those in the one and
/// those in the other.
pub proof fn lemma_occurrences_concat(
    a: Seq<RefspecView>,
    b: Seq<RefspecView>,
    local: Seq<Seq<char>>,
)
    ensures
        occurrences(a + b, local) == occurrences(a, local) + occurrences(b, local),
    decreases b.len(),
{
    if b.len() == 0 {
        assert(a + b =~= a);
    } else {
        assert((a + b).drop_last() =~= a + b.drop_last());
        assert((a + b).last() == b.last());
        lemma_occurrences_concat(a, b.drop_last(), local);
    }
}

/// A plan none of whose directives has `local` as its local side holds no
/// occurrence of it.
pub proof fn lemma_occurrences_none(plan: Seq<RefspecView>, local: Seq<Seq<char>>)
    requires
        forall|k: int| 0 <= k < plan.len() ==> (#[trigger] plan[k]).local != local,
    ensures
        occurrences(plan, local) == 0,
    decreases plan.len(),
{
    if plan.len() > 0 {
        assert(plan.last() == plan[plan.len() - 1]);
        let front = plan.drop_last();
        assert forall|k: int| 0 <= k < front.len() implies (#[trigger] front[k]).local
            != local by {
            assert(front[k] == plan[k]);
        }
        lemma_occurrences_none(front, local);
    }
}

/// Two valid references with the same segments are the same reference.
pub proof fn lemma_reference_injective(a: ReferenceView, b: ReferenceView)
    requires
        valid_reference(a),
        valid_reference(b),
        reference_segments(a) == reference_segments(b),
    ensures
        a == b,
{
    lemma_reference_segments_round_trip(a);
    lemma_reference_segments_round_trip(b);
}

/// The local side of the directive for the branch `name` of `peer`.
pub open spec fn local_head(urn: Seq<char>, peer: Seq<char>, name: Seq<Seq<char>>) -> Seq<
    Seq<char>,
> {
    reference_in(urn, Some(peer), CategoryView::Head(name))
}

/// Two local sides of branches are the same only for the same peer and
/// the same branch.
pub proof fn lemma_local_head_injective(
    urn: Seq<char>,
    peer: Seq<char>,
    name: Seq<Seq<char>>,
    other_peer: Seq<char>,
    other_name: Seq<Seq<char>>,
)
    requires
        valid_segment(urn),
        valid_segment(peer),
        valid_segments(name),
        valid_segment(other_peer),
        valid_segments(other_name),
        local_head(urn, peer, name) == local_head(urn, other_peer, other_name),
    ensures
        peer == other_peer,
        name == other_name,
{
    let a = ReferenceView {
        namespace: namespace_of(urn),
        remote: Some(peer),
        category: CategoryView::Head(name),
    };
    let b = ReferenceView {
        namespace: namespace_of(urn),
        remote: Some(other_peer),
        category: CategoryView::Head(other_name),
    };
    lemma_reference_injective(a, b);
}

/// The local side of a branch is the local side of no reference of
/// another category.
pub proof fn lemma_local_head_category(
    urn: Seq<char>,
    peer: Seq<char>,
    name: Seq<Seq<char>>,
    other_urn: Seq<char>,
    other_peer: Seq<char>,
    category: CategoryView,
)
    requires
        valid_segment(urn),
        valid_segment(peer),
        valid_segments(name),
        valid_segment(other_urn),
        valid_segment(other_peer),
        !(category is Head),
    ensures
        reference_in(other_urn, Some(other_peer), category) != local_head(urn, peer, name),
{
    let a = ReferenceView {
        namespace: namespace_of(urn),
        remote: Some(peer),
        category: CategoryView::Head(name),
    };
    let b = ReferenceView {
        namespace: namespace_of(other_urn),
        remote: Some(other_peer),
        category,
    };
    if reference_segments(a) == reference_segments(b) {
        lemma_reference_injective(a, b);
    }
}

/// Whether `peer` signed a branch `name` that the contacted peer
/// advertises at the signed object.
pub open spec fn signed_and_trusted(
    remote_heads: Map<Seq<Seq<char>>, Seq<u8>>,
    urn: Seq<char>,
    remote_peer: Seq<char>,
    peer: Seq<char>,
    heads: Seq<HeadView>,
    name: Seq<Seq<char>>,
) -> bool {
    exists|j: int|
        0 <= j < heads.len() && (#[trigger] heads[j]).name == name && head_trusted(
            remote_heads,
            urn,
            remote_peer,
            peer,
            heads[j],
        )
}

/// The branches without the last one are valid branches.
pub proof fn lemma_valid_heads_front(heads: Seq<HeadView>)
    requires
        valid_heads(heads),
        heads.len() > 0,
    ensures
        valid_heads(heads.drop_last()),
        forall|j: int| 0 <= j < heads.len() - 1 ==> (#[trigger] heads[j]).name != heads.last().name,
{
    let front = heads.drop_last();
    let names = head_names(heads);
    assert forall|i: int, j: int| 0 <= i < j < front.len() implies crate::path::path_lt(
        #[trigger] head_names(front)[i],
        #[trigger] head_names(front)[j],
    ) by {
        assert(crate::path::path_lt(names[i], names[j]));
    }
    assert forall|j: int| 0 <= j < front.len() implies valid_segments(#[trigger] front[j].name) by {
        assert(valid_segments(heads[j].name));
    }
    assert forall|j: int| 0 <= j < heads.len() - 1 implies (#[trigger] heads[j]).name
        != heads.last().name by {
        if heads[j].name == heads.last().name {
            assert(names[j] == names[heads.len() - 1]);
            lemma_ascending_distinct(names, j, heads.len() - 1);
        }
    }
}

/// Among the directives for the branches of one peer, the local side of
/// the branch `name` of the peer `of` occurs once where `of` is that peer
/// and signed the branch as the contacted peer advertises it, where also
/// the directive for it stands among them; it does not occur otherwise.
pub proof fn lemma_trusted_heads_of(
    remote_heads: Map<Seq<Seq<char>>, Seq<u8>>,
    urn: Seq<char>,
    remote_peer: Seq<char>,
    peer: Seq<char>,
    heads: Seq<HeadView>,
    of: Seq<char>,
    name: Seq<Seq<char>>,
)
    requires
        valid_segment(urn),
        valid_segment(peer),
        valid_segment(of),
        valid_heads(heads),
        valid_segments(name),
    ensures
        occurrences(
            trusted_heads_of(remote_heads, urn, remote_peer, peer, heads),
            local_head(urn, of, name),
        ) == (if peer == of && signed_and_trusted(
            remote_heads,
            urn,
            remote_peer,
            peer,
            heads,
            name,
        ) {
            1nat
        } else {
            0nat
        }),
        peer == of && signed_and_trusted(remote_heads, urn, remote_peer, peer, heads, name)
            ==> trusted_heads_of(remote_heads, urn, remote_peer, peer, heads).contains(
            head_entry(urn, remote_peer, of, name),
        ),
    decreases heads.len(),
{
    let target = local_head(urn, of, name);
    let all = trusted_heads_of(remote_heads, urn, remote_peer, peer, heads);
    if heads.len() > 0 {
        let front = heads.drop_last();
        let last = heads.last();
        let some = trusted_heads_of(remote_heads, urn, remote_peer, peer, front);
        lemma_valid_heads_front(heads);
        lemma_trusted_heads_of(remote_heads, urn, remote_peer, peer, front, of, name);
        assert(valid_segments(heads[heads.len() - 1].name));
        let entry = head_entry(urn, remote_peer, peer, last.name);
        if entry.local == target {
            lemma_local_head_injective(urn, peer, last.name, of, name);
        }
        let was = signed_and_trusted(remote_heads, urn, remote_peer, peer, front, name);
        let is = signed_and_trusted(remote_heads, urn, remote_peer, peer, heads, name);
        let trusted = head_trusted(remote_heads, urn, remote_peer, peer, last);
        if was {
            let j = choose|j: int|
                0 <= j < front.len() && (#[trigger] front[j]).name == name && head_trusted(
                    remote_heads,
                    urn,
                    remote_peer,
                    peer,
                    front[j],
                );
            assert(heads[j] == front[j]);
            assert(is);
            assert(last.name != name);
        }
        if is && !was {
            let j = choose|j: int|
                0 <= j < heads.len() && (#[trigger] heads[j]).name == name && head_trusted(
                    remote_heads,
                    urn,
                    remote_peer,
                    peer,
                    heads[j],
                );
            if j < front.len() {
                assert(front[j] == heads[j]);
            }
            assert(j == heads.len() - 1);
            assert(trusted && last.name == name);
        }
        if trusted && last.name == name {
            assert(heads[heads.len() - 1] == last);
            assert(is);
        }
        if trusted {
            assert(all == some.push(entry));
            assert(all.drop_last() =~= some);
            assert(all.last() == entry);
            if peer == of && is {
                if last.name == name {
                    assert(all[all.len() - 1] == head_entry(urn, remote_peer, of, name));
                } else {
                    let k = choose|k: int|
                        0 <= k < some.len() && some[k] == head_entry(urn, remote_peer, of, name);
                    assert(all[k] == some[k]);
                }
            }
        }
    } else {
        assert(!signed_and_trusted(remote_heads, urn, remote_peer, peer, heads, name));
    }
}

/// Whether some tracked peer named `of` signed a branch `name` that the
/// contacted peer advertises at the signed object.
pub open spec fn tracked_and_trusted(
    remote_heads: Map<Seq<Seq<char>>, Seq<u8>>,
    urn: Seq<char>,
    remote_peer: Seq<char>,
    sigrefs: Seq<TrackedView>,
    of: Seq<char>,
    name: Seq<Seq<char>>,
) -> bool {
    exists|i: int|
        0 <= i < sigrefs.len() && (#[trigger] sigrefs[i]).peer == of && signed_and_trusted(
            remote_heads,
            urn,
            remote_peer,
            of,
            sigrefs[i].refs.heads,
            name,
        )
}

/// The tracked peers without the last one are valid, and none of them has
/// the name of the last one.
pub proof fn lemma_valid_tracked_front(sigrefs: Seq<TrackedView>)
    requires
        valid_tracked(sigrefs),
        sigrefs.len() > 0,
    ensures
        valid_tracked(sigrefs.drop_last()),
        valid_segment(sigrefs.last().peer),
        valid_heads(sigrefs.last().refs.heads),
        forall|i: int| 0 <= i < sigrefs.len() - 1 ==> (#[trigger] sigrefs[i]).peer
            != sigrefs.last().peer,
{
    let front = sigrefs.drop_last();
    let names = tracked_peers(sigrefs);
    let keys = as_keys(names);
    let n = sigrefs.len() - 1;
    assert forall|i: int, j: int| 0 <= i < j < front.len() implies crate::path::path_lt(
        #[trigger] as_keys(tracked_peers(front))[i],
        #[trigger] as_keys(tracked_peers(front))[j],
    ) by {
        assert(crate::path::path_lt(keys[i], keys[j]));
    }
    assert forall|i: int| 0 <= i < front.len() implies valid_segment(
        #[trigger] tracked_peers(front)[i],
    ) by {
        assert(valid_segment(names[i]));
    }
    assert forall|i: int| 0 <= i < front.len() implies valid_heads(
        #[trigger] front[i].refs.heads,
    ) by {
        assert(valid_heads(sigrefs[i].refs.heads));
    }
    assert(valid_segment(names[n]));
    assert(valid_heads(sigrefs[n].refs.heads));
    assert forall|i: int| 0 <= i < sigrefs.len() - 1 implies (#[trigger] sigrefs[i]).peer
        != sigrefs.last().peer by {
        if sigrefs[i].peer == sigrefs.last().peer {
            assert(keys[i] == keys[n]);
            lemma_ascending_distinct(keys, i, n);
        }
    }
}

/// Among the directives for the trusted branches of all tracked peers,
/// the local side of the branch `name` of the peer `of` occurs once where
/// `of` is tracked and signed the branch as the contacted peer advertises
/// it, where also the directive for it stands among them; it does not
/// occur otherwise.
pub proof fn lemma_trusted_heads(
    remote_heads: Map<Seq<Seq<char>>, Seq<u8>>,
    urn: Seq<char>,
    remote_peer: Seq<char>,
    sigrefs: Seq<TrackedView>,
    of: Seq<char>,
    name: Seq<Seq<char>>,
)
    requires
        valid_segment(urn),
        valid_tracked(sigrefs),
        valid_segment(of),
        valid_segments(name),
    ensures
        occurrences(
            trusted_heads(remote_heads, urn, remote_peer, sigrefs),
            local_head(urn, of, name),
        ) == (if tracked_and_trusted(remote_heads, urn, remote_peer, sigrefs, of, name) {
            1nat
        } else {
            0nat
        }),
        tracked_and_trusted(remote_heads, urn, remote_peer, sigrefs, of, name) ==> trusted_heads(
            remote_heads,
            urn,
            remote_peer,
            sigrefs,
        ).contains(head_entry(urn, remote_peer, of, name)),
    decreases sigrefs.len(),
{
    let target = local_head(urn, of, name);
    let wanted = head_entry(urn, remote_peer, of, name);
    if sigrefs.len() > 0 {
        let front = sigrefs.drop_last();
        let last = sigrefs.last();
        let some = trusted_heads(remote_heads, urn, remote_peer, front);
        let more = trusted_heads_of(remote_heads, urn, remote_peer, last.peer, last.refs.heads);
        let all = trusted_heads(remote_heads, urn, remote_peer, sigrefs);
        lemma_valid_tracked_front(sigrefs);
        lemma_trusted_heads(remote_heads, urn, remote_peer, front, of, name);
        lemma_trusted_heads_of(
            remote_heads,
            urn,
            remote_peer,
            last.peer,
            last.refs.heads,
            of,
            name,
        );
        lemma_occurrences_concat(some, more, target);
        let was = tracked_and_trusted(remote_heads, urn, remote_peer, front, of, name);
        let is = tracked_and_trusted(remote_heads, urn, remote_peer, sigrefs, of, name);
        let here = last.peer == of && signed_and_trusted(
            remote_heads,
            urn,
            remote_peer,
            of,
            last.refs.heads,
            name,
        );
        if was {
            let i = choose|i: int|
                0 <= i < front.len() && (#[trigger] front[i]).peer == of && signed_and_trusted(
                    remote_heads,
                    urn,
                    remote_peer,
                    of,
                    front[i].refs.heads,
                    name,
                );
            assert(sigrefs[i] == front[i]);
            assert(is);
            assert(last.peer != of);
            let k = choose|k: int| 0 <= k < some.len() && some[k] == wanted;
            assert(all[k] == some[k]);
        }
        if here {
            assert(sigrefs[sigrefs.len() - 1] == last);
            assert(is);
            let k = choose|k: int| 0 <= k < more.len() && more[k] == wanted;
            assert(all[some.len() + k] == more[k]);
        }
        if is && !was {
            let i = choose|i: int|
                0 <= i < sigrefs.len() && (#[trigger] sigrefs[i]).peer == of
                    && signed_and_trusted(
                    remote_heads,
                    urn,
                    remote_peer,
                    of,
                    sigrefs[i].refs.heads,
                    name,
                );
            if i < front.len() {
                assert(front[i] == sigrefs[i]);
            }
            assert(here);
        }
    } else {
        assert(!tracked_and_trusted(remote_heads, urn, remote_peer, sigrefs, of, name));
    }
}

/// A look at a peer holds no directive for a branch.
pub proof fn lemma_peek_has_no_head(
    urn: Seq<char>,
    remote_peer: Seq<char>,
    of_urn: Seq<char>,
    of: Seq<char>,
    name: Seq<Seq<char>>,
)
    requires
        valid_segment(urn),
        valid_segment(remote_peer),
        valid_segment(of_urn),
        valid_segment(of),
        valid_segments(name),
    ensures
        occurrences(peek_plan(urn, remote_peer), local_head(of_urn, of, name)) == 0,
{
    let plan = peek_plan(urn, remote_peer);
    lemma_local_head_category(of_urn, of, name, urn, remote_peer, CategoryView::RadId);
    lemma_local_head_category(of_urn, of, name, urn, remote_peer, CategoryView::RadSelf);
    lemma_local_head_category(of_urn, of, name, urn, remote_peer, CategoryView::RadIdsGlob);
    lemma_occurrences_none(plan, local_head(of_urn, of, name));
}

/// The plan for the signed state holds no directive for a branch.
pub proof fn lemma_signed_refs_has_no_head(
    urn: Seq<char>,
    remote_peer: Seq<char>,
    peers: Seq<Seq<char>>,
    of_urn: Seq<char>,
    of: Seq<char>,
    name: Seq<Seq<char>>,
)
    requires
        valid_segment(urn),
        valid_names(peers),
        valid_segment(of_urn),
        valid_segment(of),
        valid_segments(name),
    ensures
        occurrences(signed_refs_plan(urn, remote_peer, peers), local_head(of_urn, of, name)) == 0,
{
    let plan = signed_refs_plan(urn, remote_peer, peers);
    assert forall|k: int| 0 <= k < plan.len() implies (#[trigger] plan[k]).local != local_head(
        of_urn,
        of,
        name,
    ) by {
        assert(valid_segment(peers[k]));
        lemma_local_head_category(of_urn, of, name, urn, peers[k], CategoryView::SignedRefs);
    }
    lemma_occurrences_none(plan, local_head(of_urn, of, name));
}

/// What is fetched for the delegates holds no directive for a branch.
pub proof fn lemma_delegates_have_no_head(
    delegates: Seq<Seq<char>>,
    remote_peer: Seq<char>,
    peers: Seq<Seq<char>>,
    of_urn: Seq<char>,
    of: Seq<char>,
    name: Seq<Seq<char>>,
)
    requires
        forall|d: int| 0 <= d < delegates.len() ==> valid_segment(#[trigger] delegates[d]),
        valid_segment(remote_peer),
        valid_names(peers),
        valid_segment(of_urn),
        valid_segment(of),
        valid_segments(name),
    ensures
        occurrences(delegates_plan(delegates, remote_peer, peers), local_head(of_urn, of, name))
            == 0,
    decreases delegates.len(),
{
    if delegates.len() > 0 {
        let front = delegates.drop_last();
        let last = delegates.last();
        let target = local_head(of_urn, of, name);
        assert forall|d: int| 0 <= d < front.len() implies valid_segment(#[trigger] front[d]) by {
            assert(valid_segment(delegates[d]));
        }
        assert(valid_segment(delegates[delegates.len() - 1]));
        lemma_delegates_have_no_head(front, remote_peer, peers, of_urn, of, name);
        lemma_peek_has_no_head(last, remote_peer, of_urn, of, name);
        lemma_signed_refs_has_no_head(last, remote_peer, peers, of_urn, of, name);
        lemma_occurrences_concat(
            peek_plan(last, remote_peer),
            signed_refs_plan(last, remote_peer, peers),
            target,
        );
        lemma_occurrences_concat(
            delegates_plan(front, remote_peer, peers),
            delegate_plan(last, remote_peer, peers),
            target,
        );
    }
}

/// The trust gate. Take a tracked peer and a branch that it signed. Where
/// the contacted peer advertises that branch at the signed object, the
/// plan holds exactly one directive that stores the branch in the section
/// kept for the tracked peer, and it is the forced directive for that
/// branch. Where the contacted peer does not advertise the branch, or
/// advertises it at another object, the plan holds no directive that
/// stores it.
pub proof fn law_trust_gate(
    urn: Seq<char>,
    remote_peer: Seq<char>,
    remote_heads: Map<Seq<Seq<char>>, Seq<u8>>,
    sigrefs: Seq<TrackedView>,
    delegates: Seq<Seq<char>>,
    i: int,
    j: int,
)
    requires
        valid_segment(urn),
        valid_segment(remote_peer),
        valid_tracked(sigrefs),
        valid_names(delegates),
        0 <= i < sigrefs.len(),
        0 <= j < sigrefs[i].refs.heads.len(),
    ensures
        ({
            let peer = sigrefs[i].peer;
            let head = sigrefs[i].refs.heads[j];
            let plan = replicate_plan(urn, remote_peer, remote_heads, sigrefs, delegates);
            let entry = head_entry(urn, remote_peer, peer, head.name);
            &&& entry.force
            &&& entry.local == local_head(urn, peer, head.name)
            &&& head_trusted(remote_heads, urn, remote_peer, peer, head) ==> occurrences(
                plan,
                entry.local,
            ) == 1 && plan.contains(entry)
            &&& !head_trusted(remote_heads, urn, remote_peer, peer, head) ==> occurrences(
                plan,
                entry.local,
            ) == 0
        }),
{
    let peer = sigrefs[i].peer;
    let heads = sigrefs[i].refs.heads;
    let head = heads[j];
    let name = head.name;
    let target = local_head(urn, peer, name);
    let first = trusted_heads(remote_heads, urn, remote_peer, sigrefs);
    let second = peek_plan(urn, remote_peer);
    let third = delegates_plan(delegates, remote_peer, tracked_peers(sigrefs));
    let plan = replicate_plan(urn, remote_peer, remote_heads, sigrefs, delegates);
    let names = tracked_peers(sigrefs);
    assert(valid_segment(names[i]));
    assert(valid_heads(sigrefs[i].refs.heads));
    assert(valid_segments(heads[j].name));
    lemma_trusted_heads(remote_heads, urn, remote_peer, sigrefs, peer, name);
    lemma_peek_has_no_head(urn, remote_peer, urn, peer, name);
    lemma_delegates_have_no_head(delegates, remote_peer, names, urn, peer, name);
    lemma_occurrences_concat(first, second, target);
    lemma_occurrences_concat(first + second, third, target);
    let trusted = head_trusted(remote_heads, urn, remote_peer, peer, head);
    let is = tracked_and_trusted(remote_heads, urn, remote_peer, sigrefs, peer, name);
    if trusted {
        assert(signed_and_trusted(remote_heads, urn, remote_peer, peer, heads, name));
        assert(is);
        let k = choose|k: int|
            0 <= k < first.len() && first[k] == head_entry(urn, remote_peer, peer, name);
        assert(plan[k] == first[k]);
    }
    if is {
        let at = choose|at: int|
            0 <= at < sigrefs.len() && (#[trigger] sigrefs[at]).peer == peer
                && signed_and_trusted(
                remote_heads,
                urn,
                remote_peer,
                peer,
                sigrefs[at].refs.heads,
                name,
            );
        let keys = as_keys(names);
        assert(keys[at] == keys[i]);
        lemma_ascending_distinct(keys, at, i);
        let b = choose|b: int|
            0 <= b < heads.len() && (#[trigger] heads[b]).name == name && head_trusted(
                remote_heads,
                urn,
                remote_peer,
                peer,
                heads[b],
            );
        assert(head_names(heads)[b] == head_names(heads)[j]);
        lemma_ascending_distinct(head_names(heads), b, j);
        assert(trusted);
    }
}

/// Where the directives for the delegate at position `d` begin in the
/// plan.
pub open spec fn delegate_start(
    urn: Seq<char>,
    remote_peer: Seq<char>,
    remote_heads: Map<Seq<Seq<char>>, Seq<u8>>,
    sigrefs: Seq<TrackedView>,
    delegates: Seq<Seq<char>>,
    d: int,
) -> int {
    trusted_heads(remote_heads, urn, remote_peer, sigrefs).len() + 3 + delegates_plan(
        delegates.subrange(0, d),
        remote_peer,
        tracked_peers(sigrefs),
    ).len() as int
}

/// What is fetched for the delegate at position `d` stands, whole and in
/// order, behind what is fetched for the delegates before it.
pub proof fn lemma_delegates_plan_at(
    delegates: Seq<Seq<char>>,
    remote_peer: Seq<char>,
    peers: Seq<Seq<char>>,
    d: int,
)
    requires
        0 <= d < delegates.len(),
    ensures
        ({
            let all = delegates_plan(delegates, remote_peer, peers);
            let start = delegates_plan(delegates.subrange(0, d), remote_peer, peers).len() as int;
            let one = delegate_plan(delegates[d], remote_peer, peers);
            let end = start + one.len() as int;
            &&& end <= all.len()
            &&& all.subrange(start, end) == one
        }),
    decreases delegates.len(),
{
    let all = delegates_plan(delegates, remote_peer, peers);
    let front = delegates.drop_last();
    let start = delegates_plan(delegates.subrange(0, d), remote_peer, peers).len() as int;
    let one = delegate_plan(delegates[d], remote_peer, peers);
    let end = start + one.len() as int;
    if d == delegates.len() - 1 {
        assert(delegates.subrange(0, d) =~= front);
        assert(all.subrange(start, end) =~= one);
    } else {
        lemma_delegates_plan_at(front, remote_peer, peers, d);
        assert(front.subrange(0, d) =~= delegates.subrange(0, d));
        assert(front[d] == delegates[d]);
        let some = delegates_plan(front, remote_peer, peers);
        assert(all.subrange(start, end) =~= some.subrange(start, end));
    }
}

/// Delegate expansion. For every delegate the plan holds, one after the
/// other, the three directives that look at the delegate through the
/// contacted peer and then one directive per tracked peer for the signed
/// state which that peer holds of the delegate, whatever was signed or
/// advertised for the project itself.
pub proof fn law_delegate_expansion(
    urn: Seq<char>,
    remote_peer: Seq<char>,
    remote_heads: Map<Seq<Seq<char>>, Seq<u8>>,
    sigrefs: Seq<TrackedView>,
    delegates: Seq<Seq<char>>,
    d: int,
)
    requires
        0 <= d < delegates.len(),
    ensures
        ({
            let plan = replicate_plan(urn, remote_peer, remote_heads, sigrefs, delegates);
            let peers = tracked_peers(sigrefs);
            let start = delegate_start(urn, remote_peer, remote_heads, sigrefs, delegates, d);
            let middle = start + 3;
            let end = middle + peers.len() as int;
            &&& 0 <= start
            &&& end <= plan.len()
            &&& plan.subrange(start, middle) == peek_plan(delegates[d], remote_peer)
            &&& plan.subrange(middle, end) == signed_refs_plan(delegates[d], remote_peer, peers)
        }),
{
    let plan = replicate_plan(urn, remote_peer, remote_heads, sigrefs, delegates);
    let peers = tracked_peers(sigrefs);
    let first = trusted_heads(remote_heads, urn, remote_peer, sigrefs);
    let second = peek_plan(urn, remote_peer);
    let third = delegates_plan(delegates, remote_peer, peers);
    let start = delegate_start(urn, remote_peer, remote_heads, sigrefs, delegates, d);
    let middle = start + 3;
    let end = middle + peers.len() as int;
    let inner = delegates_plan(delegates.subrange(0, d), remote_peer, peers).len() as int;
    let one = delegate_plan(delegates[d], remote_peer, peers);
    let count = one.len() as int;
    lemma_delegates_plan_at(delegates, remote_peer, peers, d);
    assert(count == 3 + peers.len());
    assert(third.subrange(inner, inner + count) == one);
    let whole = plan.subrange(start, start + count);
    assert(whole =~= third.subrange(inner, inner + count));
    assert(plan.subrange(start, middle) =~= whole.subrange(0, 3));
    assert(plan.subrange(middle, end) =~= whole.subrange(3, count));
    assert(one.subrange(0, 3) =~= peek_plan(delegates[d], remote_peer));
    assert(one.subrange(3, count) =~= signed_refs_plan(delegates[d], remote_peer, peers));
}

} // verus!
