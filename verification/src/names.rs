//! The fixed segments of the reference layout.

use vstd::prelude::*;
use crate::path::{dot_dot, is_control, valid_segment, wildcard, RefLike};
use crate::text::chars_of;

verus! {

/// The segment `refs`.
pub open spec fn seg_refs() -> Seq<char> {
    seq!['r', 'e', 'f', 's']
}

/// The segment `namespaces`.
pub open spec fn seg_namespaces() -> Seq<char> {
    seq!['n', 'a', 'm', 'e', 's', 'p', 'a', 'c', 'e', 's']
}

/// The segment `remotes`.
pub open spec fn seg_remotes() -> Seq<char> {
    seq!['r', 'e', 'm', 'o', 't', 'e', 's']
}

/// The segment `rad`.
pub open spec fn seg_rad() -> Seq<char> {
    seq!['r', 'a', 'd']
}

/// The segment `id`.
pub open spec fn seg_id() -> Seq<char> {
    seq!['i', 'd']
}

/// The segment `self`.
pub open spec fn seg_self() -> Seq<char> {
    seq!['s', 'e', 'l', 'f']
}

/// The segment `ids`.
pub open spec fn seg_ids() -> Seq<char> {
    seq!['i', 'd', 's']
}

/// The segment `signed_refs`.
pub open spec fn seg_signed_refs() -> Seq<char> {
    seq!['s', 'i', 'g', 'n', 'e', 'd', '_', 'r', 'e', 'f', 's']
}

/// The segment `heads`.
pub open spec fn seg_heads() -> Seq<char> {
    seq!['h', 'e', 'a', 'd', 's']
}

/// A text of lower-case letters and underscores, not empty, is a valid
/// segment.
pub proof fn lemma_word_is_segment(s: Seq<char>)
    requires
        s.len() > 0,
        forall|i: int|
            0 <= i < s.len() ==> ('a' <= #[trigger] s[i] && s[i] <= 'z') || s[i] == '_',
    ensures
        valid_segment(s),
{
    assert forall|i: int| 0 <= i < s.len() implies s[i] != '/' && !is_control(#[trigger] s[i]) by {
        assert(('a' <= s[i] && s[i] <= 'z') || s[i] == '_');
    }
    if s == dot_dot() {
        assert(s[0] == '.');
    }
    if s == wildcard() {
        assert(s[0] == '*');
    }
}

/// Every fixed segment of the layout is a valid segment.
pub proof fn lemma_names_valid()
    ensures
        valid_segment(seg_refs()),
        valid_segment(seg_namespaces()),
        valid_segment(seg_remotes()),
        valid_segment(seg_rad()),
        valid_segment(seg_id()),
        valid_segment(seg_self()),
        valid_segment(seg_ids()),
        valid_segment(seg_signed_refs()),
        valid_segment(seg_heads()),
{
    lemma_word_is_segment(seg_refs());
    lemma_word_is_segment(seg_namespaces());
    lemma_word_is_segment(seg_remotes());
    lemma_word_is_segment(seg_rad());
    lemma_word_is_segment(seg_id());
    lemma_word_is_segment(seg_self());
    lemma_word_is_segment(seg_ids());
    lemma_word_is_segment(seg_signed_refs());
    lemma_word_is_segment(seg_heads());
}

/// The path of one segment that `text` spells.
fn word(text: &str) -> (out: RefLike)
    requires
        valid_segment(text@),
    ensures
        out@ == seq![text@],
        out.wf(),
{
    RefLike::single(chars_of(text))
}

/// The path `refs`.
pub(crate) fn refs() -> (out: RefLike)
    ensures
        out@ == seq![seg_refs()],
        out.wf(),
{
    proof {
        reveal_strlit("refs");
        assert("refs"@ =~= seg_refs());
        lemma_names_valid();
    }
    word("refs")
}

/// The path `namespaces`.
pub(crate) fn namespaces() -> (out: RefLike)
    ensures
        out@ == seq![seg_namespaces()],
        out.wf(),
{
    proof {
        reveal_strlit("namespaces");
        assert("namespaces"@ =~= seg_namespaces());
        lemma_names_valid();
    }
    word("namespaces")
}

/// The path `remotes`.
pub(crate) fn remotes() -> (out: RefLike)
    ensures
        out@ == seq![seg_remotes()],
        out.wf(),
{
    proof {
        reveal_strlit("remotes");
        assert("remotes"@ =~= seg_remotes());
        lemma_names_valid();
    }
    word("remotes")
}

/// The path `rad`.
pub(crate) fn rad() -> (out: RefLike)
    ensures
        out@ == seq![seg_rad()],
        out.wf(),
{
    proof {
        reveal_strlit("rad");
        assert("rad"@ =~= seg_rad());
        lemma_names_valid();
    }
    word("rad")
}

/// The path `id`.
pub(crate) fn id() -> (out: RefLike)
    ensures
        out@ == seq![seg_id()],
        out.wf(),
{
    proof {
        reveal_strlit("id");
        assert("id"@ =~= seg_id());
        lemma_names_valid();
    }
    word("id")
}

/// The path `self`.
pub(crate) fn self_() -> (out: RefLike)
    ensures
        out@ == seq![seg_self()],
        out.wf(),
{
    proof {
        reveal_strlit("self");
        assert("self"@ =~= seg_self());
        lemma_names_valid();
    }
    word("self")
}

/// The path `ids`.
pub(crate) fn ids() -> (out: RefLike)
    ensures
        out@ == seq![seg_ids()],
        out.wf(),
{
    proof {
        reveal_strlit("ids");
        assert("ids"@ =~= seg_ids());
        lemma_names_valid();
    }
    word("ids")
}

/// The path `signed_refs`.
pub(crate) fn signed_refs() -> (out: RefLike)
    ensures
        out@ == seq![seg_signed_refs()],
        out.wf(),
{
    proof {
        reveal_strlit("signed_refs");
        assert("signed_refs"@ =~= seg_signed_refs());
        lemma_names_valid();
    }
    word("signed_refs")
}

/// The path `heads`.
pub(crate) fn heads() -> (out: RefLike)
    ensures
        out@ == seq![seg_heads()],
        out.wf(),
{
    proof {
        reveal_strlit("heads");
        assert("heads"@ =~= seg_heads());
        lemma_names_valid();
    }
    word("heads")
}

} // verus!
