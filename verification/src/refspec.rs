//! Transfer directives: which remote reference is copied to which local
//! one, and whether the update may rewrite history.

use vstd::prelude::*;
use crate::path::{
    ends_in_wildcard, join_text, lemma_join_split, lemma_split_join, separator_free, split,
    valid_pattern, valid_pattern_text, valid_segment, valid_segments, valid_text, wildcard,
    PathError, RefPath,
};
use crate::text::{
    append_text, chars_of, find_char, index_of, lemma_index_of_is, lemma_index_of_shift, slice_text,
    string_of,
};

verus! {

/// A transfer directive as a mathematical value: the segments of the
/// local and of the remote side, and the force flag.
pub struct RefspecView {
    pub local: Seq<Seq<char>>,
    pub remote: Seq<Seq<char>>,
    pub force: bool,
}

/// A side of a directive: a valid path or a valid pattern.
pub open spec fn valid_side(segs: Seq<Seq<char>>) -> bool {
    valid_segments(segs) || valid_pattern(segs)
}

/// A text that reads as a side of a directive.
pub open spec fn valid_side_text(s: Seq<char>) -> bool {
    valid_text(s) || valid_pattern_text(s)
}

/// A directive whose sides are valid and are both patterns or both paths.
pub open spec fn valid_refspec(v: RefspecView) -> bool {
    &&& valid_side(v.local)
    &&& valid_side(v.remote)
    &&& ends_in_wildcard(v.local) == ends_in_wildcard(v.remote)
}

/// The mark that stands in front of a forced directive.
pub open spec fn force_mark(force: bool) -> Seq<char> {
    if force {
        seq!['+']
    } else {
        Seq::<char>::empty()
    }
}

/// The text of a directive: a `+` where it is forced, the remote side, a
/// colon, the local side.
pub open spec fn refspec_text(v: RefspecView) -> Seq<char> {
    force_mark(v.force) + join_text(v.remote) + seq![':'] + join_text(v.local)
}

/// What a text says as a directive. A leading `+` sets the force flag; the
/// first colon after it parts the remote side from the local one.
pub open spec fn parse_refspec(text: Seq<char>) -> Result<RefspecView, PathError> {
    let force = text.len() > 0 && text[0] == '+';
    let rest = if force {
        text.skip(1)
    } else {
        text
    };
    let at = index_of(rest, ':', 0);
    let remote = rest.subrange(0, at);
    let local = rest.subrange(at + 1, rest.len() as int);
    if at >= rest.len() {
        Err(PathError::InvalidPath)
    } else if !(valid_side_text(remote) && valid_side_text(local)) {
        Err(PathError::InvalidPath)
    } else if ends_in_wildcard(split(remote)) != ends_in_wildcard(split(local)) {
        Err(PathError::MixedPattern)
    } else {
        Ok(RefspecView { local: split(local), remote: split(remote), force })
    }
}

/// No segment of a valid side holds a separator.
pub proof fn lemma_valid_side_plain(segs: Seq<Seq<char>>)
    requires
        valid_side(segs),
    ensures
        segs.len() >= 1,
        separator_free(segs),
{
    assert forall|i: int, j: int|
        0 <= i < segs.len() && 0 <= j < segs[i].len() implies #[trigger] segs[i][j] != '/' by {
        if valid_segments(segs) {
            assert(valid_segment(segs[i]));
        } else if i < segs.len() - 1 {
            assert(valid_segment(segs[i]));
        } else {
            assert(segs[i] == wildcard());
        }
    }
}

/// Whether a text begins with `+`.
pub open spec fn starts_with_plus(s: Seq<char>) -> bool {
    s.len() > 0 && s[0] == '+'
}

/// Whether a text holds a colon.
pub open spec fn has_colon(s: Seq<char>) -> bool {
    exists|i: int| 0 <= i < s.len() && s[i] == ':'
}

/// Writing a valid directive as text and reading the text again gives the
/// directive back, provided that the text of its remote side holds no
/// colon and, where the directive is not forced, does not begin with `+`.
pub proof fn law_refspec_round_trip(v: RefspecView)
    requires
        valid_refspec(v),
        !has_colon(join_text(v.remote)),
        v.force || !starts_with_plus(join_text(v.remote)),
    ensures
        parse_refspec(refspec_text(v)) == Ok::<RefspecView, PathError>(v),
{
    let remote = join_text(v.remote);
    let local = join_text(v.local);
    let text = refspec_text(v);
    let rest = remote + seq![':'] + local;
    if v.force {
        assert(text[0] == '+');
        assert(text.skip(1) =~= rest);
    } else {
        assert(text =~= rest);
        if text[0] == '+' {
            if remote.len() > 0 {
                assert(text[0] == remote[0]);
            } else {
                assert(text[0] == ':');
            }
        }
    }
    let at = remote.len() as int;
    assert(rest[at] == ':');
    assert forall|j: int| 0 <= j < at implies rest[j] != ':' by {
        assert(rest[j] == remote[j]);
    }
    lemma_index_of_is(rest, ':', 0, at);
    assert(rest.subrange(0, at) =~= remote);
    assert(rest.subrange(at + 1, rest.len() as int) =~= local);
    lemma_valid_side_plain(v.remote);
    lemma_valid_side_plain(v.local);
    lemma_split_join(v.remote);
    lemma_split_join(v.local);
}

/// A text that reads as a directive is the text of that directive, which
/// is valid.
pub proof fn law_refspec_parse_render(text: Seq<char>)
    requires
        parse_refspec(text) is Ok,
    ensures
        valid_refspec(parse_refspec(text)->Ok_0),
        refspec_text(parse_refspec(text)->Ok_0) == text,
{
    let v = parse_refspec(text)->Ok_0;
    let force = text.len() > 0 && text[0] == '+';
    let rest = if force {
        text.skip(1)
    } else {
        text
    };
    let at = index_of(rest, ':', 0);
    let remote = rest.subrange(0, at);
    let local = rest.subrange(at + 1, rest.len() as int);
    crate::text::lemma_index_of_at(rest, ':', 0);
    lemma_join_split(remote);
    lemma_join_split(local);
    assert(remote + seq![':'] + local =~= rest);
    assert(force_mark(force) + rest =~= text);
    assert(refspec_text(v) =~= force_mark(force) + (remote + seq![':'] + local));
}

/// A transfer directive: a local side, a remote side, and the force flag.
/// Both sides are patterns, or both are paths.
#[derive(Debug)]
pub struct Refspec {
    local: RefPath,
    remote: RefPath,
    force: bool,
}

impl View for Refspec {
    type V = RefspecView;

    closed spec fn view(&self) -> RefspecView {
        RefspecView { local: self.local@, remote: self.remote@, force: self.force }
    }
}

impl Clone for Refspec {
    fn clone(&self) -> (out: Self)
        ensures
            out@ == self@,
    {
        proof {
            use_type_invariant(self);
        }
        Refspec { local: self.local.clone(), remote: self.remote.clone(), force: self.force }
    }
}

impl PartialEq for Refspec {
    fn eq(&self, other: &Self) -> (same: bool) {
        self.local == other.local && self.remote == other.remote && self.force == other.force
    }
}

impl Eq for Refspec {

}

impl vstd::std_specs::cmp::PartialEqSpecImpl for Refspec {
    open spec fn obeys_eq_spec() -> bool {
        true
    }

    open spec fn eq_spec(&self, other: &Self) -> bool {
        self@ == other@
    }
}

impl Refspec {
    #[verifier::type_invariant]
    closed spec fn inv(&self) -> bool {
        &&& self.local.wf()
        &&& self.remote.wf()
        &&& self.local is Pattern == self.remote is Pattern
    }

    /// Every directive is valid.
    pub open spec fn wf(&self) -> bool {
        valid_refspec(self@)
    }

    /// Pairs a local and a remote side. Fails exactly when one side is a
    /// pattern and the other is not.
    pub fn new(local: RefPath, remote: RefPath, force: bool) -> (out: Result<Refspec, PathError>)
        ensures
            out is Ok <==> ends_in_wildcard(local@) == ends_in_wildcard(remote@),
            out matches Ok(spec) ==> spec@ == (RefspecView {
                local: local@,
                remote: remote@,
                force,
            }) && spec.wf(),
            out matches Err(e) ==> e == PathError::MixedPattern,
    {
        if local.is_pattern() == remote.is_pattern() {
            Ok(Refspec { local, remote, force })
        } else {
            Err(PathError::MixedPattern)
        }
    }

    /// The local side.
    pub fn local(&self) -> (side: &RefPath)
        ensures
            side@ == self@.local,
            side.wf(),
    {
        proof {
            use_type_invariant(self);
        }
        &self.local
    }

    /// The remote side.
    pub fn remote(&self) -> (side: &RefPath)
        ensures
            side@ == self@.remote,
            side.wf(),
    {
        proof {
            use_type_invariant(self);
        }
        &self.remote
    }

    /// Whether the update may rewrite history.
    pub fn force(&self) -> (force: bool)
        ensures
            force == self@.force,
    {
        self.force
    }

    /// The directive as text: a `+` where it is forced, the remote side, a
    /// colon, the local side.
    pub fn as_refspec(&self) -> (out: String)
        ensures
            out@ == refspec_text(self@),
    {
        let mut chars: Vec<char> = Vec::new();
        if self.force {
            chars.push('+');
        }
        assert(chars@ =~= force_mark(self.force));
        let remote = chars_of(self.remote.to_string().as_str());
        let local = chars_of(self.local.to_string().as_str());
        append_text(&mut chars, &remote);
        chars.push(':');
        append_text(&mut chars, &local);
        assert(chars@ =~= refspec_text(self@));
        string_of(&chars)
    }

    /// Reads a directive from text.
    pub fn parse(s: &str) -> (out: Result<Refspec, PathError>)
        ensures
            out is Ok <==> parse_refspec(s@) is Ok,
            out matches Ok(spec) ==> Ok::<RefspecView, PathError>(spec@) == parse_refspec(s@)
                && spec.wf() && refspec_text(spec@) == s@,
            out matches Err(e) ==> Err::<RefspecView, PathError>(e) == parse_refspec(s@),
    {
        proof {
            if parse_refspec(s@) is Ok {
                law_refspec_parse_render(s@);
            }
        }
        let chars = chars_of(s);
        let force = chars.len() > 0 && chars[0] == '+';
        let start: usize = if force {
            1
        } else {
            0
        };
        let ghost rest = if force {
            s@.skip(1)
        } else {
            s@
        };
        let at = find_char(&chars, ':', start);
        proof {
            lemma_index_of_shift(s@, ':', start as int, start as int);
        }
        if at >= chars.len() {
            return Err(PathError::InvalidPath);
        }
        assert(rest[at - start] == chars@[at as int]);
        let remote_text = slice_text(&chars, start, at);
        let local_text = slice_text(&chars, at + 1, chars.len());
        assert(remote_text@ =~= rest.subrange(0, at - start));
        assert(local_text@ =~= rest.subrange(at - start + 1, rest.len() as int));
        match RefPath::from_text(&remote_text) {
            Ok(remote) => match RefPath::from_text(&local_text) {
                Ok(local) => Refspec::new(local, remote, force),
                Err(e) => Err(e),
            },
            Err(e) => Err(e),
        }
    }
}

} // verus!
