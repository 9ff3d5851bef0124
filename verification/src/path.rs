//! Reference paths: validated, `/`-separated names, and patterns that end in
//! a wildcard segment.

use vstd::prelude::*;
use crate::text::{
    append_text, chars_of, code, copy_text, lemma_text_lt_connected, lemma_text_lt_irreflexive,
    lemma_text_lt_transitive, same_text, string_of, text_less, text_lt,
};

verus! {

/// Control characters: the code points `U+0000..=U+001F` and `U+007F..=U+009F`.
pub open spec fn is_control(c: char) -> bool {
    code(c) <= 0x1f || (0x7f <= code(c) && code(c) <= 0x9f)
}

/// The segment `..`.
pub open spec fn dot_dot() -> Seq<char> {
    seq!['.', '.']
}

/// The wildcard segment `*`.
pub open spec fn wildcard() -> Seq<char> {
    seq!['*']
}

/// A segment of a path: not empty, free of separators and control
/// characters, and neither `..` nor the wildcard.
pub open spec fn valid_segment(s: Seq<char>) -> bool {
    &&& s.len() > 0
    &&& forall|i: int| 0 <= i < s.len() ==> s[i] != '/' && !is_control(#[trigger] s[i])
    &&& s != dot_dot()
    &&& s != wildcard()
}

/// A path: at least one segment, each of them valid.
pub open spec fn valid_segments(segs: Seq<Seq<char>>) -> bool {
    &&& segs.len() > 0
    &&& forall|i: int| 0 <= i < segs.len() ==> valid_segment(#[trigger] segs[i])
}

/// The pieces of `s` between its separators. A text without separator is
/// one piece; a leading, trailing or doubled separator gives an empty piece.
pub open spec fn split(s: Seq<char>) -> Seq<Seq<char>>
    decreases s.len(),
{
    if s.len() == 0 {
        seq![Seq::<char>::empty()]
    } else {
        let before = split(s.drop_last());
        if s.last() == '/' {
            before.push(Seq::<char>::empty())
        } else {
            before.drop_last().push(before.last().push(s.last()))
        }
    }
}

/// The segments written one after the other, with a separator between
/// neighbours.
pub open spec fn join_text(segs: Seq<Seq<char>>) -> Seq<char>
    decreases segs.len(),
{
    if segs.len() == 0 {
        Seq::<char>::empty()
    } else if segs.len() == 1 {
        segs[0]
    } else {
        join_text(segs.drop_last()) + seq!['/'] + segs.last()
    }
}

/// A text that reads as a path.
pub open spec fn valid_text(s: Seq<char>) -> bool {
    valid_segments(split(s))
}

/// A pattern: zero or more valid segments followed by the wildcard segment.
pub open spec fn valid_pattern(segs: Seq<Seq<char>>) -> bool {
    &&& segs.len() > 0
    &&& segs.last() == wildcard()
    &&& forall|i: int| 0 <= i < segs.len() - 1 ==> valid_segment(#[trigger] segs[i])
}

/// A text that reads as a pattern.
pub open spec fn valid_pattern_text(s: Seq<char>) -> bool {
    valid_pattern(split(s))
}

/// Splitting always gives at least one piece.
pub proof fn lemma_split_nonempty(s: Seq<char>)
    ensures
        split(s).len() >= 1,
    decreases s.len(),
{
    if s.len() > 0 {
        lemma_split_nonempty(s.drop_last());
    }
}

/// Joining the pieces of a text gives the text back.
pub proof fn lemma_join_split(s: Seq<char>)
    ensures
        join_text(split(s)) == s,
    decreases s.len(),
{
    if s.len() > 0 {
        let head = s.drop_last();
        let before = split(head);
        lemma_split_nonempty(head);
        lemma_join_split(head);
        if s.last() == '/' {
            let now = before.push(Seq::<char>::empty());
            assert(now.drop_last() == before);
            assert(join_text(now) == join_text(before) + seq!['/'] + Seq::<char>::empty());
            assert(s == head + seq!['/'] + Seq::<char>::empty());
        } else {
            let grown = before.last().push(s.last());
            let now = before.drop_last().push(grown);
            assert(now.drop_last() == before.drop_last());
            if before.len() == 1 {
                assert(join_text(before) == before[0]);
                assert(join_text(now) == grown);
                assert(s == head.push(s.last()));
            } else {
                assert(join_text(now) == join_text(before.drop_last()) + seq!['/'] + grown);
                assert(join_text(before) == join_text(before.drop_last()) + seq!['/']
                    + before.last());
                assert(s == head.push(s.last()));
                assert(join_text(now) == join_text(before).push(s.last()));
            }
        }
    }
}

/// Appending a separator-free piece to a text extends its last piece.
pub proof fn lemma_split_extend(s: Seq<char>, piece: Seq<char>)
    requires
        forall|j: int| 0 <= j < piece.len() ==> piece[j] != '/',
    ensures
        split(s).len() >= 1,
        split(s + piece) == split(s).drop_last().push(split(s).last() + piece),
    decreases piece.len(),
{
    lemma_split_nonempty(s);
    if piece.len() == 0 {
        assert(s + piece == s);
        assert(split(s).last() + piece == split(s).last());
        assert(split(s).drop_last().push(split(s).last()) == split(s));
    } else {
        let shorter = piece.drop_last();
        lemma_split_extend(s, shorter);
        let whole = s + piece;
        assert(whole.drop_last() == s + shorter);
        assert(whole.last() == piece.last());
        let before = split(s + shorter);
        assert(before == split(s).drop_last().push(split(s).last() + shorter));
        assert(before.drop_last() == split(s).drop_last());
        assert(before.last().push(piece.last()) == split(s).last() + piece);
    }
}

/// Segments none of which holds a separator.
pub open spec fn separator_free(segs: Seq<Seq<char>>) -> bool {
    forall|i: int, j: int|
        0 <= i < segs.len() && 0 <= j < segs[i].len() ==> #[trigger] segs[i][j] != '/'
}

/// Splitting a joined sequence of separator-free segments gives the segments
/// back.
pub proof fn lemma_split_join(segs: Seq<Seq<char>>)
    requires
        segs.len() >= 1,
        separator_free(segs),
    ensures
        split(join_text(segs)) == segs,
    decreases segs.len(),
{
    if segs.len() == 1 {
        let empty = Seq::<char>::empty();
        lemma_split_extend(empty, segs[0]);
        assert(empty + segs[0] == segs[0]);
        assert(split(empty) == seq![empty]);
        assert(split(empty).drop_last().push(split(empty).last() + segs[0]) == segs);
    } else {
        let front = segs.drop_last();
        lemma_split_join(front);
        let base = join_text(front) + seq!['/'];
        assert(base.drop_last() == join_text(front));
        assert(split(base) == front.push(Seq::<char>::empty()));
        lemma_split_extend(base, segs.last());
        assert(split(base).drop_last() == front);
        assert(split(base).last() + segs.last() == segs.last());
        assert(front.push(segs.last()) == segs);
    }
}

/// The text of two runs of segments put together is the two texts with a
/// separator between them.
pub proof fn lemma_join_text_concat(a: Seq<Seq<char>>, b: Seq<Seq<char>>)
    requires
        a.len() >= 1,
        b.len() >= 1,
    ensures
        join_text(a + b) == join_text(a) + seq!['/'] + join_text(b),
    decreases b.len(),
{
    let whole = a + b;
    assert(whole.last() == b.last());
    if b.len() == 1 {
        assert(whole.drop_last() == a);
        assert(join_text(b) == b[0]);
    } else {
        assert(whole.drop_last() == a + b.drop_last());
        lemma_join_text_concat(a, b.drop_last());
        assert(join_text(whole) == join_text(a + b.drop_last()) + seq!['/'] + b.last());
        assert(join_text(b) == join_text(b.drop_last()) + seq!['/'] + b.last());
        assert(join_text(a) + seq!['/'] + join_text(b.drop_last()) + seq!['/'] + b.last()
            == join_text(a) + seq!['/'] + (join_text(b.drop_last()) + seq!['/'] + b.last()));
    }
}

/// The segments of one path followed by those of another.
pub open spec fn joined(base: Seq<Seq<char>>, suffix: Seq<Seq<char>>) -> Seq<Seq<char>> {
    base + suffix
}

/// Joining valid paths gives a valid path, and a valid path joined with a
/// pattern gives a pattern.
pub proof fn lemma_joined_valid(base: Seq<Seq<char>>, suffix: Seq<Seq<char>>)
    requires
        valid_segments(base),
    ensures
        valid_segments(suffix) ==> valid_segments(joined(base, suffix)),
        valid_pattern(suffix) ==> valid_pattern(joined(base, suffix)),
{
    let whole = joined(base, suffix);
    if valid_segments(suffix) {
        assert forall|i: int| 0 <= i < whole.len() implies valid_segment(#[trigger] whole[i]) by {
            if i < base.len() {
                assert(valid_segment(base[i]));
            } else {
                assert(valid_segment(suffix[i - base.len()]));
            }
        }
    }
    if valid_pattern(suffix) {
        assert forall|i: int| 0 <= i < whole.len() - 1 implies valid_segment(
            #[trigger] whole[i],
        ) by {
            if i < base.len() {
                assert(valid_segment(base[i]));
            } else {
                assert(valid_segment(suffix[i - base.len()]));
            }
        }
    }
}

/// Joining is associative: it does not matter which two of three paths
/// are joined first. The result is a valid path, and as text it is the
/// three texts with separators between them.
pub proof fn law_join_associative(a: RefLike, b: RefLike, c: RefLike)
    requires
        a.wf(),
        b.wf(),
        c.wf(),
    ensures
        joined(joined(a@, b@), c@) == joined(a@, joined(b@, c@)),
        valid_segments(joined(joined(a@, b@), c@)),
        join_text(joined(joined(a@, b@), c@)) == a.text() + seq!['/'] + b.text() + seq!['/']
            + c.text(),
{
    assert((a@ + b@) + c@ =~= a@ + (b@ + c@));
    lemma_joined_valid(a@, b@);
    lemma_joined_valid(joined(a@, b@), c@);
    lemma_join_text_concat(a@, b@);
    lemma_join_text_concat(a@ + b@, c@);
}

/// Comparison of two paths segment by segment from position `i` on, given
/// that they agree before it: the first segment that differs decides, by
/// the order of texts; a path comes before its extensions.
pub open spec fn path_lt_from(a: Seq<Seq<char>>, b: Seq<Seq<char>>, i: int) -> bool
    decreases a.len() - i,
{
    if i < 0 || i >= b.len() {
        false
    } else if i >= a.len() {
        true
    } else if a[i] != b[i] {
        text_lt(a[i], b[i])
    } else {
        path_lt_from(a, b, i + 1)
    }
}

/// `a` comes strictly before `b`.
pub open spec fn path_lt(a: Seq<Seq<char>>, b: Seq<Seq<char>>) -> bool {
    path_lt_from(a, b, 0)
}

/// No path comes before itself.
pub proof fn lemma_path_lt_irreflexive(a: Seq<Seq<char>>, i: int)
    ensures
        !path_lt_from(a, a, i),
    decreases a.len() - i,
{
    if 0 <= i < a.len() {
        lemma_path_lt_irreflexive(a, i + 1);
    }
}

/// Two paths that agree before `i`, neither of which comes before the
/// other, are the same.
pub proof fn lemma_path_lt_connected(a: Seq<Seq<char>>, b: Seq<Seq<char>>, i: int)
    requires
        0 <= i,
        i <= a.len(),
        i <= b.len(),
        forall|j: int| 0 <= j < i ==> a[j] == b[j],
        !path_lt_from(a, b, i),
        !path_lt_from(b, a, i),
    ensures
        a == b,
    decreases a.len() - i,
{
    if i >= a.len() || i >= b.len() {
        assert(a =~= b);
    } else {
        assert(a[i] == b[i]) by {
            if a[i] != b[i] {
                lemma_text_lt_connected(a[i], b[i], 0);
            }
        }
        lemma_path_lt_connected(a, b, i + 1);
    }
}

/// The order of paths is transitive.
pub proof fn lemma_path_lt_transitive(
    a: Seq<Seq<char>>,
    b: Seq<Seq<char>>,
    c: Seq<Seq<char>>,
    i: int,
)
    requires
        path_lt_from(a, b, i),
        path_lt_from(b, c, i),
    ensures
        path_lt_from(a, c, i),
    decreases a.len() - i,
{
    if i < a.len() && i < b.len() && i < c.len() {
        if a[i] == b[i] && b[i] == c[i] {
            lemma_path_lt_transitive(a, b, c, i + 1);
        } else if a[i] != b[i] && b[i] != c[i] {
            lemma_text_lt_transitive(a[i], b[i], c[i], 0);
            lemma_text_lt_irreflexive(a[i], 0);
        }
    }
}

/// Of two paths, one comes before the other only one way round.
pub proof fn lemma_path_lt_asymmetric(a: Seq<Seq<char>>, b: Seq<Seq<char>>)
    requires
        path_lt(a, b),
    ensures
        !path_lt(b, a),
        a != b,
{
    lemma_path_lt_irreflexive(a, 0);
    if path_lt(b, a) {
        lemma_path_lt_transitive(a, b, a, 0);
    }
}

/// The segments held by a vector of character vectors.
pub open spec fn segs_of(v: Seq<Vec<char>>) -> Seq<Seq<char>> {
    Seq::new(v.len(), |i: int| v[i]@)
}

/// Why a text or a combination of paths was turned down.
#[derive(Debug, Clone, Copy, PartialEq, Eq, Structural)]
pub enum PathError {
    /// The text is no path: it is empty, starts or ends with a separator,
    /// has an empty segment, a `..` segment, a wildcard segment where none
    /// may stand, or a control character.
    InvalidPath,
    /// A pattern was paired with a path that is none.
    MixedPattern,
}

/// Whether `c` is a control character.
pub(crate) fn control_char(c: char) -> (control: bool)
    ensures
        control == is_control(c),
{
    let n: u32 = c as u32;
    n <= 0x1f || (0x7f <= n && n <= 0x9f)
}

/// Whether `seg` may stand as a segment of a path.
pub(crate) fn segment_ok(seg: &Vec<char>) -> (ok: bool)
    ensures
        ok == valid_segment(seg@),
{
    if seg.len() == 0 {
        return false;
    }
    if seg.len() == 1 && seg[0] == '*' {
        assert(seg@ =~= wildcard());
        return false;
    }
    if seg.len() == 2 && seg[0] == '.' && seg[1] == '.' {
        assert(seg@ =~= dot_dot());
        return false;
    }
    let mut i: usize = 0;
    while i < seg.len()
        invariant
            i <= seg.len(),
            forall|j: int| 0 <= j < i ==> seg@[j] != '/' && !is_control(#[trigger] seg@[j]),
        decreases seg.len() - i,
    {
        if seg[i] == '/' || control_char(seg[i]) {
            return false;
        }
        i += 1;
    }
    assert(seg@ != wildcard()) by {
        if seg@ == wildcard() {
            assert(seg@.len() == 1 && seg@[0] == wildcard()[0]);
        }
    }
    assert(seg@ != dot_dot()) by {
        if seg@ == dot_dot() {
            assert(seg@.len() == 2 && seg@[0] == dot_dot()[0] && seg@[1] == dot_dot()[1]);
        }
    }
    true
}

/// The pieces of `chars` between its separators.
pub(crate) fn split_text(chars: &Vec<char>) -> (segs: Vec<Vec<char>>)
    ensures
        segs_of(segs@) == split(chars@),
{
    let mut segs: Vec<Vec<char>> = Vec::new();
    let mut current: Vec<char> = Vec::new();
    let mut i: usize = 0;
    assert(chars@.subrange(0, 0) =~= Seq::<char>::empty());
    assert(segs_of(segs@).push(current@) =~= seq![Seq::<char>::empty()]);
    while i < chars.len()
        invariant
            i <= chars.len(),
            segs_of(segs@).push(current@) == split(chars@.subrange(0, i as int)),
        decreases chars.len() - i,
    {
        let ghost head = chars@.subrange(0, i as int);
        let ghost next = chars@.subrange(0, i + 1);
        let ghost done = segs_of(segs@);
        let ghost piece = current@;
        assert(next.drop_last() == head);
        assert(next.last() == chars@[i as int]);
        assert(done.push(piece).drop_last() == done);
        let c = chars[i];
        if c == '/' {
            segs.push(current);
            current = Vec::new();
            assert(segs_of(segs@) == done.push(piece));
            assert(current@ == Seq::<char>::empty());
        } else {
            current.push(c);
            assert(segs_of(segs@) == done);
        }
        i += 1;
    }
    assert(chars@.subrange(0, i as int) == chars@);
    let ghost done = segs_of(segs@);
    segs.push(current);
    assert(segs_of(segs@) == done.push(current@));
    segs
}

/// The text of `segs`: its segments with a separator between neighbours.
pub(crate) fn render_segments(segs: &Vec<Vec<char>>) -> (out: Vec<char>)
    ensures
        out@ == join_text(segs_of(segs@)),
{
    let mut out: Vec<char> = Vec::new();
    let mut i: usize = 0;
    assert(segs_of(segs@).subrange(0, 0) =~= Seq::<Seq<char>>::empty());
    while i < segs.len()
        invariant
            i <= segs.len(),
            out@ == join_text(segs_of(segs@).subrange(0, i as int)),
        decreases segs.len() - i,
    {
        let ghost upto = segs_of(segs@).subrange(0, i + 1);
        assert(upto.drop_last() == segs_of(segs@).subrange(0, i as int));
        assert(upto.last() == segs@[i as int]@);
        if i > 0 {
            out.push('/');
            assert(out@ == join_text(upto.drop_last()) + seq!['/']);
        } else {
            assert(out@ + segs@[i as int]@ == segs@[i as int]@);
        }
        append_text(&mut out, &segs[i]);
        i += 1;
    }
    assert(segs_of(segs@).subrange(0, i as int) == segs_of(segs@));
    out
}

/// Whether every one of `segs` may stand as a segment.
pub(crate) fn all_segments_ok(segs: &Vec<Vec<char>>) -> (ok: bool)
    ensures
        ok == (forall|j: int| 0 <= j < segs@.len() ==> valid_segment(#[trigger] segs_of(segs@)[j])),
{
    let mut i: usize = 0;
    while i < segs.len()
        invariant
            i <= segs.len(),
            forall|j: int| 0 <= j < i ==> valid_segment(#[trigger] segs_of(segs@)[j]),
        decreases segs.len() - i,
    {
        if !segment_ok(&segs[i]) {
            assert(!valid_segment(segs_of(segs@)[i as int]));
            return false;
        }
        i += 1;
    }
    true
}

/// Whether every one of `segs` may stand as a segment, and there is one at
/// least.
pub(crate) fn segments_ok(segs: &Vec<Vec<char>>) -> (ok: bool)
    ensures
        ok == valid_segments(segs_of(segs@)),
{
    segs.len() > 0 && all_segments_ok(segs)
}

/// Whether `seg` is the wildcard segment.
pub(crate) fn is_wildcard(seg: &Vec<char>) -> (yes: bool)
    ensures
        yes == (seg@ == wildcard()),
{
    if seg.len() == 1 && seg[0] == '*' {
        assert(seg@ =~= wildcard());
        true
    } else {
        assert(seg@ != wildcard()) by {
            if seg@ == wildcard() {
                assert(seg@.len() == 1 && seg@[0] == wildcard()[0]);
            }
        }
        false
    }
}

/// A copy of `segs`.
pub(crate) fn copy_segments(segs: &Vec<Vec<char>>) -> (out: Vec<Vec<char>>)
    ensures
        segs_of(out@) == segs_of(segs@),
{
    let mut out: Vec<Vec<char>> = Vec::new();
    let mut i: usize = 0;
    while i < segs.len()
        invariant
            i <= segs.len(),
            segs_of(out@) == segs_of(segs@).subrange(0, i as int),
        decreases segs.len() - i,
    {
        let ghost before = segs_of(out@);
        out.push(copy_text(&segs[i]));
        assert(segs_of(out@) == before.push(segs@[i as int]@));
        i += 1;
    }
    assert(segs_of(segs@).subrange(0, i as int) == segs_of(segs@));
    out
}

/// Whether two runs of segments are the same.
pub(crate) fn same_segments(a: &Vec<Vec<char>>, b: &Vec<Vec<char>>) -> (same: bool)
    ensures
        same == (segs_of(a@) == segs_of(b@)),
{
    if a.len() != b.len() {
        assert(segs_of(a@).len() != segs_of(b@).len());
        return false;
    }
    let mut i: usize = 0;
    while i < a.len()
        invariant
            i <= a.len(),
            a.len() == b.len(),
            forall|j: int| 0 <= j < i ==> a@[j]@ == b@[j]@,
        decreases a.len() - i,
    {
        if !same_text(&a[i], &b[i]) {
            assert(segs_of(a@)[i as int] != segs_of(b@)[i as int]);
            return false;
        }
        i += 1;
    }
    assert(segs_of(a@) =~= segs_of(b@));
    true
}

/// Whether the first run of segments comes strictly before the second.
pub(crate) fn segments_less(a: &Vec<Vec<char>>, b: &Vec<Vec<char>>) -> (less: bool)
    ensures
        less == path_lt(segs_of(a@), segs_of(b@)),
{
    let mut i: usize = 0;
    while i < a.len() && i < b.len()
        invariant
            i <= a.len(),
            i <= b.len(),
            path_lt(segs_of(a@), segs_of(b@)) == path_lt_from(segs_of(a@), segs_of(b@), i as int),
        decreases a.len() - i,
    {
        if !same_text(&a[i], &b[i]) {
            return text_less(&a[i], &b[i]);
        }
        i += 1;
    }
    i < b.len()
}

/// A validated reference path: one or more segments, none of them empty,
/// `..`, the wildcard, or holding a separator or a control character.
#[derive(Debug)]
pub struct RefLike {
    segments: Vec<Vec<char>>,
}

impl View for RefLike {
    type V = Seq<Seq<char>>;

    closed spec fn view(&self) -> Seq<Seq<char>> {
        segs_of(self.segments@)
    }
}

impl Clone for RefLike {
    fn clone(&self) -> (out: Self)
        ensures
            out@ == self@,
    {
        proof {
            use_type_invariant(self);
        }
        RefLike { segments: copy_segments(&self.segments) }
    }
}

impl PartialEq for RefLike {
    fn eq(&self, other: &Self) -> (same: bool) {
        same_segments(&self.segments, &other.segments)
    }
}

impl Eq for RefLike {

}

impl vstd::std_specs::cmp::PartialEqSpecImpl for RefLike {
    open spec fn obeys_eq_spec() -> bool {
        true
    }

    open spec fn eq_spec(&self, other: &Self) -> bool {
        self@ == other@
    }
}

impl RefLike {
    /// Every value of this type is a valid path.
    #[verifier::type_invariant]
    pub open spec fn wf(&self) -> bool {
        valid_segments(self@)
    }

    /// The path as text.
    pub open spec fn text(&self) -> Seq<char> {
        join_text(self@)
    }

    /// Reads a path from text. Succeeds exactly on the texts that are valid
    /// paths; the path then has the pieces of the text as its segments.
    pub fn parse(s: &str) -> (out: Result<RefLike, PathError>)
        ensures
            out is Ok <==> valid_text(s@),
            out matches Ok(path) ==> path@ == split(s@) && path.text() == s@ && path.wf(),
            out matches Err(e) ==> e == PathError::InvalidPath,
    {
        Self::from_text(&chars_of(s))
    }

    /// Reads a path from the characters of its text.
    pub(crate) fn from_text(chars: &Vec<char>) -> (out: Result<RefLike, PathError>)
        ensures
            out is Ok <==> valid_text(chars@),
            out matches Ok(path) ==> path@ == split(chars@) && path.text() == chars@ && path.wf(),
            out matches Err(e) ==> e == PathError::InvalidPath,
    {
        let segments = split_text(chars);
        proof {
            lemma_join_split(chars@);
        }
        if segments_ok(&segments) {
            Ok(RefLike { segments })
        } else {
            Err(PathError::InvalidPath)
        }
    }

    /// The path as a string: its segments with a separator between
    /// neighbours.
    pub fn to_string(&self) -> (out: String)
        ensures
            out@ == self.text(),
    {
        let chars = render_segments(&self.segments);
        string_of(&chars)
    }

    /// The path made of the segments of `self` followed by those of `other`.
    /// As text, it is the two texts with a separator between them.
    pub fn join(&self, other: &RefLike) -> (out: RefLike)
        ensures
            out@ == joined(self@, other@),
            out.text() == self.text() + seq!['/'] + other.text(),
            out.wf(),
    {
        proof {
            use_type_invariant(self);
            use_type_invariant(other);
        }
        let mut segments = copy_segments(&self.segments);
        let mut i: usize = 0;
        while i < other.segments.len()
            invariant
                i <= other.segments.len(),
                segs_of(segments@) == self@ + other@.subrange(0, i as int),
            decreases other.segments.len() - i,
        {
            let ghost before = segs_of(segments@);
            segments.push(copy_text(&other.segments[i]));
            assert(segs_of(segments@) == before.push(other@[i as int]));
            assert(other@.subrange(0, i + 1) == other@.subrange(0, i as int).push(
                other@[i as int],
            ));
            i += 1;
        }
        assert(other@.subrange(0, i as int) == other@);
        proof {
            lemma_join_text_concat(self@, other@);
        }
        RefLike { segments }
    }

    /// Whether this path comes strictly before `other` in the order of
    /// paths.
    pub fn precedes(&self, other: &RefLike) -> (less: bool)
        ensures
            less == path_lt(self@, other@),
    {
        segments_less(&self.segments, &other.segments)
    }

    /// The path with the single segment `seg`.
    pub(crate) fn single(seg: Vec<char>) -> (out: RefLike)
        requires
            valid_segment(seg@),
        ensures
            out@ == seq![seg@],
            out.wf(),
    {
        let mut segments: Vec<Vec<char>> = Vec::new();
        segments.push(seg);
        assert(segs_of(segments@) == seq![seg@]);
        RefLike { segments }
    }

    /// The path with the segments `segments`.
    pub(crate) fn from_segments(segments: Vec<Vec<char>>) -> (out: RefLike)
        requires
            valid_segments(segs_of(segments@)),
        ensures
            out@ == segs_of(segments@),
            out.wf(),
    {
        RefLike { segments }
    }

    /// The segment at position `i`.
    pub(crate) fn segment(&self, i: usize) -> (seg: &Vec<char>)
        requires
            i < self@.len(),
        ensures
            seg@ == self@[i as int],
    {
        &self.segments[i]
    }

    /// The path made of the segments from position `from` on.
    pub(crate) fn tail(&self, from: usize) -> (out: RefLike)
        requires
            from < self@.len(),
        ensures
            out@ == self@.subrange(from as int, self@.len() as int),
            out.wf(),
    {
        proof {
            use_type_invariant(self);
        }
        let mut segments: Vec<Vec<char>> = Vec::new();
        let mut i: usize = from;
        while i < self.segments.len()
            invariant
                from <= i <= self.segments.len(),
                segs_of(segments@) == self@.subrange(from as int, i as int),
            decreases self.segments.len() - i,
        {
            let ghost before = segs_of(segments@);
            segments.push(copy_text(&self.segments[i]));
            assert(segs_of(segments@) == before.push(self@[i as int]));
            assert(self@.subrange(from as int, i + 1) == self@.subrange(from as int, i as int).push(
                self@[i as int],
            ));
            i += 1;
        }
        assert forall|j: int| 0 <= j < segs_of(segments@).len() implies valid_segment(
            #[trigger] segs_of(segments@)[j],
        ) by {
            assert(valid_segment(self@[from + j]));
        }
        RefLike { segments }
    }

    /// The number of segments.
    pub fn len(&self) -> (n: usize)
        ensures
            n == self@.len(),
            n >= 1,
    {
        proof {
            use_type_invariant(self);
        }
        self.segments.len()
    }
}

/// A pattern: zero or more valid segments followed by one wildcard segment.
#[derive(Debug)]
pub struct RefspecPattern {
    prefix: Vec<Vec<char>>,
}

impl View for RefspecPattern {
    type V = Seq<Seq<char>>;

    closed spec fn view(&self) -> Seq<Seq<char>> {
        segs_of(self.prefix@).push(wildcard())
    }
}

impl Clone for RefspecPattern {
    fn clone(&self) -> (out: Self)
        ensures
            out@ == self@,
    {
        proof {
            use_type_invariant(self);
        }
        RefspecPattern { prefix: copy_segments(&self.prefix) }
    }
}

impl PartialEq for RefspecPattern {
    fn eq(&self, other: &Self) -> (same: bool) {
        let same = same_segments(&self.prefix, &other.prefix);
        proof {
            let a = segs_of(self.prefix@);
            let b = segs_of(other.prefix@);
            if self@ == other@ {
                assert(a == self@.drop_last());
                assert(b == other@.drop_last());
            }
        }
        same
    }
}

impl Eq for RefspecPattern {

}

impl vstd::std_specs::cmp::PartialEqSpecImpl for RefspecPattern {
    open spec fn obeys_eq_spec() -> bool {
        true
    }

    open spec fn eq_spec(&self, other: &Self) -> bool {
        self@ == other@
    }
}

impl RefspecPattern {
    /// Every value of this type is a valid pattern.
    #[verifier::type_invariant]
    pub open spec fn wf(&self) -> bool {
        valid_pattern(self@)
    }

    /// The pattern as text.
    pub open spec fn text(&self) -> Seq<char> {
        join_text(self@)
    }

    /// Reads a pattern from text. Succeeds exactly on the texts that are
    /// valid patterns; the pattern then has the pieces of the text as its
    /// segments.
    pub fn parse(s: &str) -> (out: Result<RefspecPattern, PathError>)
        ensures
            out is Ok <==> valid_pattern_text(s@),
            out matches Ok(pattern) ==> pattern@ == split(s@) && pattern.text() == s@
                && pattern.wf(),
            out matches Err(e) ==> e == PathError::InvalidPath,
    {
        Self::from_text(&chars_of(s))
    }

    /// Reads a pattern from the characters of its text.
    pub(crate) fn from_text(chars: &Vec<char>) -> (out: Result<RefspecPattern, PathError>)
        ensures
            out is Ok <==> valid_pattern_text(chars@),
            out matches Ok(pattern) ==> pattern@ == split(chars@) && pattern.text() == chars@
                && pattern.wf(),
            out matches Err(e) ==> e == PathError::InvalidPath,
    {
        let mut segments = split_text(chars);
        proof {
            lemma_join_split(chars@);
            lemma_split_nonempty(chars@);
        }
        let ghost all = segs_of(segments@);
        let last = segments.pop().unwrap();
        assert(segs_of(segments@) == all.drop_last());
        assert(last@ == all.last());
        if is_wildcard(&last) && all_segments_ok(&segments) {
            assert(segs_of(segments@).push(wildcard()) == all);
            Ok(RefspecPattern { prefix: segments })
        } else {
            assert(!valid_pattern(all)) by {
                if valid_pattern(all) {
                    assert forall|j: int| 0 <= j < segments@.len() implies valid_segment(
                        #[trigger] segs_of(segments@)[j],
                    ) by {
                        assert(valid_segment(all[j]));
                    }
                }
            }
            Err(PathError::InvalidPath)
        }
    }

    /// The pattern that is the wildcard alone.
    pub fn any() -> (out: RefspecPattern)
        ensures
            out@ == seq![wildcard()],
            out.wf(),
    {
        let prefix: Vec<Vec<char>> = Vec::new();
        assert(segs_of(prefix@).push(wildcard()) == seq![wildcard()]);
        RefspecPattern { prefix }
    }

    /// The pattern as a string.
    pub fn to_string(&self) -> (out: String)
        ensures
            out@ == self.text(),
    {
        let mut chars = render_segments(&self.prefix);
        let ghost front = segs_of(self.prefix@);
        proof {
            assert(self@.drop_last() == front);
            assert(self@.last() == wildcard());
        }
        if self.prefix.len() > 0 {
            chars.push('/');
        } else {
            assert(self@ == seq![wildcard()]);
        }
        chars.push('*');
        assert(chars@ == join_text(self@)) by {
            if front.len() > 0 {
                assert(join_text(self@) == join_text(front) + seq!['/'] + wildcard());
                assert(chars@ == join_text(front) + seq!['/'] + wildcard());
            } else {
                assert(join_text(front) == Seq::<char>::empty());
                assert(chars@ == wildcard());
            }
        }
        string_of(&chars)
    }
}

impl RefLike {
    /// The pattern made of the segments of `self` followed by those of
    /// `suffix`.
    pub fn with_pattern_suffix(&self, suffix: &RefspecPattern) -> (out: RefspecPattern)
        ensures
            out@ == joined(self@, suffix@),
            out.text() == self.text() + seq!['/'] + suffix.text(),
            out.wf(),
    {
        proof {
            use_type_invariant(self);
            use_type_invariant(suffix);
        }
        let mut prefix = copy_segments(&self.segments);
        let ghost tail = segs_of(suffix.prefix@);
        let mut i: usize = 0;
        while i < suffix.prefix.len()
            invariant
                i <= suffix.prefix.len(),
                tail == segs_of(suffix.prefix@),
                segs_of(prefix@) == self@ + tail.subrange(0, i as int),
            decreases suffix.prefix.len() - i,
        {
            let ghost before = segs_of(prefix@);
            prefix.push(copy_text(&suffix.prefix[i]));
            assert(segs_of(prefix@) == before.push(tail[i as int]));
            assert(tail.subrange(0, i + 1) == tail.subrange(0, i as int).push(tail[i as int]));
            i += 1;
        }
        assert(tail.subrange(0, i as int) == tail);
        assert((self@ + tail).push(wildcard()) == self@ + tail.push(wildcard()));
        assert forall|j: int| 0 <= j < (self@ + tail).len() implies valid_segment(
            #[trigger] (self@ + tail)[j],
        ) by {
            if j < self@.len() {
                assert(valid_segment(self@[j]));
            } else {
                assert(valid_segment(suffix@[j - self@.len()]));
            }
        }
        proof {
            lemma_join_text_concat(self@, suffix@);
        }
        RefspecPattern { prefix }
    }
}

/// Reads two texts as paths and joins them. Fails exactly when one of the
/// texts is no valid path.
pub fn join(base: &str, suffix: &str) -> (out: Result<RefLike, PathError>)
    ensures
        out is Ok <==> valid_text(base@) && valid_text(suffix@),
        out matches Ok(path) ==> path@ == joined(split(base@), split(suffix@)) && path.text()
            == base@ + seq!['/'] + suffix@ && path.wf(),
        out matches Err(e) ==> e == PathError::InvalidPath,
{
    match RefLike::parse(base) {
        Ok(head) => match RefLike::parse(suffix) {
            Ok(tail) => Ok(head.join(&tail)),
            Err(e) => Err(e),
        },
        Err(e) => Err(e),
    }
}

/// One side of a transfer directive: a path or a pattern.
#[derive(Debug)]
pub enum RefPath {
    /// A single reference.
    Path(RefLike),
    /// Every reference under a prefix.
    Pattern(RefspecPattern),
}

impl View for RefPath {
    type V = Seq<Seq<char>>;

    open spec fn view(&self) -> Seq<Seq<char>> {
        match self {
            RefPath::Path(path) => path@,
            RefPath::Pattern(pattern) => pattern@,
        }
    }
}

/// Whether a run of segments ends in the wildcard.
pub open spec fn ends_in_wildcard(segs: Seq<Seq<char>>) -> bool {
    segs.len() > 0 && segs.last() == wildcard()
}

impl Clone for RefPath {
    fn clone(&self) -> (out: Self)
        ensures
            out@ == self@,
            out.wf() == self.wf(),
            out is Pattern == self is Pattern,
    {
        match self {
            RefPath::Path(path) => {
                proof {
                    use_type_invariant(path);
                }
                RefPath::Path(path.clone())
            },
            RefPath::Pattern(pattern) => {
                proof {
                    use_type_invariant(pattern);
                }
                RefPath::Pattern(pattern.clone())
            },
        }
    }
}

impl PartialEq for RefPath {
    fn eq(&self, other: &Self) -> (same: bool) {
        match (self, other) {
            (RefPath::Path(a), RefPath::Path(b)) => a == b,
            (RefPath::Pattern(a), RefPath::Pattern(b)) => a == b,
            (RefPath::Path(a), RefPath::Pattern(b)) => {
                proof {
                    use_type_invariant(a);
                    use_type_invariant(b);
                    if a@ == b@ {
                        assert(valid_segment(a@[a@.len() - 1]));
                    }
                }
                false
            },
            (RefPath::Pattern(a), RefPath::Path(b)) => {
                proof {
                    use_type_invariant(a);
                    use_type_invariant(b);
                    if a@ == b@ {
                        assert(valid_segment(b@[b@.len() - 1]));
                    }
                }
                false
            },
        }
    }
}

impl Eq for RefPath {

}

impl vstd::std_specs::cmp::PartialEqSpecImpl for RefPath {
    open spec fn obeys_eq_spec() -> bool {
        true
    }

    open spec fn eq_spec(&self, other: &Self) -> bool {
        self@ == other@
    }
}

impl RefPath {
    /// The side is a valid path or a valid pattern, as its variant says.
    pub open spec fn wf(&self) -> bool {
        match self {
            RefPath::Path(path) => path.wf(),
            RefPath::Pattern(pattern) => pattern.wf(),
        }
    }

    /// The side as text.
    pub open spec fn text(&self) -> Seq<char> {
        join_text(self@)
    }

    /// Whether this side is a pattern.
    pub fn is_pattern(&self) -> (yes: bool)
        ensures
            yes == self is Pattern,
            yes == ends_in_wildcard(self@),
            self.wf(),
    {
        match self {
            RefPath::Path(path) => {
                proof {
                    use_type_invariant(path);
                    assert(valid_segment(path@[path@.len() - 1]));
                }
                false
            },
            RefPath::Pattern(pattern) => {
                proof {
                    use_type_invariant(pattern);
                }
                true
            },
        }
    }

    /// The path, where this side is one.
    pub fn as_path(&self) -> (out: Option<&RefLike>)
        ensures
            out is Some <==> self is Path,
            out matches Some(path) ==> path@ == self@ && path.wf(),
    {
        match self {
            RefPath::Path(path) => {
                proof {
                    use_type_invariant(path);
                }
                Some(path)
            },
            RefPath::Pattern(_) => None,
        }
    }

    /// Reads a path or a pattern from text: a pattern where the last piece
    /// is the wildcard, a path otherwise. Succeeds exactly on the texts
    /// that are valid as the one or the other.
    pub fn parse(s: &str) -> (out: Result<RefPath, PathError>)
        ensures
            out is Ok <==> valid_text(s@) || valid_pattern_text(s@),
            out matches Ok(side) ==> side@ == split(s@) && side.text() == s@ && side.wf(),
            out matches Err(e) ==> e == PathError::InvalidPath,
    {
        Self::from_text(&chars_of(s))
    }

    /// Reads a path or a pattern from the characters of its text.
    pub(crate) fn from_text(chars: &Vec<char>) -> (out: Result<RefPath, PathError>)
        ensures
            out is Ok <==> valid_text(chars@) || valid_pattern_text(chars@),
            out matches Ok(side) ==> side@ == split(chars@) && side.text() == chars@ && side.wf(),
            out matches Err(e) ==> e == PathError::InvalidPath,
    {
        match RefLike::from_text(chars) {
            Ok(path) => Ok(RefPath::Path(path)),
            Err(_) => match RefspecPattern::from_text(chars) {
                Ok(pattern) => Ok(RefPath::Pattern(pattern)),
                Err(e) => Err(e),
            },
        }
    }

    /// The side as a string.
    pub fn to_string(&self) -> (out: String)
        ensures
            out@ == self.text(),
    {
        match self {
            RefPath::Path(path) => path.to_string(),
            RefPath::Pattern(pattern) => pattern.to_string(),
        }
    }
}

} // verus!
