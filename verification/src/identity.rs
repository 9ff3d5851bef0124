//! Who and what is being synchronised: peers, project identifiers, the
//! namespace a project's references live in, and object ids.

use vstd::prelude::*;
use crate::path::{
    is_control, lemma_join_split, lemma_split_join, path_lt, segment_ok, separator_free, split,
    valid_segment, valid_segments, valid_text, PathError, RefLike,
};
use crate::text::{append_text, chars_of, code, same_text, slice_text, string_of};

verus! {

/// The texts that are valid paths of one segment are the valid segments.
pub proof fn lemma_single_segment_text(s: Seq<char>)
    ensures
        valid_segment(s) <==> valid_text(s) && split(s).len() == 1,
        valid_segment(s) ==> split(s) == seq![s],
{
    if valid_segment(s) {
        let segs = seq![s];
        assert(separator_free(segs)) by {
            assert forall|i: int, j: int|
                0 <= i < segs.len() && 0 <= j < segs[i].len() implies #[trigger] segs[i][j]
                != '/' by {
                assert(!(s[j] == '/' || is_control(s[j])));
            }
        }
        lemma_split_join(segs);
        assert(valid_segments(segs));
    }
    if valid_text(s) && split(s).len() == 1 {
        lemma_join_split(s);
        assert(split(s)[0] == s);
    }
}

/// Reads a path of exactly one segment from text.
fn parse_segment(s: &str) -> (out: Result<RefLike, PathError>)
    ensures
        out is Ok <==> valid_segment(s@),
        out matches Ok(path) ==> path@ == seq![s@] && path.wf(),
        out matches Err(e) ==> e == PathError::InvalidPath,
{
    proof {
        lemma_single_segment_text(s@);
    }
    match RefLike::parse(s) {
        Ok(path) => {
            if path.len() == 1 {
                Ok(path)
            } else {
                Err(PathError::InvalidPath)
            }
        },
        Err(e) => Err(e),
    }
}

/// A participant of the network, known by a name that is one path segment.
#[derive(Debug)]
pub struct PeerId {
    name: RefLike,
}

impl View for PeerId {
    type V = Seq<char>;

    closed spec fn view(&self) -> Seq<char> {
        self.name@[0]
    }
}

impl Clone for PeerId {
    fn clone(&self) -> (out: Self)
        ensures
            out@ == self@,
    {
        proof {
            use_type_invariant(self);
        }
        PeerId { name: self.name.clone() }
    }
}

impl PartialEq for PeerId {
    fn eq(&self, other: &Self) -> (same: bool) {
        proof {
            use_type_invariant(self);
            use_type_invariant(other);
            if self@ == other@ {
                assert(self.name@ =~= other.name@);
            }
        }
        self.name == other.name
    }
}

impl Eq for PeerId {

}

impl vstd::std_specs::cmp::PartialEqSpecImpl for PeerId {
    open spec fn obeys_eq_spec() -> bool {
        true
    }

    open spec fn eq_spec(&self, other: &Self) -> bool {
        self@ == other@
    }
}

impl PeerId {
    #[verifier::type_invariant]
    closed spec fn inv(&self) -> bool {
        self.name.wf() && self.name@.len() == 1
    }

    /// The name of every peer is a valid segment.
    pub open spec fn wf(&self) -> bool {
        valid_segment(self@)
    }

    /// Reads a peer's name. Succeeds exactly on the valid segments.
    pub fn parse(s: &str) -> (out: Result<PeerId, PathError>)
        ensures
            out is Ok <==> valid_segment(s@),
            out matches Ok(peer) ==> peer@ == s@ && peer.wf(),
            out matches Err(e) ==> e == PathError::InvalidPath,
    {
        match parse_segment(s) {
            Ok(name) => Ok(PeerId { name }),
            Err(e) => Err(e),
        }
    }

    /// The peer named `name`.
    pub(crate) fn from_segment(name: Vec<char>) -> (out: PeerId)
        requires
            valid_segment(name@),
        ensures
            out@ == name@,
            out.wf(),
    {
        PeerId { name: RefLike::single(name) }
    }

    /// The peer's name as a path of one segment.
    pub fn as_path(&self) -> (path: &RefLike)
        ensures
            path@ == seq![self@],
            path.wf(),
            self.wf(),
    {
        proof {
            use_type_invariant(self);
            use_type_invariant(&self.name);
            assert(self.name@ =~= seq![self@]);
            assert(valid_segment(self.name@[0]));
        }
        &self.name
    }

    /// The peer's name as a string.
    pub fn to_string(&self) -> (out: String)
        ensures
            out@ == self@,
    {
        proof {
            use_type_invariant(self);
        }
        self.name.to_string()
    }

    /// Whether this peer comes strictly before `other` in the order of
    /// names.
    pub fn precedes(&self, other: &PeerId) -> (less: bool)
        ensures
            less == path_lt(seq![self@], seq![other@]),
    {
        self.as_path().precedes(other.as_path())
    }
}

/// Why a text is no canonical text of an identifier.
#[derive(Debug, Clone, Copy, PartialEq, Eq, Structural)]
pub enum UrnError {
    /// The text does not begin with `rad:git:`.
    Scheme,
    /// What follows `rad:git:` is no valid segment.
    Id,
}

/// The text `rad:git:`, with which the canonical text of every identifier
/// begins.
pub open spec fn urn_prefix() -> Seq<char> {
    seq!['r', 'a', 'd', ':', 'g', 'i', 't', ':']
}

/// The canonical text of the identifier with the id `id`.
pub open spec fn urn_text(id: Seq<char>) -> Seq<char> {
    urn_prefix() + id
}

/// The id that a canonical text names.
pub open spec fn parse_urn(text: Seq<char>) -> Result<Seq<char>, UrnError> {
    if text.len() < 8 || text.subrange(0, 8) != urn_prefix() {
        Err(UrnError::Scheme)
    } else if !valid_segment(text.skip(8)) {
        Err(UrnError::Id)
    } else {
        Ok(text.skip(8))
    }
}

/// Reading the canonical text of an identifier gives the identifier back.
pub proof fn law_urn_round_trip(id: Seq<char>)
    requires
        valid_segment(id),
    ensures
        parse_urn(urn_text(id)) == Ok::<Seq<char>, UrnError>(id),
{
    let text = urn_text(id);
    assert(text.subrange(0, 8) =~= urn_prefix());
    assert(text.skip(8) =~= id);
}

/// The identifier of a project or of an identity, known by its id, which
/// is one path segment.
#[derive(Debug)]
pub struct Urn {
    id: RefLike,
}

impl View for Urn {
    type V = Seq<char>;

    closed spec fn view(&self) -> Seq<char> {
        self.id@[0]
    }
}

impl Clone for Urn {
    fn clone(&self) -> (out: Self)
        ensures
            out@ == self@,
    {
        proof {
            use_type_invariant(self);
        }
        Urn { id: self.id.clone() }
    }
}

impl PartialEq for Urn {
    fn eq(&self, other: &Self) -> (same: bool) {
        proof {
            use_type_invariant(self);
            use_type_invariant(other);
            if self@ == other@ {
                assert(self.id@ =~= other.id@);
            }
        }
        self.id == other.id
    }
}

impl Eq for Urn {

}

impl vstd::std_specs::cmp::PartialEqSpecImpl for Urn {
    open spec fn obeys_eq_spec() -> bool {
        true
    }

    open spec fn eq_spec(&self, other: &Self) -> bool {
        self@ == other@
    }
}

impl Urn {
    #[verifier::type_invariant]
    closed spec fn inv(&self) -> bool {
        self.id.wf() && self.id@.len() == 1
    }

    /// The id of every identifier is a valid segment.
    pub open spec fn wf(&self) -> bool {
        valid_segment(self@)
    }

    /// The identifier with the given id. Succeeds exactly on the valid
    /// segments.
    pub fn from_id(s: &str) -> (out: Result<Urn, PathError>)
        ensures
            out is Ok <==> valid_segment(s@),
            out matches Ok(urn) ==> urn@ == s@ && urn.wf(),
            out matches Err(e) ==> e == PathError::InvalidPath,
    {
        match parse_segment(s) {
            Ok(id) => Ok(Urn { id }),
            Err(e) => Err(e),
        }
    }

    /// Reads an identifier from its canonical text, `rad:git:` followed by
    /// the id. Fails with `Scheme` exactly when the text does not begin
    /// with `rad:git:`, and with `Id` exactly when it does and what follows
    /// is no valid segment.
    pub fn parse(s: &str) -> (out: Result<Urn, UrnError>)
        ensures
            out is Ok <==> parse_urn(s@) is Ok,
            out matches Ok(urn) ==> parse_urn(s@) == Ok::<Seq<char>, UrnError>(urn@) && urn.wf(),
            out matches Err(e) ==> parse_urn(s@) == Err::<Seq<char>, UrnError>(e),
    {
        Self::from_text(&chars_of(s))
    }

    /// Reads an identifier from the characters of its canonical text.
    pub(crate) fn from_text(chars: &Vec<char>) -> (out: Result<Urn, UrnError>)
        ensures
            out is Ok <==> parse_urn(chars@) is Ok,
            out matches Ok(urn) ==> parse_urn(chars@) == Ok::<Seq<char>, UrnError>(urn@)
                && urn.wf(),
            out matches Err(e) ==> parse_urn(chars@) == Err::<Seq<char>, UrnError>(e),
    {
        proof {
            reveal_strlit("rad:git:");
        }
        let prefix = chars_of("rad:git:");
        assert(prefix@ =~= urn_prefix());
        if chars.len() < 8 {
            return Err(UrnError::Scheme);
        }
        let head = slice_text(chars, 0, 8);
        if !same_text(&head, &prefix) {
            return Err(UrnError::Scheme);
        }
        let id = slice_text(chars, 8, chars.len());
        assert(id@ =~= chars@.skip(8));
        if segment_ok(&id) {
            Ok(Urn::from_segment(id))
        } else {
            Err(UrnError::Id)
        }
    }

    /// The identifier with the id `id`.
    pub(crate) fn from_segment(id: Vec<char>) -> (out: Urn)
        requires
            valid_segment(id@),
        ensures
            out@ == id@,
            out.wf(),
    {
        Urn { id: RefLike::single(id) }
    }

    /// The id as a path of one segment.
    pub fn as_path(&self) -> (path: &RefLike)
        ensures
            path@ == seq![self@],
            path.wf(),
            self.wf(),
    {
        proof {
            use_type_invariant(self);
            use_type_invariant(&self.id);
            assert(self.id@ =~= seq![self@]);
            assert(valid_segment(self.id@[0]));
        }
        &self.id
    }

    /// The id as a string.
    pub fn encode_id(&self) -> (out: String)
        ensures
            out@ == self@,
    {
        proof {
            use_type_invariant(self);
        }
        self.id.to_string()
    }

    /// The canonical text of the identifier: `rad:git:` followed by the id.
    pub fn to_string(&self) -> (out: String)
        ensures
            out@ == urn_text(self@),
    {
        proof {
            use_type_invariant(self);
            reveal_strlit("rad:git:");
        }
        let mut chars = chars_of("rad:git:");
        assert(chars@ =~= urn_prefix());
        append_text(&mut chars, self.id.segment(0));
        string_of(&chars)
    }

    /// Whether this identifier comes strictly before `other` in the order
    /// of ids.
    pub fn precedes(&self, other: &Urn) -> (less: bool)
        ensures
            less == path_lt(seq![self@], seq![other@]),
    {
        self.as_path().precedes(other.as_path())
    }
}

/// The segment under which the references of the project `urn` are kept.
pub open spec fn namespace_of(urn: Seq<char>) -> Seq<char> {
    urn
}

/// Two identifiers have the same namespace exactly when they are the same
/// identifier.
pub proof fn law_namespace_injective(a: Urn, b: Urn)
    ensures
        namespace_of(a@) == namespace_of(b@) <==> a@ == b@,
{
}

/// The root under which one project's references are kept apart from those
/// of all other projects in the same store.
#[derive(Debug)]
pub struct Namespace {
    urn: Urn,
}

impl View for Namespace {
    type V = Seq<char>;

    closed spec fn view(&self) -> Seq<char> {
        namespace_of(self.urn@)
    }
}

impl Clone for Namespace {
    fn clone(&self) -> (out: Self)
        ensures
            out@ == self@,
    {
        Namespace { urn: self.urn.clone() }
    }
}

impl PartialEq for Namespace {
    fn eq(&self, other: &Self) -> (same: bool) {
        self.urn == other.urn
    }
}

impl Eq for Namespace {

}

impl vstd::std_specs::cmp::PartialEqSpecImpl for Namespace {
    open spec fn obeys_eq_spec() -> bool {
        true
    }

    open spec fn eq_spec(&self, other: &Self) -> bool {
        self@ == other@
    }
}

impl Namespace {
    /// The namespace of every project is a valid segment.
    pub open spec fn wf(&self) -> bool {
        valid_segment(self@)
    }

    /// The namespace of the project `urn`.
    pub fn from(urn: &Urn) -> (out: Namespace)
        ensures
            out@ == namespace_of(urn@),
            out.wf(),
    {
        proof {
            use_type_invariant(urn);
            assert(valid_segment(urn.id@[0]));
        }
        Namespace { urn: urn.clone() }
    }

    /// The project this namespace belongs to.
    pub fn urn(&self) -> (urn: &Urn)
        ensures
            namespace_of(urn@) == self@,
    {
        &self.urn
    }

    /// The namespace as a path of one segment.
    pub fn as_path(&self) -> (path: &RefLike)
        ensures
            path@ == seq![self@],
            path.wf(),
            self.wf(),
    {
        self.urn.as_path()
    }

    /// The namespace as a string.
    pub fn to_string(&self) -> (out: String)
        ensures
            out@ == self@,
    {
        self.urn.encode_id()
    }
}

/// The id of a git object: twenty bytes.
#[derive(Debug, Clone, Copy)]
pub struct Oid {
    bytes: [u8; 20],
}

impl View for Oid {
    type V = Seq<u8>;

    closed spec fn view(&self) -> Seq<u8> {
        self.bytes@
    }
}

impl PartialEq for Oid {
    fn eq(&self, other: &Self) -> (same: bool) {
        let mut i: usize = 0;
        while i < 20
            invariant
                i <= 20,
                forall|j: int| 0 <= j < i ==> self.bytes@[j] == other.bytes@[j],
            decreases 20 - i,
        {
            if self.bytes[i] != other.bytes[i] {
                return false;
            }
            i += 1;
        }
        assert(self.bytes@ =~= other.bytes@);
        true
    }
}

impl Eq for Oid {

}

impl vstd::std_specs::cmp::PartialEqSpecImpl for Oid {
    open spec fn obeys_eq_spec() -> bool {
        true
    }

    open spec fn eq_spec(&self, other: &Self) -> bool {
        self@ == other@
    }
}

/// The id made of twenty zero bytes, which stands for "no object".
pub open spec fn zero_oid() -> Seq<u8> {
    Seq::new(20, |i: int| 0u8)
}

/// The hexadecimal digit of a number below sixteen.
pub open spec fn hex_digit(n: int) -> char {
    if n == 0 {
        '0'
    } else if n == 1 {
        '1'
    } else if n == 2 {
        '2'
    } else if n == 3 {
        '3'
    } else if n == 4 {
        '4'
    } else if n == 5 {
        '5'
    } else if n == 6 {
        '6'
    } else if n == 7 {
        '7'
    } else if n == 8 {
        '8'
    } else if n == 9 {
        '9'
    } else if n == 10 {
        'a'
    } else if n == 11 {
        'b'
    } else if n == 12 {
        'c'
    } else if n == 13 {
        'd'
    } else if n == 14 {
        'e'
    } else {
        'f'
    }
}

/// The number that a hexadecimal digit stands for, in either case.
pub open spec fn hex_value(c: char) -> Option<int> {
    if code('0') <= code(c) <= code('9') {
        Some(code(c) - code('0'))
    } else if code('a') <= code(c) <= code('f') {
        Some(code(c) - code('a') + 10)
    } else if code('A') <= code(c) <= code('F') {
        Some(code(c) - code('A') + 10)
    } else {
        None
    }
}

/// The bytes written in hexadecimal, two lower-case digits each.
pub open spec fn hex_text(bytes: Seq<u8>) -> Seq<char> {
    Seq::new(
        2 * bytes.len(),
        |i: int|
            if i % 2 == 0 {
                hex_digit(bytes[i / 2] as int / 16)
            } else {
                hex_digit(bytes[i / 2] as int % 16)
            },
    )
}

/// A text of forty hexadecimal digits.
pub open spec fn valid_hex(text: Seq<char>) -> bool {
    text.len() == 40 && forall|i: int| 0 <= i < 40 ==> hex_value(#[trigger] text[i]) is Some
}

/// The twenty bytes that a text of forty hexadecimal digits stands for.
pub open spec fn hex_bytes(text: Seq<char>) -> Seq<u8> {
    Seq::new(20, |i: int| (16 * hex_value(text[2 * i])->0 + hex_value(text[2 * i + 1])->0) as u8)
}

/// A hexadecimal digit stands for the number it was made from.
pub proof fn lemma_hex_digit_value(n: int)
    requires
        0 <= n < 16,
    ensures
        hex_value(hex_digit(n)) == Some(n),
{
}

/// Reading twenty bytes written in hexadecimal gives the bytes back.
pub proof fn law_hex_round_trip(bytes: Seq<u8>)
    requires
        bytes.len() == 20,
    ensures
        valid_hex(hex_text(bytes)),
        hex_bytes(hex_text(bytes)) == bytes,
{
    let text = hex_text(bytes);
    assert forall|i: int| 0 <= i < 40 implies hex_value(#[trigger] text[i]) is Some by {
        let b = bytes[i / 2] as int;
        lemma_hex_digit_value(b / 16);
        lemma_hex_digit_value(b % 16);
    }
    assert forall|i: int| 0 <= i < 20 implies hex_bytes(text)[i] == bytes[i] by {
        let b = bytes[i] as int;
        lemma_hex_digit_value(b / 16);
        lemma_hex_digit_value(b % 16);
        assert((2 * i) / 2 == i && (2 * i) % 2 == 0);
        assert((2 * i + 1) / 2 == i && (2 * i + 1) % 2 == 1);
        assert(text[2 * i] == hex_digit(b / 16));
        assert(text[2 * i + 1] == hex_digit(b % 16));
        assert(16 * (b / 16) + b % 16 == b);
    }
    assert(hex_bytes(text) =~= bytes);
}

/// The hexadecimal digit of a number below sixteen.
fn digit_of(n: u8) -> (c: char)
    requires
        n < 16,
    ensures
        c == hex_digit(n as int),
{
    if n == 0 {
        '0'
    } else if n == 1 {
        '1'
    } else if n == 2 {
        '2'
    } else if n == 3 {
        '3'
    } else if n == 4 {
        '4'
    } else if n == 5 {
        '5'
    } else if n == 6 {
        '6'
    } else if n == 7 {
        '7'
    } else if n == 8 {
        '8'
    } else if n == 9 {
        '9'
    } else if n == 10 {
        'a'
    } else if n == 11 {
        'b'
    } else if n == 12 {
        'c'
    } else if n == 13 {
        'd'
    } else if n == 14 {
        'e'
    } else {
        'f'
    }
}

/// The number that a hexadecimal digit stands for.
fn value_of(c: char) -> (out: Option<u8>)
    ensures
        out is Some <==> hex_value(c) is Some,
        out matches Some(n) ==> hex_value(c) == Some(n as int) && n < 16,
{
    let n: u32 = c as u32;
    if 48 <= n && n <= 57 {
        Some((n - 48) as u8)
    } else if 97 <= n && n <= 102 {
        Some((n - 97 + 10) as u8)
    } else if 65 <= n && n <= 70 {
        Some((n - 65 + 10) as u8)
    } else {
        None
    }
}

impl Oid {
    /// The id in hexadecimal: forty lower-case digits.
    pub fn to_hex(&self) -> (out: String)
        ensures
            out@ == hex_text(self@),
    {
        string_of(&self.hex_chars())
    }

    /// The characters of the id in hexadecimal.
    pub(crate) fn hex_chars(&self) -> (out: Vec<char>)
        ensures
            out@ == hex_text(self@),
    {
        let mut out: Vec<char> = Vec::new();
        let mut i: usize = 0;
        while i < 20
            invariant
                i <= 20,
                self@.len() == 20,
                out@ == hex_text(self@).subrange(0, 2 * i),
            decreases 20 - i,
        {
            let b = self.bytes[i];
            let ghost before = out@;
            out.push(digit_of(b / 16));
            out.push(digit_of(b % 16));
            proof {
                assert((2 * i) / 2 == i && (2 * i) % 2 == 0);
                assert((2 * i + 1) / 2 == i && (2 * i + 1) % 2 == 1);
                assert(out@ =~= hex_text(self@).subrange(0, 2 * i + 2));
            }
            i += 1;
        }
        assert(hex_text(self@).subrange(0, 40) =~= hex_text(self@));
        out
    }

    /// Reads an id from hexadecimal. Succeeds exactly on the texts of forty
    /// hexadecimal digits, in either case.
    pub fn from_hex(s: &str) -> (out: Option<Oid>)
        ensures
            out is Some <==> valid_hex(s@),
            out matches Some(oid) ==> oid@ == hex_bytes(s@),
    {
        Self::from_hex_chars(&chars_of(s))
    }

    /// Reads an id from the characters of its hexadecimal text.
    pub(crate) fn from_hex_chars(chars: &Vec<char>) -> (out: Option<Oid>)
        ensures
            out is Some <==> valid_hex(chars@),
            out matches Some(oid) ==> oid@ == hex_bytes(chars@),
    {
        if chars.len() != 40 {
            return None;
        }
        let mut bytes = [0u8; 20];
        let mut i: usize = 0;
        while i < 20
            invariant
                i <= 20,
                chars@.len() == 40,
                forall|k: int| 0 <= k < 2 * i ==> hex_value(#[trigger] chars@[k]) is Some,
                forall|k: int| 0 <= k < i ==> bytes@[k] == hex_bytes(chars@)[k],
            decreases 20 - i,
        {
            let hi = match value_of(chars[2 * i]) {
                Some(n) => n,
                None => {
                    return None;
                },
            };
            let lo = match value_of(chars[2 * i + 1]) {
                Some(n) => n,
                None => {
                    return None;
                },
            };
            bytes[i] = 16 * hi + lo;
            i += 1;
        }
        let out = Oid { bytes };
        assert(out@ =~= hex_bytes(chars@));
        Some(out)
    }

    /// The id with the given bytes.
    pub fn from_bytes(bytes: [u8; 20]) -> (out: Oid)
        ensures
            out@ == bytes@,
    {
        Oid { bytes }
    }

    /// The bytes of the id. There are always twenty.
    pub fn as_bytes(&self) -> (bytes: &[u8; 20])
        ensures
            bytes@ == self@,
            self@.len() == 20,
    {
        &self.bytes
    }

    /// The zero id.
    pub fn zero() -> (out: Oid)
        ensures
            out@ == zero_oid(),
    {
        let out = Oid { bytes: [0u8; 20] };
        assert(out@ =~= zero_oid());
        out
    }

    /// Whether this is the zero id.
    pub fn is_zero(&self) -> (zero: bool)
        ensures
            zero == (self@ == zero_oid()),
    {
        let mut i: usize = 0;
        while i < 20
            invariant
                i <= 20,
                forall|j: int| 0 <= j < i ==> self.bytes@[j] == 0u8,
            decreases 20 - i,
        {
            if self.bytes[i] != 0 {
                assert(self@[i as int] != zero_oid()[i as int]);
                return false;
            }
            i += 1;
        }
        assert(self@ =~= zero_oid());
        true
    }
}

} // verus!
