//! The record of one update of a project, as it is written for those who
//! listen for updates: the project, and the object it pointed to before and
//! after.

use vstd::prelude::*;
use crate::identity::{
    hex_bytes, hex_text, law_hex_round_trip, law_urn_round_trip, parse_urn, urn_text, valid_hex,
    zero_oid, Oid, Urn, UrnError,
};
use crate::path::valid_segment;
use crate::text::{
    append_text, chars_of, find_char, index_of, lemma_index_of_is, slice_text, string_of,
};

verus! {

/// What an update did to the project.
#[derive(Debug, Clone, Copy, PartialEq, Eq, Structural)]
pub enum Updated {
    /// There was no object before and there is none after.
    Zero,
    /// There was no object before.
    Created,
    /// There is no object after.
    Deleted,
    /// The object is another one.
    Changed,
    /// The object is the same.
    NoChange,
}

/// What an update from `old` to `new` did, where the zero id stands for
/// "no object".
pub open spec fn updated_of(old: Seq<u8>, new: Seq<u8>) -> Updated {
    if old == zero_oid() && new == zero_oid() {
        Updated::Zero
    } else if old == zero_oid() {
        Updated::Created
    } else if new == zero_oid() {
        Updated::Deleted
    } else if old != new {
        Updated::Changed
    } else {
        Updated::NoChange
    }
}

/// One update of a project.
#[derive(Debug)]
pub struct Data {
    pub urn: Urn,
    pub old: Oid,
    pub new: Oid,
}

/// An update as a mathematical value.
pub struct DataView {
    pub urn: Seq<char>,
    pub old: Seq<u8>,
    pub new: Seq<u8>,
}

impl View for Data {
    type V = DataView;

    open spec fn view(&self) -> DataView {
        DataView { urn: self.urn@, old: self.old@, new: self.new@ }
    }
}

/// The line that records an update: the canonical text of the project, the
/// old and the new object in hexadecimal, with one space between them and
/// a line feed at the end.
pub open spec fn data_text(v: DataView) -> Seq<char> {
    urn_text(v.urn) + seq![' '] + hex_text(v.old) + seq![' '] + hex_text(v.new) + seq!['\n']
}

/// Why a line records no update, as a mathematical value.
pub enum ParseView {
    /// There is a fourth piece.
    Extra(Seq<char>),
    /// The piece of the given name is missing.
    Missing(Seq<char>),
    /// The third piece does not end with a line feed.
    Newline(Seq<char>),
    /// The old or the new object is not written as forty hexadecimal digits.
    Revision,
    /// The first piece is no canonical text of a project.
    Urn(UrnError),
}

/// Why a line records no update.
#[derive(Debug)]
pub enum Parse {
    /// There is a fourth piece, which is given.
    Extra(String),
    /// The piece of the given name is missing.
    Missing(&'static str),
    /// The third piece, which is given, does not end with a line feed.
    Newline(String),
    /// The old or the new object is not written as forty hexadecimal digits.
    Revision,
    /// The first piece is no canonical text of a project.
    Urn(UrnError),
}

impl View for Parse {
    type V = ParseView;

    open spec fn view(&self) -> ParseView {
        match self {
            Parse::Extra(extra) => ParseView::Extra(extra@),
            Parse::Missing(name) => ParseView::Missing(name@),
            Parse::Newline(found) => ParseView::Newline(found@),
            Parse::Revision => ParseView::Revision,
            Parse::Urn(e) => ParseView::Urn(*e),
        }
    }
}

/// What a line records. Its pieces are parted by single spaces. The first
/// is the project, the second the old object, the third the new object
/// followed by a line feed; there is no fourth. The pieces are looked at
/// in this order, and the first fault found is given.
pub open spec fn parse_data(text: Seq<char>) -> Result<DataView, ParseView> {
    let a = index_of(text, ' ', 0);
    let b = index_of(text, ' ', a + 1);
    let c = index_of(text, ' ', b + 1);
    let d = index_of(text, ' ', c + 1);
    let old = text.subrange(a + 1, b);
    let new = text.subrange(b + 1, c);
    match parse_urn(text.subrange(0, a)) {
        Err(e) => Err(ParseView::Urn(e)),
        Ok(urn) => if a >= text.len() {
            Err(ParseView::Missing("<old>"@))
        } else if !valid_hex(old) {
            Err(ParseView::Revision)
        } else if b >= text.len() {
            Err(ParseView::Missing("<new> LF"@))
        } else if new.len() == 0 || new.last() != '\n' {
            Err(ParseView::Newline(new))
        } else if !valid_hex(new.drop_last()) {
            Err(ParseView::Revision)
        } else if c < text.len() {
            Err(ParseView::Extra(text.subrange(c + 1, d)))
        } else {
            Ok(DataView { urn, old: hex_bytes(old), new: hex_bytes(new.drop_last()) })
        },
    }
}

/// Whether a text holds a space.
pub open spec fn has_space(s: Seq<char>) -> bool {
    exists|i: int| 0 <= i < s.len() && s[i] == ' '
}

/// A hexadecimal digit is neither a space nor a line feed.
proof fn lemma_hex_text_plain(bytes: Seq<u8>)
    requires
        bytes.len() == 20,
    ensures
        hex_text(bytes).len() == 40,
        forall|i: int| 0 <= i < 40 ==> (#[trigger] hex_text(bytes)[i]) != ' ',
{
}

/// Reading the line that records an update gives the update back, provided
/// that the id of the project holds no space.
pub proof fn law_data_round_trip(v: DataView)
    requires
        valid_segment(v.urn),
        !has_space(v.urn),
        v.old.len() == 20,
        v.new.len() == 20,
    ensures
        parse_data(data_text(v)) == Ok::<DataView, ParseView>(v),
{
    let text = data_text(v);
    let urn = urn_text(v.urn);
    let old = hex_text(v.old);
    let new = hex_text(v.new);
    lemma_hex_text_plain(v.old);
    lemma_hex_text_plain(v.new);
    law_hex_round_trip(v.old);
    law_hex_round_trip(v.new);
    law_urn_round_trip(v.urn);
    let a = urn.len() as int;
    let b = a + 41;
    let c = b + 42;
    assert(text.len() == c);
    assert forall|j: int| 0 <= j < a implies text[j] != ' ' by {
        assert(text[j] == urn[j]);
        if j >= 8 {
            assert(urn[j] == v.urn[j - 8]);
        }
    }
    assert(text[a] == ' ');
    lemma_index_of_is(text, ' ', 0, a);
    assert forall|j: int| a + 1 <= j < b implies text[j] != ' ' by {
        assert(text[j] == old[j - a - 1]);
    }
    assert(text[b] == ' ');
    lemma_index_of_is(text, ' ', a + 1, b);
    assert forall|j: int| b + 1 <= j < c implies text[j] != ' ' by {
        if j < c - 1 {
            assert(text[j] == new[j - b - 1]);
        }
    }
    lemma_index_of_is(text, ' ', b + 1, c);
    assert(text.subrange(0, a) =~= urn);
    assert(text.subrange(a + 1, b) =~= old);
    let last = text.subrange(b + 1, c);
    assert(last =~= new + seq!['\n']);
    assert(last.drop_last() =~= new);
}

impl Data {
    /// What the update did.
    pub fn updated(&self) -> (out: Updated)
        ensures
            out == updated_of(self@.old, self@.new),
    {
        let same = self.old == self.new;
        match (self.old.is_zero(), self.new.is_zero()) {
            (true, true) => Updated::Zero,
            (true, false) => Updated::Created,
            (false, true) => Updated::Deleted,
            (false, false) => if !same {
                Updated::Changed
            } else {
                Updated::NoChange
            },
        }
    }

    /// The line that records the update.
    pub fn display(&self) -> (out: String)
        ensures
            out@ == data_text(self@),
    {
        let mut chars = chars_of(self.urn.to_string().as_str());
        chars.push(' ');
        append_text(&mut chars, &self.old.hex_chars());
        chars.push(' ');
        append_text(&mut chars, &self.new.hex_chars());
        chars.push('\n');
        assert(chars@ =~= data_text(self@));
        string_of(&chars)
    }

    /// Reads an update from the line that records it.
    pub fn parse(s: &str) -> (out: Result<Data, Parse>)
        ensures
            out is Ok <==> parse_data(s@) is Ok,
            out matches Ok(data) ==> parse_data(s@) == Ok::<DataView, ParseView>(data@),
            out matches Err(e) ==> parse_data(s@) == Err::<DataView, ParseView>(e@),
    {
        let chars = chars_of(s);
        let n = chars.len();
        let a = find_char(&chars, ' ', 0);
        let urn = match Urn::from_text(&slice_text(&chars, 0, a)) {
            Ok(urn) => urn,
            Err(e) => {
                return Err(Parse::Urn(e));
            },
        };
        if a >= n {
            return Err(Parse::Missing("<old>"));
        }
        let b = find_char(&chars, ' ', a + 1);
        let old = match Oid::from_hex_chars(&slice_text(&chars, a + 1, b)) {
            Some(old) => old,
            None => {
                return Err(Parse::Revision);
            },
        };
        if b >= n {
            return Err(Parse::Missing("<new> LF"));
        }
        let c = find_char(&chars, ' ', b + 1);
        let mut last = slice_text(&chars, b + 1, c);
        if last.len() == 0 || last[last.len() - 1] != '\n' {
            return Err(Parse::Newline(string_of(&last)));
        }
        let ghost whole = last@;
        last.pop();
        assert(last@ =~= whole.drop_last());
        let new = match Oid::from_hex_chars(&last) {
            Some(new) => new,
            None => {
                return Err(Parse::Revision);
            },
        };
        if c < n {
            let d = find_char(&chars, ' ', c + 1);
            return Err(Parse::Extra(string_of(&slice_text(&chars, c + 1, d))));
        }
        Ok(Data { urn, old, new })
    }
}

} // verus!
