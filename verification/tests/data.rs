use radfetch::data::{Data, Parse, Updated};
use radfetch::identity::{Oid, Urn, UrnError};

fn urn() -> Urn {
    Urn::from_id("hwd1yre85ddm5ruz4kgqppdtdgqgqr4wjy3fmskgebhpzwcxshei7d4ouwe").unwrap()
}

fn oid(byte: u8) -> Oid {
    Oid::from_bytes([byte; 20])
}

const LINE: &str = "rad:git:hwd1yre85ddm5ruz4kgqppdtdgqgqr4wjy3fmskgebhpzwcxshei7d4ouwe \
                    0101010101010101010101010101010101010101 \
                    abababababababababababababababababababab\n";

#[test]
fn a_record_is_one_line() {
    let data = Data {
        urn: urn(),
        old: oid(1),
        new: oid(0xab),
    };
    assert_eq!(data.display(), LINE);
}

#[test]
fn a_record_reads_back() {
    let data = Data::parse(LINE).unwrap();
    assert_eq!(data.urn, urn());
    assert_eq!(data.old, oid(1));
    assert_eq!(data.new, oid(0xab));
    assert_eq!(data.display(), LINE);
}

#[test]
fn upper_case_digits_are_read() {
    let line = LINE.replace("ab", "AB");
    assert_eq!(Data::parse(&line).unwrap().new, oid(0xab));
}

#[test]
fn updated_tells_what_happened() {
    let with = |old: Oid, new: Oid| {
        Data {
            urn: urn(),
            old,
            new,
        }
        .updated()
    };
    assert_eq!(with(Oid::zero(), Oid::zero()), Updated::Zero);
    assert_eq!(with(Oid::zero(), oid(1)), Updated::Created);
    assert_eq!(with(oid(1), Oid::zero()), Updated::Deleted);
    assert_eq!(with(oid(1), oid(2)), Updated::Changed);
    assert_eq!(with(oid(1), oid(1)), Updated::NoChange);
}

#[test]
fn a_text_that_is_no_urn_is_refused_first() {
    assert!(matches!(
        Data::parse(""),
        Err(Parse::Urn(UrnError::Scheme))
    ));
    assert!(matches!(
        Data::parse("rad:hg:abc 01 02\n"),
        Err(Parse::Urn(UrnError::Scheme))
    ));
    assert!(matches!(
        Data::parse("rad:git: 01 02\n"),
        Err(Parse::Urn(UrnError::Id))
    ));
    assert!(matches!(
        Data::parse("rad:git:a/b"),
        Err(Parse::Urn(UrnError::Id))
    ));
}

#[test]
fn missing_pieces_are_named() {
    assert!(matches!(
        Data::parse("rad:git:abc"),
        Err(Parse::Missing("<old>"))
    ));
    assert!(matches!(
        Data::parse("rad:git:abc 0101010101010101010101010101010101010101"),
        Err(Parse::Missing("<new> LF"))
    ));
}

#[test]
fn an_object_must_be_forty_hexadecimal_digits() {
    assert!(matches!(
        Data::parse("rad:git:abc 0101 0202\n"),
        Err(Parse::Revision)
    ));
    assert!(matches!(
        Data::parse("rad:git:abc"),
        Err(Parse::Missing(_))
    ));
    assert!(matches!(
        Data::parse(
            "rad:git:abc 0101010101010101010101010101010101010101 02020202020202020202020202020202020202zz\n"
        ),
        Err(Parse::Revision)
    ));
    assert!(matches!(
        Data::parse("rad:git:abc  0101010101010101010101010101010101010101\n"),
        Err(Parse::Revision)
    ));
}

#[test]
fn the_line_feed_is_required() {
    match Data::parse(
        "rad:git:abc 0101010101010101010101010101010101010101 0202020202020202020202020202020202020202",
    ) {
        Err(Parse::Newline(found)) => {
            assert_eq!(found, "0202020202020202020202020202020202020202")
        }
        other => panic!("unexpected: {:?}", other),
    }
}

#[test]
fn a_fourth_piece_is_refused() {
    match Data::parse(
        "rad:git:abc 0101010101010101010101010101010101010101 0202020202020202020202020202020202020202\n more and more",
    ) {
        Err(Parse::Extra(extra)) => assert_eq!(extra, "more"),
        other => panic!("unexpected: {:?}", other),
    }
}

#[test]
fn object_ids_in_hexadecimal() {
    assert_eq!(Oid::zero().to_hex(), "0".repeat(40));
    let mut bytes = [0u8; 20];
    for (i, byte) in bytes.iter_mut().enumerate() {
        *byte = (i as u8) * 13 + 7;
    }
    let oid = Oid::from_bytes(bytes);
    assert_eq!(
        oid.to_hex(),
        "0714212e3b4855626f7c8996a3b0bdcad7e4f1fe"
    );
    assert_eq!(Oid::from_hex(&oid.to_hex()), Some(oid));
    assert_eq!(Oid::from_hex("07"), None);
    assert_eq!(Oid::from_hex(&"g".repeat(40)), None);
    assert!(Oid::zero().is_zero());
    assert!(!oid.is_zero());
    assert_eq!(oid.as_bytes(), &bytes);
}

#[test]
fn canonical_text_of_an_identifier() {
    let urn = Urn::parse("rad:git:hyyy1y").unwrap();
    assert_eq!(urn.encode_id(), "hyyy1y");
    assert_eq!(urn.to_string(), "rad:git:hyyy1y");
    assert_eq!(urn, Urn::from_id("hyyy1y").unwrap());
    assert_eq!(Urn::parse("hyyy1y").unwrap_err(), UrnError::Scheme);
    assert_eq!(Urn::parse("rad:git:").unwrap_err(), UrnError::Id);
    assert_eq!(Urn::parse("rad:git:a/b").unwrap_err(), UrnError::Id);
}
