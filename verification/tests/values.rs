//! Tests for the tag model and the value shapes the decoders populate.

use yasna::BitString;
use yasna::ObjectIdentifier;
use yasna::PrintableString;
use yasna::SetOf;
use yasna::Tag;
use yasna::TagClass;
use yasna::UtcTime;

#[test]
fn tag_constructors() {
    let t = Tag::universal(6);
    assert_eq!(t.tag_class, TagClass::Universal);
    assert_eq!(t.tag_number, 6);
    let t = Tag::application(3);
    assert_eq!(t.tag_class, TagClass::Application);
    assert_eq!(t.tag_number, 3);
    let t = Tag::context(0);
    assert_eq!(t.tag_class, TagClass::ContextSpecific);
    assert_eq!(t.tag_number, 0);
    let t = Tag::private(9);
    assert_eq!(t.tag_class, TagClass::Private);
    assert_eq!(t.tag_number, 9);
}

#[test]
fn bitstring_push_packs_bits() {
    let mut bs = BitString::new();
    assert_eq!(bs.unused_bits, 0);
    assert!(bs.buf.is_empty());
    bs.push(true);
    assert_eq!(bs.unused_bits, 7);
    assert_eq!(bs.buf, vec![0x80]);
    bs.push(false);
    bs.push(true);
    assert_eq!(bs.unused_bits, 5);
    assert_eq!(bs.buf, vec![0xA0]);
    for _ in 0..5 {
        bs.push(true);
    }
    assert_eq!(bs.unused_bits, 0);
    assert_eq!(bs.buf, vec![0xBF]);
    bs.push(true);
    assert_eq!(bs.unused_bits, 7);
    assert_eq!(bs.buf, vec![0xBF, 0x80]);
}

#[test]
fn bitstring_from_buf() {
    let bs = BitString::from_buf(3, vec![0xF8]);
    assert_eq!(bs.unused_bits, 3);
    assert_eq!(bs.buf, vec![0xF8]);
}

#[test]
fn set_of_starts_empty() {
    let s: SetOf<i64> = SetOf::new();
    assert!(s.vec.is_empty());
}

#[test]
fn object_identifier_arcs() {
    let oid = ObjectIdentifier::new(vec![1, 2, 840, 113549]);
    assert_eq!(oid.iter(), &vec![1u64, 2, 840, 113549]);
}

#[test]
fn printable_string_accepts_alphabet() {
    let p = PrintableString::from_bytes(b"Test User 1 ()+,-./:=?'".to_vec());
    assert!(p.is_some());
}

#[test]
fn printable_string_rejects_other_bytes() {
    assert!(PrintableString::from_bytes(b"semi;colon".to_vec()).is_none());
    assert!(PrintableString::from_bytes(vec![0x00]).is_none());
    assert!(PrintableString::from_bytes(vec![0xC3, 0xA9]).is_none());
}

#[test]
fn printable_string_empty_is_fine() {
    assert!(PrintableString::from_bytes(Vec::new()).is_some());
}

#[test]
fn utc_time_holds_bytes() {
    let t = UtcTime::new(b"8201021200Z".to_vec());
    let u = UtcTime::new(b"8201021200Z".to_vec());
    assert_eq!(t, u);
}

#[test]
fn bitstring_push_lands_at_unused_position() {
    let mut bs = BitString::from_buf(3, vec![0xF8]);
    bs.push(true);
    assert_eq!(bs.unused_bits, 2);
    assert_eq!(bs.buf, vec![0xFC]);
    bs.push(false);
    assert_eq!(bs.unused_bits, 1);
    assert_eq!(bs.buf, vec![0xFC]);
}
