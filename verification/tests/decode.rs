//! Byte-level decoding scenarios for the BER/DER reader.

use yasna::ASN1Error;
use yasna::ASN1ErrorKind;
use yasna::ASN1Result;
use yasna::BERReader;
use yasna::Tag;
use yasna::parse_ber;
use yasna::parse_der;

#[test]
fn bool_false_der() {
    let r = parse_der(&[0x01, 0x01, 0x00], |r| r.read_bool());
    assert_eq!(r, Ok(false));
}

#[test]
fn bool_true_der() {
    let r = parse_der(&[0x01, 0x01, 0xFF], |r| r.read_bool());
    assert_eq!(r, Ok(true));
}

#[test]
fn bool_noncanonical_rejected_in_der_accepted_in_ber() {
    let r = parse_der(&[0x01, 0x01, 0x01], |r| r.read_bool());
    assert_eq!(r.unwrap_err().kind(), ASN1ErrorKind::Invalid);
    let r = parse_ber(&[0x01, 0x01, 0x01], |r| r.read_bool());
    assert_eq!(r, Ok(true));
}

#[test]
fn integer_zero() {
    let r = parse_der(&[0x02, 0x01, 0x00], |r| r.read_i64());
    assert_eq!(r, Ok(0));
}

#[test]
fn integer_nonminimal_rejected() {
    let r = parse_der(&[0x02, 0x02, 0x00, 0x00], |r| r.read_i64());
    assert_eq!(r.unwrap_err().kind(), ASN1ErrorKind::Invalid);
}

#[test]
fn integer_255() {
    let r = parse_der(&[0x02, 0x02, 0x00, 0xFF], |r| r.read_i64());
    assert_eq!(r, Ok(255));
}

#[test]
fn integer_minus_one() {
    let r = parse_der(&[0x02, 0x01, 0xFF], |r| r.read_i64());
    assert_eq!(r, Ok(-1));
}

#[test]
fn integer_extremes() {
    let r = parse_der(
        &[0x02, 0x08, 0x7F, 0xFF, 0xFF, 0xFF, 0xFF, 0xFF, 0xFF, 0xFF],
        |r| r.read_i64(),
    );
    assert_eq!(r, Ok(i64::MAX));
    let r = parse_der(
        &[0x02, 0x08, 0x80, 0x00, 0x00, 0x00, 0x00, 0x00, 0x00, 0x00],
        |r| r.read_i64(),
    );
    assert_eq!(r, Ok(i64::MIN));
}

#[test]
fn integer_too_long_overflows() {
    let r = parse_der(
        &[0x02, 0x09, 0x01, 0x00, 0x00, 0x00, 0x00, 0x00, 0x00, 0x00, 0x00],
        |r| r.read_i64(),
    );
    assert_eq!(r.unwrap_err().kind(), ASN1ErrorKind::IntegerOverflow);
}

#[test]
fn integer_empty_body_invalid() {
    let r = parse_der(&[0x02, 0x00], |r| r.read_i64());
    assert_eq!(r.unwrap_err().kind(), ASN1ErrorKind::Invalid);
}

#[test]
fn integer_truncated_eof() {
    let r = parse_der(&[0x02, 0x05, 0x00], |r| r.read_i64());
    assert_eq!(r.unwrap_err().kind(), ASN1ErrorKind::Eof);
}

#[test]
fn null_ok() {
    let r = parse_der(&[0x05, 0x00], |r| r.read_null());
    assert_eq!(r, Ok(()));
}

#[test]
fn null_nonempty_invalid() {
    let r = parse_der(&[0x05, 0x01, 0x00], |r| r.read_null());
    assert_eq!(r.unwrap_err().kind(), ASN1ErrorKind::Invalid);
}

#[test]
fn length_reserved_ff_invalid() {
    let r = parse_der(&[0x01, 0xFF], |r| r.read_bool());
    assert_eq!(r.unwrap_err().kind(), ASN1ErrorKind::Invalid);
}

#[test]
fn long_form_length_nonminimal_der_only() {
    // a one-octet long-form length below 128 is non-minimal
    let r = parse_der(&[0x01, 0x81, 0x01, 0xFF], |r| r.read_bool());
    assert_eq!(r.unwrap_err().kind(), ASN1ErrorKind::Invalid);
    let r = parse_ber(&[0x01, 0x81, 0x01, 0xFF], |r| r.read_bool());
    assert_eq!(r, Ok(true));
}

#[test]
fn oid_standard_arcs() {
    let r = parse_der(&[0x06, 0x03, 0x2A, 0x86, 0x48], |r| r.read_oid());
    let oid = r.unwrap();
    assert_eq!(oid.iter(), &vec![1u64, 2, 840]);
}

#[test]
fn oid_trailing_continuation_invalid() {
    let r = parse_der(&[0x06, 0x02, 0x2A, 0x80], |r| r.read_oid());
    assert_eq!(r.unwrap_err().kind(), ASN1ErrorKind::Invalid);
}

#[test]
fn oid_first_arc_split() {
    // first subidentifier below 40 gives arcs (0, s0)
    let r = parse_der(&[0x06, 0x01, 0x27], |r| r.read_oid());
    assert_eq!(r.unwrap().iter(), &vec![0u64, 39]);
    // first subidentifier 40..=79 gives arcs (1, s0 - 40)
    let r = parse_der(&[0x06, 0x01, 0x28], |r| r.read_oid());
    assert_eq!(r.unwrap().iter(), &vec![1u64, 0]);
    // first subidentifier 80 and above gives arcs (2, s0 - 80)
    let r = parse_der(&[0x06, 0x01, 0x50], |r| r.read_oid());
    assert_eq!(r.unwrap().iter(), &vec![2u64, 0]);
}

#[test]
fn oid_leading_zero_octet_invalid() {
    let r = parse_der(&[0x06, 0x02, 0x80, 0x01], |r| r.read_oid());
    assert_eq!(r.unwrap_err().kind(), ASN1ErrorKind::Invalid);
}

#[test]
fn oid_subidentifier_overflow() {
    let r = parse_der(
        &[0x06, 0x0A, 0xFF, 0xFF, 0xFF, 0xFF, 0xFF, 0xFF, 0xFF, 0xFF, 0xFF, 0x7F],
        |r| r.read_oid(),
    );
    assert_eq!(r.unwrap_err().kind(), ASN1ErrorKind::IntegerOverflow);
}

#[test]
fn oid_empty_body_invalid() {
    let r = parse_der(&[0x06, 0x00], |r| r.read_oid());
    assert_eq!(r.unwrap_err().kind(), ASN1ErrorKind::Invalid);
}

#[test]
fn sequence_of_two_integers() {
    let r = parse_der(&[0x30, 0x06, 0x02, 0x01, 0x01, 0x02, 0x01, 0x02], |r| {
        r.read_sequence(|s| {
            let a = s.next().read_i64()?;
            let b = s.next().read_i64()?;
            Ok((a, b))
        })
    });
    assert_eq!(r, Ok((1, 2)));
}

#[test]
fn trailing_bytes_extra() {
    let r = parse_der(
        &[0x30, 0x06, 0x02, 0x01, 0x01, 0x02, 0x01, 0x02, 0x00],
        |r| {
            r.read_sequence(|s| {
                let a = s.next().read_i64()?;
                let b = s.next().read_i64()?;
                Ok((a, b))
            })
        },
    );
    assert_eq!(r.unwrap_err().kind(), ASN1ErrorKind::Extra);
}

#[test]
fn indefinite_sequence_ber_only() {
    let data = [0x30, 0x80, 0x02, 0x01, 0x01, 0x00, 0x00];
    let r = parse_ber(&data, |r| r.read_sequence(|s| s.next().read_i64()));
    assert_eq!(r, Ok(1));
    let r = parse_der(&data, |r| r.read_sequence(|s| s.next().read_i64()));
    assert_eq!(r.unwrap_err().kind(), ASN1ErrorKind::Invalid);
}

fn deep(reader: BERReader<'_, '_>) -> ASN1Result<()> {
    reader.read_sequence(|s| deep(s.next()))
}

#[test]
fn nesting_beyond_depth_limit_is_stack_overflow() {
    let mut data = Vec::new();
    for _ in 0..101 {
        data.push(0x30);
        data.push(0x80);
    }
    for _ in 0..101 {
        data.push(0x00);
        data.push(0x00);
    }
    let r = parse_ber(&data, |r| deep(r));
    assert_eq!(r.unwrap_err().kind(), ASN1ErrorKind::StackOverflow);
}

#[test]
fn der_accepted_means_ber_same_value() {
    let data = [0x02, 0x02, 0x00, 0xFF];
    let der = parse_der(&data, |r| r.read_i64());
    let ber = parse_ber(&data, |r| r.read_i64());
    assert_eq!(der, Ok(255));
    assert_eq!(der, ber);
}

#[test]
fn octet_string_primitive() {
    let r = parse_der(&[0x04, 0x03, 0x01, 0x02, 0x03], |r| r.read_bytes());
    assert_eq!(r, Ok(vec![1, 2, 3]));
}

#[test]
fn octet_string_constructed_ber_only() {
    let data = [0x24, 0x06, 0x04, 0x01, 0xAA, 0x04, 0x01, 0xBB];
    let r = parse_ber(&data, |r| r.read_bytes());
    assert_eq!(r, Ok(vec![0xAA, 0xBB]));
    let r = parse_der(&data, |r| r.read_bytes());
    assert_eq!(r.unwrap_err().kind(), ASN1ErrorKind::Invalid);
}

#[test]
fn octet_string_constructed_indefinite() {
    let data = [0x24, 0x80, 0x04, 0x01, 0xAA, 0x04, 0x02, 0xBB, 0xCC, 0x00, 0x00];
    let r = parse_ber(&data, |r| r.read_bytes());
    assert_eq!(r, Ok(vec![0xAA, 0xBB, 0xCC]));
}

#[test]
fn bitstring_with_unused_bits() {
    let r = parse_der(&[0x03, 0x04, 0x06, 0x6E, 0x5D, 0xC0], |r| r.read_bitstring());
    let bs = r.unwrap();
    assert_eq!(bs.unused_bits, 6);
    assert_eq!(bs.buf, vec![0x6E, 0x5D, 0xC0]);
}

#[test]
fn bitstring_empty() {
    let r = parse_der(&[0x03, 0x00], |r| r.read_bitstring());
    let bs = r.unwrap();
    assert_eq!(bs.unused_bits, 0);
    assert_eq!(bs.buf, Vec::<u8>::new());
}

#[test]
fn bitstring_unused_count_stored_mod_8() {
    // the count octet is stored modulo 8 and the remaining body is the
    // payload, whatever the count says
    let r = parse_der(&[0x03, 0x03, 0x09, 0xAA, 0xBB], |r| r.read_bitstring());
    let bs = r.unwrap();
    assert_eq!(bs.unused_bits, 1);
    assert_eq!(bs.buf, vec![0xAA, 0xBB]);
    let r = parse_der(&[0x03, 0x02, 0x11, 0xFF], |r| r.read_bitstring());
    let bs = r.unwrap();
    assert_eq!(bs.unused_bits, 1);
    assert_eq!(bs.buf, vec![0xFF]);
}

#[test]
fn bitstring_constructed_rejected() {
    let r = parse_ber(&[0x23, 0x03, 0x03, 0x01, 0x00], |r| r.read_bitstring());
    assert_eq!(r.unwrap_err().kind(), ASN1ErrorKind::Invalid);
}

#[test]
fn explicit_tag() {
    let r = parse_der(&[0xA0, 0x03, 0x02, 0x01, 0x07], |r| {
        r.read_tagged(Tag::context(0), |r| r.read_i64())
    });
    assert_eq!(r, Ok(7));
}

#[test]
fn explicit_tag_must_be_constructed() {
    let r = parse_der(&[0x80, 0x01, 0x07], |r| {
        r.read_tagged(Tag::context(0), |r| r.read_i64())
    });
    assert_eq!(r.unwrap_err().kind(), ASN1ErrorKind::Invalid);
}

#[test]
fn implicit_tag() {
    let r = parse_der(&[0x80, 0x01, 0xFF], |r| {
        r.read_tagged_implicit(Tag::context(0), |r| r.read_bool())
    });
    assert_eq!(r, Ok(true));
}

#[test]
fn long_form_tag_number() {
    // [200] IMPLICIT BOOLEAN: identifier 9F 81 48 carries tag number 200
    let r = parse_der(&[0x9F, 0x81, 0x48, 0x01, 0xFF], |r| {
        r.read_tagged_implicit(Tag::context(200), |r| r.read_bool())
    });
    assert_eq!(r, Ok(true));
}

#[test]
fn long_form_tag_below_31_invalid() {
    // the long form may not carry a number the short form could
    let r = parse_der(&[0x9F, 0x1E, 0x01, 0xFF], |r| {
        r.read_tagged_implicit(Tag::context(30), |r| r.read_bool())
    });
    assert_eq!(r.unwrap_err().kind(), ASN1ErrorKind::Invalid);
}

#[test]
fn optional_absent_leaves_position() {
    let r = parse_der(&[0x30, 0x03, 0x02, 0x01, 0x07], |r| {
        r.read_sequence(|s| {
            let missing = s.read_optional(|r| r.read_bool())?;
            let value = s.next().read_i64()?;
            Ok((missing, value))
        })
    });
    assert_eq!(r, Ok((None, 7)));
}

#[test]
fn optional_present() {
    let r = parse_der(&[0x30, 0x03, 0x01, 0x01, 0xFF], |r| {
        r.read_sequence(|s| s.read_optional(|r| r.read_bool()))
    });
    assert_eq!(r, Ok(Some(true)));
}

#[test]
fn optional_propagates_after_consumption() {
    // the integer child starts decoding (tag matches) and then fails:
    // the failure must not be turned into absence
    let r = parse_der(&[0x30, 0x04, 0x02, 0x02, 0x00, 0x00], |r| {
        r.read_sequence(|s| s.read_optional(|r| r.read_i64()))
    });
    assert_eq!(r.unwrap_err().kind(), ASN1ErrorKind::Invalid);
}

#[test]
fn default_absent_substitutes() {
    let r = parse_der(&[0x30, 0x00], |r| {
        r.read_sequence(|s| s.read_default(5i64, |r| r.read_i64()))
    });
    assert_eq!(r, Ok(5));
}

#[test]
fn default_equal_value_rejected_in_der() {
    let data = [0x30, 0x03, 0x02, 0x01, 0x05];
    let r = parse_der(&data, |r| {
        r.read_sequence(|s| s.read_default(5i64, |r| r.read_i64()))
    });
    assert_eq!(r.unwrap_err().kind(), ASN1ErrorKind::Invalid);
    let r = parse_ber(&data, |r| {
        r.read_sequence(|s| s.read_default(5i64, |r| r.read_i64()))
    });
    assert_eq!(r, Ok(5));
}

#[test]
fn default_distinct_value_kept() {
    let r = parse_der(&[0x30, 0x03, 0x02, 0x01, 0x09], |r| {
        r.read_sequence(|s| s.read_default(5i64, |r| r.read_i64()))
    });
    assert_eq!(r, Ok(9));
}

#[test]
fn set_of_integers() {
    let r = parse_der(&[0x31, 0x06, 0x02, 0x01, 0x01, 0x02, 0x01, 0x02], |r| {
        r.read_set(|s| {
            let a = s.next().read_i64()?;
            let b = s.next().read_i64()?;
            Ok(a + b)
        })
    });
    assert_eq!(r, Ok(3));
}

#[test]
fn read_with_buffer_returns_consumed_bytes() {
    let r = parse_der(&[0x02, 0x01, 0x07], |r| {
        r.read_with_buffer(|r| r.read_i64())
    });
    let (v, raw) = r.unwrap();
    assert_eq!(v, 7);
    assert_eq!(raw, &[0x02u8, 0x01, 0x07][..]);
}

#[test]
fn seq_read_with_buffer() {
    let r = parse_der(&[0x30, 0x03, 0x02, 0x01, 0x07], |r| {
        r.read_sequence(|s| s.read_with_buffer(|s| s.next().read_i64()))
    });
    let (v, raw) = r.unwrap();
    assert_eq!(v, 7);
    assert_eq!(raw, &[0x02u8, 0x01, 0x07][..]);
}

#[test]
fn parse_dispatches_from_ber() {
    let r: ASN1Result<i64> = parse_der(&[0x02, 0x01, 0x2A], |r| r.parse());
    assert_eq!(r, Ok(42));
    let r: ASN1Result<bool> = parse_ber(&[0x01, 0x01, 0x00], |r| r.parse());
    assert_eq!(r, Ok(false));
}

#[test]
fn empty_input_is_eof() {
    let r = parse_der(&[], |r| r.read_bool());
    assert_eq!(r.unwrap_err().kind(), ASN1ErrorKind::Eof);
}

#[test]
fn wrong_tag_invalid() {
    let r = parse_der(&[0x02, 0x01, 0x00], |r| r.read_bool());
    assert_eq!(r.unwrap_err().kind(), ASN1ErrorKind::Invalid);
}

#[test]
fn generate_error_carries_kind() {
    let r: ASN1Result<()> = parse_der(&[0x05, 0x00], |r| {
        let e: ASN1Error = r.generate_error(ASN1ErrorKind::Extra);
        assert_eq!(e.kind(), ASN1ErrorKind::Extra);
        r.read_null()
    });
    assert_eq!(r, Ok(()));
}

#[test]
fn oid_multi_octet_subidentifier() {
    // 0x81 0x80 0x01 is one base-128 subidentifier: 1*128*128 + 0*128 + 1
    let r = parse_der(&[0x06, 0x04, 0x2A, 0x81, 0x80, 0x01], |r| r.read_oid());
    assert_eq!(r.unwrap().iter(), &vec![1u64, 2, 16385]);
}

#[test]
fn long_form_length_over_127() {
    // 43 integer children make 129 content bytes, needing a long-form length
    let mut data = vec![0x30, 0x81, 0x81];
    for _ in 0..43 {
        data.push(0x02);
        data.push(0x01);
        data.push(0x07);
    }
    let r = parse_der(&data, |r| {
        r.read_sequence(|s| {
            let mut values = Vec::new();
            loop {
                match s.read_optional(|r| r.read_i64())? {
                    Some(v) => values.push(v),
                    None => return Ok(values),
                }
            }
        })
    });
    let values = r.unwrap();
    assert_eq!(values.len(), 43);
    assert!(values.iter().all(|&v| v == 7));
}

#[test]
fn indefinite_needs_end_of_contents() {
    // the marker's length octet must be zero
    let r = parse_ber(&[0x30, 0x80, 0x02, 0x01, 0x01, 0x00, 0x01], |r| {
        r.read_sequence(|s| s.next().read_i64())
    });
    assert_eq!(r.unwrap_err().kind(), ASN1ErrorKind::Invalid);
    // a TLV in place of the marker is not a terminator
    let r = parse_ber(&[0x30, 0x80, 0x02, 0x01, 0x01, 0x05, 0x00], |r| {
        r.read_sequence(|s| s.next().read_i64())
    });
    assert_eq!(r.unwrap_err().kind(), ASN1ErrorKind::Invalid);
    // a missing marker runs into the end of the buffer
    let r = parse_ber(&[0x30, 0x80, 0x02, 0x01, 0x01], |r| {
        r.read_sequence(|s| s.next().read_i64())
    });
    assert_eq!(r.unwrap_err().kind(), ASN1ErrorKind::Eof);
}

#[test]
fn indefinite_primitive_invalid() {
    // the indefinite form is only allowed on constructed values
    let r = parse_ber(&[0x04, 0x80, 0x00, 0x00], |r| r.read_bytes());
    assert_eq!(r.unwrap_err().kind(), ASN1ErrorKind::Invalid);
}

#[test]
fn truncated_long_form_tag_eof() {
    let r = parse_der(&[0x9F, 0x81], |r| {
        r.read_tagged_implicit(Tag::context(200), |r| r.read_bool())
    });
    assert_eq!(r.unwrap_err().kind(), ASN1ErrorKind::Eof);
}

#[test]
fn truncated_long_form_length_eof() {
    let r = parse_ber(&[0x02, 0x82, 0x01], |r| r.read_i64());
    assert_eq!(r.unwrap_err().kind(), ASN1ErrorKind::Eof);
}

#[test]
fn tag_number_overflow() {
    // ten continuation octets push the tag number past sixty-four bits
    let data = [0x9F, 0xFF, 0xFF, 0xFF, 0xFF, 0xFF, 0xFF, 0xFF, 0xFF, 0xFF, 0x7F, 0x01, 0xFF];
    let r = parse_ber(&data, |r| {
        r.read_tagged_implicit(Tag::context(200), |r| r.read_bool())
    });
    assert_eq!(r.unwrap_err().kind(), ASN1ErrorKind::IntegerOverflow);
}

#[test]
fn nested_sequences() {
    let r = parse_der(&[0x30, 0x05, 0x30, 0x03, 0x02, 0x01, 0x2A], |r| {
        r.read_sequence(|s| s.next().read_sequence(|s| s.next().read_i64()))
    });
    assert_eq!(r, Ok(42));
}

#[test]
fn inner_child_must_fill_its_window() {
    // the sequence declares four content bytes but its child uses three
    let r = parse_der(&[0x30, 0x04, 0x02, 0x01, 0x2A, 0x00], |r| {
        r.read_sequence(|s| s.next().read_i64())
    });
    assert_eq!(r.unwrap_err().kind(), ASN1ErrorKind::Extra);
}

#[test]
fn child_longer_than_window_eof() {
    // the child claims more bytes than its enclosing window holds
    let r = parse_der(&[0x30, 0x03, 0x02, 0x04, 0x01], |r| {
        r.read_sequence(|s| s.next().read_i64())
    });
    assert_eq!(r.unwrap_err().kind(), ASN1ErrorKind::Eof);
}
