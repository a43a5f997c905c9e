//! The byte-level model of BER and DER.
//!
//! Every function here is a specification: it states, over a byte
//! sequence `s`, a window end `limit`, and a position `pos`, what one
//! decoding step reads and what it yields.  The executable reader in
//! `reader` carries contracts phrased over these functions, so the
//! meaning of the wire format lives in exactly one place.
//!
//! All positions are measured in the full buffer; a decode step may read
//! the bytes of `s` at indexes in `[pos, limit)` only.

use vstd::prelude::*;
use vstd::arithmetic::power2::lemma2_to64;
use vstd::arithmetic::power2::lemma2_to64_rest;
use vstd::arithmetic::power2::lemma_pow2_adds;
use vstd::arithmetic::power2::lemma_pow2_pos;
use vstd::arithmetic::power2::lemma_pow2_strictly_increases;
use vstd::arithmetic::power2::pow2;

use crate::basics::Tag;
use crate::basics::TagClass;
use crate::error::ASN1ErrorKind;
use crate::reader::BERMode;

verus! {

/// Whether a TLV holds raw content bytes (primitive) or a concatenation
/// of nested TLVs (constructed).
#[derive(Debug, Clone, Copy, Eq, PartialEq, Structural, Hash)]
pub enum PC {
    Primitive,
    Constructed,
}

/// The depth bound: nesting a TLV more than this many levels fails with
/// `StackOverflow` before the nested decode is attempted.
pub const READER_STACK_DEPTH: usize = 100;

/// The universal tag for BOOLEAN.
pub open spec fn spec_tag_boolean() -> Tag {
    Tag { tag_class: TagClass::Universal, tag_number: 1 }
}

/// The universal tag for INTEGER.
pub open spec fn spec_tag_integer() -> Tag {
    Tag { tag_class: TagClass::Universal, tag_number: 2 }
}

/// The universal tag for BIT STRING.
pub open spec fn spec_tag_bitstring() -> Tag {
    Tag { tag_class: TagClass::Universal, tag_number: 3 }
}

/// The universal tag for OCTET STRING.
pub open spec fn spec_tag_octetstring() -> Tag {
    Tag { tag_class: TagClass::Universal, tag_number: 4 }
}

/// The universal tag for NULL.
pub open spec fn spec_tag_null() -> Tag {
    Tag { tag_class: TagClass::Universal, tag_number: 5 }
}

/// The universal tag for OBJECT IDENTIFIER.
pub open spec fn spec_tag_oid() -> Tag {
    Tag { tag_class: TagClass::Universal, tag_number: 6 }
}

/// The universal tag for SEQUENCE.
pub open spec fn spec_tag_sequence() -> Tag {
    Tag { tag_class: TagClass::Universal, tag_number: 16 }
}

/// The universal tag for SET.
pub open spec fn spec_tag_set() -> Tag {
    Tag { tag_class: TagClass::Universal, tag_number: 17 }
}

/// The tag class encoded in bits 7-6 of an identifier octet.
pub open spec fn class_of(b: u8) -> TagClass {
    if b >> 6 == 0 {
        TagClass::Universal
    } else if b >> 6 == 1 {
        TagClass::Application
    } else if b >> 6 == 2 {
        TagClass::ContextSpecific
    } else {
        TagClass::Private
    }
}

/// The primitive/constructed flag encoded in bit 5 of an identifier octet.
pub open spec fn pc_of(b: u8) -> PC {
    if b & 32 == 0 {
        PC::Primitive
    } else {
        PC::Constructed
    }
}

/// Long-form tag number decoding: big-endian base 128, each octet with
/// continuation bit 7, accumulated onto `acc`.  Yields the number and
/// the position after its last octet.  Accumulation past `u64` fails
/// `IntegerOverflow`; running out of the window fails `Eof`.
pub open spec fn spec_tag_number(s: Seq<u8>, limit: int, pos: int, acc: int) -> Result<
    (int, int),
    ASN1ErrorKind,
>
    decreases limit - pos,
{
    if pos < 0 || pos >= limit {
        Err(ASN1ErrorKind::Eof)
    } else {
        let b = s[pos];
        if acc * 128 > u64::MAX as int {
            Err(ASN1ErrorKind::IntegerOverflow)
        } else {
            let acc2 = acc * 128 + (b & 127) as int;
            if b & 128 == 0 {
                Ok((acc2, pos + 1))
            } else {
                spec_tag_number(s, limit, pos + 1, acc2)
            }
        }
    }
}

/// Identifier decoding: one tag octet giving class, primitive/constructed
/// bit, and a number below 31; or the long form, whose assembled number
/// must be at least 31.  Yields the tag, the flag, and the position after
/// the identifier.
pub open spec fn spec_identifier(s: Seq<u8>, limit: int, pos: int) -> Result<
    (Tag, PC, int),
    ASN1ErrorKind,
> {
    if pos < 0 || pos >= limit {
        Err(ASN1ErrorKind::Eof)
    } else {
        let b = s[pos];
        if b & 31 < 31 {
            Ok(
                (
                    Tag { tag_class: class_of(b), tag_number: (b & 31) as u64 },
                    pc_of(b),
                    pos + 1,
                ),
            )
        } else {
            match spec_tag_number(s, limit, pos + 1, 0) {
                Ok((n, p)) => if n < 31 {
                    Err(ASN1ErrorKind::Invalid)
                } else {
                    Ok((Tag { tag_class: class_of(b), tag_number: n as u64 }, pc_of(b), p))
                },
                Err(k) => Err(k),
            }
        }
    }
}

/// Long-form length decoding: `n` big-endian base-256 octets accumulated
/// onto `acc`.  Overflow of the accumulator fails `Eof` (a convention
/// this decoder keeps).
pub open spec fn spec_length_bytes(s: Seq<u8>, limit: int, pos: int, n: int, acc: int) -> Result<
    (int, int),
    ASN1ErrorKind,
>
    decreases n,
{
    if n <= 0 {
        Ok((acc, pos))
    } else if acc * 256 > usize::MAX as int {
        Err(ASN1ErrorKind::Eof)
    } else if pos < 0 || pos >= limit {
        Err(ASN1ErrorKind::Eof)
    } else {
        spec_length_bytes(s, limit, pos + 1, n - 1, acc * 256 + s[pos] as int)
    }
}

/// Length decoding.  `Ok((None, p))` is the indefinite form; 0xFF is
/// reserved and fails `Invalid`; in DER, a long-form length below 128 is
/// non-minimal and fails `Invalid`.
pub open spec fn spec_length(s: Seq<u8>, limit: int, pos: int, mode: BERMode) -> Result<
    (Option<int>, int),
    ASN1ErrorKind,
> {
    if pos < 0 || pos >= limit {
        Err(ASN1ErrorKind::Eof)
    } else {
        let l = s[pos] as int;
        if l == 128 {
            Ok((None, pos + 1))
        } else if l == 255 {
            Err(ASN1ErrorKind::Invalid)
        } else if l < 128 {
            Ok((Some(l), pos + 1))
        } else {
            match spec_length_bytes(s, limit, pos + 1, l - 128, 0) {
                Ok((len, p)) => if mode == BERMode::Der && len < 128 {
                    Err(ASN1ErrorKind::Invalid)
                } else {
                    Ok((Some(len), p))
                },
                Err(k) => Err(k),
            }
        }
    }
}

/// Entry into one TLV whose tag must equal `tag`: identifier, then
/// length, then the bounds check of the definite form or the
/// constructed-only / BER-only checks of the indefinite form.
///
/// Yields the primitive/constructed flag, the content end for the
/// definite form (`None` for the indefinite form), and the position of
/// the first content byte.
pub open spec fn spec_tlv_header(s: Seq<u8>, limit: int, pos: int, mode: BERMode, tag: Tag) -> Result<
    (PC, Option<int>, int),
    ASN1ErrorKind,
> {
    match spec_identifier(s, limit, pos) {
        Err(k) => Err(k),
        Ok((tag2, pc, p1)) => if tag2 != tag {
            Err(ASN1ErrorKind::Invalid)
        } else {
            match spec_length(s, limit, p1, mode) {
                Err(k) => Err(k),
                Ok((lenopt, p2)) => match lenopt {
                    Some(l) => if p2 + l > limit {
                        Err(ASN1ErrorKind::Eof)
                    } else {
                        Ok((pc, Some(p2 + l), p2))
                    },
                    None => if pc != PC::Constructed {
                        Err(ASN1ErrorKind::Invalid)
                    } else if mode == BERMode::Der {
                        Err(ASN1ErrorKind::Invalid)
                    } else {
                        Ok((pc, None, p2))
                    },
                },
            }
        },
    }
}

/// Whether a failed TLV entry leaves the position where it was: either
/// the window was already exhausted, or the identifier decoded but did
/// not match the expected tag (the reader restores its snapshot then).
/// Every other failure leaves the position strictly advanced.
pub open spec fn spec_tlv_unmoved(s: Seq<u8>, limit: int, pos: int, tag: Tag) -> bool {
    ||| pos >= limit
    ||| (match spec_identifier(s, limit, pos) {
        Ok((tag2, _pc, _p)) => tag2 != tag,
        Err(_) => false,
    })
}

/// The end-of-contents marker closing an indefinite-form value: a
/// primitive TLV with universal tag 0 and a single length octet of
/// value 0.  Yields the position after the marker.
pub open spec fn spec_eoc(s: Seq<u8>, limit: int, pos: int) -> Result<int, ASN1ErrorKind> {
    match spec_identifier(s, limit, pos) {
        Err(k) => Err(k),
        Ok((tag, pc, p1)) => if tag != (Tag {
            tag_class: TagClass::Universal,
            tag_number: 0,
        }) || pc != PC::Primitive {
            Err(ASN1ErrorKind::Invalid)
        } else if p1 >= limit {
            Err(ASN1ErrorKind::Eof)
        } else if s[p1] != 0 {
            Err(ASN1ErrorKind::Invalid)
        } else {
            Ok(p1 + 1)
        },
    }
}

/// The value of a byte read as a signed 8-bit quantity.
pub open spec fn signed_byte(b: u8) -> int {
    if b >= 128 {
        b - 256
    } else {
        b as int
    }
}

/// The value of a nonempty big-endian two's-complement byte string:
/// the first byte is signed, each further byte appends 8 bits.
pub open spec fn spec_be_signed(c: Seq<u8>) -> int
    decreases c.len(),
{
    if c.len() <= 0 {
        0
    } else if c.len() == 1 {
        signed_byte(c[0])
    } else {
        spec_be_signed(c.drop_last()) * 256 + c.last() as int
    }
}

/// BOOLEAN content: exactly one byte; zero is false, nonzero is true;
/// DER additionally requires the byte to be 0x00 or 0xFF.
pub open spec fn spec_bool_content(c: Seq<u8>, mode: BERMode) -> Result<bool, ASN1ErrorKind> {
    if c.len() != 1 {
        Err(ASN1ErrorKind::Invalid)
    } else if mode == BERMode::Der && c[0] != 0 && c[0] != 255 {
        Err(ASN1ErrorKind::Invalid)
    } else {
        Ok(c[0] != 0)
    }
}

/// INTEGER content decoded into a signed 64-bit value.  An empty body
/// is `Invalid`; a multi-byte body whose leading 16 bits sign-extend to
/// 8 bits is non-minimal and `Invalid`; more than 8 bytes is
/// `IntegerOverflow`.
pub open spec fn spec_i64_content(c: Seq<u8>) -> Result<i64, ASN1ErrorKind> {
    if c.len() == 0 {
        Err(ASN1ErrorKind::Invalid)
    } else if c.len() == 1 {
        Ok(signed_byte(c[0]) as i64)
    } else {
        let x2 = signed_byte(c[0]) * 256 + c[1] as int;
        if -128 <= x2 && x2 < 128 {
            Err(ASN1ErrorKind::Invalid)
        } else if c.len() > 8 {
            Err(ASN1ErrorKind::IntegerOverflow)
        } else {
            Ok(spec_be_signed(c) as i64)
        }
    }
}

/// NULL content: the body must be empty.
pub open spec fn spec_null_content(c: Seq<u8>) -> Result<(), ASN1ErrorKind> {
    if c.len() != 0 {
        Err(ASN1ErrorKind::Invalid)
    } else {
        Ok(())
    }
}

/// BIT STRING content: an empty body is the empty bit string; otherwise
/// byte 0 holds the unused-bit count U, stored modulo 8, and the
/// remaining body is the bit payload.  No canonicity check is made on
/// the unused bits.
pub open spec fn spec_bitstring_content(c: Seq<u8>) -> Result<(int, Seq<u8>), ASN1ErrorKind> {
    if c.len() == 0 {
        Ok((0, Seq::<u8>::empty()))
    } else {
        Ok(((c[0] % 8) as int, c.subrange(1, c.len() as int)))
    }
}

/// The X.690 split of the first subidentifier into the first two arcs.
pub open spec fn spec_oid_split(sub: int) -> (int, int) {
    if sub < 40 {
        (0, sub)
    } else if sub < 80 {
        (1, sub - 40)
    } else {
        (2, sub - 80)
    }
}

/// OBJECT IDENTIFIER subidentifier scan from index `i`, with `sub` the
/// partial base-128 accumulator and `ids` the arcs emitted so far.  A
/// 0x80 octet opening a subidentifier is a non-minimal leading zero and
/// fails `Invalid`; accumulation past `u64` fails `IntegerOverflow`.
/// The first completed subidentifier is split by `spec_oid_split`.
pub open spec fn spec_oid_arcs(c: Seq<u8>, i: int, sub: int, ids: Seq<u64>) -> Result<
    Seq<u64>,
    ASN1ErrorKind,
>
    decreases c.len() - i,
{
    if i < 0 || i >= c.len() {
        Ok(ids)
    } else {
        let b = c[i];
        if sub == 0 && b == 128 {
            Err(ASN1ErrorKind::Invalid)
        } else if sub * 128 > u64::MAX as int {
            Err(ASN1ErrorKind::IntegerOverflow)
        } else {
            let sub2 = sub * 128 + (b & 127) as int;
            if b & 128 == 0 {
                if ids.len() == 0 {
                    let id0 = spec_oid_split(sub2).0;
                    let id1 = spec_oid_split(sub2).1;
                    spec_oid_arcs(c, i + 1, 0, seq![id0 as u64, id1 as u64])
                } else {
                    spec_oid_arcs(c, i + 1, 0, ids.push(sub2 as u64))
                }
            } else {
                spec_oid_arcs(c, i + 1, sub2, ids)
            }
        }
    }
}

/// OBJECT IDENTIFIER content: nonempty, ending on an octet with bit 7
/// clear, scanned by `spec_oid_arcs`.
pub open spec fn spec_oid_content(c: Seq<u8>) -> Result<Seq<u64>, ASN1ErrorKind> {
    if c.len() == 0 || c[c.len() - 1] >= 128 {
        Err(ASN1ErrorKind::Invalid)
    } else {
        spec_oid_arcs(c, 0, 0, Seq::<u64>::empty())
    }
}

/// One whole primitive-form TLV of the given tag, its content read by
/// `body`.  This is the shape of every primitive typed decoder: the
/// depth gate, the header, the primitive-form requirement, and the full
/// consumption of the definite content window.
pub open spec fn spec_prim_tlv<V>(
    s: Seq<u8>,
    limit: int,
    pos: int,
    mode: BERMode,
    depth: int,
    tag: Tag,
    body: spec_fn(Seq<u8>, BERMode) -> Result<V, ASN1ErrorKind>,
) -> Result<(V, int), ASN1ErrorKind> {
    if depth > READER_STACK_DEPTH {
        Err(ASN1ErrorKind::StackOverflow)
    } else {
        match spec_tlv_header(s, limit, pos, mode, tag) {
            Err(k) => Err(k),
            Ok((pc, end_opt, body_start)) => if pc != PC::Primitive {
                Err(ASN1ErrorKind::Invalid)
            } else {
                match end_opt {
                    Some(end) => match body(s.subrange(body_start, end), mode) {
                        Ok(v) => Ok((v, end)),
                        Err(k) => Err(k),
                    },
                    // the indefinite form is always constructed
                    None => Err(ASN1ErrorKind::Invalid),
                }
            },
        }
    }
}

/// A whole BOOLEAN TLV.
pub open spec fn spec_read_bool(
    s: Seq<u8>,
    limit: int,
    pos: int,
    mode: BERMode,
    depth: int,
    tag: Tag,
) -> Result<(bool, int), ASN1ErrorKind> {
    spec_prim_tlv(s, limit, pos, mode, depth, tag, |c: Seq<u8>, m: BERMode| spec_bool_content(c, m))
}

/// A whole INTEGER TLV decoded into `i64`.
pub open spec fn spec_read_i64(
    s: Seq<u8>,
    limit: int,
    pos: int,
    mode: BERMode,
    depth: int,
    tag: Tag,
) -> Result<(i64, int), ASN1ErrorKind> {
    spec_prim_tlv(s, limit, pos, mode, depth, tag, |c: Seq<u8>, _m: BERMode| spec_i64_content(c))
}

/// A whole NULL TLV.
pub open spec fn spec_read_null(
    s: Seq<u8>,
    limit: int,
    pos: int,
    mode: BERMode,
    depth: int,
    tag: Tag,
) -> Result<((), int), ASN1ErrorKind> {
    spec_prim_tlv(s, limit, pos, mode, depth, tag, |c: Seq<u8>, _m: BERMode| spec_null_content(c))
}

/// A whole BIT STRING TLV.  The constructed form is rejected.
pub open spec fn spec_read_bitstring(
    s: Seq<u8>,
    limit: int,
    pos: int,
    mode: BERMode,
    depth: int,
    tag: Tag,
) -> Result<((int, Seq<u8>), int), ASN1ErrorKind> {
    spec_prim_tlv(
        s,
        limit,
        pos,
        mode,
        depth,
        tag,
        |c: Seq<u8>, _m: BERMode| spec_bitstring_content(c),
    )
}

/// A whole OBJECT IDENTIFIER TLV.
pub open spec fn spec_read_oid(
    s: Seq<u8>,
    limit: int,
    pos: int,
    mode: BERMode,
    depth: int,
    tag: Tag,
) -> Result<(Seq<u64>, int), ASN1ErrorKind> {
    spec_prim_tlv(s, limit, pos, mode, depth, tag, |c: Seq<u8>, _m: BERMode| spec_oid_content(c))
}

/// A whole OCTET STRING TLV of the given tag: a primitive body is taken
/// verbatim; a constructed body (BER only) is the concatenation of its
/// child octet-string TLVs, under the definite or the indefinite form.
/// Yields the collected bytes and the position after the TLV.
pub open spec fn spec_read_bytes(
    s: Seq<u8>,
    limit: int,
    pos: int,
    mode: BERMode,
    depth: int,
    tag: Tag,
) -> Result<(Seq<u8>, int), ASN1ErrorKind>
    decreases limit - pos, 0int,
{
    if depth > READER_STACK_DEPTH {
        Err(ASN1ErrorKind::StackOverflow)
    } else {
        match spec_tlv_header(s, limit, pos, mode, tag) {
            Err(k) => Err(k),
            Ok((pc, end_opt, body_start)) => match pc {
                PC::Primitive => match end_opt {
                    Some(end) => Ok((s.subrange(body_start, end), end)),
                    // the indefinite form is always constructed
                    None => Err(ASN1ErrorKind::Invalid),
                },
                PC::Constructed => if mode == BERMode::Der {
                    Err(ASN1ErrorKind::Invalid)
                } else {
                    match end_opt {
                        Some(end) => if pos < body_start <= end <= limit {
                            match spec_bytes_children(s, end, body_start, mode, depth + 1) {
                                Err(k) => Err(k),
                                Ok((bs, p)) => if p == end {
                                    Ok((bs, end))
                                } else {
                                    Err(ASN1ErrorKind::Extra)
                                },
                            }
                        } else {
                            // a definite header always advances within the window
                            Err(ASN1ErrorKind::Invalid)
                        },
                        None => if pos < body_start <= limit {
                            match spec_bytes_children(s, limit, body_start, mode, depth + 1) {
                                Err(k) => Err(k),
                                Ok((bs, p)) => match spec_eoc(s, limit, p) {
                                    Err(k) => Err(k),
                                    Ok(p2) => Ok((bs, p2)),
                                },
                            }
                        } else {
                            // an indefinite header always advances within the window
                            Err(ASN1ErrorKind::Invalid)
                        },
                    }
                },
            },
        }
    }
}

/// The child loop of a constructed octet string: octet-string TLVs are
/// read until one fails without moving the position (the window is done
/// or a different tag follows); their contents are concatenated.  A
/// child failure that moved the position propagates.
pub open spec fn spec_bytes_children(
    s: Seq<u8>,
    limit: int,
    pos: int,
    mode: BERMode,
    depth: int,
) -> Result<(Seq<u8>, int), ASN1ErrorKind>
    decreases limit - pos, 1int,
{
    let octet_tag = spec_tag_octetstring();
    match spec_read_bytes(s, limit, pos, mode, depth, octet_tag) {
        Err(k) => if depth > READER_STACK_DEPTH || spec_tlv_unmoved(s, limit, pos, octet_tag) {
            Ok((Seq::<u8>::empty(), pos))
        } else {
            Err(k)
        },
        Ok((bs, p)) => if pos < p <= limit {
            match spec_bytes_children(s, limit, p, mode, depth) {
                Err(k) => Err(k),
                Ok((bs2, p2)) => Ok((bs + bs2, p2)),
            }
        } else {
            // a TLV read always advances within the window
            Err(ASN1ErrorKind::Invalid)
        },
    }
}

/// A nonempty big-endian two's-complement byte string of n bytes holds
/// a value in `[-2^(8n-1), 2^(8n-1))`.
pub proof fn lemma_be_signed_bounds(c: Seq<u8>)
    requires
        1 <= c.len(),
    ensures
        -(pow2((8 * c.len() - 1) as nat) as int) <= spec_be_signed(c) < pow2(
            (8 * c.len() - 1) as nat,
        ) as int,
    decreases c.len(),
{
    if c.len() == 1 {
        lemma2_to64();
    } else {
        let n = c.len() as int;
        lemma_be_signed_bounds(c.drop_last());
        lemma_pow2_adds((8 * (n - 1) - 1) as nat, 8);
        lemma2_to64();
        lemma_pow2_pos((8 * (n - 1) - 1) as nat);
        let p = pow2((8 * (n - 1) - 1) as nat) as int;
        let q = pow2((8 * n - 1) as nat) as int;
        let v = spec_be_signed(c.drop_last());
        let b = c.last() as int;
        assert(-q <= v * 256 + b < q) by (nonlinear_arith)
            requires
                p > 0,
                -p <= v < p,
                0 <= b <= 255,
                q == p * 256,
        ;
    }
}

/// The value bound, weakened to the `i64` range for up to eight bytes.
pub proof fn lemma_be_signed_fits_i64(c: Seq<u8>)
    requires
        1 <= c.len() <= 8,
    ensures
        i64::MIN <= spec_be_signed(c) <= i64::MAX,
{
    lemma_be_signed_bounds(c);
    if 8 * c.len() - 1 < 63 {
        lemma_pow2_strictly_increases((8 * c.len() - 1) as nat, 63);
    }
    lemma2_to64();
    lemma2_to64_rest();
}

/// Long-form tag number decoding stays inside the window and inside
/// `u64`.
pub proof fn lemma_tag_number_bounds(s: Seq<u8>, limit: int, pos: int, acc: int)
    requires
        0 <= acc <= u64::MAX,
    ensures
        match spec_tag_number(s, limit, pos, acc) {
            Ok((n, p)) => pos + 1 <= p <= limit && 0 <= n <= u64::MAX,
            Err(_) => true,
        },
    decreases limit - pos,
{
    if pos < 0 || pos >= limit {
    } else {
        let b = s[pos];
        if acc * 128 > u64::MAX as int {
        } else {
            let acc2 = acc * 128 + (b & 127) as int;
            assert(b & 127 <= 127) by (bit_vector);
            assert(acc2 <= u64::MAX as int) by (nonlinear_arith)
                requires
                    0 <= acc,
                    acc * 128 <= u64::MAX as int,
                    acc2 == acc * 128 + (b & 127) as int,
                    (b & 127) as int <= 127,
            ;
            if b & 128 == 0 {
            } else {
                lemma_tag_number_bounds(s, limit, pos + 1, acc2);
            }
        }
    }
}

/// Identifier decoding stays inside the window.
pub proof fn lemma_identifier_bounds(s: Seq<u8>, limit: int, pos: int)
    requires
        0 <= pos,
    ensures
        match spec_identifier(s, limit, pos) {
            Ok((_t, _pc, p)) => pos + 1 <= p <= limit,
            Err(_) => true,
        },
{
    if pos < limit {
        lemma_tag_number_bounds(s, limit, pos + 1, 0);
    }
}

/// Long-form length octets stay inside the window and inside `usize`.
pub proof fn lemma_length_bytes_bounds(s: Seq<u8>, limit: int, pos: int, n: int, acc: int)
    requires
        0 <= acc <= usize::MAX,
        0 <= pos <= limit,
    ensures
        match spec_length_bytes(s, limit, pos, n, acc) {
            Ok((len, p)) => pos <= p <= limit && 0 <= len <= usize::MAX,
            Err(_) => true,
        },
    decreases n,
{
    if n <= 0 {
    } else if acc * 256 > usize::MAX as int {
    } else if pos >= limit {
    } else {
        let acc2 = acc * 256 + s[pos] as int;
        assert(acc2 <= usize::MAX as int) by (nonlinear_arith)
            requires
                0 <= acc,
                acc * 256 <= usize::MAX as int,
                acc2 == acc * 256 + s[pos] as int,
                s[pos] as int <= 255,
        ;
        lemma_length_bytes_bounds(s, limit, pos + 1, n - 1, acc2);
    }
}

/// Length decoding stays inside the window and inside `usize`.
pub proof fn lemma_length_bounds(s: Seq<u8>, limit: int, pos: int, mode: BERMode)
    requires
        0 <= pos,
    ensures
        match spec_length(s, limit, pos, mode) {
            Ok((lenopt, p)) => pos + 1 <= p <= limit && (match lenopt {
                Some(l) => 0 <= l <= usize::MAX,
                None => true,
            }),
            Err(_) => true,
        },
{
    if pos < limit {
        let l = s[pos] as int;
        if l > 128 && l < 255 {
            lemma_length_bytes_bounds(s, limit, pos + 1, l - 128, 0);
        }
    }
}

/// A TLV header occupies at least two octets, and its content window
/// lies inside the enclosing window.
pub proof fn lemma_header_bounds(s: Seq<u8>, limit: int, pos: int, mode: BERMode, tag: Tag)
    requires
        0 <= pos,
    ensures
        match spec_tlv_header(s, limit, pos, mode, tag) {
            Ok((_pc, end_opt, bs)) => pos + 2 <= bs <= limit && (match end_opt {
                Some(e) => bs <= e <= limit,
                None => true,
            }),
            Err(_) => true,
        },
{
    lemma_identifier_bounds(s, limit, pos);
    match spec_identifier(s, limit, pos) {
        Ok((_t, _pc, p1)) => {
            lemma_length_bounds(s, limit, p1, mode);
        },
        Err(_) => {},
    }
}

/// An end-of-contents marker occupies exactly two octets inside the
/// window.
pub proof fn lemma_eoc_bounds(s: Seq<u8>, limit: int, pos: int)
    requires
        0 <= pos,
    ensures
        match spec_eoc(s, limit, pos) {
            Ok(p) => pos + 2 <= p <= limit,
            Err(_) => true,
        },
{
    lemma_identifier_bounds(s, limit, pos);
}

/// An octet-string TLV read consumes at least its two header octets and
/// stays inside the window.
pub proof fn lemma_read_bytes_bounds(
    s: Seq<u8>,
    limit: int,
    pos: int,
    mode: BERMode,
    depth: int,
    tag: Tag,
)
    requires
        0 <= pos,
    ensures
        match spec_read_bytes(s, limit, pos, mode, depth, tag) {
            Ok((_bs, p)) => pos + 2 <= p <= limit,
            Err(_) => true,
        },
    decreases limit - pos, 0int,
{
    if depth > READER_STACK_DEPTH {
    } else {
        lemma_header_bounds(s, limit, pos, mode, tag);
        match spec_tlv_header(s, limit, pos, mode, tag) {
            Err(_) => {},
            Ok((pc, end_opt, bs)) => {
                match pc {
                    PC::Primitive => {},
                    PC::Constructed => {
                        if mode == BERMode::Der {
                        } else {
                            match end_opt {
                                Some(end) => {
                                    if pos < bs <= end <= limit {
                                        lemma_bytes_children_bounds(s, end, bs, mode, depth + 1);
                                    }
                                },
                                None => {
                                    if pos < bs <= limit {
                                        lemma_bytes_children_bounds(s, limit, bs, mode, depth + 1);
                                        match spec_bytes_children(s, limit, bs, mode, depth + 1) {
                                            Ok((_b2, p)) => {
                                                lemma_eoc_bounds(s, limit, p);
                                            },
                                            Err(_) => {},
                                        }
                                    }
                                },
                            }
                        }
                    },
                }
            },
        }
    }
}

/// The sibling scan of a constructed octet string never moves the
/// position backwards and stays inside the window.
pub proof fn lemma_bytes_children_bounds(
    s: Seq<u8>,
    limit: int,
    pos: int,
    mode: BERMode,
    depth: int,
)
    requires
        0 <= pos <= limit,
    ensures
        match spec_bytes_children(s, limit, pos, mode, depth) {
            Ok((_bs, p)) => pos <= p <= limit,
            Err(_) => true,
        },
    decreases limit - pos, 1int,
{
    let octet_tag = spec_tag_octetstring();
    lemma_read_bytes_bounds(s, limit, pos, mode, depth, octet_tag);
    match spec_read_bytes(s, limit, pos, mode, depth, octet_tag) {
        Err(_) => {},
        Ok((_bs, p)) => {
            if pos < p <= limit {
                lemma_bytes_children_bounds(s, limit, p, mode, depth);
            }
        },
    }
}

/// DER length decoding is a restriction of BER length decoding: a
/// length DER accepts, BER accepts with the same value.
pub proof fn lemma_length_der_implies_ber(s: Seq<u8>, limit: int, pos: int)
    ensures
        spec_length(s, limit, pos, BERMode::Der) is Ok ==> spec_length(s, limit, pos, BERMode::Ber)
            == spec_length(s, limit, pos, BERMode::Der),
{
}

/// A TLV header DER accepts, BER accepts with the same outcome.
pub proof fn lemma_header_der_implies_ber(s: Seq<u8>, limit: int, pos: int, tag: Tag)
    ensures
        spec_tlv_header(s, limit, pos, BERMode::Der, tag) is Ok ==> spec_tlv_header(
            s,
            limit,
            pos,
            BERMode::Ber,
            tag,
        ) == spec_tlv_header(s, limit, pos, BERMode::Der, tag),
{
    lemma_length_der_implies_ber(s, limit, pos);
    match spec_identifier(s, limit, pos) {
        Ok((_t, _pc, p1)) => {
            lemma_length_der_implies_ber(s, limit, p1);
        },
        Err(_) => {},
    }
}

/// A primitive TLV DER accepts, BER accepts with the same value,
/// provided its content function is itself DER-to-BER monotone.
pub proof fn lemma_prim_tlv_der_implies_ber<V>(
    s: Seq<u8>,
    limit: int,
    pos: int,
    depth: int,
    tag: Tag,
    body: spec_fn(Seq<u8>, BERMode) -> Result<V, ASN1ErrorKind>,
)
    requires
        forall|c: Seq<u8>|
            (#[trigger] body(c, BERMode::Der)) is Ok ==> body(c, BERMode::Ber) == body(
                c,
                BERMode::Der,
            ),
    ensures
        spec_prim_tlv(s, limit, pos, BERMode::Der, depth, tag, body) is Ok ==> spec_prim_tlv(
            s,
            limit,
            pos,
            BERMode::Ber,
            depth,
            tag,
            body,
        ) == spec_prim_tlv(s, limit, pos, BERMode::Der, depth, tag, body),
{
    lemma_header_der_implies_ber(s, limit, pos, tag);
}

/// A BOOLEAN DER accepts, BER accepts and decodes to the same value.
pub proof fn lemma_read_bool_der_implies_ber(s: Seq<u8>, limit: int, pos: int, depth: int, tag: Tag)
    ensures
        spec_read_bool(s, limit, pos, BERMode::Der, depth, tag) is Ok ==> spec_read_bool(
            s,
            limit,
            pos,
            BERMode::Ber,
            depth,
            tag,
        ) == spec_read_bool(s, limit, pos, BERMode::Der, depth, tag),
{
    lemma_prim_tlv_der_implies_ber(
        s,
        limit,
        pos,
        depth,
        tag,
        |c: Seq<u8>, m: BERMode| spec_bool_content(c, m),
    );
}

/// An INTEGER DER accepts, BER accepts and decodes to the same value.
pub proof fn lemma_read_i64_der_implies_ber(s: Seq<u8>, limit: int, pos: int, depth: int, tag: Tag)
    ensures
        spec_read_i64(s, limit, pos, BERMode::Der, depth, tag) is Ok ==> spec_read_i64(
            s,
            limit,
            pos,
            BERMode::Ber,
            depth,
            tag,
        ) == spec_read_i64(s, limit, pos, BERMode::Der, depth, tag),
{
    lemma_prim_tlv_der_implies_ber(
        s,
        limit,
        pos,
        depth,
        tag,
        |c: Seq<u8>, _m: BERMode| spec_i64_content(c),
    );
}

/// A NULL DER accepts, BER accepts.
pub proof fn lemma_read_null_der_implies_ber(s: Seq<u8>, limit: int, pos: int, depth: int, tag: Tag)
    ensures
        spec_read_null(s, limit, pos, BERMode::Der, depth, tag) is Ok ==> spec_read_null(
            s,
            limit,
            pos,
            BERMode::Ber,
            depth,
            tag,
        ) == spec_read_null(s, limit, pos, BERMode::Der, depth, tag),
{
    lemma_prim_tlv_der_implies_ber(
        s,
        limit,
        pos,
        depth,
        tag,
        |c: Seq<u8>, _m: BERMode| spec_null_content(c),
    );
}

/// A BIT STRING DER accepts, BER accepts and decodes to the same value.
pub proof fn lemma_read_bitstring_der_implies_ber(
    s: Seq<u8>,
    limit: int,
    pos: int,
    depth: int,
    tag: Tag,
)
    ensures
        spec_read_bitstring(s, limit, pos, BERMode::Der, depth, tag) is Ok ==> spec_read_bitstring(
            s,
            limit,
            pos,
            BERMode::Ber,
            depth,
            tag,
        ) == spec_read_bitstring(s, limit, pos, BERMode::Der, depth, tag),
{
    lemma_prim_tlv_der_implies_ber(
        s,
        limit,
        pos,
        depth,
        tag,
        |c: Seq<u8>, _m: BERMode| spec_bitstring_content(c),
    );
}

/// An OBJECT IDENTIFIER DER accepts, BER accepts and decodes to the
/// same arcs.
pub proof fn lemma_read_oid_der_implies_ber(s: Seq<u8>, limit: int, pos: int, depth: int, tag: Tag)
    ensures
        spec_read_oid(s, limit, pos, BERMode::Der, depth, tag) is Ok ==> spec_read_oid(
            s,
            limit,
            pos,
            BERMode::Ber,
            depth,
            tag,
        ) == spec_read_oid(s, limit, pos, BERMode::Der, depth, tag),
{
    lemma_prim_tlv_der_implies_ber(
        s,
        limit,
        pos,
        depth,
        tag,
        |c: Seq<u8>, _m: BERMode| spec_oid_content(c),
    );
}

/// An OCTET STRING DER accepts, BER accepts and decodes to the same
/// bytes.  In DER only the primitive form is accepted, so the nested
/// constructed forms need no induction.
pub proof fn lemma_read_bytes_der_implies_ber(
    s: Seq<u8>,
    limit: int,
    pos: int,
    depth: int,
    tag: Tag,
)
    ensures
        spec_read_bytes(s, limit, pos, BERMode::Der, depth, tag) is Ok ==> spec_read_bytes(
            s,
            limit,
            pos,
            BERMode::Ber,
            depth,
            tag,
        ) == spec_read_bytes(s, limit, pos, BERMode::Der, depth, tag),
{
    lemma_header_der_implies_ber(s, limit, pos, tag);
}

/// DER rejects the indefinite length form: when the identifier matches
/// and the length octet is 0x80, the header fails `Invalid`.
pub proof fn lemma_der_rejects_indefinite(s: Seq<u8>, limit: int, pos: int, tag: Tag)
    ensures
        match spec_identifier(s, limit, pos) {
            Ok((t2, _pc, p1)) => (t2 == tag && p1 < limit && s[p1] == 128) ==> spec_tlv_header(
                s,
                limit,
                pos,
                BERMode::Der,
                tag,
            ) == Err::<(PC, Option<int>, int), ASN1ErrorKind>(ASN1ErrorKind::Invalid),
            Err(_) => true,
        },
{
    match spec_identifier(s, limit, pos) {
        Ok((t2, _pc, p1)) => {
            if t2 == tag && p1 < limit && s[p1] == 128 {
                assert(pos >= 0);
                lemma_identifier_bounds(s, limit, pos);
                assert(spec_length(s, limit, p1, BERMode::Der) == Ok::<
                    (Option<int>, int),
                    ASN1ErrorKind,
                >((None, p1 + 1)));
            }
        },
        Err(_) => {},
    }
}

/// DER rejects a non-minimal long-form length: a long form whose value
/// is below 128 fails `Invalid`.
pub proof fn lemma_der_rejects_nonminimal_length(s: Seq<u8>, limit: int, pos: int)
    ensures
        0 <= pos < limit && 128 < s[pos] < 255 ==> match spec_length_bytes(
            s,
            limit,
            pos + 1,
            s[pos] - 128,
            0,
        ) {
            Ok((len, _p)) => len < 128 ==> spec_length(s, limit, pos, BERMode::Der) == Err::<
                (Option<int>, int),
                ASN1ErrorKind,
            >(ASN1ErrorKind::Invalid),
            Err(_) => true,
        },
{
}

/// DER rejects a non-canonical BOOLEAN body: the one content byte must
/// be 0x00 or 0xFF.
pub proof fn lemma_der_rejects_noncanonical_bool(c: Seq<u8>)
    ensures
        c.len() == 1 && c[0] != 0 && c[0] != 255 ==> spec_bool_content(c, BERMode::Der) == Err::<
            bool,
            ASN1ErrorKind,
        >(ASN1ErrorKind::Invalid),
{
}

/// A non-minimal multi-byte INTEGER body is rejected, in both modes:
/// if its leading sixteen bits sign-extend to eight, it fails `Invalid`.
pub proof fn lemma_rejects_nonminimal_integer(c: Seq<u8>)
    ensures
        ({
            let x2 = signed_byte(c[0]) * 256 + c[1] as int;
            (c.len() >= 2 && -128 <= x2 && x2 < 128) ==> spec_i64_content(c) == Err::<
                i64,
                ASN1ErrorKind,
            >(ASN1ErrorKind::Invalid)
        }),
{
}

/// DER rejects a constructed OCTET STRING: when the header parses as
/// constructed, the whole read fails `Invalid`.
pub proof fn lemma_der_rejects_constructed_octets(
    s: Seq<u8>,
    limit: int,
    pos: int,
    depth: int,
    tag: Tag,
)
    ensures
        depth <= READER_STACK_DEPTH ==> match spec_tlv_header(s, limit, pos, BERMode::Der, tag) {
            Ok((pc, _end_opt, _body_start)) => pc == PC::Constructed ==> spec_read_bytes(
                s,
                limit,
                pos,
                BERMode::Der,
                depth,
                tag,
            ) == Err::<(Seq<u8>, int), ASN1ErrorKind>(ASN1ErrorKind::Invalid),
            Err(_) => true,
        },
{
}

/// Pushing further arcs keeps the first two arcs of an object
/// identifier scan.
proof fn lemma_oid_arcs_prefix(c: Seq<u8>, i: int, sub: int, ids: Seq<u64>)
    requires
        ids.len() >= 2,
    ensures
        match spec_oid_arcs(c, i, sub, ids) {
            Ok(arcs) => arcs.len() >= 2 && arcs[0] == ids[0] && arcs[1] == ids[1],
            Err(_) => true,
        },
    decreases c.len() - i,
{
    if i < 0 || i >= c.len() {
    } else {
        let b = c[i];
        if sub == 0 && b == 128 {
        } else if sub * 128 > u64::MAX as int {
        } else {
            let sub2 = sub * 128 + (b & 127) as int;
            if b & 128 == 0 {
                lemma_oid_arcs_prefix(c, i + 1, 0, ids.push(sub2 as u64));
            } else {
                lemma_oid_arcs_prefix(c, i + 1, sub2, ids);
            }
        }
    }
}

/// The first-arc law: the first two arcs of any decoded object
/// identifier are the X.690 split of its first subidentifier, for some
/// nonnegative first subidentifier.
pub proof fn lemma_oid_first_arc(c: Seq<u8>)
    ensures
        match spec_oid_content(c) {
            Ok(arcs) => arcs.len() >= 2 && exists|s0: int|
                s0 >= 0 && (arcs[0] as int, arcs[1] as int) == spec_oid_split(s0),
            Err(_) => true,
        },
{
    if c.len() == 0 || c[c.len() - 1] >= 128 {
    } else {
        lemma_oid_first_arc_scan(c, 0, 0);
    }
}

/// The scan form of the first-arc law: before any arc is emitted, the
/// result's first two arcs come from splitting the first completed
/// subidentifier.
proof fn lemma_oid_first_arc_scan(c: Seq<u8>, i: int, sub: int)
    requires
        sub >= 0,
        0 <= i < c.len(),
        c[c.len() - 1] < 128,
    ensures
        match spec_oid_arcs(c, i, sub, Seq::<u64>::empty()) {
            Ok(arcs) => arcs.len() >= 2 && exists|s0: int|
                s0 >= 0 && (arcs[0] as int, arcs[1] as int) == spec_oid_split(s0),
            Err(_) => true,
        },
    decreases c.len() - i,
{
    {
        let b = c[i];
        if sub == 0 && b == 128 {
        } else if sub * 128 > u64::MAX as int {
        } else {
            let sub2 = sub * 128 + (b & 127) as int;
            assert(b & 127 <= 127) by (bit_vector);
            if b & 128 == 0 {
                assert(sub2 <= u64::MAX as int) by (nonlinear_arith)
                    requires
                        0 <= sub,
                        sub * 128 <= u64::MAX as int,
                        sub2 == sub * 128 + (b & 127) as int,
                        (b & 127) as int <= 127,
                ;
                let id0 = spec_oid_split(sub2).0;
                let id1 = spec_oid_split(sub2).1;
                let first = seq![id0 as u64, id1 as u64];
                lemma_oid_arcs_prefix(c, i + 1, 0, first);
                match spec_oid_arcs(c, i + 1, 0, first) {
                    Ok(arcs) => {
                        assert((arcs[0] as int, arcs[1] as int) == spec_oid_split(sub2));
                        assert(exists|s0: int|
                            s0 >= 0 && (arcs[0] as int, arcs[1] as int) == spec_oid_split(s0));
                    },
                    Err(_) => {},
                }
            } else {
                assert(b >= 128) by (bit_vector)
                    requires
                        b & 128 != 0,
                ;
                lemma_oid_first_arc_scan(c, i + 1, sub2);
            }
        }
    }
}

} // verus!
