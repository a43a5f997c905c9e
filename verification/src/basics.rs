//! The tag model and the minimum value shapes the decoders populate.

use vstd::prelude::*;

verus! {

/// An ASN.1 tag class, used in [`Tag`].
///
/// A tag class is one of UNIVERSAL, APPLICATION, context specific,
/// or PRIVATE, totally ordered in that sequence.
#[derive(Debug, Clone, Copy, Eq, PartialEq, Ord, PartialOrd, Structural, Hash)]
pub enum TagClass {
    Universal,
    Application,
    ContextSpecific,
    Private,
}

/// An ASN.1 tag: a pair of a tag class and a nonnegative tag number.
///
/// Tag numbers are assumed to fit in `u64`.
#[derive(Debug, Clone, Copy, Eq, PartialEq, Structural, Hash)]
pub struct Tag {
    pub tag_class: TagClass,
    pub tag_number: u64,
}

impl Tag {
    /// Constructs a UNIVERSAL tag.
    pub fn universal(tag_number: u64) -> (t: Tag)
        ensures
            t == (Tag { tag_class: TagClass::Universal, tag_number }),
    {
        Tag { tag_class: TagClass::Universal, tag_number }
    }

    /// Constructs an APPLICATION tag, namely \[APPLICATION n\].
    pub fn application(tag_number: u64) -> (t: Tag)
        ensures
            t == (Tag { tag_class: TagClass::Application, tag_number }),
    {
        Tag { tag_class: TagClass::Application, tag_number }
    }

    /// Constructs a context specific tag, namely \[n\].
    pub fn context(tag_number: u64) -> (t: Tag)
        ensures
            t == (Tag { tag_class: TagClass::ContextSpecific, tag_number }),
    {
        Tag { tag_class: TagClass::ContextSpecific, tag_number }
    }

    /// Constructs a PRIVATE tag, namely \[PRIVATE n\].
    pub fn private(tag_number: u64) -> (t: Tag)
        ensures
            t == (Tag { tag_class: TagClass::Private, tag_number }),
    {
        Tag { tag_class: TagClass::Private, tag_number }
    }
}

/// A bit string: a count of unused trailing bits and the packed bytes.
///
/// When well formed, `unused_bits < 8`, and if `unused_bits > 0` the
/// byte vector is nonempty.
#[derive(Debug, Clone, Eq, PartialEq, Hash)]
pub struct BitString {
    pub unused_bits: usize,
    pub buf: Vec<u8>,
}

impl BitString {
    /// The number of bits held.
    pub open spec fn spec_bit_len(self) -> int {
        self.buf@.len() * 8 - self.unused_bits
    }

    /// Bit `i` of the held bit string, in push order: bit `i` lives in
    /// byte `i / 8`, at position `7 - i % 8` counting from the least
    /// significant bit.
    pub open spec fn spec_bit(self, i: int) -> bool {
        (self.buf@[i / 8] >> ((7 - i % 8) as u8)) & 1 == 1
    }

    /// The unused trailing bit positions of the last byte hold zero.
    /// `push` keeps this; it is what lets a pushed bit land cleanly.
    pub open spec fn spec_unused_zero(self) -> bool {
        self.unused_bits > 0 ==> (forall|k: int|
            0 <= k < self.unused_bits ==> ((#[trigger] (self.buf@.last() >> (k as u8))) & 1) == 0)
    }

    /// An empty bit string.
    pub fn new() -> (r: Self)
        ensures
            r.unused_bits == 0,
            r.buf@ == Seq::<u8>::empty(),
    {
        BitString { unused_bits: 0, buf: Vec::new() }
    }

    /// A bit string from its parts.
    pub fn from_buf(unused_bits: usize, buf: Vec<u8>) -> (r: Self)
        ensures
            r.unused_bits == unused_bits,
            r.buf == buf,
    {
        BitString { unused_bits, buf }
    }

    /// Appends one bit, extending the byte vector as needed: the prior
    /// bits are unchanged and `b` becomes the last bit.
    pub fn push(&mut self, b: bool)
        requires
            old(self).unused_bits < 8,
            old(self).unused_bits > 0 ==> old(self).buf@.len() > 0,
            old(self).buf@.len() < usize::MAX,
            old(self).spec_unused_zero(),
        ensures
            final(self).unused_bits < 8,
            final(self).unused_bits > 0 ==> final(self).buf@.len() > 0,
            final(self).spec_bit_len() == old(self).spec_bit_len() + 1,
            final(self).spec_unused_zero(),
            forall|i: int|
                0 <= i < old(self).spec_bit_len() ==> final(self).spec_bit(i) == old(
                    self,
                ).spec_bit(i),
            final(self).spec_bit(old(self).spec_bit_len()) == b,
    {
        let ghost o = *old(self);
        if self.unused_bits == 0 {
            self.buf.push(0);
            self.unused_bits = 8;
        }
        let last = self.buf.len() - 1;
        self.unused_bits = self.unused_bits - 1;
        let ghost ob: u8 = self.buf@[last as int];
        let ghost uu: u8 = self.unused_bits as u8;
        let shifted: u8 = if b {
            let u = self.unused_bits as u32;
            assert(1u8 << u < 256 && 1u8 << u >= 1) by (bit_vector)
                requires
                    u < 8,
            ;
            1u8 << u
        } else {
            0
        };
        proof {
            assert(shifted == if b {
                1u8 << (uu as u32)
            } else {
                0u8
            });
        }
        let merged: u8 = self.buf[last] | shifted;
        self.buf[last] = merged;
        proof {
            let n = self.buf@.len() as int;
            assert(self.buf@ =~= self.buf@.update(last as int, merged).update(last as int, merged));
            // prior bits are bits of earlier bytes, or bits of the last
            // byte above the pushed position
            assert forall|i: int| 0 <= i < o.spec_bit_len() implies self.spec_bit(i) == o.spec_bit(
                i,
            ) by {
                assert(8 * (i / 8) + (i % 8) == i);
                if i / 8 < last as int {
                    assert(self.buf@[i / 8] == o.buf@[i / 8]);
                } else {
                    assert(i / 8 == last as int);
                    let pp: u8 = (7 - i % 8) as u8;
                    assert((ob | shifted) >> pp == ob >> pp) by (bit_vector)
                        requires
                            uu < pp < 8,
                            shifted == (if b {
                                1u8 << (uu as u32)
                            } else {
                                0u8
                            }),
                    ;
                    assert(o.buf@[i / 8] == ob);
                }
            }
            // the pushed bit lands at the new unused position of the
            // last byte, which held zero
            let p0: int = o.spec_bit_len();
            assert(p0 / 8 == last as int && (7 - p0 % 8) as u8 == uu);
            if o.unused_bits == 0 {
                assert(((0u8 | shifted) >> uu) & 1 == (if b {
                    1u8
                } else {
                    0u8
                })) by (bit_vector)
                    requires
                        uu == 7,
                        shifted == (if b {
                            1u8 << (uu as u32)
                        } else {
                            0u8
                        }),
                ;
                assert(ob == 0);
            } else {
                assert(ob == o.buf@.last());
                assert(((o.buf@.last() >> ((uu as int) as u8)) & 1) == 0);
                assert((ob >> uu) & 1 == 0);
                assert(((ob | shifted) >> uu) & 1 == (if b {
                    1u8
                } else {
                    0u8
                })) by (bit_vector)
                    requires
                        uu < 8,
                        (ob >> uu) & 1 == 0,
                        shifted == (if b {
                            1u8 << (uu as u32)
                        } else {
                            0u8
                        }),
                ;
            }
            // the remaining unused positions still hold zero
            assert forall|k: int|
                0 <= k < self.unused_bits implies ((#[trigger] (merged >> (k as u8))) & 1)
                == 0 by {
                let kk: u8 = k as u8;
                if o.unused_bits == 0 {
                    assert(((0u8 | shifted) >> kk) & 1 == 0) by (bit_vector)
                        requires
                            kk < uu,
                            uu < 8,
                            shifted == (if b {
                                1u8 << (uu as u32)
                            } else {
                                0u8
                            }),
                    ;
                } else {
                    assert(ob == o.buf@.last());
                    assert(((o.buf@.last() >> ((kk as int) as u8)) & 1) == 0);
                    assert((ob >> kk) & 1 == 0);
                    assert(((ob | shifted) >> kk) & 1 == 0) by (bit_vector)
                        requires
                            kk < uu,
                            uu < 8,
                            (ob >> kk) & 1 == 0,
                            shifted == (if b {
                                1u8 << (uu as u32)
                            } else {
                                0u8
                            }),
                    ;
                }
            }
        }
    }
}

/// A SET OF carrier: the decoded elements, in encounter order.
#[derive(Debug, Clone, Eq, PartialEq, Hash)]
pub struct SetOf<T> {
    pub vec: Vec<T>,
}

impl<T> SetOf<T> {
    /// An empty SET OF.
    pub fn new() -> (r: Self)
        ensures
            r.vec@ == Seq::<T>::empty(),
    {
        SetOf { vec: Vec::new() }
    }
}

/// An object identifier: an ordered sequence of unsigned 64-bit arcs.
#[derive(Debug, Clone, Eq, PartialEq, Hash)]
pub struct ObjectIdentifier {
    ids: Vec<u64>,
}

impl View for ObjectIdentifier {
    type V = Seq<u64>;

    closed spec fn view(&self) -> Seq<u64> {
        self.ids@
    }
}

impl ObjectIdentifier {
    /// An object identifier from its arcs.
    pub fn new(ids: Vec<u64>) -> (r: Self)
        ensures
            r@ == ids@,
    {
        ObjectIdentifier { ids }
    }

    /// The arcs of this object identifier.
    pub fn iter(&self) -> (r: &Vec<u64>)
        ensures
            r@ == self@,
    {
        &self.ids
    }
}

/// The bytes allowed in a PrintableString: ASCII letters, digits,
/// space, and the punctuation set `' ( ) + , - . / : = ?`.
pub open spec fn printable_byte(b: u8) -> bool {
    ||| (48 <= b && b <= 57)  // '0' ..= '9'
    ||| (65 <= b && b <= 90)  // 'A' ..= 'Z'
    ||| (97 <= b && b <= 122)  // 'a' ..= 'z'
    ||| b == 32  // space
    ||| b == 39  // '
    ||| b == 40  // (
    ||| b == 41  // )
    ||| b == 43  // +
    ||| b == 44  // ,
    ||| b == 45  // -
    ||| b == 46  // .
    ||| b == 47  // /
    ||| b == 58  // :
    ||| b == 61  // =
    ||| b == 63  // ?
}

/// A string restricted to the PrintableString alphabet.
#[derive(Debug, Clone, Eq, PartialEq, Hash)]
pub struct PrintableString {
    string: Vec<u8>,
}

impl View for PrintableString {
    type V = Seq<u8>;

    closed spec fn view(&self) -> Seq<u8> {
        self.string@
    }
}

impl PrintableString {
    /// Every held byte is in the PrintableString alphabet.
    pub open spec fn wf(self) -> bool {
        forall|i: int| 0 <= i < self@.len() ==> printable_byte(#[trigger] self@[i])
    }

    /// Validates the bytes against the PrintableString alphabet;
    /// returns `None` exactly when some byte falls outside it.
    pub fn from_bytes(bytes: Vec<u8>) -> (r: Option<Self>)
        ensures
            r is Some <==> (forall|i: int|
                0 <= i < bytes@.len() ==> printable_byte(#[trigger] bytes@[i])),
            r matches Some(p) ==> p@ == bytes@ && p.wf(),
    {
        let n = bytes.len();
        let mut i: usize = 0;
        while i < n
            invariant
                i <= n,
                n == bytes@.len(),
                forall|j: int| 0 <= j < i ==> printable_byte(#[trigger] bytes@[j]),
            decreases n - i,
        {
            let b = bytes[i];
            let ok = (48 <= b && b <= 57) || (65 <= b && b <= 90) || (97 <= b && b <= 122) || b
                == 32 || b == 39 || b == 40 || b == 41 || b == 43 || b == 44 || b == 45 || b == 46
                || b == 47 || b == 58 || b == 61 || b == 63;
            if !ok {
                return None;
            }
            i = i + 1;
        }
        Some(PrintableString { string: bytes })
    }
}

/// A UTCTime value, kept as its raw encoded bytes.
#[derive(Debug, Clone, Eq, PartialEq, Hash)]
pub struct UtcTime {
    bytes: Vec<u8>,
}

impl View for UtcTime {
    type V = Seq<u8>;

    closed spec fn view(&self) -> Seq<u8> {
        self.bytes@
    }
}

impl UtcTime {
    /// A UTCTime from its raw bytes.
    pub fn new(bytes: Vec<u8>) -> (r: Self)
        ensures
            r@ == bytes@,
    {
        UtcTime { bytes }
    }
}

} // verus!
