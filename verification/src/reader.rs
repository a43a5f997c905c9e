//! The streaming TLV reader: the mutable engine, the per-TLV reader
//! handle, and the cursor over the children of a constructed value.
//!
//! The engine holds the borrowed input, the current position, the end of
//! the current sub-buffer window, the mode, and the recursion depth.
//! Entering a TLV narrows the window to its content and raises the
//! depth; leaving it checks that the content was consumed exactly (or
//! that an end-of-contents marker closes the indefinite form) and
//! restores the window.  Every operation's contract is phrased over the
//! spec functions of `model`.

use vstd::prelude::*;
use vstd::std_specs::cmp::PartialEqSpec;
use vstd::arithmetic::power2::lemma2_to64;
use vstd::arithmetic::power2::lemma2_to64_rest;
use vstd::arithmetic::power2::lemma_pow2_adds;
use vstd::arithmetic::power2::lemma_pow2_strictly_increases;

use crate::basics::BitString;
use crate::basics::ObjectIdentifier;
use crate::basics::Tag;
use crate::basics::TagClass;
use crate::error::ASN1Error;
use crate::error::ASN1ErrorKind;
use crate::error::ASN1Result;
use crate::model::PC;
use crate::model::READER_STACK_DEPTH;
use crate::model::class_of;
use crate::model::pc_of;
use crate::model::lemma_header_bounds;
use crate::model::lemma_identifier_bounds;
use crate::model::lemma_length_bounds;
use crate::model::spec_eoc;
use crate::model::spec_identifier;
use crate::model::spec_length;
use crate::model::spec_length_bytes;
use crate::model::spec_tag_number;
use crate::model::lemma_be_signed_bounds;
use crate::model::lemma_be_signed_fits_i64;
use crate::model::signed_byte;
use crate::model::spec_be_signed;
use crate::model::spec_oid_arcs;
use crate::model::spec_read_bitstring;
use crate::model::spec_read_bool;
use crate::model::spec_read_i64;
use crate::model::spec_read_null;
use crate::model::spec_read_oid;
use crate::model::spec_read_bytes;
use crate::model::spec_bytes_children;
use crate::model::lemma_read_bytes_bounds;
use crate::model::spec_tag_octetstring;
use crate::model::spec_tag_bitstring;
use crate::model::spec_tag_boolean;
use crate::model::spec_tag_integer;
use crate::model::spec_tag_null;
use crate::model::spec_tag_oid;
use crate::model::spec_tag_sequence;
use crate::model::spec_tag_set;
use crate::model::spec_tlv_header;
use crate::model::spec_tlv_unmoved;

verus! {

/// The decoding mode: permissive BER, or its canonical subset DER.
/// Everything DER accepts, BER accepts with the same meaning.
#[derive(Debug, Clone, Copy, Eq, PartialEq, Structural, Hash)]
pub enum BERMode {
    Ber,
    Der,
}

/// Whether `r` is an error of kind `k`.
pub open spec fn is_err<T>(r: ASN1Result<T>, k: ASN1ErrorKind) -> bool {
    match r {
        Ok(_) => false,
        Err(e) => e.kind == k,
    }
}

/// The decoding engine: the borrowed input, the position, the end of
/// the current window, the mode, and the recursion depth.
///
/// `pos` and `limit` index into the one underlying buffer; narrowing to
/// a sub-buffer is done by lowering `limit`, never by reslicing.
#[derive(Debug)]
pub struct BERReaderImpl<'a> {
    pub buf: &'a [u8],
    pub pos: usize,
    pub limit: usize,
    pub mode: BERMode,
    pub depth: usize,
}

impl<'a> BERReaderImpl<'a> {
    /// The bytes of the underlying buffer.
    pub open spec fn bytes(self) -> Seq<u8> {
        self.buf@
    }

    /// The engine is well formed: the position lies in the window and
    /// the window lies in the buffer.
    pub open spec fn wf(self) -> bool {
        self.pos <= self.limit <= self.buf@.len()
    }

    /// The two states read the same buffer in the same mode.
    pub open spec fn same_buf(self, other: Self) -> bool {
        self.buf@ == other.buf@ && self.mode == other.mode
    }

    /// The two states differ at most in position.
    pub open spec fn same_except_pos(self, other: Self) -> bool {
        self.same_buf(other) && self.limit == other.limit && self.depth == other.depth
    }

    /// A fresh engine over the whole buffer.
    pub fn new(buf: &'a [u8], mode: BERMode) -> (r: Self)
        ensures
            r.wf(),
            r.buf@ == buf@,
            r.pos == 0,
            r.limit == buf@.len(),
            r.mode == mode,
            r.depth == 0,
    {
        BERReaderImpl { buf, pos: 0, limit: buf.len(), mode, depth: 0 }
    }

    /// An error of the given kind.
    pub fn generate_error(&self, kind: ASN1ErrorKind) -> (r: ASN1Error)
        ensures
            r.kind == kind,
    {
        ASN1Error::new(kind)
    }

    /// Reads the byte at the position, or fails `Eof` at the window end.
    fn read_u8(&mut self) -> (r: ASN1Result<u8>)
        requires
            old(self).wf(),
        ensures
            final(self).wf(),
            old(self).same_except_pos(*final(self)),
            old(self).pos < old(self).limit ==> r == Ok::<u8, ASN1Error>(
                old(self).bytes()[old(self).pos as int],
            ) && final(self).pos == old(self).pos + 1,
            old(self).pos >= old(self).limit ==> is_err(r, ASN1ErrorKind::Eof) && final(self).pos
                == old(self).pos,
    {
        if self.pos < self.limit {
            let ret = self.buf[self.pos];
            self.pos = self.pos + 1;
            Ok(ret)
        } else {
            Err(self.generate_error(ASN1ErrorKind::Eof))
        }
    }

    /// Hands out the rest of the window and consumes it.
    fn fetch_remaining_buffer(&mut self) -> (r: &'a [u8])
        requires
            old(self).wf(),
        ensures
            final(self).wf(),
            old(self).same_except_pos(*final(self)),
            final(self).pos == final(self).limit,
            r@ == old(self).bytes().subrange(old(self).pos as int, old(self).limit as int),
    {
        let ret = vstd::slice::slice_subrange(self.buf, self.pos, self.limit);
        self.pos = self.limit;
        ret
    }

    /// Succeeds exactly when the window is consumed; fails `Extra`
    /// otherwise.
    fn end_of_buf(&mut self) -> (r: ASN1Result<()>)
        ensures
            *final(self) == *old(self),
            if old(self).pos == old(self).limit {
                r is Ok
            } else {
                is_err(r, ASN1ErrorKind::Extra)
            },
    {
        if self.pos != self.limit {
            Err(self.generate_error(ASN1ErrorKind::Extra))
        } else {
            Ok(())
        }
    }

    /// Reads one identifier: the tag octet, and the base-128 number
    /// octets of the long form.
    fn read_identifier(&mut self) -> (r: ASN1Result<(Tag, PC)>)
        requires
            old(self).wf(),
        ensures
            final(self).wf(),
            old(self).same_except_pos(*final(self)),
            old(self).pos <= final(self).pos,
            match spec_identifier(old(self).bytes(), old(self).limit as int, old(self).pos as int) {
                Ok((tag, pc, p)) => r == Ok::<(Tag, PC), ASN1Error>((tag, pc)) && final(self).pos
                    == p,
                Err(k) => is_err(r, k) && (final(self).pos == old(self).pos <==> old(self).pos
                    == old(self).limit),
            },
    {
        let tagbyte = match self.read_u8() {
            Ok(b) => b,
            Err(e) => {
                return Err(e);
            },
        };
        let shifted = tagbyte >> 6;
        assert(shifted < 4) by (bit_vector)
            requires
                shifted == tagbyte >> 6,
        ;
        let tag_class = if shifted == 0 {
            TagClass::Universal
        } else if shifted == 1 {
            TagClass::Application
        } else if shifted == 2 {
            TagClass::ContextSpecific
        } else {
            TagClass::Private
        };
        assert(tag_class == class_of(tagbyte));
        let pc = if tagbyte & 32 == 0 {
            PC::Primitive
        } else {
            PC::Constructed
        };
        assert(pc == pc_of(tagbyte));
        let mut tag_number: u64 = (tagbyte & 31) as u64;
        assert(tag_number < 32) by (bit_vector)
            requires
                tag_number == (tagbyte & 31) as u64,
        ;
        if tag_number == 31 {
            let ghost start = self.pos as int;
            tag_number = 0;
            loop
                invariant_except_break
                    self.wf(),
                    old(self).wf(),
                    old(self).same_except_pos(*self),
                    old(self).pos < old(self).limit,
                    old(self).bytes()[old(self).pos as int] == tagbyte,
                    tagbyte & 31 == 31,
                    start == old(self).pos + 1,
                    start <= self.pos as int,
                    spec_tag_number(old(self).bytes(), old(self).limit as int, start, 0)
                        == spec_tag_number(
                        self.bytes(),
                        self.limit as int,
                        self.pos as int,
                        tag_number as int,
                    ),
                ensures
                    self.wf(),
                    old(self).same_except_pos(*self),
                    old(self).pos < old(self).limit,
                    start <= self.pos as int,
                    spec_tag_number(old(self).bytes(), old(self).limit as int, start, 0)
                        == Ok::<(int, int), ASN1ErrorKind>((tag_number as int, self.pos as int)),
                decreases self.limit - self.pos,
            {
                let ghost prev = *self;
                let ghost prev_acc = tag_number as int;
                let b = match self.read_u8() {
                    Ok(b) => b,
                    Err(e) => {
                        proof {
                            assert(spec_tag_number(
                                self.bytes(),
                                self.limit as int,
                                self.pos as int,
                                tag_number as int,
                            ) == Err::<(int, int), ASN1ErrorKind>(ASN1ErrorKind::Eof));
                        }
                        return Err(e);
                    },
                };
                let x = match tag_number.checked_mul(128) {
                    Some(x) => x,
                    None => {
                        proof {
                            assert(spec_tag_number(
                                prev.bytes(),
                                prev.limit as int,
                                prev.pos as int,
                                prev_acc,
                            ) == Err::<(int, int), ASN1ErrorKind>(ASN1ErrorKind::IntegerOverflow));
                        }
                        return Err(self.generate_error(ASN1ErrorKind::IntegerOverflow));
                    },
                };
                assert((b & 127) < 128) by (bit_vector);
                tag_number = x + (b & 127) as u64;
                proof {
                    assert(spec_tag_number(prev.bytes(), prev.limit as int, prev.pos as int, prev_acc)
                        == if b & 128 == 0 {
                        Ok::<(int, int), ASN1ErrorKind>((tag_number as int, prev.pos + 1))
                    } else {
                        spec_tag_number(
                            prev.bytes(),
                            prev.limit as int,
                            prev.pos + 1,
                            tag_number as int,
                        )
                    });
                }
                if (b & 128) == 0 {
                    break ;
                }
            }
            if tag_number < 31 {
                return Err(self.generate_error(ASN1ErrorKind::Invalid));
            }
        }
        Ok((Tag { tag_class, tag_number }, pc))
    }

    /// Reads one length: the short form, the indefinite sentinel
    /// (`None`), or the long form with its DER minimality check.
    #[verifier::loop_isolation(false)]
    fn read_length(&mut self) -> (r: ASN1Result<Option<usize>>)
        requires
            old(self).wf(),
        ensures
            final(self).wf(),
            old(self).same_except_pos(*final(self)),
            old(self).pos <= final(self).pos,
            match spec_length(
                old(self).bytes(),
                old(self).limit as int,
                old(self).pos as int,
                old(self).mode,
            ) {
                Ok((lenopt, p)) => (match lenopt {
                    Some(l) => r == Ok::<Option<usize>, ASN1Error>(Some(l as usize)),
                    None => r == Ok::<Option<usize>, ASN1Error>(None),
                }) && final(self).pos == p,
                Err(k) => is_err(r, k) && (final(self).pos == old(self).pos <==> old(self).pos
                    == old(self).limit),
            },
    {
        let lbyte = match self.read_u8() {
            Ok(b) => b,
            Err(e) => {
                return Err(e);
            },
        };
        if lbyte == 128 {
            return Ok(None);
        }
        if lbyte == 255 {
            return Err(self.generate_error(ASN1ErrorKind::Invalid));
        }
        if lbyte & 128 == 0 {
            assert(lbyte < 128) by (bit_vector)
                requires
                    lbyte & 128 == 0,
            ;
            return Ok(Some(lbyte as usize));
        }
        assert((lbyte & 127) as int == lbyte as int - 128) by (bit_vector)
            requires
                lbyte & 128 != 0,
        ;
        let count = lbyte & 127;
        let mut length: usize = 0;
        let mut i: u8 = 0;
        while i < count
            invariant
                self.wf(),
                old(self).same_except_pos(*self),
                old(self).pos < self.pos,
                i <= count,
                spec_length_bytes(
                    old(self).bytes(),
                    old(self).limit as int,
                    old(self).pos as int + 1,
                    count as int,
                    0,
                ) == spec_length_bytes(
                    self.bytes(),
                    self.limit as int,
                    self.pos as int,
                    count as int - i as int,
                    length as int,
                ),
            decreases count - i,
        {
            let ghost prev = *self;
            let ghost prev_len = length as int;
            let ghost prev_n = count as int - i as int;
            let x = match length.checked_mul(256) {
                Some(x) => x,
                None => {
                    proof {
                        assert(spec_length_bytes(
                            prev.bytes(),
                            prev.limit as int,
                            prev.pos as int,
                            prev_n,
                            prev_len,
                        ) == Err::<(int, int), ASN1ErrorKind>(ASN1ErrorKind::Eof));
                    }
                    return Err(self.generate_error(ASN1ErrorKind::Eof));
                },
            };
            let b = match self.read_u8() {
                Ok(b) => b,
                Err(e) => {
                    proof {
                        assert(spec_length_bytes(
                            prev.bytes(),
                            prev.limit as int,
                            prev.pos as int,
                            prev_n,
                            prev_len,
                        ) == Err::<(int, int), ASN1ErrorKind>(ASN1ErrorKind::Eof));
                    }
                    return Err(e);
                },
            };
            length = x + b as usize;
            i = i + 1;
            proof {
                assert(spec_length_bytes(
                    prev.bytes(),
                    prev.limit as int,
                    prev.pos as int,
                    prev_n,
                    prev_len,
                ) == spec_length_bytes(
                    self.bytes(),
                    self.limit as int,
                    self.pos as int,
                    count as int - i as int,
                    length as int,
                ));
            }
        }
        if self.mode == BERMode::Der && length < 128 {
            return Err(self.generate_error(ASN1ErrorKind::Invalid));
        }
        Ok(Some(length))
    }

    /// Enters one TLV with the expected tag: the depth gate, the
    /// identifier (restoring the position on a tag mismatch), the
    /// length, and the narrowing of the window for the definite form.
    /// On success the depth is raised and the position stands on the
    /// first content byte; the caller runs the content decode and then
    /// hands the returned flag and former window end to
    /// `read_general_exit`.
    fn read_general_enter(&mut self, tag: Tag) -> (r: ASN1Result<(PC, bool, usize)>)
        requires
            old(self).wf(),
        ensures
            final(self).wf(),
            final(self).same_buf(*old(self)),
            old(self).depth > READER_STACK_DEPTH ==> is_err(r, ASN1ErrorKind::StackOverflow)
                && *final(self) == *old(self),
            old(self).depth <= READER_STACK_DEPTH ==> match spec_tlv_header(
                old(self).bytes(),
                old(self).limit as int,
                old(self).pos as int,
                old(self).mode,
                tag,
            ) {
                Ok((pc, end_opt, body_start)) => {
                    &&& r == Ok::<(PC, bool, usize), ASN1Error>(
                        (pc, end_opt is Some, old(self).limit),
                    )
                    &&& final(self).pos == body_start
                    &&& final(self).depth == old(self).depth + 1
                    &&& match end_opt {
                        Some(end) => final(self).limit == end,
                        None => final(self).limit == old(self).limit,
                    }
                },
                Err(k) => {
                    &&& is_err(r, k)
                    &&& final(self).depth == old(self).depth
                    &&& final(self).limit == old(self).limit
                    &&& old(self).pos <= final(self).pos <= old(self).limit
                    &&& (final(self).pos == old(self).pos <==> spec_tlv_unmoved(
                        old(self).bytes(),
                        old(self).limit as int,
                        old(self).pos as int,
                        tag,
                    ))
                },
            },
    {
        if self.depth > READER_STACK_DEPTH {
            return Err(self.generate_error(ASN1ErrorKind::StackOverflow));
        }
        proof {
            lemma_header_bounds(
                self.bytes(),
                self.limit as int,
                self.pos as int,
                self.mode,
                tag,
            );
        }
        let old_pos = self.pos;
        let old_limit = self.limit;
        let (tag2, pc) = match self.read_identifier() {
            Ok(t) => t,
            Err(e) => {
                return Err(e);
            },
        };
        if tag2 != tag {
            self.pos = old_pos;
            return Err(self.generate_error(ASN1ErrorKind::Invalid));
        }
        let length_spec = match self.read_length() {
            Ok(l) => l,
            Err(e) => {
                return Err(e);
            },
        };
        proof {
            lemma_identifier_bounds(
                old(self).bytes(),
                old(self).limit as int,
                old(self).pos as int,
            );
            if let Ok((_t, _pc2, p1)) = spec_identifier(
                old(self).bytes(),
                old(self).limit as int,
                old(self).pos as int,
            ) {
                lemma_length_bounds(old(self).bytes(), old(self).limit as int, p1, old(self).mode);
            }
        }
        match length_spec {
            Some(length) => {
                let limit_new = match self.pos.checked_add(length) {
                    Some(l) => l,
                    None => {
                        return Err(self.generate_error(ASN1ErrorKind::Eof));
                    },
                };
                if limit_new > self.limit {
                    return Err(self.generate_error(ASN1ErrorKind::Eof));
                }
                self.limit = limit_new;
                self.depth = self.depth + 1;
                Ok((pc, true, old_limit))
            },
            None => {
                if pc != PC::Constructed {
                    return Err(self.generate_error(ASN1ErrorKind::Invalid));
                }
                if self.mode == BERMode::Der {
                    return Err(self.generate_error(ASN1ErrorKind::Invalid));
                }
                self.depth = self.depth + 1;
                Ok((pc, false, old_limit))
            },
        }
    }

    /// Leaves one TLV entered by `read_general_enter`: the depth is
    /// lowered, the definite content window must be fully consumed (else
    /// `Extra`), the indefinite form must be closed by an end-of-contents
    /// marker, and on success the former window end is restored.
    fn read_general_exit(&mut self, definite: bool, old_limit: usize) -> (r: ASN1Result<()>)
        requires
            old(self).wf(),
            old(self).depth >= 1,
            old(self).limit <= old_limit <= old(self).bytes().len(),
        ensures
            final(self).wf(),
            final(self).same_buf(*old(self)),
            final(self).depth == old(self).depth - 1,
            definite ==> (if old(self).pos == old(self).limit {
                r is Ok && final(self).pos == old(self).pos && final(self).limit == old_limit
            } else {
                is_err(r, ASN1ErrorKind::Extra) && final(self).pos == old(self).pos
                    && final(self).limit == old(self).limit
            }),
            !definite ==> match spec_eoc(
                old(self).bytes(),
                old(self).limit as int,
                old(self).pos as int,
            ) {
                Ok(p) => r is Ok && final(self).pos == p && final(self).limit == old_limit,
                Err(k) => is_err(r, k) && final(self).limit == old(self).limit && old(self).pos
                    <= final(self).pos <= old(self).limit,
            },
    {
        self.depth = self.depth - 1;
        if definite {
            match self.end_of_buf() {
                Ok(u) => u,
                Err(e) => {
                    return Err(e);
                },
            };
        } else {
            match self.end_of_contents() {
                Ok(u) => u,
                Err(e) => {
                    return Err(e);
                },
            };
        }
        self.limit = old_limit;
        Ok(())
    }

    /// The state `cur` is the window `[body_start, content end)` of a
    /// TLV entered from `outer`, one level deeper.
    pub open spec fn is_narrowed(
        cur: Self,
        outer: Self,
        body_start: int,
        end_opt: Option<int>,
    ) -> bool {
        &&& cur.bytes() == outer.bytes()
        &&& cur.mode == outer.mode
        &&& cur.pos == body_start
        &&& cur.depth == outer.depth + 1
        &&& cur.limit == (match end_opt {
            Some(e) => e,
            None => outer.limit as int,
        })
    }

    /// Runs `callback` over one TLV with the expected tag: the depth
    /// gate, the header, the narrowed window around the callback, and
    /// the termination checks of `read_general_exit`.  This is the sole
    /// mechanism by which a decode consumes exactly the bytes of one
    /// TLV.
    pub fn read_general<T, F: FnOnce(&mut BERReaderImpl<'a>, PC) -> ASN1Result<T>>(
        &mut self,
        tag: Tag,
        callback: F,
    ) -> (r: ASN1Result<T>)
        requires
            old(self).wf(),
            forall|m: &mut BERReaderImpl<'a>, pc: PC|
                mut_ref_current(m).wf() && mut_ref_current(m).same_buf(*old(self))
                    ==> call_requires(callback, (m, pc)),
            forall|m: &mut BERReaderImpl<'a>, pc: PC, fr: ASN1Result<T>|
                #[trigger] call_ensures(callback, (m, pc), fr) ==> (mut_ref_current(m).wf() ==> {
                    &&& mut_ref_future(m).wf()
                    &&& mut_ref_future(m).same_buf(mut_ref_current(m))
                    &&& (fr is Ok ==> mut_ref_future(m).limit == mut_ref_current(m).limit
                        && mut_ref_future(m).depth == mut_ref_current(m).depth)
                }),
        ensures
            final(self).wf(),
            final(self).same_buf(*old(self)),
            old(self).depth > READER_STACK_DEPTH ==> is_err(r, ASN1ErrorKind::StackOverflow)
                && *final(self) == *old(self),
            old(self).depth <= READER_STACK_DEPTH ==> match spec_tlv_header(
                old(self).bytes(),
                old(self).limit as int,
                old(self).pos as int,
                old(self).mode,
                tag,
            ) {
                Err(k) => {
                    &&& is_err(r, k)
                    &&& final(self).depth == old(self).depth
                    &&& final(self).limit == old(self).limit
                    &&& old(self).pos <= final(self).pos <= old(self).limit
                    &&& (final(self).pos == old(self).pos <==> spec_tlv_unmoved(
                        old(self).bytes(),
                        old(self).limit as int,
                        old(self).pos as int,
                        tag,
                    ))
                },
                Ok((pc, end_opt, body_start)) => exists|
                    m: &mut BERReaderImpl<'a>,
                    fr: ASN1Result<T>,
                |
                    {
                        &&& #[trigger] call_ensures(callback, (m, pc), fr)
                        &&& Self::is_narrowed(mut_ref_current(m), *old(self), body_start, end_opt)
                        &&& match fr {
                            Err(e) => r == Err::<T, ASN1Error>(e) && *final(self)
                                == mut_ref_future(m),
                            Ok(v) => match end_opt {
                                Some(end) => if mut_ref_future(m).pos == end {
                                    r == Ok::<T, ASN1Error>(v) && final(self).pos == end && final(self).limit == old(self).limit && final(self).depth == old(self).depth
                                } else {
                                    is_err(r, ASN1ErrorKind::Extra) && final(self).pos
                                        == mut_ref_future(m).pos && final(self).limit == end
                                        && final(self).depth == old(self).depth
                                },
                                None => match spec_eoc(
                                    old(self).bytes(),
                                    old(self).limit as int,
                                    mut_ref_future(m).pos as int,
                                ) {
                                    Ok(p) => r == Ok::<T, ASN1Error>(v) && final(self).pos == p
                                        && final(self).limit == old(self).limit && final(self).depth == old(self).depth,
                                    Err(k2) => is_err(r, k2) && final(self).depth == old(self).depth && final(self).limit == old(self).limit
                                        && mut_ref_future(m).pos <= final(self).pos <= old(self).limit,
                                },
                            },
                        }
                    },
            },
    {
        proof {
            lemma_header_bounds(
                self.bytes(),
                self.limit as int,
                self.pos as int,
                self.mode,
                tag,
            );
        }
        let (pc, definite, old_limit) = match self.read_general_enter(tag) {
            Ok(x) => x,
            Err(e) => {
                return Err(e);
            },
        };
        let result = match callback(&mut *self, pc) {
            Ok(v) => v,
            Err(e) => {
                return Err(e);
            },
        };
        match self.read_general_exit(definite, old_limit) {
            Ok(u) => u,
            Err(e) => {
                return Err(e);
            },
        };
        Ok(result)
    }

    /// Snapshots the position, runs `callback`, and returns its value
    /// together with the bytes it consumed.
    pub fn read_with_buffer<T, F: FnOnce(&mut BERReaderImpl<'a>) -> ASN1Result<T>>(
        &mut self,
        callback: F,
    ) -> (r: ASN1Result<(T, &'a [u8])>)
        requires
            old(self).wf(),
            forall|m: &mut BERReaderImpl<'a>|
                mut_ref_current(m) == *old(self) ==> call_requires(callback, (m,)),
            forall|m: &mut BERReaderImpl<'a>, fr: ASN1Result<T>|
                #[trigger] call_ensures(callback, (m,), fr) ==> (mut_ref_current(m).wf() ==> {
                    &&& mut_ref_future(m).wf()
                    &&& mut_ref_future(m).same_buf(mut_ref_current(m))
                    &&& mut_ref_future(m).pos >= mut_ref_current(m).pos
                }),
        ensures
            exists|m: &mut BERReaderImpl<'a>, fr: ASN1Result<T>|
                {
                    &&& #[trigger] call_ensures(callback, (m,), fr)
                    &&& mut_ref_current(m) == *old(self)
                    &&& *final(self) == mut_ref_future(m)
                    &&& match fr {
                        Err(e) => r == Err::<(T, &'a [u8]), ASN1Error>(e),
                        Ok(v) => match r {
                            Ok((v2, b)) => v2 == v && b@ == old(self).bytes().subrange(
                                old(self).pos as int,
                                mut_ref_future(m).pos as int,
                            ),
                            Err(_) => false,
                        },
                    }
                },
    {
        let old_pos = self.pos;
        let result = match callback(&mut *self) {
            Ok(v) => v,
            Err(e) => {
                return Err(e);
            },
        };
        let b = vstd::slice::slice_subrange(self.buf, old_pos, self.pos);
        Ok((result, b))
    }

    /// Snapshots the position and runs `callback`.  A failure that left
    /// the position unmoved becomes `Ok(None)`; a failure after bytes
    /// were consumed propagates; success becomes `Ok(Some(..))`.
    pub fn read_optional<T, F: FnOnce(&mut BERReaderImpl<'a>) -> ASN1Result<T>>(
        &mut self,
        callback: F,
    ) -> (r: ASN1Result<Option<T>>)
        requires
            old(self).wf(),
            forall|m: &mut BERReaderImpl<'a>|
                mut_ref_current(m) == *old(self) ==> call_requires(callback, (m,)),
        ensures
            exists|m: &mut BERReaderImpl<'a>, fr: ASN1Result<T>|
                {
                    &&& #[trigger] call_ensures(callback, (m,), fr)
                    &&& mut_ref_current(m) == *old(self)
                    &&& *final(self) == mut_ref_future(m)
                    &&& match fr {
                        Ok(v) => r == Ok::<Option<T>, ASN1Error>(Some(v)),
                        Err(e) => if mut_ref_future(m).pos == old(self).pos {
                            r == Ok::<Option<T>, ASN1Error>(None)
                        } else {
                            r == Err::<Option<T>, ASN1Error>(e)
                        },
                    }
                },
    {
        let old_pos = self.pos;
        match callback(&mut *self) {
            Ok(result) => Ok(Some(result)),
            Err(e) => if old_pos == self.pos {
                Ok(None)
            } else {
                Err(e)
            },
        }
    }

    /// The child loop of a constructed octet string: octet-string TLVs
    /// are read and their contents concatenated until one fails without
    /// moving the position; a failure that consumed bytes propagates.
    fn read_bytes_children(&mut self) -> (r: ASN1Result<Vec<u8>>)
        requires
            old(self).wf(),
        ensures
            final(self).wf(),
            final(self).same_buf(*old(self)),
            old(self).pos <= final(self).pos,
            match spec_bytes_children(
                old(self).bytes(),
                old(self).limit as int,
                old(self).pos as int,
                old(self).mode,
                old(self).depth as int,
            ) {
                Ok((bs, p)) => (match r {
                    Ok(v) => v@ == bs,
                    Err(_) => false,
                }) && final(self).pos == p && final(self).limit == old(self).limit && final(self).depth == old(self).depth,
                Err(k) => is_err(r, k),
            },
        decreases old(self).limit - old(self).pos, 1int,
    {
        let ghost s = self.bytes();
        let ghost lim = self.limit as int;
        let ghost d = self.depth as int;
        let ghost md = self.mode;
        let ghost base = self.pos as int;
        let mut acc: Vec<u8> = Vec::new();
        loop
            invariant
                self.wf(),
                old(self).wf(),
                s == old(self).bytes(),
                md == old(self).mode,
                lim == old(self).limit,
                d == old(self).depth,
                base == old(self).pos,
                self.bytes() == s,
                self.mode == md,
                self.limit as int == lim,
                self.depth as int == d,
                base <= self.pos as int,
                match spec_bytes_children(s, lim, self.pos as int, md, d) {
                    Ok((bs2, p2)) => spec_bytes_children(s, lim, base, md, d) == Ok::<
                        (Seq<u8>, int),
                        ASN1ErrorKind,
                    >((acc@ + bs2, p2)),
                    Err(k) => spec_bytes_children(s, lim, base, md, d) == Err::<
                        (Seq<u8>, int),
                        ASN1ErrorKind,
                    >(k),
                },
            decreases lim - self.pos,
        {
            let snapshot = self.pos;
            proof {
                lemma_read_bytes_bounds(s, lim, snapshot as int, md, d, spec_tag_octetstring());
            }
            let child = BERReader::new(&mut *self);
            match child.read_bytes_impl() {
                Ok(mut bs) => {
                    proof {
                        if let Ok((bs2, _p2)) = spec_bytes_children(s, lim, self.pos as int, md, d) {
                            assert((acc@ + bs@) + bs2 =~= acc@ + (bs@ + bs2));
                        }
                    }
                    acc.append(&mut bs);
                },
                Err(e) => {
                    if self.pos == snapshot {
                        // this child failed without moving: the scan is done
                        proof {
                            assert(acc@ + Seq::<u8>::empty() =~= acc@);
                        }
                        return Ok(acc);
                    }
                    return Err(e);
                },
            }
        }
    }

    /// Consumes one end-of-contents marker: universal tag 0, primitive,
    /// one length octet of value 0.
    fn end_of_contents(&mut self) -> (r: ASN1Result<()>)
        requires
            old(self).wf(),
        ensures
            final(self).wf(),
            old(self).same_except_pos(*final(self)),
            old(self).pos <= final(self).pos,
            match spec_eoc(old(self).bytes(), old(self).limit as int, old(self).pos as int) {
                Ok(p) => r is Ok && final(self).pos == p,
                Err(k) => is_err(r, k),
            },
    {
        let (tag, pc) = match self.read_identifier() {
            Ok(t) => t,
            Err(e) => {
                return Err(e);
            },
        };
        if !(tag.tag_class == TagClass::Universal && tag.tag_number == 0) || pc != PC::Primitive {
            return Err(self.generate_error(ASN1ErrorKind::Invalid));
        }
        let b = match self.read_u8() {
            Ok(b) => b,
            Err(e) => {
                return Err(e);
            },
        };
        if b != 0 {
            return Err(self.generate_error(ASN1ErrorKind::Invalid));
        }
        Ok(())
    }
}

/// The state a failed primitive-form decode leaves: the position is
/// unmoved exactly when the depth gate tripped, the window was already
/// exhausted, or a different tag was found; any other failure leaves it
/// strictly advanced.
pub open spec fn prim_err_state(cur: BERReaderImpl, fut: BERReaderImpl, tag: Tag) -> bool {
    &&& cur.pos <= fut.pos
    &&& (fut.pos == cur.pos <==> (cur.depth > READER_STACK_DEPTH || spec_tlv_unmoved(
        cur.bytes(),
        cur.limit as int,
        cur.pos as int,
        tag,
    )))
    &&& (fut.pos == cur.pos ==> fut.limit == cur.limit && fut.depth == cur.depth)
}

/// A reader for one TLV: a handle on the engine, together with the
/// one-shot implicit-tag override consulted by the next TLV entry.
#[derive(Debug)]
pub struct BERReader<'a, 'b> {
    pub inner: &'b mut BERReaderImpl<'a>,
    pub implicit_tag: Option<Tag>,
}

impl<'a, 'b> BERReader<'a, 'b> {
    /// The tag this reader expects: the implicit override if one is
    /// set, else the natural tag of the type being decoded.
    pub open spec fn effective_tag(self, natural: Tag) -> Tag {
        match self.implicit_tag {
            Some(t) => t,
            None => natural,
        }
    }

    /// A fresh reader over the engine, with no implicit tag.
    fn new(inner: &'b mut BERReaderImpl<'a>) -> (r: Self)
        ensures
            mut_ref_current(r.inner) == mut_ref_current(inner),
            mut_ref_future(r.inner) == mut_ref_future(inner),
            r.implicit_tag is None,
    {
        BERReader { inner, implicit_tag: None }
    }

    /// The decoding mode.
    pub fn mode(&self) -> (r: BERMode)
        ensures
            r == mut_ref_current(self.inner).mode,
    {
        self.inner.mode
    }

    /// An error of the given kind.
    pub fn generate_error(&self, kind: ASN1ErrorKind) -> (r: ASN1Error)
        ensures
            r.kind == kind,
    {
        ASN1Error::new(kind)
    }

    /// Reads one BOOLEAN TLV: primitive form, a single content byte;
    /// in DER the byte must be 0x00 or 0xFF.
    pub fn read_bool(self) -> (r: ASN1Result<bool>)
        requires
            mut_ref_current(self.inner).wf(),
        ensures
            mut_ref_future(self.inner).wf(),
            mut_ref_future(self.inner).same_buf(mut_ref_current(self.inner)),
            match spec_read_bool(
                mut_ref_current(self.inner).bytes(),
                mut_ref_current(self.inner).limit as int,
                mut_ref_current(self.inner).pos as int,
                mut_ref_current(self.inner).mode,
                mut_ref_current(self.inner).depth as int,
                self.effective_tag(spec_tag_boolean()),
            ) {
                Ok((v, p)) => r == Ok::<bool, ASN1Error>(v) && mut_ref_future(self.inner).pos == p
                    && mut_ref_future(self.inner).limit == mut_ref_current(self.inner).limit
                    && mut_ref_future(self.inner).depth == mut_ref_current(self.inner).depth,
                Err(k) => is_err(r, k) && prim_err_state(
                    mut_ref_current(self.inner),
                    mut_ref_future(self.inner),
                    self.effective_tag(spec_tag_boolean()),
                ),
            },
    {
        let tag = match self.implicit_tag {
            Some(t) => t,
            None => Tag::universal(1),
        };
        proof {
            lemma_header_bounds(
                self.inner.bytes(),
                self.inner.limit as int,
                self.inner.pos as int,
                self.inner.mode,
                tag,
            );
        }
        let (pc, definite, old_limit) = match self.inner.read_general_enter(tag) {
            Ok(x) => x,
            Err(e) => {
                return Err(e);
            },
        };
        if pc != PC::Primitive {
            return Err(self.inner.generate_error(ASN1ErrorKind::Invalid));
        }
        let buf = self.inner.fetch_remaining_buffer();
        if buf.len() != 1 {
            return Err(self.inner.generate_error(ASN1ErrorKind::Invalid));
        }
        let b = buf[0];
        if self.inner.mode == BERMode::Der && b != 0 && b != 255 {
            return Err(self.inner.generate_error(ASN1ErrorKind::Invalid));
        }
        match self.inner.read_general_exit(definite, old_limit) {
            Ok(u) => u,
            Err(e) => {
                return Err(e);
            },
        };
        Ok(b != 0)
    }

    /// Reads one NULL TLV: primitive form, empty content.
    pub fn read_null(self) -> (r: ASN1Result<()>)
        requires
            mut_ref_current(self.inner).wf(),
        ensures
            mut_ref_future(self.inner).wf(),
            mut_ref_future(self.inner).same_buf(mut_ref_current(self.inner)),
            match spec_read_null(
                mut_ref_current(self.inner).bytes(),
                mut_ref_current(self.inner).limit as int,
                mut_ref_current(self.inner).pos as int,
                mut_ref_current(self.inner).mode,
                mut_ref_current(self.inner).depth as int,
                self.effective_tag(spec_tag_null()),
            ) {
                Ok((_v, p)) => r is Ok && mut_ref_future(self.inner).pos == p && mut_ref_future(
                    self.inner,
                ).limit == mut_ref_current(self.inner).limit && mut_ref_future(self.inner).depth
                    == mut_ref_current(self.inner).depth,
                Err(k) => is_err(r, k) && prim_err_state(
                    mut_ref_current(self.inner),
                    mut_ref_future(self.inner),
                    self.effective_tag(spec_tag_null()),
                ),
            },
    {
        let tag = match self.implicit_tag {
            Some(t) => t,
            None => Tag::universal(5),
        };
        proof {
            lemma_header_bounds(
                self.inner.bytes(),
                self.inner.limit as int,
                self.inner.pos as int,
                self.inner.mode,
                tag,
            );
        }
        let (pc, definite, old_limit) = match self.inner.read_general_enter(tag) {
            Ok(x) => x,
            Err(e) => {
                return Err(e);
            },
        };
        if pc != PC::Primitive {
            return Err(self.inner.generate_error(ASN1ErrorKind::Invalid));
        }
        let buf = self.inner.fetch_remaining_buffer();
        if buf.len() != 0 {
            return Err(self.inner.generate_error(ASN1ErrorKind::Invalid));
        }
        match self.inner.read_general_exit(definite, old_limit) {
            Ok(u) => u,
            Err(e) => {
                return Err(e);
            },
        };
        Ok(())
    }

    /// Reads one INTEGER TLV into a signed 64-bit value: primitive
    /// form, nonempty, minimally encoded, at most eight content bytes.
    pub fn read_i64(self) -> (r: ASN1Result<i64>)
        requires
            mut_ref_current(self.inner).wf(),
        ensures
            mut_ref_future(self.inner).wf(),
            mut_ref_future(self.inner).same_buf(mut_ref_current(self.inner)),
            match spec_read_i64(
                mut_ref_current(self.inner).bytes(),
                mut_ref_current(self.inner).limit as int,
                mut_ref_current(self.inner).pos as int,
                mut_ref_current(self.inner).mode,
                mut_ref_current(self.inner).depth as int,
                self.effective_tag(spec_tag_integer()),
            ) {
                Ok((v, p)) => r == Ok::<i64, ASN1Error>(v) && mut_ref_future(self.inner).pos == p
                    && mut_ref_future(self.inner).limit == mut_ref_current(self.inner).limit
                    && mut_ref_future(self.inner).depth == mut_ref_current(self.inner).depth,
                Err(k) => is_err(r, k) && prim_err_state(
                    mut_ref_current(self.inner),
                    mut_ref_future(self.inner),
                    self.effective_tag(spec_tag_integer()),
                ),
            },
    {
        let tag = match self.implicit_tag {
            Some(t) => t,
            None => Tag::universal(2),
        };
        proof {
            lemma_header_bounds(
                self.inner.bytes(),
                self.inner.limit as int,
                self.inner.pos as int,
                self.inner.mode,
                tag,
            );
        }
        let (pc, definite, old_limit) = match self.inner.read_general_enter(tag) {
            Ok(x) => x,
            Err(e) => {
                return Err(e);
            },
        };
        if pc != PC::Primitive {
            return Err(self.inner.generate_error(ASN1ErrorKind::Invalid));
        }
        let buf = self.inner.fetch_remaining_buffer();
        let n = buf.len();
        let ghost c = buf@;
        if n == 0 {
            return Err(self.inner.generate_error(ASN1ErrorKind::Invalid));
        }
        let b0 = buf[0];
        let s0: i64 = if b0 >= 128 {
            b0 as i64 - 256
        } else {
            b0 as i64
        };
        assert(s0 as int == signed_byte(c[0]));
        if n == 1 {
            match self.inner.read_general_exit(definite, old_limit) {
                Ok(u) => u,
                Err(e) => {
                    return Err(e);
                },
            };
            return Ok(s0);
        }
        let b1 = buf[1];
        let mut x: i64 = s0 * 256 + b1 as i64;
        proof {
            assert(c.take(2).drop_last() =~= c.take(1));
            assert(c.take(2).last() == c[1]);
            assert(c.take(1)[0] == c[0]);
            assert(spec_be_signed(c.take(1)) == signed_byte(c[0]));
            assert(x as int == spec_be_signed(c.take(2)));
        }
        if -128 <= x && x < 128 {
            return Err(self.inner.generate_error(ASN1ErrorKind::Invalid));
        }
        if n > 8 {
            return Err(self.inner.generate_error(ASN1ErrorKind::IntegerOverflow));
        }
        let mut i: usize = 2;
        while i < n
            invariant
                2 <= i <= n,
                n == c.len(),
                n <= 8,
                c == buf@,
                x as int == spec_be_signed(c.take(i as int)),
            decreases n - i,
        {
            proof {
                lemma_be_signed_bounds(c.take(i as int));
                if 8 * i - 1 < 55 {
                    lemma_pow2_strictly_increases((8 * i - 1) as nat, 55);
                }
                lemma_pow2_adds(55, 8);
                lemma2_to64();
                lemma2_to64_rest();
            }
            let b = buf[i];
            x = x * 256 + b as i64;
            proof {
                assert(c.take(i as int + 1).drop_last() =~= c.take(i as int));
                assert(c.take(i as int + 1).last() == c[i as int]);
            }
            i = i + 1;
        }
        proof {
            assert(c.take(n as int) =~= c);
            lemma_be_signed_fits_i64(c);
        }
        match self.inner.read_general_exit(definite, old_limit) {
            Ok(u) => u,
            Err(e) => {
                return Err(e);
            },
        };
        Ok(x)
    }

    /// Reads one BIT STRING TLV.  The constructed form is rejected at
    /// this revision; no DER canonicity check is made on the unused
    /// bits.
    pub fn read_bitstring(self) -> (r: ASN1Result<BitString>)
        requires
            mut_ref_current(self.inner).wf(),
        ensures
            mut_ref_future(self.inner).wf(),
            mut_ref_future(self.inner).same_buf(mut_ref_current(self.inner)),
            match spec_read_bitstring(
                mut_ref_current(self.inner).bytes(),
                mut_ref_current(self.inner).limit as int,
                mut_ref_current(self.inner).pos as int,
                mut_ref_current(self.inner).mode,
                mut_ref_current(self.inner).depth as int,
                self.effective_tag(spec_tag_bitstring()),
            ) {
                Ok(((u, bs), p)) => (match r {
                    Ok(b) => b.unused_bits == u && b.buf@ == bs,
                    Err(_) => false,
                }) && mut_ref_future(self.inner).pos == p && mut_ref_future(self.inner).limit
                    == mut_ref_current(self.inner).limit && mut_ref_future(self.inner).depth
                    == mut_ref_current(self.inner).depth,
                Err(k) => is_err(r, k) && prim_err_state(
                    mut_ref_current(self.inner),
                    mut_ref_future(self.inner),
                    self.effective_tag(spec_tag_bitstring()),
                ),
            },
    {
        let tag = match self.implicit_tag {
            Some(t) => t,
            None => Tag::universal(3),
        };
        proof {
            lemma_header_bounds(
                self.inner.bytes(),
                self.inner.limit as int,
                self.inner.pos as int,
                self.inner.mode,
                tag,
            );
        }
        let (pc, definite, old_limit) = match self.inner.read_general_enter(tag) {
            Ok(x) => x,
            Err(e) => {
                return Err(e);
            },
        };
        if pc == PC::Constructed {
            return Err(self.inner.generate_error(ASN1ErrorKind::Invalid));
        }
        let buf = self.inner.fetch_remaining_buffer();
        let n = buf.len();
        if n == 0 {
            match self.inner.read_general_exit(definite, old_limit) {
                Ok(u) => u,
                Err(e) => {
                    return Err(e);
                },
            };
            return Ok(BitString::from_buf(0, Vec::new()));
        }
        let remain = buf[0] as usize;
        let bytes = vstd::slice::slice_to_vec(vstd::slice::slice_subrange(buf, 1, n));
        match self.inner.read_general_exit(definite, old_limit) {
            Ok(u) => u,
            Err(e) => {
                return Err(e);
            },
        };
        Ok(BitString::from_buf(remain % 8, bytes))
    }

    /// Reads one OBJECT IDENTIFIER TLV: primitive form, nonempty, each
    /// subidentifier base 128 and minimally encoded, the first split
    /// into the first two arcs by the X.690 rule.
    #[verifier::loop_isolation(false)]
    pub fn read_oid(self) -> (r: ASN1Result<ObjectIdentifier>)
        requires
            mut_ref_current(self.inner).wf(),
        ensures
            mut_ref_future(self.inner).wf(),
            mut_ref_future(self.inner).same_buf(mut_ref_current(self.inner)),
            match spec_read_oid(
                mut_ref_current(self.inner).bytes(),
                mut_ref_current(self.inner).limit as int,
                mut_ref_current(self.inner).pos as int,
                mut_ref_current(self.inner).mode,
                mut_ref_current(self.inner).depth as int,
                self.effective_tag(spec_tag_oid()),
            ) {
                Ok((arcs, p)) => (match r {
                    Ok(oid) => oid@ == arcs,
                    Err(_) => false,
                }) && mut_ref_future(self.inner).pos == p && mut_ref_future(self.inner).limit
                    == mut_ref_current(self.inner).limit && mut_ref_future(self.inner).depth
                    == mut_ref_current(self.inner).depth,
                Err(k) => is_err(r, k) && prim_err_state(
                    mut_ref_current(self.inner),
                    mut_ref_future(self.inner),
                    self.effective_tag(spec_tag_oid()),
                ),
            },
    {
        let tag = match self.implicit_tag {
            Some(t) => t,
            None => Tag::universal(6),
        };
        proof {
            lemma_header_bounds(
                self.inner.bytes(),
                self.inner.limit as int,
                self.inner.pos as int,
                self.inner.mode,
                tag,
            );
        }
        let (pc, definite, old_limit) = match self.inner.read_general_enter(tag) {
            Ok(x) => x,
            Err(e) => {
                return Err(e);
            },
        };
        if pc != PC::Primitive {
            return Err(self.inner.generate_error(ASN1ErrorKind::Invalid));
        }
        let buf = self.inner.fetch_remaining_buffer();
        let n = buf.len();
        let ghost c = buf@;
        if n == 0 || buf[n - 1] >= 128 {
            return Err(self.inner.generate_error(ASN1ErrorKind::Invalid));
        }
        let mut ids: Vec<u64> = Vec::new();
        let mut subid: u64 = 0;
        let mut i: usize = 0;
        while i < n
            invariant
                i <= n,
                n == c.len(),
                c == buf@,
                spec_oid_arcs(c, 0, 0, Seq::<u64>::empty()) == spec_oid_arcs(
                    c,
                    i as int,
                    subid as int,
                    ids@,
                ),
            decreases n - i,
        {
            let ghost prev_sub = subid as int;
            let ghost prev_ids = ids@;
            let b = buf[i];
            if subid == 0 && b == 128 {
                proof {
                    assert(spec_oid_arcs(c, i as int, prev_sub, prev_ids) == Err::<
                        Seq<u64>,
                        ASN1ErrorKind,
                    >(ASN1ErrorKind::Invalid));
                }
                return Err(self.inner.generate_error(ASN1ErrorKind::Invalid));
            }
            let x = match subid.checked_mul(128) {
                Some(x) => x,
                None => {
                    proof {
                        assert(spec_oid_arcs(c, i as int, prev_sub, prev_ids) == Err::<
                            Seq<u64>,
                            ASN1ErrorKind,
                        >(ASN1ErrorKind::IntegerOverflow));
                    }
                    return Err(self.inner.generate_error(ASN1ErrorKind::IntegerOverflow));
                },
            };
            assert((b & 127) < 128) by (bit_vector);
            subid = x + (b & 127) as u64;
            if b & 128 == 0 {
                if ids.len() == 0 {
                    let id0: u64 = if subid < 40 {
                        0
                    } else if subid < 80 {
                        1
                    } else {
                        2
                    };
                    let id1 = subid - 40 * id0;
                    proof {
                        assert(prev_ids =~= Seq::<u64>::empty());
                        assert(prev_ids.push(id0).push(id1) =~= seq![id0, id1]);
                    }
                    ids.push(id0);
                    ids.push(id1);
                } else {
                    ids.push(subid);
                }
                subid = 0;
            }
            proof {
                assert(spec_oid_arcs(c, i as int, prev_sub, prev_ids) == spec_oid_arcs(
                    c,
                    i as int + 1,
                    subid as int,
                    ids@,
                ));
            }
            i = i + 1;
        }
        match self.inner.read_general_exit(definite, old_limit) {
            Ok(u) => u,
            Err(e) => {
                return Err(e);
            },
        };
        Ok(ObjectIdentifier::new(ids))
    }

    /// Reads one OCTET STRING TLV and returns its collected content: a
    /// primitive body verbatim; a constructed body (BER only) by
    /// concatenating its child octet strings, the nesting bounded by
    /// the depth gate.
    fn read_bytes_impl(self) -> (r: ASN1Result<Vec<u8>>)
        requires
            mut_ref_current(self.inner).wf(),
        ensures
            mut_ref_future(self.inner).wf(),
            mut_ref_future(self.inner).same_buf(mut_ref_current(self.inner)),
            match spec_read_bytes(
                mut_ref_current(self.inner).bytes(),
                mut_ref_current(self.inner).limit as int,
                mut_ref_current(self.inner).pos as int,
                mut_ref_current(self.inner).mode,
                mut_ref_current(self.inner).depth as int,
                self.effective_tag(spec_tag_octetstring()),
            ) {
                Ok((bs, p)) => (match r {
                    Ok(v) => v@ == bs,
                    Err(_) => false,
                }) && mut_ref_future(self.inner).pos == p && mut_ref_future(self.inner).limit
                    == mut_ref_current(self.inner).limit && mut_ref_future(self.inner).depth
                    == mut_ref_current(self.inner).depth,
                Err(k) => is_err(r, k) && prim_err_state(
                    mut_ref_current(self.inner),
                    mut_ref_future(self.inner),
                    self.effective_tag(spec_tag_octetstring()),
                ),
            },
        decreases mut_ref_current(self.inner).limit - mut_ref_current(self.inner).pos, 0int,
    {
        let tag = match self.implicit_tag {
            Some(t) => t,
            None => Tag::universal(4),
        };
        let ghost entry = mut_ref_current(self.inner);
        proof {
            lemma_header_bounds(
                entry.bytes(),
                entry.limit as int,
                entry.pos as int,
                entry.mode,
                tag,
            );
        }
        let (pc, definite, old_limit) = match self.inner.read_general_enter(tag) {
            Ok(x) => x,
            Err(e) => {
                return Err(e);
            },
        };
        match pc {
            PC::Primitive => {
                let buf = self.inner.fetch_remaining_buffer();
                let v = vstd::slice::slice_to_vec(buf);
                match self.inner.read_general_exit(definite, old_limit) {
                    Ok(u) => u,
                    Err(e) => {
                        return Err(e);
                    },
                };
                Ok(v)
            },
            PC::Constructed => {
                if self.inner.mode == BERMode::Der {
                    return Err(self.inner.generate_error(ASN1ErrorKind::Invalid));
                }
                let acc = match self.inner.read_bytes_children() {
                    Ok(v) => v,
                    Err(e) => {
                        return Err(e);
                    },
                };
                match self.inner.read_general_exit(definite, old_limit) {
                    Ok(u) => u,
                    Err(e) => {
                        return Err(e);
                    },
                };
                Ok(acc)
            },
        }
    }

    /// Reads one OCTET STRING TLV into a byte vector.
    pub fn read_bytes(self) -> (r: ASN1Result<Vec<u8>>)
        requires
            mut_ref_current(self.inner).wf(),
        ensures
            mut_ref_future(self.inner).wf(),
            mut_ref_future(self.inner).same_buf(mut_ref_current(self.inner)),
            match spec_read_bytes(
                mut_ref_current(self.inner).bytes(),
                mut_ref_current(self.inner).limit as int,
                mut_ref_current(self.inner).pos as int,
                mut_ref_current(self.inner).mode,
                mut_ref_current(self.inner).depth as int,
                self.effective_tag(spec_tag_octetstring()),
            ) {
                Ok((bs, p)) => (match r {
                    Ok(v) => v@ == bs,
                    Err(_) => false,
                }) && mut_ref_future(self.inner).pos == p && mut_ref_future(self.inner).limit
                    == mut_ref_current(self.inner).limit && mut_ref_future(self.inner).depth
                    == mut_ref_current(self.inner).depth,
                Err(k) => is_err(r, k) && prim_err_state(
                    mut_ref_current(self.inner),
                    mut_ref_future(self.inner),
                    self.effective_tag(spec_tag_octetstring()),
                ),
            },
    {
        self.read_bytes_impl()
    }
}

impl<'a, 'b> BERReader<'a, 'b> {
    /// Runs `callback` over one TLV whose tag is this reader's
    /// effective expectation: the implicit override if set, else `tag`.
    pub fn read_general<T, F: FnOnce(&mut BERReaderImpl<'a>, PC) -> ASN1Result<T>>(
        self,
        tag: Tag,
        callback: F,
    ) -> (r: ASN1Result<T>)
        requires
            mut_ref_current(self.inner).wf(),
            forall|m: &mut BERReaderImpl<'a>, pc: PC|
                mut_ref_current(m).wf() && mut_ref_current(m).same_buf(mut_ref_current(self.inner))
                    ==> call_requires(callback, (m, pc)),
            forall|m: &mut BERReaderImpl<'a>, pc: PC, fr: ASN1Result<T>|
                #[trigger] call_ensures(callback, (m, pc), fr) ==> (mut_ref_current(m).wf() ==> {
                    &&& mut_ref_future(m).wf()
                    &&& mut_ref_future(m).same_buf(mut_ref_current(m))
                    &&& (fr is Ok ==> mut_ref_future(m).limit == mut_ref_current(m).limit
                        && mut_ref_future(m).depth == mut_ref_current(m).depth)
                }),
        ensures
            mut_ref_future(self.inner).wf(),
            mut_ref_future(self.inner).same_buf(mut_ref_current(self.inner)),
            mut_ref_current(self.inner).depth > READER_STACK_DEPTH ==> is_err(
                r,
                ASN1ErrorKind::StackOverflow,
            ) && mut_ref_future(self.inner) == mut_ref_current(self.inner),
            mut_ref_current(self.inner).depth <= READER_STACK_DEPTH ==> match spec_tlv_header(
                mut_ref_current(self.inner).bytes(),
                mut_ref_current(self.inner).limit as int,
                mut_ref_current(self.inner).pos as int,
                mut_ref_current(self.inner).mode,
                self.effective_tag(tag),
            ) {
                Err(k) => {
                    &&& is_err(r, k)
                    &&& mut_ref_future(self.inner).depth == mut_ref_current(self.inner).depth
                    &&& mut_ref_future(self.inner).limit == mut_ref_current(self.inner).limit
                    &&& mut_ref_current(self.inner).pos <= mut_ref_future(self.inner).pos
                        <= mut_ref_current(self.inner).limit
                    &&& (mut_ref_future(self.inner).pos == mut_ref_current(self.inner).pos
                        <==> spec_tlv_unmoved(
                        mut_ref_current(self.inner).bytes(),
                        mut_ref_current(self.inner).limit as int,
                        mut_ref_current(self.inner).pos as int,
                        self.effective_tag(tag),
                    ))
                },
                Ok((pc, end_opt, body_start)) => exists|
                    m: &mut BERReaderImpl<'a>,
                    fr: ASN1Result<T>,
                |
                    {
                        &&& #[trigger] call_ensures(callback, (m, pc), fr)
                        &&& BERReaderImpl::is_narrowed(
                            mut_ref_current(m),
                            mut_ref_current(self.inner),
                            body_start,
                            end_opt,
                        )
                        &&& match fr {
                            Err(e) => r == Err::<T, ASN1Error>(e) && mut_ref_future(self.inner)
                                == mut_ref_future(m),
                            Ok(v) => match end_opt {
                                Some(end) => if mut_ref_future(m).pos == end {
                                    r == Ok::<T, ASN1Error>(v) && mut_ref_future(self.inner).pos
                                        == end && mut_ref_future(self.inner).limit
                                        == mut_ref_current(self.inner).limit && mut_ref_future(
                                        self.inner,
                                    ).depth == mut_ref_current(self.inner).depth
                                } else {
                                    is_err(r, ASN1ErrorKind::Extra) && mut_ref_future(
                                        self.inner,
                                    ).pos == mut_ref_future(m).pos && mut_ref_future(
                                        self.inner,
                                    ).limit == end && mut_ref_future(self.inner).depth
                                        == mut_ref_current(self.inner).depth
                                },
                                None => match spec_eoc(
                                    mut_ref_current(self.inner).bytes(),
                                    mut_ref_current(self.inner).limit as int,
                                    mut_ref_future(m).pos as int,
                                ) {
                                    Ok(p) => r == Ok::<T, ASN1Error>(v) && mut_ref_future(
                                        self.inner,
                                    ).pos == p && mut_ref_future(self.inner).limit
                                        == mut_ref_current(self.inner).limit && mut_ref_future(
                                        self.inner,
                                    ).depth == mut_ref_current(self.inner).depth,
                                    Err(k2) => is_err(r, k2) && mut_ref_future(self.inner).depth
                                        == mut_ref_current(self.inner).depth && mut_ref_future(
                                        self.inner,
                                    ).limit == mut_ref_current(self.inner).limit
                                        && mut_ref_future(m).pos <= mut_ref_future(self.inner).pos
                                        <= mut_ref_current(self.inner).limit,
                                },
                            },
                        }
                    },
            },
    {
        let tag_eff = match self.implicit_tag {
            Some(t) => t,
            None => tag,
        };
        self.inner.read_general(tag_eff, callback)
    }

    /// Enters one constructed TLV with the given tag and hands a fresh
    /// reader over its content to `callback`; this realises EXPLICIT
    /// tagging.
    pub fn read_tagged<T, F: for<'c> FnOnce(BERReader<'a, 'c>) -> ASN1Result<T>>(
        self,
        tag: Tag,
        callback: F,
    ) -> (r: ASN1Result<T>)
        requires
            mut_ref_current(self.inner).wf(),
            forall|m: &mut BERReaderImpl<'a>|
                mut_ref_current(m).wf() && mut_ref_current(m).same_buf(mut_ref_current(self.inner))
                    ==> call_requires(callback, (BERReader { inner: m, implicit_tag: None },)),
            forall|m: &mut BERReaderImpl<'a>, fr: ASN1Result<T>|
                #[trigger] call_ensures(callback, (BERReader { inner: m, implicit_tag: None },), fr)
                    ==> (mut_ref_current(m).wf() ==> {
                    &&& mut_ref_future(m).wf()
                    &&& mut_ref_future(m).same_buf(mut_ref_current(m))
                    &&& (fr is Ok ==> mut_ref_future(m).limit == mut_ref_current(m).limit
                        && mut_ref_future(m).depth == mut_ref_current(m).depth)
                }),
        ensures
            mut_ref_future(self.inner).wf(),
            mut_ref_future(self.inner).same_buf(mut_ref_current(self.inner)),
            mut_ref_current(self.inner).depth > READER_STACK_DEPTH ==> is_err(
                r,
                ASN1ErrorKind::StackOverflow,
            ) && mut_ref_future(self.inner) == mut_ref_current(self.inner),
            mut_ref_current(self.inner).depth <= READER_STACK_DEPTH ==> match spec_tlv_header(
                mut_ref_current(self.inner).bytes(),
                mut_ref_current(self.inner).limit as int,
                mut_ref_current(self.inner).pos as int,
                mut_ref_current(self.inner).mode,
                self.effective_tag(tag),
            ) {
                Err(k) => is_err(r, k) && prim_err_state(
                    mut_ref_current(self.inner),
                    mut_ref_future(self.inner),
                    self.effective_tag(tag),
                ),
                Ok((pc, end_opt, body_start)) => if pc != PC::Constructed {
                    is_err(r, ASN1ErrorKind::Invalid) && mut_ref_future(self.inner).pos
                        == body_start
                } else {
                    exists|m: &mut BERReaderImpl<'a>, fr: ASN1Result<T>|
                        {
                            &&& #[trigger] call_ensures(
                                callback,
                                (BERReader { inner: m, implicit_tag: None },),
                                fr,
                            )
                            &&& BERReaderImpl::is_narrowed(
                                mut_ref_current(m),
                                mut_ref_current(self.inner),
                                body_start,
                                end_opt,
                            )
                            &&& match fr {
                                Err(e) => r == Err::<T, ASN1Error>(e) && mut_ref_future(self.inner)
                                    == mut_ref_future(m),
                                Ok(v) => match end_opt {
                                    Some(end) => if mut_ref_future(m).pos == end {
                                        r == Ok::<T, ASN1Error>(v) && mut_ref_future(
                                            self.inner,
                                        ).pos == end && mut_ref_future(self.inner).limit
                                            == mut_ref_current(self.inner).limit && mut_ref_future(
                                            self.inner,
                                        ).depth == mut_ref_current(self.inner).depth
                                    } else {
                                        is_err(r, ASN1ErrorKind::Extra)
                                    },
                                    None => match spec_eoc(
                                        mut_ref_current(self.inner).bytes(),
                                        mut_ref_current(self.inner).limit as int,
                                        mut_ref_future(m).pos as int,
                                    ) {
                                        Ok(p) => r == Ok::<T, ASN1Error>(v) && mut_ref_future(
                                            self.inner,
                                        ).pos == p && mut_ref_future(self.inner).limit
                                            == mut_ref_current(self.inner).limit && mut_ref_future(
                                            self.inner,
                                        ).depth == mut_ref_current(self.inner).depth,
                                        Err(k2) => is_err(r, k2),
                                    },
                                },
                            }
                        }
                },
            },
    {
        let tag_eff = match self.implicit_tag {
            Some(t) => t,
            None => tag,
        };
        proof {
            lemma_header_bounds(
                self.inner.bytes(),
                self.inner.limit as int,
                self.inner.pos as int,
                self.inner.mode,
                tag_eff,
            );
        }
        let (pc, definite, old_limit) = match self.inner.read_general_enter(tag_eff) {
            Ok(x) => x,
            Err(e) => {
                return Err(e);
            },
        };
        if pc != PC::Constructed {
            return Err(self.inner.generate_error(ASN1ErrorKind::Invalid));
        }
        let v = match callback(BERReader { inner: &mut *self.inner, implicit_tag: None }) {
            Ok(v) => v,
            Err(e) => {
                return Err(e);
            },
        };
        match self.inner.read_general_exit(definite, old_limit) {
            Ok(u) => u,
            Err(e) => {
                return Err(e);
            },
        };
        Ok(v)
    }

    /// Sets the implicit-tag override and hands the same position to
    /// `callback`: the next TLV entry substitutes the given tag for its
    /// natural one.  This realises IMPLICIT tagging.
    pub fn read_tagged_implicit<T, F: for<'c> FnOnce(BERReader<'a, 'c>) -> ASN1Result<T>>(
        self,
        tag: Tag,
        callback: F,
    ) -> (r: ASN1Result<T>)
        requires
            forall|m: &mut BERReaderImpl<'a>|
                mut_ref_current(m) == mut_ref_current(self.inner) ==> call_requires(
                    callback,
                    (BERReader { inner: m, implicit_tag: Some(self.effective_tag(tag)) },),
                ),
        ensures
            exists|m: &mut BERReaderImpl<'a>|
                {
                    &&& #[trigger] call_ensures(
                        callback,
                        (BERReader { inner: m, implicit_tag: Some(self.effective_tag(tag)) },),
                        r,
                    )
                    &&& mut_ref_current(m) == mut_ref_current(self.inner)
                    &&& mut_ref_future(m) == mut_ref_future(self.inner)
                },
    {
        let tag_eff = match self.implicit_tag {
            Some(t) => t,
            None => tag,
        };
        callback(BERReader { inner: self.inner, implicit_tag: Some(tag_eff) })
    }

    /// Runs `callback` (with this reader's implicit tag forwarded) and
    /// returns its value together with the bytes it consumed.
    pub fn read_with_buffer<T, F: for<'c> FnOnce(BERReader<'a, 'c>) -> ASN1Result<T>>(
        self,
        callback: F,
    ) -> (r: ASN1Result<(T, &'a [u8])>)
        requires
            mut_ref_current(self.inner).wf(),
            forall|m: &mut BERReaderImpl<'a>|
                mut_ref_current(m) == mut_ref_current(self.inner) ==> call_requires(
                    callback,
                    (BERReader { inner: m, implicit_tag: self.implicit_tag },),
                ),
            forall|m: &mut BERReaderImpl<'a>, fr: ASN1Result<T>|
                #[trigger] call_ensures(
                    callback,
                    (BERReader { inner: m, implicit_tag: self.implicit_tag },),
                    fr,
                ) ==> (mut_ref_current(m).wf() ==> {
                    &&& mut_ref_future(m).wf()
                    &&& mut_ref_future(m).same_buf(mut_ref_current(m))
                    &&& mut_ref_future(m).pos >= mut_ref_current(m).pos
                }),
        ensures
            exists|m: &mut BERReaderImpl<'a>, fr: ASN1Result<T>|
                {
                    &&& #[trigger] call_ensures(
                        callback,
                        (BERReader { inner: m, implicit_tag: self.implicit_tag },),
                        fr,
                    )
                    &&& mut_ref_current(m) == mut_ref_current(self.inner)
                    &&& mut_ref_future(self.inner) == mut_ref_future(m)
                    &&& match fr {
                        Err(e) => r == Err::<(T, &'a [u8]), ASN1Error>(e),
                        Ok(v) => match r {
                            Ok((v2, b)) => v2 == v && b@ == mut_ref_current(
                                self.inner,
                            ).bytes().subrange(
                                mut_ref_current(self.inner).pos as int,
                                mut_ref_future(m).pos as int,
                            ),
                            Err(_) => false,
                        },
                    }
                },
    {
        let implicit_tag = self.implicit_tag;
        let old_pos = self.inner.pos;
        let result = match callback(BERReader { inner: &mut *self.inner, implicit_tag }) {
            Ok(v) => v,
            Err(e) => {
                return Err(e);
            },
        };
        let b = vstd::slice::slice_subrange(self.inner.buf, old_pos, self.inner.pos);
        Ok((result, b))
    }

    /// Enters one constructed SEQUENCE TLV and hands a cursor over
    /// its children to `callback`.
    pub fn read_sequence<T, F: for<'c> FnOnce(&mut BERReaderSeq<'a, 'c>) -> ASN1Result<T>>(
        self,
        callback: F,
    ) -> (r: ASN1Result<T>)
        requires
            mut_ref_current(self.inner).wf(),
            forall|sq: &mut BERReaderSeq<'a, 'b>|
                mut_ref_current(mut_ref_current(sq).inner).wf() && mut_ref_current(
                    mut_ref_current(sq).inner,
                ).same_buf(mut_ref_current(self.inner)) ==> call_requires(callback, (sq,)),
            forall|sq: &mut BERReaderSeq<'a, 'b>, fr: ASN1Result<T>|
                #[trigger] call_ensures(callback, (sq,), fr) ==> (mut_ref_current(
                    mut_ref_current(sq).inner,
                ).wf() ==> {
                    &&& mut_ref_future(mut_ref_current(sq).inner) == mut_ref_future(
                        mut_ref_future(sq).inner,
                    )
                    &&& mut_ref_current(mut_ref_future(sq).inner).wf()
                    &&& mut_ref_current(mut_ref_future(sq).inner).same_buf(
                        mut_ref_current(mut_ref_current(sq).inner),
                    )
                    &&& (fr is Ok ==> mut_ref_current(mut_ref_future(sq).inner).limit
                        == mut_ref_current(mut_ref_current(sq).inner).limit && mut_ref_current(mut_ref_future(sq).inner).depth == mut_ref_current(mut_ref_current(sq).inner).depth)
                }),
        ensures
            mut_ref_future(self.inner).wf(),
            mut_ref_future(self.inner).same_buf(mut_ref_current(self.inner)),
            mut_ref_current(self.inner).depth > READER_STACK_DEPTH ==> is_err(
                r,
                ASN1ErrorKind::StackOverflow,
            ) && mut_ref_future(self.inner) == mut_ref_current(self.inner),
            mut_ref_current(self.inner).depth <= READER_STACK_DEPTH ==> match spec_tlv_header(
                mut_ref_current(self.inner).bytes(),
                mut_ref_current(self.inner).limit as int,
                mut_ref_current(self.inner).pos as int,
                mut_ref_current(self.inner).mode,
                self.effective_tag(spec_tag_sequence()),
            ) {
                Err(k) => is_err(r, k) && prim_err_state(
                    mut_ref_current(self.inner),
                    mut_ref_future(self.inner),
                    self.effective_tag(spec_tag_sequence()),
                ),
                Ok((pc, end_opt, body_start)) => if pc != PC::Constructed {
                    is_err(r, ASN1ErrorKind::Invalid) && mut_ref_future(self.inner).pos
                        == body_start
                } else {
                    exists|sq: &mut BERReaderSeq<'a, 'b>, fr: ASN1Result<T>|
                        {
                            &&& #[trigger] call_ensures(callback, (sq,), fr)
                            &&& BERReaderImpl::is_narrowed(
                                mut_ref_current(mut_ref_current(sq).inner),
                                mut_ref_current(self.inner),
                                body_start,
                                end_opt,
                            )
                            &&& match fr {
                                Err(e) => r == Err::<T, ASN1Error>(e) && mut_ref_future(self.inner)
                                    == mut_ref_current(mut_ref_future(sq).inner),
                                Ok(v) => match end_opt {
                                    Some(end) => if mut_ref_current(mut_ref_future(sq).inner).pos == end {
                                        r == Ok::<T, ASN1Error>(v) && mut_ref_future(
                                            self.inner,
                                        ).pos == end && mut_ref_future(self.inner).limit
                                            == mut_ref_current(self.inner).limit && mut_ref_future(
                                            self.inner,
                                        ).depth == mut_ref_current(self.inner).depth
                                    } else {
                                        is_err(r, ASN1ErrorKind::Extra)
                                    },
                                    None => match spec_eoc(
                                        mut_ref_current(self.inner).bytes(),
                                        mut_ref_current(self.inner).limit as int,
                                        mut_ref_current(mut_ref_future(sq).inner).pos as int,
                                    ) {
                                        Ok(p) => r == Ok::<T, ASN1Error>(v) && mut_ref_future(
                                            self.inner,
                                        ).pos == p && mut_ref_future(self.inner).limit
                                            == mut_ref_current(self.inner).limit && mut_ref_future(
                                            self.inner,
                                        ).depth == mut_ref_current(self.inner).depth,
                                        Err(k2) => is_err(r, k2),
                                    },
                                },
                            }
                        }
                },
            },
    {
        let ghost entry = mut_ref_current(self.inner);
        let tag_eff = match self.implicit_tag {
            Some(t) => t,
            None => Tag::universal(16),
        };
        proof {
            lemma_header_bounds(
                self.inner.bytes(),
                self.inner.limit as int,
                self.inner.pos as int,
                self.inner.mode,
                tag_eff,
            );
        }
        let (pc, definite, old_limit) = match self.inner.read_general_enter(tag_eff) {
            Ok(x) => x,
            Err(e) => {
                return Err(e);
            },
        };
        if pc != PC::Constructed {
            return Err(self.inner.generate_error(ASN1ErrorKind::Invalid));
        }
        let mut seq_reader = BERReaderSeq { inner: &mut *self.inner };
        let sqr = &mut seq_reader;
        proof {
            assert(mut_ref_current(mut_ref_current(sqr).inner).wf());
            assert(mut_ref_current(mut_ref_current(sqr).inner).same_buf(entry));
        }
        let v = match callback(sqr) {
            Ok(v) => v,
            Err(e) => {
                return Err(e);
            },
        };
        match self.inner.read_general_exit(definite, old_limit) {
            Ok(u) => u,
            Err(e) => {
                return Err(e);
            },
        };
        Ok(v)
    }

    /// Enters one constructed SET TLV and hands a cursor over
    /// its children to `callback`.
    pub fn read_set<T, F: for<'c> FnOnce(&mut BERReaderSeq<'a, 'c>) -> ASN1Result<T>>(
        self,
        callback: F,
    ) -> (r: ASN1Result<T>)
        requires
            mut_ref_current(self.inner).wf(),
            forall|sq: &mut BERReaderSeq<'a, 'b>|
                mut_ref_current(mut_ref_current(sq).inner).wf() && mut_ref_current(
                    mut_ref_current(sq).inner,
                ).same_buf(mut_ref_current(self.inner)) ==> call_requires(callback, (sq,)),
            forall|sq: &mut BERReaderSeq<'a, 'b>, fr: ASN1Result<T>|
                #[trigger] call_ensures(callback, (sq,), fr) ==> (mut_ref_current(
                    mut_ref_current(sq).inner,
                ).wf() ==> {
                    &&& mut_ref_future(mut_ref_current(sq).inner) == mut_ref_future(
                        mut_ref_future(sq).inner,
                    )
                    &&& mut_ref_current(mut_ref_future(sq).inner).wf()
                    &&& mut_ref_current(mut_ref_future(sq).inner).same_buf(
                        mut_ref_current(mut_ref_current(sq).inner),
                    )
                    &&& (fr is Ok ==> mut_ref_current(mut_ref_future(sq).inner).limit
                        == mut_ref_current(mut_ref_current(sq).inner).limit && mut_ref_current(mut_ref_future(sq).inner).depth == mut_ref_current(mut_ref_current(sq).inner).depth)
                }),
        ensures
            mut_ref_future(self.inner).wf(),
            mut_ref_future(self.inner).same_buf(mut_ref_current(self.inner)),
            mut_ref_current(self.inner).depth > READER_STACK_DEPTH ==> is_err(
                r,
                ASN1ErrorKind::StackOverflow,
            ) && mut_ref_future(self.inner) == mut_ref_current(self.inner),
            mut_ref_current(self.inner).depth <= READER_STACK_DEPTH ==> match spec_tlv_header(
                mut_ref_current(self.inner).bytes(),
                mut_ref_current(self.inner).limit as int,
                mut_ref_current(self.inner).pos as int,
                mut_ref_current(self.inner).mode,
                self.effective_tag(spec_tag_set()),
            ) {
                Err(k) => is_err(r, k) && prim_err_state(
                    mut_ref_current(self.inner),
                    mut_ref_future(self.inner),
                    self.effective_tag(spec_tag_set()),
                ),
                Ok((pc, end_opt, body_start)) => if pc != PC::Constructed {
                    is_err(r, ASN1ErrorKind::Invalid) && mut_ref_future(self.inner).pos
                        == body_start
                } else {
                    exists|sq: &mut BERReaderSeq<'a, 'b>, fr: ASN1Result<T>|
                        {
                            &&& #[trigger] call_ensures(callback, (sq,), fr)
                            &&& BERReaderImpl::is_narrowed(
                                mut_ref_current(mut_ref_current(sq).inner),
                                mut_ref_current(self.inner),
                                body_start,
                                end_opt,
                            )
                            &&& match fr {
                                Err(e) => r == Err::<T, ASN1Error>(e) && mut_ref_future(self.inner)
                                    == mut_ref_current(mut_ref_future(sq).inner),
                                Ok(v) => match end_opt {
                                    Some(end) => if mut_ref_current(mut_ref_future(sq).inner).pos == end {
                                        r == Ok::<T, ASN1Error>(v) && mut_ref_future(
                                            self.inner,
                                        ).pos == end && mut_ref_future(self.inner).limit
                                            == mut_ref_current(self.inner).limit && mut_ref_future(
                                            self.inner,
                                        ).depth == mut_ref_current(self.inner).depth
                                    } else {
                                        is_err(r, ASN1ErrorKind::Extra)
                                    },
                                    None => match spec_eoc(
                                        mut_ref_current(self.inner).bytes(),
                                        mut_ref_current(self.inner).limit as int,
                                        mut_ref_current(mut_ref_future(sq).inner).pos as int,
                                    ) {
                                        Ok(p) => r == Ok::<T, ASN1Error>(v) && mut_ref_future(
                                            self.inner,
                                        ).pos == p && mut_ref_future(self.inner).limit
                                            == mut_ref_current(self.inner).limit && mut_ref_future(
                                            self.inner,
                                        ).depth == mut_ref_current(self.inner).depth,
                                        Err(k2) => is_err(r, k2),
                                    },
                                },
                            }
                        }
                },
            },
    {
        let ghost entry = mut_ref_current(self.inner);
        let tag_eff = match self.implicit_tag {
            Some(t) => t,
            None => Tag::universal(17),
        };
        proof {
            lemma_header_bounds(
                self.inner.bytes(),
                self.inner.limit as int,
                self.inner.pos as int,
                self.inner.mode,
                tag_eff,
            );
        }
        let (pc, definite, old_limit) = match self.inner.read_general_enter(tag_eff) {
            Ok(x) => x,
            Err(e) => {
                return Err(e);
            },
        };
        if pc != PC::Constructed {
            return Err(self.inner.generate_error(ASN1ErrorKind::Invalid));
        }
        let mut seq_reader = BERReaderSeq { inner: &mut *self.inner };
        let sqr = &mut seq_reader;
        proof {
            assert(mut_ref_current(mut_ref_current(sqr).inner).wf());
            assert(mut_ref_current(mut_ref_current(sqr).inner).same_buf(entry));
        }
        let v = match callback(sqr) {
            Ok(v) => v,
            Err(e) => {
                return Err(e);
            },
        };
        match self.inner.read_general_exit(definite, old_limit) {
            Ok(u) => u,
            Err(e) => {
                return Err(e);
            },
        };
        Ok(v)
    }

    /// Decodes one value of a type that knows its own BER shape.
    pub fn parse<T: FromBER>(self) -> (r: ASN1Result<T>)
        requires
            mut_ref_current(self.inner).wf(),
        ensures
            mut_ref_future(self.inner).wf(),
            mut_ref_future(self.inner).same_buf(mut_ref_current(self.inner)),
    {
        T::from_ber(self)
    }
}

/// Decodes one outer TLV from `buf` in the given mode: `callback`
/// receives a reader over the whole buffer, and after it succeeds the
/// buffer must be fully consumed, else the parse fails with `Extra`.
pub fn parse_ber_general<'a, T, F: for<'b> FnOnce(BERReader<'a, 'b>) -> ASN1Result<T>>(
    buf: &'a [u8],
    mode: BERMode,
    callback: F,
) -> (r: ASN1Result<T>)
    requires
        forall|m: &mut BERReaderImpl<'a>|
            (mut_ref_current(m).wf() && mut_ref_current(m).bytes() == buf@ && mut_ref_current(
                m,
            ).pos == 0 && mut_ref_current(m).limit == buf@.len() && mut_ref_current(m).mode == mode
                && mut_ref_current(m).depth == 0) ==> call_requires(
                callback,
                (BERReader { inner: m, implicit_tag: None },),
            ),
        forall|m: &mut BERReaderImpl<'a>, fr: ASN1Result<T>|
            #[trigger] call_ensures(callback, (BERReader { inner: m, implicit_tag: None },), fr)
                ==> (mut_ref_current(m).wf() ==> (fr is Ok ==> mut_ref_future(m).limit
                == mut_ref_current(m).limit)),
    ensures
        exists|m: &mut BERReaderImpl<'a>, fr: ASN1Result<T>|
            {
                &&& #[trigger] call_ensures(callback, (BERReader { inner: m, implicit_tag: None },), fr)
                &&& mut_ref_current(m).bytes() == buf@
                &&& mut_ref_current(m).pos == 0
                &&& mut_ref_current(m).limit == buf@.len()
                &&& mut_ref_current(m).mode == mode
                &&& mut_ref_current(m).depth == 0
                &&& match fr {
                    Err(e) => r == Err::<T, ASN1Error>(e),
                    Ok(v) => if mut_ref_future(m).pos == buf@.len() {
                        r == Ok::<T, ASN1Error>(v)
                    } else {
                        is_err(r, ASN1ErrorKind::Extra)
                    },
                }
            },
{
    let mut reader_impl = BERReaderImpl::new(buf, mode);
    let result = match callback(BERReader { inner: &mut reader_impl, implicit_tag: None }) {
        Ok(v) => v,
        Err(e) => {
            return Err(e);
        },
    };
    match reader_impl.end_of_buf() {
        Ok(u) => u,
        Err(e) => {
            return Err(e);
        },
    };
    Ok(result)
}

/// Decodes one outer TLV from `buf` under BER.
pub fn parse_ber<'a, T, F: for<'b> FnOnce(BERReader<'a, 'b>) -> ASN1Result<T>>(
    buf: &'a [u8],
    callback: F,
) -> (r: ASN1Result<T>)
    requires
        forall|m: &mut BERReaderImpl<'a>|
            (mut_ref_current(m).wf() && mut_ref_current(m).bytes() == buf@ && mut_ref_current(
                m,
            ).pos == 0 && mut_ref_current(m).limit == buf@.len() && mut_ref_current(m).mode
                == BERMode::Ber && mut_ref_current(m).depth == 0) ==> call_requires(
                callback,
                (BERReader { inner: m, implicit_tag: None },),
            ),
        forall|m: &mut BERReaderImpl<'a>, fr: ASN1Result<T>|
            #[trigger] call_ensures(callback, (BERReader { inner: m, implicit_tag: None },), fr)
                ==> (mut_ref_current(m).wf() ==> (fr is Ok ==> mut_ref_future(m).limit
                == mut_ref_current(m).limit)),
    ensures
        exists|m: &mut BERReaderImpl<'a>, fr: ASN1Result<T>|
            {
                &&& #[trigger] call_ensures(callback, (BERReader { inner: m, implicit_tag: None },), fr)
                &&& mut_ref_current(m).bytes() == buf@
                &&& mut_ref_current(m).pos == 0
                &&& mut_ref_current(m).limit == buf@.len()
                &&& mut_ref_current(m).mode == BERMode::Ber
                &&& mut_ref_current(m).depth == 0
                &&& match fr {
                    Err(e) => r == Err::<T, ASN1Error>(e),
                    Ok(v) => if mut_ref_future(m).pos == buf@.len() {
                        r == Ok::<T, ASN1Error>(v)
                    } else {
                        is_err(r, ASN1ErrorKind::Extra)
                    },
                }
            },
{
    parse_ber_general(buf, BERMode::Ber, callback)
}

/// Decodes one outer TLV from `buf` under DER.
pub fn parse_der<'a, T, F: for<'b> FnOnce(BERReader<'a, 'b>) -> ASN1Result<T>>(
    buf: &'a [u8],
    callback: F,
) -> (r: ASN1Result<T>)
    requires
        forall|m: &mut BERReaderImpl<'a>|
            (mut_ref_current(m).wf() && mut_ref_current(m).bytes() == buf@ && mut_ref_current(
                m,
            ).pos == 0 && mut_ref_current(m).limit == buf@.len() && mut_ref_current(m).mode
                == BERMode::Der && mut_ref_current(m).depth == 0) ==> call_requires(
                callback,
                (BERReader { inner: m, implicit_tag: None },),
            ),
        forall|m: &mut BERReaderImpl<'a>, fr: ASN1Result<T>|
            #[trigger] call_ensures(callback, (BERReader { inner: m, implicit_tag: None },), fr)
                ==> (mut_ref_current(m).wf() ==> (fr is Ok ==> mut_ref_future(m).limit
                == mut_ref_current(m).limit)),
    ensures
        exists|m: &mut BERReaderImpl<'a>, fr: ASN1Result<T>|
            {
                &&& #[trigger] call_ensures(callback, (BERReader { inner: m, implicit_tag: None },), fr)
                &&& mut_ref_current(m).bytes() == buf@
                &&& mut_ref_current(m).pos == 0
                &&& mut_ref_current(m).limit == buf@.len()
                &&& mut_ref_current(m).mode == BERMode::Der
                &&& mut_ref_current(m).depth == 0
                &&& match fr {
                    Err(e) => r == Err::<T, ASN1Error>(e),
                    Ok(v) => if mut_ref_future(m).pos == buf@.len() {
                        r == Ok::<T, ASN1Error>(v)
                    } else {
                        is_err(r, ASN1ErrorKind::Extra)
                    },
                }
            },
{
    parse_ber_general(buf, BERMode::Der, callback)
}

/// A forward cursor over the children of a constructed value: readers
/// for the children are handed out in order, with optional-child and
/// default-value helpers.
#[derive(Debug)]
pub struct BERReaderSeq<'a, 'b> {
    pub inner: &'b mut BERReaderImpl<'a>,
}

impl<'a, 'b> BERReaderSeq<'a, 'b> {
    /// The decoding mode.
    pub fn mode(&self) -> (r: BERMode)
        ensures
            r == mut_ref_current(self.inner).mode,
    {
        self.inner.mode
    }

    /// An error of the given kind.
    pub fn generate_error(&self, kind: ASN1ErrorKind) -> (r: ASN1Error)
        ensures
            r.kind == kind,
    {
        ASN1Error::new(kind)
    }

    /// A reader for the next child.
    pub fn next<'c>(&'c mut self) -> (r: BERReader<'a, 'c>)
        ensures
            r.implicit_tag is None,
            mut_ref_current(r.inner) == mut_ref_current(old(self).inner),
            mut_ref_future(old(self).inner) == mut_ref_future(final(self).inner),
            mut_ref_current(final(self).inner) == mut_ref_future(r.inner),
    {
        BERReader { inner: &mut *self.inner, implicit_tag: None }
    }

    /// Attempts one child with `callback`.  A failure that left the
    /// position unmoved (the next child bears a different tag, or the
    /// window is done) becomes `Ok(None)`; a failure after bytes were
    /// consumed propagates.
    pub fn read_optional<T, F: for<'c> FnOnce(BERReader<'a, 'c>) -> ASN1Result<T>>(
        &mut self,
        callback: F,
    ) -> (r: ASN1Result<Option<T>>)
        requires
            forall|m: &mut BERReaderImpl<'a>|
                mut_ref_current(m) == mut_ref_current(old(self).inner) ==> call_requires(
                    callback,
                    (BERReader { inner: m, implicit_tag: None },),
                ),
        ensures
            mut_ref_future(old(self).inner) == mut_ref_future(final(self).inner),
            exists|m: &mut BERReaderImpl<'a>, fr: ASN1Result<T>|
                {
                    &&& #[trigger] call_ensures(
                        callback,
                        (BERReader { inner: m, implicit_tag: None },),
                        fr,
                    )
                    &&& mut_ref_current(m) == mut_ref_current(old(self).inner)
                    &&& mut_ref_current(final(self).inner) == mut_ref_future(m)
                    &&& match fr {
                        Ok(v) => r == Ok::<Option<T>, ASN1Error>(Some(v)),
                        Err(e) => if mut_ref_future(m).pos == mut_ref_current(old(self).inner).pos {
                            r == Ok::<Option<T>, ASN1Error>(None)
                        } else {
                            r == Err::<Option<T>, ASN1Error>(e)
                        },
                    }
                },
    {
        let old_pos = self.inner.pos;
        match callback(BERReader { inner: &mut *self.inner, implicit_tag: None }) {
            Ok(result) => Ok(Some(result)),
            Err(e) => if old_pos == self.inner.pos {
                Ok(None)
            } else {
                Err(e)
            },
        }
    }

    /// Attempts one child and substitutes `default` when it is absent.
    /// In DER, a present child equal to the default is rejected as
    /// `Invalid`: DER forbids encoding a DEFAULT-valued field.
    pub fn read_default<T: Eq, F: for<'c> FnOnce(BERReader<'a, 'c>) -> ASN1Result<T>>(
        &mut self,
        default: T,
        callback: F,
    ) -> (r: ASN1Result<T>)
        requires
            forall|m: &mut BERReaderImpl<'a>|
                mut_ref_current(m) == mut_ref_current(old(self).inner) ==> call_requires(
                    callback,
                    (BERReader { inner: m, implicit_tag: None },),
                ),
        ensures
            mut_ref_future(old(self).inner) == mut_ref_future(final(self).inner),
            exists|m: &mut BERReaderImpl<'a>, fr: ASN1Result<T>|
                {
                    &&& #[trigger] call_ensures(
                        callback,
                        (BERReader { inner: m, implicit_tag: None },),
                        fr,
                    )
                    &&& mut_ref_current(m) == mut_ref_current(old(self).inner)
                    &&& mut_ref_current(final(self).inner) == mut_ref_future(m)
                    &&& match fr {
                        Ok(v) => T::obeys_eq_spec() ==> (if mut_ref_current(old(self).inner).mode
                            == BERMode::Der && v.eq_spec(&default) {
                            is_err(r, ASN1ErrorKind::Invalid)
                        } else {
                            r == Ok::<T, ASN1Error>(v)
                        }),
                        Err(e) => if mut_ref_future(m).pos == mut_ref_current(old(self).inner).pos {
                            r == Ok::<T, ASN1Error>(default)
                        } else {
                            r == Err::<T, ASN1Error>(e)
                        },
                    }
                },
    {
        let mode = self.inner.mode;
        let old_pos = self.inner.pos;
        match callback(BERReader { inner: &mut *self.inner, implicit_tag: None }) {
            Ok(result) => {
                if mode == BERMode::Der && result == default {
                    return Err(self.generate_error(ASN1ErrorKind::Invalid));
                }
                Ok(result)
            },
            Err(e) => if old_pos == self.inner.pos {
                Ok(default)
            } else {
                Err(e)
            },
        }
    }

    /// Runs `callback` over further children and returns its value
    /// together with the bytes it consumed.
    pub fn read_with_buffer<T, F: for<'c> FnOnce(&mut BERReaderSeq<'a, 'c>) -> ASN1Result<T>>(
        &mut self,
        callback: F,
    ) -> (r: ASN1Result<(T, &'a [u8])>)
        requires
            mut_ref_current(old(self).inner).wf(),
            forall|sq: &mut BERReaderSeq<'a, 'b>|
                mut_ref_current(mut_ref_current(sq).inner) == mut_ref_current(old(self).inner)
                    ==> call_requires(callback, (sq,)),
            forall|sq: &mut BERReaderSeq<'a, 'b>, fr: ASN1Result<T>|
                #[trigger] call_ensures(callback, (sq,), fr) ==> (mut_ref_current(
                    mut_ref_current(sq).inner,
                ).wf() ==> {
                    &&& mut_ref_future(mut_ref_current(sq).inner) == mut_ref_future(
                        mut_ref_future(sq).inner,
                    )
                    &&& mut_ref_current(mut_ref_future(sq).inner).wf()
                    &&& mut_ref_current(mut_ref_future(sq).inner).same_buf(
                        mut_ref_current(mut_ref_current(sq).inner),
                    )
                    &&& mut_ref_current(mut_ref_future(sq).inner).pos >= mut_ref_current(
                        mut_ref_current(sq).inner,
                    ).pos
                }),
        ensures
            mut_ref_future(old(self).inner) == mut_ref_future(final(self).inner),
            exists|sq: &mut BERReaderSeq<'a, 'b>, fr: ASN1Result<T>|
                {
                    &&& #[trigger] call_ensures(callback, (sq,), fr)
                    &&& mut_ref_current(mut_ref_current(sq).inner) == mut_ref_current(
                        old(self).inner,
                    )
                    &&& mut_ref_current(final(self).inner) == mut_ref_current(mut_ref_future(sq).inner)
                    &&& match fr {
                        Err(e) => r == Err::<(T, &'a [u8]), ASN1Error>(e),
                        Ok(v) => match r {
                            Ok((v2, b)) => v2 == v && b@ == mut_ref_current(
                                old(self).inner,
                            ).bytes().subrange(
                                mut_ref_current(old(self).inner).pos as int,
                                mut_ref_current(mut_ref_future(sq).inner).pos as int,
                            ),
                            Err(_) => false,
                        },
                    }
                },
    {
        let old_pos = self.inner.pos;
        let mut nested = BERReaderSeq { inner: &mut *self.inner };
        let result = match callback(&mut nested) {
            Ok(v) => v,
            Err(e) => {
                return Err(e);
            },
        };
        let b = vstd::slice::slice_subrange(self.inner.buf, old_pos, self.inner.pos);
        Ok((result, b))
    }
}

/// A value decodable from one BER TLV; `BERReader::parse` dispatches to
/// it.  Implementations decode exactly one value through the reader
/// they are given.
pub trait FromBER: Sized {
    /// Decodes one value from the reader.
    fn from_ber<'a, 'b>(reader: BERReader<'a, 'b>) -> (r: ASN1Result<Self>)
        requires
            mut_ref_current(reader.inner).wf(),
        ensures
            mut_ref_future(reader.inner).wf(),
            mut_ref_future(reader.inner).same_buf(mut_ref_current(reader.inner)),
    ;
}

impl FromBER for bool {
    fn from_ber<'a, 'b>(reader: BERReader<'a, 'b>) -> (r: ASN1Result<bool>) {
        reader.read_bool()
    }
}

impl FromBER for i64 {
    fn from_ber<'a, 'b>(reader: BERReader<'a, 'b>) -> (r: ASN1Result<i64>) {
        reader.read_i64()
    }
}

} // verus!
