//! The verified decoder: `loads` and the recursive MessagePack walk,
//! refined against the model's [`dv`] family.
use vstd::prelude::*;

use crate::codec::Codec;
use crate::error::Error;
use crate::intern::CtxV;
use crate::model::{
    dec_top, dv, dv_bin, dv_custom, dv_elems, dv_ext, dv_pair_elems, dv_pairs, dv_reference,
    dv_seq, dv_table, dv_text, DecMode, CUSTOM_EXT, INTERN_TABLE_EXT,
};
use crate::object::{
    lemma_view_objs, lemma_view_pairs, view_obj, view_objs, view_pairs, EncodedCustomType, Int,
    NamespaceRef, Object, Ov,
};
use vstd::slice::{slice_subrange, slice_to_vec};

verus! {

broadcast use vstd::std_specs::vec::group_vec_axioms, vstd::seq::group_seq_axioms;

/// The decode mode the intern context stands for, or a bare read.
pub open spec fn mode_of(raw: bool, c: CtxV) -> DecMode {
    if raw {
        DecMode::Raw
    } else {
        match c {
            CtxV::Dec(t) => DecMode::Table(t),
            _ => DecMode::Plain,
        }
    }
}

/// What the whole table decode returns, given what the entry loop
/// returns: the link carried through the entry loop as an invariant.
pub open spec fn table_continuation(payload: Seq<u8>, n: int, start: int) -> bool {
    match crate::model::dv_entries(payload, start, n, Seq::empty()) {
        Ok((tabf, pe)) => dv_table(payload) == (if pe < 0 || pe >= payload.len() {
            Err::<Ov, Error>(Error::InvalidInternTable)
        } else {
            match dv(payload, pe, DecMode::Table(tabf)) {
                Ok((v, _)) => Ok::<Ov, Error>(v),
                Err(e) => Err::<Ov, Error>(e),
            }
        }),
        Err(e) => dv_table(payload) == Err::<Ov, Error>(e),
    }
}

/// Relies on `String::from_utf8`: succeeds exactly on valid UTF-8, and the
/// returned string's bytes are the input bytes.
#[verifier::external_body]
fn string_from_utf8(bytes: Vec<u8>) -> (r: Option<String>)
    ensures
        match r {
            Some(s) => vstd::utf8::valid_utf8(bytes@) && vstd::utf8::encode_utf8(s@) == bytes@,
            None => !vstd::utf8::valid_utf8(bytes@),
        },
{
    String::from_utf8(bytes).ok()
}

/// Take `n` UTF-8 bytes at `start` as a string value.
fn parse_text(b: &[u8], start: usize, n: u64) -> (r: Result<(Object, usize), Error>)
    requires
        start <= b@.len(),
    ensures
        match r {
            Ok((o, p2)) => dv_text(b@, start as int, n as int) == Ok::<(Ov, int), Error>((
                o@,
                p2 as int,
            )) && start <= p2 <= b@.len(),
            Err(e) => dv_text(b@, start as int, n as int) == Err::<(Ov, int), Error>(e),
        },
{
    if n > (b.len() - start) as u64 {
        return Err(Error::DecodeFailure);
    }
    let nn = n as usize;
    let bytes = slice_to_vec(slice_subrange(b, start, start + nn));
    let ghost bv = bytes@;
    match string_from_utf8(bytes) {
        Some(s) => {
            proof {
                vstd::utf8::encode_utf8_decode_utf8(s@);
                assert(vstd::utf8::decode_utf8(bv) == s@);
            }
            Ok((Object::String(s), start + nn))
        },
        None => Err(Error::InvalidUtf8),
    }
}

/// Take `n` raw bytes at `start` as a binary value.
fn parse_bin(b: &[u8], start: usize, n: u64) -> (r: Result<(Object, usize), Error>)
    requires
        start <= b@.len(),
    ensures
        match r {
            Ok((o, p2)) => dv_bin(b@, start as int, n as int) == Ok::<(Ov, int), Error>((
                o@,
                p2 as int,
            )) && start <= p2 <= b@.len(),
            Err(e) => dv_bin(b@, start as int, n as int) == Err::<(Ov, int), Error>(e),
        },
{
    if n > (b.len() - start) as u64 {
        return Err(Error::DecodeFailure);
    }
    let nn = n as usize;
    let bytes = slice_to_vec(slice_subrange(b, start, start + nn));
    Ok((Object::Binary(bytes), start + nn))
}

/// The `i8` EXT type code stored by an unsigned byte.
fn byte_to_i8(b: u8) -> (r: i8)
    ensures
        r == crate::wire::byte_i8(b),
{
    if b < 0x80 {
        b as i8
    } else {
        ((b as i16) - 0x100) as i8
    }
}

impl Codec {
    /// Decode one object from the front of `data`; trailing bytes are
    /// ignored.  The intern context is reset first.
    pub fn loads(&mut self, data: &[u8]) -> (r: Result<Object, Error>)
        ensures
            match r {
                Ok(o) => (dec_top(data@) matches Ok(v) && o@ == v),
                Err(e) => (dec_top(data@) matches Err(e2) && e2 == e),
            },
    {
        self.ctx_mut().reset();
        match self.parse_value(data, 0, false) {
            Ok((o, _)) => Ok(o),
            Err(e) => Err(e),
        }
    }

    /// Parse one MessagePack value at `p`.  In a bare (`raw`) read every
    /// EXT passes through; otherwise the intern context decides what EXT
    /// blocks mean.
    #[verifier::rlimit(100)]
    #[verifier::spinoff_prover]
    pub(crate) fn parse_value(&mut self, b: &[u8], p: usize, raw: bool) -> (r: Result<(Object, usize), Error>)
        requires
            old(self).ctx().wf(),
            !(old(self).ctx()@ matches CtxV::Enc(_)),
        ensures
            final(self).ctx().wf(),
            final(self).ctx()@ == old(self).ctx()@,
            ({
                let res = dv(b@, p as int, mode_of(raw, old(self).ctx()@));
                match r {
                    Ok((o, p2)) => res == Ok::<(Ov, int), Error>((o@, p2 as int)) && p < p2
                        <= b@.len(),
                    Err(e) => res == Err::<(Ov, int), Error>(e),
                }
            }),
        decreases b@.len() - p, 1int,
    {
        let ghost m = mode_of(raw, old(self).ctx()@);
        if p >= b.len() {
            proof {
                crate::model::lemma_dv_bounds(b@, p as int, m);
            }
            return Err(Error::DecodeFailure);
        }
        let c = b[p];
        if c < 0x80 {
            proof {
                crate::model::lemma_dv_fix(b@, p as int, m);
            }
            Ok((Object::Integer(Int::Unsigned(c as u64)), p + 1))
        } else if c < 0x90 {
            proof {
                crate::model::lemma_dv_fix_compound(b@, p as int, m);
            }
            self.parse_dict(b, p + 1, (c - 0x80) as u64, raw)
        } else if c < 0xa0 {
            proof {
                crate::model::lemma_dv_fix_compound(b@, p as int, m);
            }
            self.parse_array(b, p + 1, (c - 0x90) as u64, raw)
        } else if c < 0xc0 {
            proof {
                crate::model::lemma_dv_fix_compound(b@, p as int, m);
            }
            parse_text(b, p + 1, (c - 0xa0) as u64)
        } else if c == 0xc0 {
            proof {
                crate::model::lemma_dv_fix(b@, p as int, m);
            }
            Ok((Object::Nil, p + 1))
        } else if c == 0xc1 {
            proof {
                crate::model::lemma_dv_fix(b@, p as int, m);
            }
            Err(Error::DecodeFailure)
        } else if c == 0xc2 {
            proof {
                crate::model::lemma_dv_fix(b@, p as int, m);
            }
            Ok((Object::Boolean(false), p + 1))
        } else if c == 0xc3 {
            proof {
                crate::model::lemma_dv_fix(b@, p as int, m);
            }
            Ok((Object::Boolean(true), p + 1))
        } else if c == 0xc4 {
            proof {
                crate::model::lemma_dv_bin(b@, p as int, m);
            }
            if b.len() - p >= 2 {
                parse_bin(b, p + 2, b[p + 1] as u64)
            } else {
                Err(Error::DecodeFailure)
            }
        } else if c == 0xc5 {
            proof {
                crate::model::lemma_dv_bin(b@, p as int, m);
            }
            if b.len() - p >= 3 {
                let n: u64 = (b[p + 1] as u64) * 0x100 + (b[p + 2] as u64);
                parse_bin(b, p + 3, n)
            } else {
                Err(Error::DecodeFailure)
            }
        } else if c == 0xc6 {
            proof {
                crate::model::lemma_dv_bin(b@, p as int, m);
            }
            if b.len() - p >= 5 {
                let n: u64 = (((b[p + 1] as u64) * 0x100 + (b[p + 2] as u64)) * 0x100 + (b[p
                    + 3] as u64)) * 0x100 + (b[p + 4] as u64);
                parse_bin(b, p + 5, n)
            } else {
                Err(Error::DecodeFailure)
            }
        } else if c == 0xc7 {
            proof {
                crate::model::lemma_dv_ext_markers(b@, p as int, m);
            }
            if b.len() - p >= 3 {
                let ty = byte_to_i8(b[p + 2]);
                self.parse_ext(b, p + 3, b[p + 1] as u64, ty, raw)
            } else {
                Err(Error::DecodeFailure)
            }
        } else if c == 0xc8 {
            proof {
                crate::model::lemma_dv_ext_markers(b@, p as int, m);
            }
            if b.len() - p >= 4 {
                let n: u64 = (b[p + 1] as u64) * 0x100 + (b[p + 2] as u64);
                let ty = byte_to_i8(b[p + 3]);
                self.parse_ext(b, p + 4, n, ty, raw)
            } else {
                Err(Error::DecodeFailure)
            }
        } else if c == 0xc9 {
            proof {
                crate::model::lemma_dv_ext_markers(b@, p as int, m);
            }
            if b.len() - p >= 6 {
                let n: u64 = (((b[p + 1] as u64) * 0x100 + (b[p + 2] as u64)) * 0x100 + (b[p
                    + 3] as u64)) * 0x100 + (b[p + 4] as u64);
                let ty = byte_to_i8(b[p + 5]);
                self.parse_ext(b, p + 6, n, ty, raw)
            } else {
                Err(Error::DecodeFailure)
            }
        } else if c == 0xca {
            proof {
                crate::model::lemma_dv_float(b@, p as int, m);
            }
            if b.len() - p >= 5 {
                let bits: u32 = (((b[p + 1] as u32) * 0x100 + (b[p + 2] as u32)) * 0x100 + (b[p
                    + 3] as u32)) * 0x100 + (b[p + 4] as u32);
                Ok((Object::F32(bits), p + 5))
            } else {
                Err(Error::DecodeFailure)
            }
        } else if c == 0xcb {
            proof {
                crate::model::lemma_dv_float(b@, p as int, m);
            }
            if b.len() - p >= 9 {
                let bits: u64 = read_be64(b, p + 1);
                Ok((Object::F64(bits), p + 9))
            } else {
                Err(Error::DecodeFailure)
            }
        } else if c == 0xcc {
            proof {
                crate::model::lemma_dv_uint(b@, p as int, m);
            }
            if b.len() - p >= 2 {
                Ok((Object::Integer(Int::Unsigned(b[p + 1] as u64)), p + 2))
            } else {
                Err(Error::DecodeFailure)
            }
        } else if c == 0xcd {
            proof {
                crate::model::lemma_dv_uint(b@, p as int, m);
            }
            if b.len() - p >= 3 {
                let v: u64 = (b[p + 1] as u64) * 0x100 + (b[p + 2] as u64);
                Ok((Object::Integer(Int::Unsigned(v)), p + 3))
            } else {
                Err(Error::DecodeFailure)
            }
        } else if c == 0xce {
            proof {
                crate::model::lemma_dv_uint(b@, p as int, m);
            }
            if b.len() - p >= 5 {
                let v: u64 = (((b[p + 1] as u64) * 0x100 + (b[p + 2] as u64)) * 0x100 + (b[p
                    + 3] as u64)) * 0x100 + (b[p + 4] as u64);
                Ok((Object::Integer(Int::Unsigned(v)), p + 5))
            } else {
                Err(Error::DecodeFailure)
            }
        } else if c == 0xcf {
            proof {
                crate::model::lemma_dv_uint(b@, p as int, m);
            }
            if b.len() - p >= 9 {
                let v: u64 = read_be64(b, p + 1);
                Ok((Object::Integer(Int::Unsigned(v)), p + 9))
            } else {
                Err(Error::DecodeFailure)
            }
        } else if c == 0xd0 {
            proof {
                crate::model::lemma_dv_sint(b@, p as int, m);
            }
            if b.len() - p >= 2 {
                let v = byte_to_i8(b[p + 1]);
                Ok((Object::Integer(Int::from_i64(v as i64)), p + 2))
            } else {
                Err(Error::DecodeFailure)
            }
        } else if c == 0xd1 {
            proof {
                crate::model::lemma_dv_sint(b@, p as int, m);
            }
            if b.len() - p >= 3 {
                let raw16: u64 = (b[p + 1] as u64) * 0x100 + (b[p + 2] as u64);
                let v: i64 = if raw16 >= 0x8000 {
                    raw16 as i64 - 0x10000
                } else {
                    raw16 as i64
                };
                Ok((Object::Integer(Int::from_i64(v)), p + 3))
            } else {
                Err(Error::DecodeFailure)
            }
        } else if c == 0xd2 {
            proof {
                crate::model::lemma_dv_sint(b@, p as int, m);
            }
            if b.len() - p >= 5 {
                let raw32: u64 = (((b[p + 1] as u64) * 0x100 + (b[p + 2] as u64)) * 0x100 + (b[p
                    + 3] as u64)) * 0x100 + (b[p + 4] as u64);
                let v: i64 = if raw32 >= 0x80000000 {
                    raw32 as i64 - 0x100000000
                } else {
                    raw32 as i64
                };
                Ok((Object::Integer(Int::from_i64(v)), p + 5))
            } else {
                Err(Error::DecodeFailure)
            }
        } else if c == 0xd3 {
            proof {
                crate::model::lemma_dv_sint(b@, p as int, m);
            }
            if b.len() - p >= 9 {
                let raw64: u64 = read_be64(b, p + 1);
                let v: i64 = if raw64 >= 0x8000000000000000 {
                    ((raw64 - 0x8000000000000000) as i64) + i64::MIN
                } else {
                    raw64 as i64
                };
                Ok((Object::Integer(Int::from_i64(v)), p + 9))
            } else {
                Err(Error::DecodeFailure)
            }
        } else if c >= 0xd4 && c <= 0xd8 {
            proof {
                crate::model::lemma_dv_ext_markers(b@, p as int, m);
            }
            let n: u64 = if c == 0xd4 {
                1
            } else if c == 0xd5 {
                2
            } else if c == 0xd6 {
                4
            } else if c == 0xd7 {
                8
            } else {
                16
            };
            if b.len() - p >= 2 {
                let ty = byte_to_i8(b[p + 1]);
                self.parse_ext(b, p + 2, n, ty, raw)
            } else {
                Err(Error::DecodeFailure)
            }
        } else if c == 0xd9 {
            proof {
                crate::model::lemma_dv_str(b@, p as int, m);
            }
            if b.len() - p >= 2 {
                parse_text(b, p + 2, b[p + 1] as u64)
            } else {
                Err(Error::DecodeFailure)
            }
        } else if c == 0xda {
            proof {
                crate::model::lemma_dv_str(b@, p as int, m);
            }
            if b.len() - p >= 3 {
                let n: u64 = (b[p + 1] as u64) * 0x100 + (b[p + 2] as u64);
                parse_text(b, p + 3, n)
            } else {
                Err(Error::DecodeFailure)
            }
        } else if c == 0xdb {
            proof {
                crate::model::lemma_dv_str(b@, p as int, m);
            }
            if b.len() - p >= 5 {
                let n: u64 = (((b[p + 1] as u64) * 0x100 + (b[p + 2] as u64)) * 0x100 + (b[p
                    + 3] as u64)) * 0x100 + (b[p + 4] as u64);
                parse_text(b, p + 5, n)
            } else {
                Err(Error::DecodeFailure)
            }
        } else if c == 0xdc {
            proof {
                crate::model::lemma_dv_arr_map(b@, p as int, m);
            }
            if b.len() - p >= 3 {
                let n: u64 = (b[p + 1] as u64) * 0x100 + (b[p + 2] as u64);
                self.parse_array(b, p + 3, n, raw)
            } else {
                Err(Error::DecodeFailure)
            }
        } else if c == 0xdd {
            proof {
                crate::model::lemma_dv_arr_map(b@, p as int, m);
            }
            if b.len() - p >= 5 {
                let n64: u64 = (((b[p + 1] as u64) * 0x100 + (b[p + 2] as u64)) * 0x100 + (b[p
                    + 3] as u64)) * 0x100 + (b[p + 4] as u64);
                self.parse_array(b, p + 5, n64, raw)
            } else {
                Err(Error::DecodeFailure)
            }
        } else if c == 0xde {
            proof {
                crate::model::lemma_dv_arr_map(b@, p as int, m);
            }
            if b.len() - p >= 3 {
                let n: u64 = (b[p + 1] as u64) * 0x100 + (b[p + 2] as u64);
                self.parse_dict(b, p + 3, n, raw)
            } else {
                Err(Error::DecodeFailure)
            }
        } else if c == 0xdf {
            proof {
                crate::model::lemma_dv_arr_map(b@, p as int, m);
            }
            if b.len() - p >= 5 {
                let n64: u64 = (((b[p + 1] as u64) * 0x100 + (b[p + 2] as u64)) * 0x100 + (b[p
                    + 3] as u64)) * 0x100 + (b[p + 4] as u64);
                self.parse_dict(b, p + 5, n64, raw)
            } else {
                Err(Error::DecodeFailure)
            }
        } else {
            proof {
                crate::model::lemma_dv_fix(b@, p as int, m);
            }
            Ok((Object::Integer(Int::from_i64(c as i64 - 0x100)), p + 1))
        }
    }

    /// Parse `n` consecutive values into an array object.
    #[verifier::rlimit(100)]
    #[verifier::spinoff_prover]
    fn parse_array(&mut self, b: &[u8], start: usize, n: u64, raw: bool) -> (r: Result<
        (Object, usize),
        Error,
    >)
        requires
            old(self).ctx().wf(),
            !(old(self).ctx()@ matches CtxV::Enc(_)),
            start <= b@.len(),
            start >= 1,
        ensures
            final(self).ctx().wf(),
            final(self).ctx()@ == old(self).ctx()@,
            ({
                let res = dv_seq(b@, start as int, n as int, mode_of(raw, old(self).ctx()@));
                match r {
                    Ok((o, p2)) => res == Ok::<(Ov, int), Error>((o@, p2 as int)) && start <= p2
                        <= b@.len(),
                    Err(e) => res == Err::<(Ov, int), Error>(e),
                }
            }),
        decreases b@.len() - start, 2int,
    {
        let ghost m = mode_of(raw, old(self).ctx()@);
        let mut out: Vec<Object> = Vec::new();
        let mut pos: usize = start;
        let mut left: u64 = n;
        proof {
            lemma_view_objs(out@);
        }
        while left > 0
            invariant
                old(self).ctx()@ == self.ctx()@,
                self.ctx().wf(),
                !(self.ctx()@ matches CtxV::Enc(_)),
                m == mode_of(raw, self.ctx()@),
                start <= pos <= b@.len(),
                left <= n,
                view_objs(out@).len() == out@.len(),
                forall|j: int| 0 <= j < out@.len() ==> view_objs(out@)[j] == view_obj(out@[j]),
                dv_elems(b@, start as int, n as int, m) == (match dv_elems(
                    b@,
                    pos as int,
                    left as int,
                    m,
                ) {
                    Ok((vs2, pe)) => Ok::<(Seq<Ov>, int), Error>((view_objs(out@) + vs2, pe)),
                    Err(e) => Err(e),
                }),
            decreases left,
        {
            let res = self.parse_value(b, pos, raw);
            match res {
                Ok((o, p2)) => {
                    let ghost done = view_objs(out@);
                    out.push(o);
                    proof {
                        lemma_view_objs(out@);
                        assert(view_objs(out@) =~= done.push(o@));
                        assert forall|vs2: Seq<Ov>| true implies done + (seq![o@] + vs2) =~= (
                        done.push(o@) + vs2) by {}
                    }
                    pos = p2;
                    left = left - 1;
                },
                Err(e) => {
                    return Err(e);
                },
            }
        }
        proof {
            lemma_view_objs(out@);
            assert(view_objs(out@) + Seq::<Ov>::empty() =~= view_objs(out@));
        }
        Ok((Object::Array(out), pos))
    }

    /// Parse `n` consecutive key/value pairs into a map object.
    #[verifier::rlimit(100)]
    #[verifier::spinoff_prover]
    fn parse_dict(&mut self, b: &[u8], start: usize, n: u64, raw: bool) -> (r: Result<
        (Object, usize),
        Error,
    >)
        requires
            old(self).ctx().wf(),
            !(old(self).ctx()@ matches CtxV::Enc(_)),
            start <= b@.len(),
            start >= 1,
        ensures
            final(self).ctx().wf(),
            final(self).ctx()@ == old(self).ctx()@,
            ({
                let res = dv_pairs(b@, start as int, n as int, mode_of(raw, old(self).ctx()@));
                match r {
                    Ok((o, p2)) => res == Ok::<(Ov, int), Error>((o@, p2 as int)) && start <= p2
                        <= b@.len(),
                    Err(e) => res == Err::<(Ov, int), Error>(e),
                }
            }),
        decreases b@.len() - start, 2int,
    {
        let ghost m = mode_of(raw, old(self).ctx()@);
        let mut out: Vec<(Object, Object)> = Vec::new();
        let mut pos: usize = start;
        let mut left: u64 = n;
        proof {
            lemma_view_pairs(out@);
        }
        while left > 0
            invariant
                old(self).ctx()@ == self.ctx()@,
                self.ctx().wf(),
                !(self.ctx()@ matches CtxV::Enc(_)),
                m == mode_of(raw, self.ctx()@),
                start <= pos <= b@.len(),
                left <= n,
                view_pairs(out@).len() == out@.len(),
                forall|j: int| 0 <= j < out@.len() ==> view_pairs(out@)[j] == (view_obj(
                    out@[j].0,
                ), view_obj(out@[j].1)),
                dv_pair_elems(b@, start as int, n as int, m) == (match dv_pair_elems(
                    b@,
                    pos as int,
                    left as int,
                    m,
                ) {
                    Ok((vs2, pe)) => Ok::<(Seq<(Ov, Ov)>, int), Error>((
                        view_pairs(out@) + vs2,
                        pe,
                    )),
                    Err(e) => Err(e),
                }),
            decreases left,
        {
            let key = match self.parse_value(b, pos, raw) {
                Ok(kv) => kv,
                Err(e) => {
                    return Err(e);
                },
            };
            let value = match self.parse_value(b, key.1, raw) {
                Ok(vv) => vv,
                Err(e) => {
                    return Err(e);
                },
            };
            let ghost done = view_pairs(out@);
            let p3 = value.1;
            out.push((key.0, value.0));
            proof {
                lemma_view_pairs(out@);
                assert(view_pairs(out@) =~= done.push((out@.last().0@, out@.last().1@)));
                assert forall|vs2: Seq<(Ov, Ov)>| true implies done + (seq![
                    view_pairs(out@).last(),
                ] + vs2) =~= (view_pairs(out@) + vs2) by {}
            }
            pos = p3;
            left = left - 1;
        }
        proof {
            lemma_view_pairs(out@);
            assert(view_pairs(out@) + Seq::<(Ov, Ov)>::empty() =~= view_pairs(out@));
        }
        Ok((Object::Dict(out), pos))
    }

    /// Decide what an EXT block means, given the current mode.
    #[verifier::rlimit(100)]
    #[verifier::spinoff_prover]
    fn parse_ext(&mut self, b: &[u8], p_data: usize, n: u64, ty: i8, raw: bool) -> (r: Result<
        (Object, usize),
        Error,
    >)
        requires
            old(self).ctx().wf(),
            !(old(self).ctx()@ matches CtxV::Enc(_)),
            p_data <= b@.len(),
            p_data >= 2,
        ensures
            final(self).ctx().wf(),
            final(self).ctx()@ == old(self).ctx()@,
            ({
                let res = dv_ext(b@, p_data as int, n as int, ty, mode_of(raw, old(self).ctx()@));
                match r {
                    Ok((o, p2)) => res == Ok::<(Ov, int), Error>((o@, p2 as int)) && p_data <= p2
                        <= b@.len(),
                    Err(e) => res == Err::<(Ov, int), Error>(e),
                }
            }),
        decreases b@.len() - p_data + 1, 9int,
    {
        if n > (b.len() - p_data) as u64 {
            return Err(Error::DecodeFailure);
        }
        let nn = n as usize;
        let end = p_data + nn;
        let payload = slice_to_vec(slice_subrange(b, p_data, end));
        if raw {
            return Ok((Object::Ext(ty, payload), end));
        }
        if self.ctx_ref().is_decoding() {
            if ty == INTERN_TABLE_EXT {
                match self.parse_reference(&payload) {
                    Ok(o) => Ok((o, end)),
                    Err(e) => Err(e),
                }
            } else if ty == CUSTOM_EXT {
                match self.parse_custom(&payload) {
                    Ok(o) => Ok((o, end)),
                    Err(e) => Err(e),
                }
            } else {
                Ok((Object::Ext(ty, payload), end))
            }
        } else {
            if ty == INTERN_TABLE_EXT {
                match self.parse_table(&payload) {
                    Ok(o) => Ok((o, end)),
                    Err(e) => Err(e),
                }
            } else if ty == CUSTOM_EXT {
                match self.parse_custom(&payload) {
                    Ok(o) => Ok((o, end)),
                    Err(e) => Err(e),
                }
            } else {
                Ok((Object::Ext(ty, payload), end))
            }
        }
    }

    /// Resolve an intern back-reference from a reference EXT payload.
    #[verifier::rlimit(100)]
    fn parse_reference(&mut self, payload: &Vec<u8>) -> (r: Result<Object, Error>)
        requires
            old(self).ctx().wf(),
            old(self).ctx()@ matches CtxV::Dec(_),
        ensures
            final(self).ctx().wf(),
            final(self).ctx()@ == old(self).ctx()@,
            ({
                let tab = (match old(self).ctx()@ {
                    CtxV::Dec(t) => t,
                    _ => Seq::empty(),
                });
                let res = dv_reference(payload@, tab);
                match r {
                    Ok(o) => res == Ok::<Ov, Error>(o@),
                    Err(e) => res == Err::<Ov, Error>(e),
                }
            }),
        decreases payload@.len() + 1, 2int,
    {
        let b = payload.as_slice();
        match self.parse_value(b, 0, true) {
            Ok((o, _)) => match o {
                Object::Integer(iv) => match iv.as_u64() {
                    Some(v) => {
                        let idx: usize = if v <= usize::MAX as u64 {
                            v as usize
                        } else {
                            usize::MAX
                        };
                        self.ctx_ref().resolve_reference(idx)
                    },
                    None => Err(Error::InvalidInternReferencePayload),
                },
                _ => Err(Error::InvalidInternReferencePayload),
            },
            Err(e) => {
                if matches!(e, Error::InvalidUtf8) {
                    Err(Error::InvalidInternReferencePayload)
                } else {
                    Err(e)
                }
            },
        }
    }

    /// Decode a custom-type EXT payload into a `Custom` object.
    #[verifier::rlimit(100)]
    fn parse_custom(&mut self, payload: &Vec<u8>) -> (r: Result<Object, Error>)
        requires
            old(self).ctx().wf(),
            !(old(self).ctx()@ matches CtxV::Enc(_)),
        ensures
            final(self).ctx().wf(),
            final(self).ctx()@ == old(self).ctx()@,
            ({
                let res = dv_custom(payload@);
                match r {
                    Ok(o) => res == Ok::<Ov, Error>(o@),
                    Err(e) => res == Err::<Ov, Error>(e),
                }
            }),
        decreases payload@.len() + 1, 2int,
    {
        let b = payload.as_slice();
        let ns_parsed = match self.parse_value(b, 0, true) {
            Ok(x) => x,
            Err(e) => {
                return Err(e);
            },
        };
        let p1 = ns_parsed.1;
        let namespace = match ns_parsed.0 {
            Object::String(s) => NamespaceRef::Name(s),
            Object::Integer(iv) => match iv.as_u64() {
                Some(v) => if v <= u32::MAX as u64 {
                    NamespaceRef::Id(v as u32)
                } else {
                    return Err(Error::InvalidCustomNamespace);
                },
                None => {
                    return Err(Error::InvalidCustomNamespace);
                },
            },
            _ => {
                return Err(Error::InvalidCustomNamespace);
            },
        };
        let tid_parsed = match self.parse_value(b, p1, true) {
            Ok(x) => x,
            Err(e) => {
                if matches!(e, Error::InvalidUtf8) {
                    return Err(Error::InvalidCustomTypeId);
                }
                return Err(e);
            },
        };
        let p2 = tid_parsed.1;
        let type_id: u32 = match tid_parsed.0 {
            Object::Integer(iv) => match iv.as_u64() {
                Some(v) => if v <= u32::MAX as u64 {
                    v as u32
                } else {
                    return Err(Error::InvalidCustomTypeId);
                },
                None => {
                    return Err(Error::InvalidCustomTypeId);
                },
            },
            _ => {
                return Err(Error::InvalidCustomTypeId);
            },
        };
        let data = slice_to_vec(slice_subrange(b, p2, payload.len()));
        Ok((Object::Custom(EncodedCustomType { namespace, type_id, data })))
    }

    /// Decode an intern-table envelope: open the table, load the entries
    /// left to right, then decode the main value against the full table.
    #[verifier::rlimit(100)]
    #[verifier::spinoff_prover]
    fn parse_table(&mut self, payload: &Vec<u8>) -> (r: Result<Object, Error>)
        requires
            old(self).ctx().wf(),
            old(self).ctx()@ == CtxV::Idle,
        ensures
            final(self).ctx().wf(),
            final(self).ctx()@ == CtxV::Idle,
            ({
                let res = dv_table(payload@);
                match r {
                    Ok(o) => res == Ok::<Ov, Error>(o@),
                    Err(e) => res == Err::<Ov, Error>(e),
                }
            }),
        decreases payload@.len() + 1, 4int,
    {
        match self.ctx_mut().start_decoding() {
            Ok(()) => {},
            Err(e) => {
                proof {
                    assert(false);
                }
                return Err(e);
            },
        }
        let res = self.parse_table_inner(payload);
        self.ctx_mut().finish_decoding();
        res
    }

    /// The body of a table decode, run with the context in decoding mode.
    #[verifier::rlimit(100)]
    #[verifier::spinoff_prover]
    fn parse_table_inner(&mut self, payload: &Vec<u8>) -> (r: Result<Object, Error>)
        requires
            old(self).ctx().wf(),
            old(self).ctx()@ == CtxV::Dec(Seq::<Ov>::empty()),
        ensures
            final(self).ctx().wf(),
            ({
                let res = dv_table(payload@);
                match r {
                    Ok(o) => res == Ok::<Ov, Error>(o@),
                    Err(e) => res == Err::<Ov, Error>(e),
                }
            }),
        decreases payload@.len() + 1, 3int,
    {
        if payload.len() == 0 {
            return Err(Error::DecodeFailure);
        }
        let c = payload[0];
        let b = payload.as_slice();
        let hdr: (u64, usize) = if c >= 0x90 && c < 0xa0 {
            ((c - 0x90) as u64, 1)
        } else if c == 0xdc {
            if 3 <= payload.len() {
                ((b[1] as u64) * 0x100 + (b[2] as u64), 3)
            } else {
                return Err(Error::DecodeFailure);
            }
        } else if c == 0xdd {
            if 5 <= payload.len() {
                let n64: u64 = (((b[1] as u64) * 0x100 + (b[2] as u64)) * 0x100 + (b[3] as u64))
                    * 0x100 + (b[4] as u64);
                (n64, 5)
            } else {
                return Err(Error::DecodeFailure);
            }
        } else {
            // Not an array header: the payload is not a table.
            match self.parse_value(b, 0, true) {
                Ok(_) => {
                    return Err(Error::InvalidInternTable);
                },
                Err(e) => {
                    return Err(e);
                },
            }
        };
        let (n, start) = hdr;
        proof {
            assert(table_continuation(payload@, n as int, start as int));
        }
        let mut pos: usize = start;
        let mut left: u64 = n;
        while left > 0
            invariant
                self.ctx().wf(),
                self.ctx()@ matches CtxV::Dec(_),
                b@ == payload@,
                table_continuation(payload@, n as int, start as int),
                start <= pos <= payload@.len(),
                left <= n,
                payload@.len() >= 1,
                ({
                    let tab = (match self.ctx()@ {
                        CtxV::Dec(t) => t,
                        _ => Seq::empty(),
                    });
                    crate::model::dv_entries(payload@, start as int, n as int, Seq::empty())
                        == crate::model::dv_entries(payload@, pos as int, left as int, tab)
                }),
            decreases left,
        {
            let entry = match self.parse_value(b, pos, false) {
                Ok(x) => x,
                Err(e) => {
                    proof {
                        let tab = (match self.ctx()@ {
                            CtxV::Dec(t) => t,
                            _ => Seq::empty(),
                        });
                        assert(crate::model::dv_entries(payload@, pos as int, left as int, tab)
                            == Err::<(Seq<Ov>, int), Error>(e));
                    }
                    return Err(e);
                },
            };
            match self.ctx_mut().push_decoded(entry.0) {
                Ok(()) => {},
                Err(e) => {
                    proof {
                        assert(false);
                    }
                    return Err(e);
                },
            }
            pos = entry.1;
            left = left - 1;
        }
        if pos >= payload.len() {
            return Err(Error::InvalidInternTable);
        }
        match self.parse_value(b, pos, false) {
            Ok((o, _)) => Ok(o),
            Err(e) => Err(e),
        }
    }
}

/// Big-endian read of eight bytes starting at `p`.
fn read_be64(b: &[u8], p: usize) -> (r: u64)
    requires
        p + 8 <= b@.len(),
    ensures
        r == crate::wire::from_be64(
            b@[p as int],
            b@[p + 1],
            b@[p + 2],
            b@[p + 3],
            b@[p + 4],
            b@[p + 5],
            b@[p + 6],
            b@[p + 7],
        ),
{
    let mut r: u64 = b[p] as u64;
    r = r * 0x100 + (b[p + 1] as u64);
    r = r * 0x100 + (b[p + 2] as u64);
    r = r * 0x100 + (b[p + 3] as u64);
    r = r * 0x100 + (b[p + 4] as u64);
    r = r * 0x100 + (b[p + 5] as u64);
    r = r * 0x100 + (b[p + 6] as u64);
    r = r * 0x100 + (b[p + 7] as u64);
    r
}

} // verus!
