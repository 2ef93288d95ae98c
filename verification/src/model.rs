//! The mathematical model of the codec: a total specification of encoding
//! and decoding over [`Ov`] trees and byte sequences.  The executable
//! encoder and decoder are verified to return exactly what these functions
//! say.
use crate::error::Error;
use crate::object::{ov_eq, NsV, Ov};
use crate::wire::{arr_hdr, be32, be64, bin_hdr, byte_i8, enc_int, enc_uint, ext_hdr, from_be16, from_be32, from_be64, map_hdr, str_hdr};
use vstd::prelude::*;

verus! {

/// EXT type code of the intern table envelope and of intern references.
pub const INTERN_TABLE_EXT: i8 = 6;

/// EXT type code of a custom-typed payload.
pub const CUSTOM_EXT: i8 = 8;

/// The encoder's intern table: one already-encoded byte block and one
/// original value per entry, plus the address index for identity-mode
/// entries.
pub struct EncTab {
    /// Encoded byte block of each entry, in insertion order.
    pub blocks: Seq<Seq<u8>>,
    /// The value each entry was made from, used by equality lookups.
    pub origs: Seq<Ov>,
    /// Storage address of each identity-mode entry, mapped to its index.
    pub ids: Map<int, int>,
}

impl EncTab {
    pub open spec fn empty() -> EncTab {
        EncTab { blocks: Seq::empty(), origs: Seq::empty(), ids: Map::empty() }
    }
}

/// Index of the first entry structurally equal to `v`, or `-1`.
pub open spec fn find_eq(s: Seq<Ov>, v: Ov) -> int
    decreases s,
{
    if s.len() == 0 {
        -1
    } else if ov_eq(s[0], v) {
        0
    } else {
        let r = find_eq(s.drop_first(), v);
        if r < 0 {
            -1
        } else {
            r + 1
        }
    }
}

pub proof fn lemma_find_eq(s: Seq<Ov>, v: Ov)
    ensures
        find_eq(s, v) >= 0 ==> find_eq(s, v) < s.len() && ov_eq(s[find_eq(s, v)], v),
        find_eq(s, v) < 0 ==> forall|i: int| 0 <= i < s.len() ==> !ov_eq(s[i], v),
        find_eq(s, v) >= 0 ==> forall|i: int| 0 <= i < find_eq(s, v) ==> !ov_eq(s[i], v),
    decreases s,
{
    if s.len() > 0 {
        lemma_find_eq(s.drop_first(), v);
        if !ov_eq(s[0], v) {
            assert forall|i: int| 1 <= i < s.len() implies s.drop_first()[i - 1] == s[i] by {}
        }
    }
}

/// The encoder's first/second table lookup for an intern node holding
/// value `v` with mode `by_id` and address `a`.
pub open spec fn tab_lookup(t: EncTab, v: Ov, by_id: bool, a: int) -> Option<int> {
    if by_id {
        if t.ids.contains_key(a) {
            Some(t.ids[a])
        } else {
            None
        }
    } else {
        let f = find_eq(t.origs, v);
        if f >= 0 {
            Some(f)
        } else {
            None
        }
    }
}

/// The table after appending a fresh entry with block `vb` for value `v`.
pub open spec fn tab_insert(t: EncTab, vb: Seq<u8>, v: Ov, by_id: bool, a: int) -> EncTab {
    EncTab {
        blocks: t.blocks.push(vb),
        origs: t.origs.push(v),
        ids: if by_id {
            t.ids.insert(a, t.blocks.len() as int)
        } else {
            t.ids
        },
    }
}

/// The wire form of a reference to intern table entry `i`.
pub open spec fn ref_bytes(i: int) -> Seq<u8> {
    ext_hdr(enc_uint(i).len() as int, INTERN_TABLE_EXT) + enc_uint(i)
}

/// Encoding of a namespace discriminant: a str for a name, a uint for an
/// id.
pub open spec fn enc_ns(ns: NsV) -> Result<Seq<u8>, Error> {
    match ns {
        NsV::Name(s) => {
            let b = vstd::utf8::encode_utf8(s);
            if b.len() < 0x100000000 {
                Ok(str_hdr(b.len() as int) + b)
            } else {
                Err(Error::EncodeFailure)
            }
        },
        NsV::Id(v) => Ok(enc_uint(v as int)),
    }
}

/// The inner bytes of a custom-typed payload: namespace, type id, then
/// the data bytes behind a bin header.
pub open spec fn enc_custom_payload(ns: NsV, tid: u32, data: Seq<u8>) -> Result<Seq<u8>, Error> {
    match enc_ns(ns) {
        Err(e) => Err(e),
        Ok(nb) => {
            if data.len() < 0x100000000 {
                Ok(nb + enc_uint(tid as int) + bin_hdr(data.len() as int) + data)
            } else {
                Err(Error::EncodeFailure)
            }
        },
    }
}

/// The full EXT envelope of a custom-typed payload.
pub open spec fn enc_custom(ns: NsV, tid: u32, data: Seq<u8>) -> Result<Seq<u8>, Error> {
    match enc_custom_payload(ns, tid, data) {
        Err(e) => Err(e),
        Ok(payload) => if payload.len() < 0x100000000 {
            Ok(ext_hdr(payload.len() as int, CUSTOM_EXT) + payload)
        } else {
            Err(Error::EncodeFailure)
        },
    }
}

/// Encode one value against an intern table, returning the bytes emitted
/// in place of the value and the updated table.
///
/// An intern node is first looked up (by address in identity mode, by
/// structural equality otherwise); on a miss its value is encoded into a
/// fresh block, the table is consulted once more, and the block is
/// appended when still absent.  What is emitted in the main stream is
/// always a reference.
#[verifier::opaque]
pub open spec fn enc(o: Ov, t: EncTab) -> Result<(Seq<u8>, EncTab), Error>
    decreases o,
{
    match o {
        Ov::Nil => Ok((seq![0xc0u8], t)),
        Ov::Boolean(b) => Ok((if b { seq![0xc3u8] } else { seq![0xc2u8] }, t)),
        Ov::Integer(v) => if -0x8000000000000000 <= v < 0x10000000000000000 {
            Ok((enc_int(v), t))
        } else {
            Err(Error::IntegerOutOfRange)
        },
        Ov::F32(bits) => Ok((seq![0xcau8] + be32(bits as int), t)),
        Ov::F64(bits) => Ok((seq![0xcbu8] + be64(bits as int), t)),
        Ov::Text(s) => {
            let b = vstd::utf8::encode_utf8(s);
            if b.len() < 0x100000000 {
                Ok((str_hdr(b.len() as int) + b, t))
            } else {
                Err(Error::EncodeFailure)
            }
        },
        Ov::Binary(b) => if b.len() < 0x100000000 {
            Ok((bin_hdr(b.len() as int) + b, t))
        } else {
            Err(Error::EncodeFailure)
        },
        Ov::Array(elems) => if elems.len() < 0x100000000 {
            match enc_seq(elems, t) {
                Ok((bs, t2)) => Ok((arr_hdr(elems.len() as int) + bs, t2)),
                Err(e) => Err(e),
            }
        } else {
            Err(Error::EncodeFailure)
        },
        Ov::Dict(pairs) => if pairs.len() < 0x100000000 {
            match enc_pairs(pairs, t) {
                Ok((bs, t2)) => Ok((map_hdr(pairs.len() as int) + bs, t2)),
                Err(e) => Err(e),
            }
        } else {
            Err(Error::EncodeFailure)
        },
        Ov::Ext(code, data) => if data.len() < 0x100000000 {
            Ok((ext_hdr(data.len() as int, code) + data, t))
        } else {
            Err(Error::EncodeFailure)
        },
        Ov::Custom(ns, tid, data) => match enc_custom(ns, tid, data) {
            Ok(b) => Ok((b, t)),
            Err(e) => Err(e),
        },
        Ov::Intern(v, by_id, a) => {
            match tab_lookup(t, *v, by_id, a) {
                Some(i) => Ok((ref_bytes(i), t)),
                None => match enc(*v, t) {
                    Err(e) => Err(e),
                    Ok((vb, t1)) => match tab_lookup(t1, *v, by_id, a) {
                        Some(i) => Ok((ref_bytes(i), t1)),
                        None => if t1.blocks.len() >= 0x10000000000000000 {
                            Err(Error::EncodeFailure)
                        } else {
                            Ok((ref_bytes(t1.blocks.len() as int), tab_insert(t1, vb, *v, by_id, a)))
                        },
                    },
                },
            }
        },
    }
}


/// Defining equations of [`enc`], one per constructor, for use where the
/// full definition would be too heavy to unfold.
pub proof fn lemma_enc_nil(t: EncTab)
    ensures
        enc(Ov::Nil, t) == Ok::<_, Error>((seq![0xc0u8], t)),
{
    reveal(crate::model::enc);
}

pub proof fn lemma_enc_bool(b: bool, t: EncTab)
    ensures
        enc(Ov::Boolean(b), t) == Ok::<_, Error>((if b { seq![0xc3u8] } else { seq![0xc2u8] }, t)),
{
    reveal(crate::model::enc);
}

pub proof fn lemma_enc_integer(v: int, t: EncTab)
    ensures
        enc(Ov::Integer(v), t) == (if -0x8000000000000000 <= v < 0x10000000000000000 {
            Ok::<_, Error>((enc_int(v), t))
        } else {
            Err(Error::IntegerOutOfRange)
        }),
{
    reveal(crate::model::enc);
}

pub proof fn lemma_enc_f32(bits: u32, t: EncTab)
    ensures
        enc(Ov::F32(bits), t) == Ok::<_, Error>((seq![0xcau8] + be32(bits as int), t)),
{
    reveal(crate::model::enc);
}

pub proof fn lemma_enc_f64(bits: u64, t: EncTab)
    ensures
        enc(Ov::F64(bits), t) == Ok::<_, Error>((seq![0xcbu8] + be64(bits as int), t)),
{
    reveal(crate::model::enc);
}

pub proof fn lemma_enc_text(s: Seq<char>, t: EncTab)
    ensures
        enc(Ov::Text(s), t) == (if vstd::utf8::encode_utf8(s).len() < 0x100000000 {
            Ok::<_, Error>((
                str_hdr(vstd::utf8::encode_utf8(s).len() as int) + vstd::utf8::encode_utf8(s),
                t,
            ))
        } else {
            Err(Error::EncodeFailure)
        }),
{
    reveal(crate::model::enc);
}

pub proof fn lemma_enc_binary(b: Seq<u8>, t: EncTab)
    ensures
        enc(Ov::Binary(b), t) == (if b.len() < 0x100000000 {
            Ok::<_, Error>((bin_hdr(b.len() as int) + b, t))
        } else {
            Err(Error::EncodeFailure)
        }),
{
    reveal(crate::model::enc);
}

pub proof fn lemma_enc_array(elems: Seq<Ov>, t: EncTab)
    ensures
        enc(Ov::Array(elems), t) == (if elems.len() < 0x100000000 {
            match enc_seq(elems, t) {
                Ok((bs, t2)) => Ok::<_, Error>((arr_hdr(elems.len() as int) + bs, t2)),
                Err(e) => Err(e),
            }
        } else {
            Err(Error::EncodeFailure)
        }),
{
    reveal(crate::model::enc);
}

pub proof fn lemma_enc_dict(pairs: Seq<(Ov, Ov)>, t: EncTab)
    ensures
        enc(Ov::Dict(pairs), t) == (if pairs.len() < 0x100000000 {
            match enc_pairs(pairs, t) {
                Ok((bs, t2)) => Ok::<_, Error>((map_hdr(pairs.len() as int) + bs, t2)),
                Err(e) => Err(e),
            }
        } else {
            Err(Error::EncodeFailure)
        }),
{
    reveal(crate::model::enc);
}

pub proof fn lemma_enc_ext(code: i8, data: Seq<u8>, t: EncTab)
    ensures
        enc(Ov::Ext(code, data), t) == (if data.len() < 0x100000000 {
            Ok::<_, Error>((ext_hdr(data.len() as int, code) + data, t))
        } else {
            Err(Error::EncodeFailure)
        }),
{
    reveal(crate::model::enc);
}

pub proof fn lemma_enc_custom_node(ns: NsV, tid: u32, data: Seq<u8>, t: EncTab)
    ensures
        enc(Ov::Custom(ns, tid, data), t) == (match enc_custom(ns, tid, data) {
            Ok(b) => Ok::<_, Error>((b, t)),
            Err(e) => Err(e),
        }),
{
    reveal(crate::model::enc);
}

pub proof fn lemma_enc_intern_node(v: Ov, by_id: bool, a: int, t: EncTab)
    ensures
        enc(Ov::Intern(Box::new(v), by_id, a), t) == (match tab_lookup(t, v, by_id, a) {
            Some(i) => Ok::<_, Error>((ref_bytes(i), t)),
            None => match enc(v, t) {
                Err(e) => Err(e),
                Ok((vb, t1)) => match tab_lookup(t1, v, by_id, a) {
                    Some(i) => Ok::<_, Error>((ref_bytes(i), t1)),
                    None => if t1.blocks.len() >= 0x10000000000000000 {
                        Err(Error::EncodeFailure)
                    } else {
                        Ok::<_, Error>((
                            ref_bytes(t1.blocks.len() as int),
                            tab_insert(t1, vb, v, by_id, a),
                        ))
                    },
                },
            },
        }),
{
    reveal(crate::model::enc);
}

/// Encode the elements of an array in order, threading the table.
pub open spec fn enc_seq(s: Seq<Ov>, t: EncTab) -> Result<(Seq<u8>, EncTab), Error>
    decreases s,
{
    if s.len() == 0 {
        Ok((Seq::empty(), t))
    } else {
        match enc(s[0], t) {
            Err(e) => Err(e),
            Ok((b0, t1)) => match enc_seq(s.drop_first(), t1) {
                Err(e) => Err(e),
                Ok((bs, t2)) => Ok((b0 + bs, t2)),
            },
        }
    }
}

/// Encode the pairs of a map in order, key then value, threading the
/// table.
pub open spec fn enc_pairs(s: Seq<(Ov, Ov)>, t: EncTab) -> Result<(Seq<u8>, EncTab), Error>
    decreases s,
{
    if s.len() == 0 {
        Ok((Seq::empty(), t))
    } else {
        match enc(s[0].0, t) {
            Err(e) => Err(e),
            Ok((bk, t1)) => match enc(s[0].1, t1) {
                Err(e) => Err(e),
                Ok((bv, t2)) => match enc_pairs(s.drop_first(), t2) {
                    Err(e) => Err(e),
                    Ok((bs, t3)) => Ok((bk + bv + bs, t3)),
                },
            },
        }
    }
}

/// Splitting an element-sequence encoding at any index.
pub proof fn lemma_enc_seq_split(s: Seq<Ov>, t0: EncTab, i: int)
    requires
        0 <= i <= s.len(),
    ensures
        enc_seq(s, t0) == (match enc_seq(s.take(i), t0) {
            Err(e) => Err(e),
            Ok((b1, t1)) => match enc_seq(s.skip(i), t1) {
                Err(e) => Err(e),
                Ok((b2, t2)) => Ok((b1 + b2, t2)),
            },
        }),
    decreases i,
{
    reveal(crate::model::enc);
    if i == 0 {
        assert(s.take(0) =~= Seq::<Ov>::empty());
        assert(s.skip(0) =~= s);
        match enc_seq(s, t0) {
            Ok((b, t)) => {
                assert(Seq::<u8>::empty() + b =~= b);
            },
            Err(_) => {},
        }
    } else {
        assert(s.len() > 0);
        assert(s.take(i)[0] == s[0]);
        assert(s.take(i).len() > 0);
        assert(s.take(i).drop_first() =~= s.drop_first().take(i - 1));
        assert(s.skip(i) =~= s.drop_first().skip(i - 1));
        match enc(s[0], t0) {
            Err(_) => {},
            Ok((b0, t1)) => {
                lemma_enc_seq_split(s.drop_first(), t1, i - 1);
                match enc_seq(s.drop_first().take(i - 1), t1) {
                    Err(_) => {},
                    Ok((b1, t1b)) => {
                        match enc_seq(s.drop_first().skip(i - 1), t1b) {
                            Err(_) => {},
                            Ok((b2, t2)) => {
                                assert(b0 + (b1 + b2) =~= (b0 + b1) + b2);
                            },
                        }
                    },
                }
            },
        }
    }
}

/// Splitting a pair-sequence encoding at any index.
pub proof fn lemma_enc_pairs_split(s: Seq<(Ov, Ov)>, t0: EncTab, i: int)
    requires
        0 <= i <= s.len(),
    ensures
        enc_pairs(s, t0) == (match enc_pairs(s.take(i), t0) {
            Err(e) => Err(e),
            Ok((b1, t1)) => match enc_pairs(s.skip(i), t1) {
                Err(e) => Err(e),
                Ok((b2, t2)) => Ok((b1 + b2, t2)),
            },
        }),
    decreases i,
{
    reveal(crate::model::enc);
    if i == 0 {
        assert(s.take(0) =~= Seq::<(Ov, Ov)>::empty());
        assert(s.skip(0) =~= s);
        match enc_pairs(s, t0) {
            Ok((b, t)) => {
                assert(Seq::<u8>::empty() + b =~= b);
            },
            Err(_) => {},
        }
    } else {
        assert(s.len() > 0);
        assert(s.take(i)[0] == s[0]);
        assert(s.take(i).len() > 0);
        assert(s.take(i).drop_first() =~= s.drop_first().take(i - 1));
        assert(s.skip(i) =~= s.drop_first().skip(i - 1));
        match enc(s[0].0, t0) {
            Err(_) => {},
            Ok((bk, tk)) => match enc(s[0].1, tk) {
                Err(_) => {},
                Ok((bv, tv)) => {
                    lemma_enc_pairs_split(s.drop_first(), tv, i - 1);
                    match enc_pairs(s.drop_first().take(i - 1), tv) {
                        Err(_) => {},
                        Ok((b1, t1b)) => {
                            match enc_pairs(s.drop_first().skip(i - 1), t1b) {
                                Err(_) => {},
                                Ok((b2, t2)) => {
                                    assert((bk + bv) + (b1 + b2) =~= ((bk + bv) + b1) + b2);
                                },
                            }
                        },
                    }
                },
            },
        }
    }
}

/// Defining equations of the sequence encoders.
pub proof fn lemma_enc_seq_nil(t: EncTab)
    ensures
        enc_seq(Seq::empty(), t) == Ok::<(Seq<u8>, EncTab), Error>((Seq::empty(), t)),
{
    reveal(crate::model::enc);
}

pub proof fn lemma_enc_seq_cons(s: Seq<Ov>, t: EncTab)
    requires
        s.len() > 0,
    ensures
        enc_seq(s, t) == (match enc(s[0], t) {
            Err(e) => Err(e),
            Ok((b0, t1)) => match enc_seq(s.drop_first(), t1) {
                Err(e) => Err(e),
                Ok((bs, t2)) => Ok((b0 + bs, t2)),
            },
        }),
{
    reveal(crate::model::enc);
}

pub proof fn lemma_enc_pairs_nil(t: EncTab)
    ensures
        enc_pairs(Seq::empty(), t) == Ok::<(Seq<u8>, EncTab), Error>((Seq::empty(), t)),
{
    reveal(crate::model::enc);
}

pub proof fn lemma_enc_pairs_cons(s: Seq<(Ov, Ov)>, t: EncTab)
    requires
        s.len() > 0,
    ensures
        enc_pairs(s, t) == (match enc(s[0].0, t) {
            Err(e) => Err(e),
            Ok((bk, tk)) => match enc(s[0].1, tk) {
                Err(e) => Err(e),
                Ok((bv, tv)) => match enc_pairs(s.drop_first(), tv) {
                    Err(e) => Err(e),
                    Ok((bs, t2)) => Ok((bk + bv + bs, t2)),
                },
            },
        }),
{
    reveal(crate::model::enc);
}

/// Concatenation of the table's encoded entry blocks.
pub open spec fn table_bytes(blocks: Seq<Seq<u8>>) -> Seq<u8>
    decreases blocks,
{
    if blocks.len() == 0 {
        Seq::empty()
    } else {
        blocks[0] + table_bytes(blocks.drop_first())
    }
}

pub proof fn lemma_table_bytes_take(s: Seq<Seq<u8>>, i: int)
    requires
        0 <= i < s.len(),
    ensures
        table_bytes(s.take(i + 1)) == table_bytes(s.take(i)) + s[i],
    decreases s,
{
    if i == 0 {
        assert(s.take(1).drop_first() =~= Seq::<Seq<u8>>::empty());
        assert(s.take(1)[0] == s[0]);
        assert(table_bytes(s.take(1)) == s[0] + table_bytes(Seq::<Seq<u8>>::empty()));
        assert(table_bytes(s.take(0)) =~= Seq::<u8>::empty());
        assert(table_bytes(s.take(1)) =~= table_bytes(s.take(0)) + s[0]);
    } else {
        lemma_table_bytes_take(s.drop_first(), i - 1);
        assert(s.take(i + 1).drop_first() =~= s.drop_first().take(i));
        assert(s.take(i).drop_first() =~= s.drop_first().take(i - 1));
        assert(s.drop_first()[i - 1] == s[i]);
        assert(table_bytes(s.take(i + 1)) == s[0] + table_bytes(s.drop_first().take(i)));
        assert(table_bytes(s.take(i)) == s[0] + table_bytes(s.drop_first().take(i - 1)));
        assert(table_bytes(s.take(i + 1)) =~= table_bytes(s.take(i)) + s[i]);
    }
}

/// A whole `dumps`: encode the value, and when the intern table is not
/// empty wrap table and main bytes together in one intern-table EXT.
pub open spec fn enc_top(o: Ov) -> Result<Seq<u8>, Error> {
    match enc(o, EncTab::empty()) {
        Err(e) => Err(e),
        Ok((mb, t)) => if t.blocks.len() == 0 {
            Ok(mb)
        } else if t.blocks.len() < 0x100000000 {
            let payload = arr_hdr(t.blocks.len() as int) + table_bytes(t.blocks) + mb;
            if payload.len() < 0x100000000 {
                Ok(ext_hdr(payload.len() as int, INTERN_TABLE_EXT) + payload)
            } else {
                Err(Error::EncodeFailure)
            }
        } else {
            Err(Error::EncodeFailure)
        },
    }
}

/// What the decoder does with an EXT block.
///
/// - `Plain`: outside any intern table; EXT 6 opens a table, EXT 8 is a
///   custom type, everything else passes through.
/// - `Table`: inside a table, holding the entries decoded so far; EXT 6 is
///   a back-reference.
/// - `Raw`: a bare MessagePack read (used for the slots inside EXT
///   payloads); every EXT passes through.
pub enum DecMode {
    Plain,
    Table(Seq<Ov>),
    Raw,
}

/// `v` clamped into `usize`, for error payloads.
pub open spec fn usize_clamp(v: int) -> usize {
    if v <= usize::MAX as int {
        v as usize
    } else {
        usize::MAX
    }
}

/// The signed reading of a 16-bit raw value.
pub open spec fn sgn16(raw: int) -> int {
    if raw >= 0x8000 {
        raw - 0x10000
    } else {
        raw
    }
}

pub open spec fn sgn32(raw: int) -> int {
    if raw >= 0x80000000 {
        raw - 0x100000000
    } else {
        raw
    }
}

pub open spec fn sgn64(raw: int) -> int {
    if raw >= 0x8000000000000000 {
        raw - 0x10000000000000000
    } else {
        raw
    }
}

/// Parse one MessagePack value at position `p`.  On success the result
/// carries the decoded value and the position just past it.
#[verifier::opaque]
pub open spec fn dv(b: Seq<u8>, p: int, m: DecMode) -> Result<(Ov, int), Error>
    decreases b.len() - p, 0int,
{
    if p < 0 || p >= b.len() {
        Err(Error::DecodeFailure)
    } else {
        let c = b[p] as int;
        if c < 0x80 {
            Ok((Ov::Integer(c), p + 1))
        } else if c < 0x90 {
            dv_pairs(b, p + 1, c - 0x80, m)
        } else if c < 0xa0 {
            dv_seq(b, p + 1, c - 0x90, m)
        } else if c < 0xc0 {
            dv_text(b, p + 1, c - 0xa0)
        } else if c == 0xc0 {
            Ok((Ov::Nil, p + 1))
        } else if c == 0xc1 {
            Err(Error::DecodeFailure)
        } else if c == 0xc2 {
            Ok((Ov::Boolean(false), p + 1))
        } else if c == 0xc3 {
            Ok((Ov::Boolean(true), p + 1))
        } else if c == 0xc4 {
            if p + 2 <= b.len() {
                dv_bin(b, p + 2, b[p + 1] as int)
            } else {
                Err(Error::DecodeFailure)
            }
        } else if c == 0xc5 {
            if p + 3 <= b.len() {
                dv_bin(b, p + 3, from_be16(b[p + 1], b[p + 2]))
            } else {
                Err(Error::DecodeFailure)
            }
        } else if c == 0xc6 {
            if p + 5 <= b.len() {
                dv_bin(b, p + 5, from_be32(b[p + 1], b[p + 2], b[p + 3], b[p + 4]))
            } else {
                Err(Error::DecodeFailure)
            }
        } else if c == 0xc7 {
            if p + 3 <= b.len() {
                dv_ext(b, p + 3, b[p + 1] as int, byte_i8(b[p + 2]), m)
            } else {
                Err(Error::DecodeFailure)
            }
        } else if c == 0xc8 {
            if p + 4 <= b.len() {
                dv_ext(b, p + 4, from_be16(b[p + 1], b[p + 2]), byte_i8(b[p + 3]), m)
            } else {
                Err(Error::DecodeFailure)
            }
        } else if c == 0xc9 {
            if p + 6 <= b.len() {
                dv_ext(b, p + 6, from_be32(b[p + 1], b[p + 2], b[p + 3], b[p + 4]), byte_i8(b[p + 5]), m)
            } else {
                Err(Error::DecodeFailure)
            }
        } else if c == 0xca {
            if p + 5 <= b.len() {
                Ok((Ov::F32(from_be32(b[p + 1], b[p + 2], b[p + 3], b[p + 4]) as u32), p + 5))
            } else {
                Err(Error::DecodeFailure)
            }
        } else if c == 0xcb {
            if p + 9 <= b.len() {
                Ok((
                    Ov::F64(
                        from_be64(
                            b[p + 1],
                            b[p + 2],
                            b[p + 3],
                            b[p + 4],
                            b[p + 5],
                            b[p + 6],
                            b[p + 7],
                            b[p + 8],
                        ) as u64,
                    ),
                    p + 9,
                ))
            } else {
                Err(Error::DecodeFailure)
            }
        } else if c == 0xcc {
            if p + 2 <= b.len() {
                Ok((Ov::Integer(b[p + 1] as int), p + 2))
            } else {
                Err(Error::DecodeFailure)
            }
        } else if c == 0xcd {
            if p + 3 <= b.len() {
                Ok((Ov::Integer(from_be16(b[p + 1], b[p + 2])), p + 3))
            } else {
                Err(Error::DecodeFailure)
            }
        } else if c == 0xce {
            if p + 5 <= b.len() {
                Ok((Ov::Integer(from_be32(b[p + 1], b[p + 2], b[p + 3], b[p + 4])), p + 5))
            } else {
                Err(Error::DecodeFailure)
            }
        } else if c == 0xcf {
            if p + 9 <= b.len() {
                Ok((
                    Ov::Integer(
                        from_be64(
                            b[p + 1],
                            b[p + 2],
                            b[p + 3],
                            b[p + 4],
                            b[p + 5],
                            b[p + 6],
                            b[p + 7],
                            b[p + 8],
                        ),
                    ),
                    p + 9,
                ))
            } else {
                Err(Error::DecodeFailure)
            }
        } else if c == 0xd0 {
            if p + 2 <= b.len() {
                Ok((Ov::Integer(byte_i8(b[p + 1]) as int), p + 2))
            } else {
                Err(Error::DecodeFailure)
            }
        } else if c == 0xd1 {
            if p + 3 <= b.len() {
                Ok((Ov::Integer(sgn16(from_be16(b[p + 1], b[p + 2]))), p + 3))
            } else {
                Err(Error::DecodeFailure)
            }
        } else if c == 0xd2 {
            if p + 5 <= b.len() {
                Ok((Ov::Integer(sgn32(from_be32(b[p + 1], b[p + 2], b[p + 3], b[p + 4]))), p + 5))
            } else {
                Err(Error::DecodeFailure)
            }
        } else if c == 0xd3 {
            if p + 9 <= b.len() {
                Ok((
                    Ov::Integer(
                        sgn64(
                            from_be64(
                                b[p + 1],
                                b[p + 2],
                                b[p + 3],
                                b[p + 4],
                                b[p + 5],
                                b[p + 6],
                                b[p + 7],
                                b[p + 8],
                            ),
                        ),
                    ),
                    p + 9,
                ))
            } else {
                Err(Error::DecodeFailure)
            }
        } else if c == 0xd4 || c == 0xd5 || c == 0xd6 || c == 0xd7 || c == 0xd8 {
            let n: int = if c == 0xd4 {
                1
            } else if c == 0xd5 {
                2
            } else if c == 0xd6 {
                4
            } else if c == 0xd7 {
                8
            } else {
                16
            };
            if p + 2 <= b.len() {
                dv_ext(b, p + 2, n, byte_i8(b[p + 1]), m)
            } else {
                Err(Error::DecodeFailure)
            }
        } else if c == 0xd9 {
            if p + 2 <= b.len() {
                dv_text(b, p + 2, b[p + 1] as int)
            } else {
                Err(Error::DecodeFailure)
            }
        } else if c == 0xda {
            if p + 3 <= b.len() {
                dv_text(b, p + 3, from_be16(b[p + 1], b[p + 2]))
            } else {
                Err(Error::DecodeFailure)
            }
        } else if c == 0xdb {
            if p + 5 <= b.len() {
                dv_text(b, p + 5, from_be32(b[p + 1], b[p + 2], b[p + 3], b[p + 4]))
            } else {
                Err(Error::DecodeFailure)
            }
        } else if c == 0xdc {
            if p + 3 <= b.len() {
                dv_seq(b, p + 3, from_be16(b[p + 1], b[p + 2]), m)
            } else {
                Err(Error::DecodeFailure)
            }
        } else if c == 0xdd {
            if p + 5 <= b.len() {
                dv_seq(b, p + 5, from_be32(b[p + 1], b[p + 2], b[p + 3], b[p + 4]), m)
            } else {
                Err(Error::DecodeFailure)
            }
        } else if c == 0xde {
            if p + 3 <= b.len() {
                dv_pairs(b, p + 3, from_be16(b[p + 1], b[p + 2]), m)
            } else {
                Err(Error::DecodeFailure)
            }
        } else if c == 0xdf {
            if p + 5 <= b.len() {
                dv_pairs(b, p + 5, from_be32(b[p + 1], b[p + 2], b[p + 3], b[p + 4]), m)
            } else {
                Err(Error::DecodeFailure)
            }
        } else {
            Ok((Ov::Integer(c - 0x100), p + 1))
        }
    }
}


/// Defining equations of [`dv`], grouped by marker class, for use where
/// the full definition would be too heavy to unfold.
pub proof fn lemma_dv_bounds(b: Seq<u8>, p: int, m: DecMode)
    requires
        p < 0 || p >= b.len(),
    ensures
        dv(b, p, m) == Err::<(Ov, int), Error>(Error::DecodeFailure),
{
    reveal(crate::model::dv);
}

pub proof fn lemma_dv_fix(b: Seq<u8>, p: int, m: DecMode)
    requires
        0 <= p < b.len(),
        b[p] < 0x80 || b[p] >= 0xc0,
    ensures
        b[p] < 0x80 ==> dv(b, p, m) == Ok::<(Ov, int), Error>((Ov::Integer(b[p] as int), p + 1)),
        b[p] >= 0xe0 ==> dv(b, p, m) == Ok::<(Ov, int), Error>((
            Ov::Integer(b[p] - 0x100),
            p + 1,
        )),
        b[p] == 0xc0 ==> dv(b, p, m) == Ok::<(Ov, int), Error>((Ov::Nil, p + 1)),
        b[p] == 0xc1 ==> dv(b, p, m) == Err::<(Ov, int), Error>(Error::DecodeFailure),
        b[p] == 0xc2 ==> dv(b, p, m) == Ok::<(Ov, int), Error>((Ov::Boolean(false), p + 1)),
        b[p] == 0xc3 ==> dv(b, p, m) == Ok::<(Ov, int), Error>((Ov::Boolean(true), p + 1)),
{
    reveal(crate::model::dv);
}

pub proof fn lemma_dv_fix_compound(b: Seq<u8>, p: int, m: DecMode)
    requires
        0 <= p < b.len(),
        0x80 <= b[p] < 0xc0,
    ensures
        0x80 <= b[p] < 0x90 ==> dv(b, p, m) == dv_pairs(b, p + 1, b[p] - 0x80, m),
        0x90 <= b[p] < 0xa0 ==> dv(b, p, m) == dv_seq(b, p + 1, b[p] - 0x90, m),
        0xa0 <= b[p] < 0xc0 ==> dv(b, p, m) == dv_text(b, p + 1, b[p] - 0xa0),
{
    reveal(crate::model::dv);
}

pub proof fn lemma_dv_bin(b: Seq<u8>, p: int, m: DecMode)
    requires
        0 <= p < b.len(),
        b[p] == 0xc4 || b[p] == 0xc5 || b[p] == 0xc6,
    ensures
        b[p] == 0xc4 ==> dv(b, p, m) == (if p + 2 <= b.len() {
            dv_bin(b, p + 2, b[p + 1] as int)
        } else {
            Err(Error::DecodeFailure)
        }),
        b[p] == 0xc5 ==> dv(b, p, m) == (if p + 3 <= b.len() {
            dv_bin(b, p + 3, from_be16(b[p + 1], b[p + 2]))
        } else {
            Err(Error::DecodeFailure)
        }),
        b[p] == 0xc6 ==> dv(b, p, m) == (if p + 5 <= b.len() {
            dv_bin(b, p + 5, from_be32(b[p + 1], b[p + 2], b[p + 3], b[p + 4]))
        } else {
            Err(Error::DecodeFailure)
        }),
{
    reveal(crate::model::dv);
}

pub proof fn lemma_dv_str(b: Seq<u8>, p: int, m: DecMode)
    requires
        0 <= p < b.len(),
        b[p] == 0xd9 || b[p] == 0xda || b[p] == 0xdb,
    ensures
        b[p] == 0xd9 ==> dv(b, p, m) == (if p + 2 <= b.len() {
            dv_text(b, p + 2, b[p + 1] as int)
        } else {
            Err(Error::DecodeFailure)
        }),
        b[p] == 0xda ==> dv(b, p, m) == (if p + 3 <= b.len() {
            dv_text(b, p + 3, from_be16(b[p + 1], b[p + 2]))
        } else {
            Err(Error::DecodeFailure)
        }),
        b[p] == 0xdb ==> dv(b, p, m) == (if p + 5 <= b.len() {
            dv_text(b, p + 5, from_be32(b[p + 1], b[p + 2], b[p + 3], b[p + 4]))
        } else {
            Err(Error::DecodeFailure)
        }),
{
    reveal(crate::model::dv);
}

pub proof fn lemma_dv_arr_map(b: Seq<u8>, p: int, m: DecMode)
    requires
        0 <= p < b.len(),
        b[p] == 0xdc || b[p] == 0xdd || b[p] == 0xde || b[p] == 0xdf,
    ensures
        b[p] == 0xdc ==> dv(b, p, m) == (if p + 3 <= b.len() {
            dv_seq(b, p + 3, from_be16(b[p + 1], b[p + 2]), m)
        } else {
            Err(Error::DecodeFailure)
        }),
        b[p] == 0xdd ==> dv(b, p, m) == (if p + 5 <= b.len() {
            dv_seq(b, p + 5, from_be32(b[p + 1], b[p + 2], b[p + 3], b[p + 4]), m)
        } else {
            Err(Error::DecodeFailure)
        }),
        b[p] == 0xde ==> dv(b, p, m) == (if p + 3 <= b.len() {
            dv_pairs(b, p + 3, from_be16(b[p + 1], b[p + 2]), m)
        } else {
            Err(Error::DecodeFailure)
        }),
        b[p] == 0xdf ==> dv(b, p, m) == (if p + 5 <= b.len() {
            dv_pairs(b, p + 5, from_be32(b[p + 1], b[p + 2], b[p + 3], b[p + 4]), m)
        } else {
            Err(Error::DecodeFailure)
        }),
{
    reveal(crate::model::dv);
}

pub proof fn lemma_dv_float(b: Seq<u8>, p: int, m: DecMode)
    requires
        0 <= p < b.len(),
        b[p] == 0xca || b[p] == 0xcb,
    ensures
        b[p] == 0xca ==> dv(b, p, m) == (if p + 5 <= b.len() {
            Ok::<(Ov, int), Error>((
                Ov::F32(from_be32(b[p + 1], b[p + 2], b[p + 3], b[p + 4]) as u32),
                p + 5,
            ))
        } else {
            Err(Error::DecodeFailure)
        }),
        b[p] == 0xcb ==> dv(b, p, m) == (if p + 9 <= b.len() {
            Ok::<(Ov, int), Error>((
                Ov::F64(
                    from_be64(
                        b[p + 1],
                        b[p + 2],
                        b[p + 3],
                        b[p + 4],
                        b[p + 5],
                        b[p + 6],
                        b[p + 7],
                        b[p + 8],
                    ) as u64,
                ),
                p + 9,
            ))
        } else {
            Err(Error::DecodeFailure)
        }),
{
    reveal(crate::model::dv);
}

pub proof fn lemma_dv_uint(b: Seq<u8>, p: int, m: DecMode)
    requires
        0 <= p < b.len(),
        0xcc <= b[p] <= 0xcf,
    ensures
        b[p] == 0xcc ==> dv(b, p, m) == (if p + 2 <= b.len() {
            Ok::<(Ov, int), Error>((Ov::Integer(b[p + 1] as int), p + 2))
        } else {
            Err(Error::DecodeFailure)
        }),
        b[p] == 0xcd ==> dv(b, p, m) == (if p + 3 <= b.len() {
            Ok::<(Ov, int), Error>((Ov::Integer(from_be16(b[p + 1], b[p + 2])), p + 3))
        } else {
            Err(Error::DecodeFailure)
        }),
        b[p] == 0xce ==> dv(b, p, m) == (if p + 5 <= b.len() {
            Ok::<(Ov, int), Error>((
                Ov::Integer(from_be32(b[p + 1], b[p + 2], b[p + 3], b[p + 4])),
                p + 5,
            ))
        } else {
            Err(Error::DecodeFailure)
        }),
        b[p] == 0xcf ==> dv(b, p, m) == (if p + 9 <= b.len() {
            Ok::<(Ov, int), Error>((
                Ov::Integer(
                    from_be64(
                        b[p + 1],
                        b[p + 2],
                        b[p + 3],
                        b[p + 4],
                        b[p + 5],
                        b[p + 6],
                        b[p + 7],
                        b[p + 8],
                    ),
                ),
                p + 9,
            ))
        } else {
            Err(Error::DecodeFailure)
        }),
{
    reveal(crate::model::dv);
}

pub proof fn lemma_dv_sint(b: Seq<u8>, p: int, m: DecMode)
    requires
        0 <= p < b.len(),
        0xd0 <= b[p] <= 0xd3,
    ensures
        b[p] == 0xd0 ==> dv(b, p, m) == (if p + 2 <= b.len() {
            Ok::<(Ov, int), Error>((Ov::Integer(byte_i8(b[p + 1]) as int), p + 2))
        } else {
            Err(Error::DecodeFailure)
        }),
        b[p] == 0xd1 ==> dv(b, p, m) == (if p + 3 <= b.len() {
            Ok::<(Ov, int), Error>((Ov::Integer(sgn16(from_be16(b[p + 1], b[p + 2]))), p + 3))
        } else {
            Err(Error::DecodeFailure)
        }),
        b[p] == 0xd2 ==> dv(b, p, m) == (if p + 5 <= b.len() {
            Ok::<(Ov, int), Error>((
                Ov::Integer(sgn32(from_be32(b[p + 1], b[p + 2], b[p + 3], b[p + 4]))),
                p + 5,
            ))
        } else {
            Err(Error::DecodeFailure)
        }),
        b[p] == 0xd3 ==> dv(b, p, m) == (if p + 9 <= b.len() {
            Ok::<(Ov, int), Error>((
                Ov::Integer(
                    sgn64(
                        from_be64(
                            b[p + 1],
                            b[p + 2],
                            b[p + 3],
                            b[p + 4],
                            b[p + 5],
                            b[p + 6],
                            b[p + 7],
                            b[p + 8],
                        ),
                    ),
                ),
                p + 9,
            ))
        } else {
            Err(Error::DecodeFailure)
        }),
{
    reveal(crate::model::dv);
}

pub proof fn lemma_dv_ext_markers(b: Seq<u8>, p: int, m: DecMode)
    requires
        0 <= p < b.len(),
        b[p] == 0xc7 || b[p] == 0xc8 || b[p] == 0xc9 || (0xd4 <= b[p] <= 0xd8),
    ensures
        b[p] == 0xc7 ==> dv(b, p, m) == (if p + 3 <= b.len() {
            dv_ext(b, p + 3, b[p + 1] as int, byte_i8(b[p + 2]), m)
        } else {
            Err(Error::DecodeFailure)
        }),
        b[p] == 0xc8 ==> dv(b, p, m) == (if p + 4 <= b.len() {
            dv_ext(b, p + 4, from_be16(b[p + 1], b[p + 2]), byte_i8(b[p + 3]), m)
        } else {
            Err(Error::DecodeFailure)
        }),
        b[p] == 0xc9 ==> dv(b, p, m) == (if p + 6 <= b.len() {
            dv_ext(b, p + 6, from_be32(b[p + 1], b[p + 2], b[p + 3], b[p + 4]), byte_i8(b[p + 5]), m)
        } else {
            Err(Error::DecodeFailure)
        }),
        0xd4 <= b[p] <= 0xd8 ==> dv(b, p, m) == (if p + 2 <= b.len() {
            dv_ext(
                b,
                p + 2,
                if b[p] == 0xd4 {
                    1int
                } else if b[p] == 0xd5 {
                    2int
                } else if b[p] == 0xd6 {
                    4int
                } else if b[p] == 0xd7 {
                    8int
                } else {
                    16int
                },
                byte_i8(b[p + 1]),
                m,
            )
        } else {
            Err(Error::DecodeFailure)
        }),
{
    reveal(crate::model::dv);
}

/// Take `n` UTF-8 bytes starting at `p` as a text value.
pub open spec fn dv_text(b: Seq<u8>, p: int, n: int) -> Result<(Ov, int), Error> {
    if p + n <= b.len() {
        let bytes = b.subrange(p, p + n);
        if vstd::utf8::valid_utf8(bytes) {
            Ok((Ov::Text(vstd::utf8::decode_utf8(bytes)), p + n))
        } else {
            Err(Error::InvalidUtf8)
        }
    } else {
        Err(Error::DecodeFailure)
    }
}

/// Take `n` raw bytes starting at `p` as a binary value.
pub open spec fn dv_bin(b: Seq<u8>, p: int, n: int) -> Result<(Ov, int), Error> {
    if p + n <= b.len() {
        Ok((Ov::Binary(b.subrange(p, p + n)), p + n))
    } else {
        Err(Error::DecodeFailure)
    }
}

/// Parse `n` consecutive values into a sequence.
pub open spec fn dv_seq(b: Seq<u8>, p: int, n: int, m: DecMode) -> Result<(Ov, int), Error>
    decreases b.len() - p, 1 + n,
{
    if p < 0 || p > b.len() || n < 0 {
        Err(Error::DecodeFailure)
    } else {
        match dv_elems(b, p, n, m) {
            Ok((vs, p2)) => Ok((Ov::Array(vs), p2)),
            Err(e) => Err(e),
        }
    }
}

pub open spec fn dv_elems(b: Seq<u8>, p: int, n: int, m: DecMode) -> Result<(Seq<Ov>, int), Error>
    decreases b.len() - p, n,
{
    if n <= 0 {
        Ok((Seq::empty(), p))
    } else if p < 0 || p > b.len() {
        Err(Error::DecodeFailure)
    } else {
        match dv(b, p, m) {
            Err(e) => Err(e),
            Ok((v, p2)) => if p2 <= p || p2 > b.len() {
                Err(Error::DecodeFailure)
            } else {
                match dv_elems(b, p2, n - 1, m) {
                    Err(e) => Err(e),
                    Ok((vs, p3)) => Ok((seq![v] + vs, p3)),
                }
            },
        }
    }
}

/// Parse `n` consecutive key/value pairs into a map.
pub open spec fn dv_pairs(b: Seq<u8>, p: int, n: int, m: DecMode) -> Result<(Ov, int), Error>
    decreases b.len() - p, 1 + n,
{
    if p < 0 || p > b.len() || n < 0 {
        Err(Error::DecodeFailure)
    } else {
        match dv_pair_elems(b, p, n, m) {
            Ok((vs, p2)) => Ok((Ov::Dict(vs), p2)),
            Err(e) => Err(e),
        }
    }
}

pub open spec fn dv_pair_elems(b: Seq<u8>, p: int, n: int, m: DecMode) -> Result<
    (Seq<(Ov, Ov)>, int),
    Error,
>
    decreases b.len() - p, n,
{
    if n <= 0 {
        Ok((Seq::empty(), p))
    } else if p < 0 || p > b.len() {
        Err(Error::DecodeFailure)
    } else {
        match dv(b, p, m) {
            Err(e) => Err(e),
            Ok((k, p2)) => if p2 <= p || p2 > b.len() {
                Err(Error::DecodeFailure)
            } else {
                match dv(b, p2, m) {
                    Err(e) => Err(e),
                    Ok((v, p3)) => if p3 <= p2 || p3 > b.len() {
                        Err(Error::DecodeFailure)
                    } else {
                        match dv_pair_elems(b, p3, n - 1, m) {
                            Err(e) => Err(e),
                            Ok((vs, p4)) => Ok((seq![(k, v)] + vs, p4)),
                        }
                    },
                }
            },
        }
    }
}

/// Decide what an EXT block means: its payload spans `[p, p + n)`.
pub open spec fn dv_ext(b: Seq<u8>, p: int, n: int, ty: i8, m: DecMode) -> Result<
    (Ov, int),
    Error,
>
    decreases b.len() - p + 1, 3int,
{
    if n < 0 || p < 0 || p + n > b.len() {
        Err(Error::DecodeFailure)
    } else {
        let payload = b.subrange(p, p + n);
        let end = p + n;
        match m {
            DecMode::Raw => Ok((Ov::Ext(ty, payload), end)),
            DecMode::Plain => if ty == INTERN_TABLE_EXT {
                match dv_table(payload) {
                    Ok(v) => Ok((v, end)),
                    Err(e) => Err(e),
                }
            } else if ty == CUSTOM_EXT {
                match dv_custom(payload) {
                    Ok(v) => Ok((v, end)),
                    Err(e) => Err(e),
                }
            } else {
                Ok((Ov::Ext(ty, payload), end))
            },
            DecMode::Table(tab) => if ty == INTERN_TABLE_EXT {
                match dv_reference(payload, tab) {
                    Ok(v) => Ok((v, end)),
                    Err(e) => Err(e),
                }
            } else if ty == CUSTOM_EXT {
                match dv_custom(payload) {
                    Ok(v) => Ok((v, end)),
                    Err(e) => Err(e),
                }
            } else {
                Ok((Ov::Ext(ty, payload), end))
            },
        }
    }
}

/// Resolve an intern reference: the payload holds a uint index into the
/// entries decoded so far.
pub open spec fn dv_reference(payload: Seq<u8>, tab: Seq<Ov>) -> Result<Ov, Error>
    decreases payload.len() + 1, 2int,
{
    match dv(payload, 0, DecMode::Raw) {
        Ok((Ov::Integer(v), _)) => if v < 0 {
            Err(Error::InvalidInternReferencePayload)
        } else if v < tab.len() {
            Ok(tab[v])
        } else {
            Err(
                Error::ForwardInternReference {
                    index: usize_clamp(v),
                    size: usize_clamp(tab.len() as int),
                },
            )
        },
        Ok(_) => Err(Error::InvalidInternReferencePayload),
        Err(Error::InvalidUtf8) => Err(Error::InvalidInternReferencePayload),
        Err(e) => Err(e),
    }
}

/// Decode a custom-type EXT payload: a str-or-uint namespace, a uint type
/// id, and everything after them verbatim as the data bytes.
pub open spec fn dv_custom(payload: Seq<u8>) -> Result<Ov, Error>
    decreases payload.len() + 1, 2int,
{
    match dv(payload, 0, DecMode::Raw) {
        Err(e) => Err(e),
        Ok((nsv, p1)) => {
            let ns = match nsv {
                Ov::Text(s) => Ok(NsV::Name(s)),
                Ov::Integer(v) => if 0 <= v <= u32::MAX as int {
                    Ok(NsV::Id(v as u32))
                } else {
                    Err(Error::InvalidCustomNamespace)
                },
                _ => Err(Error::InvalidCustomNamespace),
            };
            match ns {
                Err(e) => Err(e),
                Ok(ns) => if p1 < 0 || p1 > payload.len() {
                    Err(Error::DecodeFailure)
                } else {
                    match dv(payload, p1, DecMode::Raw) {
                        Err(Error::InvalidUtf8) => Err(Error::InvalidCustomTypeId),
                        Err(e) => Err(e),
                        Ok((tv, p2)) => {
                            let tid = match tv {
                                Ov::Integer(v) => if 0 <= v <= u32::MAX as int {
                                    Ok(v as u32)
                                } else {
                                    Err(Error::InvalidCustomTypeId)
                                },
                                _ => Err(Error::InvalidCustomTypeId),
                            };
                            match tid {
                                Err(e) => Err(e),
                                Ok(tid) => if p2 < p1 || p2 > payload.len() {
                                    Err(Error::DecodeFailure)
                                } else {
                                    Ok(
                                        (Ov::Custom(
                                            ns,
                                            tid,
                                            payload.subrange(p2, payload.len() as int),
                                        )),
                                    )
                                },
                            }
                        },
                    }
                },
            }
        },
    }
}

/// Decode an intern-table envelope: an array of entries, populated left
/// to right, followed by the main value decoded against the full table.
pub open spec fn dv_table(payload: Seq<u8>) -> Result<Ov, Error>
    decreases payload.len() + 1, 2int,
{
    if payload.len() == 0 {
        Err(Error::DecodeFailure)
    } else {
        let c = payload[0] as int;
        let hdr: Result<(int, int), Error> = if 0x90 <= c < 0xa0 {
            Ok((c - 0x90, 1))
        } else if c == 0xdc {
            if 3 <= payload.len() {
                Ok((from_be16(payload[1], payload[2]), 3))
            } else {
                Err(Error::DecodeFailure)
            }
        } else if c == 0xdd {
            if 5 <= payload.len() {
                Ok((from_be32(payload[1], payload[2], payload[3], payload[4]), 5))
            } else {
                Err(Error::DecodeFailure)
            }
        } else {
            // Not an array at all: a table payload must start with one.
            match dv(payload, 0, DecMode::Raw) {
                Ok(_) => Err(Error::InvalidInternTable),
                Err(e) => Err(e),
            }
        };
        match hdr {
            Err(e) => Err(e),
            Ok((n, start)) => match dv_entries(payload, start, n, Seq::empty()) {
                Err(e) => Err(e),
                Ok((tab, p2)) => if p2 < 0 || p2 >= payload.len() {
                    Err(Error::InvalidInternTable)
                } else {
                    match dv(payload, p2, DecMode::Table(tab)) {
                        Ok((v, _)) => Ok(v),
                        Err(e) => Err(e),
                    }
                },
            },
        }
    }
}

/// Decode the table's entries in order; each entry may reference earlier
/// ones.
pub open spec fn dv_entries(b: Seq<u8>, p: int, n: int, tab: Seq<Ov>) -> Result<
    (Seq<Ov>, int),
    Error,
>
    decreases b.len() - p, n,
{
    if n <= 0 {
        Ok((tab, p))
    } else if p < 0 || p > b.len() {
        Err(Error::DecodeFailure)
    } else {
        match dv(b, p, DecMode::Table(tab)) {
            Err(e) => Err(e),
            Ok((v, p2)) => if p2 <= p || p2 > b.len() {
                Err(Error::DecodeFailure)
            } else {
                dv_entries(b, p2, n - 1, tab.push(v))
            },
        }
    }
}

/// A whole `loads`: one value parsed from the front of the buffer;
/// trailing bytes are ignored.
pub open spec fn dec_top(b: Seq<u8>) -> Result<Ov, Error> {
    match dv(b, 0, DecMode::Plain) {
        Ok((v, _)) => Ok(v),
        Err(e) => Err(e),
    }
}

} // verus!
