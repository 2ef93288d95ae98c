//! The laws the codec obeys, proved against the model: the wire form of
//! every atom parses back to the value it came from, and a full encode
//! followed by a decode returns the original tree.
use vstd::prelude::*;

use crate::error::Error;
use crate::model::{
    dv, dv_bin, dv_elems, dv_ext, dv_pair_elems, dv_pairs, dv_seq, dv_text, enc, enc_pairs,
    enc_seq, enc_top, dec_top, DecMode, EncTab, CUSTOM_EXT, INTERN_TABLE_EXT,
};
use crate::object::{intern_free, intern_free_pairs, intern_free_seq, Ov};
use crate::wire::{
    arr_hdr, be16, be32, be64, bin_hdr, byte_i8, enc_int, enc_nint, enc_uint, ext_hdr, from_be16,
    from_be32, from_be64, i8_byte, map_hdr, str_hdr, lemma_be16_roundtrip, lemma_be32_roundtrip,
    lemma_be64_roundtrip,
};

verus! {

broadcast use vstd::seq::group_seq_axioms;

/// The bytes of `a` stand at position `p` of `b`.
pub open spec fn bytes_at(b: Seq<u8>, p: int, a: Seq<u8>) -> bool {
    &&& 0 <= p
    &&& p + a.len() <= b.len()
    &&& b.subrange(p, p + a.len()) == a
}

pub proof fn lemma_bytes_at_index(b: Seq<u8>, p: int, a: Seq<u8>)
    requires
        bytes_at(b, p, a),
    ensures
        forall|i: int| 0 <= i < a.len() ==> b[p + i] == #[trigger] a[i],
        a.len() > 0 ==> b[p] == a[0],
        a.len() > 1 ==> b[p + 1] == a[1],
        a.len() > 2 ==> b[p + 2] == a[2],
        a.len() > 3 ==> b[p + 3] == a[3],
        a.len() > 4 ==> b[p + 4] == a[4],
        a.len() > 5 ==> b[p + 5] == a[5],
        a.len() > 6 ==> b[p + 6] == a[6],
        a.len() > 7 ==> b[p + 7] == a[7],
        a.len() > 8 ==> b[p + 8] == a[8],
{
    assert forall|i: int| 0 <= i < a.len() implies b[p + i] == #[trigger] a[i] by {
        assert(b.subrange(p, p + a.len())[i] == b[p + i]);
    }
}

/// A `bytes_at` of a concatenation splits into two.
pub proof fn lemma_bytes_at_split(b: Seq<u8>, p: int, x: Seq<u8>, y: Seq<u8>)
    requires
        bytes_at(b, p, x + y),
    ensures
        bytes_at(b, p, x),
        bytes_at(b, p + x.len(), y),
{
    assert(b.subrange(p, p + x.len()) =~= x) by {
        assert forall|i: int| 0 <= i < x.len() implies b.subrange(p, p + x.len())[i] == x[i] by {
            assert(b.subrange(p, p + (x + y).len())[i] == b[p + i]);
            assert((x + y)[i] == x[i]);
        }
    }
    assert(b.subrange(p + x.len(), p + x.len() + y.len()) =~= y) by {
        assert forall|i: int| 0 <= i < y.len() implies b.subrange(
            p + x.len(),
            p + x.len() + y.len(),
        )[i] == y[i] by {
            assert(b.subrange(p, p + (x + y).len())[x.len() + i] == b[p + x.len() + i]);
            assert((x + y)[x.len() + i] == y[i]);
        }
    }
}

/// The canonical unsigned form parses back to its value, in any mode.
pub proof fn lemma_inv_uint(b: Seq<u8>, p: int, m: DecMode, v: int)
    requires
        0 <= v < 0x10000000000000000,
        bytes_at(b, p, enc_uint(v)),
    ensures
        dv(b, p, m) == Ok::<(Ov, int), Error>((Ov::Integer(v), p + enc_uint(v).len())),
{
    lemma_bytes_at_index(b, p, enc_uint(v));
    if v < 0x80 {
        crate::model::lemma_dv_fix(b, p, m);
    } else if v < 0x100 {
        crate::model::lemma_dv_uint(b, p, m);
    } else if v < 0x10000 {
        lemma_be16_roundtrip(v);
        crate::model::lemma_dv_uint(b, p, m);
        assert(from_be16(b[p + 1], b[p + 2]) == v);
    } else if v < 0x100000000 {
        lemma_be32_roundtrip(v);
        crate::model::lemma_dv_uint(b, p, m);
        assert(from_be32(b[p + 1], b[p + 2], b[p + 3], b[p + 4]) == v);
    } else {
        lemma_be64_roundtrip(v);
        crate::model::lemma_dv_uint(b, p, m);
        assert(from_be64(
            b[p + 1],
            b[p + 2],
            b[p + 3],
            b[p + 4],
            b[p + 5],
            b[p + 6],
            b[p + 7],
            b[p + 8],
        ) == v);
    }
}

/// The canonical negative form parses back to its value, in any mode.
pub proof fn lemma_inv_nint(b: Seq<u8>, p: int, m: DecMode, v: int)
    requires
        -0x8000000000000000 <= v < 0,
        bytes_at(b, p, enc_nint(v)),
    ensures
        dv(b, p, m) == Ok::<(Ov, int), Error>((Ov::Integer(v), p + enc_nint(v).len())),
{
    lemma_bytes_at_index(b, p, enc_nint(v));
    if v >= -32 {
        crate::model::lemma_dv_fix(b, p, m);
        assert(b[p] == (v + 0x100) as u8);
        assert(b[p] >= 0xe0);
        assert(b[p] - 0x100 == v);
    } else if v >= -0x80 {
        crate::model::lemma_dv_sint(b, p, m);
        assert(b[p + 1] == (v + 0x100) as u8);
        assert(byte_i8(b[p + 1]) as int == v);
    } else if v >= -0x8000 {
        lemma_be16_roundtrip(v + 0x10000);
        crate::model::lemma_dv_sint(b, p, m);
        assert(from_be16(b[p + 1], b[p + 2]) == v + 0x10000);
        assert(crate::model::sgn16(v + 0x10000) == v);
    } else if v >= -0x80000000 {
        lemma_be32_roundtrip(v + 0x100000000);
        crate::model::lemma_dv_sint(b, p, m);
        assert(from_be32(b[p + 1], b[p + 2], b[p + 3], b[p + 4]) == v + 0x100000000);
        assert(crate::model::sgn32(v + 0x100000000) == v);
    } else {
        lemma_be64_roundtrip(v + 0x10000000000000000);
        crate::model::lemma_dv_sint(b, p, m);
        assert(from_be64(
            b[p + 1],
            b[p + 2],
            b[p + 3],
            b[p + 4],
            b[p + 5],
            b[p + 6],
            b[p + 7],
            b[p + 8],
        ) == v + 0x10000000000000000);
        assert(crate::model::sgn64(v + 0x10000000000000000) == v);
    }
}

/// A canonical string header followed by `n` payload bytes parses as a
/// text request for those bytes.
pub proof fn lemma_inv_str_hdr(b: Seq<u8>, p: int, m: DecMode, n: int)
    requires
        0 <= n < 0x100000000,
        bytes_at(b, p, str_hdr(n)),
    ensures
        dv(b, p, m) == dv_text(b, p + str_hdr(n).len(), n),
{
    lemma_bytes_at_index(b, p, str_hdr(n));
    if n < 32 {
        crate::model::lemma_dv_fix_compound(b, p, m);
        assert(b[p] == (0xa0 + n) as u8);
        assert(b[p] - 0xa0 == n);
    } else if n < 0x100 {
        crate::model::lemma_dv_str(b, p, m);
    } else if n < 0x10000 {
        lemma_be16_roundtrip(n);
        crate::model::lemma_dv_str(b, p, m);
        assert(from_be16(b[p + 1], b[p + 2]) == n);
    } else {
        lemma_be32_roundtrip(n);
        crate::model::lemma_dv_str(b, p, m);
        assert(from_be32(b[p + 1], b[p + 2], b[p + 3], b[p + 4]) == n);
    }
}

/// A canonical binary header parses as a binary request.
pub proof fn lemma_inv_bin_hdr(b: Seq<u8>, p: int, m: DecMode, n: int)
    requires
        0 <= n < 0x100000000,
        bytes_at(b, p, bin_hdr(n)),
    ensures
        dv(b, p, m) == dv_bin(b, p + bin_hdr(n).len(), n),
{
    lemma_bytes_at_index(b, p, bin_hdr(n));
    if n < 0x100 {
        crate::model::lemma_dv_bin(b, p, m);
    } else if n < 0x10000 {
        lemma_be16_roundtrip(n);
        crate::model::lemma_dv_bin(b, p, m);
        assert(from_be16(b[p + 1], b[p + 2]) == n);
    } else {
        lemma_be32_roundtrip(n);
        crate::model::lemma_dv_bin(b, p, m);
        assert(from_be32(b[p + 1], b[p + 2], b[p + 3], b[p + 4]) == n);
    }
}

/// A canonical array header parses as an `n`-element sequence request.
pub proof fn lemma_inv_arr_hdr(b: Seq<u8>, p: int, m: DecMode, n: int)
    requires
        0 <= n < 0x100000000,
        bytes_at(b, p, arr_hdr(n)),
    ensures
        dv(b, p, m) == dv_seq(b, p + arr_hdr(n).len(), n, m),
{
    lemma_bytes_at_index(b, p, arr_hdr(n));
    if n < 16 {
        crate::model::lemma_dv_fix_compound(b, p, m);
        assert(b[p] == (0x90 + n) as u8);
        assert(b[p] - 0x90 == n);
    } else if n < 0x10000 {
        lemma_be16_roundtrip(n);
        crate::model::lemma_dv_arr_map(b, p, m);
        assert(from_be16(b[p + 1], b[p + 2]) == n);
    } else {
        lemma_be32_roundtrip(n);
        crate::model::lemma_dv_arr_map(b, p, m);
        assert(from_be32(b[p + 1], b[p + 2], b[p + 3], b[p + 4]) == n);
    }
}

/// A canonical map header parses as an `n`-pair map request.
pub proof fn lemma_inv_map_hdr(b: Seq<u8>, p: int, m: DecMode, n: int)
    requires
        0 <= n < 0x100000000,
        bytes_at(b, p, map_hdr(n)),
    ensures
        dv(b, p, m) == dv_pairs(b, p + map_hdr(n).len(), n, m),
{
    lemma_bytes_at_index(b, p, map_hdr(n));
    if n < 16 {
        crate::model::lemma_dv_fix_compound(b, p, m);
        assert(b[p] == (0x80 + n) as u8);
        assert(b[p] - 0x80 == n);
    } else if n < 0x10000 {
        lemma_be16_roundtrip(n);
        crate::model::lemma_dv_arr_map(b, p, m);
        assert(from_be16(b[p + 1], b[p + 2]) == n);
    } else {
        lemma_be32_roundtrip(n);
        crate::model::lemma_dv_arr_map(b, p, m);
        assert(from_be32(b[p + 1], b[p + 2], b[p + 3], b[p + 4]) == n);
    }
}

/// A canonical EXT header parses as an EXT request with the same length
/// and type code.
pub proof fn lemma_inv_ext_hdr(b: Seq<u8>, p: int, m: DecMode, n: int, ty: i8)
    requires
        0 <= n < 0x100000000,
        bytes_at(b, p, ext_hdr(n, ty)),
    ensures
        dv(b, p, m) == dv_ext(b, p + ext_hdr(n, ty).len(), n, ty, m),
{
    lemma_bytes_at_index(b, p, ext_hdr(n, ty));
    crate::wire::lemma_i8_byte_roundtrip(ty);
    if n == 1 || n == 2 || n == 4 || n == 8 || n == 16 {
        crate::model::lemma_dv_ext_markers(b, p, m);
        assert(b[p + 1] == i8_byte(ty));
        assert(byte_i8(b[p + 1]) == ty);
    } else if n < 0x100 {
        crate::model::lemma_dv_ext_markers(b, p, m);
        assert(b[p + 2] == i8_byte(ty));
        assert(byte_i8(b[p + 2]) == ty);
    } else if n < 0x10000 {
        lemma_be16_roundtrip(n);
        crate::model::lemma_dv_ext_markers(b, p, m);
        assert(from_be16(b[p + 1], b[p + 2]) == n);
        assert(byte_i8(b[p + 3]) == ty);
    } else {
        lemma_be32_roundtrip(n);
        crate::model::lemma_dv_ext_markers(b, p, m);
        assert(from_be32(b[p + 1], b[p + 2], b[p + 3], b[p + 4]) == n);
        assert(byte_i8(b[p + 5]) == ty);
    }
}

} // verus!

verus! {

/// A tree built from the plain cases alone: no intern wrapper, no custom
/// payload, and no EXT block with one of the codec's own type codes.
pub open spec fn plain(o: Ov) -> bool
    decreases o,
{
    match o {
        Ov::Array(s) => plain_seq(s),
        Ov::Dict(s) => plain_pairs(s),
        Ov::Ext(code, _) => code != INTERN_TABLE_EXT && code != CUSTOM_EXT,
        Ov::Custom(_, _, _) => false,
        Ov::Intern(_, _, _) => false,
        _ => true,
    }
}

pub open spec fn plain_seq(s: Seq<Ov>) -> bool
    decreases s,
{
    s.len() == 0 || (plain(s[0]) && plain_seq(s.drop_first()))
}

pub open spec fn plain_pairs(s: Seq<(Ov, Ov)>) -> bool
    decreases s,
{
    s.len() == 0 || (plain(s[0].0) && plain(s[0].1) && plain_pairs(s.drop_first()))
}

/// Round trip of one plain value: its encoding parses back to exactly the
/// value, in every decode mode, and the intern table is untouched.
#[verifier::rlimit(100)]
#[verifier::spinoff_prover]
pub proof fn lemma_plain_roundtrip(o: Ov, t: EncTab, b: Seq<u8>, p: int, m: DecMode)
    requires
        plain(o),
        enc(o, t) matches Ok(_),
        bytes_at(b, p, (enc(o, t)->Ok_0).0),
    ensures
        (enc(o, t)->Ok_0).1 == t,
        (enc(o, t)->Ok_0).0.len() >= 1,
        dv(b, p, m) == Ok::<(Ov, int), Error>((o, p + (enc(o, t)->Ok_0).0.len())),
    decreases o,
{
    let bb = (enc(o, t)->Ok_0).0;
    match o {
        Ov::Nil => {
            crate::model::lemma_enc_nil(t);
            lemma_bytes_at_index(b, p, bb);
            crate::model::lemma_dv_fix(b, p, m);
        },
        Ov::Boolean(v) => {
            crate::model::lemma_enc_bool(v, t);
            lemma_bytes_at_index(b, p, bb);
            crate::model::lemma_dv_fix(b, p, m);
        },
        Ov::Integer(v) => {
            crate::model::lemma_enc_integer(v, t);
            if v >= 0 {
                lemma_inv_uint(b, p, m, v);
            } else {
                lemma_inv_nint(b, p, m, v);
            }
        },
        Ov::F32(bits) => {
            crate::model::lemma_enc_f32(bits, t);
            lemma_bytes_at_index(b, p, bb);
            crate::model::lemma_dv_float(b, p, m);
            lemma_be32_roundtrip(bits as int);
            assert(from_be32(b[p + 1], b[p + 2], b[p + 3], b[p + 4]) == bits as int);
        },
        Ov::F64(bits) => {
            crate::model::lemma_enc_f64(bits, t);
            lemma_bytes_at_index(b, p, bb);
            crate::model::lemma_dv_float(b, p, m);
            lemma_be64_roundtrip(bits as int);
            assert(from_be64(
                b[p + 1],
                b[p + 2],
                b[p + 3],
                b[p + 4],
                b[p + 5],
                b[p + 6],
                b[p + 7],
                b[p + 8],
            ) == bits as int);
        },
        Ov::Text(s) => {
            crate::model::lemma_enc_text(s, t);
            let bytes = vstd::utf8::encode_utf8(s);
            lemma_bytes_at_split(b, p, str_hdr(bytes.len() as int), bytes);
            lemma_inv_str_hdr(b, p, m, bytes.len() as int);
            let q = p + str_hdr(bytes.len() as int).len();
            assert(b.subrange(q, q + bytes.len()) == bytes);
            vstd::utf8::encode_utf8_valid_utf8(s);
            vstd::utf8::encode_utf8_decode_utf8(s);
            assert(dv_text(b, q, bytes.len() as int) == Ok::<(Ov, int), Error>((
                Ov::Text(s),
                q + bytes.len(),
            )));
        },
        Ov::Binary(d) => {
            crate::model::lemma_enc_binary(d, t);
            lemma_bytes_at_split(b, p, bin_hdr(d.len() as int), d);
            lemma_inv_bin_hdr(b, p, m, d.len() as int);
            let q = p + bin_hdr(d.len() as int).len();
            assert(b.subrange(q, q + d.len()) == d);
        },
        Ov::Array(elems) => {
            crate::model::lemma_enc_array(elems, t);
            let inner = enc_seq(elems, t);
            assert(inner matches Ok(_));
            let bs = (inner->Ok_0).0;
            lemma_bytes_at_split(b, p, arr_hdr(elems.len() as int), bs);
            lemma_inv_arr_hdr(b, p, m, elems.len() as int);
            let q = p + arr_hdr(elems.len() as int).len();
            lemma_plain_roundtrip_elems(elems, t, b, q, m);
            assert(dv_seq(b, q, elems.len() as int, m) == Ok::<(Ov, int), Error>((
                Ov::Array(elems),
                q + bs.len(),
            )));
        },
        Ov::Dict(pairs) => {
            crate::model::lemma_enc_dict(pairs, t);
            let inner = enc_pairs(pairs, t);
            assert(inner matches Ok(_));
            let bs = (inner->Ok_0).0;
            lemma_bytes_at_split(b, p, map_hdr(pairs.len() as int), bs);
            lemma_inv_map_hdr(b, p, m, pairs.len() as int);
            let q = p + map_hdr(pairs.len() as int).len();
            lemma_plain_roundtrip_prs(pairs, t, b, q, m);
            assert(dv_pairs(b, q, pairs.len() as int, m) == Ok::<(Ov, int), Error>((
                Ov::Dict(pairs),
                q + bs.len(),
            )));
        },
        Ov::Ext(code, d) => {
            crate::model::lemma_enc_ext(code, d, t);
            lemma_bytes_at_split(b, p, ext_hdr(d.len() as int, code), d);
            lemma_inv_ext_hdr(b, p, m, d.len() as int, code);
            let q = p + ext_hdr(d.len() as int, code).len();
            assert(b.subrange(q, q + d.len()) == d);
            assert(dv_ext(b, q, d.len() as int, code, m) == Ok::<(Ov, int), Error>((
                Ov::Ext(code, d),
                q + d.len(),
            )));
        },
        Ov::Custom(_, _, _) => {
            assert(false);
        },
        Ov::Intern(_, _, _) => {
            assert(false);
        },
    }
}

/// Round trip of a plain element sequence.
#[verifier::rlimit(100)]
#[verifier::spinoff_prover]
pub proof fn lemma_plain_roundtrip_elems(s: Seq<Ov>, t: EncTab, b: Seq<u8>, p: int, m: DecMode)
    requires
        plain_seq(s),
        enc_seq(s, t) matches Ok(_),
        bytes_at(b, p, (enc_seq(s, t)->Ok_0).0),
    ensures
        (enc_seq(s, t)->Ok_0).1 == t,
        dv_elems(b, p, s.len() as int, m) == Ok::<(Seq<Ov>, int), Error>((
            s,
            p + (enc_seq(s, t)->Ok_0).0.len(),
        )),
    decreases s,
{
    if s.len() == 0 {
        crate::model::lemma_enc_seq_nil(t);
        assert(s =~= Seq::<Ov>::empty());
        assert((enc_seq(s, t)->Ok_0).0 =~= Seq::<u8>::empty());
    } else {
        crate::model::lemma_enc_seq_cons(s, t);
        let b0 = (enc(s[0], t)->Ok_0).0;
        let t1 = (enc(s[0], t)->Ok_0).1;
        let bs = (enc_seq(s.drop_first(), t1)->Ok_0).0;
        lemma_bytes_at_split(b, p, b0, bs);
        lemma_plain_roundtrip(s[0], t, b, p, m);
        lemma_plain_roundtrip_elems(s.drop_first(), t, b, p + b0.len(), m);
        assert(seq![s[0]] + s.drop_first() =~= s);
    }
}

/// Round trip of a plain pair sequence.
#[verifier::rlimit(100)]
#[verifier::spinoff_prover]
pub proof fn lemma_plain_roundtrip_prs(s: Seq<(Ov, Ov)>, t: EncTab, b: Seq<u8>, p: int, m: DecMode)
    requires
        plain_pairs(s),
        enc_pairs(s, t) matches Ok(_),
        bytes_at(b, p, (enc_pairs(s, t)->Ok_0).0),
    ensures
        (enc_pairs(s, t)->Ok_0).1 == t,
        dv_pair_elems(b, p, s.len() as int, m) == Ok::<(Seq<(Ov, Ov)>, int), Error>((
            s,
            p + (enc_pairs(s, t)->Ok_0).0.len(),
        )),
    decreases s,
{
    if s.len() == 0 {
        crate::model::lemma_enc_pairs_nil(t);
        assert(s =~= Seq::<(Ov, Ov)>::empty());
        assert((enc_pairs(s, t)->Ok_0).0 =~= Seq::<u8>::empty());
    } else {
        crate::model::lemma_enc_pairs_cons(s, t);
        let bk = (enc(s[0].0, t)->Ok_0).0;
        let tk = (enc(s[0].0, t)->Ok_0).1;
        let bv = (enc(s[0].1, tk)->Ok_0).0;
        let tv = (enc(s[0].1, tk)->Ok_0).1;
        let bs = (enc_pairs(s.drop_first(), tv)->Ok_0).0;
        assert(bk + bv + bs =~= bk + (bv + bs));
        lemma_bytes_at_split(b, p, bk, bv + bs);
        lemma_bytes_at_split(b, p + bk.len(), bv, bs);
        lemma_plain_roundtrip(s[0].0, t, b, p, m);
        lemma_plain_roundtrip(s[0].1, t, b, p + bk.len(), m);
        lemma_plain_roundtrip_prs(s.drop_first(), t, b, p + bk.len() + bv.len(), m);
        assert(seq![s[0]] + s.drop_first() =~= s);
    }
}

/// Round trip through the whole codec: any plain value that encodes comes
/// back from its own bytes, structurally and bit-exactly.
pub proof fn lemma_roundtrip_plain(o: Ov)
    requires
        plain(o),
        enc_top(o) matches Ok(_),
    ensures
        dec_top(enc_top(o)->Ok_0) == Ok::<Ov, Error>(o),
{
    let mb = (enc(o, EncTab::empty())->Ok_0).0;
    assert(bytes_at(mb, 0, mb)) by {
        assert(mb.subrange(0, mb.len() as int) =~= mb);
    }
    lemma_plain_roundtrip(o, EncTab::empty(), mb, 0, DecMode::Plain);
    assert(enc_top(o)->Ok_0 == mb);
}

/// Unknown EXT codes pass through: an EXT whose code is neither the
/// intern-table nor the custom-type code decodes to the same code and the
/// bit-equal payload.
pub proof fn lemma_ext_passthrough(code: i8, data: Seq<u8>)
    requires
        code != INTERN_TABLE_EXT,
        code != CUSTOM_EXT,
        data.len() < 0x100000000,
    ensures
        enc_top(Ov::Ext(code, data)) matches Ok(_),
        dec_top(enc_top(Ov::Ext(code, data))->Ok_0) == Ok::<Ov, Error>(Ov::Ext(code, data)),
{
    crate::model::lemma_enc_ext(code, data, EncTab::empty());
    lemma_roundtrip_plain(Ov::Ext(code, data));
}

} // verus!

verus! {

/// Structural equality is reflexive.
pub proof fn lemma_ov_eq_refl(o: Ov)
    ensures
        crate::object::ov_eq(o, o),
    decreases o,
{
    match o {
        Ov::Array(s) => {
            lemma_ovs_eq_refl(s);
        },
        Ov::Dict(s) => {
            lemma_ov_pairs_eq_refl(s);
        },
        Ov::Intern(v, _, _) => {
            lemma_ov_eq_refl(*v);
        },
        _ => {},
    }
}

pub proof fn lemma_ovs_eq_refl(s: Seq<Ov>)
    ensures
        crate::object::ovs_eq(s, s),
    decreases s,
{
    if s.len() > 0 {
        lemma_ov_eq_refl(s[0]);
        lemma_ovs_eq_refl(s.drop_first());
    }
}

pub proof fn lemma_ov_pairs_eq_refl(s: Seq<(Ov, Ov)>)
    ensures
        crate::object::ov_pairs_eq(s, s),
    decreases s,
{
    if s.len() > 0 {
        lemma_ov_eq_refl(s[0].0);
        lemma_ov_eq_refl(s[0].1);
        lemma_ov_pairs_eq_refl(s.drop_first());
    }
}

/// A plain value's encoding neither reads nor changes the intern table:
/// the bytes and the outcome are the same against any table.
pub proof fn lemma_plain_table_indep(o: Ov, t1: EncTab, t2: EncTab)
    requires
        plain(o),
    ensures
        enc(o, t1) == (match enc(o, t2) {
            Ok((bs, _)) => Ok::<(Seq<u8>, EncTab), Error>((bs, t1)),
            Err(e) => Err::<(Seq<u8>, EncTab), Error>(e),
        }),
    decreases o,
{
    reveal(crate::model::enc);
    match o {
        Ov::Array(s) => {
            lemma_plain_elems_indep(s, t1, t2);
        },
        Ov::Dict(s) => {
            lemma_plain_prs_indep(s, t1, t2);
        },
        _ => {},
    }
}

pub proof fn lemma_plain_elems_indep(s: Seq<Ov>, t1: EncTab, t2: EncTab)
    requires
        plain_seq(s),
    ensures
        enc_seq(s, t1) == (match enc_seq(s, t2) {
            Ok((bs, _)) => Ok::<(Seq<u8>, EncTab), Error>((bs, t1)),
            Err(e) => Err::<(Seq<u8>, EncTab), Error>(e),
        }),
    decreases s,
{
    if s.len() == 0 {
        crate::model::lemma_enc_seq_nil(t1);
        crate::model::lemma_enc_seq_nil(t2);
        assert(s =~= Seq::<Ov>::empty());
    } else {
        crate::model::lemma_enc_seq_cons(s, t1);
        crate::model::lemma_enc_seq_cons(s, t2);
        lemma_plain_table_indep(s[0], t1, t2);
        match enc(s[0], t2) {
            Err(_) => {},
            Ok((b0, t2m)) => {
                lemma_plain_table_indep(s[0], t2m, t2);
                lemma_plain_elems_indep(s.drop_first(), t1, t2m);
                lemma_plain_elems_indep(s.drop_first(), t2m, t2m);
            },
        }
    }
}

pub proof fn lemma_plain_prs_indep(s: Seq<(Ov, Ov)>, t1: EncTab, t2: EncTab)
    requires
        plain_pairs(s),
    ensures
        enc_pairs(s, t1) == (match enc_pairs(s, t2) {
            Ok((bs, _)) => Ok::<(Seq<u8>, EncTab), Error>((bs, t1)),
            Err(e) => Err::<(Seq<u8>, EncTab), Error>(e),
        }),
    decreases s,
{
    if s.len() == 0 {
        crate::model::lemma_enc_pairs_nil(t1);
        crate::model::lemma_enc_pairs_nil(t2);
        assert(s =~= Seq::<(Ov, Ov)>::empty());
    } else {
        crate::model::lemma_enc_pairs_cons(s, t1);
        crate::model::lemma_enc_pairs_cons(s, t2);
        lemma_plain_table_indep(s[0].0, t1, t2);
        match enc(s[0].0, t2) {
            Err(_) => {},
            Ok((bk, tk)) => {
                lemma_plain_table_indep(s[0].0, tk, t2);
                lemma_plain_table_indep(s[0].1, tk, tk);
                lemma_plain_table_indep(s[0].1, t1, tk);
                match enc(s[0].1, tk) {
                    Err(_) => {},
                    Ok((bv, tv)) => {
                        lemma_plain_prs_indep(s.drop_first(), t1, tv);
                        lemma_plain_prs_indep(s.drop_first(), tv, tv);
                    },
                }
            },
        }
    }
}

/// Identity versus equality interning: two handles to equal values at
/// distinct storage addresses make two table entries when deduplication
/// keys on identity, and a single entry when it keys on equality.
pub proof fn lemma_identity_vs_equality(v: Ov, a1: int, a2: int)
    requires
        plain(v),
        a1 != a2,
        enc(v, EncTab::empty()) matches Ok(_),
    ensures
        ({
            let two_id = Ov::Array(
                seq![
                    Ov::Intern(Box::new(v), true, a1),
                    Ov::Intern(Box::new(v), true, a2),
                ],
            );
            &&& enc(two_id, EncTab::empty()) matches Ok(_)
            &&& (enc(two_id, EncTab::empty())->Ok_0).1.blocks.len() == 2
        }),
        ({
            let two_eq = Ov::Array(
                seq![
                    Ov::Intern(Box::new(v), false, a1),
                    Ov::Intern(Box::new(v), false, a2),
                ],
            );
            &&& enc(two_eq, EncTab::empty()) matches Ok(_)
            &&& (enc(two_eq, EncTab::empty())->Ok_0).1.blocks.len() == 1
        }),
{
    let t0 = EncTab::empty();
    let vb = (enc(v, t0)->Ok_0).0;
    lemma_plain_table_indep(v, t0, t0);
    assert(enc(v, t0) == Ok::<(Seq<u8>, EncTab), Error>((vb, t0)));
    lemma_ov_eq_refl(v);

    // Identity mode: the first node appends entry 0 and registers a1; the
    // second misses on a2 and appends entry 1.
    let n1 = Ov::Intern(Box::new(v), true, a1);
    let n2 = Ov::Intern(Box::new(v), true, a2);
    crate::model::lemma_enc_intern_node(v, true, a1, t0);
    let t1 = crate::model::tab_insert(t0, vb, v, true, a1);
    assert(crate::model::tab_lookup(t0, v, true, a1) is None);
    assert(enc(n1, t0) == Ok::<(Seq<u8>, EncTab), Error>((crate::model::ref_bytes(0), t1)));
    lemma_plain_table_indep(v, t1, t0);
    crate::model::lemma_enc_intern_node(v, true, a2, t1);
    assert(!t1.ids.contains_key(a2));
    let t2 = crate::model::tab_insert(t1, vb, v, true, a2);
    assert(enc(n2, t1) == Ok::<(Seq<u8>, EncTab), Error>((crate::model::ref_bytes(1), t2)));
    let s_id = seq![n1, n2];
    crate::model::lemma_enc_seq_cons(s_id, t0);
    assert(s_id.drop_first() =~= seq![n2]);
    crate::model::lemma_enc_seq_cons(seq![n2], t1);
    assert(seq![n2].drop_first() =~= Seq::<Ov>::empty());
    crate::model::lemma_enc_seq_nil(t2);
    crate::model::lemma_enc_array(s_id, t0);
    assert(t2.blocks.len() == 2);

    // Equality mode: the first node appends entry 0; the second finds it
    // by structural equality.
    let m1 = Ov::Intern(Box::new(v), false, a1);
    let m2 = Ov::Intern(Box::new(v), false, a2);
    crate::model::lemma_enc_intern_node(v, false, a1, t0);
    crate::model::lemma_find_eq(t0.origs, v);
    let u1 = crate::model::tab_insert(t0, vb, v, false, a1);
    assert(enc(m1, t0) == Ok::<(Seq<u8>, EncTab), Error>((crate::model::ref_bytes(0), u1)));
    crate::model::lemma_enc_intern_node(v, false, a2, u1);
    assert(u1.origs =~= seq![v]);
    assert(crate::model::find_eq(u1.origs, v) == 0);
    assert(enc(m2, u1) == Ok::<(Seq<u8>, EncTab), Error>((crate::model::ref_bytes(0), u1)));
    let s_eq = seq![m1, m2];
    crate::model::lemma_enc_seq_cons(s_eq, t0);
    assert(s_eq.drop_first() =~= seq![m2]);
    crate::model::lemma_enc_seq_cons(seq![m2], u1);
    assert(seq![m2].drop_first() =~= Seq::<Ov>::empty());
    crate::model::lemma_enc_seq_nil(u1);
    crate::model::lemma_enc_array(s_eq, t0);
    assert(u1.blocks.len() == 1);
}

} // verus!

verus! {

/// Custom passthrough: decoding the encoding of a custom value returns a
/// custom value with the same namespace and type id, whose data is the
/// bin-header-prefixed original payload, so the original bytes come back
/// as a suffix.
#[verifier::rlimit(100)]
pub proof fn lemma_custom_passthrough(ns: crate::object::NsV, tid: u32, data: Seq<u8>)
    requires
        enc_top(Ov::Custom(ns, tid, data)) matches Ok(_),
    ensures
        ({
            let bytes = enc_top(Ov::Custom(ns, tid, data))->Ok_0;
            &&& dec_top(bytes) matches Ok(_)
            &&& dec_top(bytes)->Ok_0 == Ov::Custom(
                ns,
                tid,
                bin_hdr(data.len() as int) + data,
            )
            &&& (dec_top(bytes)->Ok_0->Custom_2).skip(bin_hdr(data.len() as int).len() as int)
                == data
        }),
{
    let o = Ov::Custom(ns, tid, data);
    let t0 = EncTab::empty();
    crate::model::lemma_enc_custom_node(ns, tid, data, t0);
    let bytes = enc_top(o)->Ok_0;
    let payload = (crate::model::enc_custom_payload(ns, tid, data)->Ok_0);
    let nb = (crate::model::enc_ns(ns)->Ok_0);
    assert(payload == nb + enc_uint(tid as int) + bin_hdr(data.len() as int) + data);
    assert(bytes == ext_hdr(payload.len() as int, CUSTOM_EXT) + payload);

    assert(bytes_at(bytes, 0, bytes)) by {
        assert(bytes.subrange(0, bytes.len() as int) =~= bytes);
    }
    lemma_bytes_at_split(bytes, 0, ext_hdr(payload.len() as int, CUSTOM_EXT), payload);
    lemma_inv_ext_hdr(bytes, 0, DecMode::Plain, payload.len() as int, CUSTOM_EXT);
    let hl = ext_hdr(payload.len() as int, CUSTOM_EXT).len() as int;
    assert(bytes.subrange(hl, hl + payload.len()) == payload);

    // Inside the payload: namespace, type id, then the data region.
    assert(bytes_at(payload, 0, payload)) by {
        assert(payload.subrange(0, payload.len() as int) =~= payload);
    }
    assert(payload =~= nb + (enc_uint(tid as int) + (bin_hdr(data.len() as int) + data)));
    lemma_bytes_at_split(payload, 0, nb, enc_uint(tid as int) + (bin_hdr(data.len() as int)
        + data));
    lemma_bytes_at_split(
        payload,
        nb.len() as int,
        enc_uint(tid as int),
        bin_hdr(data.len() as int) + data,
    );
    let p1 = nb.len() as int;
    let p2 = p1 + enc_uint(tid as int).len() as int;

    // The namespace slot.
    match ns {
        crate::object::NsV::Name(s) => {
            let sb = vstd::utf8::encode_utf8(s);
            assert(nb == str_hdr(sb.len() as int) + sb);
            lemma_bytes_at_split(payload, 0, str_hdr(sb.len() as int), sb);
            lemma_inv_str_hdr(payload, 0, DecMode::Raw, sb.len() as int);
            let q = str_hdr(sb.len() as int).len() as int;
            assert(payload.subrange(q, q + sb.len()) == sb);
            vstd::utf8::encode_utf8_valid_utf8(s);
            vstd::utf8::encode_utf8_decode_utf8(s);
            assert(dv(payload, 0, DecMode::Raw) == Ok::<(Ov, int), Error>((Ov::Text(s), p1)));
        },
        crate::object::NsV::Id(idv) => {
            assert(nb == enc_uint(idv as int));
            lemma_inv_uint(payload, 0, DecMode::Raw, idv as int);
            assert(dv(payload, 0, DecMode::Raw) == Ok::<(Ov, int), Error>((
                Ov::Integer(idv as int),
                p1,
            )));
        },
    }

    // The type id slot.
    lemma_inv_uint(payload, p1, DecMode::Raw, tid as int);
    assert(dv(payload, p1, DecMode::Raw) == Ok::<(Ov, int), Error>((
        Ov::Integer(tid as int),
        p2,
    )));

    // Everything after the id comes back verbatim.
    assert(payload.subrange(p2, payload.len() as int) =~= bin_hdr(data.len() as int) + data);
    assert(crate::model::dv_custom(payload) == Ok::<Ov, Error>(Ov::Custom(
        ns,
        tid,
        bin_hdr(data.len() as int) + data,
    )));
    assert((bin_hdr(data.len() as int) + data).skip(bin_hdr(data.len() as int).len() as int)
        =~= data);
}

} // verus!

verus! {

/// Structural equality is symmetric.
pub proof fn lemma_ov_eq_sym(a: Ov, b: Ov)
    requires
        crate::object::ov_eq(a, b),
    ensures
        crate::object::ov_eq(b, a),
    decreases a,
{
    match (a, b) {
        (Ov::Array(x), Ov::Array(y)) => {
            lemma_ovs_eq_sym(x, y);
        },
        (Ov::Dict(x), Ov::Dict(y)) => {
            lemma_ov_pairs_eq_sym(x, y);
        },
        (Ov::Intern(va, _, _), Ov::Intern(vb, _, _)) => {
            lemma_ov_eq_sym(*va, *vb);
        },
        _ => {},
    }
}

pub proof fn lemma_ovs_eq_sym(x: Seq<Ov>, y: Seq<Ov>)
    requires
        crate::object::ovs_eq(x, y),
    ensures
        crate::object::ovs_eq(y, x),
    decreases x,
{
    if x.len() > 0 {
        lemma_ov_eq_sym(x[0], y[0]);
        lemma_ovs_eq_sym(x.drop_first(), y.drop_first());
    }
}

pub proof fn lemma_ov_pairs_eq_sym(x: Seq<(Ov, Ov)>, y: Seq<(Ov, Ov)>)
    requires
        crate::object::ov_pairs_eq(x, y),
    ensures
        crate::object::ov_pairs_eq(y, x),
    decreases x,
{
    if x.len() > 0 {
        lemma_ov_eq_sym(x[0].0, y[0].0);
        lemma_ov_eq_sym(x[0].1, y[0].1);
        lemma_ov_pairs_eq_sym(x.drop_first(), y.drop_first());
    }
}

/// Structural equality is transitive.
pub proof fn lemma_ov_eq_trans(a: Ov, b: Ov, c: Ov)
    requires
        crate::object::ov_eq(a, b),
        crate::object::ov_eq(b, c),
    ensures
        crate::object::ov_eq(a, c),
    decreases a,
{
    match (a, b, c) {
        (Ov::Array(x), Ov::Array(y), Ov::Array(z)) => {
            lemma_ovs_eq_trans(x, y, z);
        },
        (Ov::Dict(x), Ov::Dict(y), Ov::Dict(z)) => {
            lemma_ov_pairs_eq_trans(x, y, z);
        },
        (Ov::Intern(va, _, _), Ov::Intern(vb, _, _), Ov::Intern(vc, _, _)) => {
            lemma_ov_eq_trans(*va, *vb, *vc);
        },
        _ => {},
    }
}

pub proof fn lemma_ovs_eq_trans(x: Seq<Ov>, y: Seq<Ov>, z: Seq<Ov>)
    requires
        crate::object::ovs_eq(x, y),
        crate::object::ovs_eq(y, z),
    ensures
        crate::object::ovs_eq(x, z),
    decreases x,
{
    if x.len() > 0 {
        lemma_ov_eq_trans(x[0], y[0], z[0]);
        lemma_ovs_eq_trans(x.drop_first(), y.drop_first(), z.drop_first());
    }
}

pub proof fn lemma_ov_pairs_eq_trans(x: Seq<(Ov, Ov)>, y: Seq<(Ov, Ov)>, z: Seq<(Ov, Ov)>)
    requires
        crate::object::ov_pairs_eq(x, y),
        crate::object::ov_pairs_eq(y, z),
    ensures
        crate::object::ov_pairs_eq(x, z),
    decreases x,
{
    if x.len() > 0 {
        lemma_ov_eq_trans(x[0].0, y[0].0, z[0].0);
        lemma_ov_eq_trans(x[0].1, y[0].1, z[0].1);
        lemma_ov_pairs_eq_trans(x.drop_first(), y.drop_first(), z.drop_first());
    }
}

/// Stripping intern wrappers respects structural equality.
pub proof fn lemma_strip_cong(a: Ov, b: Ov)
    requires
        crate::object::ov_eq(a, b),
    ensures
        crate::object::ov_eq(crate::object::strip(a), crate::object::strip(b)),
    decreases a,
{
    match (a, b) {
        (Ov::Array(x), Ov::Array(y)) => {
            lemma_strip_seq_cong(x, y);
        },
        (Ov::Dict(x), Ov::Dict(y)) => {
            lemma_strip_pairs_cong(x, y);
        },
        (Ov::Intern(va, _, _), Ov::Intern(vb, _, _)) => {
            lemma_strip_cong(*va, *vb);
        },
        _ => {},
    }
}

pub proof fn lemma_strip_seq_cong(x: Seq<Ov>, y: Seq<Ov>)
    requires
        crate::object::ovs_eq(x, y),
    ensures
        crate::object::ovs_eq(crate::object::strip_seq(x), crate::object::strip_seq(y)),
    decreases x,
{
    if x.len() > 0 {
        lemma_strip_cong(x[0], y[0]);
        lemma_strip_seq_cong(x.drop_first(), y.drop_first());
        assert(crate::object::strip_seq(x).drop_first() =~= crate::object::strip_seq(
            x.drop_first(),
        ));
        assert(crate::object::strip_seq(y).drop_first() =~= crate::object::strip_seq(
            y.drop_first(),
        ));
    }
}

pub proof fn lemma_strip_pairs_cong(x: Seq<(Ov, Ov)>, y: Seq<(Ov, Ov)>)
    requires
        crate::object::ov_pairs_eq(x, y),
    ensures
        crate::object::ov_pairs_eq(
            crate::object::strip_pairs(x),
            crate::object::strip_pairs(y),
        ),
    decreases x,
{
    if x.len() > 0 {
        lemma_strip_cong(x[0].0, y[0].0);
        lemma_strip_cong(x[0].1, y[0].1);
        lemma_strip_pairs_cong(x.drop_first(), y.drop_first());
        assert(crate::object::strip_pairs(x).drop_first() =~= crate::object::strip_pairs(
            x.drop_first(),
        ));
        assert(crate::object::strip_pairs(y).drop_first() =~= crate::object::strip_pairs(
            y.drop_first(),
        ));
    }
}

/// Stripping an intern-free tree changes nothing.
pub proof fn lemma_strip_id(o: Ov)
    requires
        intern_free(o),
    ensures
        crate::object::strip(o) == o,
    decreases o,
{
    match o {
        Ov::Array(s) => {
            lemma_strip_seq_id(s);
        },
        Ov::Dict(s) => {
            lemma_strip_pairs_id(s);
        },
        _ => {},
    }
}

pub proof fn lemma_strip_seq_id(s: Seq<Ov>)
    requires
        intern_free_seq(s),
    ensures
        crate::object::strip_seq(s) == s,
    decreases s,
{
    if s.len() > 0 {
        lemma_strip_id(s[0]);
        lemma_strip_seq_id(s.drop_first());
        assert(crate::object::strip_seq(s) =~= s);
    }
}

pub proof fn lemma_strip_pairs_id(s: Seq<(Ov, Ov)>)
    requires
        intern_free_pairs(s),
    ensures
        crate::object::strip_pairs(s) == s,
    decreases s,
{
    if s.len() > 0 {
        lemma_strip_id(s[0].0);
        lemma_strip_id(s[0].1);
        lemma_strip_pairs_id(s.drop_first());
        assert(crate::object::strip_pairs(s) =~= s);
    }
}

} // verus!

verus! {

/// A tree the codec fully round-trips through interning: no custom
/// payload, no EXT with one of the codec's own type codes; intern
/// wrappers are allowed anywhere.
pub open spec fn internable(o: Ov) -> bool
    decreases o,
{
    match o {
        Ov::Array(s) => internable_seq(s),
        Ov::Dict(s) => internable_pairs(s),
        Ov::Ext(code, _) => code != INTERN_TABLE_EXT && code != CUSTOM_EXT,
        Ov::Custom(_, _, _) => false,
        Ov::Intern(v, _, _) => internable(*v),
        _ => true,
    }
}

pub open spec fn internable_seq(s: Seq<Ov>) -> bool
    decreases s,
{
    s.len() == 0 || (internable(s[0]) && internable_seq(s.drop_first()))
}

pub open spec fn internable_pairs(s: Seq<(Ov, Ov)>) -> bool
    decreases s,
{
    s.len() == 0 || (internable(s[0].0) && internable(s[0].1) && internable_pairs(s.drop_first()))
}

/// Every identity-interned node in `o` agrees with the address
/// environment `env`: the address is known and holds an equal value.
/// This is what sharing storage means: one address, one value.
pub open spec fn env_ok(o: Ov, env: Map<int, Ov>) -> bool
    decreases o,
{
    match o {
        Ov::Array(s) => env_ok_seq(s, env),
        Ov::Dict(s) => env_ok_pairs(s, env),
        Ov::Intern(v, by_id, a) => (by_id ==> env.contains_key(a) && crate::object::ov_eq(
            env[a],
            *v,
        )) && env_ok(*v, env),
        _ => true,
    }
}

pub open spec fn env_ok_seq(s: Seq<Ov>, env: Map<int, Ov>) -> bool
    decreases s,
{
    s.len() == 0 || (env_ok(s[0], env) && env_ok_seq(s.drop_first(), env))
}

pub open spec fn env_ok_pairs(s: Seq<(Ov, Ov)>, env: Map<int, Ov>) -> bool
    decreases s,
{
    s.len() == 0 || (env_ok(s[0].0, env) && env_ok(s[0].1, env) && env_ok_pairs(
        s.drop_first(),
        env,
    ))
}

/// `a` is a prefix of `b`.
pub open spec fn prefix_of(a: Seq<Ov>, b: Seq<Ov>) -> bool {
    a.len() <= b.len() && b.take(a.len() as int) == a
}

pub proof fn lemma_prefix_trans(a: Seq<Ov>, b: Seq<Ov>, c: Seq<Ov>)
    requires
        prefix_of(a, b),
        prefix_of(b, c),
    ensures
        prefix_of(a, c),
{
    assert(c.take(a.len() as int) =~= b.take(a.len() as int));
}

pub proof fn lemma_prefix_index(a: Seq<Ov>, b: Seq<Ov>, i: int)
    requires
        prefix_of(a, b),
        0 <= i < a.len(),
    ensures
        b[i] == a[i],
{
    assert(b.take(a.len() as int)[i] == b[i]);
}

/// Table entry `j` is a block that, against any table extending the first
/// `j` decoded entries, parses to decoded entry `j`.
pub open spec fn entry_ok(t: EncTab, decoded: Seq<Ov>, j: int) -> bool {
    forall|dx: Seq<Ov>, b: Seq<u8>, p: int|
        #![trigger prefix_of(decoded.take(j), dx), bytes_at(b, p, t.blocks[j])]
        prefix_of(decoded.take(j), dx) && bytes_at(b, p, t.blocks[j]) ==> dv(
            b,
            p,
            DecMode::Table(dx),
        ) == Ok::<(Ov, int), Error>((decoded[j], p + t.blocks[j].len()))
}

/// The relation between an encoding table and the entries a decoder will
/// reconstruct from it.
pub open spec fn tab_ok(t: EncTab, decoded: Seq<Ov>, env: Map<int, Ov>) -> bool {
    &&& t.blocks.len() == decoded.len()
    &&& t.origs.len() == decoded.len()
    &&& decoded.len() <= 0x10000000000000000
    &&& forall|j: int| 0 <= j < decoded.len() ==> crate::object::ov_eq(
        #[trigger] decoded[j],
        crate::object::strip(t.origs[j]),
    )
    &&& forall|j: int| 0 <= j < decoded.len() ==> intern_free(#[trigger] decoded[j])
    &&& forall|j: int| 0 <= j < decoded.len() ==> (#[trigger] t.blocks[j]).len() >= 1
    &&& forall|j: int| 0 <= j < decoded.len() ==> #[trigger] entry_ok(t, decoded, j)
    &&& forall|a: int| #[trigger] t.ids.contains_key(a) ==> 0 <= t.ids[a] < decoded.len()
        && env.contains_key(a) && crate::object::ov_eq(t.origs[t.ids[a]], env[a])
}

/// An intern reference to a live entry parses back to that entry.
pub proof fn lemma_inv_ref(b: Seq<u8>, p: int, dx: Seq<Ov>, i: int)
    requires
        0 <= i < dx.len(),
        i < 0x10000000000000000,
        bytes_at(b, p, crate::model::ref_bytes(i)),
    ensures
        dv(b, p, DecMode::Table(dx)) == Ok::<(Ov, int), Error>((
            dx[i],
            p + crate::model::ref_bytes(i).len(),
        )),
{
    let rb = enc_uint(i);
    lemma_bytes_at_split(b, p, ext_hdr(rb.len() as int, INTERN_TABLE_EXT), rb);
    lemma_inv_ext_hdr(b, p, DecMode::Table(dx), rb.len() as int, INTERN_TABLE_EXT);
    let q = p + ext_hdr(rb.len() as int, INTERN_TABLE_EXT).len();
    assert(b.subrange(q, q + rb.len()) == rb);
    let payload = b.subrange(q, q + rb.len());
    assert(bytes_at(payload, 0, rb)) by {
        assert(payload.subrange(0, rb.len() as int) =~= rb);
    }
    lemma_inv_uint(payload, 0, DecMode::Raw, i);
    assert(crate::model::dv_reference(payload, dx) == Ok::<Ov, Error>(dx[i]));
}

} // verus!

verus! {

/// What holds after one value is encoded against a table in relation
/// `tab_ok`: the table keeps the relation against an extended decoded
/// list, and the emitted bytes parse, against any further extension, to a
/// fixed intern-free value structurally equal to the stripped original.
pub open spec fn node_post(
    o: Ov,
    t: EncTab,
    env: Map<int, Ov>,
    d: Seq<Ov>,
    d2: Seq<Ov>,
    vd: Ov,
) -> bool {
    let bb = (enc(o, t)->Ok_0).0;
    let t2 = (enc(o, t)->Ok_0).1;
    &&& tab_ok(t2, d2, env)
    &&& prefix_of(d, d2)
    &&& bb.len() >= 1
    &&& crate::object::ov_eq(vd, crate::object::strip(o))
    &&& intern_free(vd)
    &&& (!intern_free(o) ==> d2.len() >= 1)
    &&& forall|dx: Seq<Ov>, b: Seq<u8>, p: int|
        #![trigger prefix_of(d2, dx), bytes_at(b, p, bb)]
        prefix_of(d2, dx) && bytes_at(b, p, bb) ==> dv(b, p, DecMode::Table(dx)) == Ok::<
            (Ov, int),
            Error,
        >((vd, p + bb.len()))
}

pub open spec fn seq_post(
    s: Seq<Ov>,
    t: EncTab,
    env: Map<int, Ov>,
    d: Seq<Ov>,
    d2: Seq<Ov>,
    vds: Seq<Ov>,
) -> bool {
    let bb = (enc_seq(s, t)->Ok_0).0;
    let t2 = (enc_seq(s, t)->Ok_0).1;
    &&& tab_ok(t2, d2, env)
    &&& prefix_of(d, d2)
    &&& vds.len() == s.len()
    &&& crate::object::ovs_eq(vds, crate::object::strip_seq(s))
    &&& intern_free_seq(vds)
    &&& (!intern_free_seq(s) ==> d2.len() >= 1)
    &&& forall|dx: Seq<Ov>, b: Seq<u8>, p: int|
        #![trigger prefix_of(d2, dx), bytes_at(b, p, bb)]
        prefix_of(d2, dx) && bytes_at(b, p, bb) ==> dv_elems(
            b,
            p,
            s.len() as int,
            DecMode::Table(dx),
        ) == Ok::<(Seq<Ov>, int), Error>((vds, p + bb.len()))
}

pub open spec fn pairs_post(
    s: Seq<(Ov, Ov)>,
    t: EncTab,
    env: Map<int, Ov>,
    d: Seq<Ov>,
    d2: Seq<Ov>,
    vds: Seq<(Ov, Ov)>,
) -> bool {
    let bb = (enc_pairs(s, t)->Ok_0).0;
    let t2 = (enc_pairs(s, t)->Ok_0).1;
    &&& tab_ok(t2, d2, env)
    &&& prefix_of(d, d2)
    &&& vds.len() == s.len()
    &&& crate::object::ov_pairs_eq(vds, crate::object::strip_pairs(s))
    &&& intern_free_pairs(vds)
    &&& (!intern_free_pairs(s) ==> d2.len() >= 1)
    &&& forall|dx: Seq<Ov>, b: Seq<u8>, p: int|
        #![trigger prefix_of(d2, dx), bytes_at(b, p, bb)]
        prefix_of(d2, dx) && bytes_at(b, p, bb) ==> dv_pair_elems(
            b,
            p,
            s.len() as int,
            DecMode::Table(dx),
        ) == Ok::<(Seq<(Ov, Ov)>, int), Error>((vds, p + bb.len()))
}

/// An intern-free internable tree is plain.
pub proof fn lemma_intern_free_plain(o: Ov)
    requires
        internable(o),
        intern_free(o),
    ensures
        plain(o),
    decreases o,
{
    match o {
        Ov::Array(s) => {
            lemma_intern_free_plain_seq(s);
        },
        Ov::Dict(s) => {
            lemma_intern_free_plain_pairs(s);
        },
        _ => {},
    }
}

pub proof fn lemma_intern_free_plain_seq(s: Seq<Ov>)
    requires
        internable_seq(s),
        intern_free_seq(s),
    ensures
        plain_seq(s),
    decreases s,
{
    if s.len() > 0 {
        lemma_intern_free_plain(s[0]);
        lemma_intern_free_plain_seq(s.drop_first());
    }
}

pub proof fn lemma_intern_free_plain_pairs(s: Seq<(Ov, Ov)>)
    requires
        internable_pairs(s),
        intern_free_pairs(s),
    ensures
        plain_pairs(s),
    decreases s,
{
    if s.len() > 0 {
        lemma_intern_free_plain(s[0].0);
        lemma_intern_free_plain(s[0].1);
        lemma_intern_free_plain_pairs(s.drop_first());
    }
}

/// The round-trip induction for one internable value.
#[verifier::rlimit(100)]
#[verifier::spinoff_prover]
pub proof fn lemma_intern_rt(o: Ov, t: EncTab, env: Map<int, Ov>, d: Seq<Ov>)
    requires
        internable(o),
        env_ok(o, env),
        tab_ok(t, d, env),
        enc(o, t) matches Ok(_),
    ensures
        exists|d2: Seq<Ov>, vd: Ov| #[trigger] node_post(o, t, env, d, d2, vd),
    decreases o, 1int,
{
    let bb = (enc(o, t)->Ok_0).0;
    let t2 = (enc(o, t)->Ok_0).1;
    if plain(o) {
        lemma_plain_table_indep(o, t, t);
        assert forall|dx: Seq<Ov>, b: Seq<u8>, p: int|
            prefix_of(d, dx) && bytes_at(b, p, bb) implies dv(b, p, DecMode::Table(dx)) == Ok::<
            (Ov, int),
            Error,
        >((o, p + bb.len())) by {
            lemma_plain_roundtrip(o, t, b, p, DecMode::Table(dx));
        }
        assert(bytes_at(bb, 0, bb)) by {
            assert(bb.subrange(0, bb.len() as int) =~= bb);
        }
        lemma_plain_roundtrip(o, t, bb, 0, DecMode::Plain);
        lemma_ov_eq_refl(o);
        lemma_plain_strip(o);
        lemma_plain_intern_free(o);
        assert(prefix_of(d, d)) by {
            assert(d.take(d.len() as int) =~= d);
        }
        assert(node_post(o, t, env, d, d, o));
    } else {
        match o {
            Ov::Array(s) => {
                crate::model::lemma_enc_array(s, t);
                lemma_intern_rt_elems(s, t, env, d);
                let (d2, vds) = choose|d2: Seq<Ov>, vds: Seq<Ov>|
                    #[trigger] seq_post(s, t, env, d, d2, vds);
                let bs = (enc_seq(s, t)->Ok_0).0;
                let n = s.len() as int;
                assert forall|dx: Seq<Ov>, b: Seq<u8>, p: int|
                    prefix_of(d2, dx) && bytes_at(b, p, bb) implies dv(b, p, DecMode::Table(dx))
                    == Ok::<(Ov, int), Error>((Ov::Array(vds), p + bb.len())) by {
                    lemma_bytes_at_split(b, p, arr_hdr(n), bs);
                    lemma_inv_arr_hdr(b, p, DecMode::Table(dx), n);
                }
                assert(node_post(o, t, env, d, d2, Ov::Array(vds)));
            },
            Ov::Dict(s) => {
                crate::model::lemma_enc_dict(s, t);
                lemma_intern_rt_prs(s, t, env, d);
                let (d2, vds) = choose|d2: Seq<Ov>, vds: Seq<(Ov, Ov)>|
                    #[trigger] pairs_post(s, t, env, d, d2, vds);
                let bs = (enc_pairs(s, t)->Ok_0).0;
                let n = s.len() as int;
                assert forall|dx: Seq<Ov>, b: Seq<u8>, p: int|
                    prefix_of(d2, dx) && bytes_at(b, p, bb) implies dv(b, p, DecMode::Table(dx))
                    == Ok::<(Ov, int), Error>((Ov::Dict(vds), p + bb.len())) by {
                    lemma_bytes_at_split(b, p, map_hdr(n), bs);
                    lemma_inv_map_hdr(b, p, DecMode::Table(dx), n);
                }
                assert(node_post(o, t, env, d, d2, Ov::Dict(vds)));
            },
            Ov::Intern(bv, by_id, a) => {
                let v = *bv;
                crate::model::lemma_enc_intern_node(v, by_id, a, t);
                assert(o == Ov::Intern(Box::new(v), by_id, a));
                match crate::model::tab_lookup(t, v, by_id, a) {
                    Some(i) => {
                        lemma_intern_hit(v, by_id, a, t, env, d, i);
                        assert forall|dx: Seq<Ov>, b: Seq<u8>, p: int|
                            prefix_of(d, dx) && bytes_at(b, p, bb) implies dv(
                            b,
                            p,
                            DecMode::Table(dx),
                        ) == Ok::<(Ov, int), Error>((d[i], p + bb.len())) by {
                            assert(bytes_at(b, p, crate::model::ref_bytes(i)));
                        }
                        assert(prefix_of(d, d)) by {
                            assert(d.take(d.len() as int) =~= d);
                        }
                        assert(node_post(o, t, env, d, d, d[i]));
                    },
                    None => {
                        lemma_intern_rt(v, t, env, d);
                        let (d2a, vdv) = choose|d2a: Seq<Ov>, vdv: Ov|
                            #[trigger] node_post(v, t, env, d, d2a, vdv);
                        let vb = (enc(v, t)->Ok_0).0;
                        let t1 = (enc(v, t)->Ok_0).1;
                        match crate::model::tab_lookup(t1, v, by_id, a) {
                            Some(i) => {
                                lemma_intern_hit(v, by_id, a, t1, env, d2a, i);
                                assert forall|dx: Seq<Ov>, b: Seq<u8>, p: int|
                                    prefix_of(d2a, dx) && bytes_at(b, p, bb) implies dv(
                                    b,
                                    p,
                                    DecMode::Table(dx),
                                ) == Ok::<(Ov, int), Error>((d2a[i], p + bb.len())) by {
                                    assert(bytes_at(b, p, crate::model::ref_bytes(i)));
                                }
                                assert(node_post(o, t, env, d, d2a, d2a[i]));
                            },
                            None => {
                                lemma_intern_push(o, v, by_id, a, t, env, d, d2a, vdv);
                            },
                        }
                    },
                }
            },
            _ => {
                assert(false);
            },
        }
    }
}

/// A plain value strips to itself and is intern-free.
pub proof fn lemma_plain_strip(o: Ov)
    requires
        plain(o),
    ensures
        crate::object::strip(o) == o,
{
    lemma_plain_intern_free(o);
    lemma_strip_id(o);
}

pub proof fn lemma_plain_intern_free(o: Ov)
    ensures
        plain(o) ==> intern_free(o),
    decreases o,
{
    match o {
        Ov::Array(s) => {
            lemma_plain_intern_free_seq(s);
        },
        Ov::Dict(s) => {
            lemma_plain_intern_free_pairs(s);
        },
        _ => {},
    }
}

pub proof fn lemma_plain_intern_free_seq(s: Seq<Ov>)
    ensures
        plain_seq(s) ==> intern_free_seq(s),
    decreases s,
{
    if s.len() > 0 {
        lemma_plain_intern_free(s[0]);
        lemma_plain_intern_free_seq(s.drop_first());
    }
}

pub proof fn lemma_plain_intern_free_pairs(s: Seq<(Ov, Ov)>)
    ensures
        plain_pairs(s) ==> intern_free_pairs(s),
    decreases s,
{
    if s.len() > 0 {
        lemma_plain_intern_free(s[0].0);
        lemma_plain_intern_free(s[0].1);
        lemma_plain_intern_free_pairs(s.drop_first());
    }
}

} // verus!

verus! {

/// A table lookup hit points at a live entry that stands for an equal
/// value; a reference to it parses back to the decoded entry.
pub proof fn lemma_intern_hit(
    v: Ov,
    by_id: bool,
    a: int,
    tcur: EncTab,
    env: Map<int, Ov>,
    dcur: Seq<Ov>,
    i: int,
)
    requires
        tab_ok(tcur, dcur, env),
        by_id ==> env.contains_key(a) && crate::object::ov_eq(env[a], v),
        crate::model::tab_lookup(tcur, v, by_id, a) == Some(i),
    ensures
        0 <= i < dcur.len(),
        crate::object::ov_eq(dcur[i], crate::object::strip(v)),
        intern_free(dcur[i]),
        crate::model::ref_bytes(i).len() >= 2,
        forall|dx: Seq<Ov>, b: Seq<u8>, p: int|
            #![trigger prefix_of(dcur, dx), bytes_at(b, p, crate::model::ref_bytes(i))]
            prefix_of(dcur, dx) && bytes_at(b, p, crate::model::ref_bytes(i)) ==> dv(
                b,
                p,
                DecMode::Table(dx),
            ) == Ok::<(Ov, int), Error>((dcur[i], p + crate::model::ref_bytes(i).len())),
{
    if by_id {
        assert(tcur.ids.contains_key(a));
        assert(i == tcur.ids[a]);
        assert(crate::object::ov_eq(tcur.origs[i], env[a]));
        lemma_ov_eq_sym(env[a], v);
        lemma_ov_eq_trans(tcur.origs[i], env[a], v);
    } else {
        crate::model::lemma_find_eq(tcur.origs, v);
        assert(crate::object::ov_eq(tcur.origs[i], v));
    }
    // dcur[i] equals the stripped original, which equals the stripped v.
    lemma_strip_cong(tcur.origs[i], v);
    lemma_ov_eq_trans(
        dcur[i],
        crate::object::strip(tcur.origs[i]),
        crate::object::strip(v),
    );
    assert forall|dx: Seq<Ov>, b: Seq<u8>, p: int|
        prefix_of(dcur, dx) && bytes_at(b, p, crate::model::ref_bytes(i)) implies dv(
        b,
        p,
        DecMode::Table(dx),
    ) == Ok::<(Ov, int), Error>((dcur[i], p + crate::model::ref_bytes(i).len())) by {
        lemma_inv_ref(b, p, dx, i);
        lemma_prefix_index(dcur, dx, i);
    }
}

/// Appending a fresh entry keeps the table relation and leaves a
/// reference that parses to the entry's decoded value.
#[verifier::rlimit(100)]
#[verifier::spinoff_prover]
pub proof fn lemma_intern_push(
    o: Ov,
    v: Ov,
    by_id: bool,
    a: int,
    t: EncTab,
    env: Map<int, Ov>,
    d: Seq<Ov>,
    d2a: Seq<Ov>,
    vdv: Ov,
)
    requires
        o == Ov::Intern(Box::new(v), by_id, a),
        internable(o),
        env_ok(o, env),
        tab_ok(t, d, env),
        enc(o, t) matches Ok(_),
        enc(v, t) matches Ok(_),
        node_post(v, t, env, d, d2a, vdv),
        crate::model::tab_lookup(t, v, by_id, a) is None,
        crate::model::tab_lookup((enc(v, t)->Ok_0).1, v, by_id, a) is None,
    ensures
        node_post(o, t, env, d, d2a.push(vdv), vdv),
{
    crate::model::lemma_enc_intern_node(v, by_id, a, t);
    let vb = (enc(v, t)->Ok_0).0;
    let t1 = (enc(v, t)->Ok_0).1;
    let idx = t1.blocks.len() as int;
    let t2 = crate::model::tab_insert(t1, vb, v, by_id, a);
    let d2 = d2a.push(vdv);
    assert(enc(o, t) == Ok::<(Seq<u8>, EncTab), Error>((crate::model::ref_bytes(idx), t2)));
    assert(idx == d2a.len());

    // The extended table relation.
    assert(tab_ok(t2, d2, env)) by {
        assert forall|j: int| 0 <= j < d2.len() implies crate::object::ov_eq(
            #[trigger] d2[j],
            crate::object::strip(t2.origs[j]),
        ) by {
            if j < idx {
                assert(t2.origs[j] == t1.origs[j]);
            } else {
                assert(t2.origs[j] == v);
            }
        }
        assert forall|j: int| 0 <= j < d2.len() implies intern_free(#[trigger] d2[j]) by {}
        assert forall|j: int| 0 <= j < d2.len() implies (#[trigger] t2.blocks[j]).len() >= 1 by {
            if j < idx {
                assert(t2.blocks[j] == t1.blocks[j]);
            } else {
                assert(t2.blocks[j] == vb);
            }
        }
        assert forall|j: int| 0 <= j < d2.len() implies #[trigger] entry_ok(t2, d2, j) by {
            if j < idx {
                assert(entry_ok(t1, d2a, j));
                assert(d2.take(j) =~= d2a.take(j));
                assert(t2.blocks[j] == t1.blocks[j]);
                assert forall|dx: Seq<Ov>, b: Seq<u8>, p: int|
                    prefix_of(d2.take(j), dx) && bytes_at(b, p, t2.blocks[j]) implies dv(
                    b,
                    p,
                    DecMode::Table(dx),
                ) == Ok::<(Ov, int), Error>((d2[j], p + t2.blocks[j].len())) by {
                    assert(prefix_of(d2a.take(j), dx));
                    assert(bytes_at(b, p, t1.blocks[j]));
                }
            } else {
                assert(d2.take(idx) =~= d2a);
                assert(t2.blocks[j] == vb);
                assert forall|dx: Seq<Ov>, b: Seq<u8>, p: int|
                    prefix_of(d2.take(j), dx) && bytes_at(b, p, t2.blocks[j]) implies dv(
                    b,
                    p,
                    DecMode::Table(dx),
                ) == Ok::<(Ov, int), Error>((d2[j], p + t2.blocks[j].len())) by {
                    assert(prefix_of(d2a, dx));
                    assert(bytes_at(b, p, vb));
                }
            }
        }
        assert forall|aa: int| #[trigger] t2.ids.contains_key(aa) implies 0 <= t2.ids[aa]
            < d2.len() && env.contains_key(aa) && crate::object::ov_eq(
            t2.origs[t2.ids[aa]],
            env[aa],
        ) by {
            if by_id && aa == a {
                assert(t2.ids[aa] == idx);
                assert(t2.origs[idx] == v);
                assert(env.contains_key(a) && crate::object::ov_eq(env[a], v));
                lemma_ov_eq_sym(env[a], v);
            } else {
                assert(t1.ids.contains_key(aa));
                assert(t2.ids[aa] == t1.ids[aa]);
                assert(t2.origs[t1.ids[aa]] == t1.origs[t1.ids[aa]]);
            }
        }
    }
    assert(prefix_of(d, d2)) by {
        assert(prefix_of(d2a, d2)) by {
            assert(d2.take(d2a.len() as int) =~= d2a);
        }
        lemma_prefix_trans(d, d2a, d2);
    }
    assert(crate::object::ov_eq(vdv, crate::object::strip(o)));
    assert forall|dx: Seq<Ov>, b: Seq<u8>, p: int|
        prefix_of(d2, dx) && bytes_at(b, p, crate::model::ref_bytes(idx)) implies dv(
        b,
        p,
        DecMode::Table(dx),
    ) == Ok::<(Ov, int), Error>((vdv, p + crate::model::ref_bytes(idx).len())) by {
        lemma_inv_ref(b, p, dx, idx);
        lemma_prefix_index(d2, dx, idx);
        assert(d2[idx] == vdv);
    }
    assert(node_post(o, t, env, d, d2, vdv));
}

} // verus!

verus! {

/// The round-trip induction over the elements of an array.
#[verifier::rlimit(100)]
#[verifier::spinoff_prover]
pub proof fn lemma_intern_rt_elems(s: Seq<Ov>, t: EncTab, env: Map<int, Ov>, d: Seq<Ov>)
    requires
        internable_seq(s),
        env_ok_seq(s, env),
        tab_ok(t, d, env),
        enc_seq(s, t) matches Ok(_),
    ensures
        exists|d2: Seq<Ov>, vds: Seq<Ov>| #[trigger] seq_post(s, t, env, d, d2, vds),
    decreases s, 2int,
{
    let bb = (enc_seq(s, t)->Ok_0).0;
    if s.len() == 0 {
        crate::model::lemma_enc_seq_nil(t);
        assert(s =~= Seq::<Ov>::empty());
        assert(bb =~= Seq::<u8>::empty());
        assert(crate::object::strip_seq(s) =~= Seq::<Ov>::empty());
        assert(prefix_of(d, d)) by {
            assert(d.take(d.len() as int) =~= d);
        }
        assert forall|dx: Seq<Ov>, b: Seq<u8>, p: int|
            prefix_of(d, dx) && bytes_at(b, p, bb) implies dv_elems(b, p, 0, DecMode::Table(dx))
            == Ok::<(Seq<Ov>, int), Error>((Seq::empty(), p + 0)) by {}
        assert(seq_post(s, t, env, d, d, Seq::<Ov>::empty()));
    } else {
        crate::model::lemma_enc_seq_cons(s, t);
        lemma_intern_rt(s[0], t, env, d);
        let (d2a, vd0) = choose|d2a: Seq<Ov>, vd0: Ov| #[trigger] node_post(s[0], t, env, d, d2a, vd0);
        let b0 = (enc(s[0], t)->Ok_0).0;
        let t1 = (enc(s[0], t)->Ok_0).1;
        lemma_intern_rt_elems(s.drop_first(), t1, env, d2a);
        let (d2, vdr) = choose|d2: Seq<Ov>, vdr: Seq<Ov>|
            #[trigger] seq_post(s.drop_first(), t1, env, d2a, d2, vdr);
        let bs = (enc_seq(s.drop_first(), t1)->Ok_0).0;
        let vds = seq![vd0] + vdr;
        assert(bb == b0 + bs);
        assert forall|dx: Seq<Ov>, b: Seq<u8>, p: int|
            prefix_of(d2, dx) && bytes_at(b, p, bb) implies dv_elems(
            b,
            p,
            s.len() as int,
            DecMode::Table(dx),
        ) == Ok::<(Seq<Ov>, int), Error>((vds, p + bb.len())) by {
            lemma_bytes_at_split(b, p, b0, bs);
            lemma_prefix_trans(d2a, d2, dx);
            assert(dv(b, p, DecMode::Table(dx)) == Ok::<(Ov, int), Error>((vd0, p + b0.len())));
            assert(dv_elems(b, p + b0.len(), s.len() - 1, DecMode::Table(dx)) == Ok::<
                (Seq<Ov>, int),
                Error,
            >((vdr, p + b0.len() + bs.len())));
            assert(seq![vd0] + vdr =~= vds);
        }
        assert(crate::object::ovs_eq(vds, crate::object::strip_seq(s))) by {
            assert(vds[0] == vd0);
            assert(vds.drop_first() =~= vdr);
            assert(crate::object::strip_seq(s)[0] == crate::object::strip(s[0]));
            assert(crate::object::strip_seq(s).drop_first() =~= crate::object::strip_seq(
                s.drop_first(),
            ));
            assert(crate::object::strip_seq(s).len() == s.len()) by {
                lemma_strip_seq_len(s);
            }
        }
        assert(prefix_of(d, d2)) by {
            lemma_prefix_trans(d, d2a, d2);
        }
        assert(intern_free_seq(vds)) by {
            assert(vds[0] == vd0);
            assert(vds.drop_first() =~= vdr);
        }
        assert((!intern_free_seq(s) ==> d2.len() >= 1)) by {
            if !intern_free_seq(s) {
                if !intern_free(s[0]) {
                    assert(d2a.len() >= 1);
                    assert(d2.len() >= d2a.len());
                } else {
                    assert(!intern_free_seq(s.drop_first()));
                }
            }
        }
        assert(seq_post(s, t, env, d, d2, vds));
    }
}

pub proof fn lemma_strip_seq_len(s: Seq<Ov>)
    ensures
        crate::object::strip_seq(s).len() == s.len(),
    decreases s,
{
    if s.len() > 0 {
        lemma_strip_seq_len(s.drop_first());
    }
}

pub proof fn lemma_strip_pairs_len(s: Seq<(Ov, Ov)>)
    ensures
        crate::object::strip_pairs(s).len() == s.len(),
    decreases s,
{
    if s.len() > 0 {
        lemma_strip_pairs_len(s.drop_first());
    }
}

/// The round-trip induction over the pairs of a map.
#[verifier::rlimit(100)]
#[verifier::spinoff_prover]
pub proof fn lemma_intern_rt_prs(s: Seq<(Ov, Ov)>, t: EncTab, env: Map<int, Ov>, d: Seq<Ov>)
    requires
        internable_pairs(s),
        env_ok_pairs(s, env),
        tab_ok(t, d, env),
        enc_pairs(s, t) matches Ok(_),
    ensures
        exists|d2: Seq<Ov>, vds: Seq<(Ov, Ov)>| #[trigger] pairs_post(s, t, env, d, d2, vds),
    decreases s, 2int,
{
    let bb = (enc_pairs(s, t)->Ok_0).0;
    if s.len() == 0 {
        crate::model::lemma_enc_pairs_nil(t);
        assert(s =~= Seq::<(Ov, Ov)>::empty());
        assert(bb =~= Seq::<u8>::empty());
        assert(crate::object::strip_pairs(s) =~= Seq::<(Ov, Ov)>::empty());
        assert(prefix_of(d, d)) by {
            assert(d.take(d.len() as int) =~= d);
        }
        assert forall|dx: Seq<Ov>, b: Seq<u8>, p: int|
            prefix_of(d, dx) && bytes_at(b, p, bb) implies dv_pair_elems(
            b,
            p,
            0,
            DecMode::Table(dx),
        ) == Ok::<(Seq<(Ov, Ov)>, int), Error>((Seq::empty(), p + 0)) by {}
        assert(pairs_post(s, t, env, d, d, Seq::<(Ov, Ov)>::empty()));
    } else {
        crate::model::lemma_enc_pairs_cons(s, t);
        lemma_intern_rt(s[0].0, t, env, d);
        let (dk, vk) = choose|dk: Seq<Ov>, vk: Ov| #[trigger] node_post(s[0].0, t, env, d, dk, vk);
        let bk = (enc(s[0].0, t)->Ok_0).0;
        let tk = (enc(s[0].0, t)->Ok_0).1;
        lemma_intern_rt(s[0].1, tk, env, dk);
        let (dvv, vv) = choose|dvv: Seq<Ov>, vv: Ov|
            #[trigger] node_post(s[0].1, tk, env, dk, dvv, vv);
        let bv = (enc(s[0].1, tk)->Ok_0).0;
        let tv = (enc(s[0].1, tk)->Ok_0).1;
        lemma_intern_rt_prs(s.drop_first(), tv, env, dvv);
        let (d2, vdr) = choose|d2: Seq<Ov>, vdr: Seq<(Ov, Ov)>|
            #[trigger] pairs_post(s.drop_first(), tv, env, dvv, d2, vdr);
        let bs = (enc_pairs(s.drop_first(), tv)->Ok_0).0;
        let vds = seq![(vk, vv)] + vdr;
        assert(bb == bk + bv + bs);
        assert forall|dx: Seq<Ov>, b: Seq<u8>, p: int|
            prefix_of(d2, dx) && bytes_at(b, p, bb) implies dv_pair_elems(
            b,
            p,
            s.len() as int,
            DecMode::Table(dx),
        ) == Ok::<(Seq<(Ov, Ov)>, int), Error>((vds, p + bb.len())) by {
            assert(bb =~= bk + (bv + bs));
            lemma_bytes_at_split(b, p, bk, bv + bs);
            lemma_bytes_at_split(b, p + bk.len(), bv, bs);
            lemma_prefix_trans(dk, dvv, d2);
            lemma_prefix_trans(dk, d2, dx);
            lemma_prefix_trans(dvv, d2, dx);
            assert(dv(b, p, DecMode::Table(dx)) == Ok::<(Ov, int), Error>((vk, p + bk.len())));
            assert(dv(b, p + bk.len(), DecMode::Table(dx)) == Ok::<(Ov, int), Error>((
                vv,
                p + bk.len() + bv.len(),
            )));
            assert(dv_pair_elems(b, p + bk.len() + bv.len(), s.len() - 1, DecMode::Table(dx))
                == Ok::<(Seq<(Ov, Ov)>, int), Error>((vdr, p + bk.len() + bv.len() + bs.len())));
            assert(seq![(vk, vv)] + vdr =~= vds);
        }
        assert(crate::object::ov_pairs_eq(vds, crate::object::strip_pairs(s))) by {
            assert(vds[0] == (vk, vv));
            assert(vds.drop_first() =~= vdr);
            assert(crate::object::strip_pairs(s)[0] == (crate::object::strip(s[0].0),
            crate::object::strip(s[0].1)));
            assert(crate::object::strip_pairs(s).drop_first() =~= crate::object::strip_pairs(
                s.drop_first(),
            ));
            lemma_strip_pairs_len(s);
        }
        assert(prefix_of(d, d2)) by {
            lemma_prefix_trans(d, dk, dvv);
            lemma_prefix_trans(d, dvv, d2);
        }
        assert(intern_free_pairs(vds)) by {
            assert(vds[0] == (vk, vv));
            assert(vds.drop_first() =~= vdr);
        }
        assert((!intern_free_pairs(s) ==> d2.len() >= 1)) by {
            if !intern_free_pairs(s) {
                if !intern_free(s[0].0) {
                    assert(dk.len() >= 1);
                } else if !intern_free(s[0].1) {
                    assert(dvv.len() >= 1);
                } else {
                    assert(!intern_free_pairs(s.drop_first()));
                }
            }
        }
        assert(pairs_post(s, t, env, d, d2, vds));
    }
}

} // verus!

verus! {

/// Loading the table: the serialized entry blocks, decoded left to right
/// starting from the entries loaded so far, reconstruct the whole decoded
/// list.
pub proof fn lemma_entries_load(
    t: EncTab,
    dd: Seq<Ov>,
    env: Map<int, Ov>,
    b: Seq<u8>,
    pos: int,
    k: int,
)
    requires
        tab_ok(t, dd, env),
        0 <= k <= dd.len(),
        bytes_at(b, pos, crate::model::table_bytes(t.blocks.skip(k))),
    ensures
        crate::model::dv_entries(b, pos, dd.len() - k, dd.take(k)) == Ok::<
            (Seq<Ov>, int),
            Error,
        >((dd, pos + crate::model::table_bytes(t.blocks.skip(k)).len())),
    decreases dd.len() - k,
{
    if k == dd.len() {
        assert(t.blocks.skip(k) =~= Seq::<Seq<u8>>::empty());
        assert(dd.take(k) =~= dd);
    } else {
        let blk = t.blocks[k];
        assert(t.blocks.skip(k)[0] == blk);
        assert(t.blocks.skip(k).drop_first() =~= t.blocks.skip(k + 1));
        assert(crate::model::table_bytes(t.blocks.skip(k)) == blk + crate::model::table_bytes(
            t.blocks.skip(k + 1),
        ));
        lemma_bytes_at_split(b, pos, blk, crate::model::table_bytes(t.blocks.skip(k + 1)));
        assert(entry_ok(t, dd, k));
        assert(prefix_of(dd.take(k), dd.take(k))) by {
            assert(dd.take(k).take(dd.take(k).len() as int) =~= dd.take(k));
        }
        assert(bytes_at(b, pos, t.blocks[k]));
        assert(dv(b, pos, DecMode::Table(dd.take(k))) == Ok::<(Ov, int), Error>((
            dd[k],
            pos + blk.len(),
        )));
        assert(dd.take(k).push(dd[k]) =~= dd.take(k + 1));
        lemma_entries_load(t, dd, env, b, pos + blk.len(), k + 1);
    }
}

/// Intern round-trip equivalence: decoding the encoding of any
/// internable tree yields, with no intern wrapper left anywhere, the
/// structural copy of the tree in which every interned value stands in
/// place of its wrapper.  `env` witnesses that handles sharing a storage
/// address hold equal values.
#[verifier::rlimit(100)]
#[verifier::spinoff_prover]
pub proof fn lemma_roundtrip_interned(o: Ov, env: Map<int, Ov>)
    requires
        internable(o),
        env_ok(o, env),
        enc_top(o) matches Ok(_),
    ensures
        ({
            let bytes = enc_top(o)->Ok_0;
            &&& dec_top(bytes) matches Ok(_)
            &&& crate::object::ov_eq(dec_top(bytes)->Ok_0, crate::object::strip(o))
            &&& intern_free(dec_top(bytes)->Ok_0)
        }),
{
    let t0 = EncTab::empty();
    assert(tab_ok(t0, Seq::<Ov>::empty(), env));
    assert(prefix_of(Seq::<Ov>::empty(), Seq::<Ov>::empty())) by {
        assert(Seq::<Ov>::empty().take(0) =~= Seq::<Ov>::empty());
    }
    lemma_intern_rt(o, t0, env, Seq::<Ov>::empty());
    let (df, vd) = choose|df: Seq<Ov>, vd: Ov|
        #[trigger] node_post(o, t0, env, Seq::<Ov>::empty(), df, vd);
    let mb = (enc(o, t0)->Ok_0).0;
    let tf = (enc(o, t0)->Ok_0).1;
    let bytes = enc_top(o)->Ok_0;
    if tf.blocks.len() == 0 {
        assert(df.len() == 0);
        assert(intern_free(o));
        lemma_intern_free_plain(o);
        lemma_roundtrip_plain(o);
        lemma_strip_id(o);
        lemma_ov_eq_refl(o);
    } else {
        let n = tf.blocks.len() as int;
        let tb = crate::model::table_bytes(tf.blocks);
        let payload = arr_hdr(n) + tb + mb;
        assert(bytes == ext_hdr(payload.len() as int, INTERN_TABLE_EXT) + payload);
        assert(bytes_at(bytes, 0, bytes)) by {
            assert(bytes.subrange(0, bytes.len() as int) =~= bytes);
        }
        lemma_bytes_at_split(bytes, 0, ext_hdr(payload.len() as int, INTERN_TABLE_EXT), payload);
        lemma_inv_ext_hdr(bytes, 0, DecMode::Plain, payload.len() as int, INTERN_TABLE_EXT);
        let hl = ext_hdr(payload.len() as int, INTERN_TABLE_EXT).len() as int;
        assert(bytes.subrange(hl, hl + payload.len()) == payload);

        // The table header at the front of the payload.
        assert(payload =~= arr_hdr(n) + (tb + mb));
        assert(bytes_at(payload, 0, arr_hdr(n) + (tb + mb))) by {
            assert(payload.subrange(0, payload.len() as int) =~= arr_hdr(n) + (tb + mb));
        }
        lemma_bytes_at_split(payload, 0, arr_hdr(n), tb + mb);
        lemma_bytes_at_index(payload, 0, arr_hdr(n));
        let start = arr_hdr(n).len() as int;
        if n >= 0x10 && n < 0x10000 {
            lemma_be16_roundtrip(n);
        }
        if n >= 0x10000 {
            lemma_be32_roundtrip(n);
        }
        lemma_bytes_at_split(payload, start, tb, mb);
        assert(tf.blocks.skip(0) =~= tf.blocks);
        assert(df.take(0) =~= Seq::<Ov>::empty());
        lemma_entries_load(tf, df, env, payload, start, 0);
        assert(crate::model::dv_entries(payload, start, n, Seq::<Ov>::empty()) == Ok::<
            (Seq<Ov>, int),
            Error,
        >((df, start + tb.len())));
        let pos2 = start + tb.len() as int;
        assert(pos2 < payload.len());
        assert(prefix_of(df, df)) by {
            assert(df.take(df.len() as int) =~= df);
        }
        assert(bytes_at(payload, pos2, mb));
        assert(dv(payload, pos2, DecMode::Table(df)) == Ok::<(Ov, int), Error>((
            vd,
            pos2 + mb.len(),
        )));
        assert(crate::model::dv_table(payload) == Ok::<Ov, Error>(vd));
        assert(crate::model::dv_ext(
            bytes,
            hl,
            payload.len() as int,
            INTERN_TABLE_EXT,
            DecMode::Plain,
        ) == Ok::<(Ov, int), Error>((vd, hl + payload.len())));
    }
}

} // verus!

verus! {

/// Intern compression, for the basic sharing shape: an array holding two
/// identity references to one shared value encodes strictly shorter than
/// the array holding the value twice, once the value's own encoding
/// exceeds a handful of bytes.
#[verifier::rlimit(100)]
#[verifier::spinoff_prover]
pub proof fn lemma_intern_compression(v: Ov, a: int)
    requires
        plain(v),
        enc(v, EncTab::empty()) matches Ok(_),
        (enc(v, EncTab::empty())->Ok_0).0.len() >= 14,
        ({
            let shared2 = Ov::Array(
                seq![Ov::Intern(Box::new(v), true, a), Ov::Intern(Box::new(v), true, a)],
            );
            enc_top(shared2) matches Ok(_)
        }),
    ensures
        ({
            let shared2 = Ov::Array(
                seq![Ov::Intern(Box::new(v), true, a), Ov::Intern(Box::new(v), true, a)],
            );
            let twice = Ov::Array(seq![v, v]);
            &&& enc_top(twice) matches Ok(_)
            &&& (enc_top(shared2)->Ok_0).len() < (enc_top(twice)->Ok_0).len()
        }),
{
    let t0 = EncTab::empty();
    let vb = (enc(v, t0)->Ok_0).0;
    lemma_plain_table_indep(v, t0, t0);
    assert(enc(v, t0) == Ok::<(Seq<u8>, EncTab), Error>((vb, t0)));

    // The shared form: one entry, two references to index zero.
    let n1 = Ov::Intern(Box::new(v), true, a);
    crate::model::lemma_enc_intern_node(v, true, a, t0);
    let t1 = crate::model::tab_insert(t0, vb, v, true, a);
    assert(enc(n1, t0) == Ok::<(Seq<u8>, EncTab), Error>((crate::model::ref_bytes(0), t1)));
    crate::model::lemma_enc_intern_node(v, true, a, t1);
    assert(t1.ids.contains_key(a) && t1.ids[a] == 0);
    assert(enc(n1, t1) == Ok::<(Seq<u8>, EncTab), Error>((crate::model::ref_bytes(0), t1)));
    let s2 = seq![n1, n1];
    crate::model::lemma_enc_seq_cons(s2, t0);
    assert(s2.drop_first() =~= seq![n1]);
    crate::model::lemma_enc_seq_cons(seq![n1], t1);
    assert(seq![n1].drop_first() =~= Seq::<Ov>::empty());
    crate::model::lemma_enc_seq_nil(t1);
    let shared2 = Ov::Array(s2);
    crate::model::lemma_enc_array(s2, t0);
    let r0 = crate::model::ref_bytes(0);
    assert(r0.len() == 3);
    let mb = (enc(shared2, t0)->Ok_0).0;
    assert(mb == arr_hdr(2) + (r0 + (r0 + Seq::<u8>::empty())));
    assert(mb.len() == 7);
    assert(t1.blocks.len() == 1);
    let tb = crate::model::table_bytes(t1.blocks);
    assert(t1.blocks.drop_first() =~= Seq::<Seq<u8>>::empty());
    assert(tb == vb + crate::model::table_bytes(Seq::<Seq<u8>>::empty()));
    assert(tb.len() == vb.len());
    let payload = arr_hdr(1) + tb + mb;
    assert(payload.len() == vb.len() + 8);
    assert(enc_top(shared2)->Ok_0 == ext_hdr(payload.len() as int, INTERN_TABLE_EXT) + payload);
    assert(ext_hdr(payload.len() as int, INTERN_TABLE_EXT).len() <= 6);
    assert((enc_top(shared2)->Ok_0).len() <= vb.len() + 14);

    // The plain form: the value written out twice.
    let sp = seq![v, v];
    crate::model::lemma_enc_seq_cons(sp, t0);
    assert(sp.drop_first() =~= seq![v]);
    crate::model::lemma_enc_seq_cons(seq![v], t0);
    assert(seq![v].drop_first() =~= Seq::<Ov>::empty());
    crate::model::lemma_enc_seq_nil(t0);
    let twice = Ov::Array(sp);
    crate::model::lemma_enc_array(sp, t0);
    assert(enc(twice, t0) matches Ok(_));
    let mb2 = (enc(twice, t0)->Ok_0).0;
    assert(mb2 == arr_hdr(2) + (vb + (vb + Seq::<u8>::empty())));
    assert(mb2.len() == 1 + 2 * vb.len());
    assert((enc(twice, t0)->Ok_0).1 == t0);
    assert(enc_top(twice)->Ok_0 == mb2);
    assert((enc_top(shared2)->Ok_0).len() < (enc_top(twice)->Ok_0).len());
}

} // verus!
