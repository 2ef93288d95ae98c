//! The codec: the public entry points `dumps` and `loads`, the namespace
//! registry, and the verified encoder walk.
use std::collections::HashMap;
use vstd::prelude::*;

use crate::error::Error;
use crate::intern::{Ext, InternContext, CtxV, INTERN_TABLE_EXT};
use crate::model::{
    enc, enc_custom, enc_custom_payload, enc_ns, enc_pairs, enc_seq, enc_top, ref_bytes, EncTab,
    CUSTOM_EXT,
};
use crate::object::{
    view_obj, view_objs, view_pairs, lemma_view_objs, lemma_view_pairs, EncodedCustomType,
    InternValue, NamespaceRef, Object, Int, Ov,
};
use crate::wire::{
    arr_hdr, bin_hdr, enc_uint, ext_hdr, map_hdr, put_bytes, str_hdr, write_arr_hdr,
    write_bin_hdr, write_ext_hdr, write_map_hdr, write_nint, write_str_hdr, write_uint,
};

verus! {

broadcast use vstd::std_specs::vec::group_vec_axioms, vstd::seq::group_seq_axioms;

/// EXT type code carrying a custom-typed payload.
pub const CUSTOM_TYPE_EXT: i8 = 8;

/// A type-specific codec registered inside a static namespace.  The codec
/// core never calls these itself: resolution of custom payloads to user
/// objects happens above this layer.
pub trait CustomTypeCodec {
    fn matches(&self, obj: &Object) -> bool;

    fn encode(&self, obj: &Object) -> Result<EncodedCustomType, Error>;

    fn decode(&self, data: &EncodedCustomType) -> Result<Object, Error>;
}

/// A dynamic namespace: one handler answering for every type id in it.
pub trait CustomNamespace {
    fn matches(&self, obj: &Object) -> bool;

    fn encode(&self, obj: &Object) -> Result<EncodedCustomType, Error>;

    fn decode(&self, data: &EncodedCustomType) -> Result<Object, Error>;
}

/// What a registered namespace holds: a static table of type-specific
/// codecs, or one dynamic dispatcher.
pub enum Namespace {
    Static(HashMap<u32, Box<dyn CustomTypeCodec>>),
    Dynamic(Box<dyn CustomNamespace>),
}

/// The namespace registry, in registration order with unique names.
pub type Namespaces = Vec<(String, Namespace)>;

/// `name` is already registered in `s`.
pub open spec fn ns_has_name(s: Seq<(String, Namespace)>, name: Seq<char>) -> bool {
    exists|i: int| 0 <= i < s.len() && s[i].0@ == name
}

/// The codec: owns the namespace registry and the intern context, and is
/// reused across calls.  A failed call clears the intern state at the
/// start of the next one; the codec stays usable.
pub struct Codec {
    namespaces: Namespaces,
    intern_context: InternContext,
}

impl Codec {
    /// The names registered so far, in registration order.
    pub closed spec fn ns_names(&self) -> Seq<Seq<char>> {
        Seq::new(self.namespaces@.len(), |i: int| self.namespaces@[i].0@)
    }

    /// The intern context, for contracts.
    pub closed spec fn ctx(&self) -> InternContext {
        self.intern_context
    }

    pub(crate) fn ctx_ref(&self) -> (r: &InternContext)
        ensures
            *r == self.ctx(),
    {
        &self.intern_context
    }

    pub(crate) fn ctx_mut(&mut self) -> (r: &mut InternContext)
        ensures
            *r == old(self).ctx(),
            final(self).ctx() == *final(r),
            final(self).ns_names() == old(self).ns_names(),
    {
        &mut self.intern_context
    }

    pub fn new(namespaces: Option<Namespaces>) -> (r: Self)
        ensures
            r.ctx().wf(),
            r.ctx()@ == CtxV::Idle,
            match namespaces {
                Some(ns) => r.ns_names().len() == ns@.len(),
                None => r.ns_names().len() == 0,
            },
    {
        Self {
            namespaces: match namespaces {
                Some(ns) => ns,
                None => Vec::new(),
            },
            intern_context: InternContext::new(),
        }
    }

    /// Register a namespace under `namespace`; a second registration of
    /// the same name is refused with `InvalidState` and changes nothing.
    pub fn add_namespace(&mut self, namespace: String, types: Namespace) -> (r: Result<
        (),
        Error,
    >)
        ensures
            match r {
                Ok(()) => !ns_has_name_view(old(self).ns_names(), namespace@) && final(self).ns_names() == old(self).ns_names().push(namespace@),
                Err(e) => e == Error::InvalidState && ns_has_name_view(
                    old(self).ns_names(),
                    namespace@,
                ) && final(self).ns_names() == old(self).ns_names(),
            },
    {
        let n = self.namespaces.len();
        let mut i: usize = 0;
        while i < n
            invariant
                n == self.namespaces@.len(),
                i <= n,
                forall|j: int| 0 <= j < i ==> self.namespaces@[j].0@ != namespace@,
            decreases n - i,
        {
            if self.namespaces[i].0 == namespace {
                proof {
                    assert(self.ns_names()[i as int] == namespace@);
                }
                return Err(Error::InvalidState);
            }
            i += 1;
        }
        let ghost before = self.ns_names();
        self.namespaces.push((namespace, types));
        proof {
            assert forall|j: int| 0 <= j < before.len() implies !(before[j] == namespace@) by {}
            assert(final(self).ns_names() =~= before.push(namespace@));
        }
        Ok(())
    }
}

/// `name` occurs among the registered names.
pub open spec fn ns_has_name_view(names: Seq<Seq<char>>, name: Seq<char>) -> bool {
    exists|i: int| 0 <= i < names.len() && names[i] == name
}

impl Default for Codec {
    fn default() -> (r: Self)
        ensures
            r.ctx().wf(),
            r.ctx()@ == CtxV::Idle,
            r.ns_names().len() == 0,
    {
        Codec::new(None)
    }
}

impl Codec {
    /// Encode one object into a fresh buffer against the current intern
    /// table.
    #[verifier::rlimit(100)]
    fn encode_object(&mut self, obj: &Object) -> (r: Result<Vec<u8>, Error>)
        requires
            old(self).intern_context.wf(),
            !(old(self).intern_context@ matches CtxV::Dec(_)),
        ensures
            final(self).intern_context.wf(),
            !(final(self).intern_context@ matches CtxV::Dec(_)),
            ({
                let res = enc(view_obj(*obj), old(self).intern_context@.enc_tab());
                match r {
                    Ok(out) => (res matches Ok(p) && out@ == p.0 && final(self).intern_context@.enc_tab() == p.1),
                    Err(e) => (res matches Err(e2) && e2 == e),
                }
            }),
        decreases obj, 1int,
    {
        let mut buf: Vec<u8> = Vec::new();
        self.write_object(&mut buf, obj)?;
        Ok(buf)
    }

    /// Walk one object, appending its wire form to `buf`.
    #[verifier::rlimit(100)]
    #[verifier::spinoff_prover]
    fn write_object(&mut self, buf: &mut Vec<u8>, obj: &Object) -> (r: Result<(), Error>)
        requires
            old(self).intern_context.wf(),
            !(old(self).intern_context@ matches CtxV::Dec(_)),
        ensures
            final(self).intern_context.wf(),
            !(final(self).intern_context@ matches CtxV::Dec(_)),
            ({
                let res = enc(view_obj(*obj), old(self).intern_context@.enc_tab());
                match r {
                    Ok(()) => (res matches Ok(p) && final(buf)@ == old(buf)@ + p.0 && final(self).intern_context@.enc_tab() == p.1),
                    Err(e) => (res matches Err(e2) && e2 == e),
                }
            }),
        decreases obj, 0int,
    {
        let ghost t = self.intern_context@.enc_tab();
        match obj {
            Object::Nil => {
                buf.push(0xc0);
                proof {
                    crate::model::lemma_enc_nil(t);
                    assert(final(buf)@ =~= old(buf)@ + seq![0xc0u8]);
                }
                Ok(())
            },
            Object::Boolean(b) => {
                buf.push(if *b { 0xc3 } else { 0xc2 });
                proof {
                    crate::model::lemma_enc_bool(*b, t);
                    assert(final(buf)@ =~= old(buf)@ + (if *b { seq![0xc3u8] } else { seq![0xc2u8] }));
                }
                Ok(())
            },
            Object::Integer(v) => {
                match v {
                    Int::Unsigned(u) => write_uint(buf, *u),
                    Int::Signed(sv) => if *sv >= 0 {
                        write_uint(buf, *sv as u64)
                    } else {
                        write_nint(buf, *sv)
                    },
                }
                proof {
                    crate::model::lemma_enc_integer(v.as_int(), t);
                }
                Ok(())
            },
            Object::F32(bits) => {
                buf.push(0xca);
                crate::wire::put_be32(buf, *bits);
                proof {
                    crate::model::lemma_enc_f32(*bits, t);
                    assert(final(buf)@ =~= old(buf)@ + (seq![0xcau8] + crate::wire::be32(
                        *bits as int,
                    )));
                }
                Ok(())
            },
            Object::F64(bits) => {
                buf.push(0xcb);
                crate::wire::put_be64(buf, *bits);
                proof {
                    crate::model::lemma_enc_f64(*bits, t);
                    assert(final(buf)@ =~= old(buf)@ + (seq![0xcbu8] + crate::wire::be64(
                        *bits as int,
                    )));
                }
                Ok(())
            },
            Object::String(s) => {
                let r = Self::write_text(buf, s);
                proof {
                    crate::model::lemma_enc_text(s@, t);
                }
                r
            },
            Object::Binary(data) => {
                let r = Self::write_binary(buf, data);
                proof {
                    crate::model::lemma_enc_binary(data@, t);
                }
                r
            },
            Object::Array(values) => {
                let r = self.write_array(buf, values);
                proof {
                    crate::model::lemma_enc_array(view_objs(values@), t);
                    lemma_view_objs(values@);
                }
                r
            },
            Object::Dict(entries) => {
                let r = self.write_dict(buf, entries);
                proof {
                    crate::model::lemma_enc_dict(view_pairs(entries@), t);
                    lemma_view_pairs(entries@);
                }
                r
            },
            Object::Ext(code, data) => {
                let r = Self::write_ext_block(buf, *code, data);
                proof {
                    crate::model::lemma_enc_ext(*code, data@, t);
                }
                r
            },
            Object::Custom(custom) => {
                let r = Self::write_custom(buf, custom);
                proof {
                    crate::model::lemma_enc_custom_node(custom.namespace@, custom.type_id, custom.data@, t);
                }
                r
            },
            Object::Intern(iv) => self.write_intern(buf, iv),
        }
    }

    /// Emit a string: header then UTF-8 bytes.
    fn write_text(buf: &mut Vec<u8>, s: &String) -> (r: Result<(), Error>)
        ensures
            match r {
                Ok(()) => vstd::utf8::encode_utf8(s@).len() < 0x100000000 && final(buf)@ == old(
                    buf,
                )@ + (str_hdr(vstd::utf8::encode_utf8(s@).len() as int) + vstd::utf8::encode_utf8(
                    s@,
                )),
                Err(e) => e == Error::EncodeFailure && vstd::utf8::encode_utf8(s@).len()
                    >= 0x100000000,
            },
    {
        let bytes: &[u8] = s.as_str().as_bytes();
        if bytes.len() > u32::MAX as usize {
            return Err(Error::EncodeFailure);
        }
        write_str_hdr(buf, bytes.len() as u32);
        put_bytes(buf, bytes);
        proof {
            assert(final(buf)@ =~= old(buf)@ + (str_hdr(vstd::utf8::encode_utf8(s@).len() as int)
                + vstd::utf8::encode_utf8(s@)));
        }
        Ok(())
    }

    /// Emit a binary blob: header then raw bytes.
    fn write_binary(buf: &mut Vec<u8>, data: &Vec<u8>) -> (r: Result<(), Error>)
        ensures
            match r {
                Ok(()) => data@.len() < 0x100000000 && final(buf)@ == old(buf)@ + (bin_hdr(
                    data@.len() as int,
                ) + data@),
                Err(e) => e == Error::EncodeFailure && data@.len() >= 0x100000000,
            },
    {
        if data.len() > u32::MAX as usize {
            return Err(Error::EncodeFailure);
        }
        write_bin_hdr(buf, data.len() as u32);
        put_bytes(buf, data.as_slice());
        proof {
            assert(final(buf)@ =~= old(buf)@ + (bin_hdr(data@.len() as int) + data@));
        }
        Ok(())
    }

    /// Emit an EXT block verbatim: header then payload.
    fn write_ext_block(buf: &mut Vec<u8>, code: i8, data: &Vec<u8>) -> (r: Result<(), Error>)
        ensures
            match r {
                Ok(()) => data@.len() < 0x100000000 && final(buf)@ == old(buf)@ + (ext_hdr(
                    data@.len() as int,
                    code,
                ) + data@),
                Err(e) => e == Error::EncodeFailure && data@.len() >= 0x100000000,
            },
    {
        if data.len() > u32::MAX as usize {
            return Err(Error::EncodeFailure);
        }
        write_ext_hdr(buf, data.len() as u32, code);
        put_bytes(buf, data.as_slice());
        proof {
            assert(final(buf)@ =~= old(buf)@ + (ext_hdr(data@.len() as int, code) + data@));
        }
        Ok(())
    }

    /// Emit an array: header then each element in order.
    fn write_array(&mut self, buf: &mut Vec<u8>, values: &Vec<Object>) -> (r: Result<(), Error>)
        requires
            old(self).intern_context.wf(),
            !(old(self).intern_context@ matches CtxV::Dec(_)),
        ensures
            final(self).intern_context.wf(),
            !(final(self).intern_context@ matches CtxV::Dec(_)),
            ({
                let res = enc_seq(view_objs(values@), old(self).intern_context@.enc_tab());
                match r {
                    Ok(()) => values@.len() < 0x100000000 && (res matches Ok(p) && final(buf)@
                        == old(buf)@ + (arr_hdr(values@.len() as int) + p.0) && final(self).intern_context@.enc_tab() == p.1),
                    Err(e) => (values@.len() >= 0x100000000 && e == Error::EncodeFailure)
                        || (values@.len() < 0x100000000 && (res matches Err(e2) && e2 == e)),
                }
            }),
        decreases values, 2int,
    {
        proof {
            lemma_view_objs(values@);
        }
        if values.len() > u32::MAX as usize {
            return Err(Error::EncodeFailure);
        }
        write_arr_hdr(buf, values.len() as u32);
        let ghost mid = buf@;
        match self.write_elems(buf, values) {
            Ok(()) => {
                proof {
                    assert(final(buf)@ =~= old(buf)@ + (arr_hdr(values@.len() as int)
                        + final(buf)@.skip(mid.len() as int)));
                }
                Ok(())
            },
            Err(e) => Err(e),
        }
    }

    /// Emit a map: header then each pair in order, key before value.
    fn write_dict(&mut self, buf: &mut Vec<u8>, entries: &Vec<(Object, Object)>) -> (r: Result<
        (),
        Error,
    >)
        requires
            old(self).intern_context.wf(),
            !(old(self).intern_context@ matches CtxV::Dec(_)),
        ensures
            final(self).intern_context.wf(),
            !(final(self).intern_context@ matches CtxV::Dec(_)),
            ({
                let res = enc_pairs(view_pairs(entries@), old(self).intern_context@.enc_tab());
                match r {
                    Ok(()) => entries@.len() < 0x100000000 && (res matches Ok(p) && final(buf)@
                        == old(buf)@ + (map_hdr(entries@.len() as int) + p.0) && final(self).intern_context@.enc_tab() == p.1),
                    Err(e) => (entries@.len() >= 0x100000000 && e == Error::EncodeFailure)
                        || (entries@.len() < 0x100000000 && (res matches Err(e2) && e2 == e)),
                }
            }),
        decreases entries, 2int,
    {
        proof {
            lemma_view_pairs(entries@);
        }
        if entries.len() > u32::MAX as usize {
            return Err(Error::EncodeFailure);
        }
        write_map_hdr(buf, entries.len() as u32);
        let ghost mid = buf@;
        match self.write_pairs(buf, entries) {
            Ok(()) => {
                proof {
                    assert(final(buf)@ =~= old(buf)@ + (map_hdr(entries@.len() as int)
                        + final(buf)@.skip(mid.len() as int)));
                }
                Ok(())
            },
            Err(e) => Err(e),
        }
    }

    /// Emit the custom-type EXT envelope for one custom payload.
    #[verifier::rlimit(100)]
    fn write_custom(buf: &mut Vec<u8>, custom: &EncodedCustomType) -> (r: Result<(), Error>)
        ensures
            ({
                let res = enc_custom(custom.namespace@, custom.type_id, custom.data@);
                match r {
                    Ok(()) => (res matches Ok(b) && final(buf)@ == old(buf)@ + b),
                    Err(e) => (res matches Err(e2) && e2 == e),
                }
            }),
    {
        let payload = Self::encode_custom_payload(custom)?;
        if payload.len() > u32::MAX as usize {
            return Err(Error::EncodeFailure);
        }
        write_ext_hdr(buf, payload.len() as u32, CUSTOM_TYPE_EXT);
        put_bytes(buf, payload.as_slice());
        proof {
            assert(final(buf)@ =~= old(buf)@ + (ext_hdr(payload@.len() as int, CUSTOM_EXT)
                + payload@));
        }
        Ok(())
    }

    /// Emit an intern reference for `iv`, encoding its value into a fresh
    /// table entry when it is not deduplicated away.
    #[verifier::rlimit(100)]
    #[verifier::spinoff_prover]
    fn write_intern(&mut self, buf: &mut Vec<u8>, iv: &InternValue) -> (r: Result<(), Error>)
        requires
            old(self).intern_context.wf(),
            !(old(self).intern_context@ matches CtxV::Dec(_)),
        ensures
            final(self).intern_context.wf(),
            !(final(self).intern_context@ matches CtxV::Dec(_)),
            ({
                let res = enc(
                    Ov::Intern(Box::new(view_obj(*iv.value)), iv.by_identity, iv.addr as int),
                    old(self).intern_context@.enc_tab(),
                );
                match r {
                    Ok(()) => (res matches Ok(p) && final(buf)@ == old(buf)@ + p.0 && final(self).intern_context@.enc_tab() == p.1),
                    Err(e) => (res matches Err(e2) && e2 == e),
                }
            }),
        decreases iv, 3int,
    {
        proof {
            let vv = iv@;
            if let Ov::Intern(bv, byid, aa) = vv {
                crate::model::lemma_enc_intern_node(
                    *bv,
                    byid,
                    aa,
                    old(self).intern_context@.enc_tab(),
                );
            }
        }
        let looked = match self.intern_context.lookup(iv) {
            Ok(l) => l,
            Err(e) => {
                proof {
                    assert(false);
                }
                return Err(e);
            },
        };
        match looked {
            Some(idx) => {
                let mut rb: Vec<u8> = Vec::new();
                write_uint(&mut rb, idx as u64);
                proof {
                    assert(rb@ =~= enc_uint(idx as int));
                }
                let ext = Ext::new(INTERN_TABLE_EXT, rb);
                match ext.write(buf) {
                    Ok(()) => {
                        proof {
                            assert(final(buf)@ =~= old(buf)@ + ref_bytes(idx as int));
                        }
                        Ok(())
                    },
                    Err(e) => {
                        proof {
                            assert(enc_uint(idx as int).len() <= 9);
                            assert(false);
                        }
                        Err(e)
                    },
                }
            },
            None => {
                let encoded = self.encode_object(iv.value())?;
                let ext = match self.intern_context.intern(iv, encoded) {
                    Ok(e) => e,
                    Err(e) => {
                        proof {
                            assert(false);
                        }
                        return Err(e);
                    },
                };
                match ext.write(buf) {
                    Ok(()) => {
                        proof {
                            assert(final(buf)@ =~= old(buf)@ + (ext_hdr(
                                ext.data@.len() as int,
                                INTERN_TABLE_EXT,
                            ) + ext.data@));
                        }
                        Ok(())
                    },
                    Err(e) => {
                        proof {
                            assert(ext.data@.len() <= 9);
                            assert(false);
                        }
                        Err(e)
                    },
                }
            },
        }
    }

    /// Encode each element of an array in order.
    #[verifier::rlimit(100)]
    #[verifier::spinoff_prover]
    fn write_elems(&mut self, buf: &mut Vec<u8>, values: &Vec<Object>) -> (r: Result<(), Error>)
        requires
            old(self).intern_context.wf(),
            !(old(self).intern_context@ matches CtxV::Dec(_)),
        ensures
            final(self).intern_context.wf(),
            !(final(self).intern_context@ matches CtxV::Dec(_)),
            ({
                let res = enc_seq(view_objs(values@), old(self).intern_context@.enc_tab());
                match r {
                    Ok(()) => (res matches Ok(p) && final(buf)@ == old(buf)@ + p.0 && final(self).intern_context@.enc_tab() == p.1),
                    Err(e) => (res matches Err(e2) && e2 == e),
                }
            }),
        decreases values, 1int,
    {
        let ghost vs = view_objs(values@);
        let ghost t0 = self.intern_context@.enc_tab();
        proof {
            lemma_view_objs(values@);
            assert(vs.take(0) =~= Seq::<Ov>::empty());
            assert(buf@.skip(old(buf)@.len() as int) =~= Seq::<u8>::empty());
            assert(buf@.take(old(buf)@.len() as int) =~= old(buf)@);
        }
        let n = values.len();
        let mut i: usize = 0;
        while i < n
            invariant
                old(self).intern_context@.enc_tab() == t0,
                vs == view_objs(values@),
                vs.len() == n,
                forall|j: int| 0 <= j < n ==> vs[j] == view_obj(values@[j]),
                n == values@.len(),
                i <= n,
                self.intern_context.wf(),
                !(self.intern_context@ matches CtxV::Dec(_)),
                enc_seq(vs.take(i as int), t0) == Ok::<_, Error>((
                    buf@.skip(old(buf)@.len() as int),
                    self.intern_context@.enc_tab(),
                )),
                buf@.len() >= old(buf)@.len(),
                buf@.take(old(buf)@.len() as int) == old(buf)@,
            decreases n - i,
        {
            let ghost t_cur = self.intern_context@.enc_tab();
            let ghost buf_pre = buf@;
            let res = self.write_object(buf, &values[i]);
            match res {
                Ok(()) => {
                    proof {
                        let delta = buf@.skip(buf_pre.len() as int);
                        let res_spec = enc(vs[i as int], t_cur);
                        assert(res_spec matches Ok(p) && buf@ == buf_pre + p.0
                            && self.intern_context@.enc_tab() == p.1);
                        assert((buf_pre + res_spec->Ok_0.0).skip(buf_pre.len() as int)
                            =~= res_spec->Ok_0.0);
                        assert(delta == res_spec->Ok_0.0);
                        assert(buf@ =~= buf_pre + delta);
                        lemma_enc_seq_step(
                            vs,
                            t0,
                            i as int,
                            buf_pre.skip(old(buf)@.len() as int),
                            t_cur,
                            delta,
                            self.intern_context@.enc_tab(),
                        );
                        assert(buf@.skip(old(buf)@.len() as int) =~= buf_pre.skip(
                            old(buf)@.len() as int,
                        ) + delta);
                        assert(buf@.take(old(buf)@.len() as int) =~= old(buf)@);
                    }
                },
                Err(e) => {
                    proof {
                        lemma_enc_seq_err_at(vs, t0, i as int, e);
                    }
                    return Err(e);
                },
            }
            i += 1;
        }
        proof {
            assert(vs.take(n as int) =~= vs);
        }
        Ok(())
    }

    /// Encode each key/value pair of a map in order.
    #[verifier::rlimit(100)]
    #[verifier::spinoff_prover]
    fn write_pairs(&mut self, buf: &mut Vec<u8>, entries: &Vec<(Object, Object)>) -> (r: Result<
        (),
        Error,
    >)
        requires
            old(self).intern_context.wf(),
            !(old(self).intern_context@ matches CtxV::Dec(_)),
        ensures
            final(self).intern_context.wf(),
            !(final(self).intern_context@ matches CtxV::Dec(_)),
            ({
                let res = enc_pairs(view_pairs(entries@), old(self).intern_context@.enc_tab());
                match r {
                    Ok(()) => (res matches Ok(p) && final(buf)@ == old(buf)@ + p.0 && final(self).intern_context@.enc_tab() == p.1),
                    Err(e) => (res matches Err(e2) && e2 == e),
                }
            }),
        decreases entries, 1int,
    {
        let ghost vs = view_pairs(entries@);
        let ghost t0 = self.intern_context@.enc_tab();
        proof {
            lemma_view_pairs(entries@);
            assert(vs.take(0) =~= Seq::<(Ov, Ov)>::empty());
            assert(buf@.skip(old(buf)@.len() as int) =~= Seq::<u8>::empty());
            assert(buf@.take(old(buf)@.len() as int) =~= old(buf)@);
        }
        let n = entries.len();
        let mut i: usize = 0;
        while i < n
            invariant
                old(self).intern_context@.enc_tab() == t0,
                vs == view_pairs(entries@),
                vs.len() == n,
                forall|j: int| 0 <= j < n ==> vs[j] == (view_obj(entries@[j].0), view_obj(
                    entries@[j].1,
                )),
                n == entries@.len(),
                i <= n,
                self.intern_context.wf(),
                !(self.intern_context@ matches CtxV::Dec(_)),
                enc_pairs(vs.take(i as int), t0) == Ok::<_, Error>((
                    buf@.skip(old(buf)@.len() as int),
                    self.intern_context@.enc_tab(),
                )),
                buf@.len() >= old(buf)@.len(),
                buf@.take(old(buf)@.len() as int) == old(buf)@,
            decreases n - i,
        {
            let ghost t_cur = self.intern_context@.enc_tab();
            let ghost buf_pre = buf@;
            let res_k = self.write_object(buf, &entries[i].0);
            match res_k {
                Ok(()) => {},
                Err(e) => {
                    proof {
                        lemma_enc_pairs_err_at_key(vs, t0, i as int, e);
                    }
                    return Err(e);
                },
            }
            let ghost t_mid = self.intern_context@.enc_tab();
            let ghost buf_mid = buf@;
            let res_v = self.write_object(buf, &entries[i].1);
            match res_v {
                Ok(()) => {
                    proof {
                        let dk = buf_mid.skip(buf_pre.len() as int);
                        let dv = buf@.skip(buf_mid.len() as int);
                        let res_k_spec = enc(vs[i as int].0, t_cur);
                        assert(res_k_spec matches Ok(p) && buf_mid == buf_pre + p.0
                            && t_mid == p.1);
                        assert((buf_pre + res_k_spec->Ok_0.0).skip(buf_pre.len() as int)
                            =~= res_k_spec->Ok_0.0);
                        assert(dk == res_k_spec->Ok_0.0);
                        let res_v_spec = enc(vs[i as int].1, t_mid);
                        assert(res_v_spec matches Ok(p) && buf@ == buf_mid + p.0
                            && self.intern_context@.enc_tab() == p.1);
                        assert((buf_mid + res_v_spec->Ok_0.0).skip(buf_mid.len() as int)
                            =~= res_v_spec->Ok_0.0);
                        assert(dv == res_v_spec->Ok_0.0);
                        assert(buf_mid =~= buf_pre + dk);
                        assert(buf@ =~= buf_mid + dv);
                        lemma_enc_pairs_step(
                            vs,
                            t0,
                            i as int,
                            buf_pre.skip(old(buf)@.len() as int),
                            t_cur,
                            dk,
                            t_mid,
                            dv,
                            self.intern_context@.enc_tab(),
                        );
                        assert(buf@.skip(old(buf)@.len() as int) =~= buf_pre.skip(
                            old(buf)@.len() as int,
                        ) + dk + dv);
                        assert(buf@.take(old(buf)@.len() as int) =~= old(buf)@);
                    }
                },
                Err(e) => {
                    proof {
                        lemma_enc_pairs_err_at_value(vs, t0, i as int, e);
                    }
                    return Err(e);
                },
            }
            i += 1;
        }
        proof {
            assert(vs.take(n as int) =~= vs);
        }
        Ok(())
    }

    /// The inner bytes of a custom-type EXT: namespace discriminant, type
    /// id, then the payload behind a bin header.
    fn encode_custom_payload(custom: &EncodedCustomType) -> (r: Result<Vec<u8>, Error>)
        ensures
            ({
                let res = enc_custom_payload(custom.namespace@, custom.type_id, custom.data@);
                match r {
                    Ok(out) => (res matches Ok(p) && out@ == p),
                    Err(e) => (res matches Err(e2) && e2 == e),
                }
            }),
    {
        let mut payload: Vec<u8> = Vec::new();
        match &custom.namespace {
            NamespaceRef::Name(name) => {
                let bytes: &[u8] = name.as_str().as_bytes();
                if bytes.len() > u32::MAX as usize {
                    return Err(Error::EncodeFailure);
                }
                write_str_hdr(&mut payload, bytes.len() as u32);
                put_bytes(&mut payload, bytes);
                proof {
                    assert(payload@ =~= str_hdr(vstd::utf8::encode_utf8(name@).len() as int)
                        + vstd::utf8::encode_utf8(name@));
                    assert(enc_ns(custom.namespace@) == Ok::<_, Error>(payload@));
                }
            },
            NamespaceRef::Id(id) => {
                write_uint(&mut payload, *id as u64);
                proof {
                    assert(payload@ =~= enc_uint(*id as int));
                    assert(enc_ns(custom.namespace@) == Ok::<_, Error>(payload@));
                }
            },
        }
        let ghost nb = payload@;
        write_uint(&mut payload, custom.type_id as u64);
        if custom.data.len() > u32::MAX as usize {
            return Err(Error::EncodeFailure);
        }
        write_bin_hdr(&mut payload, custom.data.len() as u32);
        put_bytes(&mut payload, custom.data.as_slice());
        proof {
            assert(payload@ =~= nb + enc_uint(custom.type_id as int) + bin_hdr(
                custom.data@.len() as int,
            ) + custom.data@);
        }
        Ok(payload)
    }

    /// Encode one object to bytes.  The intern context is reset first;
    /// when any value was interned, the result is the intern-table EXT
    /// wrapping table and main bytes, else the main bytes alone.
    pub fn dumps(&mut self, obj: &Object) -> (r: Result<Vec<u8>, Error>)
        ensures
            match r {
                Ok(out) => (enc_top(obj@) matches Ok(b) && out@ == b),
                Err(e) => (enc_top(obj@) matches Err(e2) && e2 == e),
            },
    {
        self.intern_context.reset();
        let buf = match self.encode_object(obj) {
            Ok(b) => b,
            Err(e) => {
                return Err(e);
            },
        };
        let res = self.intern_context.finalize_encoding(buf);
        res
    }
}

/// Extending an element-sequence encoding by its last element.
pub proof fn lemma_enc_seq_snoc(s: Seq<Ov>, t0: EncTab)
    requires
        s.len() > 0,
    ensures
        enc_seq(s, t0) == (match enc_seq(s.drop_last(), t0) {
            Err(e) => Err(e),
            Ok((b1, t1)) => match enc(s.last(), t1) {
                Err(e) => Err(e),
                Ok((b2, t2)) => Ok((b1 + b2, t2)),
            },
        }),
{
    reveal(crate::model::enc);
    crate::model::lemma_enc_seq_split(s, t0, s.len() - 1);
    assert(s.take(s.len() - 1) =~= s.drop_last());
    assert(s.skip(s.len() - 1).len() == 1);
    assert(s.skip(s.len() - 1)[0] == s.last());
    match enc_seq(s.drop_last(), t0) {
        Err(_) => {},
        Ok((b1, t1)) => {
            match enc(s.last(), t1) {
                Err(_) => {},
                Ok((b2, t2)) => {
                    assert(s.skip(s.len() - 1).drop_first() =~= Seq::<Ov>::empty());
                    assert(enc_seq(s.skip(s.len() - 1).drop_first(), t2) == Ok::<_, Error>((
                        Seq::<u8>::empty(),
                        t2,
                    )));
                    assert(b2 + Seq::<u8>::empty() =~= b2);
                },
            }
        },
    }
}

/// Extending a pair-sequence encoding by its last pair.
pub proof fn lemma_enc_pairs_snoc(s: Seq<(Ov, Ov)>, t0: EncTab)
    requires
        s.len() > 0,
    ensures
        enc_pairs(s, t0) == (match enc_pairs(s.drop_last(), t0) {
            Err(e) => Err(e),
            Ok((b1, t1)) => match enc(s.last().0, t1) {
                Err(e) => Err(e),
                Ok((bk, tk)) => match enc(s.last().1, tk) {
                    Err(e) => Err(e),
                    Ok((bv, t2)) => Ok((b1 + bk + bv, t2)),
                },
            },
        }),
{
    reveal(crate::model::enc);
    crate::model::lemma_enc_pairs_split(s, t0, s.len() - 1);
    assert(s.take(s.len() - 1) =~= s.drop_last());
    assert(s.skip(s.len() - 1).len() == 1);
    assert(s.skip(s.len() - 1)[0] == s.last());
    match enc_pairs(s.drop_last(), t0) {
        Err(_) => {},
        Ok((b1, t1)) => {
            match enc(s.last().0, t1) {
                Err(_) => {},
                Ok((bk, tk)) => {
                    match enc(s.last().1, tk) {
                        Err(_) => {},
                        Ok((bv, t2)) => {
                            assert(s.skip(s.len() - 1).drop_first() =~= Seq::<(Ov, Ov)>::empty());
                            assert(enc_pairs(s.skip(s.len() - 1).drop_first(), t2) == Ok::<
                                _,
                                Error,
                            >((Seq::<u8>::empty(), t2)));
                            assert((bk + bv) + Seq::<u8>::empty() =~= bk + bv);
                            assert(b1 + (bk + bv) =~= b1 + bk + bv);
                        },
                    }
                },
            }
        },
    }
}

/// One successful loop step of the array encoder.
pub proof fn lemma_enc_seq_step(vs: Seq<Ov>, t0: EncTab, i: int, d: Seq<u8>, t1: EncTab, d2: Seq<u8>, t2: EncTab)
    requires
        0 <= i < vs.len(),
        enc_seq(vs.take(i), t0) == Ok::<_, Error>((d, t1)),
        enc(vs[i], t1) == Ok::<_, Error>((d2, t2)),
    ensures
        enc_seq(vs.take(i + 1), t0) == Ok::<_, Error>((d + d2, t2)),
{
    assert(vs.take(i + 1).drop_last() =~= vs.take(i));
    assert(vs.take(i + 1).last() == vs[i]);
    lemma_enc_seq_snoc(vs.take(i + 1), t0);
}

/// An element that fails after a good prefix fails the whole sequence.
pub proof fn lemma_enc_seq_err_at(vs: Seq<Ov>, t0: EncTab, i: int, e: Error)
    requires
        0 <= i < vs.len(),
        enc_seq(vs.take(i), t0) matches Ok(p) && enc(vs[i], p.1) == Err::<(Seq<u8>, EncTab),
            Error,
        >(e),
    ensures
        enc_seq(vs, t0) == Err::<(Seq<u8>, EncTab), Error>(e),
{
    reveal(crate::model::enc);
    crate::model::lemma_enc_seq_split(vs, t0, i);
    let tail = vs.skip(i);
    assert(tail.len() > 0);
    assert(tail[0] == vs[i]);
}

/// One successful loop step of the map encoder.
pub proof fn lemma_enc_pairs_step(vs: Seq<(Ov, Ov)>, t0: EncTab, i: int, d: Seq<u8>, t1: EncTab, dk: Seq<u8>, tk: EncTab, dv: Seq<u8>, t2: EncTab)
    requires
        0 <= i < vs.len(),
        enc_pairs(vs.take(i), t0) == Ok::<_, Error>((d, t1)),
        enc(vs[i].0, t1) == Ok::<_, Error>((dk, tk)),
        enc(vs[i].1, tk) == Ok::<_, Error>((dv, t2)),
    ensures
        enc_pairs(vs.take(i + 1), t0) == Ok::<_, Error>((d + dk + dv, t2)),
{
    assert(vs.take(i + 1).drop_last() =~= vs.take(i));
    assert(vs.take(i + 1).last() == vs[i]);
    lemma_enc_pairs_snoc(vs.take(i + 1), t0);
}

/// A key that fails after a good prefix fails the whole map.
pub proof fn lemma_enc_pairs_err_at_key(vs: Seq<(Ov, Ov)>, t0: EncTab, i: int, e: Error)
    requires
        0 <= i < vs.len(),
        enc_pairs(vs.take(i), t0) matches Ok(p) && enc(vs[i].0, p.1) == Err::<(Seq<u8>, EncTab),
            Error,
        >(e),
    ensures
        enc_pairs(vs, t0) == Err::<(Seq<u8>, EncTab), Error>(e),
{
    reveal(crate::model::enc);
    crate::model::lemma_enc_pairs_split(vs, t0, i);
    let tail = vs.skip(i);
    assert(tail.len() > 0);
    assert(tail[0] == vs[i]);
}

/// A value that fails after a good prefix and key fails the whole map.
pub proof fn lemma_enc_pairs_err_at_value(vs: Seq<(Ov, Ov)>, t0: EncTab, i: int, e: Error)
    requires
        0 <= i < vs.len(),
        enc_pairs(vs.take(i), t0) matches Ok(p) && (enc(vs[i].0, p.1) matches Ok(pk) && enc(
            vs[i].1,
            pk.1,
        ) == Err::<(Seq<u8>, EncTab), Error>(e)),
    ensures
        enc_pairs(vs, t0) == Err::<(Seq<u8>, EncTab), Error>(e),
{
    reveal(crate::model::enc);
    crate::model::lemma_enc_pairs_split(vs, t0, i);
    let tail = vs.skip(i);
    assert(tail.len() > 0);
    assert(tail[0] == vs[i]);
}

} // verus!
