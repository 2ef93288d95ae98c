//! Helpers for working with custom-namespace envelopes outside the full
//! codec: a pre-encoded namespace payload, a plain byte wrapper, and the
//! reader that checks an envelope against an expected namespace and id.
use vstd::prelude::*;

use crate::codec::{Codec, CUSTOM_TYPE_EXT};
use crate::error::Error;
use crate::model::{dv, DecMode};
use crate::object::{Object, Ov};
use crate::wire::{
    enc_uint, ext_hdr, put_bytes, str_hdr, write_ext_hdr, write_str_hdr, write_uint,
};
use vstd::slice::{slice_subrange, slice_to_vec};

verus! {

/// A payload already encoded for the `table`-style namespaces: the
/// namespace name, the type id inside it, and the payload bytes.
pub struct NamespaceEncodedValue {
    pub namespace: &'static str,
    pub id: u32,
    pub value: Vec<u8>,
}

/// The wire form of a [`NamespaceEncodedValue`]: a custom-type EXT whose
/// payload is the namespace str, the id uint, then the value bytes
/// verbatim.
pub open spec fn ns_value_bytes(ns: Seq<char>, id: u32, value: Seq<u8>) -> Result<Seq<u8>, Error> {
    let nb = vstd::utf8::encode_utf8(ns);
    if nb.len() < 0x100000000 {
        let payload = str_hdr(nb.len() as int) + nb + enc_uint(id as int) + value;
        if payload.len() < 0x100000000 {
            Ok(ext_hdr(payload.len() as int, crate::model::CUSTOM_EXT) + payload)
        } else {
            Err(Error::EncodeFailure)
        }
    } else {
        Err(Error::EncodeFailure)
    }
}

impl NamespaceEncodedValue {
    /// Encode the envelope.
    pub fn to_bytes(&self) -> (r: Result<Vec<u8>, Error>)
        ensures
            match r {
                Ok(out) => ns_value_bytes(self.namespace@, self.id, self.value@) matches Ok(bs)
                    && out@ == bs,
                Err(e) => ns_value_bytes(self.namespace@, self.id, self.value@) matches Err(e2)
                    && e2 == e,
            },
    {
        let nb: &[u8] = self.namespace.as_bytes();
        if nb.len() > u32::MAX as usize {
            return Err(Error::EncodeFailure);
        }
        let mut payload: Vec<u8> = Vec::new();
        write_str_hdr(&mut payload, nb.len() as u32);
        put_bytes(&mut payload, nb);
        write_uint(&mut payload, self.id as u64);
        put_bytes(&mut payload, self.value.as_slice());
        if payload.len() > u32::MAX as usize {
            return Err(Error::EncodeFailure);
        }
        let mut out: Vec<u8> = Vec::new();
        write_ext_hdr(&mut out, payload.len() as u32, CUSTOM_TYPE_EXT);
        put_bytes(&mut out, payload.as_slice());
        proof {
            let nbs = vstd::utf8::encode_utf8(self.namespace@);
            assert(payload@ =~= str_hdr(nbs.len() as int) + nbs + enc_uint(self.id as int)
                + self.value@);
            assert(out@ =~= ext_hdr(payload@.len() as int, crate::model::CUSTOM_EXT) + payload@);
        }
        Ok(out)
    }
}

/// A plain byte payload read back from a MessagePack `bin` value.
#[derive(Debug)]
pub struct Bytes(pub Vec<u8>);

impl PartialEq for Bytes {
    fn eq(&self, other: &Bytes) -> (r: bool) {
        let r = self.0 == other.0;
        proof {
            if r {
                assert(self.0@ =~= other.0@);
            }
        }
        r
    }
}

impl vstd::std_specs::cmp::PartialEqSpecImpl for Bytes {
    open spec fn obeys_eq_spec() -> bool {
        true
    }

    open spec fn eq_spec(&self, other: &Bytes) -> bool {
        self.0@ == other.0@
    }
}

impl Bytes {
    /// Read one bare MessagePack value and keep its binary payload.
    pub fn from_bytes(data: &[u8]) -> (r: Result<Bytes, Error>)
        ensures
            match r {
                Ok(bs) => (dv(data@, 0, DecMode::Raw) matches Ok(p) && p.0 == Ov::Binary(bs.0@)),
                Err(e) => match dv(data@, 0, DecMode::Raw) {
                    Ok(p) => !(p.0 is Binary) && e == Error::DecodeFailure,
                    Err(e2) => e == e2,
                },
            },
    {
        let mut codec = Codec::new(None);
        match codec.parse_value(data, 0, true) {
            Ok((Object::Binary(v), _)) => Ok(Bytes(v)),
            Ok(_) => Err(Error::DecodeFailure),
            Err(e) => Err(e),
        }
    }
}

fn byte_vecs_eq(a: &Vec<u8>, b: &Vec<u8>) -> (r: bool)
    ensures
        r == (a@ == b@),
{
    let r = *a == *b;
    proof {
        if r {
            assert(a@ =~= b@);
        }
    }
    r
}

/// Structural equality of two string slices, decided on their UTF-8
/// bytes.
fn str_eq(a: &str, b: &str) -> (r: bool)
    ensures
        r == (a@ == b@),
{
    let va = slice_to_vec(a.as_bytes());
    let vb = slice_to_vec(b.as_bytes());
    let r = byte_vecs_eq(&va, &vb);
    proof {
        vstd::utf8::encode_utf8_decode_utf8(a@);
        vstd::utf8::encode_utf8_decode_utf8(b@);
        if r {
            assert(vstd::utf8::encode_utf8(a@) == vstd::utf8::encode_utf8(b@));
            assert(a@ == b@);
        }
    }
    r
}

/// What [`read_ns_payload`] returns on each input: the envelope must be a
/// custom-type EXT whose payload opens with the expected namespace string
/// and the expected id; what follows them comes back verbatim.
pub open spec fn read_ns_payload_spec(data: Seq<u8>, ns: Seq<char>, id: int) -> Result<
    Seq<u8>,
    Error,
> {
    match dv(data, 0, DecMode::Raw) {
        Err(e) => Err(e),
        Ok((v, _)) => match v {
            Ov::Ext(code, payload) => if code != crate::model::CUSTOM_EXT {
                Err(Error::InvalidCustomNamespace)
            } else {
                match dv(payload, 0, DecMode::Raw) {
                    Err(e) => Err(e),
                    Ok((nsv, p1)) => match nsv {
                        Ov::Text(name) => if name != ns {
                            Err(Error::InvalidCustomNamespace)
                        } else {
                            match dv(payload, p1, DecMode::Raw) {
                                Err(e) => Err(e),
                                Ok((idv, p2)) => match idv {
                                    Ov::Integer(got) => if got == id {
                                        Ok(payload.subrange(p2, payload.len() as int))
                                    } else {
                                        Err(Error::InvalidCustomTypeId)
                                    },
                                    _ => Err(Error::InvalidCustomTypeId),
                                },
                            }
                        },
                        _ => Err(Error::InvalidCustomNamespace),
                    },
                }
            },
            _ => Err(Error::InvalidCustomNamespace),
        },
    }
}

/// Read a custom-namespace envelope, check namespace and id, and hand the
/// trailing payload bytes back.
pub fn read_ns_payload(data: &[u8], expected_namespace: &str, expected_id: i64) -> (r: Result<
    Vec<u8>,
    Error,
>)
    ensures
        match r {
            Ok(out) => (read_ns_payload_spec(data@, expected_namespace@, expected_id as int)
                matches Ok(bs) && out@ == bs),
            Err(e) => (read_ns_payload_spec(data@, expected_namespace@, expected_id as int)
                matches Err(e2) && e2 == e),
        },
{
    let mut codec = Codec::new(None);
    let ext = match codec.parse_value(data, 0, true) {
        Ok((Object::Ext(code, payload), _)) => {
            if code != CUSTOM_TYPE_EXT {
                return Err(Error::InvalidCustomNamespace);
            }
            payload
        },
        Ok(_) => {
            return Err(Error::InvalidCustomNamespace);
        },
        Err(e) => {
            return Err(e);
        },
    };
    let pb = ext.as_slice();
    let p1 = match codec.parse_value(pb, 0, true) {
        Ok((Object::String(name), p1)) => {
            if !str_eq(name.as_str(), expected_namespace) {
                return Err(Error::InvalidCustomNamespace);
            }
            p1
        },
        Ok(_) => {
            return Err(Error::InvalidCustomNamespace);
        },
        Err(e) => {
            return Err(e);
        },
    };
    let p2 = match codec.parse_value(pb, p1, true) {
        Ok((Object::Integer(got), p2)) => {
            match got.as_i64() {
                Some(g) if g == expected_id => p2,
                _ => {
                    proof {
                        assert(got.as_int() != expected_id as int);
                    }
                    return Err(Error::InvalidCustomTypeId);
                },
            }
        },
        Ok(_) => {
            return Err(Error::InvalidCustomTypeId);
        },
        Err(e) => {
            return Err(e);
        },
    };
    Ok(slice_to_vec(slice_subrange(pb, p2, ext.len())))
}

} // verus!
