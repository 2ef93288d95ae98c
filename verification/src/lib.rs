//! A binary object codec over the MessagePack wire format, with an intern
//! table for deduplicating shared values and an extension envelope for
//! custom-typed payloads.
use vstd::prelude::*;

pub mod codec;
pub mod decode;
pub mod envelope;
pub mod error;
pub mod intern;
pub mod laws;
pub mod model;
pub mod object;
pub mod wire;

pub use codec::{Codec, CustomNamespace, CustomTypeCodec, Namespace, Namespaces, CUSTOM_TYPE_EXT};
pub use envelope::{read_ns_payload, Bytes, NamespaceEncodedValue};
pub use error::Error;
pub use intern::{Ext, InternContext, InternPtr, INTERN_TABLE_EXT};
pub use object::{EncodedCustomType, Int, InternValue, NamespaceRef, Object};

