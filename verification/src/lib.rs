//! A verified CBOR codec: a tagged-union value model able to hold every
//! supported CBOR item, a strict decoder for untrusted bytes, an encoder
//! producing canonical minimal-length bytes with deterministically ordered
//! map keys, and a bidirectional adapter between the value model and a host
//! language's dynamic values.
pub mod api;
pub mod decode;
pub mod encode;
pub mod host;
pub mod lemmas;
pub mod model;
pub mod roundtrip;

pub use api::dumpb;
pub use api::loadb;
pub use decode::DecodeError;
pub use decode::decode;
pub use encode::encode;
pub use host::AdapterError;
pub use host::HostValue;
pub use host::from_host;
pub use host::to_host;
pub use model::Value;
