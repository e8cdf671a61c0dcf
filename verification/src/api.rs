//! The library's entry points, as the contract an embedding layer honors:
//! `loadb` deserializes CBOR bytes into a host value, `dumpb` serializes a
//! host value into CBOR bytes.
use vstd::prelude::*;

use crate::decode::DecodeError;
use crate::decode::decode;
use crate::encode::encode;
use crate::host::AdapterError;
use crate::host::HostValue;
use crate::host::from_host;
use crate::host::h2n;
use crate::host::n2h;
use crate::host::ok_host;
use crate::host::to_host;
use crate::model::Parsed;
use crate::model::dec;
use crate::model::enc;
use crate::model::u64_bound;

verus! {

/// Deserializes one complete CBOR item into a host value.
///
/// Succeeds exactly when `decode` does, and returns the host shape of the
/// decoded value; every failure carries the decoder's reason.
pub fn loadb(bytes: &[u8]) -> (r: Result<HostValue, DecodeError>)
    ensures
        (match r {
            Ok(h) => dec(bytes@, 0) is Found && dec(bytes@, 0)->Found_1 == bytes@.len() && h.view()
                == n2h(dec(bytes@, 0)->Found_0),
            Err(e) => {
                &&& (e == DecodeError::UnexpectedEnd <==> dec(bytes@, 0) is End)
                &&& (e == DecodeError::Unsupported <==> dec(bytes@, 0) is Unsup)
                &&& (e == DecodeError::InvalidUtf8 <==> dec(bytes@, 0) is BadText)
                &&& (e == DecodeError::TrailingData <==> (dec(bytes@, 0) is Found && dec(
                    bytes@,
                    0,
                )->Found_1 != bytes@.len()))
            },
        }),
{
    match decode(bytes) {
        Ok(v) => Ok(to_host(&v)),
        Err(e) => Err(e),
    }
}

/// Serializes a host value into canonical CBOR bytes.
///
/// Succeeds exactly when every integer in the host tree lies in the CBOR
/// integer range; the bytes are then the canonical encoding of the
/// converted value.
pub fn dumpb(h: &HostValue) -> (r: Result<Vec<u8>, AdapterError>)
    ensures
        r is Ok <==> ok_host(h.view()),
        (match r {
            Ok(out) => out@ == enc(h2n(h.view())),
            Err(e) => {
                let AdapterError::IntegerOutOfRange(x) = e;
                !(-u64_bound() <= x < u64_bound())
            },
        }),
{
    match from_host(h) {
        Ok(v) => Ok(encode(&v)),
        Err(e) => Err(e),
    }
}

} // verus!
