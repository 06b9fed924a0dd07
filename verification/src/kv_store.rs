//! The Maelstrom key-value services, as the handlers see them: payloads
//! of the requests they send and the ids and error codes the services
//! answer with.

use vstd::prelude::*;

verus! {

/// Error code a KV service answers when a read or conditional write names
/// a key that does not exist.
pub const ERROR_KEY_DOES_NOT_EXIST: u16 = 20;

/// Error code a KV service answers when a compare-and-swap finds a value
/// other than `from`.
pub const ERROR_PRECONDITION_FAILED: u16 = 22;

/// Destination id of the sequentially consistent KV service.
pub fn seq_kv_service_id() -> (r: &'static str)
    ensures
        r@ == "seq-kv"@,
{
    "seq-kv"
}

/// Destination id of the linearizable KV service.
pub fn lin_kv_service_id() -> (r: &'static str)
    ensures
        r@ == "lin-kv"@,
{
    "lin-kv"
}

/// A request to a Maelstrom KV service.
#[derive(Debug, Clone)]
pub enum KvStorePayload {
    Write { key: String, value: usize },
    Read { key: String },
    /// Compare and swap: replace `from` by `to`, creating the key first
    /// when asked to.
    Cas { key: String, from: usize, to: usize, create_if_not_exists: bool },
}

} // verus!
