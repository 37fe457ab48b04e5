use vstd::prelude::*;
use crate::key::{canonical_key, key_of};

verus! {

/// An opaque program or owner identity.
#[derive(Clone, Debug, PartialEq, Eq, Default)]
pub struct Pubkey(pub Vec<u8>);

/// Names one resource: the transaction it comes from and its output index.
#[derive(Clone, Debug, PartialEq, Eq)]
pub struct UtxoMeta {
    pub txid: String,
    pub vout: u32,
}

impl UtxoMeta {
    /// The canonical key `"<txid>:<vout>"` under which the resource's state is kept.
    pub fn id(&self) -> (r: String)
        ensures
            r@ == canonical_key(self.txid@, self.vout),
    {
        key_of(&self.txid, self.vout)
    }
}

/// A resource handle: the resource's identity together with its current
/// authority and data, which a transition may change.
#[derive(Clone, Debug, PartialEq, Eq)]
pub struct UtxoInfo {
    pub txid: String,
    pub vout: u32,
    pub authority: Pubkey,
    pub data: Vec<u8>,
}

impl UtxoInfo {
    /// The canonical key `"<txid>:<vout>"` of the resource this handle is bound to.
    pub fn id(&self) -> (r: String)
        ensures
            r@ == canonical_key(self.txid@, self.vout),
    {
        key_of(&self.txid, self.vout)
    }
}

/// The unit of work: the target program, the resources it binds, in order,
/// and an opaque payload for the transition.
#[derive(Clone, Debug, PartialEq, Eq)]
pub struct Instruction {
    pub program_id: Pubkey,
    pub utxos: Vec<UtxoMeta>,
    pub data: Vec<u8>,
}

/// The payload of the greeting transition: a name and an encoded transaction.
#[derive(Clone, Debug, PartialEq, Eq)]
pub struct HelloWorldParams {
    pub name: String,
    pub tx_hex: Vec<u8>,
}

} // verus!
