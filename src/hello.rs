use vstd::prelude::*;
use vstd::slice::slice_to_vec;
use vstd::utf8::encode_utf8;
use crate::codec::{decode_params, params_bytes, params_fit};
use crate::dispatch::Transition;
use crate::types::{HelloWorldParams, Pubkey, UtxoInfo};

verus! {

/// Whether the bytes are, in full, the consensus encoding of a transaction.
pub uninterp spec fn is_tx_encoding(b: Seq<u8>) -> bool;

/// The consensus encoding of the transaction that the bytes decode to.
pub uninterp spec fn tx_reencoding(b: Seq<u8>) -> Seq<u8>;

/// Relies on bitcoin::consensus::deserialize, which decodes a transaction that
/// must fill the whole input, and on bitcoin::consensus::serialize, which
/// encodes the decoded transaction again. Both depend on the bytes alone.
#[verifier::external_body]
fn reencode_transaction(b: &[u8]) -> (r: Option<Vec<u8>>)
    ensures
        r is Some <==> is_tx_encoding(b@),
        r matches Some(v) ==> v@ == tx_reencoding(b@),
{
    match bitcoin::consensus::deserialize::<bitcoin::Transaction>(b) {
        Ok(t) => Some(bitcoin::consensus::serialize(&t)),
        Err(_) => None,
    }
}

/// The greeting for `name`: `"Hello <name>!"`.
pub open spec fn greeting(name: Seq<char>) -> Seq<char> {
    seq!['H', 'e', 'l', 'l', 'o', ' '] + name + seq!['!']
}

/// Sets the data of every handle to the UTF-8 bytes of the greeting for
/// `name`, keeping each handle's identity and authority.
pub fn greet(utxos: &mut Vec<UtxoInfo>, name: &String)
    ensures
        final(utxos)@.len() == old(utxos)@.len(),
        forall|i: int| 0 <= i < final(utxos)@.len() ==> {
            &&& (#[trigger] final(utxos)@[i]).txid@ == old(utxos)@[i].txid@
            &&& final(utxos)@[i].vout == old(utxos)@[i].vout
            &&& final(utxos)@[i].authority.0@ == old(utxos)@[i].authority.0@
            &&& final(utxos)@[i].data@ == encode_utf8(greeting(name@))
        },
{
    proof {
        reveal_strlit("Hello ");
        reveal_strlit("!");
    }
    let text = String::from_str("Hello ").concat(name.as_str()).concat("!");
    assert(text@ =~= greeting(name@));
    let bytes = slice_to_vec(text.as_str().as_bytes());
    let mut i: usize = 0;
    while i < utxos.len()
        invariant
            i <= utxos@.len(),
            utxos@.len() == old(utxos)@.len(),
            bytes@ == encode_utf8(greeting(name@)),
            forall|j: int| i <= j < utxos@.len() ==> #[trigger] utxos@[j] == old(utxos)@[j],
            forall|j: int| 0 <= j < i ==> {
                &&& (#[trigger] utxos@[j]).txid@ == old(utxos)@[j].txid@
                &&& utxos@[j].vout == old(utxos)@[j].vout
                &&& utxos@[j].authority.0@ == old(utxos)@[j].authority.0@
                &&& utxos@[j].data@ == encode_utf8(greeting(name@))
            },
        decreases utxos@.len() - i,
    {
        let h = UtxoInfo {
            txid: utxos[i].txid.clone(),
            vout: utxos[i].vout,
            authority: Pubkey(slice_to_vec(utxos[i].authority.0.as_slice())),
            data: slice_to_vec(bytes.as_slice()),
        };
        utxos.set(i, h);
        i = i + 1;
    }
}

/// The greeting transition: decodes the payload as a name and a transaction,
/// greets the name in the data of every handle, and returns the transaction
/// re-encoded. On failure the handles are left as they were.
pub fn handler(_program_id: &Pubkey, utxos: &mut Vec<UtxoInfo>, instruction_data: &Vec<u8>) -> (r: Result<Vec<u8>, String>)
    ensures
        r is Err ==> final(utxos)@ == old(utxos)@,
        forall|p: HelloWorldParams| params_fit(p) && #[trigger] params_bytes(p) == instruction_data@
            ==> (r is Ok <==> is_tx_encoding(p.tx_hex@)),
        r matches Ok(v) ==> exists|p: HelloWorldParams| {
            &&& #[trigger] params_bytes(p) == instruction_data@
            &&& params_fit(p)
            &&& is_tx_encoding(p.tx_hex@)
            &&& v@ == tx_reencoding(p.tx_hex@)
            &&& final(utxos)@.len() == old(utxos)@.len()
            &&& forall|i: int| 0 <= i < final(utxos)@.len() ==> {
                &&& (#[trigger] final(utxos)@[i]).txid@ == old(utxos)@[i].txid@
                &&& final(utxos)@[i].vout == old(utxos)@[i].vout
                &&& final(utxos)@[i].authority.0@ == old(utxos)@[i].authority.0@
                &&& final(utxos)@[i].data@ == encode_utf8(greeting(p.name@))
            }
        },
{
    let params = match decode_params(instruction_data.as_slice()) {
        Ok(p) => p,
        Err(_) => {
            return Err(String::from_str("invalid greeting payload"));
        },
    };
    let tx = match reencode_transaction(params.tx_hex.as_slice()) {
        Some(t) => t,
        None => {
            return Err(String::from_str("invalid transaction"));
        },
    };
    greet(utxos, &params.name);
    Ok(tx)
}

/// The greeting program, as a transition for the dispatcher.
pub struct HelloWorld;

impl Transition for HelloWorld {
    fn process(&mut self, program_id: &Pubkey, utxos: &mut Vec<UtxoInfo>, instruction_data: &Vec<u8>) -> Result<Vec<u8>, String> {
        handler(program_id, utxos, instruction_data)
    }
}

} // verus!
