use vstd::prelude::*;
use vstd::slice::slice_to_vec;
use crate::codec::{commit_bytes, encode_commit, fits_u32, map_fits};
use crate::key::canonical_key;
use crate::map::{Entries, ResourceMap, keys_distinct, keys_sorted, map_of, upsert, lemma_upsert};
use crate::types::{Instruction, Pubkey, UtxoInfo, UtxoMeta};

verus! {

/// Why an invocation was aborted; nothing is committed in any of these cases.
#[derive(Clone, Debug, PartialEq, Eq)]
pub enum DispatchError {
    /// The identifier at this position of the instruction has no entry in the
    /// authority map or in the data map.
    MissingResource(usize),
    /// The transition failed with this message.
    Transition(String),
    /// The transition replaced, added or removed handles instead of only
    /// changing their authority and data.
    HandlesAltered,
    /// A count or length of the output exceeds the four-byte prefix.
    Oversized,
}

/// The state transition that a program supplies. It receives the target
/// program, one handle per identifier of the instruction, in order, and the
/// payload; it may change the handles' authority and data, and returns the
/// transition's result.
pub trait Transition {
    fn process(&mut self, program_id: &Pubkey, utxos: &mut Vec<UtxoInfo>, instruction_data: &Vec<u8>) -> Result<Vec<u8>, String>;
}

/// The one output of an invocation: empty until committed, and it can be
/// committed only once.
pub struct Outbox {
    blob: Option<Vec<u8>>,
}

impl View for Outbox {
    type V = Option<Seq<u8>>;

    closed spec fn view(&self) -> Option<Seq<u8>> {
        match self.blob {
            Some(b) => Some(b@),
            None => None,
        }
    }
}

impl Outbox {
    /// An outbox with nothing committed.
    pub fn new() -> (r: Outbox)
        ensures
            r@ is None,
    {
        Outbox { blob: None }
    }

    /// Commits `blob`; only an outbox with nothing committed accepts it.
    pub fn commit(&mut self, blob: Vec<u8>)
        requires
            old(self)@ is None,
        ensures
            final(self)@ == Some(blob@),
    {
        self.blob = Some(blob);
    }

    /// The committed output, if any.
    pub fn into_blob(self) -> (r: Option<Vec<u8>>)
        ensures
            r is Some <==> self@ is Some,
            r matches Some(b) ==> self@ == Some(b@),
    {
        self.blob
    }
}

/// The canonical key of an identifier.
pub open spec fn meta_key(m: UtxoMeta) -> Seq<char> {
    canonical_key(m.txid@, m.vout)
}

/// The canonical key of the resource a handle is bound to.
pub open spec fn handle_key(h: UtxoInfo) -> Seq<char> {
    canonical_key(h.txid@, h.vout)
}

/// Both maps hold an entry for the identifier.
pub open spec fn present(m: UtxoMeta, authorities: ResourceMap, data: ResourceMap) -> bool {
    authorities.as_map().contains_key(meta_key(m)) && data.as_map().contains_key(meta_key(m))
}

/// The handle names the resource that the identifier names.
pub open spec fn bound_to(h: UtxoInfo, m: UtxoMeta) -> bool {
    h.txid@ == m.txid@ && h.vout == m.vout
}

/// Each handle is bound to the identifier at the same position.
pub open spec fn all_bound(hs: Seq<UtxoInfo>, ms: Seq<UtxoMeta>) -> bool {
    hs.len() == ms.len() && forall|i: int| 0 <= i < hs.len() ==> #[trigger] bound_to(hs[i], ms[i])
}

/// The authority (`authority == true`) or the data of a handle.
pub open spec fn field_of(h: UtxoInfo, authority: bool) -> Seq<u8> {
    if authority {
        h.authority.0@
    } else {
        h.data@
    }
}

/// The entries harvested from the handles, in key order: each handle, in
/// turn, writes its field under its key, a later handle overwriting an earlier one.
pub open spec fn harvest(hs: Seq<UtxoInfo>, authority: bool) -> Entries
    decreases hs.len(),
{
    if hs.len() == 0 {
        Seq::empty()
    } else {
        upsert(harvest(hs.drop_last(), authority), handle_key(hs.last()), field_of(hs.last(), authority))
    }
}

/// The mapping of the harvested entries, built by successive insertion.
pub open spec fn harvest_map(hs: Seq<UtxoInfo>, authority: bool) -> Map<Seq<char>, Seq<u8>>
    decreases hs.len(),
{
    if hs.len() == 0 {
        Map::empty()
    } else {
        harvest_map(hs.drop_last(), authority).insert(handle_key(hs.last()), field_of(hs.last(), authority))
    }
}

/// The harvested entries never repeat a key and describe `harvest_map`.
pub proof fn lemma_harvest_map(hs: Seq<UtxoInfo>, authority: bool)
    ensures
        keys_sorted(harvest(hs, authority)),
        keys_distinct(harvest(hs, authority)),
        map_of(harvest(hs, authority)) == harvest_map(hs, authority),
    decreases hs.len(),
{
    if hs.len() > 0 {
        lemma_harvest_map(hs.drop_last(), authority);
        lemma_upsert(harvest(hs.drop_last(), authority), handle_key(hs.last()), field_of(hs.last(), authority));
    }
}

proof fn lemma_harvest_map_dom(hs: Seq<UtxoInfo>, authority: bool, k: Seq<char>)
    ensures
        harvest_map(hs, authority).contains_key(k) <==> exists|i: int| 0 <= i < hs.len() && handle_key(#[trigger] hs[i]) == k,
    decreases hs.len(),
{
    if hs.len() > 0 {
        let p = hs.drop_last();
        lemma_harvest_map_dom(p, authority, k);
        if harvest_map(p, authority).contains_key(k) {
            let i = choose|i: int| 0 <= i < p.len() && handle_key(#[trigger] p[i]) == k;
            assert(hs[i] == p[i]);
        }
        if exists|i: int| 0 <= i < hs.len() && handle_key(#[trigger] hs[i]) == k {
            let i = choose|i: int| 0 <= i < hs.len() && handle_key(#[trigger] hs[i]) == k;
            if i < hs.len() - 1 {
                assert(p[i] == hs[i]);
            }
        }
    }
}

/// Completeness of the harvest: when each handle is bound to the identifier
/// at its position, the harvested authority map and data map hold exactly the
/// keys of the instruction's identifiers, no more and no fewer.
pub proof fn lemma_harvest_complete(hs: Seq<UtxoInfo>, ms: Seq<UtxoMeta>, authority: bool, k: Seq<char>)
    requires
        all_bound(hs, ms),
    ensures
        map_of(harvest(hs, authority)).contains_key(k) <==> exists|i: int| 0 <= i < ms.len() && meta_key(#[trigger] ms[i]) == k,
{
    lemma_harvest_map(hs, authority);
    lemma_harvest_map_dom(hs, authority, k);
    if exists|i: int| 0 <= i < ms.len() && meta_key(#[trigger] ms[i]) == k {
        let i = choose|i: int| 0 <= i < ms.len() && meta_key(#[trigger] ms[i]) == k;
        assert(bound_to(hs[i], ms[i]));
        assert(handle_key(hs[i]) == k);
    }
    if exists|i: int| 0 <= i < hs.len() && handle_key(#[trigger] hs[i]) == k {
        let i = choose|i: int| 0 <= i < hs.len() && handle_key(#[trigger] hs[i]) == k;
        assert(bound_to(hs[i], ms[i]));
        assert(meta_key(ms[i]) == k);
    }
}

/// Visibility of changes: the harvested map holds, under a handle's key, the
/// value that the last handle with that key carries.
pub proof fn lemma_harvest_visible(hs: Seq<UtxoInfo>, authority: bool, i: int)
    requires
        0 <= i < hs.len(),
        forall|j: int| i < j < hs.len() ==> handle_key(#[trigger] hs[j]) != handle_key(hs[i]),
    ensures
        map_of(harvest(hs, authority)).contains_key(handle_key(hs[i])),
        map_of(harvest(hs, authority))[handle_key(hs[i])] == field_of(hs[i], authority),
    decreases hs.len(),
{
    lemma_harvest_map(hs, authority);
    if i < hs.len() - 1 {
        let p = hs.drop_last();
        assert(p[i] == hs[i]);
        assert(forall|j: int| i < j < p.len() ==> #[trigger] p[j] == hs[j]);
        lemma_harvest_visible(p, authority, i);
        lemma_harvest_map(p, authority);
        assert(handle_key(hs[hs.len() - 1]) != handle_key(hs[i]));
    }
}


fn copy_bytes(v: &Vec<u8>) -> (r: Vec<u8>)
    ensures
        r@ == v@,
{
    slice_to_vec(v.as_slice())
}

/// Builds one handle per identifier of the instruction, in order, each with the
/// authority and data that the maps hold under its key. Fails with the position
/// of the first identifier that either map lacks.
pub fn build_handles(ix: &Instruction, authorities: &ResourceMap, data: &ResourceMap) -> (r: Result<Vec<UtxoInfo>, DispatchError>)
    requires
        authorities.wf(),
        data.wf(),
    ensures
        r matches Ok(hs) ==> {
            &&& all_bound(hs@, ix.utxos@)
            &&& forall|i: int| 0 <= i < hs@.len() ==> #[trigger] present(ix.utxos@[i], *authorities, *data)
            &&& forall|i: int| 0 <= i < hs@.len() ==>
                (#[trigger] hs@[i]).authority.0@ == authorities.as_map()[meta_key(ix.utxos@[i])]
                && hs@[i].data@ == data.as_map()[meta_key(ix.utxos@[i])]
        },
        r matches Err(e) ==> e matches DispatchError::MissingResource(i) && i < ix.utxos@.len()
            && !present(ix.utxos@[i as int], *authorities, *data)
            && forall|j: int| 0 <= j < i ==> #[trigger] present(ix.utxos@[j], *authorities, *data),
{
    let mut hs: Vec<UtxoInfo> = Vec::new();
    let mut i: usize = 0;
    while i < ix.utxos.len()
        invariant
            i <= ix.utxos@.len(),
            authorities.wf(),
            data.wf(),
            hs@.len() == i,
            forall|j: int| 0 <= j < i ==> #[trigger] bound_to(hs@[j], ix.utxos@[j]),
            forall|j: int| 0 <= j < i ==> #[trigger] present(ix.utxos@[j], *authorities, *data),
            forall|j: int| 0 <= j < i ==>
                (#[trigger] hs@[j]).authority.0@ == authorities.as_map()[meta_key(ix.utxos@[j])]
                && hs@[j].data@ == data.as_map()[meta_key(ix.utxos@[j])],
        decreases ix.utxos@.len() - i,
    {
        let m = &ix.utxos[i];
        let k = m.id();
        let (a, d) = match (authorities.get(&k), data.get(&k)) {
            (Some(a), Some(d)) => (a, d),
            _ => {
                return Err(DispatchError::MissingResource(i));
            },
        };
        let h = UtxoInfo { txid: m.txid.clone(), vout: m.vout, authority: Pubkey(copy_bytes(a)), data: copy_bytes(d) };
        hs.push(h);
        i = i + 1;
    }
    Ok(hs)
}

/// Writes each handle's authority and data back under its key, in handle order,
/// a later handle overwriting an earlier one with the same key.
pub fn harvest_handles(hs: &Vec<UtxoInfo>) -> (r: (ResourceMap, ResourceMap))
    ensures
        r.0.wf(),
        r.1.wf(),
        r.0@ == harvest(hs@, true),
        r.1@ == harvest(hs@, false),
{
    let mut auth = ResourceMap::new();
    let mut data = ResourceMap::new();
    let mut i: usize = 0;
    assert(hs@.subrange(0, 0) =~= Seq::<UtxoInfo>::empty());
    while i < hs.len()
        invariant
            i <= hs@.len(),
            auth.wf(),
            data.wf(),
            auth@ == harvest(hs@.subrange(0, i as int), true),
            data@ == harvest(hs@.subrange(0, i as int), false),
        decreases hs@.len() - i,
    {
        let h = &hs[i];
        auth.insert(h.id(), copy_bytes(&h.authority.0));
        data.insert(h.id(), copy_bytes(&h.data));
        assert(hs@.subrange(0, i + 1).drop_last() =~= hs@.subrange(0, i as int));
        i = i + 1;
    }
    assert(hs@.subrange(0, i as int) =~= hs@);
    (auth, data)
}

fn check_bound(hs: &Vec<UtxoInfo>, ms: &Vec<UtxoMeta>) -> (r: bool)
    ensures
        r == all_bound(hs@, ms@),
{
    if hs.len() != ms.len() {
        return false;
    }
    let mut i: usize = 0;
    while i < hs.len()
        invariant
            i <= hs@.len(),
            hs@.len() == ms@.len(),
            forall|j: int| 0 <= j < i ==> #[trigger] bound_to(hs@[j], ms@[j]),
        decreases hs@.len() - i,
    {
        if hs[i].txid != ms[i].txid || hs[i].vout != ms[i].vout {
            assert(!bound_to(hs@[i as int], ms@[i as int]));
            return false;
        }
        i = i + 1;
    }
    true
}

/// Concludes an invocation from what the transition left: the handles and its
/// outcome. Commits the harvested maps and the result when the transition
/// succeeded, left every handle bound to its identifier and the output fits;
/// otherwise commits nothing and says why.
pub fn commit_outcome(ix: &Instruction, hs: &Vec<UtxoInfo>, outcome: Result<Vec<u8>, String>, out: &mut Outbox) -> (r: Result<(), DispatchError>)
    requires
        old(out)@ is None,
    ensures
        final(out)@ is Some <==> r is Ok,
        r is Err ==> final(out)@ == old(out)@,
        outcome matches Err(e) ==> r == Err::<(), DispatchError>(DispatchError::Transition(e)),
        outcome is Ok && !all_bound(hs@, ix.utxos@) ==> r == Err::<(), DispatchError>(DispatchError::HandlesAltered),
        outcome matches Ok(p) ==> (all_bound(hs@, ix.utxos@) ==> {
            let a = harvest(hs@, true);
            let d = harvest(hs@, false);
            if map_fits(a) && map_fits(d) && fits_u32(p@.len()) {
                r is Ok && final(out)@ == Some(commit_bytes(a, d, p@))
            } else {
                r == Err::<(), DispatchError>(DispatchError::Oversized)
            }
        }),
{
    let payload = match outcome {
        Ok(p) => p,
        Err(e) => {
            return Err(DispatchError::Transition(e));
        },
    };
    if !check_bound(hs, &ix.utxos) {
        return Err(DispatchError::HandlesAltered);
    }
    let (auth, data) = harvest_handles(hs);
    match encode_commit(&auth, &data, &payload) {
        Some(blob) => {
            out.commit(blob);
            Ok(())
        },
        None => Err(DispatchError::Oversized),
    }
}

/// Runs one invocation: builds the handles from the instruction and the two
/// maps, lets the transition act on them, and commits the harvested maps with
/// the transition's result. Aborts, committing nothing, when an identifier is
/// missing from either map or any later step fails.
pub fn run<T: Transition>(transition: &mut T, ix: &Instruction, authorities: &ResourceMap, data: &ResourceMap, out: &mut Outbox) -> (r: Result<(), DispatchError>)
    requires
        authorities.wf(),
        data.wf(),
        old(out)@ is None,
    ensures
        final(out)@ is Some <==> r is Ok,
        r is Err ==> final(out)@ is None,
        (exists|i: int| 0 <= i < ix.utxos@.len() && !present(#[trigger] ix.utxos@[i], *authorities, *data))
            ==> r matches Err(DispatchError::MissingResource(_)),
        r matches Err(DispatchError::MissingResource(i)) ==> i < ix.utxos@.len()
            && !present(ix.utxos@[i as int], *authorities, *data)
            && forall|j: int| 0 <= j < i ==> #[trigger] present(ix.utxos@[j], *authorities, *data),
        r is Ok ==> exists|hs: Seq<UtxoInfo>, p: Seq<u8>|
            all_bound(hs, ix.utxos@) && final(out)@ == Some(#[trigger] commit_bytes(harvest(hs, true), harvest(hs, false), p))
            && forall|k: Seq<char>| (#[trigger] map_of(harvest(hs, true)).contains_key(k)
                <==> exists|i: int| 0 <= i < ix.utxos@.len() && meta_key(#[trigger] ix.utxos@[i]) == k)
                && (map_of(harvest(hs, false)).contains_key(k) <==> map_of(harvest(hs, true)).contains_key(k)),
        r is Ok && ix.utxos@.len() == 0 ==> exists|p: Seq<u8>|
            final(out)@ == Some(#[trigger] commit_bytes(Seq::empty(), Seq::empty(), p)),
{
    let mut hs = build_handles(ix, authorities, data)?;
    let outcome = transition.process(&ix.program_id, &mut hs, &ix.data);
    let ghost ok_payload = match &outcome {
        Ok(p) => p@,
        Err(_) => Seq::<u8>::empty(),
    };
    let r = commit_outcome(ix, &hs, outcome, out);
    proof {
        if r is Ok {
            assert(all_bound(hs@, ix.utxos@));
            assert(final(out)@ == Some(commit_bytes(harvest(hs@, true), harvest(hs@, false), ok_payload)));
            assert forall|k: Seq<char>| (#[trigger] map_of(harvest(hs@, true)).contains_key(k)
                <==> exists|i: int| 0 <= i < ix.utxos@.len() && meta_key(#[trigger] ix.utxos@[i]) == k)
                && (map_of(harvest(hs@, false)).contains_key(k) <==> map_of(harvest(hs@, true)).contains_key(k)) by {
                lemma_harvest_complete(hs@, ix.utxos@, true, k);
                lemma_harvest_complete(hs@, ix.utxos@, false, k);
            }
            if ix.utxos@.len() == 0 {
                assert(harvest(hs@, true) == Seq::<(Seq<char>, Seq<u8>)>::empty());
                assert(harvest(hs@, false) == Seq::<(Seq<char>, Seq<u8>)>::empty());
            }
        }
    }
    r
}

} // verus!
