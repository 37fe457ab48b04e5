use utxo_guest::codec::{decode_commit, encode_commit};
use utxo_guest::dispatch::{build_handles, commit_outcome, harvest_handles, run, DispatchError, Outbox, Transition};
use utxo_guest::hello::{greet, handler, HelloWorld};
use utxo_guest::map::ResourceMap;
use utxo_guest::types::{Instruction, Pubkey, UtxoInfo, UtxoMeta};

fn sample_tx() -> Vec<u8> {
    let mut tx = vec![1, 0, 0, 0, 1];
    tx.extend_from_slice(&[0x11; 32]);
    tx.extend_from_slice(&[0, 0, 0, 0, 0, 0xff, 0xff, 0xff, 0xff, 1]);
    tx.extend_from_slice(&[0xe8, 3, 0, 0, 0, 0, 0, 0, 0, 0, 0, 0, 0]);
    tx
}

fn params(name: &str, tx: &[u8]) -> Vec<u8> {
    borsh::to_vec(&(name.to_string(), tx.to_vec())).unwrap()
}

fn meta(txid: &str, vout: u32) -> UtxoMeta {
    UtxoMeta { txid: txid.to_string(), vout }
}

fn map_of_pairs(pairs: &[(&str, &[u8])]) -> ResourceMap {
    let mut m = ResourceMap::new();
    for (k, v) in pairs {
        m.insert(k.to_string(), v.to_vec());
    }
    m
}

struct SetData(Vec<u8>);

impl Transition for SetData {
    fn process(&mut self, _p: &Pubkey, utxos: &mut Vec<UtxoInfo>, _d: &Vec<u8>) -> Result<Vec<u8>, String> {
        for u in utxos.iter_mut() {
            u.data = self.0.clone();
        }
        Ok(vec![7])
    }
}

struct CountHandles(usize);

impl Transition for CountHandles {
    fn process(&mut self, _p: &Pubkey, utxos: &mut Vec<UtxoInfo>, _d: &Vec<u8>) -> Result<Vec<u8>, String> {
        self.0 = utxos.len();
        Ok(vec![])
    }
}

struct Fail;

impl Transition for Fail {
    fn process(&mut self, _p: &Pubkey, _u: &mut Vec<UtxoInfo>, _d: &Vec<u8>) -> Result<Vec<u8>, String> {
        Err("refused".to_string())
    }
}

struct Rename;

impl Transition for Rename {
    fn process(&mut self, _p: &Pubkey, utxos: &mut Vec<UtxoInfo>, _d: &Vec<u8>) -> Result<Vec<u8>, String> {
        utxos[0].vout = 99;
        Ok(vec![])
    }
}

struct SetFirstOfTwo;

impl Transition for SetFirstOfTwo {
    fn process(&mut self, _p: &Pubkey, utxos: &mut Vec<UtxoInfo>, _d: &Vec<u8>) -> Result<Vec<u8>, String> {
        utxos[0].data = vec![1];
        utxos[1].data = vec![2];
        Ok(vec![])
    }
}

#[test]
fn greeting_scenario() {
    let tx = sample_tx();
    let ix = Instruction { program_id: Pubkey(b"P".to_vec()), utxos: vec![meta("abc", 0)], data: params("World", &tx) };
    let auth = map_of_pairs(&[("abc:0", &[0x01])]);
    let data = map_of_pairs(&[("abc:0", &[])]);
    let mut out = Outbox::new();
    assert_eq!(run(&mut HelloWorld, &ix, &auth, &data, &mut out), Ok(()));
    let blob = out.into_blob().unwrap();
    let (a2, d2, payload) = decode_commit(&blob).unwrap();
    assert_eq!(a2, auth);
    assert_eq!(d2, map_of_pairs(&[("abc:0", b"Hello World!")]));
    assert_eq!(payload, tx);
}

#[test]
fn missing_resource_aborts_without_commit() {
    let ix = Instruction { program_id: Pubkey(vec![]), utxos: vec![meta("xyz", 3)], data: vec![] };
    let auth = ResourceMap::new();
    let data = ResourceMap::new();
    let mut out = Outbox::new();
    assert_eq!(run(&mut CountHandles(9), &ix, &auth, &data, &mut out), Err(DispatchError::MissingResource(0)));
    assert_eq!(out.into_blob(), None);
}

#[test]
fn missing_in_data_map_only() {
    let ix = Instruction { program_id: Pubkey(vec![]), utxos: vec![meta("a", 1), meta("b", 2)], data: vec![] };
    let auth = map_of_pairs(&[("a:1", &[]), ("b:2", &[])]);
    let data = map_of_pairs(&[("a:1", &[])]);
    assert_eq!(build_handles(&ix, &auth, &data), Err(DispatchError::MissingResource(1)));
}

#[test]
fn empty_resources() {
    let ix = Instruction { program_id: Pubkey(vec![]), utxos: vec![], data: vec![] };
    let mut t = CountHandles(9);
    let mut out = Outbox::new();
    assert_eq!(run(&mut t, &ix, &ResourceMap::new(), &ResourceMap::new(), &mut out), Ok(()));
    assert_eq!(t.0, 0);
    let (a, d, p) = decode_commit(&out.into_blob().unwrap()).unwrap();
    assert_eq!(a.len(), 0);
    assert_eq!(d.len(), 0);
    assert!(p.is_empty());
}

#[test]
fn mutation_is_harvested_and_keys_complete() {
    let ix = Instruction { program_id: Pubkey(vec![]), utxos: vec![meta("a", 1), meta("b", 2)], data: vec![] };
    let auth = map_of_pairs(&[("a:1", &[5]), ("b:2", &[6]), ("c:3", &[7])]);
    let data = map_of_pairs(&[("a:1", &[]), ("b:2", &[]), ("c:3", &[])]);
    let mut out = Outbox::new();
    assert_eq!(run(&mut SetData(vec![4, 2]), &ix, &auth, &data, &mut out), Ok(()));
    let (a2, d2, p) = decode_commit(&out.into_blob().unwrap()).unwrap();
    assert_eq!(a2, map_of_pairs(&[("a:1", &[5]), ("b:2", &[6])]));
    assert_eq!(d2, map_of_pairs(&[("a:1", &[4, 2]), ("b:2", &[4, 2])]));
    assert_eq!(p, vec![7]);
}

#[test]
fn duplicate_identifiers_last_write_wins() {
    let ix = Instruction { program_id: Pubkey(vec![]), utxos: vec![meta("a", 1), meta("a", 1)], data: vec![] };
    let auth = map_of_pairs(&[("a:1", &[0])]);
    let data = map_of_pairs(&[("a:1", &[0])]);
    let hs = build_handles(&ix, &auth, &data).unwrap();
    assert_eq!(hs.len(), 2);
    let mut out = Outbox::new();
    assert_eq!(run(&mut SetFirstOfTwo, &ix, &auth, &data, &mut out), Ok(()));
    let (_, d2, _) = decode_commit(&out.into_blob().unwrap()).unwrap();
    assert_eq!(d2, map_of_pairs(&[("a:1", &[2])]));
}

#[test]
fn transition_failure_commits_nothing() {
    let ix = Instruction { program_id: Pubkey(vec![]), utxos: vec![meta("a", 1)], data: vec![] };
    let m = map_of_pairs(&[("a:1", &[])]);
    let mut out = Outbox::new();
    assert_eq!(run(&mut Fail, &ix, &m, &m, &mut out), Err(DispatchError::Transition("refused".to_string())));
    assert_eq!(out.into_blob(), None);
}

#[test]
fn altered_handles_are_refused() {
    let ix = Instruction { program_id: Pubkey(vec![]), utxos: vec![meta("a", 1)], data: vec![] };
    let m = map_of_pairs(&[("a:1", &[])]);
    let mut out = Outbox::new();
    assert_eq!(run(&mut Rename, &ix, &m, &m, &mut out), Err(DispatchError::HandlesAltered));
    assert_eq!(out.into_blob(), None);
    let mut out2 = Outbox::new();
    assert_eq!(commit_outcome(&ix, &vec![], Ok(vec![]), &mut out2), Err(DispatchError::HandlesAltered));
}

#[test]
fn commit_outcome_blob() {
    let ix = Instruction { program_id: Pubkey(vec![]), utxos: vec![meta("a", 1)], data: vec![] };
    let hs = vec![UtxoInfo { txid: "a".to_string(), vout: 1, authority: Pubkey(vec![8]), data: vec![9] }];
    let mut out = Outbox::new();
    assert_eq!(commit_outcome(&ix, &hs, Ok(vec![3]), &mut out), Ok(()));
    let expected = encode_commit(&map_of_pairs(&[("a:1", &[8])]), &map_of_pairs(&[("a:1", &[9])]), &vec![3]).unwrap();
    assert_eq!(out.into_blob().unwrap(), expected);
}

#[test]
fn harvest_sorts_by_key() {
    let hs = vec![
        UtxoInfo { txid: "b".to_string(), vout: 0, authority: Pubkey(vec![1]), data: vec![1] },
        UtxoInfo { txid: "a".to_string(), vout: 0, authority: Pubkey(vec![2]), data: vec![2] },
        UtxoInfo { txid: "b".to_string(), vout: 0, authority: Pubkey(vec![3]), data: vec![3] },
    ];
    let (a, d) = harvest_handles(&hs);
    assert_eq!(a, map_of_pairs(&[("a:0", &[2]), ("b:0", &[3])]));
    assert_eq!(d, map_of_pairs(&[("a:0", &[2]), ("b:0", &[3])]));
    assert_eq!(a.entry(0).0, "a:0");
    assert_eq!(a.entry(1).0, "b:0");
}

#[test]
fn handler_reencodes_transaction() {
    let tx = sample_tx();
    let mut hs = vec![UtxoInfo { txid: "a".to_string(), vout: 1, authority: Pubkey(vec![8]), data: vec![] }];
    let r = handler(&Pubkey(vec![]), &mut hs, &params("Ann", &tx)).unwrap();
    assert_eq!(r, tx);
    assert_eq!(hs[0].data, b"Hello Ann!".to_vec());
    assert_eq!(hs[0].authority, Pubkey(vec![8]));
}

#[test]
fn handler_rejects_bad_input() {
    let mut hs = vec![UtxoInfo { txid: "a".to_string(), vout: 1, authority: Pubkey(vec![]), data: vec![4] }];
    assert!(handler(&Pubkey(vec![]), &mut hs, &params("Ann", &[1, 2, 3])).is_err());
    assert_eq!(hs[0].data, vec![4]);
    assert!(handler(&Pubkey(vec![]), &mut hs, &vec![1]).is_err());
    assert_eq!(hs[0].data, vec![4]);
}

#[test]
fn greet_sets_every_handle() {
    let mut hs = vec![
        UtxoInfo { txid: "a".to_string(), vout: 1, authority: Pubkey(vec![]), data: vec![] },
        UtxoInfo { txid: "b".to_string(), vout: 2, authority: Pubkey(vec![1]), data: vec![5] },
    ];
    greet(&mut hs, &"\u{e9}".to_string());
    assert_eq!(hs[0].data, "Hello \u{e9}!".as_bytes().to_vec());
    assert_eq!(hs[1].data, "Hello \u{e9}!".as_bytes().to_vec());
    assert_eq!(hs[1].vout, 2);
}

#[test]
fn commit_blob_decodes_as_borsh_maps() {
    let ix = Instruction { program_id: Pubkey(vec![]), utxos: vec![meta("z", 0), meta("a", 5)], data: vec![] };
    let auth = map_of_pairs(&[("z:0", &[1]), ("a:5", &[2])]);
    let data = map_of_pairs(&[("z:0", &[]), ("a:5", &[3, 4])]);
    let mut out = Outbox::new();
    assert_eq!(run(&mut CountHandles(0), &ix, &auth, &data, &mut out), Ok(()));
    let blob = out.into_blob().unwrap();
    type Blob = (
        std::collections::HashMap<String, Vec<u8>>,
        std::collections::HashMap<String, Vec<u8>>,
        Vec<u8>,
    );
    let (a, d, p): Blob = borsh::from_slice(&blob).unwrap();
    assert_eq!(a.len(), 2);
    assert_eq!(a["z:0"], vec![1]);
    assert_eq!(a["a:5"], vec![2]);
    assert_eq!(d["z:0"], Vec::<u8>::new());
    assert_eq!(d["a:5"], vec![3, 4]);
    assert!(p.is_empty());
}

#[test]
fn commit_blob_equals_borsh_of_hash_maps() {
    let tx = sample_tx();
    let ix = Instruction {
        program_id: Pubkey(b"P".to_vec()),
        utxos: vec![meta("z", 0), meta("a", 5), meta("m", 2)],
        data: params("World", &tx),
    };
    let auth = map_of_pairs(&[("z:0", &[1]), ("a:5", &[2]), ("m:2", &[3])]);
    let data = map_of_pairs(&[("z:0", &[]), ("a:5", &[9]), ("m:2", &[])]);
    let mut out = Outbox::new();
    assert_eq!(run(&mut HelloWorld, &ix, &auth, &data, &mut out), Ok(()));
    let blob = out.into_blob().unwrap();
    let mut ha = std::collections::HashMap::new();
    let mut hd = std::collections::HashMap::new();
    for (k, a) in [("z:0", 1u8), ("a:5", 2), ("m:2", 3)] {
        ha.insert(k.to_string(), vec![a]);
        hd.insert(k.to_string(), b"Hello World!".to_vec());
    }
    assert_eq!(blob, borsh::to_vec(&(ha, hd, tx)).unwrap());
}
