use std::collections::HashMap;
use utxo_guest::codec::{
    decode_commit, decode_instruction, decode_map, decode_params, encode_commit, encode_instruction,
    encode_map, DecodeError,
};
use utxo_guest::key::key_of;
use utxo_guest::map::ResourceMap;
use utxo_guest::types::{Instruction, Pubkey, UtxoInfo, UtxoMeta};

fn sample_instruction() -> Instruction {
    Instruction {
        program_id: Pubkey(vec![0xaa, 0xbb]),
        utxos: vec![
            UtxoMeta { txid: "abc".to_string(), vout: 0 },
            UtxoMeta { txid: "d\u{e9}f".to_string(), vout: 7 },
        ],
        data: vec![1, 2, 3],
    }
}

fn map_of_pairs(pairs: &[(&str, &[u8])]) -> ResourceMap {
    let mut m = ResourceMap::new();
    for (k, v) in pairs {
        m.insert(k.to_string(), v.to_vec());
    }
    m
}

#[test]
fn canonical_key_format() {
    assert_eq!(UtxoMeta { txid: "abc".to_string(), vout: 0 }.id(), "abc:0");
    assert_eq!(UtxoMeta { txid: "a:b".to_string(), vout: 42 }.id(), "a:b:42");
    assert_eq!(key_of(&"t".to_string(), u32::MAX), "t:4294967295");
    assert_eq!(key_of(&String::new(), 10), ":10");
    let h = UtxoInfo { txid: "xyz".to_string(), vout: 3, authority: Pubkey(vec![]), data: vec![] };
    assert_eq!(h.id(), "xyz:3");
}

#[test]
fn canonical_key_distinct_for_distinct_resources() {
    let a = key_of(&"a:1".to_string(), 2);
    let b = key_of(&"a".to_string(), 12);
    let c = key_of(&"a:1".to_string(), 22);
    assert_ne!(a, b);
    assert_ne!(a, c);
    assert_ne!(b, c);
}

#[test]
fn instruction_encoding_matches_borsh_layout() {
    let ix = sample_instruction();
    let bytes = encode_instruction(&ix).unwrap();
    let (pid, utxos, data): (Vec<u8>, Vec<(String, u32)>, Vec<u8>) = borsh::from_slice(&bytes).unwrap();
    assert_eq!(pid, vec![0xaa, 0xbb]);
    assert_eq!(utxos, vec![("abc".to_string(), 0), ("d\u{e9}f".to_string(), 7)]);
    assert_eq!(data, vec![1, 2, 3]);
    let expected = borsh::to_vec(&(pid, utxos, data)).unwrap();
    assert_eq!(bytes, expected);
}

#[test]
fn instruction_round_trip() {
    let ix = sample_instruction();
    let bytes = encode_instruction(&ix).unwrap();
    let back = decode_instruction(&bytes).unwrap();
    assert_eq!(back, ix);
    assert_eq!(encode_instruction(&back).unwrap(), bytes);
}

#[test]
fn instruction_decode_errors() {
    let bytes = encode_instruction(&sample_instruction()).unwrap();
    assert_eq!(decode_instruction(&bytes[..bytes.len() - 1]), Err(DecodeError::UnexpectedEnd));
    let mut longer = bytes.clone();
    longer.push(0);
    assert_eq!(decode_instruction(&longer), Err(DecodeError::TrailingBytes));
    assert_eq!(decode_instruction(&[]), Err(DecodeError::UnexpectedEnd));
    // program id, one identifier whose id is the single byte 0xff
    let bad = vec![0, 0, 0, 0, 1, 0, 0, 0, 1, 0, 0, 0, 0xff, 0, 0, 0, 0, 0, 0, 0, 0];
    assert_eq!(decode_instruction(&bad), Err(DecodeError::InvalidUtf8));
}

#[test]
fn map_round_trip_and_layout() {
    let m = map_of_pairs(&[("abc:0", &[1]), ("xyz:3", &[])]);
    let bytes = encode_map(&m).unwrap();
    assert_eq!(
        bytes,
        vec![2, 0, 0, 0, 5, 0, 0, 0, b'a', b'b', b'c', b':', b'0', 1, 0, 0, 0, 1, 5, 0, 0, 0, b'x', b'y', b'z', b':', b'3', 0, 0, 0, 0]
    );
    let back = decode_map(&bytes).unwrap();
    assert_eq!(back, m);
    assert_eq!(encode_map(&back).unwrap(), bytes);
    let via_borsh: HashMap<String, Vec<u8>> = borsh::from_slice(&bytes).unwrap();
    assert_eq!(via_borsh.len(), 2);
    assert_eq!(via_borsh["abc:0"], vec![1]);
}

#[test]
fn map_decode_rejects_duplicate_keys() {
    let bytes = vec![2, 0, 0, 0, 1, 0, 0, 0, b'k', 0, 0, 0, 0, 1, 0, 0, 0, b'k', 0, 0, 0, 0];
    assert_eq!(decode_map(&bytes), Err(DecodeError::KeysOutOfOrder));
}

#[test]
fn map_decode_rejects_descending_keys() {
    let bytes = vec![2, 0, 0, 0, 1, 0, 0, 0, b'z', 0, 0, 0, 0, 1, 0, 0, 0, b'a', 0, 0, 0, 0];
    assert_eq!(decode_map(&bytes), Err(DecodeError::KeysOutOfOrder));
}

#[test]
fn map_keeps_keys_in_string_order() {
    let m = map_of_pairs(&[("z:0", &[1]), ("a:5", &[2]), ("\u{e9}:1", &[3]), ("a:10", &[4])]);
    let keys: Vec<String> = (0..m.len()).map(|i| m.entry(i).0.clone()).collect();
    let mut sorted = keys.clone();
    sorted.sort();
    assert_eq!(keys, sorted);
    let hm: HashMap<String, Vec<u8>> =
        keys.iter().map(|k| (k.clone(), m.get(k).unwrap().clone())).collect();
    assert_eq!(encode_map(&m).unwrap(), borsh::to_vec(&hm).unwrap());
}

#[test]
fn empty_map_encoding() {
    let m = ResourceMap::new();
    assert_eq!(encode_map(&m).unwrap(), vec![0, 0, 0, 0]);
    assert_eq!(decode_map(&[0, 0, 0, 0]).unwrap().len(), 0);
}

#[test]
fn commit_round_trip() {
    let a = map_of_pairs(&[("abc:0", &[1])]);
    let d = map_of_pairs(&[("abc:0", b"Hello World!")]);
    let blob = encode_commit(&a, &d, &vec![9, 9]).unwrap();
    let (a2, d2, p2) = decode_commit(&blob).unwrap();
    assert_eq!(a2, a);
    assert_eq!(d2, d);
    assert_eq!(p2, vec![9, 9]);
    assert_eq!(encode_commit(&a2, &d2, &p2).unwrap(), blob);
    type Blob = (HashMap<String, Vec<u8>>, HashMap<String, Vec<u8>>, Vec<u8>);
    let (ba, bd, bp): Blob = borsh::from_slice(&blob).unwrap();
    assert_eq!(ba["abc:0"], vec![1]);
    assert_eq!(bd["abc:0"], b"Hello World!".to_vec());
    assert_eq!(bp, vec![9, 9]);
}

#[test]
fn params_decode() {
    let bytes = borsh::to_vec(&("World".to_string(), vec![5u8, 6])).unwrap();
    let p = decode_params(&bytes).unwrap();
    assert_eq!(p.name, "World");
    assert_eq!(p.tx_hex, vec![5, 6]);
    assert_eq!(decode_params(&bytes[..3]), Err(DecodeError::UnexpectedEnd));
}

#[test]
fn map_insert_overwrites_in_place() {
    let mut m = map_of_pairs(&[("a", &[1]), ("b", &[2])]);
    m.insert("a".to_string(), vec![3]);
    assert_eq!(m.len(), 2);
    assert_eq!(m.get(&"a".to_string()), Some(&vec![3]));
    assert_eq!(m.get(&"b".to_string()), Some(&vec![2]));
    assert_eq!(m.get(&"c".to_string()), None);
    let (k, v) = m.entry(0);
    assert_eq!((k.as_str(), v.as_slice()), ("a", &[3u8][..]));
}
