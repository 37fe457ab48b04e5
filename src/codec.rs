use vstd::prelude::*;
use vstd::bytes::{spec_u32_to_le_bytes, lemma_auto_spec_u32_to_from_le_bytes, u32_to_le_bytes, u32_from_le_bytes};
use vstd::slice::{slice_subrange, slice_to_vec};
use vstd::utf8::{encode_utf8, valid_utf8, encode_utf8_valid_utf8, encode_utf8_decode_utf8, decode_utf8};
use crate::map::{Entries, ResourceMap, keys_sorted};
use crate::order::{bytes_less, key_lt, lemma_key_lt_transitive, lemma_key_lt_irreflexive};
use crate::map::lemma_sorted_insert_last;
use crate::types::{Pubkey, UtxoMeta, Instruction, HelloWorldParams};

verus! {

/// Why a byte string is not the encoding of a value.
#[derive(Clone, Copy, Debug, PartialEq, Eq)]
pub enum DecodeError {
    /// The input ends inside a value.
    UnexpectedEnd,
    /// A string's bytes are not UTF-8.
    InvalidUtf8,
    /// A map's keys do not strictly ascend: one repeats or comes out of order.
    KeysOutOfOrder,
    /// Bytes remain after the value.
    TrailingBytes,
}

/// A length-prefixed byte string: four little-endian length bytes, then the bytes.
pub open spec fn enc_bytes(b: Seq<u8>) -> Seq<u8> {
    spec_u32_to_le_bytes(b.len() as u32) + b
}

/// A string is encoded as the length-prefixed bytes of its UTF-8 form.
pub open spec fn enc_str(s: Seq<char>) -> Seq<u8> {
    enc_bytes(encode_utf8(s))
}

/// The entries of a map, each key followed by its value, without the count.
pub open spec fn enc_entries(s: Entries) -> Seq<u8>
    decreases s.len(),
{
    if s.len() == 0 {
        Seq::empty()
    } else {
        enc_entries(s.drop_last()) + enc_str(s.last().0) + enc_bytes(s.last().1)
    }
}

/// A map: the entry count, then the entries.
pub open spec fn enc_map(s: Entries) -> Seq<u8> {
    spec_u32_to_le_bytes(s.len() as u32) + enc_entries(s)
}

/// Resource identifiers, each its transaction id then its output index, without the count.
pub open spec fn enc_metas(s: Seq<UtxoMeta>) -> Seq<u8>
    decreases s.len(),
{
    if s.len() == 0 {
        Seq::empty()
    } else {
        enc_metas(s.drop_last()) + enc_str(s.last().txid@) + spec_u32_to_le_bytes(s.last().vout)
    }
}

/// The encoding of an instruction: program id, the counted identifiers, payload.
pub open spec fn instruction_bytes(ix: Instruction) -> Seq<u8> {
    enc_bytes(ix.program_id.0@) + spec_u32_to_le_bytes(ix.utxos@.len() as u32) + enc_metas(ix.utxos@)
        + enc_bytes(ix.data@)
}

/// The encoding of the greeting payload: the name, then the transaction bytes.
pub open spec fn params_bytes(p: HelloWorldParams) -> Seq<u8> {
    enc_str(p.name@) + enc_bytes(p.tx_hex@)
}

/// The committed output: authority map, data map, then the transition's result.
pub open spec fn commit_bytes(auth: Entries, data: Entries, payload: Seq<u8>) -> Seq<u8> {
    enc_map(auth) + enc_map(data) + enc_bytes(payload)
}

/// `b` holds `x` from position `pos` on.
pub open spec fn starts_with_at(b: Seq<u8>, pos: int, x: Seq<u8>) -> bool {
    0 <= pos && pos + x.len() <= b.len() && b.subrange(pos, pos + x.len()) == x
}

/// `n` fits a four-byte length or count prefix.
pub open spec fn fits_u32(n: nat) -> bool {
    n <= u32::MAX
}

/// The key and value of an entry fit the four-byte prefix.
pub open spec fn entry_fits(e: (Seq<char>, Seq<u8>)) -> bool {
    fits_u32(encode_utf8(e.0).len()) && fits_u32(e.1.len())
}

/// Every count and length in the map fits the four-byte prefix.
pub open spec fn map_fits(s: Entries) -> bool {
    &&& fits_u32(s.len())
    &&& forall|i: int| 0 <= i < s.len() ==> #[trigger] entry_fits(s[i])
}

/// The name and the transaction fit the four-byte prefix.
pub open spec fn params_fit(p: HelloWorldParams) -> bool {
    fits_u32(encode_utf8(p.name@).len()) && fits_u32(p.tx_hex@.len())
}

/// Every count and length in the instruction fits the four-byte prefix.
pub open spec fn instruction_fits(ix: Instruction) -> bool {
    &&& fits_u32(ix.program_id.0@.len())
    &&& fits_u32(ix.utxos@.len())
    &&& forall|i: int| 0 <= i < ix.utxos@.len() ==> fits_u32(encode_utf8(#[trigger] ix.utxos@[i].txid@).len())
    &&& fits_u32(ix.data@.len())
}

/// `b` holds, from `pos` on, the encoding of a well-formed map with entries `s`.
pub open spec fn map_at(b: Seq<u8>, pos: int, s: Entries) -> bool {
    keys_sorted(s) && map_fits(s) && starts_with_at(b, pos, enc_map(s))
}

proof fn lemma_starts_with_split(b: Seq<u8>, pos: int, x: Seq<u8>, y: Seq<u8>)
    requires
        starts_with_at(b, pos, x + y),
    ensures
        starts_with_at(b, pos, x),
        starts_with_at(b, pos + x.len(), y),
{
    let w = b.subrange(pos, pos + (x + y).len());
    assert(w == x + y);
    assert(b.subrange(pos, pos + x.len()) =~= w.subrange(0, x.len() as int));
    assert(w.subrange(0, x.len() as int) =~= x);
    assert(b.subrange(pos + x.len(), pos + x.len() + y.len()) =~= w.subrange(x.len() as int, w.len() as int));
    assert(w.subrange(x.len() as int, w.len() as int) =~= y);
}

proof fn lemma_starts_with_prefix(b: Seq<u8>, pos: int, x: Seq<u8>, n: int)
    requires
        starts_with_at(b, pos, x),
        0 <= n <= x.len(),
    ensures
        starts_with_at(b, pos, x.subrange(0, n)),
{
    assert(b.subrange(pos, pos + n) =~= x.subrange(0, n));
}

proof fn lemma_enc_entries_step(s: Entries, i: int)
    requires
        0 <= i < s.len(),
    ensures
        enc_entries(s.subrange(0, i + 1)) == enc_entries(s.subrange(0, i)) + enc_str(s[i].0) + enc_bytes(s[i].1),
{
    assert(s.subrange(0, i + 1).drop_last() =~= s.subrange(0, i));
}

proof fn lemma_enc_entries_prefix(s: Entries, i: int)
    requires
        0 <= i <= s.len(),
    ensures
        enc_entries(s.subrange(0, i)).len() <= enc_entries(s).len(),
        enc_entries(s).subrange(0, enc_entries(s.subrange(0, i)).len() as int) == enc_entries(s.subrange(0, i)),
    decreases s.len(),
{
    if i == s.len() {
        assert(s.subrange(0, i) =~= s);
        assert(enc_entries(s).subrange(0, enc_entries(s).len() as int) =~= enc_entries(s));
    } else {
        let t = s.drop_last();
        assert(t.subrange(0, i) =~= s.subrange(0, i));
        lemma_enc_entries_prefix(t, i);
        let e = enc_entries(s.subrange(0, i));
        assert(enc_entries(s).subrange(0, e.len() as int) =~= enc_entries(t).subrange(0, e.len() as int));
    }
}

/// Where a map with entries `s` is encoded at `pos`, its entry `i` begins right
/// after the encodings of the entries before it.
proof fn lemma_map_entry_at(b: Seq<u8>, pos: int, s: Entries, i: int)
    requires
        map_at(b, pos, s),
        0 <= i < s.len(),
    ensures
        starts_with_at(b, pos + 4 + enc_entries(s.subrange(0, i)).len(), enc_str(s[i].0)),
        starts_with_at(b, pos + 4 + enc_entries(s.subrange(0, i)).len() + enc_str(s[i].0).len(), enc_bytes(s[i].1)),
{
    lemma_auto_spec_u32_to_from_le_bytes();
    lemma_starts_with_split(b, pos, spec_u32_to_le_bytes(s.len() as u32), enc_entries(s));
    lemma_enc_entries_prefix(s, i + 1);
    lemma_enc_entries_step(s, i);
    let e = enc_entries(s.subrange(0, i + 1));
    lemma_starts_with_prefix(b, pos + 4, enc_entries(s), e.len() as int);
    lemma_starts_with_split(b, pos + 4, enc_entries(s.subrange(0, i)) + enc_str(s[i].0), enc_bytes(s[i].1));
    lemma_starts_with_split(b, pos + 4, enc_entries(s.subrange(0, i)), enc_str(s[i].0));
}

/// The identifiers name the same resources, position by position.
pub open spec fn same_metas(a: Seq<UtxoMeta>, c: Seq<UtxoMeta>) -> bool {
    a.len() == c.len() && forall|i: int| 0 <= i < a.len() ==> #[trigger] a[i].txid@ == c[i].txid@ && a[i].vout == c[i].vout
}

/// The two instructions hold the same program id, identifiers and payload.
pub open spec fn same_instruction(a: Instruction, c: Instruction) -> bool {
    a.program_id.0@ == c.program_id.0@ && same_metas(a.utxos@, c.utxos@) && a.data@ == c.data@
}

proof fn lemma_enc_metas_same(a: Seq<UtxoMeta>, c: Seq<UtxoMeta>)
    requires
        same_metas(a, c),
    ensures
        enc_metas(a) == enc_metas(c),
    decreases a.len(),
{
    if a.len() > 0 {
        assert(same_metas(a.drop_last(), c.drop_last()));
        lemma_enc_metas_same(a.drop_last(), c.drop_last());
        assert(a.last().txid@ == c.last().txid@);
    }
}

proof fn lemma_enc_metas_step(s: Seq<UtxoMeta>, i: int)
    requires
        0 <= i < s.len(),
    ensures
        enc_metas(s.subrange(0, i + 1)) == enc_metas(s.subrange(0, i)) + enc_str(s[i].txid@) + spec_u32_to_le_bytes(s[i].vout),
{
    assert(s.subrange(0, i + 1).drop_last() =~= s.subrange(0, i));
}

proof fn lemma_enc_metas_prefix(s: Seq<UtxoMeta>, i: int)
    requires
        0 <= i <= s.len(),
    ensures
        enc_metas(s.subrange(0, i)).len() <= enc_metas(s).len(),
        enc_metas(s).subrange(0, enc_metas(s.subrange(0, i)).len() as int) == enc_metas(s.subrange(0, i)),
    decreases s.len(),
{
    if i == s.len() {
        assert(s.subrange(0, i) =~= s);
        assert(enc_metas(s).subrange(0, enc_metas(s).len() as int) =~= enc_metas(s));
    } else {
        let t = s.drop_last();
        assert(t.subrange(0, i) =~= s.subrange(0, i));
        lemma_enc_metas_prefix(t, i);
        let e = enc_metas(s.subrange(0, i));
        assert(enc_metas(s).subrange(0, e.len() as int) =~= enc_metas(t).subrange(0, e.len() as int));
    }
}

/// Where the identifiers `s` are encoded at `pos`, identifier `i` begins right
/// after the encodings of those before it.
proof fn lemma_meta_at(b: Seq<u8>, pos: int, s: Seq<UtxoMeta>, i: int)
    requires
        starts_with_at(b, pos, enc_metas(s)),
        0 <= i < s.len(),
    ensures
        starts_with_at(b, pos + enc_metas(s.subrange(0, i)).len(), enc_str(s[i].txid@)),
        starts_with_at(b, pos + enc_metas(s.subrange(0, i)).len() + enc_str(s[i].txid@).len(), spec_u32_to_le_bytes(s[i].vout)),
{
    lemma_enc_metas_prefix(s, i + 1);
    lemma_enc_metas_step(s, i);
    let e = enc_metas(s.subrange(0, i + 1));
    lemma_starts_with_prefix(b, pos, enc_metas(s), e.len() as int);
    lemma_starts_with_split(b, pos, enc_metas(s.subrange(0, i)) + enc_str(s[i].txid@), spec_u32_to_le_bytes(s[i].vout));
    lemma_starts_with_split(b, pos, enc_metas(s.subrange(0, i)), enc_str(s[i].txid@));
}

/// Relies on String::from_utf8: it succeeds exactly on valid UTF-8 and the
/// string it returns consists of those bytes.
#[verifier::external_body]
fn string_from_utf8(b: Vec<u8>) -> (r: Option<String>)
    ensures
        r is Some <==> valid_utf8(b@),
        r matches Some(s) ==> encode_utf8(s@) == b@,
{
    String::from_utf8(b).ok()
}

fn put_raw(out: &mut Vec<u8>, b: &[u8])
    ensures
        final(out)@ == old(out)@ + b@,
{
    let mut i: usize = 0;
    while i < b.len()
        invariant
            i <= b@.len(),
            out@ == old(out)@ + b@.subrange(0, i as int),
        decreases b@.len() - i,
    {
        out.push(b[i]);
        i = i + 1;
        assert(out@ =~= old(out)@ + b@.subrange(0, i as int));
    }
    assert(b@.subrange(0, i as int) =~= b@);
}

fn put_u32(out: &mut Vec<u8>, v: u32)
    ensures
        final(out)@ == old(out)@ + spec_u32_to_le_bytes(v),
{
    let le = u32_to_le_bytes(v);
    put_raw(out, le.as_slice());
}

fn put_bytes(out: &mut Vec<u8>, b: &[u8])
    requires
        fits_u32(b@.len()),
    ensures
        final(out)@ == old(out)@ + enc_bytes(b@),
{
    put_u32(out, b.len() as u32);
    put_raw(out, b);
    assert(out@ =~= old(out)@ + enc_bytes(b@));
}

fn put_str(out: &mut Vec<u8>, s: &String)
    requires
        fits_u32(encode_utf8(s@).len()),
    ensures
        final(out)@ == old(out)@ + enc_str(s@),
{
    put_bytes(out, s.as_str().as_bytes());
}

fn get_u32(b: &[u8], pos: usize) -> (r: Option<(u32, usize)>)
    requires
        pos <= b@.len(),
    ensures
        r matches Some((v, p)) ==> p == pos + 4 && p <= b@.len()
            && b@.subrange(pos as int, p as int) == spec_u32_to_le_bytes(v),
        forall|x: u32| #[trigger] starts_with_at(b@, pos as int, spec_u32_to_le_bytes(x))
            ==> r == Some((x, (pos + 4) as usize)),
{
    proof {
        lemma_auto_spec_u32_to_from_le_bytes();
    }
    if b.len() - pos < 4 {
        return None;
    }
    let s = slice_subrange(b, pos, pos + 4);
    let v = u32_from_le_bytes(s);
    Some((v, pos + 4))
}

fn get_bytes(b: &[u8], pos: usize) -> (r: Result<(Vec<u8>, usize), DecodeError>)
    requires
        pos <= b@.len(),
    ensures
        r matches Ok((v, p)) ==> pos <= p <= b@.len() && b@.subrange(pos as int, p as int) == enc_bytes(v@)
            && fits_u32(v@.len()),
        forall|x: Seq<u8>| fits_u32(x.len()) && #[trigger] starts_with_at(b@, pos as int, enc_bytes(x))
            ==> (r matches Ok((v, p)) && v@ == x && p == pos + enc_bytes(x).len()),
{
    proof {
        lemma_auto_spec_u32_to_from_le_bytes();
        assert forall|x: Seq<u8>| fits_u32(x.len()) && #[trigger] starts_with_at(b@, pos as int, enc_bytes(x))
            implies starts_with_at(b@, pos as int, spec_u32_to_le_bytes(x.len() as u32))
            && b@.subrange(pos + 4, pos + 4 + x.len()) == x by {
            assert(b@.subrange(pos as int, pos + 4) =~= enc_bytes(x).subrange(0, 4));
            assert(b@.subrange(pos + 4, pos + 4 + x.len()) =~= enc_bytes(x).subrange(4, 4 + x.len() as int));
            assert(enc_bytes(x).subrange(0, 4) =~= spec_u32_to_le_bytes(x.len() as u32));
            assert(enc_bytes(x).subrange(4, 4 + x.len() as int) =~= x);
        }
    }
    match get_u32(b, pos) {
        None => Err(DecodeError::UnexpectedEnd),
        Some((n, p)) => {
            if b.len() - p < n as usize {
                return Err(DecodeError::UnexpectedEnd);
            }
            let end = p + n as usize;
            let v = slice_to_vec(slice_subrange(b, p, end));
            assert(b@.subrange(pos as int, end as int) =~= b@.subrange(pos as int, p as int) + v@);
            Ok((v, end))
        },
    }
}

fn get_str(b: &[u8], pos: usize) -> (r: Result<(String, usize), DecodeError>)
    requires
        pos <= b@.len(),
    ensures
        r matches Ok((s, p)) ==> pos <= p <= b@.len() && b@.subrange(pos as int, p as int) == enc_str(s@)
            && fits_u32(encode_utf8(s@).len()),
        forall|x: Seq<char>| fits_u32(encode_utf8(x).len()) && #[trigger] starts_with_at(b@, pos as int, enc_str(x))
            ==> (r matches Ok((s, p)) && s@ == x && p == pos + enc_str(x).len()),
{
    proof {
        assert forall|x: Seq<char>| fits_u32(encode_utf8(x).len()) && #[trigger] starts_with_at(b@, pos as int, enc_str(x))
            implies valid_utf8(encode_utf8(x)) && decode_utf8(encode_utf8(x)) == x by {
            encode_utf8_valid_utf8(x);
            encode_utf8_decode_utf8(x);
        }
    }
    let (v, p) = get_bytes(b, pos)?;
    match string_from_utf8(v) {
        Some(s) => {
            proof {
                encode_utf8_decode_utf8(s@);
            }
            Ok((s, p))
        },
        None => Err(DecodeError::InvalidUtf8),
    }
}


fn put_map(out: &mut Vec<u8>, m: &ResourceMap)
    requires
        map_fits(m@),
    ensures
        final(out)@ == old(out)@ + enc_map(m@),
{
    put_u32(out, m.len() as u32);
    let mut i: usize = 0;
    while i < m.len()
        invariant
            i <= m@.len(),
            map_fits(m@),
            out@ == old(out)@ + spec_u32_to_le_bytes(m@.len() as u32) + enc_entries(m@.subrange(0, i as int)),
        decreases m@.len() - i,
    {
        let (k, v) = m.entry(i);
        let ghost before = out@;
        assert(entry_fits(m@[i as int]));
        put_str(out, k);
        put_bytes(out, v.as_slice());
        assert(m@.subrange(0, i + 1).drop_last() =~= m@.subrange(0, i as int));
        i = i + 1;
        assert(out@ =~= old(out)@ + spec_u32_to_le_bytes(m@.len() as u32) + enc_entries(m@.subrange(0, i as int)));
    }
    assert(m@.subrange(0, i as int) =~= m@);
    assert(out@ =~= old(out)@ + enc_map(m@));
}

fn get_map(b: &[u8], pos: usize) -> (r: Result<(ResourceMap, usize), DecodeError>)
    requires
        pos <= b@.len(),
    ensures
        r matches Ok((m, p)) ==> pos <= p <= b@.len() && m.wf() && map_fits(m@)
            && b@.subrange(pos as int, p as int) == enc_map(m@),
        forall|s: Entries| #[trigger] map_at(b@, pos as int, s)
            ==> (r matches Ok((m, p)) && m@ == s && p == pos + enc_map(s).len()),
{
    proof {
        lemma_auto_spec_u32_to_from_le_bytes();
    }
    proof {
        assert forall|s: Entries| #[trigger] map_at(b@, pos as int, s)
            implies starts_with_at(b@, pos as int, spec_u32_to_le_bytes(s.len() as u32)) by {
            lemma_starts_with_split(b@, pos as int, spec_u32_to_le_bytes(s.len() as u32), enc_entries(s));
        }
    }
    let (n, p0) = match get_u32(b, pos) {
        Some(x) => x,
        None => { return Err(DecodeError::UnexpectedEnd); },
    };
    let mut m = ResourceMap::new();
    let mut p = p0;
    let mut i: u32 = 0;
    assert(forall|s: Entries| #[trigger] map_at(b@, pos as int, s) ==> s.subrange(0, 0) =~= m@);
    while i < n
        invariant
            pos + 4 == p0 <= p <= b@.len(),
            i <= n,
            m.wf(),
            map_fits(m@),
            m@.len() == i,
            forall|s: Entries| #[trigger] map_at(b@, pos as int, s) ==> n == s.len() && m@ == s.subrange(0, i as int)
                && p == p0 + enc_entries(s.subrange(0, i as int)).len(),
            b@.subrange(pos as int, p0 as int) == spec_u32_to_le_bytes(n),
            b@.subrange(p0 as int, p as int) == enc_entries(m@),
        decreases n - i,
    {
        proof {
            assert forall|s: Entries| #[trigger] map_at(b@, pos as int, s) implies
                starts_with_at(b@, p as int, enc_str(s[i as int].0))
                && starts_with_at(b@, p + enc_str(s[i as int].0).len(), enc_bytes(s[i as int].1))
                && entry_fits(s[i as int]) by {
                lemma_map_entry_at(b@, pos as int, s, i as int);
            }
        }
        let (k, p1) = get_str(b, p)?;
        let (v, p2) = get_bytes(b, p1)?;
        if i > 0 && !bytes_less(m.entry((i - 1) as usize).0.as_str().as_bytes(), k.as_str().as_bytes()) {
            proof {
                assert forall|s: Entries| !map_at(b@, pos as int, s) by {
                    if map_at(b@, pos as int, s) {
                        assert(key_lt(s[i - 1].0, s[i as int].0));
                    }
                }
            }
            return Err(DecodeError::KeysOutOfOrder);
        }
        proof {
            assert forall|j: int| 0 <= j < m@.len() implies #[trigger] key_lt(m@[j].0, k@) by {
                if j < i - 1 {
                    lemma_key_lt_transitive(m@[j].0, m@[i - 1].0, k@);
                }
            }
            lemma_sorted_insert_last(m@, k@, v@);
        }
        let ghost before = m@;
        let ghost kv = k@;
        let ghost vv = v@;
        m.insert(k, v);
        assert(m@ == before.push((kv, vv)));
        assert(m@.drop_last() =~= before);
        assert(entry_fits(m@[i as int]));
        assert forall|s: Entries| #[trigger] map_at(b@, pos as int, s) implies m@ == s.subrange(0, i + 1)
            && p2 == p0 + enc_entries(s.subrange(0, i + 1)).len() by {
            lemma_enc_entries_step(s, i as int);
            assert(m@ =~= s.subrange(0, i + 1));
        }
        assert(b@.subrange(p0 as int, p2 as int) =~= b@.subrange(p0 as int, p as int)
            + b@.subrange(p as int, p1 as int) + b@.subrange(p1 as int, p2 as int));
        p = p2;
        i = i + 1;
    }
    assert(b@.subrange(pos as int, p as int) =~= b@.subrange(pos as int, p0 as int)
        + b@.subrange(p0 as int, p as int));
    assert(forall|s: Entries| #[trigger] map_at(b@, pos as int, s) ==> s.subrange(0, n as int) =~= s);
    Ok((m, p))
}

/// Encodes a resource map; `None` when a count or length exceeds the four-byte prefix.
pub fn encode_map(m: &ResourceMap) -> (r: Option<Vec<u8>>)
    ensures
        r is Some <==> map_fits(m@),
        r matches Some(v) ==> v@ == enc_map(m@),
{
    if !check_map_fits(m) {
        return None;
    }
    let mut out: Vec<u8> = Vec::new();
    put_map(&mut out, m);
    assert(out@ =~= enc_map(m@));
    Some(out)
}

fn check_map_fits(m: &ResourceMap) -> (r: bool)
    ensures
        r == map_fits(m@),
{
    if m.len() > u32::MAX as usize {
        return false;
    }
    let mut i: usize = 0;
    while i < m.len()
        invariant
            i <= m@.len(),
            fits_u32(m@.len()),
            forall|j: int| 0 <= j < i ==> #[trigger] entry_fits(m@[j]),
        decreases m@.len() - i,
    {
        let (k, v) = m.entry(i);
        if k.as_str().as_bytes().len() > u32::MAX as usize || v.len() > u32::MAX as usize {
            let ghost e = m@[i as int];
            assert(!entry_fits(e));
            return false;
        }
        i = i + 1;
    }
    true
}

/// Decodes a resource map that fills the whole input. Whatever it returns
/// encodes back to exactly the input.
pub fn decode_map(b: &[u8]) -> (r: Result<ResourceMap, DecodeError>)
    ensures
        r matches Ok(m) ==> m.wf() && map_fits(m@) && enc_map(m@) == b@,
        forall|s: Entries| keys_sorted(s) && map_fits(s) && #[trigger] enc_map(s) == b@
            ==> (r matches Ok(m) && m@ == s),
{
    proof {
        assert forall|s: Entries| keys_sorted(s) && map_fits(s) && #[trigger] enc_map(s) == b@
            implies map_at(b@, 0, s) by {
            assert(b@.subrange(0, b@.len() as int) =~= b@);
        }
    }
    let (m, p) = get_map(b, 0)?;
    if p != b.len() {
        return Err(DecodeError::TrailingBytes);
    }
    assert(b@.subrange(0, p as int) =~= b@);
    Ok(m)
}


fn check_instruction_fits(ix: &Instruction) -> (r: bool)
    ensures
        r == instruction_fits(*ix),
{
    if ix.program_id.0.len() > u32::MAX as usize || ix.utxos.len() > u32::MAX as usize
        || ix.data.len() > u32::MAX as usize {
        return false;
    }
    let mut i: usize = 0;
    while i < ix.utxos.len()
        invariant
            i <= ix.utxos@.len(),
            forall|j: int| 0 <= j < i ==> fits_u32(encode_utf8(#[trigger] ix.utxos@[j].txid@).len()),
        decreases ix.utxos@.len() - i,
    {
        if ix.utxos[i].txid.as_str().as_bytes().len() > u32::MAX as usize {
            return false;
        }
        i = i + 1;
    }
    true
}

/// Encodes an instruction; `None` when a count or length exceeds the four-byte prefix.
pub fn encode_instruction(ix: &Instruction) -> (r: Option<Vec<u8>>)
    ensures
        r is Some <==> instruction_fits(*ix),
        r matches Some(v) ==> v@ == instruction_bytes(*ix),
{
    if !check_instruction_fits(ix) {
        return None;
    }
    let mut out: Vec<u8> = Vec::new();
    put_bytes(&mut out, ix.program_id.0.as_slice());
    put_u32(&mut out, ix.utxos.len() as u32);
    let ghost head = out@;
    let mut i: usize = 0;
    while i < ix.utxos.len()
        invariant
            i <= ix.utxos@.len(),
            instruction_fits(*ix),
            out@ == head + enc_metas(ix.utxos@.subrange(0, i as int)),
        decreases ix.utxos@.len() - i,
    {
        let u = &ix.utxos[i];
        assert(fits_u32(encode_utf8(ix.utxos@[i as int].txid@).len()));
        put_str(&mut out, &u.txid);
        put_u32(&mut out, u.vout);
        assert(ix.utxos@.subrange(0, i + 1).drop_last() =~= ix.utxos@.subrange(0, i as int));
        i = i + 1;
        assert(out@ =~= head + enc_metas(ix.utxos@.subrange(0, i as int)));
    }
    assert(ix.utxos@.subrange(0, i as int) =~= ix.utxos@);
    put_bytes(&mut out, ix.data.as_slice());
    assert(out@ =~= instruction_bytes(*ix));
    Some(out)
}

/// Decodes an instruction that fills the whole input. Whatever it returns
/// encodes back to exactly the input.
pub fn decode_instruction(b: &[u8]) -> (r: Result<Instruction, DecodeError>)
    ensures
        r matches Ok(ix) ==> instruction_fits(ix) && instruction_bytes(ix) == b@,
        forall|ix: Instruction| instruction_fits(ix) && #[trigger] instruction_bytes(ix) == b@
            ==> (r matches Ok(ix2) && same_instruction(ix2, ix)),
{
    proof {
        lemma_auto_spec_u32_to_from_le_bytes();
        assert forall|ix: Instruction| instruction_fits(ix) && #[trigger] instruction_bytes(ix) == b@
            implies starts_with_at(b@, 0, enc_bytes(ix.program_id.0@))
            && starts_with_at(b@, enc_bytes(ix.program_id.0@).len() as int, spec_u32_to_le_bytes(ix.utxos@.len() as u32))
            && starts_with_at(b@, (enc_bytes(ix.program_id.0@).len() + 4) as int, enc_metas(ix.utxos@))
            && starts_with_at(b@, (enc_bytes(ix.program_id.0@).len() + 4 + enc_metas(ix.utxos@).len()) as int, enc_bytes(ix.data@))
            && b@.len() == enc_bytes(ix.program_id.0@).len() + 4 + enc_metas(ix.utxos@).len() + enc_bytes(ix.data@).len() by {
            let x0 = enc_bytes(ix.program_id.0@);
            let x1 = spec_u32_to_le_bytes(ix.utxos@.len() as u32);
            let x2 = enc_metas(ix.utxos@);
            let x3 = enc_bytes(ix.data@);
            assert(b@.subrange(0, b@.len() as int) =~= b@);
            lemma_starts_with_split(b@, 0, x0 + x1 + x2, x3);
            lemma_starts_with_split(b@, 0, x0 + x1, x2);
            lemma_starts_with_split(b@, 0, x0, x1);
        }
    }
    let (pid, p0) = get_bytes(b, 0)?;
    let (n, p1) = match get_u32(b, p0) {
        Some(x) => x,
        None => { return Err(DecodeError::UnexpectedEnd); },
    };
    let mut utxos: Vec<UtxoMeta> = Vec::new();
    let mut p = p1;
    let mut i: u32 = 0;
    while i < n
        invariant
            p0 + 4 == p1 <= p <= b@.len(),
            i <= n,
            utxos@.len() == i,
            b@.subrange(p0 as int, p1 as int) == spec_u32_to_le_bytes(n),
            b@.subrange(p1 as int, p as int) == enc_metas(utxos@),
            forall|j: int| 0 <= j < utxos@.len() ==> fits_u32(encode_utf8(#[trigger] utxos@[j].txid@).len()),
            forall|ix: Instruction| instruction_fits(ix) && #[trigger] instruction_bytes(ix) == b@ ==> {
                &&& ix.program_id.0@ == pid@
                &&& p0 == enc_bytes(pid@).len()
                &&& n == ix.utxos@.len()
                &&& starts_with_at(b@, p1 as int, enc_metas(ix.utxos@))
                &&& starts_with_at(b@, p1 + enc_metas(ix.utxos@).len(), enc_bytes(ix.data@))
                &&& b@.len() == p1 + enc_metas(ix.utxos@).len() + enc_bytes(ix.data@).len()
                &&& same_metas(utxos@, ix.utxos@.subrange(0, i as int))
                &&& p == p1 + enc_metas(ix.utxos@.subrange(0, i as int)).len()
            },
        decreases n - i,
    {
        proof {
            assert forall|ix: Instruction| instruction_fits(ix) && #[trigger] instruction_bytes(ix) == b@ implies
                starts_with_at(b@, p as int, enc_str(ix.utxos@[i as int].txid@))
                && starts_with_at(b@, p + enc_str(ix.utxos@[i as int].txid@).len(), spec_u32_to_le_bytes(ix.utxos@[i as int].vout))
                && fits_u32(encode_utf8(ix.utxos@[i as int].txid@).len()) by {
                lemma_meta_at(b@, p1 as int, ix.utxos@, i as int);
            }
        }
        let (txid, q1) = get_str(b, p)?;
        let (vout, q2) = match get_u32(b, q1) {
            Some(x) => x,
            None => { return Err(DecodeError::UnexpectedEnd); },
        };
        let ghost before = utxos@;
        utxos.push(UtxoMeta { txid, vout });
        assert(utxos@.drop_last() =~= before);
        assert forall|ix: Instruction| instruction_fits(ix) && #[trigger] instruction_bytes(ix) == b@ implies
            same_metas(utxos@, ix.utxos@.subrange(0, i + 1))
            && q2 == p1 + enc_metas(ix.utxos@.subrange(0, i + 1)).len() by {
            lemma_enc_metas_step(ix.utxos@, i as int);
            let t = ix.utxos@.subrange(0, i + 1);
            assert forall|j: int| 0 <= j < utxos@.len() implies #[trigger] utxos@[j].txid@ == t[j].txid@ && utxos@[j].vout == t[j].vout by {
                if j < i {
                    assert(same_metas(before, ix.utxos@.subrange(0, i as int)));
                    assert(before[j] == utxos@[j]);
                }
            }
        }
        assert(b@.subrange(p1 as int, q2 as int) =~= b@.subrange(p1 as int, p as int)
            + b@.subrange(p as int, q1 as int) + b@.subrange(q1 as int, q2 as int));
        p = q2;
        i = i + 1;
    }
    proof {
        assert forall|ix: Instruction| instruction_fits(ix) && #[trigger] instruction_bytes(ix) == b@ implies
            same_metas(utxos@, ix.utxos@) && p == p1 + enc_metas(ix.utxos@).len()
            && starts_with_at(b@, p as int, enc_bytes(ix.data@)) && b@.len() == p + enc_bytes(ix.data@).len() by {
            assert(ix.utxos@.subrange(0, n as int) =~= ix.utxos@);
        }
    }
    let (data, end) = get_bytes(b, p)?;
    if end != b.len() {
        return Err(DecodeError::TrailingBytes);
    }
    let ix = Instruction { program_id: Pubkey(pid), utxos, data };
    assert(b@ =~= b@.subrange(0, p0 as int) + b@.subrange(p0 as int, p1 as int)
        + b@.subrange(p1 as int, p as int) + b@.subrange(p as int, end as int));
    assert(ix.utxos@.len() as u32 == n);
    proof {
        assert forall|ix2: Instruction| instruction_fits(ix2) && #[trigger] instruction_bytes(ix2) == b@ implies
            same_instruction(ix, ix2) by {
            lemma_enc_metas_same(ix.utxos@, ix2.utxos@);
        }
    }
    Ok(ix)
}

/// Decodes the greeting payload, which must fill the whole input. Whatever it
/// returns encodes back to exactly the input.
pub fn decode_params(b: &[u8]) -> (r: Result<HelloWorldParams, DecodeError>)
    ensures
        r matches Ok(p) ==> params_fit(p) && params_bytes(p) == b@,
        forall|p: HelloWorldParams| params_fit(p) && #[trigger] params_bytes(p) == b@
            ==> (r matches Ok(q) && q.name@ == p.name@ && q.tx_hex@ == p.tx_hex@),
{
    proof {
        assert forall|p: HelloWorldParams| params_fit(p) && #[trigger] params_bytes(p) == b@
            implies starts_with_at(b@, 0, enc_str(p.name@))
            && starts_with_at(b@, enc_str(p.name@).len() as int, enc_bytes(p.tx_hex@)) by {
            assert(b@.subrange(0, b@.len() as int) =~= b@);
            lemma_starts_with_split(b@, 0, enc_str(p.name@), enc_bytes(p.tx_hex@));
        }
    }
    let (name, p0) = get_str(b, 0)?;
    let (tx_hex, end) = get_bytes(b, p0)?;
    if end != b.len() {
        return Err(DecodeError::TrailingBytes);
    }
    assert(b@ =~= b@.subrange(0, p0 as int) + b@.subrange(p0 as int, end as int));
    Ok(HelloWorldParams { name, tx_hex })
}

/// Encodes the committed output; `None` when a count or length exceeds the
/// four-byte prefix.
pub fn encode_commit(auth: &ResourceMap, data: &ResourceMap, payload: &Vec<u8>) -> (r: Option<Vec<u8>>)
    ensures
        r is Some <==> map_fits(auth@) && map_fits(data@) && fits_u32(payload@.len()),
        r matches Some(v) ==> v@ == commit_bytes(auth@, data@, payload@),
{
    if !check_map_fits(auth) || !check_map_fits(data) || payload.len() > u32::MAX as usize {
        return None;
    }
    let mut out: Vec<u8> = Vec::new();
    put_map(&mut out, auth);
    put_map(&mut out, data);
    put_bytes(&mut out, payload.as_slice());
    assert(out@ =~= commit_bytes(auth@, data@, payload@));
    Some(out)
}

/// Decodes a committed output that fills the whole input. Whatever it returns
/// encodes back to exactly the input.
pub fn decode_commit(b: &[u8]) -> (r: Result<(ResourceMap, ResourceMap, Vec<u8>), DecodeError>)
    ensures
        r matches Ok((a, d, v)) ==> a.wf() && d.wf() && map_fits(a@) && map_fits(d@) && fits_u32(v@.len())
            && commit_bytes(a@, d@, v@) == b@,
        forall|a: Entries, d: Entries, v: Seq<u8>|
            keys_sorted(a) && map_fits(a) && keys_sorted(d) && map_fits(d) && fits_u32(v.len())
            && #[trigger] commit_bytes(a, d, v) == b@
            ==> (r matches Ok((a2, d2, v2)) && a2@ == a && d2@ == d && v2@ == v),
{
    proof {
        assert forall|a: Entries, d: Entries, v: Seq<u8>|
            keys_sorted(a) && map_fits(a) && keys_sorted(d) && map_fits(d) && fits_u32(v.len())
            && #[trigger] commit_bytes(a, d, v) == b@
            implies map_at(b@, 0, a) && map_at(b@, enc_map(a).len() as int, d)
            && starts_with_at(b@, (enc_map(a).len() + enc_map(d).len()) as int, enc_bytes(v))
            && enc_map(a).len() + enc_map(d).len() + enc_bytes(v).len() == b@.len() by {
            assert(b@.subrange(0, b@.len() as int) =~= b@);
            lemma_starts_with_split(b@, 0, enc_map(a) + enc_map(d), enc_bytes(v));
            lemma_starts_with_split(b@, 0, enc_map(a), enc_map(d));
        }
    }
    let (auth, p0) = get_map(b, 0)?;
    let (data, p1) = get_map(b, p0)?;
    let (payload, end) = get_bytes(b, p1)?;
    if end != b.len() {
        return Err(DecodeError::TrailingBytes);
    }
    assert(b@ =~= b@.subrange(0, p0 as int) + b@.subrange(p0 as int, p1 as int)
        + b@.subrange(p1 as int, end as int));
    Ok((auth, data, payload))
}

} // verus!
