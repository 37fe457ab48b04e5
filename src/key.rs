use vstd::prelude::*;

verus! {

/// The ASCII digit character for `d` (`d < 10`).
pub open spec fn digit_char(d: nat) -> char {
    ((48 + d) as u32) as char
}

/// The shortest decimal rendering of `n`, most significant digit first.
pub open spec fn decimal(n: nat) -> Seq<char>
    decreases n,
{
    if n < 10 {
        seq![digit_char(n)]
    } else {
        decimal(n / 10).push(digit_char(n % 10))
    }
}

/// The canonical key of a resource: `"<txid>:<vout>"`.
pub open spec fn canonical_key(txid: Seq<char>, vout: u32) -> Seq<char> {
    txid + seq![':'] + decimal(vout as nat)
}

proof fn lemma_decimal_shape(n: nat)
    ensures
        decimal(n).len() >= 1,
        n < 10 <==> decimal(n).len() == 1,
        forall|i: int| 0 <= i < decimal(n).len() ==> decimal(n)[i] != ':',
    decreases n,
{
    if n >= 10 {
        lemma_decimal_shape(n / 10);
    }
}

proof fn lemma_decimal_injective(a: nat, b: nat)
    requires
        decimal(a) == decimal(b),
    ensures
        a == b,
    decreases a,
{
    lemma_decimal_shape(a);
    lemma_decimal_shape(b);
    if a >= 10 && b >= 10 {
        let da = decimal(a);
        assert(da.last() == digit_char(a % 10));
        assert(decimal(b).last() == digit_char(b % 10));
        assert(da.drop_last() =~= decimal(a / 10));
        assert(decimal(b).drop_last() =~= decimal(b / 10));
        lemma_decimal_injective(a / 10, b / 10);
        assert(a == 10 * (a / 10) + a % 10);
        assert(b == 10 * (b / 10) + b % 10);
    } else if a < 10 && b < 10 {
        assert(decimal(a)[0] == digit_char(a));
        assert(decimal(b)[0] == digit_char(b));
    }
}

/// Distinct resources have distinct canonical keys: the key determines both
/// the transaction id and the output index, whatever characters the id holds.
pub proof fn lemma_canonical_key_injective(t1: Seq<char>, v1: u32, t2: Seq<char>, v2: u32)
    ensures
        canonical_key(t1, v1) == canonical_key(t2, v2) ==> t1 == t2 && v1 == v2,
{
    if canonical_key(t1, v1) == canonical_key(t2, v2) {
        let k = canonical_key(t1, v1);
        let d1 = decimal(v1 as nat);
        let d2 = decimal(v2 as nat);
        lemma_decimal_shape(v1 as nat);
        lemma_decimal_shape(v2 as nat);
        assert(k == canonical_key(t2, v2));
        assert(k[t1.len() as int] == ':');
        assert(k[t2.len() as int] == ':');
        let p1 = t1 + seq![':'];
        let p2 = t2 + seq![':'];
        assert(p1.len() == t1.len() + 1);
        assert(p2.len() == t2.len() + 1);
        assert(k == p1 + d1);
        assert(k == p2 + d2);
        assert(k.len() == p1.len() + d1.len());
        assert(k.len() == p2.len() + d2.len());
        if t1.len() < t2.len() {
            assert((p1 + d1)[t2.len() as int] == d1[t2.len() - p1.len()]);
        } else if t2.len() < t1.len() {
            assert((p2 + d2)[t1.len() as int] == d2[t1.len() - p2.len()]);
        }
        assert(t1 =~= k.subrange(0, t1.len() as int));
        assert(t2 =~= k.subrange(0, t2.len() as int));
        assert(d1 =~= k.subrange(t1.len() as int + 1, k.len() as int));
        assert(d2 =~= k.subrange(t2.len() as int + 1, k.len() as int));
        lemma_decimal_injective(v1 as nat, v2 as nat);
    }
}

fn digit_str(d: u32) -> (r: &'static str)
    requires
        d < 10,
    ensures
        r@ == seq![digit_char(d as nat)],
{
    proof {
        reveal_strlit("0");
        reveal_strlit("1");
        reveal_strlit("2");
        reveal_strlit("3");
        reveal_strlit("4");
        reveal_strlit("5");
        reveal_strlit("6");
        reveal_strlit("7");
        reveal_strlit("8");
        reveal_strlit("9");
    }
    match d {
        0 => "0",
        1 => "1",
        2 => "2",
        3 => "3",
        4 => "4",
        5 => "5",
        6 => "6",
        7 => "7",
        8 => "8",
        _ => "9",
    }
}

fn append_decimal(s: String, n: u32) -> (r: String)
    ensures
        r@ == s@ + decimal(n as nat),
    decreases n,
{
    if n < 10 {
        s.concat(digit_str(n))
    } else {
        let head = append_decimal(s, n / 10);
        let r = head.concat(digit_str(n % 10));
        assert(r@ =~= s@ + decimal(n as nat));
        r
    }
}

/// Builds the canonical key `"<txid>:<vout>"` of a resource.
pub fn key_of(txid: &String, vout: u32) -> (r: String)
    ensures
        r@ == canonical_key(txid@, vout),
{
    proof {
        reveal_strlit(":");
    }
    let s = String::from_str(txid.as_str()).concat(":");
    let r = append_decimal(s, vout);
    assert(r@ =~= canonical_key(txid@, vout));
    r
}

} // verus!
