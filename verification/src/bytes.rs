//! Byte-level building blocks: lexicographic order on byte strings, big-endian integers and
//! string comparison.
use vstd::prelude::*;
use vstd::arithmetic::power::pow;
use vstd::utf8::*;

verus! {

broadcast use vstd::seq_lib::group_seq_properties;

/// Lexicographic order on byte strings (the order `Vec<u8>` and `String` sort by).
pub open spec fn bytes_lt(a: Seq<u8>, b: Seq<u8>) -> bool
    decreases a.len(),
{
    if a.len() == 0 {
        b.len() > 0
    } else if b.len() == 0 {
        false
    } else if a[0] != b[0] {
        a[0] < b[0]
    } else {
        bytes_lt(a.drop_first(), b.drop_first())
    }
}

/// The order is irreflexive.
pub proof fn lemma_bytes_lt_irreflexive(a: Seq<u8>)
    ensures
        !bytes_lt(a, a),
    decreases a.len(),
{
    if a.len() > 0 {
        lemma_bytes_lt_irreflexive(a.drop_first());
    }
}

/// The order is transitive.
pub proof fn lemma_bytes_lt_transitive(a: Seq<u8>, b: Seq<u8>, c: Seq<u8>)
    requires
        bytes_lt(a, b),
        bytes_lt(b, c),
    ensures
        bytes_lt(a, c),
    decreases a.len(),
{
    if a.len() > 0 && b.len() > 0 && c.len() > 0 && a[0] == b[0] && b[0] == c[0] {
        lemma_bytes_lt_transitive(a.drop_first(), b.drop_first(), c.drop_first());
    }
}

/// The order is total.
pub proof fn lemma_bytes_lt_total(a: Seq<u8>, b: Seq<u8>)
    ensures
        a == b || bytes_lt(a, b) || bytes_lt(b, a),
    decreases a.len(),
{
    if a.len() > 0 && b.len() > 0 && a[0] == b[0] {
        lemma_bytes_lt_total(a.drop_first(), b.drop_first());
        if a.drop_first() == b.drop_first() {
            assert(a =~= seq![a[0]] + a.drop_first());
            assert(b =~= seq![b[0]] + b.drop_first());
        }
    } else if a.len() == 0 && b.len() == 0 {
        assert(a =~= b);
    }
}

/// Comparing two concatenations whose first parts have one length compares the first parts,
/// then the second ones.
pub proof fn lemma_bytes_lt_concat(a: Seq<u8>, b: Seq<u8>, c: Seq<u8>, d: Seq<u8>)
    requires
        a.len() == b.len(),
    ensures
        bytes_lt(a + c, b + d) == (bytes_lt(a, b) || (a == b && bytes_lt(c, d))),
    decreases a.len(),
{
    if a.len() == 0 {
        assert(a + c =~= c);
        assert(b + d =~= d);
        assert(a =~= b);
    } else {
        assert((a + c).drop_first() =~= a.drop_first() + c);
        assert((b + d).drop_first() =~= b.drop_first() + d);
        lemma_bytes_lt_concat(a.drop_first(), b.drop_first(), c, d);
        assert(a =~= seq![a[0]] + a.drop_first());
        assert(b =~= seq![b[0]] + b.drop_first());
        if a == b {
            assert(a.drop_first() == b.drop_first());
        }
    }
}

/// Single bytes compare as numbers.
pub proof fn lemma_bytes_lt_single(x: u8, y: u8)
    ensures
        bytes_lt(seq![x], seq![y]) == (x < y),
{
    reveal_with_fuel(bytes_lt, 2);
    assert(seq![x].drop_first() =~= Seq::<u8>::empty());
    assert(seq![y].drop_first() =~= Seq::<u8>::empty());
}

/// On big-endian byte strings of one length the byte order is the numeric order.
pub proof fn lemma_be_bytes_lt(x: int, y: int, len: nat)
    requires
        0 <= x < pow(256, len),
        0 <= y < pow(256, len),
    ensures
        bytes_lt(be_bytes(x, len), be_bytes(y, len)) == (x < y),
    decreases len,
{
    vstd::arithmetic::power::lemma_pow0(256);
    if len > 0 {
        let p = pow(256, (len - 1) as nat);
        vstd::arithmetic::power::lemma_pow_adds(256, 1, (len - 1) as nat);
        vstd::arithmetic::power::lemma_pow1(256);
        assert(pow(256, len) == 256 * p);
        let hx = x / 256;
        let hy = y / 256;
        let lx = x % 256;
        let ly = y % 256;
        vstd::arithmetic::div_mod::lemma_fundamental_div_mod(x, 256);
        vstd::arithmetic::div_mod::lemma_fundamental_div_mod(y, 256);
        vstd::arithmetic::div_mod::lemma_mod_bound(x, 256);
        vstd::arithmetic::div_mod::lemma_mod_bound(y, 256);
        assert(0 <= hx < p) by (nonlinear_arith)
            requires
                x == 256 * hx + lx,
                0 <= lx < 256,
                0 <= x < 256 * p,
        ;
        assert(0 <= hy < p) by (nonlinear_arith)
            requires
                y == 256 * hy + ly,
                0 <= ly < 256,
                0 <= y < 256 * p,
        ;
        lemma_be_bytes_lt(hx, hy, (len - 1) as nat);
        lemma_be_bytes_len(hx, (len - 1) as nat);
        lemma_be_bytes_len(hy, (len - 1) as nat);
        let a = be_bytes(hx, (len - 1) as nat);
        let b = be_bytes(hy, (len - 1) as nat);
        assert(be_bytes(x, len) =~= a + seq![lx as u8]);
        assert(be_bytes(y, len) =~= b + seq![ly as u8]);
        lemma_bytes_lt_concat(a, b, seq![lx as u8], seq![ly as u8]);
        lemma_bytes_lt_single(lx as u8, ly as u8);
        if a == b {
            lemma_be_value_of_bytes(hx, (len - 1) as nat);
            lemma_be_value_of_bytes(hy, (len - 1) as nat);
        }
        assert((x < y) == (hx < hy || (hx == hy && lx < ly))) by (nonlinear_arith)
            requires
                x == 256 * hx + lx,
                y == 256 * hy + ly,
                0 <= lx < 256,
                0 <= ly < 256,
        ;
    }
}

proof fn lemma_bytes_lt_step(a: Seq<u8>, b: Seq<u8>, i: int)
    requires
        0 <= i < a.len(),
        i < b.len(),
        a[i] == b[i],
    ensures
        bytes_lt(a.skip(i), b.skip(i)) == bytes_lt(a.skip(i + 1), b.skip(i + 1)),
{
    assert(a.skip(i).drop_first() =~= a.skip(i + 1));
    assert(b.skip(i).drop_first() =~= b.skip(i + 1));
}

/// Whether `a` sorts strictly before `b`.
pub fn bytes_less(a: &[u8], b: &[u8]) -> (r: bool)
    ensures
        r == bytes_lt(a@, b@),
{
    let mut i: usize = 0;
    assert(a@.skip(0) =~= a@);
    assert(b@.skip(0) =~= b@);
    while i < a.len() && i < b.len()
        invariant
            i <= a.len(),
            i <= b.len(),
            bytes_lt(a@, b@) == bytes_lt(a@.skip(i as int), b@.skip(i as int)),
        decreases a.len() - i,
    {
        if a[i] != b[i] {
            return a[i] < b[i];
        }
        proof {
            lemma_bytes_lt_step(a@, b@, i as int);
        }
        i = i + 1;
    }
    i < b.len()
}

/// Whether two byte strings are equal.
pub fn bytes_equal(a: &[u8], b: &[u8]) -> (r: bool)
    ensures
        r == (a@ == b@),
{
    if a.len() != b.len() {
        return false;
    }
    let mut i: usize = 0;
    while i < a.len()
        invariant
            i <= a.len(),
            a.len() == b.len(),
            forall|j: int| 0 <= j < i ==> a@[j] == b@[j],
        decreases a.len() - i,
    {
        if a[i] != b[i] {
            return false;
        }
        i = i + 1;
    }
    assert(a@ =~= b@);
    true
}

/// Two strings are equal exactly when their UTF-8 encodings are.
pub proof fn lemma_encode_utf8_injective(a: Seq<char>, b: Seq<char>)
    requires
        encode_utf8(a) == encode_utf8(b),
    ensures
        a == b,
{
    encode_utf8_decode_utf8(a);
    encode_utf8_decode_utf8(b);
}

/// Whether two strings are equal.
pub fn str_equal(a: &str, b: &str) -> (r: bool)
    ensures
        r == (a@ == b@),
{
    let r = bytes_equal(a.as_bytes(), b.as_bytes());
    proof {
        if r {
            lemma_encode_utf8_injective(a@, b@);
        }
    }
    r
}

/// The `len` least significant base-256 digits of `x`, most significant first.
pub open spec fn be_bytes(x: int, len: nat) -> Seq<u8>
    decreases len,
{
    if len == 0 {
        Seq::empty()
    } else {
        be_bytes(x / 256, (len - 1) as nat).push((x % 256) as u8)
    }
}

/// The number a big-endian byte string denotes.
pub open spec fn be_value(s: Seq<u8>) -> int
    decreases s.len(),
{
    if s.len() == 0 {
        0
    } else {
        be_value(s.drop_last()) * 256 + s.last()
    }
}

pub proof fn lemma_be_bytes_len(x: int, len: nat)
    ensures
        be_bytes(x, len).len() == len,
    decreases len,
{
    if len > 0 {
        lemma_be_bytes_len(x / 256, (len - 1) as nat);
    }
}

/// Reading back what `be_bytes` wrote gives the number, when it fits.
pub proof fn lemma_be_value_of_bytes(x: int, len: nat)
    requires
        0 <= x < pow(256, len),
    ensures
        be_value(be_bytes(x, len)) == x,
    decreases len,
{
    vstd::arithmetic::power::lemma_pow0(256);
    if len > 0 {
        vstd::arithmetic::power::lemma_pow_adds(256, 1, (len - 1) as nat);
        vstd::arithmetic::power::lemma_pow1(256);
        assert(x / 256 < pow(256, (len - 1) as nat)) by {
            vstd::arithmetic::div_mod::lemma_div_is_ordered(x, pow(256, len) - 1, 256);
            vstd::arithmetic::div_mod::lemma_fundamental_div_mod(pow(256, len) - 1, 256);
            vstd::arithmetic::mul::lemma_mul_is_commutative(256, pow(256, (len - 1) as nat));
            assert((pow(256, len) - 1) / 256 == pow(256, (len - 1) as nat) - 1) by {
                let p = pow(256, (len - 1) as nat);
                assert(pow(256, len) - 1 == (p - 1) * 256 + 255) by (nonlinear_arith)
                    requires pow(256, len) == 256 * p;
                vstd::arithmetic::div_mod::lemma_fundamental_div_mod_converse(
                    pow(256, len) - 1, 256, p - 1, 255);
            }
        }
        assert(x / 256 >= 0) by {
            vstd::arithmetic::div_mod::lemma_div_pos_is_pos(x, 256);
        }
        lemma_be_value_of_bytes(x / 256, (len - 1) as nat);
        lemma_be_bytes_len(x / 256, (len - 1) as nat);
        let s = be_bytes(x, len);
        assert(s.drop_last() =~= be_bytes(x / 256, (len - 1) as nat));
        vstd::arithmetic::div_mod::lemma_fundamental_div_mod(x, 256);
    }
}

/// Writing out what a byte string denotes gives the byte string back.
pub proof fn lemma_be_bytes_of_value(s: Seq<u8>)
    ensures
        be_bytes(be_value(s), s.len()) == s,
        0 <= be_value(s) < pow(256, s.len()),
    decreases s.len(),
{
    vstd::arithmetic::power::lemma_pow0(256);
    if s.len() > 0 {
        let v = be_value(s.drop_last());
        lemma_be_bytes_of_value(s.drop_last());
        vstd::arithmetic::power::lemma_pow_adds(256, 1, (s.len() - 1) as nat);
        vstd::arithmetic::power::lemma_pow1(256);
        let x = v * 256 + s.last();
        vstd::arithmetic::div_mod::lemma_fundamental_div_mod_converse(x, 256, v, s.last() as int);
        assert(be_bytes(x, s.len()) =~= s);
        let p = pow(256, (s.len() - 1) as nat);
        assert(x < pow(256, s.len())) by (nonlinear_arith)
            requires
                x == v * 256 + s.last(),
                v < p,
                s.last() < 256,
                pow(256, s.len()) == 256 * p,
        ;
    }
}

/// The big-endian bytes of `x`, `len` of them.
pub fn be_encode(x: u128, len: usize) -> (r: Vec<u8>)
    ensures
        r@ == be_bytes(x as int, len as nat),
    decreases len,
{
    if len == 0 {
        Vec::new()
    } else {
        let mut r = be_encode(x / 256, len - 1);
        r.push((x % 256) as u8);
        r
    }
}

/// The number the big-endian bytes `s` denote; `s` holds at most 16 bytes.
pub fn be_decode(s: &[u8]) -> (r: u128)
    requires
        s.len() <= 16,
    ensures
        r as int == be_value(s@),
{
    let mut acc: u128 = 0;
    let mut i: usize = 0;
    while i < s.len()
        invariant
            i <= s.len(),
            s.len() <= 16,
            acc as int == be_value(s@.take(i as int)),
        decreases s.len() - i,
    {
        proof {
            lemma_be_bytes_of_value(s@.take(i as int));
            vstd::arithmetic::power::lemma_pow_increases(256, i as nat, 15);
            assert(pow(256, 15) == 0x1_0000_0000_0000_0000_0000_0000_0000_00) by {
                reveal_with_fuel(pow, 16);
            }
            assert(s@.take(i + 1).drop_last() =~= s@.take(i as int));
        }
        acc = acc * 256 + s[i] as u128;
        i = i + 1;
    }
    assert(s@.take(s.len() as int) =~= s@);
    acc
}

/// A vector holding the bytes of a slice.
pub fn slice_to_vec(b: &[u8]) -> (r: Vec<u8>)
    ensures
        r@ == b@,
{
    let mut out: Vec<u8> = Vec::new();
    let mut i: usize = 0;
    while i < b.len()
        invariant
            i <= b.len(),
            out@ == b@.take(i as int),
        decreases b.len() - i,
    {
        out.push(b[i]);
        i = i + 1;
        assert(out@ =~= b@.take(i as int));
    }
    assert(b@.take(b.len() as int) =~= b@);
    out
}

} // verus!
