//! Fixed-width big-endian byte encodings of natural numbers, and the
//! lexicographic order on byte sequences.
//!
//! Every typed key encoding in this crate bottoms out here: a key is
//! mapped to a natural number (unsigned values directly, signed values
//! by offsetting past the most negative value), and the number is laid
//! out most-significant byte first, so that numeric order and
//! lexicographic byte order coincide.

use vstd::prelude::*;

verus! {

/// `256^n`, the number of distinct values an `n`-byte encoding can hold.
pub open spec fn pow256(n: nat) -> nat
    decreases n,
{
    if n == 0 {
        1
    } else {
        256 * pow256((n - 1) as nat)
    }
}

/// The `n`-byte big-endian encoding of `v` (taken modulo `256^n`):
/// most-significant byte first, least-significant byte last.
pub open spec fn be_bytes(v: nat, n: nat) -> Seq<u8>
    decreases n,
{
    if n == 0 {
        Seq::empty()
    } else {
        be_bytes(v / 256, (n - 1) as nat).push((v % 256) as u8)
    }
}

/// The natural number a big-endian byte sequence denotes.
pub open spec fn be_val(s: Seq<u8>) -> nat
    decreases s.len(),
{
    if s.len() == 0 {
        0
    } else {
        be_val(s.drop_last()) * 256 + (s.last() as nat)
    }
}

/// Strict lexicographic order on byte sequences: a proper prefix comes
/// first, otherwise the first differing byte decides.
pub open spec fn lex_lt(a: Seq<u8>, b: Seq<u8>) -> bool
    decreases a.len(),
{
    if b.len() == 0 {
        false
    } else if a.len() == 0 {
        true
    } else if a[0] < b[0] {
        true
    } else if a[0] == b[0] {
        lex_lt(a.skip(1), b.skip(1))
    } else {
        false
    }
}

pub proof fn lemma_pow256_pos(n: nat)
    ensures
        pow256(n) >= 1,
    decreases n,
{
    if n > 0 {
        lemma_pow256_pos((n - 1) as nat);
    }
}

pub proof fn lemma_pow256_increases(m: nat, n: nat)
    requires
        m <= n,
    ensures
        pow256(m) <= pow256(n),
    decreases n,
{
    if m < n {
        lemma_pow256_increases(m, (n - 1) as nat);
        lemma_pow256_pos((n - 1) as nat);
    }
}

pub proof fn lemma_be_bytes_len(v: nat, n: nat)
    ensures
        be_bytes(v, n).len() == n,
    decreases n,
{
    if n > 0 {
        lemma_be_bytes_len(v / 256, (n - 1) as nat);
    }
}

/// A sequence of `n` bytes denotes a value below `256^n`.
pub proof fn lemma_be_val_bound(s: Seq<u8>)
    ensures
        be_val(s) < pow256(s.len()),
    decreases s.len(),
{
    if s.len() > 0 {
        lemma_be_val_bound(s.drop_last());
    }
}

/// Decoding inverts encoding: the `n`-byte encoding of `v < 256^n`
/// denotes `v` itself.
pub proof fn lemma_be_val_be_bytes(v: nat, n: nat)
    requires
        v < pow256(n),
    ensures
        be_val(be_bytes(v, n)) == v,
    decreases n,
{
    if n == 0 {
        assert(be_bytes(v, n) == Seq::<u8>::empty());
    } else {
        let prefix = be_bytes(v / 256, (n - 1) as nat);
        let s = prefix.push((v % 256) as u8);
        lemma_be_bytes_len(v / 256, (n - 1) as nat);
        assert(s.drop_last() =~= prefix);
        assert(s.last() == (v % 256) as u8);
        assert(v / 256 < pow256((n - 1) as nat)) by (nonlinear_arith)
            requires
                v < 256 * pow256((n - 1) as nat),
        ;
        lemma_be_val_be_bytes(v / 256, (n - 1) as nat);
        assert((v / 256) * 256 + (v % 256) == v) by (nonlinear_arith);
    }
}

/// The byte widths this crate uses, as plain numerals.
pub proof fn lemma_pow256_values()
    ensures
        pow256(1) == 0x100,
        pow256(2) == 0x10000,
        pow256(4) == 0x100000000,
        pow256(8) == 0x10000000000000000,
        pow256(16) == 0x100000000000000000000000000000000,
{
    reveal_with_fuel(pow256, 17);
}

/// Encoding inverts decoding: re-encoding the value an `n`-byte
/// sequence denotes gives back that very sequence.
pub proof fn lemma_be_bytes_be_val(s: Seq<u8>)
    ensures
        be_bytes(be_val(s), s.len()) == s,
    decreases s.len(),
{
    if s.len() == 0 {
        assert(be_bytes(be_val(s), s.len()) =~= s);
    } else {
        let hi = be_val(s.drop_last());
        let lo = s.last() as nat;
        let v = hi * 256 + lo;
        assert(v / 256 == hi && v % 256 == lo) by (nonlinear_arith)
            requires
                lo < 256,
                v == hi * 256 + lo,
        ;
        lemma_be_bytes_be_val(s.drop_last());
        assert(be_bytes(v, s.len()) =~= s.drop_last().push(s.last()));
        assert(s.drop_last().push(s.last()) =~= s);
    }
}

proof fn lemma_lex_push_lt(x: Seq<u8>, y: Seq<u8>, p: u8, q: u8)
    requires
        x.len() == y.len(),
        lex_lt(x, y),
    ensures
        lex_lt(x.push(p), y.push(q)),
    decreases x.len(),
{
    if x.len() == 0 {
        assert(false);
    } else {
        assert(x.push(p)[0] == x[0]);
        assert(y.push(q)[0] == y[0]);
        if x[0] == y[0] {
            assert(x.push(p).skip(1) =~= x.skip(1).push(p));
            assert(y.push(q).skip(1) =~= y.skip(1).push(q));
            lemma_lex_push_lt(x.skip(1), y.skip(1), p, q);
        }
    }
}

proof fn lemma_lex_push_last(x: Seq<u8>, p: u8, q: u8)
    requires
        p < q,
    ensures
        lex_lt(x.push(p), x.push(q)),
    decreases x.len(),
{
    if x.len() == 0 {
        assert(x.push(p)[0] == p);
        assert(x.push(q)[0] == q);
    } else {
        assert(x.push(p)[0] == x[0]);
        assert(x.push(q)[0] == x[0]);
        assert(x.push(p).skip(1) =~= x.skip(1).push(p));
        assert(x.push(q).skip(1) =~= x.skip(1).push(q));
        lemma_lex_push_last(x.skip(1), p, q);
    }
}

pub proof fn lemma_lex_irrefl(s: Seq<u8>)
    ensures
        !lex_lt(s, s),
    decreases s.len(),
{
    if s.len() > 0 {
        lemma_lex_irrefl(s.skip(1));
    }
}

pub proof fn lemma_lex_asym(a: Seq<u8>, b: Seq<u8>)
    requires
        lex_lt(a, b),
    ensures
        !lex_lt(b, a),
    decreases a.len(),
{
    if a.len() > 0 && b.len() > 0 && a[0] == b[0] {
        lemma_lex_asym(a.skip(1), b.skip(1));
    }
}

pub proof fn lemma_lex_trans(a: Seq<u8>, b: Seq<u8>, c: Seq<u8>)
    requires
        lex_lt(a, b),
        lex_lt(b, c),
    ensures
        lex_lt(a, c),
    decreases a.len(),
{
    if a.len() > 0 && b.len() > 0 && c.len() > 0 && a[0] == b[0] && b[0] == c[0] {
        lemma_lex_trans(a.skip(1), b.skip(1), c.skip(1));
    }
}

/// Numeric order carries over to byte order: of two values below
/// `256^n`, the smaller one has the lexicographically smaller
/// `n`-byte encoding.
pub proof fn lemma_be_bytes_order(a: nat, b: nat, n: nat)
    requires
        a < b,
        b < pow256(n),
    ensures
        lex_lt(be_bytes(a, n), be_bytes(b, n)),
    decreases n,
{
    if n == 0 {
        assert(false);
    } else {
        let m = (n - 1) as nat;
        vstd::arithmetic::div_mod::lemma_div_is_ordered(a as int, b as int, 256);
        lemma_be_bytes_len(a / 256, m);
        lemma_be_bytes_len(b / 256, m);
        if a / 256 == b / 256 {
            vstd::arithmetic::div_mod::lemma_fundamental_div_mod(a as int, 256);
            vstd::arithmetic::div_mod::lemma_fundamental_div_mod(b as int, 256);
            lemma_lex_push_last(be_bytes(a / 256, m), (a % 256) as u8, (b % 256) as u8);
        } else {
            assert(b / 256 < pow256(m)) by (nonlinear_arith)
                requires
                    b < 256 * pow256(m),
            ;
            lemma_be_bytes_order(a / 256, b / 256, m);
            lemma_lex_push_lt(
                be_bytes(a / 256, m),
                be_bytes(b / 256, m),
                (a % 256) as u8,
                (b % 256) as u8,
            );
        }
    }
}

/// Byte order agrees exactly with numeric order on equal-width
/// encodings.
pub proof fn lemma_be_order_iff(a: nat, b: nat, n: nat)
    requires
        a < pow256(n),
        b < pow256(n),
    ensures
        (a < b) <==> lex_lt(be_bytes(a, n), be_bytes(b, n)),
{
    if a < b {
        lemma_be_bytes_order(a, b, n);
    } else if a == b {
        lemma_lex_irrefl(be_bytes(a, n));
    } else {
        lemma_be_bytes_order(b, a, n);
        lemma_lex_asym(be_bytes(b, n), be_bytes(a, n));
    }
}

proof fn lemma_lex_skip_common_prefix(a: Seq<u8>, b: Seq<u8>, i: int)
    requires
        0 <= i <= a.len(),
        i <= b.len(),
        forall|j: int| 0 <= j < i ==> a[j] == b[j],
    ensures
        lex_lt(a, b) == lex_lt(a.skip(i), b.skip(i)),
    decreases i,
{
    if i == 0 {
        assert(a.skip(0) =~= a);
        assert(b.skip(0) =~= b);
    } else {
        assert(a.len() > 0 && b.len() > 0 && a[0] == b[0]);
        assert(a.skip(1).skip(i - 1) =~= a.skip(i));
        assert(b.skip(1).skip(i - 1) =~= b.skip(i));
        assert(forall|j: int| 0 <= j < i - 1 ==> a.skip(1)[j] == b.skip(1)[j]);
        lemma_lex_skip_common_prefix(a.skip(1), b.skip(1), i - 1);
    }
}

/// Encodes `v` as `width` big-endian bytes.
pub fn encode_be(v: u128, width: usize) -> (r: Vec<u8>)
    ensures
        r@ == be_bytes(v as nat, width as nat),
        r@.len() == width,
    decreases width,
{
    proof {
        lemma_be_bytes_len(v as nat, width as nat);
    }
    if width == 0 {
        Vec::new()
    } else {
        let mut r = encode_be(v / 256, width - 1);
        r.push((v % 256) as u8);
        r
    }
}

/// Reads up to sixteen big-endian bytes back as a number.
pub fn decode_be(bytes: &[u8]) -> (r: u128)
    requires
        bytes@.len() <= 16,
    ensures
        r as nat == be_val(bytes@),
{
    let n = bytes.len();
    let mut acc: u128 = 0;
    for i in 0..n
        invariant
            n == bytes@.len() <= 16,
            acc as nat == be_val(bytes@.take(i as int)),
            (acc as nat) < pow256(i as nat),
    {
        proof {
            lemma_be_val_bound(bytes@.take(i + 1));
            lemma_pow256_increases((i + 1) as nat, 16);
            assert(pow256(16) == 0x100000000000000000000000000000000) by {
                reveal_with_fuel(pow256, 17);
            }
            assert(bytes@.take(i + 1).drop_last() =~= bytes@.take(i as int));
            assert(bytes@.take(i + 1).last() == bytes@[i as int]);
        }
        acc = acc * 256 + (bytes[i] as u128);
    }
    proof {
        assert(bytes@.take(n as int) =~= bytes@);
    }
    acc
}

/// Compares two byte strings lexicographically.
pub fn lex_less(a: &[u8], b: &[u8]) -> (r: bool)
    ensures
        r == lex_lt(a@, b@),
{
    let an = a.len();
    let bn = b.len();
    let min: usize = if an < bn {
        an
    } else {
        bn
    };
    for i in 0..min
        invariant
            an == a@.len(),
            bn == b@.len(),
            min <= an,
            min <= bn,
            forall|j: int| 0 <= j < i ==> a@[j] == b@[j],
    {
        if a[i] < b[i] {
            proof {
                lemma_lex_skip_common_prefix(a@, b@, i as int);
            }
            return true;
        }
        if a[i] > b[i] {
            proof {
                lemma_lex_skip_common_prefix(a@, b@, i as int);
            }
            return false;
        }
    }
    proof {
        lemma_lex_skip_common_prefix(a@, b@, min as int);
    }
    an < bn
}

} // verus!
