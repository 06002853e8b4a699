//! Lexicographic ordering of byte strings and fixed-width big-endian
//! encodings of integers.
//!
//! Keys in the store are ordered byte strings; every ordering claim made by
//! the key codec bottoms out in the definitions of this module.

use vstd::prelude::*;

verus! {

/// Strict lexicographic order on byte sequences: `a` comes before `b`.
///
/// The empty sequence comes first; otherwise the first differing byte
/// decides, and a proper prefix comes before its extensions.
pub open spec fn lex_less(a: Seq<u8>, b: Seq<u8>) -> bool
    decreases a.len(),
{
    if b.len() == 0 {
        false
    } else if a.len() == 0 {
        true
    } else if a[0] < b[0] {
        true
    } else if a[0] == b[0] {
        lex_less(a.drop_first(), b.drop_first())
    } else {
        false
    }
}

/// Reflexive closure of `lex_less`.
pub open spec fn lex_leq(a: Seq<u8>, b: Seq<u8>) -> bool {
    lex_less(a, b) || a == b
}

/// The sequence made of `n` copies of the byte `b`.
pub open spec fn repeat_byte(b: u8, n: nat) -> Seq<u8> {
    Seq::new(n, |i: int| b)
}

pub proof fn lemma_lex_irreflexive(a: Seq<u8>)
    ensures
        !lex_less(a, a),
    decreases a.len(),
{
    if a.len() > 0 {
        lemma_lex_irreflexive(a.drop_first());
    }
}

pub proof fn lemma_lex_asymmetric(a: Seq<u8>, b: Seq<u8>)
    requires
        lex_less(a, b),
    ensures
        !lex_less(b, a),
    decreases a.len(),
{
    if a.len() > 0 && b.len() > 0 && a[0] == b[0] {
        lemma_lex_asymmetric(a.drop_first(), b.drop_first());
    }
}

pub proof fn lemma_lex_trichotomy(a: Seq<u8>, b: Seq<u8>)
    ensures
        lex_less(a, b) || lex_less(b, a) || a =~= b,
    decreases a.len(),
{
    if a.len() > 0 && b.len() > 0 && a[0] == b[0] {
        lemma_lex_trichotomy(a.drop_first(), b.drop_first());
        if a.drop_first() =~= b.drop_first() {
            assert(a =~= seq![a[0]] + a.drop_first());
            assert(b =~= seq![b[0]] + b.drop_first());
        }
    }
}

pub proof fn lemma_lex_transitive(a: Seq<u8>, b: Seq<u8>, c: Seq<u8>)
    requires
        lex_less(a, b),
        lex_less(b, c),
    ensures
        lex_less(a, c),
    decreases a.len(),
{
    if a.len() > 0 && b.len() > 0 && c.len() > 0 && a[0] == b[0] && b[0] == c[0] {
        lemma_lex_transitive(a.drop_first(), b.drop_first(), c.drop_first());
    }
}

/// A shared prefix neither creates nor hides an ordering difference.
pub proof fn lemma_lex_common_prefix(p: Seq<u8>, a: Seq<u8>, b: Seq<u8>)
    ensures
        lex_less(p + a, p + b) <==> lex_less(a, b),
    decreases p.len(),
{
    if p.len() == 0 {
        assert(p + a =~= a);
        assert(p + b =~= b);
    } else {
        assert((p + a).drop_first() =~= p.drop_first() + a);
        assert((p + b).drop_first() =~= p.drop_first() + b);
        lemma_lex_common_prefix(p.drop_first(), a, b);
    }
}

/// Once two equally long strings differ, nothing appended can reorder them.
pub proof fn lemma_lex_extend(a: Seq<u8>, b: Seq<u8>, s: Seq<u8>, t: Seq<u8>)
    requires
        a.len() == b.len(),
        lex_less(a, b),
    ensures
        lex_less(a + s, b + t),
    decreases a.len(),
{
    if a.len() > 0 {
        if a[0] == b[0] {
            assert((a + s).drop_first() =~= a.drop_first() + s);
            assert((b + t).drop_first() =~= b.drop_first() + t);
            lemma_lex_extend(a.drop_first(), b.drop_first(), s, t);
        }
    }
}

/// The all-zero string of a given length comes first among strings of that
/// length.
pub proof fn lemma_lex_zero_low(s: Seq<u8>)
    ensures
        lex_leq(repeat_byte(0, s.len()), s),
    decreases s.len(),
{
    if s.len() > 0 {
        let z = repeat_byte(0u8, s.len());
        let zt = repeat_byte(0u8, s.drop_first().len());
        lemma_lex_zero_low(s.drop_first());
        assert(z.drop_first() =~= zt);
        if s[0] == 0 {
            if lex_less(zt, s.drop_first()) {
                assert(lex_less(z, s));
            } else {
                assert(zt == s.drop_first());
                assert forall|i: int| 0 <= i < s.len() implies z[i] == s[i] by {
                    if i > 0 {
                        assert(s[i] == s.drop_first()[i - 1]);
                        assert(s.drop_first()[i - 1] == zt[i - 1]);
                    }
                }
                assert(z =~= s);
            }
        } else {
            assert(z[0] == 0);
            assert(lex_less(z, s));
        }
    } else {
        assert(repeat_byte(0u8, s.len()) =~= s);
    }
}

/// The all-`0xff` string of a given length comes last among strings of that
/// length.
pub proof fn lemma_lex_ff_high(s: Seq<u8>)
    ensures
        lex_leq(s, repeat_byte(0xff, s.len())),
    decreases s.len(),
{
    if s.len() > 0 {
        let f = repeat_byte(0xffu8, s.len());
        let ft = repeat_byte(0xffu8, s.drop_first().len());
        lemma_lex_ff_high(s.drop_first());
        assert(f.drop_first() =~= ft);
        if s[0] == 0xff {
            if lex_less(s.drop_first(), ft) {
                assert(lex_less(s, f));
            } else {
                assert(s.drop_first() == ft);
                assert forall|i: int| 0 <= i < s.len() implies s[i] == f[i] by {
                    if i > 0 {
                        assert(s[i] == s.drop_first()[i - 1]);
                        assert(s.drop_first()[i - 1] == ft[i - 1]);
                    }
                }
                assert(s =~= f);
            }
        } else {
            assert(f[0] == 0xff);
            assert(lex_less(s, f));
        }
    } else {
        assert(repeat_byte(0xffu8, s.len()) =~= s);
    }
}

/// Three-way comparison of two byte vectors in lexicographic order.
#[derive(PartialEq, Eq, Structural, Clone, Copy, Debug)]
pub enum ByteOrd {
    Less,
    Equal,
    Greater,
}

pub fn cmp_bytes(a: &Vec<u8>, b: &Vec<u8>) -> (o: ByteOrd)
    ensures
        (o == ByteOrd::Less) <==> lex_less(a@, b@),
        (o == ByteOrd::Equal) <==> a@ == b@,
        (o == ByteOrd::Greater) <==> lex_less(b@, a@),
{
    proof {
        lemma_lex_trichotomy(a@, b@);
        lemma_lex_irreflexive(a@);
        if lex_less(a@, b@) {
            lemma_lex_asymmetric(a@, b@);
        }
        if lex_less(b@, a@) {
            lemma_lex_asymmetric(b@, a@);
        }
    }
    let n = if a.len() < b.len() {
        a.len()
    } else {
        b.len()
    };
    let mut i: usize = 0;
    while i < n
        invariant
            i <= n,
            n <= a@.len(),
            n <= b@.len(),
            a@.take(i as int) =~= b@.take(i as int),
        decreases n - i,
    {
        let x = a[i];
        let y = b[i];
        proof {
            assert(a@ =~= a@.take(i as int) + a@.skip(i as int));
            assert(b@ =~= b@.take(i as int) + b@.skip(i as int));
            assert(a@.take(i as int) == b@.take(i as int));
            lemma_lex_common_prefix(a@.take(i as int), a@.skip(i as int), b@.skip(i as int));
            lemma_lex_common_prefix(b@.take(i as int), b@.skip(i as int), a@.skip(i as int));
            assert(a@.skip(i as int)[0] == x);
            assert(b@.skip(i as int)[0] == y);
        }
        if x < y {
            proof {
                assert(lex_less(a@.skip(i as int), b@.skip(i as int)));
                assert(lex_less(a@, b@));
            }
            return ByteOrd::Less;
        }
        if y < x {
            proof {
                assert(lex_less(b@.skip(i as int), a@.skip(i as int)));
                assert(lex_less(b@, a@));
            }
            return ByteOrd::Greater;
        }
        proof {
            assert(a@.take(i + 1) =~= a@.take(i as int).push(x));
            assert(b@.take(i + 1) =~= b@.take(i as int).push(y));
        }
        i += 1;
    }
    proof {
        assert(a@ =~= a@.take(n as int) + a@.skip(n as int));
        assert(b@ =~= b@.take(n as int) + b@.skip(n as int));
        assert(a@.take(n as int) == b@.take(n as int));
        lemma_lex_common_prefix(a@.take(n as int), a@.skip(n as int), b@.skip(n as int));
        lemma_lex_common_prefix(b@.take(n as int), b@.skip(n as int), a@.skip(n as int));
    }
    if a.len() < b.len() {
        proof {
            assert(a@.skip(n as int).len() == 0);
            assert(b@.skip(n as int).len() > 0);
            assert(lex_less(a@, b@));
        }
        ByteOrd::Less
    } else if b.len() < a.len() {
        proof {
            assert(b@.skip(n as int).len() == 0);
            assert(a@.skip(n as int).len() > 0);
            assert(lex_less(b@, a@));
        }
        ByteOrd::Greater
    } else {
        proof {
            assert(a@ =~= b@);
        }
        ByteOrd::Equal
    }
}

/// Whether `a` comes strictly before `b`.
pub fn bytes_lt(a: &Vec<u8>, b: &Vec<u8>) -> (r: bool)
    ensures
        r == lex_less(a@, b@),
{
    matches!(cmp_bytes(a, b), ByteOrd::Less)
}

/// Whether `a` and `b` hold the same bytes.
pub fn bytes_eq(a: &Vec<u8>, b: &Vec<u8>) -> (r: bool)
    ensures
        r == (a@ == b@),
{
    matches!(cmp_bytes(a, b), ByteOrd::Equal)
}

/// Whether `a` comes before `b` or equals it.
pub fn bytes_leq(a: &Vec<u8>, b: &Vec<u8>) -> (r: bool)
    ensures
        r == lex_leq(a@, b@),
{
    !matches!(cmp_bytes(a, b), ByteOrd::Greater)
}

/// Copies a byte vector.
pub fn copy_bytes(v: &Vec<u8>) -> (r: Vec<u8>)
    ensures
        r@ == v@,
{
    let mut r: Vec<u8> = Vec::new();
    let mut i: usize = 0;
    while i < v.len()
        invariant
            i <= v@.len(),
            r@ =~= v@.take(i as int),
        decreases v@.len() - i,
    {
        r.push(v[i]);
        proof {
            assert(v@.take(i + 1) =~= v@.take(i as int).push(v@[i as int]));
        }
        i += 1;
    }
    proof {
        assert(v@.take(v@.len() as int) =~= v@);
    }
    r
}

/// Copies the bytes of `v` between `from` and `to`.
pub fn copy_range(v: &Vec<u8>, from: usize, to: usize) -> (r: Vec<u8>)
    requires
        from <= to <= v@.len(),
    ensures
        r@ == v@.subrange(from as int, to as int),
{
    let mut r: Vec<u8> = Vec::new();
    let mut i: usize = from;
    while i < to
        invariant
            from <= i <= to <= v@.len(),
            r@ =~= v@.subrange(from as int, i as int),
        decreases to - i,
    {
        r.push(v[i]);
        proof {
            assert(v@.subrange(from as int, i + 1) =~= v@.subrange(from as int, i as int).push(
                v@[i as int],
            ));
        }
        i += 1;
    }
    r
}

/// `256 ^ n`, the number of byte strings of length `n`.
pub open spec fn pow256(n: nat) -> nat
    decreases n,
{
    if n == 0 {
        1
    } else {
        256 * pow256((n - 1) as nat)
    }
}

/// The `n`-byte big-endian encoding of `x mod 256^n`.
pub open spec fn be_bytes(x: nat, n: nat) -> Seq<u8>
    decreases n,
{
    if n == 0 {
        Seq::empty()
    } else {
        be_bytes(x / 256, (n - 1) as nat) + seq![(x % 256) as u8]
    }
}

/// The value read back from a big-endian byte string.
pub open spec fn from_be(s: Seq<u8>) -> nat
    decreases s.len(),
{
    if s.len() == 0 {
        0
    } else {
        (from_be(s.drop_last()) * 256 + s.last()) as nat
    }
}

pub proof fn lemma_be_bytes_len(x: nat, n: nat)
    ensures
        be_bytes(x, n).len() == n,
    decreases n,
{
    if n > 0 {
        lemma_be_bytes_len(x / 256, (n - 1) as nat);
    }
}

pub proof fn lemma_pow256_positive(n: nat)
    ensures
        pow256(n) >= 1,
    decreases n,
{
    if n > 0 {
        lemma_pow256_positive((n - 1) as nat);
    }
}

pub proof fn lemma_pow256_monotonic(m: nat, n: nat)
    requires
        m <= n,
    ensures
        pow256(m) <= pow256(n),
    decreases n,
{
    if m < n && n > 0 {
        lemma_pow256_monotonic(m, (n - 1) as nat);
        lemma_pow256_positive((n - 1) as nat);
    }
}

/// The concrete widths the key codec uses.
pub proof fn lemma_pow256_values()
    ensures
        pow256(1) == 0x100,
        pow256(2) == 0x1_0000,
        pow256(4) == 0x1_0000_0000,
        pow256(8) == 0x1_0000_0000_0000_0000,
{
    reveal_with_fuel(pow256, 9);
}

/// Big-endian encoding of equally wide values preserves numeric order.
pub proof fn lemma_be_bytes_order(x: nat, y: nat, n: nat)
    requires
        x < y,
        y < pow256(n),
    ensures
        lex_less(be_bytes(x, n), be_bytes(y, n)),
    decreases n,
{
    let xh = x / 256;
    let yh = y / 256;
    let xl = (x % 256) as u8;
    let yl = (y % 256) as u8;
    assert(n > 0) by {
        lemma_pow256_positive(n);
        if n == 0 {
            assert(pow256(n) == 1);
        }
    }
    let p = pow256((n - 1) as nat);
    assert(pow256(n) == 256 * p);
    vstd::arithmetic::div_mod::lemma_fundamental_div_mod(x as int, 256);
    vstd::arithmetic::div_mod::lemma_fundamental_div_mod(y as int, 256);
    vstd::arithmetic::div_mod::lemma_mod_bound(x as int, 256);
    vstd::arithmetic::div_mod::lemma_mod_bound(y as int, 256);
    assert(xh <= yh) by (nonlinear_arith)
        requires
            x < y,
            x == 256 * xh + (x % 256),
            y == 256 * yh + (y % 256),
            0 <= x % 256 < 256,
            0 <= y % 256 < 256,
    ;
    assert(yh < p) by (nonlinear_arith)
        requires
            y < 256 * p,
            y == 256 * yh + (y % 256),
            0 <= y % 256,
    ;
    lemma_be_bytes_len(xh, (n - 1) as nat);
    lemma_be_bytes_len(yh, (n - 1) as nat);
    if xh == yh {
        assert(xl < yl);
        lemma_lex_common_prefix(be_bytes(xh, (n - 1) as nat), seq![xl], seq![yl]);
    } else {
        lemma_be_bytes_order(xh, yh, (n - 1) as nat);
        lemma_lex_extend(
            be_bytes(xh, (n - 1) as nat),
            be_bytes(yh, (n - 1) as nat),
            seq![xl],
            seq![yl],
        );
    }
}

/// Reading back an encoding of a value in range yields the value.
pub proof fn lemma_be_bytes_round_trip(x: nat, n: nat)
    requires
        x < pow256(n),
    ensures
        from_be(be_bytes(x, n)) == x,
    decreases n,
{
    if n == 0 {
        assert(be_bytes(x, n) =~= Seq::<u8>::empty());
    } else {
        let s = be_bytes(x, n);
        let h = be_bytes(x / 256, (n - 1) as nat);
        assert(x / 256 < pow256((n - 1) as nat)) by (nonlinear_arith)
            requires
                x < pow256(n),
                pow256(n) == 256 * pow256((n - 1) as nat),
        ;
        lemma_be_bytes_round_trip(x / 256, (n - 1) as nat);
        lemma_be_bytes_len(x / 256, (n - 1) as nat);
        assert(s.drop_last() =~= h);
        assert(s.last() == (x % 256) as u8);
        assert(x / 256 * 256 + x % 256 == x) by (nonlinear_arith);
    }
}

/// Every value read from `n` bytes is below `256 ^ n`.
pub proof fn lemma_from_be_bound(s: Seq<u8>)
    ensures
        from_be(s) < pow256(s.len()),
    decreases s.len(),
{
    if s.len() > 0 {
        lemma_from_be_bound(s.drop_last());
        assert(from_be(s.drop_last()) * 256 + s.last() < 256 * pow256(s.drop_last().len()))
            by (nonlinear_arith)
            requires
                from_be(s.drop_last()) < pow256(s.drop_last().len()),
                s.last() < 256,
        ;
    }
}

/// The `n` low-order bytes of `x`, most significant first.
pub fn u64_to_be(x: u64, n: usize) -> (r: Vec<u8>)
    requires
        n <= 8,
    ensures
        r@ == be_bytes(x as nat, n as nat),
        r@.len() == n,
    decreases n,
{
    proof {
        lemma_be_bytes_len(x as nat, n as nat);
    }
    if n == 0 {
        Vec::new()
    } else {
        let mut v = u64_to_be(x / 256, n - 1);
        v.push((x % 256) as u8);
        proof {
            assert(v@ =~= be_bytes(x as nat, n as nat));
        }
        v
    }
}

/// Reads the `n` bytes of `bytes` starting at `pos` as a big-endian value.
pub fn be_to_u64(bytes: &Vec<u8>, pos: usize, n: usize) -> (r: u64)
    requires
        n <= 8,
        pos + n <= bytes@.len(),
    ensures
        r as nat == from_be(bytes@.subrange(pos as int, pos + n)),
{
    let len = bytes.len();
    let mut acc: u64 = 0;
    let mut i: usize = 0;
    proof {
        assert(bytes@.subrange(pos as int, pos as int) =~= Seq::<u8>::empty());
    }
    while i < n
        invariant
            i <= n,
            n <= 8,
            len == bytes@.len(),
            pos + n <= len,
            acc as nat == from_be(bytes@.subrange(pos as int, pos + i)),
            (acc as nat) < pow256(i as nat),
        decreases n - i,
    {
        let b = bytes[pos + i];
        proof {
            let prefix = bytes@.subrange(pos as int, pos + i);
            let ext = bytes@.subrange(pos as int, pos + i + 1);
            assert(ext.drop_last() =~= prefix);
            assert(ext.last() == b);
            lemma_pow256_monotonic((i + 1) as nat, 8);
            assert(pow256(8) == 0x1_0000_0000_0000_0000) by {
                reveal_with_fuel(pow256, 9);
            }
            assert((acc as nat) * 256 + b < 256 * pow256(i as nat)) by (nonlinear_arith)
                requires
                    (acc as nat) < pow256(i as nat),
                    b < 256,
            ;
        }
        acc = acc * 256 + (b as u64);
        i += 1;
    }
    acc
}

} // verus!
