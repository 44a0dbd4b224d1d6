//! The mixed-radix addressing of the candidate space: an index in
//! `[0, |prefixes| * |suffixes| * |graphemes|^k)` stands for a prefix, a suffix
//! and a tuple of `k` graphemes.
//!
//! Digit weights are `[|prefixes|, |suffixes|, |graphemes|, ..., |graphemes|]`,
//! least significant first.

use vstd::arithmetic::div_mod::{lemma_fundamental_div_mod, lemma_fundamental_div_mod_converse};
use vstd::prelude::*;

verus! {

/// `b` raised to the power `e`.
pub open spec fn power(b: nat, e: nat) -> nat
    decreases e,
{
    if e == 0 {
        1
    } else {
        b * power(b, (e - 1) as nat)
    }
}

/// Number of candidates built from `p` prefixes, `s` suffixes and tuples of
/// `k` graphemes out of `g`.
pub open spec fn space_size(p: nat, s: nat, g: nat, k: nat) -> nat {
    p * s * power(g, k)
}

/// The `k` base-`g` digits of `x`, least significant first.
pub open spec fn grapheme_digits(x: nat, g: nat, k: nat) -> Seq<nat>
    decreases k,
{
    if k == 0 {
        seq![]
    } else {
        seq![x % g] + grapheme_digits(x / g, g, (k - 1) as nat)
    }
}

/// The number whose base-`g` digits, least significant first, are `d`.
pub open spec fn digits_value(d: Seq<nat>, g: nat) -> nat
    decreases d.len(),
{
    if d.len() == 0 {
        0
    } else {
        d[0] + g * digits_value(d.drop_first(), g)
    }
}

/// The address of a candidate: the position of its prefix, of its suffix and
/// of each of its graphemes in their lists.
pub struct Address {
    pub prefix: nat,
    pub suffix: nat,
    pub graphemes: Seq<nat>,
}

/// Every position of `a` lies within its list.
pub open spec fn address_in_range(a: Address, p: nat, s: nat, g: nat, k: nat) -> bool {
    &&& a.prefix < p
    &&& a.suffix < s
    &&& a.graphemes.len() == k
    &&& forall|j: int| 0 <= j < k ==> #[trigger] a.graphemes[j] < g
}

/// The address of index `i`: `(i mod p, i / p)`, then the same with `s`, then
/// `k` times with `g`.
pub open spec fn decode(i: nat, p: nat, s: nat, g: nat, k: nat) -> Address {
    Address { prefix: i % p, suffix: (i / p) % s, graphemes: grapheme_digits(i / p / s, g, k) }
}

/// The index of address `a`, under the same digit weights as `decode`.
pub open spec fn encode(a: Address, p: nat, s: nat, g: nat) -> nat {
    a.prefix + p * (a.suffix + s * digits_value(a.graphemes, g))
}

/// The graphemes at positions `d`, concatenated in order.
pub open spec fn joined(graphemes: Seq<Seq<char>>, d: Seq<nat>) -> Seq<char>
    decreases d.len(),
{
    if d.len() == 0 {
        seq![]
    } else {
        graphemes[d[0] as int] + joined(graphemes, d.drop_first())
    }
}

/// The candidate at address `a`: prefix, then graphemes, then suffix.
pub open spec fn assemble(
    prefixes: Seq<Seq<char>>,
    suffixes: Seq<Seq<char>>,
    graphemes: Seq<Seq<char>>,
    a: Address,
) -> Seq<char> {
    prefixes[a.prefix as int] + joined(graphemes, a.graphemes) + suffixes[a.suffix as int]
}

/// A power of a positive base is positive.
pub proof fn lemma_power_positive(g: nat, e: nat)
    requires
        g >= 1,
    ensures
        power(g, e) >= 1,
    decreases e,
{
    if e > 0 {
        lemma_power_positive(g, (e - 1) as nat);
        let q = power(g, (e - 1) as nat);
        assert(g * q >= 1) by (nonlinear_arith)
            requires
                g >= 1,
                q >= 1,
        ;
    }
}

/// A power of a positive base grows with the exponent.
pub proof fn lemma_power_monotone(g: nat, a: nat, b: nat)
    requires
        g >= 1,
        a <= b,
    ensures
        1 <= power(g, a) <= power(g, b),
    decreases b,
{
    lemma_power_positive(g, a);
    if b > a {
        lemma_power_monotone(g, a, (b - 1) as nat);
        let q = power(g, (b - 1) as nat);
        assert(q <= g * q) by (nonlinear_arith)
            requires
                g >= 1,
                q >= 1,
        ;
    }
}

/// A positive power of zero is zero.
pub proof fn lemma_power_zero_base(k: nat)
    requires
        k > 0,
    ensures
        power(0, k) == 0,
{
}

proof fn lemma_digits_round_trip(x: nat, g: nat, k: nat)
    requires
        x < power(g, k),
    ensures
        digits_value(grapheme_digits(x, g, k), g) == x,
        grapheme_digits(x, g, k).len() == k,
        forall|j: int| 0 <= j < k ==> #[trigger] grapheme_digits(x, g, k)[j] < g,
    decreases k,
{
    if k > 0 {
        let km = (k - 1) as nat;
        let q = power(g, km);
        if g == 0 {
            lemma_power_zero_base(k);
        }
        assert(g > 0);
        let gi = g as int;
        lemma_fundamental_div_mod(x as int, gi);
        let xq = x / g;
        let xr = x % g;
        assert(xq < q) by (nonlinear_arith)
            requires
                x < g * q,
                x == g * xq + xr,
                0 <= xr,
                g > 0,
        ;
        lemma_digits_round_trip(xq, g, km);
        let d = grapheme_digits(x, g, k);
        assert(d.drop_first() =~= grapheme_digits(xq, g, km));
        assert forall|j: int| 0 <= j < k implies #[trigger] d[j] < g by {
            if j > 0 {
                assert(d[j] == grapheme_digits(xq, g, km)[j - 1]);
            }
        }
    }
}

proof fn lemma_digits_inverse(d: Seq<nat>, g: nat)
    requires
        g > 0,
        forall|j: int| 0 <= j < d.len() ==> #[trigger] d[j] < g,
    ensures
        digits_value(d, g) < power(g, d.len()),
        grapheme_digits(digits_value(d, g), g, d.len()) == d,
    decreases d.len(),
{
    if d.len() > 0 {
        let rest = d.drop_first();
        assert forall|j: int| 0 <= j < rest.len() implies #[trigger] rest[j] < g by {
            assert(rest[j] == d[j + 1]);
        }
        lemma_digits_inverse(rest, g);
        let v = digits_value(d, g);
        let vr = digits_value(rest, g);
        let q = power(g, rest.len());
        let d0 = d[0];
        assert(v < g * q) by (nonlinear_arith)
            requires
                v == d0 + g * vr,
                d0 < g,
                vr < q,
                vr >= 0,
        ;
        assert(power(g, d.len()) == g * q);
        lemma_fundamental_div_mod_converse(v as int, g as int, vr as int, d0 as int);
        assert(v % g == d0 && v / g == vr);
        assert(grapheme_digits(v, g, d.len()) =~= d);
    }
}

/// Every index below the size of the space decodes to an address within range.
pub proof fn lemma_decode_in_range(i: nat, p: nat, s: nat, g: nat, k: nat)
    requires
        i < space_size(p, s, g, k),
    ensures
        address_in_range(decode(i, p, s, g, k), p, s, g, k),
{
    lemma_decode_parts(i, p, s, g, k);
}

pub(crate) proof fn lemma_decode_parts(i: nat, p: nat, s: nat, g: nat, k: nat)
    requires
        i < space_size(p, s, g, k),
    ensures
        p > 0,
        s > 0,
        power(g, k) > 0,
        i / p / s < power(g, k),
        i % p < p,
        (i / p) % s < s,
        i == i % p + p * ((i / p) % s + s * (i / p / s)),
        digits_value(grapheme_digits(i / p / s, g, k), g) == i / p / s,
        address_in_range(decode(i, p, s, g, k), p, s, g, k),
{
    let gk = power(g, k);
    assert(p > 0 && s > 0 && gk > 0) by (nonlinear_arith)
        requires
            i < p * s * gk,
            i >= 0,
    ;
    lemma_fundamental_div_mod(i as int, p as int);
    let i1 = i / p;
    let r0 = i % p;
    lemma_fundamental_div_mod(i1 as int, s as int);
    let i2 = i1 / s;
    let r1 = i1 % s;
    assert(i1 < s * gk) by (nonlinear_arith)
        requires
            i < p * s * gk,
            i == p * i1 + r0,
            0 <= r0 < p,
            i1 >= 0,
    ;
    assert(i2 < gk) by (nonlinear_arith)
        requires
            i1 < s * gk,
            i1 == s * i2 + r1,
            0 <= r1 < s,
            i2 >= 0,
    ;
    lemma_digits_round_trip(i2, g, k);
}

/// Decoding an index of the space and encoding the address gives the index
/// back.
pub proof fn lemma_round_trip(i: nat, p: nat, s: nat, g: nat, k: nat)
    requires
        i < space_size(p, s, g, k),
    ensures
        encode(decode(i, p, s, g, k), p, s, g) == i,
{
    lemma_decode_parts(i, p, s, g, k);
}

/// Every address within range encodes to an index of the space, and that index
/// decodes to the address.
pub proof fn lemma_encode_round_trip(a: Address, p: nat, s: nat, g: nat, k: nat)
    requires
        address_in_range(a, p, s, g, k),
    ensures
        encode(a, p, s, g) < space_size(p, s, g, k),
        decode(encode(a, p, s, g), p, s, g, k) == a,
{
    assert(g > 0 || k == 0) by {
        if k > 0 {
            assert(a.graphemes[0] < g);
        }
    }
    let gk = power(g, k);
    let v = if k == 0 {
        0
    } else {
        digits_value(a.graphemes, g)
    };
    if k > 0 {
        lemma_digits_inverse(a.graphemes, g);
    } else {
        assert(a.graphemes =~= Seq::<nat>::empty());
    }
    assert(v == digits_value(a.graphemes, g));
    assert(v < gk);
    let i1 = a.suffix + s * v;
    let i = a.prefix + p * i1;
    assert(i1 < s * gk) by (nonlinear_arith)
        requires
            a.suffix < s,
            v < gk,
            i1 == a.suffix + s * v,
    ;
    assert(i < p * s * gk) by (nonlinear_arith)
        requires
            a.prefix < p,
            i1 < s * gk,
            i == a.prefix + p * i1,
    ;
    assert(i == i1 * p + a.prefix && i1 == v * s + a.suffix) by (nonlinear_arith)
        requires
            i == a.prefix + p * i1,
            i1 == a.suffix + s * v,
    ;
    lemma_fundamental_div_mod_converse(i as int, p as int, i1 as int, a.prefix as int);
    lemma_fundamental_div_mod_converse(i1 as int, s as int, v as int, a.suffix as int);
    if k == 0 {
        assert(grapheme_digits(v, g, k) =~= a.graphemes);
    }
    assert(decode(i, p, s, g, k).graphemes == a.graphemes);
}

} // verus!
