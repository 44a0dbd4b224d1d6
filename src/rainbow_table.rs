//! The plaintext generator: prefixes, tuples of graphemes and suffixes
//! composed into a candidate space that is addressed by index.

use crate::grapheme::{build_graphemes, is_grapheme_set};
use crate::space::{
    address_in_range, assemble, decode, encode, grapheme_digits, joined, lemma_decode_in_range,
    lemma_decode_parts, lemma_encode_round_trip, lemma_power_monotone, lemma_power_zero_base,
    lemma_round_trip, power, space_size, Address,
};
use std::ops::Range;
use vstd::arithmetic::div_mod::lemma_div_is_ordered;
use vstd::prelude::*;

verus! {

/// Why a generator could not be built from its configuration.
#[derive(Debug, Clone, Copy, PartialEq, Eq, Structural)]
pub enum GeneratorError {
    /// The grapheme length is zero.
    ZeroGraphemeLength,
    /// The candidate length is not a multiple of the grapheme length.
    MisalignedLength,
    /// The alphabet has no character.
    EmptyAlphabet,
    /// The number of candidates does not fit in a `usize`.
    SpaceOverflow,
}

/// The views of a list of strings.
pub open spec fn str_views(s: Seq<&str>) -> Seq<Seq<char>> {
    s.map_values(|x: &str| x@)
}

/// Turns the bounds on a candidate's length into bounds on its number of
/// graphemes.
pub fn validate_permutation_bounds(min: usize, max: usize, grapheme_max: usize) -> (r: (
    usize,
    usize,
))
    requires
        grapheme_max > 0,
        max >= min,
        min % grapheme_max == 0,
        max % grapheme_max == 0,
    ensures
        r.0 == min / grapheme_max,
        r.1 == max / grapheme_max,
        r.0 <= r.1,
{
    proof {
        lemma_div_is_ordered(min as int, max as int, grapheme_max as int);
    }
    let min = min / grapheme_max;
    let max = max / grapheme_max;
    (min, max)
}

/// Copies a list of string slices into owned strings.
pub fn take_str_slice(s: &[&str]) -> (r: Vec<String>)
    ensures
        r.deep_view() == str_views(s@),
{
    let mut r: Vec<String> = Vec::new();
    let mut i: usize = 0;
    while i < s.len()
        invariant
            0 <= i <= s@.len(),
            r@.len() == i,
            forall|j: int| 0 <= j < i ==> #[trigger] r@[j]@ == s@[j]@,
        decreases s.len() - i,
    {
        r.push(s[i].to_owned());
        i += 1;
    }
    assert(r.deep_view() =~= str_views(s@));
    r
}

/// The characters of `s`, in order.
fn chars_of(s: &str) -> (r: Vec<char>)
    ensures
        r@ == s@,
{
    let n = s.unicode_len();
    let mut r: Vec<char> = Vec::new();
    let mut i: usize = 0;
    while i < n
        invariant
            n == s@.len(),
            0 <= i <= n,
            r@ == s@.take(i as int),
        decreases n - i,
    {
        r.push(s.get_char(i));
        i += 1;
        assert(r@ =~= s@.take(i as int));
    }
    assert(s@.take(n as int) =~= s@);
    r
}

/// The size of the candidate space, or `None` where it exceeds `usize::MAX`.
fn checked_space_size(p: usize, s: usize, g: usize, k: usize) -> (r: Option<usize>)
    ensures
        match r {
            Some(v) => v == space_size(p as nat, s as nat, g as nat, k as nat),
            None => space_size(p as nat, s as nat, g as nat, k as nat) > usize::MAX,
        },
{
    let ghost size = space_size(p as nat, s as nat, g as nat, k as nat);
    if p == 0 || s == 0 {
        assert(size == 0) by (nonlinear_arith)
            requires
                p == 0 || s == 0,
                size == p * s * power(g as nat, k as nat),
        ;
        return Some(0);
    }
    if g == 0 && k > 0 {
        proof {
            lemma_power_zero_base(k as nat);
        }
        assert(size == 0) by (nonlinear_arith)
            requires
                size == p * s * power(g as nat, k as nat),
                power(g as nat, k as nat) == 0,
        ;
        return Some(0);
    }
    let ghost gk = power(g as nat, k as nat);
    assert(gk >= 1) by {
        if k == 0 {
        } else {
            lemma_power_monotone(g as nat, 0, k as nat);
        }
    }
    let ps = match p.checked_mul(s) {
        Some(v) => v,
        None => {
            assert(size > usize::MAX) by (nonlinear_arith)
                requires
                    size == p * s * gk,
                    p * s > usize::MAX,
                    gk >= 1,
            ;
            return None;
        },
    };
    assert(ps >= 1) by (nonlinear_arith)
        requires
            p >= 1,
            s >= 1,
            ps == p * s,
    ;
    let mut pw: usize = 1;
    let mut j: usize = 0;
    while j < k
        invariant
            0 <= j <= k,
            k > 0 ==> g > 0,
            gk == power(g as nat, k as nat),
            pw == power(g as nat, j as nat),
            ps == p * s,
            ps >= 1,
            size == ps * gk,
        decreases k - j,
    {
        proof {
            lemma_power_monotone(g as nat, (j + 1) as nat, k as nat);
        }
        assert(pw * g == power(g as nat, (j + 1) as nat)) by (nonlinear_arith)
            requires
                pw == power(g as nat, j as nat),
                power(g as nat, (j + 1) as nat) == g * power(g as nat, j as nat),
        ;
        pw = match pw.checked_mul(g) {
            Some(v) => v,
            None => {
                assert(size > usize::MAX) by (nonlinear_arith)
                    requires
                        size == ps * gk,
                        ps >= 1,
                        gk >= pw * g,
                        pw * g > usize::MAX,
                ;
                return None;
            },
        };
        j += 1;
    }
    ps.checked_mul(pw)
}

/// Enumerates and addresses the candidates `prefix ++ g_1 ++ ... ++ g_k ++
/// suffix`, for every prefix, suffix and tuple of `k` graphemes (repetition
/// allowed, order significant).
pub struct PlaintextGenerator {
    prefix_list: Vec<String>,
    suffix_list: Vec<String>,
    graphemes: Vec<String>,
    graphemes_per_str: usize,
    item_max_len: usize,
}

impl PlaintextGenerator {
    /// The prefixes, in order.
    pub closed spec fn prefixes(&self) -> Seq<Seq<char>> {
        self.prefix_list.deep_view()
    }

    /// The suffixes, in order.
    pub closed spec fn suffixes(&self) -> Seq<Seq<char>> {
        self.suffix_list.deep_view()
    }

    /// The graphemes, in order.
    pub closed spec fn graphemes(&self) -> Seq<Seq<char>> {
        self.graphemes.deep_view()
    }

    /// The number `k` of graphemes in every candidate.
    pub closed spec fn graphemes_per_str(&self) -> nat {
        self.graphemes_per_str as nat
    }

    /// The longest candidate length the generator was configured with.
    pub closed spec fn item_max_len(&self) -> nat {
        self.item_max_len as nat
    }

    /// The number of candidates: `|prefixes| * |suffixes| * |graphemes|^k`.
    pub open spec fn size(&self) -> nat {
        space_size(
            self.prefixes().len(),
            self.suffixes().len(),
            self.graphemes().len(),
            self.graphemes_per_str(),
        )
    }

    /// The size of the space can be counted in a `usize`.
    pub open spec fn wf(&self) -> bool {
        self.size() <= usize::MAX
    }

    /// The address of the candidate with index `i`.
    pub open spec fn address_of(&self, i: nat) -> Address {
        decode(
            i,
            self.prefixes().len(),
            self.suffixes().len(),
            self.graphemes().len(),
            self.graphemes_per_str(),
        )
    }

    /// The index of the candidate at address `a`; the inverse of `address_of`.
    pub open spec fn index_of(&self, a: Address) -> nat {
        encode(a, self.prefixes().len(), self.suffixes().len(), self.graphemes().len())
    }

    /// `a` picks a prefix, a suffix and `k` graphemes within their lists.
    pub open spec fn valid_address(&self, a: Address) -> bool {
        address_in_range(
            a,
            self.prefixes().len(),
            self.suffixes().len(),
            self.graphemes().len(),
            self.graphemes_per_str(),
        )
    }

    /// The candidate with index `i`.
    pub open spec fn candidate_at(&self, i: nat) -> Seq<char> {
        assemble(self.prefixes(), self.suffixes(), self.graphemes(), self.address_of(i))
    }

    /// Builds a generator whose candidates are at most `item_max_len`
    /// characters of graphemes long, between a prefix and a suffix.
    ///
    /// The graphemes are those of `charset` up to `grapheme_max_len`
    /// characters that `grapheme_filter` accepts, and every candidate holds
    /// `item_max_len / grapheme_max_len` of them. The configuration is refused
    /// when the grapheme length is zero, when it does not divide the candidate
    /// length, when the alphabet is empty, or when the number of candidates
    /// cannot be counted in a `usize`.
    pub fn new<F>(
        prefix_list: &[&str],
        suffix_list: &[&str],
        charset: &str,
        grapheme_max_len: usize,
        grapheme_filter: F,
        item_max_len: usize,
    ) -> (r: Result<Self, GeneratorError>) where F: Fn(&str) -> bool
        requires
            forall|s: &str| grapheme_filter.requires((s,)),
        ensures
            r matches Err(GeneratorError::ZeroGraphemeLength) <==> grapheme_max_len == 0,
            r matches Err(GeneratorError::MisalignedLength) <==> grapheme_max_len > 0
                && item_max_len % grapheme_max_len != 0,
            r matches Err(GeneratorError::EmptyAlphabet) <==> grapheme_max_len > 0 && item_max_len
                % grapheme_max_len == 0 && charset@.len() == 0,
            r matches Err(GeneratorError::SpaceOverflow) ==> grapheme_max_len > 0 && item_max_len
                % grapheme_max_len == 0 && charset@.len() > 0 && exists|gs: Seq<Seq<char>>|
                is_grapheme_set(charset@, grapheme_max_len as nat, grapheme_filter, gs)
                    && #[trigger] space_size(
                    prefix_list@.len(),
                    suffix_list@.len(),
                    gs.len(),
                    (item_max_len / grapheme_max_len) as nat,
                ) > usize::MAX,
            r matches Ok(g) ==> {
                &&& grapheme_max_len > 0
                &&& item_max_len % grapheme_max_len == 0
                &&& charset@.len() > 0
                &&& g.wf()
                &&& g.prefixes() == str_views(prefix_list@)
                &&& g.suffixes() == str_views(suffix_list@)
                &&& is_grapheme_set(charset@, grapheme_max_len as nat, grapheme_filter, g.graphemes())
                &&& g.graphemes_per_str() == item_max_len / grapheme_max_len
                &&& g.item_max_len() == item_max_len
            },
    {
        if grapheme_max_len == 0 {
            return Err(GeneratorError::ZeroGraphemeLength);
        }
        if item_max_len % grapheme_max_len != 0 {
            return Err(GeneratorError::MisalignedLength);
        }
        let chars = chars_of(charset);
        if chars.len() == 0 {
            return Err(GeneratorError::EmptyAlphabet);
        }
        let (permuted_min_len, permuted_max_len) = validate_permutation_bounds(
            0,
            item_max_len,
            grapheme_max_len,
        );
        let graphemes_per_str = permuted_max_len - permuted_min_len;
        let ghost np = prefix_list@.len();
        let ghost ns = suffix_list@.len();
        let prefix_list = take_str_slice(prefix_list);
        let suffix_list = take_str_slice(suffix_list);
        let graphemes = build_graphemes(chars.as_slice(), grapheme_max_len, grapheme_filter);
        assert(prefix_list.deep_view().len() == np && suffix_list.deep_view().len() == ns);
        assert(graphemes_per_str == item_max_len / grapheme_max_len);
        match checked_space_size(
            prefix_list.len(),
            suffix_list.len(),
            graphemes.len(),
            graphemes_per_str,
        ) {
            None => {
                let ghost gs = graphemes.deep_view();
                assert(is_grapheme_set(charset@, grapheme_max_len as nat, grapheme_filter, gs));
                assert(space_size(np, ns, gs.len(), (item_max_len / grapheme_max_len) as nat)
                    > usize::MAX);
                Err(GeneratorError::SpaceOverflow)
            },
            Some(_) => Ok(
                PlaintextGenerator {
                    prefix_list,
                    suffix_list,
                    graphemes,
                    graphemes_per_str,
                    item_max_len,
                },
            ),
        }
    }

    /// The number of candidates.
    pub fn len(&self) -> (r: usize)
        requires
            self.wf(),
        ensures
            r == self.size(),
    {
        checked_space_size(
            self.prefix_list.len(),
            self.suffix_list.len(),
            self.graphemes.len(),
            self.graphemes_per_str,
        ).unwrap()
    }

    /// The indices of all candidates, `0..len()`.
    pub fn range(&self, _output_len: u32) -> (r: Range<u64>)
        requires
            self.wf(),
        ensures
            r.start == 0,
            r.end == self.size(),
    {
        0..(self.len() as u64)
    }

    /// The candidate with index `i`: the index is read as a mixed-radix number
    /// whose digits, least significant first, pick the prefix, the suffix and
    /// each grapheme in turn.
    pub fn get(&self, i: u64) -> (r: String)
        requires
            self.wf(),
            i < self.size(),
        ensures
            r@ == self.candidate_at(i as nat),
    {
        let ghost gs = self.graphemes();
        let ghost k = self.graphemes_per_str as nat;
        let p = self.prefix_list.len();
        let s = self.suffix_list.len();
        let g = self.graphemes.len();
        proof {
            lemma_decode_parts(i as nat, p as nat, s as nat, g as nat, k);
        }
        let pi = (i % (p as u64)) as usize;
        let rest = i / (p as u64);
        let si = (rest % (s as u64)) as usize;
        let mut x = rest / (s as u64);
        let ghost x0 = x as nat;
        let ghost a = self.address_of(i as nat);
        assert(a.prefix == pi && a.suffix == si && a.graphemes == grapheme_digits(x0, g as nat, k));
        let mut out = self.prefix_list[pi].clone();
        assert(out@ == self.prefixes()[pi as int]);
        let mut j: usize = 0;
        while j < self.graphemes_per_str
            invariant
                self.wf(),
                gs == self.graphemes(),
                k == self.graphemes_per_str,
                g == self.graphemes@.len(),
                0 <= j <= k,
                j < k ==> g > 0,
                out@ + joined(gs, grapheme_digits(x as nat, g as nat, (k - j) as nat))
                    == self.prefixes()[pi as int] + joined(gs, grapheme_digits(x0, g as nat, k)),
            decreases k - j,
        {
            let d = (x % (g as u64)) as usize;
            let ghost m = (k - j) as nat;
            let ghost digits = grapheme_digits(x as nat, g as nat, m);
            let ghost tail = grapheme_digits((x / (g as u64)) as nat, g as nat, (m - 1) as nat);
            assert(digits.drop_first() =~= tail);
            assert(digits[0] == d);
            assert(self.graphemes@[d as int]@ == gs[d as int]);
            out.append(self.graphemes[d].as_str());
            assert(joined(gs, digits) == gs[d as int] + joined(gs, tail));
            x = x / (g as u64);
            j += 1;
            assert(out@ + joined(gs, tail) =~= self.prefixes()[pi as int] + joined(
                gs,
                grapheme_digits(x0, g as nat, k),
            ));
        }
        assert(joined(gs, grapheme_digits(x as nat, g as nat, 0)) =~= Seq::<char>::empty());
        assert(self.suffix_list@[si as int]@ == self.suffixes()[si as int]);
        out.append(self.suffix_list[si].as_str());
        assert(out@ =~= self.candidate_at(i as nat));
        out
    }
}

/// Index to address to index is the identity: for every `i` in
/// `[0, size())`, encoding the address that `i` decodes to gives `i` back.
pub proof fn lemma_index_round_trip(gen: &PlaintextGenerator, i: nat)
    requires
        i < gen.size(),
    ensures
        gen.index_of(gen.address_of(i)) == i,
{
    lemma_round_trip(
        i,
        gen.prefixes().len(),
        gen.suffixes().len(),
        gen.graphemes().len(),
        gen.graphemes_per_str(),
    );
}

/// Enumerating the indices `0..size()` visits every (prefix, suffix, tuple of
/// graphemes) exactly once: each index has a valid address, each valid
/// address has an index below `size()`, and no two indices share an address.
/// So `size()` is exactly the number of candidates produced.
pub proof fn lemma_enumeration_exact(gen: &PlaintextGenerator)
    ensures
        forall|i: nat| i < gen.size() ==> gen.valid_address(#[trigger] gen.address_of(i)),
        forall|a: Address|
            gen.valid_address(a) ==> #[trigger] gen.index_of(a) < gen.size() && gen.address_of(
                gen.index_of(a),
            ) == a,
        forall|i: nat, j: nat|
            i < gen.size() && j < gen.size() && #[trigger] gen.address_of(i) == #[trigger] gen.address_of(
                j,
            ) ==> i == j,
{
    let p = gen.prefixes().len();
    let s = gen.suffixes().len();
    let g = gen.graphemes().len();
    let k = gen.graphemes_per_str();
    assert forall|i: nat| i < gen.size() implies gen.valid_address(#[trigger] gen.address_of(i)) by {
        lemma_decode_in_range(i, p, s, g, k);
    }
    assert forall|a: Address| gen.valid_address(a) implies #[trigger] gen.index_of(a) < gen.size()
        && gen.address_of(gen.index_of(a)) == a by {
        lemma_encode_round_trip(a, p, s, g, k);
    }
    assert forall|i: nat, j: nat|
        i < gen.size() && j < gen.size() && #[trigger] gen.address_of(i) == #[trigger] gen.address_of(
            j,
        ) implies i == j by {
        lemma_round_trip(i, p, s, g, k);
        lemma_round_trip(j, p, s, g, k);
    }
}

} // verus!
