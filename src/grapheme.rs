//! Building the reduced alphabet of short substrings ("graphemes") that
//! candidates are assembled from.

use itertools::Itertools;
use vstd::arithmetic::div_mod::{lemma_fundamental_div_mod, lemma_fundamental_div_mod_converse};
use vstd::prelude::*;

verus! {

/// Every character of `w` is drawn from `alphabet`.
pub open spec fn drawn_from(alphabet: Seq<char>, w: Seq<char>) -> bool {
    forall|i: int| 0 <= i < w.len() ==> alphabet.contains(#[trigger] w[i])
}

/// `w` arranges at most `max_len` symbols of `alphabet`, order significant and
/// repetition allowed.
pub open spec fn is_arrangement(alphabet: Seq<char>, max_len: nat, w: Seq<char>) -> bool {
    w.len() <= max_len && drawn_from(alphabet, w)
}

/// A call of `filter` on a string reading `w` returned `true`.
pub open spec fn accepted_by<F: Fn(&str) -> bool>(filter: F, w: Seq<char>) -> bool {
    exists|s: &str| s@ == w && #[trigger] filter.ensures((s,), true)
}

/// A call of `filter` on a string reading `w` returned `false`.
pub open spec fn rejected_by<F: Fn(&str) -> bool>(filter: F, w: Seq<char>) -> bool {
    exists|s: &str| s@ == w && #[trigger] filter.ensures((s,), false)
}

/// An ASCII digit.
pub open spec fn is_digit(c: char) -> bool {
    '0' <= c <= '9'
}

/// An ASCII lowercase letter.
pub open spec fn is_lower(c: char) -> bool {
    'a' <= c <= 'z'
}

/// `w` holds two separators `_` in a row.
pub open spec fn has_separator_run(w: Seq<char>) -> bool {
    exists|i: int| 0 <= i && i + 1 < w.len() && #[trigger] w[i] == '_' && w[i + 1] == '_'
}

/// `w` holds a digit, a lowercase letter and a digit in a row.
pub open spec fn has_digit_letter_digit(w: Seq<char>) -> bool {
    exists|i: int|
        0 <= i && i + 2 < w.len() && is_digit(#[trigger] w[i]) && is_lower(w[i + 1]) && is_digit(
            w[i + 2],
        )
}

/// The grapheme filter of the filename grammar: rejects a run of two or more
/// `_`, and a digit, lowercase letter, digit sequence.
pub fn is_valid_grapheme(s: &str) -> (r: bool)
    ensures
        r == !(has_separator_run(s@) || has_digit_letter_digit(s@)),
{
    let n = s.unicode_len();
    let mut i: usize = 0;
    while i < n
        invariant
            n == s@.len(),
            0 <= i <= n,
            forall|j: int| 0 <= j < i && j + 1 < n ==> !(#[trigger] s@[j] == '_' && s@[j + 1] == '_'),
            forall|j: int|
                0 <= j < i && j + 2 < n ==> !(is_digit(#[trigger] s@[j]) && is_lower(s@[j + 1])
                    && is_digit(s@[j + 2])),
        decreases n - i,
    {
        let c = s.get_char(i);
        if i + 1 < n {
            let d = s.get_char(i + 1);
            if c == '_' && d == '_' {
                assert(has_separator_run(s@)) by {
                    assert(s@[i as int] == '_');
                }
                return false;
            }
            if i + 2 < n {
                let e = s.get_char(i + 2);
                if '0' <= c && c <= '9' && 'a' <= d && d <= 'z' && '0' <= e && e <= '9' {
                    assert(has_digit_letter_digit(s@)) by {
                        assert(is_digit(s@[i as int]));
                    }
                    return false;
                }
            }
        }
        i += 1;
    }
    true
}

/// `gs` is a grapheme set of `alphabet` under `filter`: the empty string
/// first; then only arrangements of at most `max_len` of its symbols that
/// `filter` accepted; no string twice; and every other non-empty arrangement
/// left out because `filter` rejected it.
pub open spec fn is_grapheme_set<F: Fn(&str) -> bool>(
    alphabet: Seq<char>,
    max_len: nat,
    filter: F,
    gs: Seq<Seq<char>>,
) -> bool {
    &&& gs.len() > 0
    &&& gs[0] == Seq::<char>::empty()
    &&& gs.no_duplicates()
    &&& forall|i: int|
        0 <= i < gs.len() ==> is_arrangement(alphabet, max_len, #[trigger] gs[i]) && (gs[i].len()
            > 0 ==> accepted_by(filter, gs[i]))
    &&& forall|w: Seq<char>|
        is_arrangement(alphabet, max_len, w) && w.len() > 0 && !gs.contains(w)
            ==> #[trigger] rejected_by(filter, w)
}

/// `w` spells the items of `items` found at the pairwise distinct positions `idx`.
pub open spec fn spells(items: Seq<char>, idx: Seq<int>, w: Seq<char>) -> bool {
    &&& idx.len() == w.len()
    &&& idx.no_duplicates()
    &&& forall|j: int|
        0 <= j < idx.len() ==> 0 <= #[trigger] idx[j] < items.len() && w[j] == items[idx[j]]
}

/// Relies on `Itertools::permutations` (itertools): it yields, as a vector of
/// the items there, every selection of `k` distinct positions of its input
/// taken in order, and nothing else.
#[verifier::external_body]
fn permutations_of(items: &Vec<char>, k: usize) -> (r: Vec<Vec<char>>)
    ensures
        forall|i: int|
            #![trigger r.deep_view()[i]]
            0 <= i < r.len() ==> r.deep_view()[i].len() == k && exists|idx: Seq<int>|
                #[trigger] spells(items@, idx, r.deep_view()[i]),
        forall|idx: Seq<int>, w: Seq<char>|
            idx.len() == k && #[trigger] spells(items@, idx, w) ==> r.deep_view().contains(w),
{
    items.iter().cloned().permutations(k).collect()
}

/// Relies on `Itertools::unique` (itertools): it keeps the first of every run of
/// equal items and drops the later ones.
#[verifier::external_body]
fn unique_of(items: Vec<Vec<char>>) -> (r: Vec<Vec<char>>)
    ensures
        r.deep_view().no_duplicates(),
        forall|w: Seq<char>| r.deep_view().contains(w) <==> items.deep_view().contains(w),
{
    items.into_iter().unique().collect()
}

/// Relies on `String::from_iter` (std): the string holds the characters in order.
#[verifier::external_body]
fn string_from_chars(chars: &Vec<char>) -> (r: String)
    ensures
        r@ == chars@,
{
    String::from_iter(chars.iter())
}

/// `pool` holds each character of `alphabet` `n` times in a row: position `i`
/// holds `alphabet[i / n]`.
pub open spec fn is_repeated_pool(alphabet: Seq<char>, n: nat, pool: Seq<char>) -> bool {
    &&& pool.len() == alphabet.len() * n
    &&& forall|i: int| 0 <= i < pool.len() ==> #[trigger] pool[i] == alphabet[i / n as int]
}

/// Lists each character of `alphabet` `n` times in a row, so that distinct
/// positions of the result can spell any word of `n` characters.
fn repeat_each(alphabet: &[char], n: usize) -> (pool: Vec<char>)
    requires
        n > 0,
    ensures
        is_repeated_pool(alphabet@, n as nat, pool@),
{
    let mut pool: Vec<char> = Vec::new();
    let mut c: usize = 0;
    while c < alphabet.len()
        invariant
            0 <= c <= alphabet@.len(),
            n > 0,
            pool@.len() == c * n,
            forall|i: int| 0 <= i < pool@.len() ==> #[trigger] pool@[i] == alphabet@[i / n as int],
        decreases alphabet.len() - c,
    {
        let mut t: usize = 0;
        while t < n
            invariant
                0 <= c < alphabet@.len(),
                0 <= t <= n,
                pool@.len() == c * n + t,
                forall|i: int|
                    0 <= i < pool@.len() ==> #[trigger] pool@[i] == alphabet@[i / n as int],
            decreases n - t,
        {
            proof {
                lemma_fundamental_div_mod_converse(
                    (c * n + t) as int,
                    n as int,
                    c as int,
                    t as int,
                );
            }
            pool.push(alphabet[c]);
            t += 1;
        }
        assert(c * n + n == (c + 1) * n) by (nonlinear_arith);
        c += 1;
    }
    pool
}

/// Whatever distinct positions of a repeated pool spell is drawn from its alphabet.
proof fn lemma_pool_sound(alphabet: Seq<char>, n: nat, pool: Seq<char>, idx: Seq<int>, w: Seq<char>)
    requires
        n > 0,
        is_repeated_pool(alphabet, n, pool),
        spells(pool, idx, w),
    ensures
        drawn_from(alphabet, w),
{
    assert forall|j: int| 0 <= j < w.len() implies alphabet.contains(#[trigger] w[j]) by {
        let x = idx[j];
        let d = n as int;
        lemma_fundamental_div_mod(x, d);
        let q = x / d;
        let r = x % d;
        assert(0 <= q < alphabet.len()) by (nonlinear_arith)
            requires
                0 <= x < alphabet.len() * d,
                x == d * q + r,
                0 <= r < d,
        ;
        assert(w[j] == alphabet[q]);
    }
}

/// Every word of `n` characters drawn from the alphabet is spelled by some
/// distinct positions of a repeated pool.
proof fn lemma_pool_complete(alphabet: Seq<char>, n: nat, pool: Seq<char>, w: Seq<char>)
    requires
        n > 0,
        is_repeated_pool(alphabet, n, pool),
        w.len() == n,
        drawn_from(alphabet, w),
    ensures
        exists|idx: Seq<int>| idx.len() == n && spells(pool, idx, w),
{
    let idx = Seq::new(n, |j: int| alphabet.index_of(w[j]) * n + j);
    assert forall|j: int| 0 <= j < idx.len() implies 0 <= #[trigger] idx[j] < pool.len() && w[j]
        == pool[idx[j]] by {
        assert(alphabet.contains(w[j]));
        let c = alphabet.index_of(w[j]);
        assert(0 <= c < alphabet.len() && alphabet[c] == w[j]);
        assert(0 <= c * n + j < alphabet.len() * n) by (nonlinear_arith)
            requires
                0 <= c < alphabet.len(),
                0 <= j < n,
        ;
        lemma_fundamental_div_mod_converse(c * n + j, n as int, c, j);
    }
    assert forall|a: int, b: int| 0 <= a < idx.len() && 0 <= b < idx.len() && a != b implies idx[a]
        != idx[b] by {
        let ca = alphabet.index_of(w[a]);
        let cb = alphabet.index_of(w[b]);
        assert(alphabet.contains(w[a]) && alphabet.contains(w[b]));
        assert(ca >= 0 && cb >= 0);
        lemma_fundamental_div_mod_converse(ca * n + a, n as int, ca, a);
        lemma_fundamental_div_mod_converse(cb * n + b, n as int, cb, b);
    }
    assert(spells(pool, idx, w));
}

/// Builds the graphemes of `charset`: the empty string first, then, for each
/// length from 1 to `grapheme_size`, every distinct arrangement of that many
/// characters of `charset` (order significant, repetition allowed) that
/// `filter` accepts.
///
/// The empty string is always kept: it lets a candidate use fewer characters
/// than its tuple of graphemes allows. No string appears twice.
pub fn build_graphemes<F>(charset: &[char], grapheme_size: usize, filter: F) -> (graphemes: Vec<
    String,
>) where F: Fn(&str) -> bool
    requires
        grapheme_size >= 1,
        forall|s: &str| filter.requires((s,)),
    ensures
        is_grapheme_set(charset@, grapheme_size as nat, filter, graphemes.deep_view()),
{
    let mut graphemes: Vec<String> = Vec::new();
    graphemes.push(String::new());
    assert(graphemes.deep_view() =~= seq![Seq::<char>::empty()]);
    let mut n: usize = 0;
    while n < grapheme_size
        invariant
            n <= grapheme_size,
            forall|s: &str| filter.requires((s,)),
            graphemes@.len() > 0,
            graphemes[0]@ == Seq::<char>::empty(),
            graphemes.deep_view().no_duplicates(),
            forall|i: int|
                #![trigger graphemes[i]]
                0 <= i < graphemes@.len() ==> is_arrangement(charset@, n as nat, graphemes[i]@)
                    && (graphemes[i]@.len() > 0 ==> accepted_by(filter, graphemes[i]@)),
            forall|w: Seq<char>|
                is_arrangement(charset@, n as nat, w) && w.len() > 0
                    && !graphemes.deep_view().contains(w) ==> #[trigger] rejected_by(filter, w),
        decreases grapheme_size - n,
    {
        n += 1;
        let pool = repeat_each(charset, n);
        let perms = permutations_of(&pool, n);
        let ghost perms_view = perms.deep_view();
        let words = unique_of(perms);
        assert forall|i: int| 0 <= i < words@.len() implies #[trigger] words.deep_view()[i].len()
            == n && drawn_from(charset@, words.deep_view()[i]) by {
            let w = words.deep_view()[i];
            assert(words.deep_view().contains(w));
            let k = choose|k: int| 0 <= k < perms_view.len() && perms_view[k] == w;
            let idx = choose|idx: Seq<int>| spells(pool@, idx, perms_view[k]);
            lemma_pool_sound(charset@, n as nat, pool@, idx, w);
        }
        let mut j: usize = 0;
        while j < words.len()
            invariant
                0 < n <= grapheme_size,
                0 <= j <= words@.len(),
                forall|s: &str| filter.requires((s,)),
                words.deep_view().no_duplicates(),
                forall|i: int|
                    0 <= i < words@.len() ==> #[trigger] words.deep_view()[i].len() == n
                        && drawn_from(charset@, words.deep_view()[i]),
                graphemes@.len() > 0,
                graphemes[0]@ == Seq::<char>::empty(),
                graphemes.deep_view().no_duplicates(),
                forall|i: int|
                    #![trigger graphemes[i]]
                    0 <= i < graphemes@.len() ==> is_arrangement(charset@, n as nat, graphemes[i]@)
                        && (graphemes[i]@.len() > 0 ==> accepted_by(filter, graphemes[i]@)),
                forall|i: int|
                    #![trigger graphemes[i]]
                    0 <= i < graphemes@.len() && graphemes[i]@.len() == n ==> words.deep_view().take(
                        j as int,
                    ).contains(graphemes[i]@),
                forall|w: Seq<char>|
                    is_arrangement(charset@, (n - 1) as nat, w) && w.len() > 0
                        && !graphemes.deep_view().contains(w) ==> #[trigger] rejected_by(filter, w),
                forall|w: Seq<char>|
                    words.deep_view().take(j as int).contains(w) && !graphemes.deep_view().contains(w)
                        ==> #[trigger] rejected_by(filter, w),
            decreases words.len() - j,
        {
            let s = string_from_chars(&words[j]);
            let st: &str = s.as_str();
            let keep = filter(st);
            let ghost w = words.deep_view()[j as int];
            let ghost old_view = graphemes.deep_view();
            let ghost before = words.deep_view().take(j as int);
            let ghost after = words.deep_view().take(j + 1);
            assert(words.deep_view().take(j + 1) =~= words.deep_view().take(j as int).push(w));
            assert(!words.deep_view().take(j as int).contains(w)) by {
                if words.deep_view().take(j as int).contains(w) {
                    let k = choose|k: int| 0 <= k < j && before[k] == w;
                    assert(words.deep_view()[k] == words.deep_view()[j as int]);
                }
            }
            assert(s@ == w);
            if keep {
                let ghost old_vec = graphemes@;
                graphemes.push(s);
                assert(graphemes@ == old_vec.push(s));
                assert forall|k: int| 0 <= k < graphemes@.len() implies #[trigger] graphemes.deep_view()[k]
                    == old_view.push(w)[k] by {
                    if k < old_vec.len() {
                        assert(graphemes@[k] == old_vec[k]);
                    }
                }
                assert(graphemes.deep_view() =~= old_view.push(w));
                assert(accepted_by(filter, w)) by {
                    assert(st@ == w && filter.ensures((st,), true));
                }
                assert forall|a: int, b: int|
                    0 <= a < graphemes@.len() && 0 <= b < graphemes@.len() && a != b implies graphemes.deep_view()[a]
                    != graphemes.deep_view()[b] by {
                    if b == graphemes@.len() - 1 && old_view[a].len() == n {
                        assert(words.deep_view().take(j as int).contains(old_view[a]));
                    }
                    if a == graphemes@.len() - 1 && old_view[b].len() == n {
                        assert(words.deep_view().take(j as int).contains(old_view[b]));
                    }
                }
                assert forall|i: int|
                    0 <= i < graphemes@.len() && #[trigger] graphemes[i]@.len() == n implies words.deep_view().take(
                    j + 1,
                ).contains(graphemes[i]@) by {
                    if i < graphemes@.len() - 1 {
                        assert(old_view[i] == graphemes.deep_view()[i]);
                        assert(old_view[i] == graphemes[i]@);
                        assert(words.deep_view().take(j as int).contains(graphemes[i]@));
                    } else {
                        assert(words.deep_view().take(j + 1)[j as int] == w);
                    }
                }
                assert forall|v: Seq<char>|
                    is_arrangement(charset@, (n - 1) as nat, v) && v.len() > 0
                        && !graphemes.deep_view().contains(v) implies #[trigger] rejected_by(filter, v) by {
                    if !old_view.contains(v) {
                    } else {
                        let k = choose|k: int| 0 <= k < old_view.len() && old_view[k] == v;
                        assert(graphemes.deep_view()[k] == v);
                    }
                }
                assert forall|v: Seq<char>|
                    words.deep_view().take(j + 1).contains(v) && !graphemes.deep_view().contains(v)
                        implies #[trigger] rejected_by(filter, v) by {
                    if v == w {
                        assert(graphemes.deep_view()[graphemes@.len() - 1] == w);
                    } else {
                        let k = choose|k: int| 0 <= k < j + 1 && after[k] == v;
                        assert(words.deep_view().take(j as int)[k] == v);
                        if old_view.contains(v) {
                            let m = choose|m: int| 0 <= m < old_view.len() && old_view[m] == v;
                            assert(graphemes.deep_view()[m] == v);
                        }
                    }
                }
            } else {
                assert(rejected_by(filter, w)) by {
                    assert(st@ == w && filter.ensures((st,), false));
                }
                assert forall|i: int|
                    0 <= i < graphemes@.len() && #[trigger] graphemes[i]@.len() == n implies words.deep_view().take(
                    j + 1,
                ).contains(graphemes[i]@) by {
                    assert(words.deep_view().take(j as int).contains(graphemes[i]@));
                    let k = choose|k: int| 0 <= k < j && before[k] == graphemes[i]@;
                    assert(words.deep_view().take(j + 1)[k] == graphemes[i]@);
                }
                assert forall|v: Seq<char>|
                    words.deep_view().take(j + 1).contains(v) && !graphemes.deep_view().contains(v)
                        implies #[trigger] rejected_by(filter, v) by {
                    if v != w {
                        let k = choose|k: int| 0 <= k < j + 1 && after[k] == v;
                        assert(words.deep_view().take(j as int)[k] == v);
                    }
                }
            }
            j += 1;
        }
        assert forall|v: Seq<char>|
            is_arrangement(charset@, n as nat, v) && v.len() > 0
                && !graphemes.deep_view().contains(v) implies #[trigger] rejected_by(filter, v) by {
            if v.len() == n {
                lemma_pool_complete(charset@, n as nat, pool@, v);
                assert(words.deep_view().take(j as int) =~= words.deep_view());
            }
        }
    }
    assert forall|i: int| 0 <= i < graphemes@.len() implies #[trigger] graphemes.deep_view()[i]
        == graphemes[i]@ by {}
    graphemes
}

} // verus!
