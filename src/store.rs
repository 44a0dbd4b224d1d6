//! The stored mapping from digest to plaintext, as a map, and what storing a
//! sequence of records does to it: a digest already present is left alone, so
//! the first plaintext stored for a digest stays.

use vstd::prelude::*;

verus! {

/// A record: a digest and its plaintext.
pub type Record = (Seq<u8>, Seq<char>);

/// Stores one record, unless its digest is already present.
pub open spec fn store_one(m: Map<Seq<u8>, Seq<char>>, r: Record) -> Map<Seq<u8>, Seq<char>> {
    if m.contains_key(r.0) {
        m
    } else {
        m.insert(r.0, r.1)
    }
}

/// Stores the records in order.
pub open spec fn store_all(m: Map<Seq<u8>, Seq<char>>, rs: Seq<Record>) -> Map<
    Seq<u8>,
    Seq<char>,
>
    decreases rs.len(),
{
    if rs.len() == 0 {
        m
    } else {
        store_all(store_one(m, rs[0]), rs.drop_first())
    }
}

/// The number of records that storing `rs` into `m` adds.
pub open spec fn newly_stored(m: Map<Seq<u8>, Seq<char>>, rs: Seq<Record>) -> nat
    decreases rs.len(),
{
    if rs.len() == 0 {
        0
    } else {
        (if m.contains_key(rs[0].0) {
            0nat
        } else {
            1nat
        }) + newly_stored(store_one(m, rs[0]), rs.drop_first())
    }
}

/// Stores the records in consecutive chunks of `chunk` records.
pub open spec fn store_in_chunks(m: Map<Seq<u8>, Seq<char>>, rs: Seq<Record>, chunk: nat) -> Map<
    Seq<u8>,
    Seq<char>,
>
    decreases rs.len(),
{
    if rs.len() <= chunk || chunk == 0 {
        store_all(m, rs)
    } else {
        store_in_chunks(store_all(m, rs.take(chunk as int)), rs.skip(chunk as int), chunk)
    }
}

/// Storing keeps what was there and holds every digest of the records.
pub proof fn lemma_store_keeps(m: Map<Seq<u8>, Seq<char>>, rs: Seq<Record>)
    ensures
        forall|d: Seq<u8>|
            m.contains_key(d) ==> #[trigger] store_all(m, rs).contains_key(d) && store_all(m, rs)[d]
                == m[d],
        forall|i: int| 0 <= i < rs.len() ==> store_all(m, rs).contains_key(#[trigger] rs[i].0),
    decreases rs.len(),
{
    if rs.len() > 0 {
        let m1 = store_one(m, rs[0]);
        let rest = rs.drop_first();
        lemma_store_keeps(m1, rest);
        let out = store_all(m, rs);
        assert(out == store_all(m1, rest));
        assert(m1.contains_key(rs[0].0));
        assert forall|d: Seq<u8>| m.contains_key(d) implies #[trigger] out.contains_key(d) && out[d]
            == m[d] by {
            assert(m1.contains_key(d) && m1[d] == m[d]);
        }
        assert forall|i: int| 0 <= i < rs.len() implies out.contains_key(#[trigger] rs[i].0) by {
            if i > 0 {
                assert(rs[i] == rest[i - 1]);
            }
        }
    }
}

/// Records whose digests are all present change nothing and add nothing.
pub proof fn lemma_store_known(m: Map<Seq<u8>, Seq<char>>, rs: Seq<Record>)
    requires
        forall|i: int| 0 <= i < rs.len() ==> m.contains_key(#[trigger] rs[i].0),
    ensures
        store_all(m, rs) == m,
        newly_stored(m, rs) == 0,
    decreases rs.len(),
{
    if rs.len() > 0 {
        let rest = rs.drop_first();
        assert forall|i: int| 0 <= i < rest.len() implies m.contains_key(#[trigger] rest[i].0) by {
            assert(rest[i] == rs[i + 1]);
        }
        assert(m.contains_key(rs[0].0));
        lemma_store_known(m, rest);
    }
}

/// Storing the same records twice leaves the mapping as storing them once
/// does, and the second pass adds nothing.
pub proof fn lemma_store_idempotent(m: Map<Seq<u8>, Seq<char>>, rs: Seq<Record>)
    ensures
        store_all(store_all(m, rs), rs) == store_all(m, rs),
        newly_stored(store_all(m, rs), rs) == 0,
{
    lemma_store_keeps(m, rs);
    lemma_store_known(store_all(m, rs), rs);
}

/// Storing `a` and then `b` is storing `a + b`.
pub proof fn lemma_store_concat(m: Map<Seq<u8>, Seq<char>>, a: Seq<Record>, b: Seq<Record>)
    ensures
        store_all(store_all(m, a), b) == store_all(m, a + b),
    decreases a.len(),
{
    if a.len() == 0 {
        assert(a + b =~= b);
    } else {
        lemma_store_concat(store_one(m, a[0]), a.drop_first(), b);
        assert((a + b).drop_first() =~= a.drop_first() + b);
        assert((a + b)[0] == a[0]);
    }
}

/// For any chunk size, storing the records chunk by chunk gives the mapping
/// that storing them in one go gives.
pub proof fn lemma_chunking_invariance(m: Map<Seq<u8>, Seq<char>>, rs: Seq<Record>, chunk: nat)
    requires
        chunk > 0,
    ensures
        store_in_chunks(m, rs, chunk) == store_all(m, rs),
    decreases rs.len(),
{
    if rs.len() > chunk {
        let head = rs.take(chunk as int);
        let tail = rs.skip(chunk as int);
        lemma_chunking_invariance(store_all(m, head), tail, chunk);
        lemma_store_concat(m, head, tail);
        assert(head + tail =~= rs);
    }
}

} // verus!
