//! The store's governing laws, stated over the observable map that the
//! engine contracts speak of.  Each law names the states before and after
//! the operations it mentions, asks only what those operations' contracts
//! establish, and concludes what a caller observes.

use vstd::prelude::*;
use crate::store::{compacted_shape, crec_key, open_ok, replay, segs_view, KvStore};
use crate::codec::Rec;

verus! {

/// Writing a key and then reading it yields the written value: after
/// `set(k, v)` — whose contract makes the new map `insert(k, v)` — a
/// `get(k)` returns `Some(v)`.
pub proof fn lemma_put_then_get(pre: KvStore, post: KvStore, k: Seq<char>, v: Seq<char>)
    requires
        post.model() == pre.model().insert(k, v),
    ensures
        post.model().contains_key(k),
        post.model()[k] == v,
{
}

/// Writing a key twice leaves the second value: after `set(k, v1)` and
/// `set(k, v2)`, a `get(k)` returns `Some(v2)`.
pub proof fn lemma_put_twice(
    pre: KvStore,
    mid: KvStore,
    post: KvStore,
    k: Seq<char>,
    v1: Seq<char>,
    v2: Seq<char>,
)
    requires
        mid.model() == pre.model().insert(k, v1),
        post.model() == mid.model().insert(k, v2),
    ensures
        post.model().contains_key(k),
        post.model()[k] == v2,
{
}

/// Writing a key and then removing it leaves the key absent: after
/// `set(k, v)` and a successful `remove(k)`, a `get(k)` returns nothing.
pub proof fn lemma_put_then_remove(
    pre: KvStore,
    mid: KvStore,
    post: KvStore,
    k: Seq<char>,
    v: Seq<char>,
)
    requires
        mid.model() == pre.model().insert(k, v),
        post.model() == mid.model().remove(k),
    ensures
        !post.model().contains_key(k),
{
}

/// Removing an absent key changes nothing — `remove`'s contract already
/// makes it fail with `KeyNotFound` exactly then — so a later `get(k)`
/// still returns nothing.
pub proof fn lemma_remove_absent(m: Map<Seq<char>, Seq<char>>, k: Seq<char>)
    requires
        !m.contains_key(k),
    ensures
        m.remove(k) == m,
        !m.remove(k).contains_key(k),
{
    assert(m.remove(k) =~= m);
}

/// Durability: a well-formed store's segments replay to exactly its
/// observable map, so a store opened from those same segments — whose
/// `open` contract makes its map that replay — presents the same map.
pub proof fn lemma_reopen_same_model(closed: KvStore, reopened: KvStore)
    requires
        closed.wf(),
        reopened.model() == replay(segs_view(closed.segments@)),
    ensures
        reopened.model() == closed.model(),
{
}

/// Reopening a well-formed store's segments succeeds: they meet `open`'s
/// whole success condition, so its contract owes `Ok`.  The one premise
/// beyond well-formedness is the machine limit that no segment number has
/// exhausted the counter, which every store reachable without about
/// 2^64 compactions satisfies.
pub proof fn lemma_reopen_succeeds(closed: KvStore)
    requires
        closed.wf(),
        forall|i: int| 0 <= i < closed.segs().len()
            ==> #[trigger] closed.segs()[i].num < u64::MAX,
    ensures
        open_ok(segs_view(closed.segments@)),
{
}

/// Compaction equivalence: compaction's contract keeps the observable
/// map, so every key reads the same before and after it.
pub proof fn lemma_compaction_preserves_reads(pre: KvStore, post: KvStore, k: Seq<char>)
    requires
        post.model() == pre.model(),
    ensures
        post.model().contains_key(k) == pre.model().contains_key(k),
        post.model().contains_key(k) ==> post.model()[k] == pre.model()[k],
{
}

/// After compaction the compacted segment holds exactly one record per
/// live key: one `Put` with the key's current value, no key twice, and
/// no live key missing.
pub proof fn lemma_one_record_per_key(rs: Seq<Rec>, m: Map<Seq<char>, Seq<char>>, k: Seq<char>)
    requires
        compacted_shape(rs, m),
        m.contains_key(k),
    ensures
        exists|j: int| 0 <= j < rs.len() && crec_key(#[trigger] rs[j]) == k,
        forall|j: int| 0 <= j < rs.len() && crec_key(#[trigger] rs[j]) == k
            ==> rs[j] == (Rec::Put { key: k, value: m[k] }),
        forall|j1: int, j2: int|
            0 <= j1 < rs.len() && 0 <= j2 < rs.len()
                && crec_key(#[trigger] rs[j1]) == k && crec_key(#[trigger] rs[j2]) == k
            ==> j1 == j2,
{
    assert forall|j1: int, j2: int|
        0 <= j1 < rs.len() && 0 <= j2 < rs.len()
            && crec_key(#[trigger] rs[j1]) == k && crec_key(#[trigger] rs[j2]) == k
        implies j1 == j2 by {
        if j1 < j2 {
            assert(crec_key(rs[j1]) != crec_key(rs[j2]));
        }
        if j2 < j1 {
            assert(crec_key(rs[j1]) != crec_key(rs[j2]));
        }
    }
}

} // verus!
