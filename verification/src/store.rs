//! The log-structured storage engine: numbered append-only segments, an
//! index from key to record position, and online compaction.
//!
//! The engine holds each segment's characters in memory and reports every
//! change it makes as a [`DiskOp`]; the caller mirrors those operations to
//! durable files and hands the files' contents back at the next open.
//! The engine's observable state is the mathematical map [`KvStore::model`];
//! the central invariant says that replaying the segments in ascending
//! order rebuilds exactly that map.

use vstd::prelude::*;
use crate::codec::{
    Command, Rec, rec_encode, rec_valid, records_of, valid_stream, parse_rec_at, parse_stream, val_digits,
    encode_record, decode_at, cmd_rec, is_log_cmd,
    lemma_parse_encode, lemma_parse_canonical, lemma_parse_stable,
    lemma_stream_snoc, lemma_stream_empty,
};
use crate::index::{dm_contents, dm_entries, dm_get, dm_insert, dm_new, dm_remove, CommandPos};
use crate::KvsError;

verus! {

/// One on-disk segment: its number and its full character contents.
#[derive(Clone)]
pub struct Segment {
    pub num: u64,
    pub data: String,
}

/// The mathematical form of a segment.
pub ghost struct SegV {
    pub num: u64,
    pub data: Seq<char>,
}

/// A change to the backing directory that the caller must mirror.
#[derive(Debug)]
pub enum DiskOp {
    Create { walfile_num: u64 },
    Append { walfile_num: u64, data: String },
    Delete { walfile_num: u64 },
}

/// Compaction runs when at least this many stale characters have
/// accumulated.
pub const MAX_WAL_SIZE_THRESHOLD: u64 = 1048576;

pub open spec fn segs_view(segs: Seq<Segment>) -> Seq<SegV> {
    segs.map_values(|s: Segment| SegV { num: s.num, data: s.data@ })
}

pub open spec fn segs_sorted(segs: Seq<SegV>) -> bool {
    forall|i: int, j: int| 0 <= i < j < segs.len()
        ==> #[trigger] segs[i].num < #[trigger] segs[j].num
}

pub open spec fn has_seg(segs: Seq<SegV>, n: u64) -> bool
    decreases segs.len(),
{
    if segs.len() == 0 {
        false
    } else {
        segs.last().num == n || has_seg(segs.drop_last(), n)
    }
}

/// The data of the segment numbered `n` (empty if there is none; unique by
/// sortedness wherever we use it).
pub open spec fn seg_data(segs: Seq<SegV>, n: u64) -> Seq<char>
    decreases segs.len(),
{
    if segs.len() == 0 {
        Seq::empty()
    } else if segs.last().num == n {
        segs.last().data
    } else {
        seg_data(segs.drop_last(), n)
    }
}

pub proof fn lemma_has_seg_iff(segs: Seq<SegV>, n: u64)
    ensures
        has_seg(segs, n) <==> exists|i: int| 0 <= i < segs.len() && #[trigger] segs[i].num == n,
    decreases segs.len(),
{
    if segs.len() > 0 {
        lemma_has_seg_iff(segs.drop_last(), n);
        if segs.last().num == n {
            assert(segs[segs.len() - 1].num == n);
        } else if has_seg(segs.drop_last(), n) {
            let i = choose|i: int| 0 <= i < segs.drop_last().len() && #[trigger] segs.drop_last()[i].num == n;
            assert(segs[i].num == n);
        } else {
            assert forall|i: int| 0 <= i < segs.len() implies #[trigger] segs[i].num != n by {
                if i < segs.len() - 1 {
                    assert(segs.drop_last()[i].num != n);
                }
            }
        }
    }
}

/// In a sorted segment list, position `i` holds the one segment numbered
/// `segs[i].num`.
pub proof fn lemma_seg_data_at(segs: Seq<SegV>, i: int)
    requires
        segs_sorted(segs),
        0 <= i < segs.len(),
    ensures
        has_seg(segs, segs[i].num),
        seg_data(segs, segs[i].num) == segs[i].data,
    decreases segs.len(),
{
    if i == segs.len() - 1 {
    } else {
        assert(segs[i].num < segs.last().num);
        assert(segs.drop_last()[i] == segs[i]);
        assert(segs_sorted(segs.drop_last())) by {
            assert(forall|a: int, b: int| 0 <= a < b < segs.drop_last().len()
                ==> segs.drop_last()[a] == segs[a] && segs.drop_last()[b] == segs[b]);
        }
        lemma_seg_data_at(segs.drop_last(), i);
    }
}

/// One record applied to the key-value map.
pub open spec fn apply_rec(m: Map<Seq<char>, Seq<char>>, r: Rec) -> Map<Seq<char>, Seq<char>> {
    match r {
        Rec::Put { key, value } => m.insert(key, value),
        Rec::Rm { key } => m.remove(key),
    }
}

/// A record sequence applied in order.
pub open spec fn apply_recs(m: Map<Seq<char>, Seq<char>>, rs: Seq<Rec>) -> Map<Seq<char>, Seq<char>>
    decreases rs.len(),
{
    if rs.len() == 0 {
        m
    } else {
        apply_recs(apply_rec(m, rs[0]), rs.drop_first())
    }
}

pub proof fn lemma_apply_snoc(m: Map<Seq<char>, Seq<char>>, rs: Seq<Rec>, r: Rec)
    ensures
        apply_recs(m, rs.push(r)) == apply_rec(apply_recs(m, rs), r),
    decreases rs.len(),
{
    if rs.len() == 0 {
        reveal_with_fuel(apply_recs, 2);
        assert(rs.push(r)[0] == r);
        assert(rs.push(r).drop_first() =~= Seq::<Rec>::empty());
        assert(apply_recs(apply_rec(m, r), Seq::<Rec>::empty()) == apply_rec(m, r));
    } else {
        assert(rs.push(r)[0] == rs[0]);
        assert(rs.push(r).drop_first() =~= rs.drop_first().push(r));
        lemma_apply_snoc(apply_rec(m, rs[0]), rs.drop_first(), r);
    }
}

/// Replaying segments in order: every record of every segment, oldest
/// segment first.
pub open spec fn replay(segs: Seq<SegV>) -> Map<Seq<char>, Seq<char>>
    decreases segs.len(),
{
    if segs.len() == 0 {
        Map::empty()
    } else {
        apply_recs(replay(segs.drop_last()), records_of(segs.last().data))
    }
}

/// The index entry `e` for key `k` points at a well-formed `Put` record
/// for `k` inside an existing segment.
pub open spec fn entry_ok(segs: Seq<SegV>, k: Seq<char>, e: (u64, u64, u64)) -> bool {
    &&& has_seg(segs, e.0)
    &&& match parse_rec_at(seg_data(segs, e.0), e.1 as int) {
        Some(p) => {
            &&& p.1 == e.1 + e.2
            &&& match p.0 {
                Rec::Put { key, value } => key == k,
                Rec::Rm { .. } => false,
            }
        }
        None => false,
    }
}

/// The value stored at index entry `e`.
pub open spec fn entry_value(segs: Seq<SegV>, e: (u64, u64, u64)) -> Seq<char> {
    match parse_rec_at(seg_data(segs, e.0), e.1 as int) {
        Some(p) => match p.0 {
            Rec::Put { key, value } => value,
            Rec::Rm { .. } => Seq::empty(),
        },
        None => Seq::empty(),
    }
}

/// The key-value map that segments and index together present.
pub open spec fn model_of(segs: Seq<SegV>, ic: Map<Seq<char>, (u64, u64, u64)>) -> Map<Seq<char>, Seq<char>> {
    Map::new(|k: Seq<char>| ic.contains_key(k), |k: Seq<char>| entry_value(segs, ic[k]))
}

/// All segments' characters together: the store's total disk size.
pub open spec fn total_len(segs: Seq<SegV>) -> int
    decreases segs.len(),
{
    if segs.len() == 0 {
        0
    } else {
        total_len(segs.drop_last()) + segs.last().data.len()
    }
}

/// The characters held by live records: the sum of the index entries'
/// record lengths.
pub open spec fn live_sum(ic: Map<Seq<char>, (u64, u64, u64)>) -> int
    decreases ic.dom().len()
        when ic.dom().finite()
{
    if ic.dom().finite() && ic.dom().len() > 0 {
        let k = ic.dom().choose();
        ic[k].2 + live_sum(ic.remove(k))
    } else {
        0
    }
}

/// Splitting one entry off the live sum.
pub proof fn lemma_live_sum_remove(m: Map<Seq<char>, (u64, u64, u64)>, k: Seq<char>)
    requires
        m.dom().finite(),
        m.contains_key(k),
    ensures
        live_sum(m) == live_sum(m.remove(k)) + m[k].2,
    decreases m.dom().len(),
{
    assert(m.dom().contains(k));
    assert(m.dom().remove(k).len() == m.dom().len() - 1);
    let k0 = m.dom().choose();
    assert(m.dom().len() > 0);
    assert(m.contains_key(k0));
    if k0 == k {
    } else {
        lemma_live_sum_remove(m.remove(k0), k);
        lemma_live_sum_remove(m.remove(k), k0);
        assert(m.remove(k0).remove(k) =~= m.remove(k).remove(k0));
    }
}

/// How one insertion moves the live sum.
pub proof fn lemma_live_sum_insert(m: Map<Seq<char>, (u64, u64, u64)>, k: Seq<char>, e: (u64, u64, u64))
    requires
        m.dom().finite(),
    ensures
        live_sum(m.insert(k, e)) == live_sum(m) + e.2
            - (if m.contains_key(k) { m[k].2 as int } else { 0 }),
{
    lemma_live_sum_remove(m.insert(k, e), k);
    if m.contains_key(k) {
        lemma_live_sum_remove(m, k);
        assert(m.insert(k, e).remove(k) =~= m.remove(k));
    } else {
        assert(m.insert(k, e).remove(k) =~= m);
    }
}

/// The record lengths of the first `n` index snapshot entries.
pub open spec fn psum(pairs: Seq<(String, CommandPos)>, n: int) -> int
    decreases n,
{
    if 0 < n <= pairs.len() {
        psum(pairs, n - 1) + pairs[n - 1].1@.2
    } else {
        0
    }
}

/// A snapshot that lists every entry exactly once sums to the live sum.
pub proof fn lemma_pairs_sum(pairs: Seq<(String, CommandPos)>, m: Map<Seq<char>, (u64, u64, u64)>)
    requires
        m.dom().finite(),
        forall|j1: int, j2: int| 0 <= j1 < j2 < pairs.len()
            ==> #[trigger] pairs[j1].0@ != #[trigger] pairs[j2].0@,
        forall|j: int| 0 <= j < pairs.len()
            ==> m.contains_key(#[trigger] pairs[j].0@) && m[pairs[j].0@] == pairs[j].1@,
        forall|k: Seq<char>| #[trigger] m.contains_key(k)
            ==> exists|j: int| 0 <= j < pairs.len() && #[trigger] pairs[j].0@ == k,
    ensures
        psum(pairs, pairs.len() as int) == live_sum(m),
    decreases pairs.len(),
{
    if pairs.len() == 0 {
        assert forall|k: Seq<char>| !(#[trigger] m.contains_key(k)) by {
            if m.contains_key(k) {
                let j = choose|j: int| 0 <= j < pairs.len() && #[trigger] pairs[j].0@ == k;
            }
        }
        assert(m.dom() =~= Set::<Seq<char>>::empty());
        assert(live_sum(m) == 0);
    } else {
        let n = pairs.len() as int;
        let last = pairs[n - 1];
        let front = pairs.drop_last();
        let m2 = m.remove(last.0@);
        assert(forall|j: int| 0 <= j < front.len() ==> front[j] == pairs[j]);
        assert forall|j: int| 0 <= j < front.len()
            implies m2.contains_key(#[trigger] front[j].0@) && m2[front[j].0@] == front[j].1@ by {
            assert(pairs[j].0@ != last.0@);
        }
        assert forall|k: Seq<char>| #[trigger] m2.contains_key(k)
            implies exists|j: int| 0 <= j < front.len() && #[trigger] front[j].0@ == k by {
            assert(m.contains_key(k));
            let j = choose|j: int| 0 <= j < pairs.len() && #[trigger] pairs[j].0@ == k;
            assert(j != n - 1);
            assert(front[j].0@ == k);
        }
        lemma_pairs_sum(front, m2);
        lemma_live_sum_remove(m, last.0@);
        assert(psum(pairs, n - 1) == psum(front, front.len() as int)) by {
            lemma_psum_prefix(pairs, front, n - 1);
        }
    }
}

/// Two snapshots equal up to `n` have the same partial sums.
proof fn lemma_psum_prefix(a: Seq<(String, CommandPos)>, b: Seq<(String, CommandPos)>, n: int)
    requires
        n <= a.len(),
        n <= b.len(),
        forall|j: int| 0 <= j < n ==> #[trigger] a[j] == b[j],
    ensures
        psum(a, n) == psum(b, n),
    decreases n,
{
    if n > 0 {
        lemma_psum_prefix(a, b, n - 1);
    }
}

/// A key-value store over numbered log segments.
pub struct KvStore {
    pub segments: Vec<Segment>,
    pub index: dashmap::DashMap<String, CommandPos>,
    pub active_wal: u64,
    pub uncompacted: u64,
    pub pending: Vec<DiskOp>,
}

impl KvStore {
    pub open spec fn segs(&self) -> Seq<SegV> {
        segs_view(self.segments@)
    }

    pub open spec fn contents(&self) -> Map<Seq<char>, (u64, u64, u64)> {
        dm_contents(&self.index)
    }

    /// The observable key-value state.
    pub open spec fn model(&self) -> Map<Seq<char>, Seq<char>> {
        model_of(self.segs(), self.contents())
    }

    /// Well-formedness: segments are sorted and hold valid record streams,
    /// the last one is the active segment, every index entry points at a
    /// live `Put` record for its own key, and replaying the segments in
    /// order rebuilds exactly the observable map.
    pub open spec fn wf(&self) -> bool {
        &&& self.segs().len() >= 1
        &&& segs_sorted(self.segs())
        &&& forall|i: int| 0 <= i < self.segs().len() ==> #[trigger] self.segs()[i].num >= 1
        &&& self.active_wal == self.segs().last().num
        &&& forall|i: int| 0 <= i < self.segs().len() ==> valid_stream(#[trigger] self.segs()[i].data)
        &&& forall|k: Seq<char>| #[trigger] self.contents().contains_key(k)
                ==> entry_ok(self.segs(), k, self.contents()[k])
        &&& replay(self.segs()) == self.model()
        &&& self.contents().dom().finite()
        &&& live_sum(self.contents()) <= total_len(self.segs())
    }
}

/// The inputs on which [`KvStore::open`] succeeds: segments strictly
/// ascending by number, numbers in range, and every segment a valid
/// record stream.
pub open spec fn open_ok(segs: Seq<SegV>) -> bool {
    &&& segs_sorted(segs)
    &&& forall|i: int| 0 <= i < segs.len() ==> 1 <= #[trigger] segs[i].num < u64::MAX
    &&& forall|i: int| 0 <= i < segs.len() ==> valid_stream(#[trigger] segs[i].data)
}

/// `a + b`, stopping at `u64::MAX`.
pub open spec fn sat_add_spec(a: int, b: int) -> int {
    if a + b <= u64::MAX { a + b } else { u64::MAX as int }
}

/// The record length an operation on `k` displaces: the indexed record's
/// length, or nothing when the key is absent.
pub open spec fn stale_len(ic: Map<Seq<char>, (u64, u64, u64)>, k: Seq<char>) -> int {
    if ic.contains_key(k) { ic[k].2 as int } else { 0 }
}

/// Where the stale-character counter stands after a write that displaced
/// `displaced` characters: it grows by them (stopping at `u64::MAX`), and
/// once it reaches the threshold, compaction runs and zeroes it — unless
/// the segment numbers are exhausted, when the count stays.
pub open spec fn counter_after(u0: int, displaced: int, active: u64) -> int {
    let grown = sat_add_spec(u0, displaced);
    if grown >= MAX_WAL_SIZE_THRESHOLD && active < u64::MAX - 1 { 0 } else { grown }
}

/// `a + b`, stopping at `u64::MAX`.
fn sat_add(a: u64, b: u64) -> (r: u64)
    ensures
        r as int == if a + b <= u64::MAX { a + b } else { u64::MAX as int },
{
    let s = (a as u128) + (b as u128);
    if s > u64::MAX as u128 {
        u64::MAX
    } else {
        s as u64
    }
}

impl KvStore {
    /// Open a store from the segments found on disk, given in ascending
    /// order of segment number.  Replays every record of every segment to
    /// rebuild the index and the stale counter, then starts a fresh
    /// active segment numbered one past the newest (or `1` on an empty
    /// directory).  The store that comes back presents exactly the map
    /// the segments replay to.
    pub fn open(segments: Vec<Segment>) -> (r: Result<KvStore, KvsError>)
        ensures
            match r {
                Ok(store) => open_ok(segs_view(segments@))
                    && store.wf()
                    && store.model() == replay(segs_view(segments@))
                    && store.uncompacted as int == stale_segs(segs_view(segments@)).1
                    && store.active_wal == (if segments@.len() == 0 {
                        1u64
                    } else {
                        (segs_view(segments@).last().num + 1) as u64
                    })
                    && store.segs() == segs_view(segments@).push(SegV {
                        num: store.active_wal,
                        data: Seq::<char>::empty(),
                    })
                    && store.pending@.len() == 1
                    && match store.pending@[0] {
                        DiskOp::Create { walfile_num } => walfile_num == store.active_wal,
                        _ => false,
                    },
                Err(_) => !open_ok(segs_view(segments@)),
            },
    {
        let ghost segsv = segs_view(segments@);
        let n = segments.len();

        // Scan the numbering before touching any contents.
        let mut i: usize = 0;
        while i < n
            invariant
                i <= n,
                n == segments@.len(),
                segsv == segs_view(segments@),
                forall|j: int| 0 <= j < i ==> 1 <= #[trigger] segsv[j].num < u64::MAX,
                forall|a: int, b: int| 0 <= a < b < i ==> #[trigger] segsv[a].num < #[trigger] segsv[b].num,
            decreases n - i,
        {
            let num = segments[i].num;
            if num == 0 || num == u64::MAX {
                proof {
                    assert(segsv[i as int].num == num);
                    assert(!open_ok(segsv));
                }
                return Err(KvsError::Message(String::from_str("segment number out of range")));
            }
            if i > 0 {
                if segments[i - 1].num >= num {
                    proof {
                        assert(segsv[i - 1].num >= segsv[i as int].num);
                    }
                    return Err(KvsError::Message(String::from_str("segments out of order")));
                }
            }
            proof {
                assert(num == segsv[i as int].num);
                assert forall|a: int| 0 <= a < i implies segsv[a].num < segsv[i as int].num by {
                    if a < i - 1 {
                        assert(segsv[a].num < segsv[i - 1].num);
                    }
                }
            }
            i = i + 1;
        }

        // Replay the records, oldest segment first.
        let mut index = dm_new();
        let mut uncompacted: u64 = 0;
        let mut s: usize = 0;
        proof {
            assert(segsv.subrange(0, 0) =~= Seq::<SegV>::empty());
            assert(model_of(segsv, dm_contents(&index)) =~= replay(segsv.subrange(0, 0)));
            assert(stale_segs(Seq::<SegV>::empty()) == (Map::<Seq<char>, int>::empty(), 0int));
        }
        while s < n
            invariant
                s <= n,
                n == segments@.len(),
                segsv == segs_view(segments@),
                segs_sorted(segsv),
                forall|j: int| 0 <= j < n ==> 1 <= #[trigger] segsv[j].num < u64::MAX,
                forall|j: int| 0 <= j < s ==> valid_stream(#[trigger] segsv[j].data),
                forall|k: Seq<char>| #[trigger] dm_contents(&index).contains_key(k)
                    ==> entry_ok(segsv, k, dm_contents(&index)[k]),
                model_of(segsv, dm_contents(&index)) == replay(segsv.subrange(0, s as int)),
                dm_contents(&index).dom().finite(),
                live_sum(dm_contents(&index)) <= total_len(segsv.subrange(0, s as int)),
                uncompacted as int == stale_segs(segsv.subrange(0, s as int)).1,
                forall|k: Seq<char>| #[trigger] dm_contents(&index).contains_key(k)
                    <==> stale_segs(segsv.subrange(0, s as int)).0.contains_key(k),
                forall|k: Seq<char>| #[trigger] dm_contents(&index).contains_key(k)
                    ==> stale_segs(segsv.subrange(0, s as int)).0[k] == dm_contents(&index)[k].2,
            decreases n - s,
        {
            let num = segments[s].num;
            let data = &segments[s].data;
            let dlen = data.as_str().unicode_len();
            let mut off: usize = 0;
            let ghost mut rs: Seq<Rec> = Seq::empty();
            proof {
                assert(seg_data(segsv, num) == data@ && has_seg(segsv, num)) by {
                    lemma_seg_data_at(segsv, s as int);
                }
                assert(rs + parse_stream_rest(data@, 0) =~= parse_stream_rest(data@, 0));
            }
            while off < dlen
                invariant
                    off <= dlen,
                    n == segments@.len(),
                    s < n,
                    dlen == data@.len(),
                    data@ == segsv[s as int].data,
                    num == segsv[s as int].num,
                    segsv == segs_view(segments@),
                    segs_sorted(segsv),
                    seg_data(segsv, num) == data@,
                    has_seg(segsv, num),
                    forall|j: int| 0 <= j < n ==> 1 <= #[trigger] segsv[j].num < u64::MAX,
                    forall|j: int| 0 <= j < s ==> valid_stream(#[trigger] segsv[j].data),
                    match parse_stream(data@, off as int) {
                        Some(rest) => parse_stream(data@, 0) == Some(rs + rest),
                        None => parse_stream(data@, 0).is_none(),
                    },
                    forall|k: Seq<char>| #[trigger] dm_contents(&index).contains_key(k)
                        ==> entry_ok(segsv, k, dm_contents(&index)[k]),
                    model_of(segsv, dm_contents(&index))
                        == apply_recs(replay(segsv.subrange(0, s as int)), rs),
                    dm_contents(&index).dom().finite(),
                    live_sum(dm_contents(&index)) <= total_len(segsv.subrange(0, s as int)) + off,
                    uncompacted as int
                        == stale_recs(stale_segs(segsv.subrange(0, s as int)), rs).1,
                    forall|k: Seq<char>| #[trigger] dm_contents(&index).contains_key(k)
                        <==> stale_recs(stale_segs(segsv.subrange(0, s as int)), rs).0.contains_key(k),
                    forall|k: Seq<char>| #[trigger] dm_contents(&index).contains_key(k)
                        ==> stale_recs(stale_segs(segsv.subrange(0, s as int)), rs).0[k]
                            == dm_contents(&index)[k].2,
                decreases dlen - off,
            {
                match crate::codec::decode_at(data.as_str(), off) {
                    None => {
                        proof {
                            assert(parse_stream(data@, off as int).is_none());
                            assert(!valid_stream(segsv[s as int].data));
                        }
                        return Err(KvsError::Message(String::from_str("corrupt segment")));
                    }
                    Some(cmd_end) => {
                        let (cmd, end) = cmd_end;
                        let ghost r = cmd_rec(&cmd);
                        let ghost m0 = replay(segsv.subrange(0, s as int));
                        proof {
                            lemma_parse_canonical(data@, off as int, r, end as int);
                            // the stream context advances by one record
                            match parse_stream(data@, end as int) {
                                Some(rest2) => {
                                    assert(parse_stream(data@, off as int) == Some(seq![r] + rest2));
                                    assert(rs + (seq![r] + rest2) =~= rs.push(r) + rest2);
                                }
                                None => {
                                    assert(parse_stream(data@, off as int).is_none());
                                }
                            }
                            lemma_apply_snoc(m0, rs, r);
                        }
                        match cmd {
                            Command::Put { key, value } => {
                                let cp = CommandPos {
                                    walfile_num: num,
                                    pos: off as u64,
                                    len: (end - off) as u64,
                                };
                                let ghost ic0 = dm_contents(&index);
                                let ghost keyv = key@;
                                let ghost valv = value@;
                                let ghost base = stale_segs(segsv.subrange(0, s as int));
                                let ghost st0 = stale_recs(base, rs);
                                proof {
                                    assert forall|k: Seq<char>| #[trigger] ic0.contains_key(k)
                                        <==> st0.0.contains_key(k) by {
                                        assert(ic0.contains_key(k) == dm_contents(&index).contains_key(k));
                                    }
                                    assert forall|k: Seq<char>| #[trigger] ic0.contains_key(k)
                                        implies st0.0[k] == ic0[k].2 by {
                                        assert(ic0.contains_key(k) == dm_contents(&index).contains_key(k));
                                    }
                                }
                                let displaced = dm_insert(&mut index, key, cp);
                                match displaced {
                                    Some(old_cmd) => {
                                        uncompacted = sat_add(uncompacted, old_cmd.len);
                                    }
                                    None => {}
                                }
                                proof {
                                    lemma_stale_snoc(base, rs, r);
                                    rs = rs.push(r);
                                    assert(rec_encode(r).len() == end - off);
                                    assert(stale_recs(base, rs) == stale_rec(st0, r));
                                    assert(stale_recs(base, rs).1 == uncompacted as int);
                                    assert(entry_ok(segsv, keyv, cp@));
                                    assert(model_of(segsv, dm_contents(&index))
                                        =~= model_of(segsv, ic0).insert(keyv, valv));
                                    lemma_live_sum_insert(ic0, keyv, cp@);
                                    assert forall|k: Seq<char>| #[trigger] dm_contents(&index).contains_key(k)
                                        <==> stale_recs(base, rs).0.contains_key(k) by {
                                        if k != keyv {
                                            assert(dm_contents(&index).contains_key(k) == ic0.contains_key(k));
                                            assert(stale_recs(base, rs).0.contains_key(k) == st0.0.contains_key(k));
                                        }
                                    }
                                    assert forall|k: Seq<char>| #[trigger] dm_contents(&index).contains_key(k)
                                        implies stale_recs(base, rs).0[k] == dm_contents(&index)[k].2 by {
                                        if k != keyv {
                                            assert(dm_contents(&index)[k] == ic0[k]);
                                            assert(stale_recs(base, rs).0[k] == st0.0[k]);
                                        }
                                    }
                                }
                            }
                            Command::Rm { key } => {
                                let ghost ic0 = dm_contents(&index);
                                let ghost keyv = key@;
                                let ghost base = stale_segs(segsv.subrange(0, s as int));
                                let ghost st0 = stale_recs(base, rs);
                                proof {
                                    assert forall|k: Seq<char>| #[trigger] ic0.contains_key(k)
                                        <==> st0.0.contains_key(k) by {
                                        assert(ic0.contains_key(k) == dm_contents(&index).contains_key(k));
                                    }
                                    assert forall|k: Seq<char>| #[trigger] ic0.contains_key(k)
                                        implies st0.0[k] == ic0[k].2 by {
                                        assert(ic0.contains_key(k) == dm_contents(&index).contains_key(k));
                                    }
                                }
                                let removed = dm_remove(&mut index, &key);
                                match removed {
                                    Some(old_cmd) => {
                                        uncompacted = sat_add(uncompacted, old_cmd.len);
                                    }
                                    None => {
                                        uncompacted = sat_add(uncompacted, (end - off) as u64);
                                    }
                                }
                                proof {
                                    lemma_stale_snoc(base, rs, r);
                                    rs = rs.push(r);
                                    assert(rec_encode(r).len() == end - off);
                                    assert(stale_recs(base, rs) == stale_rec(st0, r));
                                    assert(stale_recs(base, rs).1 == uncompacted as int);
                                    assert(model_of(segsv, dm_contents(&index))
                                        =~= model_of(segsv, ic0).remove(keyv));
                                    if ic0.contains_key(keyv) {
                                        lemma_live_sum_remove(ic0, keyv);
                                    } else {
                                        assert(ic0.remove(keyv) =~= ic0);
                                    }
                                    assert forall|k: Seq<char>| #[trigger] dm_contents(&index).contains_key(k)
                                        <==> stale_recs(base, rs).0.contains_key(k) by {
                                        if k != keyv {
                                            assert(dm_contents(&index).contains_key(k) == ic0.contains_key(k));
                                            assert(stale_recs(base, rs).0.contains_key(k) == st0.0.contains_key(k));
                                        }
                                    }
                                    assert forall|k: Seq<char>| #[trigger] dm_contents(&index).contains_key(k)
                                        implies stale_recs(base, rs).0[k] == dm_contents(&index)[k].2 by {
                                        if k != keyv {
                                            assert(dm_contents(&index)[k] == ic0[k]);
                                            assert(stale_recs(base, rs).0[k] == st0.0[k]);
                                        }
                                    }
                                }
                            }
                            _ => {
                                proof {
                                    assert(false);
                                }
                            }
                        }
                        off = end;
                    }
                }
            }
            proof {
                assert(parse_stream(data@, off as int) == Some(Seq::<Rec>::empty()));
                assert(rs + Seq::<Rec>::empty() =~= rs);
                assert(valid_stream(segsv[s as int].data));
                assert(records_of(data@) == rs);
                let pre2 = segsv.subrange(0, s + 1);
                assert(pre2.drop_last() =~= segsv.subrange(0, s as int));
                assert(pre2.last() == segsv[s as int]);
                assert(replay(pre2) == apply_recs(replay(segsv.subrange(0, s as int)), rs));
                assert(total_len(pre2) == total_len(segsv.subrange(0, s as int)) + dlen);
                assert(stale_segs(pre2)
                    == stale_recs(stale_segs(segsv.subrange(0, s as int)), rs));
            }
            s = s + 1;
        }
        proof {
            assert(segsv.subrange(0, n as int) =~= segsv);
        }

        // Start a fresh active segment, numbered one past the newest.
        let active: u64 = if n == 0 {
            1
        } else {
            proof {
                assert(segsv[n - 1].num == segments@[n - 1].num);
            }
            segments[n - 1].num + 1
        };
        let mut segments2 = segments;
        segments2.push(Segment { num: active, data: String::new() });
        let mut pending: Vec<DiskOp> = Vec::new();
        pending.push(DiskOp::Create { walfile_num: active });
        let store = KvStore { segments: segments2, index, active_wal: active, uncompacted, pending };
        proof {
            let segsv2 = store.segs();
            assert(segsv2 =~= segsv.push(SegV { num: active, data: Seq::empty() }));
            assert(segsv2.drop_last() =~= segsv);
            lemma_stream_empty(Seq::<char>::empty());
            assert forall|j: int| 0 <= j < segsv.len()
                implies #[trigger] segsv[j].num < active by {
                if j < segsv.len() - 1 {
                    assert(segsv[j].num < segsv[segsv.len() - 1].num);
                }
            }
            assert forall|k: Seq<char>| #[trigger] store.contents().contains_key(k)
                implies entry_ok(segsv2, k, store.contents()[k]) by {
                let e = store.contents()[k];
                assert(entry_ok(segsv, k, e));
                lemma_has_seg_iff(segsv, e.0);
                assert(e.0 != active);
                assert(has_seg(segsv2, e.0));
                assert(seg_data(segsv2, e.0) == seg_data(segsv, e.0));
            }
            assert(store.model() =~= model_of(segsv, store.contents())) by {
                assert forall|k: Seq<char>| #[trigger] store.contents().contains_key(k)
                    implies entry_value(segsv2, store.contents()[k])
                        == entry_value(segsv, store.contents()[k]) by {
                    let e = store.contents()[k];
                    assert(entry_ok(segsv, k, e));
                    lemma_has_seg_iff(segsv, e.0);
                    assert(e.0 != active);
                    assert(seg_data(segsv2, e.0) == seg_data(segsv, e.0));
                }
            }
            assert(apply_recs(replay(segsv), records_of(Seq::<char>::empty())) == replay(segsv));
            assert(replay(segsv2) == replay(segsv));
            assert(total_len(segsv2) == total_len(segsv));
            assert(store.wf());
        }
        Ok(store)
    }
}

/// The rest of the stream from offset `i`, where it is defined.
pub open spec fn parse_stream_rest(s: Seq<char>, i: int) -> Seq<Rec> {
    match parse_stream(s, i) {
        Some(rest) => rest,
        None => Seq::empty(),
    }
}

impl KvStore {
    /// Look the key up and, when it is present, read its record back from
    /// the segment the index points into.
    pub fn get(&self, key: String) -> (r: Result<Option<String>, KvsError>)
        requires
            self.wf(),
        ensures
            match r {
                Ok(found) => match found {
                    Some(v) => self.model().contains_key(key@) && v@ == self.model()[key@],
                    None => !self.model().contains_key(key@),
                },
                Err(_) => false,
            },
    {
        let ghost segsv = self.segs();
        let cp = match dm_get(&self.index, &key) {
            None => {
                return Ok(None);
            }
            Some(cp) => cp,
        };
        proof {
            assert(entry_ok(segsv, key@, cp@));
        }
        let n = self.segments.len();
        let mut idx: usize = n;
        let mut i: usize = 0;
        while i < n
            invariant
                i <= n,
                idx <= n,
                n == self.segments@.len(),
                segsv == self.segs(),
                idx == n ==> forall|j: int| 0 <= j < i ==> #[trigger] segsv[j].num != cp.walfile_num,
                idx < n ==> segsv[idx as int].num == cp.walfile_num,
            decreases n - i,
        {
            if self.segments[i].num == cp.walfile_num {
                idx = i;
            }
            i = i + 1;
        }
        if idx == n {
            proof {
                lemma_has_seg_iff(segsv, cp.walfile_num);
                assert(false);
            }
            return Err(KvsError::Message(String::from_str("KvStoreReader: Reader not found")));
        }
        let seg = &self.segments[idx];
        let dlen = seg.data.as_str().unicode_len();
        proof {
            lemma_seg_data_at(segsv, idx as int);
            assert(seg_data(segsv, cp.walfile_num) == seg.data@);
            assert(cp.pos + cp.len <= dlen);
        }
        let pos_us = cp.pos as usize;
        match crate::codec::decode_at(seg.data.as_str(), pos_us) {
            None => {
                proof {
                    assert(false);
                }
                Err(KvsError::InvalidCommand)
            }
            Some(cmd_end) => {
                let (cmd, _end) = cmd_end;
                match cmd {
                    Command::Put { key: _stored_key, value } => {
                        proof {
                            assert(self.model()[key@] == entry_value(segsv, cp@));
                        }
                        Ok(Some(value))
                    }
                    _ => {
                        proof {
                            assert(false);
                        }
                        Err(KvsError::InvalidCommand)
                    }
                }
            }
        }
    }

    /// Append a `Put` record to the active segment and point the index at
    /// it; the key now maps to this value.  The stale counter grows by
    /// the displaced record's length, and once it reaches the threshold,
    /// compaction runs.
    pub fn set(&mut self, key: String, value: String) -> (r: Result<(), KvsError>)
        requires
            old(self).wf(),
        ensures
            final(self).wf(),
            r.is_ok(),
            final(self).model() == old(self).model().insert(key@, value@),
            final(self).uncompacted as int == counter_after(
                old(self).uncompacted as int,
                stale_len(old(self).contents(), key@),
                old(self).active_wal,
            ),
            final(self).pending@.len() > old(self).pending@.len(),
            forall|q: int| 0 <= q < old(self).pending@.len()
                ==> final(self).pending@[q] == old(self).pending@[q],
            match final(self).pending@[old(self).pending@.len() as int] {
                DiskOp::Append { walfile_num, data } => walfile_num == old(self).active_wal
                    && data@ == rec_encode(Rec::Put { key: key@, value: value@ }),
                _ => false,
            },
    {
        let ghost segsv0 = old(self).segs();
        let ghost ic0 = old(self).contents();
        let ghost keyv = key@;
        let ghost valv = value@;
        let cmd = Command::Put { key: key.clone(), value };
        let enc = encode_record(&cmd);
        let ghost r = cmd_rec(&cmd);
        let ghost encv = enc@;
        let mut last = self.segments.pop().unwrap();
        let ghost old_data = last.data@;
        let pos_us = last.data.as_str().unicode_len();
        last.data.append(enc.as_str());
        let new_pos_us = last.data.as_str().unicode_len();
        let num = last.num;
        self.segments.push(last);
        self.pending.push(DiskOp::Append { walfile_num: num, data: enc });
        proof {
            assert(old_data == segsv0.last().data);
            assert(num == old(self).active_wal);
            lemma_append_record_segs(segsv0, self.segs(), num, old_data, encv, r);
        }
        let cp = CommandPos {
            walfile_num: num,
            pos: pos_us as u64,
            len: (new_pos_us - pos_us) as u64,
        };
        let displaced = dm_insert(&mut self.index, key, cp);
        match displaced {
            Some(old_cmd) => {
                self.uncompacted = sat_add(self.uncompacted, old_cmd.len);
            }
            None => {}
        }
        proof {
            let segsv1 = self.segs();
            assert(r == Rec::Put { key: keyv, value: valv });
            assert(parse_rec_at(seg_data(segsv1, num), cp.pos as int)
                == Some((r, cp.pos + cp.len))) by {
                lemma_parse_encode(old_data, r, Seq::empty());
                assert(old_data + encv + Seq::<char>::empty() =~= old_data + encv);
            }
            assert(entry_ok(segsv1, keyv, cp@));
            assert forall|k: Seq<char>| #[trigger] self.contents().contains_key(k)
                implies entry_ok(segsv1, k, self.contents()[k]) by {
                if k != keyv {
                    let e = ic0[k];
                    assert(entry_ok(segsv0, k, e));
                    lemma_entry_preserved(segsv0, segsv1, num, old_data, encv, k, e);
                }
            }
            assert(self.model() =~= old(self).model().insert(keyv, valv)) by {
                assert forall|k: Seq<char>| #[trigger] ic0.contains_key(k) && k != keyv
                    implies entry_value(segsv1, ic0[k]) == entry_value(segsv0, ic0[k]) by {
                    let e = ic0[k];
                    assert(entry_ok(segsv0, k, e));
                    lemma_entry_preserved(segsv0, segsv1, num, old_data, encv, k, e);
                }
            }
            assert(replay(segsv1) == self.model()) by {
                lemma_apply_snoc(replay(segsv0.drop_last()), records_of(old_data), r);
            }
            lemma_live_sum_insert(ic0, keyv, cp@);
            assert(live_sum(self.contents()) <= total_len(segsv1));
            assert(self.wf());
        }
        if self.uncompacted >= MAX_WAL_SIZE_THRESHOLD {
            match self.run_compaction() {
                _ => {}
            }
        }
        Ok(())
    }

    /// Append a `Rm` tombstone and drop the key's index entry; fails with
    /// `KeyNotFound`, changing nothing, when the key is absent.  The
    /// stale counter grows by the removed record's length, and once it
    /// reaches the threshold, compaction runs.
    pub fn remove(&mut self, key: String) -> (r: Result<(), KvsError>)
        requires
            old(self).wf(),
        ensures
            final(self).wf(),
            match r {
                Ok(_) => old(self).model().contains_key(key@)
                    && final(self).model() == old(self).model().remove(key@)
                    && final(self).uncompacted as int == counter_after(
                        old(self).uncompacted as int,
                        stale_len(old(self).contents(), key@),
                        old(self).active_wal,
                    )
                    && final(self).pending@.len() > old(self).pending@.len()
                    && (forall|q: int| 0 <= q < old(self).pending@.len()
                        ==> final(self).pending@[q] == old(self).pending@[q])
                    && match final(self).pending@[old(self).pending@.len() as int] {
                        DiskOp::Append { walfile_num, data } => walfile_num == old(self).active_wal
                            && data@ == rec_encode(Rec::Rm { key: key@ }),
                        _ => false,
                    },
                Err(e) => !old(self).model().contains_key(key@)
                    && (e matches KvsError::KeyNotFound)
                    && final(self).model() == old(self).model()
                    && final(self).uncompacted == old(self).uncompacted
                    && final(self).pending@ == old(self).pending@,
            },
    {
        let ghost segsv0 = old(self).segs();
        let ghost ic0 = old(self).contents();
        let ghost keyv = key@;
        let probe = dm_get(&self.index, &key);
        if probe.is_none() {
            return Err(KvsError::KeyNotFound);
        }
        let cmd = Command::Rm { key: key.clone() };
        let enc = encode_record(&cmd);
        let ghost r = cmd_rec(&cmd);
        let ghost encv = enc@;
        let mut last = self.segments.pop().unwrap();
        let ghost old_data = last.data@;
        last.data.append(enc.as_str());
        let num = last.num;
        self.segments.push(last);
        self.pending.push(DiskOp::Append { walfile_num: num, data: enc });
        proof {
            assert(old_data == segsv0.last().data);
            lemma_append_record_segs(segsv0, self.segs(), num, old_data, encv, r);
        }
        let removed = dm_remove(&mut self.index, &key);
        match removed {
            Some(old_cmd) => {
                self.uncompacted = sat_add(self.uncompacted, old_cmd.len);
            }
            None => {
                proof {
                    assert(false);
                }
            }
        }
        proof {
            let segsv1 = self.segs();
            assert(r == Rec::Rm { key: keyv });
            assert forall|k: Seq<char>| #[trigger] self.contents().contains_key(k)
                implies entry_ok(segsv1, k, self.contents()[k]) by {
                let e = ic0[k];
                assert(entry_ok(segsv0, k, e));
                lemma_entry_preserved(segsv0, segsv1, num, old_data, encv, k, e);
            }
            assert(self.model() =~= old(self).model().remove(keyv)) by {
                assert forall|k: Seq<char>| #[trigger] ic0.contains_key(k) && k != keyv
                    implies entry_value(segsv1, ic0[k]) == entry_value(segsv0, ic0[k]) by {
                    let e = ic0[k];
                    assert(entry_ok(segsv0, k, e));
                    lemma_entry_preserved(segsv0, segsv1, num, old_data, encv, k, e);
                }
            }
            assert(replay(segsv1) == self.model()) by {
                lemma_apply_snoc(replay(segsv0.drop_last()), records_of(old_data), r);
            }
            lemma_live_sum_remove(ic0, keyv);
            assert(live_sum(self.contents()) <= total_len(segsv1));
            assert(self.wf());
        }
        if self.uncompacted >= MAX_WAL_SIZE_THRESHOLD {
            match self.run_compaction() {
                _ => {}
            }
        }
        Ok(())
    }

    /// Rewrite every live record into a fresh compaction segment, point
    /// the whole index at it, retire all older segments, and continue
    /// appending into a new active segment two above the old one.  The
    /// observable map does not change, the store shrinks to exactly its
    /// live bytes, and the stale counter resets.  It fails only when the
    /// segment numbers are exhausted, and then changes nothing.
    #[verifier::rlimit(60)]
    pub fn run_compaction(&mut self) -> (r: Result<(), KvsError>)
        requires
            old(self).wf(),
        ensures
            final(self).wf(),
            final(self).model() == old(self).model(),
            final(self).pending@.len() >= old(self).pending@.len(),
            forall|q: int| 0 <= q < old(self).pending@.len()
                ==> final(self).pending@[q] == old(self).pending@[q],
            match r {
                Ok(_) => old(self).active_wal < u64::MAX - 1
                    && final(self).uncompacted == 0
                    && final(self).active_wal == old(self).active_wal + 2
                    && final(self).segs().len() == 2
                    && final(self).segs()[0].num == old(self).active_wal + 1
                    && final(self).segs()[1] == (SegV {
                        num: (old(self).active_wal + 2) as u64,
                        data: Seq::<char>::empty(),
                    })
                    && total_len(final(self).segs()) <= total_len(old(self).segs())
                    && total_len(final(self).segs()) == live_sum(final(self).contents())
                    && (forall|k: Seq<char>| #[trigger] final(self).contents().contains_key(k)
                        ==> final(self).contents()[k].0 == old(self).active_wal + 1)
                    && compacted_shape(
                        records_of(seg_data(final(self).segs(), (old(self).active_wal + 1) as u64)),
                        old(self).model(),
                    )
                    && seg_data(final(self).segs(), (old(self).active_wal + 1) as u64)
                        == crate::codec::encode_all(records_of(
                            seg_data(final(self).segs(), (old(self).active_wal + 1) as u64),
                        ))
                    && compaction_effects(
                        old(self).pending@,
                        final(self).pending@,
                        old(self).segs(),
                        final(self).segs(),
                        old(self).active_wal,
                    ),
                Err(_) => old(self).active_wal >= u64::MAX - 1
                    && final(self).segs() == old(self).segs()
                    && final(self).contents() == old(self).contents()
                    && final(self).active_wal == old(self).active_wal
                    && final(self).uncompacted == old(self).uncompacted
                    && final(self).pending@ == old(self).pending@,
            },
    {
        if self.active_wal >= u64::MAX - 1 {
            return Err(KvsError::Message(String::from_str("segment numbers exhausted")));
        }
        let c_num = self.active_wal + 1;
        let new_active = self.active_wal + 2;
        let ghost segsv0 = self.segs();
        let ghost ic0 = self.contents();
        let ghost model0 = self.model();
        self.pending.push(DiskOp::Create { walfile_num: c_num });
        self.pending.push(DiskOp::Create { walfile_num: new_active });

        let entries = dm_entries(&self.index);
        let en = entries.len();
        proof {
            assert forall|j: int| 0 <= j < en implies #[trigger] entries@[j].1@.0 < c_num by {
                let k = entries@[j].0@;
                assert(ic0.contains_key(k) && ic0[k] == entries@[j].1@);
                assert(entry_ok(segsv0, k, ic0[k]));
                lemma_has_seg_iff(segsv0, entries@[j].1@.0);
                let si = choose|si: int| 0 <= si < segsv0.len() && #[trigger] segsv0[si].num == entries@[j].1@.0;
                if si < segsv0.len() - 1 {
                    assert(segsv0[si].num < segsv0[segsv0.len() - 1].num);
                }
            }
        }
        let mut c_data = String::new();
        let ghost mut crecs: Seq<Rec> = Seq::empty();
        let ghost pending1 = self.pending@;
        proof {
            lemma_stream_empty(Seq::<char>::empty());
        }
        let mut i: usize = 0;
        while i < en
            invariant
                i <= en,
                en == entries@.len(),
                old(self).wf(),
                segsv0 == old(self).segs(),
                ic0 == old(self).contents(),
                model0 == old(self).model(),
                self.segs() == segsv0,
                self.active_wal == old(self).active_wal,
                self.active_wal < u64::MAX - 1,
                c_num == self.active_wal + 1,
                forall|j1: int, j2: int| 0 <= j1 < j2 < en
                    ==> #[trigger] entries@[j1].0@ != #[trigger] entries@[j2].0@,
                forall|j: int| 0 <= j < en
                    ==> ic0.contains_key(#[trigger] entries@[j].0@)
                        && ic0[entries@[j].0@] == entries@[j].1@,
                forall|k: Seq<char>| #[trigger] ic0.contains_key(k)
                    ==> exists|j: int| 0 <= j < en && #[trigger] entries@[j].0@ == k,
                forall|j: int| 0 <= j < en ==> #[trigger] entries@[j].1@.0 < c_num,
                self.contents().dom() == ic0.dom(),
                forall|j: int| i <= j < en
                    ==> self.contents()[#[trigger] entries@[j].0@] == entries@[j].1@,
                forall|j: int| 0 <= j < i
                    ==> {
                        let k = #[trigger] entries@[j].0@;
                        let e = self.contents()[k];
                        &&& e.0 == c_num
                        &&& entry_ok(segsv0.push(SegV { num: c_num, data: c_data@ }), k, e)
                        &&& entry_value(segsv0.push(SegV { num: c_num, data: c_data@ }), e) == model0[k]
                    },
                valid_stream(c_data@),
                records_of(c_data@) == crecs,
                crecs.len() == i,
                forall|j: int| 0 <= j < i ==> #[trigger] crecs[j] == (Rec::Put {
                    key: entries@[j].0@,
                    value: model0[entries@[j].0@],
                }),
                self.contents().dom().finite(),
                live_sum(self.contents()) == live_sum(ic0),
                c_data@.len() == psum(entries@, i as int),
                self.pending@ == pending1,
            decreases en - i,
        {
            let k_ref = &entries[i].0;
            let cp = entries[i].1;
            let ghost keyv = k_ref@;
            proof {
                assert(ic0.contains_key(keyv) && ic0[keyv] == cp@);
                assert(entry_ok(segsv0, keyv, cp@));
                assert(model0.contains_key(keyv));
                assert(model0[keyv] == entry_value(segsv0, cp@));
            }
            if cp.walfile_num >= c_num {
                proof {
                    assert(false);
                }
                i = i + 1;
                continue;
            }
            let sidx = match find_seg(&self.segments, cp.walfile_num) {
                Some(s) => s,
                None => {
                    proof {
                        assert(false);
                    }
                    return Err(KvsError::Message(String::from_str("reader not found")));
                }
            };
            let seg = &self.segments[sidx];
            proof {
                lemma_seg_data_at(segsv0, sidx as int);
                assert(seg_data(segsv0, cp.walfile_num) == seg.data@);
            }
            let dlen = seg.data.as_str().unicode_len();
            let ghost p = parse_rec_at(seg.data@, cp.pos as int).unwrap();
            proof {
                lemma_parse_canonical(seg.data@, cp.pos as int, p.0, p.1);
                assert(cp.pos + cp.len <= dlen);
            }
            let pos_us = cp.pos as usize;
            let len_us = cp.len as usize;
            let chunk = seg.data.as_str().substring_char(pos_us, pos_us + len_us);
            let ghost c_old = c_data@;
            let c_pos = c_data.as_str().unicode_len();
            c_data.append(chunk);
            let c_end = c_data.as_str().unicode_len();
            let cp2 = CommandPos {
                walfile_num: c_num,
                pos: c_pos as u64,
                len: (c_end - c_pos) as u64,
            };
            let ghost ic_before = self.contents();
            let key_clone = k_ref.clone();
            let _displaced = dm_insert(&mut self.index, key_clone, cp2);
            proof {
                let rj = p.0;
                assert(chunk@ == rec_encode(rj));
                assert(rj == (Rec::Put { key: keyv, value: model0[keyv] }));
                lemma_stream_snoc(c_old, rj);
                crecs = crecs.push(rj);
                let vsegs = segsv0.push(SegV { num: c_num, data: c_data@ });
                assert(seg_data(vsegs, c_num) == c_data@);
                assert(has_seg(vsegs, c_num));
                assert(parse_rec_at(c_data@, c_pos as int) == Some((rj, c_pos + cp.len))) by {
                    lemma_parse_encode(c_old, rj, Seq::empty());
                    assert(c_old + rec_encode(rj) + Seq::<char>::empty() =~= c_old + rec_encode(rj));
                }
                assert(entry_ok(vsegs, keyv, cp2@));
                assert(entry_value(vsegs, cp2@) == model0[keyv]);
                // the rewritten record is exactly as long as the one it replaces
                assert(ic_before.contains_key(keyv) && ic_before[keyv] == cp@);
                lemma_live_sum_insert(ic_before, keyv, cp2@);
                assert(cp2@.2 == cp@.2);
                assert(psum(entries@, i + 1) == psum(entries@, i as int) + cp@.2);
                // previously rewritten entries still parse in the longer data
                assert forall|j: int| 0 <= j < i implies {
                    let k2 = #[trigger] entries@[j].0@;
                    let e2 = self.contents()[k2];
                    &&& e2.0 == c_num
                    &&& entry_ok(vsegs, k2, e2)
                    &&& entry_value(vsegs, e2) == model0[k2]
                } by {
                    let k2 = entries@[j].0@;
                    assert(k2 != keyv);
                    let e2 = ic_before[k2];
                    let vsegs_old = segsv0.push(SegV { num: c_num, data: c_old });
                    assert(entry_ok(vsegs_old, k2, e2));
                    assert(seg_data(vsegs_old, e2.0) == c_old);
                    let p2 = parse_rec_at(c_old, e2.1 as int).unwrap();
                    lemma_parse_stable(c_old, chunk@, e2.1 as int, p2.0, p2.1);
                }
            }
            i = i + 1;
        }

        // Retire everything below the compaction segment and switch to the
        // new layout: the compacted segment plus a fresh active one.
        let c_copy = c_data.clone();
        self.pending.push(DiskOp::Append { walfile_num: c_num, data: c_copy });
        let ghost ic1 = self.contents();
        let ghost cdv = c_data@;
        proof {
            assert(ic1.dom() == ic0.dom());
            assert(ic1.dom().finite());
            assert(live_sum(ic1) == live_sum(ic0));
            lemma_pairs_sum(entries@, ic0);
            assert(c_data@.len() == live_sum(ic0));
            assert(live_sum(ic0) <= total_len(segsv0));
            assert(forall|j: int| 0 <= j < en
                ==> {
                    let k = #[trigger] entries@[j].0@;
                    let e = ic1[k];
                    &&& e.0 == c_num
                    &&& entry_ok(segsv0.push(SegV { num: c_num, data: cdv }), k, e)
                    &&& entry_value(segsv0.push(SegV { num: c_num, data: cdv }), e) == model0[k]
                });
        }
        let ghost pending2 = self.pending@;
        let mut j: usize = 0;
        let seg_count = self.segments.len();
        while j < seg_count
            invariant
                j <= seg_count,
                seg_count == self.segments@.len(),
                self.segs() == segsv0,
                self.contents() == ic1,
                self.pending@.len() == pending2.len() + j,
                forall|q: int| 0 <= q < pending2.len() ==> self.pending@[q] == pending2[q],
                forall|q: int| 0 <= q < j ==> match #[trigger] self.pending@[pending2.len() + q] {
                    DiskOp::Delete { walfile_num } => walfile_num == segsv0[q].num,
                    _ => false,
                },
            decreases seg_count - j,
        {
            let old_num = self.segments[j].num;
            proof {
                assert(old_num == segsv0[j as int].num);
            }
            self.pending.push(DiskOp::Delete { walfile_num: old_num });
            j = j + 1;
        }
        let mut new_segments: Vec<Segment> = Vec::new();
        new_segments.push(Segment { num: c_num, data: c_data });
        new_segments.push(Segment { num: new_active, data: String::new() });
        self.segments = new_segments;
        self.active_wal = new_active;
        self.uncompacted = 0;
        proof {
            reveal_with_fuel(seg_data, 4);
            reveal_with_fuel(has_seg, 4);
            reveal_with_fuel(replay, 4);
            let ghost c_final = crecs;
            let segs2 = self.segs();
            assert(segs2.len() == 2);
            assert(segs2[0].num == c_num && segs2[1].num == new_active);
            assert(self.contents() == ic1);
            assert(segs2[0].data == cdv);
            let vsegs = segsv0.push(SegV { num: c_num, data: cdv });
            assert(seg_data(segs2, c_num) == segs2[0].data && has_seg(segs2, c_num)) by {
                reveal_with_fuel(seg_data, 4);
                reveal_with_fuel(has_seg, 4);
                assert(segs2.drop_last() =~= seq![segs2[0]]);
                assert(seq![segs2[0]].last() == segs2[0]);
            }
            assert(seg_data(vsegs, c_num) == segs2[0].data);
            lemma_stream_empty(Seq::<char>::empty());
            // entry facts carry from the virtual layout to the final one
            assert forall|k: Seq<char>| #[trigger] self.contents().contains_key(k)
                implies entry_ok(segs2, k, self.contents()[k])
                    && entry_value(segs2, self.contents()[k]) == model0[k] by {
                assert(ic0.contains_key(k));
                let jx = choose|jx: int| 0 <= jx < en && #[trigger] entries@[jx].0@ == k;
                let e = self.contents()[k];
                assert(entry_ok(vsegs, k, e) && entry_value(vsegs, e) == model0[k]);
                assert(e.0 == c_num);
                assert(seg_data(segs2, e.0) == seg_data(vsegs, e.0));
            }
            assert(self.model() =~= model0);
            // replaying just the compacted and active segments rebuilds the map
            lemma_apply_puts(Map::empty(), c_final);
            assert(apply_recs(Map::empty(), c_final) =~= model0) by {
                assert forall|k: Seq<char>| #[trigger] model0.contains_key(k)
                    implies apply_recs(Map::empty(), c_final).contains_key(k)
                        && apply_recs(Map::empty(), c_final)[k] == model0[k] by {
                    let jx = choose|jx: int| 0 <= jx < en && #[trigger] entries@[jx].0@ == k;
                    assert(crec_key(c_final[jx]) == k);
                    assert forall|j2: int| jx < j2 < c_final.len()
                        implies crec_key(#[trigger] c_final[j2]) != k by {
                        assert(entries@[jx].0@ != entries@[j2].0@);
                    }
                }
                assert forall|k: Seq<char>| #[trigger] apply_recs(Map::empty(), c_final).contains_key(k)
                    implies model0.contains_key(k) by {
                    let jx = choose|jx: int| 0 <= jx < c_final.len() && crec_key(#[trigger] c_final[jx]) == k;
                    assert(entries@[jx].0@ == k);
                }
            }
            assert(replay(segs2) == apply_recs(apply_recs(Map::empty(), records_of(segs2[0].data)), records_of(segs2[1].data))) by {
                reveal_with_fuel(replay, 4);
                assert(segs2.drop_last() =~= seq![segs2[0]]);
                assert(seq![segs2[0]].drop_last() =~= Seq::<SegV>::empty());
                assert(seq![segs2[0]].last() == segs2[0]);
                assert(replay(Seq::<SegV>::empty()) == Map::<Seq<char>, Seq<char>>::empty());
            }
            assert(records_of(segs2[1].data) == Seq::<Rec>::empty());
            assert(replay(segs2) == self.model());
            assert(total_len(segs2) == segs2[0].data.len()) by {
                reveal_with_fuel(total_len, 4);
                assert(segs2.drop_last() =~= seq![segs2[0]]);
                assert(seq![segs2[0]].drop_last() =~= Seq::<SegV>::empty());
                assert(seq![segs2[0]].last() == segs2[0]);
            }
            assert(total_len(segs2) <= total_len(segsv0));
            assert(live_sum(self.contents()) <= total_len(segs2));
            assert forall|q: int| 0 <= q < old(self).pending@.len()
                implies self.pending@[q] == old(self).pending@[q] by {
                assert(self.pending@[q] == pending2[q]);
                assert(pending2[q] == pending1[q]);
            }
            assert(segs2[1] == (SegV { num: new_active, data: Seq::<char>::empty() }));
            crate::codec::lemma_stream_canonical(cdv);
            assert(seg_data(segs2, c_num) == crate::codec::encode_all(records_of(seg_data(segs2, c_num))));
            assert(compaction_effects(old(self).pending@, self.pending@, segsv0, segs2, old(self).active_wal)) by {
                let base = old(self).pending@.len() as int;
                assert(pending1.len() == base + 2);
                assert(pending2.len() == base + 3);
                assert(self.pending@.len() == base + 3 + segsv0.len());
                assert(self.pending@[base] == pending2[base]);
                assert(self.pending@[base + 1] == pending2[base + 1]);
                assert(pending2[base] == pending1[base]);
                assert(pending2[base + 1] == pending1[base + 1]);
                assert(self.pending@[base] == pending1[base]);
                assert(self.pending@[base + 1] == pending1[base + 1]);
                assert(self.pending@[base + 2] == pending2[base + 2]);
                assert forall|j2: int| 0 <= j2 < segsv0.len()
                    implies match #[trigger] self.pending@[base + 3 + j2] {
                        DiskOp::Delete { walfile_num } => walfile_num == segsv0[j2].num,
                        _ => false,
                    } by {
                    assert(match self.pending@[pending2.len() + j2] {
                        DiskOp::Delete { walfile_num } => walfile_num == segsv0[j2].num,
                        _ => false,
                    });
                }
            }
            assert forall|k: Seq<char>| #[trigger] self.contents().contains_key(k)
                implies self.contents()[k].0 == c_num by {
                let jx = choose|jx: int| 0 <= jx < en && #[trigger] entries@[jx].0@ == k;
            }
            assert(self.wf());
            assert(compacted_shape(records_of(seg_data(segs2, c_num)), model0));
        }
        Ok(())
    }
}

impl KvStore {
    /// Hand over the directory changes recorded since the last call, in
    /// the order they must reach the files.
    pub fn take_effects(&mut self) -> (ops: Vec<DiskOp>)
        ensures
            ops@ == old(self).pending@,
            final(self).pending@.len() == 0,
            final(self).segs() == old(self).segs(),
            final(self).contents() == old(self).contents(),
            final(self).active_wal == old(self).active_wal,
            final(self).uncompacted == old(self).uncompacted,
            old(self).wf() ==> final(self).wf(),
    {
        let mut ops: Vec<DiskOp> = Vec::new();
        core::mem::swap(&mut ops, &mut self.pending);
        ops
    }
}

/// The file name of the segment numbered `n`.
pub open spec fn wal_name(n: nat) -> Seq<char> {
    seq!['w', 'a', 'l', '_'] + crate::codec::dec_str(n) + seq!['.', 'l', 'o', 'g']
}

/// Render the file name that holds the given segment.
pub fn log_path(walfile_num: u64) -> (s: String)
    ensures
        s@ == wal_name(walfile_num as nat),
{
    let mut s = String::new();
    crate::codec::push_char(&mut s, 'w');
    crate::codec::push_char(&mut s, 'a');
    crate::codec::push_char(&mut s, 'l');
    crate::codec::push_char(&mut s, '_');
    let digits = crate::codec::u64_to_string(walfile_num);
    s.append(digits.as_str());
    crate::codec::push_char(&mut s, '.');
    crate::codec::push_char(&mut s, 'l');
    crate::codec::push_char(&mut s, 'o');
    crate::codec::push_char(&mut s, 'g');
    proof {
        assert(s@ =~= wal_name(walfile_num as nat));
    }
    s
}

/// The segment number a directory entry's name carries, if the name has
/// the segment shape `wal_<digits>.log` with a value that fits a `u64`.
pub open spec fn parse_wal_name(s: Seq<char>) -> Option<u64> {
    if s.len() >= 9
        && s.subrange(0, 4) == seq!['w', 'a', 'l', '_']
        && s.subrange(s.len() - 4, s.len() as int) == seq!['.', 'l', 'o', 'g'] {
        let mid = s.subrange(4, s.len() - 4);
        if crate::codec::all_digits(mid) && val_digits(mid) <= u64::MAX {
            Some(val_digits(mid) as u64)
        } else {
            None
        }
    } else {
        None
    }
}

/// Read a segment number out of a file name.
#[verifier::loop_isolation(false)]
pub fn parse_wal_filename(name: &str) -> (r: Option<u64>)
    ensures
        r == parse_wal_name(name@),
{
    let ghost s = name@;
    let n = name.unicode_len();
    if n < 9 {
        return None;
    }
    if !(name.get_char(0) == 'w' && name.get_char(1) == 'a' && name.get_char(2) == 'l'
        && name.get_char(3) == '_') {
        proof {
            if s.subrange(0, 4) == seq!['w', 'a', 'l', '_'] {
                assert(s.subrange(0, 4)[0] == 'w' && s.subrange(0, 4)[1] == 'a'
                    && s.subrange(0, 4)[2] == 'l' && s.subrange(0, 4)[3] == '_');
            }
        }
        return None;
    }
    if !(name.get_char(n - 4) == '.' && name.get_char(n - 3) == 'l' && name.get_char(n - 2) == 'o'
        && name.get_char(n - 1) == 'g') {
        proof {
            if s.subrange(s.len() - 4, s.len() as int) == seq!['.', 'l', 'o', 'g'] {
                let suf = s.subrange(s.len() - 4, s.len() as int);
                assert(suf[0] == '.' && suf[1] == 'l' && suf[2] == 'o' && suf[3] == 'g');
            }
        }
        return None;
    }
    proof {
        assert(s.subrange(0, 4) =~= seq!['w', 'a', 'l', '_']);
        assert(s.subrange(s.len() - 4, s.len() as int) =~= seq!['.', 'l', 'o', 'g']);
    }
    let ghost mid = s.subrange(4, s.len() - 4);
    let mut acc: u128 = 0;
    let mut i: usize = 4;
    proof {
        assert(val_digits(mid.subrange(0, 0)) == 0);
    }
    while i < n - 4
        invariant
            4 <= i <= n - 4,
            acc as int == val_digits(mid.subrange(0, i - 4)),
            acc <= u64::MAX,
            forall|q: int| 0 <= q < i - 4 ==> crate::codec::is_digit(#[trigger] mid[q]),
        decreases n - i,
    {
        let c = name.get_char(i);
        proof {
            assert(c == mid[i - 4]);
        }
        let d = match crate::codec::char_digit_pub(c) {
            Some(d) => d,
            None => {
                proof {
                    assert(!crate::codec::all_digits(mid));
                }
                return None;
            }
        };
        proof {
            let u = mid.subrange(0, i - 4);
            let w = mid.subrange(0, i - 4 + 1);
            assert(w.drop_last() =~= u);
            assert(w.last() == mid[i - 4]);
        }
        acc = acc * 10 + d as u128;
        if acc > u64::MAX as u128 {
            proof {
                if crate::codec::all_digits(mid) {
                    crate::resp::de::lemma_val_monotone(mid, 0, i - 4 + 1, mid.len() as int);
                    assert(mid.subrange(0, mid.len() as int) =~= mid);
                }
            }
            return None;
        }
        i = i + 1;
    }
    proof {
        assert(mid.subrange(0, mid.len() as int) =~= mid);
        assert(crate::codec::all_digits(mid));
    }
    Some(acc as u64)
}

/// Keep the output sorted while adding one more number.
#[verifier::loop_isolation(false)]
fn insert_sorted(nums: &mut Vec<u64>, v: u64)
    requires
        forall|a: int, b: int| 0 <= a < b < old(nums)@.len()
            ==> #[trigger] old(nums)@[a] <= #[trigger] old(nums)@[b],
    ensures
        forall|a: int, b: int| 0 <= a < b < final(nums)@.len()
            ==> #[trigger] final(nums)@[a] <= #[trigger] final(nums)@[b],
        forall|x: u64| final(nums)@.contains(x) <==> (old(nums)@.contains(x) || x == v),
{
    let n = nums.len();
    let mut i: usize = 0;
    while i < n && nums[i] <= v
        invariant
            i <= n,
            n == nums@.len(),
            nums@ == old(nums)@,
            forall|q: int| 0 <= q < i ==> #[trigger] nums@[q] <= v,
        decreases n - i,
    {
        i = i + 1;
    }
    nums.insert(i, v);
    proof {
        let newv = nums@;
        let oldv = old(nums)@;
        assert(newv[i as int] == v);
        assert(forall|q: int| 0 <= q < i ==> newv[q] == oldv[q]);
        assert(forall|q: int| i < q < newv.len() ==> newv[q] == oldv[q - 1]);
        assert forall|a: int, b: int| 0 <= a < b < newv.len()
            implies #[trigger] newv[a] <= #[trigger] newv[b] by {
            if a < i && b == i {
            } else if a == i && b > i {
                assert(newv[b] == oldv[b - 1]);
                assert(oldv[b - 1] > v || oldv[b - 1] >= v) by {
                    if i < n {
                        assert(oldv[i as int] > v);
                        if b - 1 > i {
                            assert(oldv[i as int] <= oldv[b - 1]);
                        }
                    }
                }
            } else if a < i && b > i {
                assert(newv[a] == oldv[a] && newv[b] == oldv[b - 1]);
                if a < b - 1 {
                    assert(oldv[a] <= oldv[b - 1]);
                }
            } else if a > i && b > i {
                assert(newv[a] == oldv[a - 1] && newv[b] == oldv[b - 1]);
                assert(oldv[a - 1] <= oldv[b - 1]);
            }
        }
        assert forall|x: u64| final(nums)@.contains(x) implies (oldv.contains(x) || x == v) by {
            let j = choose|j: int| 0 <= j < newv.len() && newv[j] == x;
            if j < i {
                assert(oldv[j] == x);
            } else if j > i {
                assert(oldv[j - 1] == x);
            }
        }
        assert forall|x: u64| (oldv.contains(x) || x == v) implies final(nums)@.contains(x) by {
            if x == v {
                assert(newv[i as int] == x);
            } else {
                let j = choose|j: int| 0 <= j < oldv.len() && oldv[j] == x;
                if j < i {
                    assert(newv[j] == x);
                } else {
                    assert(newv[j + 1] == x);
                }
            }
        }
    }
}

/// Scan a directory listing for segment files and return their numbers in
/// ascending order.
#[verifier::loop_isolation(false)]
pub fn sorted_walfile_nums(names: &Vec<String>) -> (r: Vec<u64>)
    ensures
        forall|a: int, b: int| 0 <= a < b < r@.len() ==> #[trigger] r@[a] <= #[trigger] r@[b],
        forall|x: u64| r@.contains(x)
            <==> exists|j: int| 0 <= j < names@.len()
                && parse_wal_name(#[trigger] names@[j]@) == Some(x),
{
    let n = names.len();
    let mut out: Vec<u64> = Vec::new();
    let mut i: usize = 0;
    while i < n
        invariant
            i <= n,
            n == names@.len(),
            forall|a: int, b: int| 0 <= a < b < out@.len() ==> #[trigger] out@[a] <= #[trigger] out@[b],
            forall|x: u64| out@.contains(x)
                <==> exists|j: int| 0 <= j < i
                    && parse_wal_name(#[trigger] names@[j]@) == Some(x),
        decreases n - i,
    {
        let ghost out0 = out@;
        match parse_wal_filename(names[i].as_str()) {
            Some(v) => {
                insert_sorted(&mut out, v);
                proof {
                    assert forall|x: u64| out@.contains(x)
                        implies exists|j: int| 0 <= j < i + 1
                            && parse_wal_name(#[trigger] names@[j]@) == Some(x) by {
                        if out0.contains(x) {
                            let j = choose|j: int| 0 <= j < i
                                && parse_wal_name(#[trigger] names@[j]@) == Some(x);
                            assert(parse_wal_name(names@[j]@) == Some(x));
                        } else {
                            assert(parse_wal_name(names@[i as int]@) == Some(x));
                        }
                    }
                    assert forall|x: u64| (exists|j: int| 0 <= j < i + 1
                            && parse_wal_name(#[trigger] names@[j]@) == Some(x))
                        implies out@.contains(x) by {
                        let j = choose|j: int| 0 <= j < i + 1
                            && parse_wal_name(#[trigger] names@[j]@) == Some(x);
                        if j < i {
                            assert(out0.contains(x));
                        }
                    }
                }
            }
            None => {
                proof {
                    assert forall|x: u64| out@.contains(x)
                        implies exists|j: int| 0 <= j < i + 1
                            && parse_wal_name(#[trigger] names@[j]@) == Some(x) by {
                        let j = choose|j: int| 0 <= j < i
                            && parse_wal_name(#[trigger] names@[j]@) == Some(x);
                        assert(parse_wal_name(names@[j]@) == Some(x));
                    }
                    assert forall|x: u64| (exists|j: int| 0 <= j < i + 1
                            && parse_wal_name(#[trigger] names@[j]@) == Some(x))
                        implies out@.contains(x) by {
                        let j = choose|j: int| 0 <= j < i + 1
                            && parse_wal_name(#[trigger] names@[j]@) == Some(x);
                        assert(j < i);
                    }
                }
            }
        }
        i = i + 1;
    }
    out
}

/// One record's effect while replaying: the per-key record lengths and
/// the stale-character count move exactly as the log's rules say — an
/// overwrite or a removal counts the displaced record's length, a removal
/// that found nothing counts its own tombstone, every sum stopping at
/// `u64::MAX`.
pub open spec fn stale_rec(st: (Map<Seq<char>, int>, int), r: Rec) -> (Map<Seq<char>, int>, int) {
    match r {
        Rec::Put { key, .. } => (
            st.0.insert(key, rec_encode(r).len() as int),
            if st.0.contains_key(key) {
                sat_add_spec(st.1, st.0[key])
            } else {
                st.1
            },
        ),
        Rec::Rm { key } => if st.0.contains_key(key) {
            (st.0.remove(key), sat_add_spec(st.1, st.0[key]))
        } else {
            (st.0, sat_add_spec(st.1, rec_encode(r).len() as int))
        },
    }
}

pub open spec fn stale_recs(st: (Map<Seq<char>, int>, int), rs: Seq<Rec>) -> (Map<Seq<char>, int>, int)
    decreases rs.len(),
{
    if rs.len() == 0 {
        st
    } else {
        stale_recs(stale_rec(st, rs[0]), rs.drop_first())
    }
}

/// The per-key record lengths and the stale count that replaying whole
/// segments in order leaves behind.
pub open spec fn stale_segs(segs: Seq<SegV>) -> (Map<Seq<char>, int>, int)
    decreases segs.len(),
{
    if segs.len() == 0 {
        (Map::empty(), 0)
    } else {
        stale_recs(stale_segs(segs.drop_last()), records_of(segs.last().data))
    }
}

pub proof fn lemma_stale_snoc(st: (Map<Seq<char>, int>, int), rs: Seq<Rec>, r: Rec)
    ensures
        stale_recs(st, rs.push(r)) == stale_rec(stale_recs(st, rs), r),
    decreases rs.len(),
{
    if rs.len() == 0 {
        reveal_with_fuel(stale_recs, 2);
        assert(rs.push(r)[0] == r);
        assert(rs.push(r).drop_first() =~= Seq::<Rec>::empty());
        assert(stale_recs(stale_rec(st, r), Seq::<Rec>::empty()) == stale_rec(st, r));
    } else {
        assert(rs.push(r)[0] == rs[0]);
        assert(rs.push(r).drop_first() =~= rs.drop_first().push(r));
        lemma_stale_snoc(stale_rec(st, rs[0]), rs.drop_first(), r);
    }
}

/// The directory changes one compaction records, in order: create the
/// compaction segment and the new active one, write the compacted data,
/// then delete every retired segment.
pub open spec fn compaction_effects(
    pend0: Seq<DiskOp>,
    pend1: Seq<DiskOp>,
    segs0: Seq<SegV>,
    segs1: Seq<SegV>,
    active0: u64,
) -> bool {
    let base = pend0.len() as int;
    &&& pend1.len() == base + 3 + segs0.len()
    &&& match pend1[base] {
        DiskOp::Create { walfile_num } => walfile_num == active0 + 1,
        _ => false,
    }
    &&& match pend1[base + 1] {
        DiskOp::Create { walfile_num } => walfile_num == active0 + 2,
        _ => false,
    }
    &&& match pend1[base + 2] {
        DiskOp::Append { walfile_num, data } => walfile_num == active0 + 1
            && data@ == seg_data(segs1, (active0 + 1) as u64),
        _ => false,
    }
    &&& forall|j: int| 0 <= j < segs0.len() ==> match #[trigger] pend1[base + 3 + j] {
        DiskOp::Delete { walfile_num } => walfile_num == segs0[j].num,
        _ => false,
    }
}

/// The key of a record.
pub open spec fn crec_key(r: Rec) -> Seq<char> {
    match r {
        Rec::Put { key, .. } => key,
        Rec::Rm { key } => key,
    }
}

/// A compacted record stream: one `Put` per live key, each carrying that
/// key's current value, every live key present exactly once.
pub open spec fn compacted_shape(rs: Seq<Rec>, m: Map<Seq<char>, Seq<char>>) -> bool {
    &&& forall|j: int| 0 <= j < rs.len() ==> #[trigger] rs[j] == (Rec::Put {
            key: crec_key(rs[j]),
            value: m[crec_key(rs[j])],
        }) && m.contains_key(crec_key(rs[j]))
    &&& forall|j1: int, j2: int| 0 <= j1 < j2 < rs.len()
            ==> crec_key(#[trigger] rs[j1]) != crec_key(#[trigger] rs[j2])
    &&& forall|k: Seq<char>| #[trigger] m.contains_key(k)
            ==> exists|j: int| 0 <= j < rs.len() && crec_key(#[trigger] rs[j]) == k
}

/// Find the position of the segment numbered `n`.
fn find_seg(segments: &Vec<Segment>, n: u64) -> (r: Option<usize>)
    ensures
        match r {
            Some(i) => i < segments@.len() && segs_view(segments@)[i as int].num == n,
            None => !has_seg(segs_view(segments@), n),
        },
{
    let ghost segsv = segs_view(segments@);
    let len = segments.len();
    let mut i: usize = 0;
    while i < len
        invariant
            i <= len,
            len == segments@.len(),
            segsv == segs_view(segments@),
            forall|j: int| 0 <= j < i ==> #[trigger] segsv[j].num != n,
        decreases len - i,
    {
        if segments[i].num == n {
            return Some(i);
        }
        i = i + 1;
    }
    proof {
        lemma_has_seg_iff(segsv, n);
    }
    None
}

/// Applying a sequence of `Put` records from any starting map: the last
/// `Put` for each key wins, and keys without a `Put` keep their entry.
pub proof fn lemma_apply_puts(m0: Map<Seq<char>, Seq<char>>, rs: Seq<Rec>)
    requires
        forall|j: int| 0 <= j < rs.len() ==> #[trigger] rs[j] matches Rec::Put { .. },
    ensures
        forall|k: Seq<char>| #[trigger] apply_recs(m0, rs).contains_key(k)
            <==> (m0.contains_key(k) || exists|j: int| 0 <= j < rs.len() && crec_key(#[trigger] rs[j]) == k),
        forall|j: int| 0 <= j < rs.len()
            && (forall|j2: int| j < j2 < rs.len() ==> crec_key(#[trigger] rs[j2]) != crec_key(rs[j]))
            ==> apply_recs(m0, rs)[crec_key(#[trigger] rs[j])] == rs[j]->Put_value,
    decreases rs.len(),
{
    if rs.len() > 0 {
        let front = rs.drop_last();
        let last = rs.last();
        assert(front.push(last) =~= rs);
        lemma_apply_snoc(m0, front, last);
        assert(forall|j: int| 0 <= j < front.len() ==> #[trigger] front[j] matches Rec::Put { .. }) by {
            assert(forall|j: int| 0 <= j < front.len() ==> front[j] == rs[j]);
        }
        lemma_apply_puts(m0, front);
        assert(apply_recs(m0, rs) == apply_recs(m0, front).insert(crec_key(last), last->Put_value));
        assert forall|k: Seq<char>| #[trigger] apply_recs(m0, rs).contains_key(k)
            implies (m0.contains_key(k) || exists|j: int| 0 <= j < rs.len() && crec_key(#[trigger] rs[j]) == k) by {
            if k == crec_key(last) {
                assert(crec_key(rs[rs.len() - 1]) == k);
            } else {
                assert(apply_recs(m0, front).contains_key(k));
                if !m0.contains_key(k) {
                    let jx = choose|jx: int| 0 <= jx < front.len() && crec_key(#[trigger] front[jx]) == k;
                    assert(crec_key(rs[jx]) == k);
                }
            }
        }
        assert forall|k: Seq<char>| (m0.contains_key(k) || exists|j: int| 0 <= j < rs.len() && crec_key(#[trigger] rs[j]) == k)
            implies #[trigger] apply_recs(m0, rs).contains_key(k) by {
            if k != crec_key(last) {
                if m0.contains_key(k) {
                } else {
                    let jx = choose|jx: int| 0 <= jx < rs.len() && crec_key(#[trigger] rs[jx]) == k;
                    assert(jx < front.len());
                    assert(crec_key(front[jx]) == k);
                }
            }
        }
        assert forall|j: int| 0 <= j < rs.len()
            && (forall|j2: int| j < j2 < rs.len() ==> crec_key(#[trigger] rs[j2]) != crec_key(rs[j]))
            implies apply_recs(m0, rs)[crec_key(#[trigger] rs[j])] == rs[j]->Put_value by {
            if j == rs.len() - 1 {
            } else {
                assert(crec_key(rs[rs.len() - 1]) != crec_key(rs[j]));
                assert(front[j] == rs[j]);
                assert(forall|j2: int| j < j2 < front.len() ==> crec_key(#[trigger] front[j2]) != crec_key(front[j])) by {
                    assert(forall|j2: int| j < j2 < front.len() ==> front[j2] == rs[j2]);
                }
                assert(apply_recs(m0, front)[crec_key(front[j])] == front[j]->Put_value);
            }
        }
    }
}

/// After appending one encoded record to the last segment, the other
/// segments are untouched, the last segment's stream grows by that
/// record, and the replayed map changes by exactly that record.
pub proof fn lemma_append_record_segs(
    segsv0: Seq<SegV>,
    segsv1: Seq<SegV>,
    num: u64,
    old_data: Seq<char>,
    encv: Seq<char>,
    r: Rec,
)
    requires
        segsv0.len() >= 1,
        segs_sorted(segsv0),
        forall|i: int| 0 <= i < segsv0.len() ==> valid_stream(#[trigger] segsv0[i].data),
        segsv0.last().num == num,
        segsv0.last().data == old_data,
        encv == rec_encode(r),
        rec_valid(r),
        segsv1 =~= segsv0.update(segsv0.len() - 1, SegV { num, data: old_data + encv }),
    ensures
        segsv1.len() == segsv0.len(),
        segs_sorted(segsv1),
        segsv1.last().num == num,
        forall|i: int| 0 <= i < segsv1.len() ==> #[trigger] segsv1[i].num == segsv0[i].num,
        forall|i: int| 0 <= i < segsv1.len() ==> valid_stream(#[trigger] segsv1[i].data),
        forall|n2: u64| n2 != num ==> seg_data(segsv1, n2) == seg_data(segsv0, n2)
            && (has_seg(segsv1, n2) <==> has_seg(segsv0, n2)),
        seg_data(segsv1, num) == old_data + encv,
        has_seg(segsv1, num),
        records_of(old_data + encv) == records_of(old_data).push(r),
        valid_stream(old_data + encv),
        replay(segsv1) == apply_rec(replay(segsv0), r),
        total_len(segsv1) == total_len(segsv0) + encv.len(),
{
    assert(segsv1.drop_last() =~= segsv0.drop_last());
    lemma_stream_snoc(old_data, r);
    assert forall|i: int| 0 <= i < segsv1.len() implies valid_stream(#[trigger] segsv1[i].data) by {
        if i < segsv1.len() - 1 {
            assert(segsv1[i] == segsv0[i]);
        }
    }
    assert forall|n2: u64| n2 != num implies seg_data(segsv1, n2) == seg_data(segsv0, n2)
        && (has_seg(segsv1, n2) <==> has_seg(segsv0, n2)) by {
        assert(seg_data(segsv1, n2) == seg_data(segsv1.drop_last(), n2));
        assert(seg_data(segsv0, n2) == seg_data(segsv0.drop_last(), n2));
        assert(has_seg(segsv1, n2) == has_seg(segsv1.drop_last(), n2));
        assert(has_seg(segsv0, n2) == has_seg(segsv0.drop_last(), n2));
    }
    lemma_apply_snoc(replay(segsv0.drop_last()), records_of(old_data), r);
    assert(replay(segsv1) == apply_recs(replay(segsv1.drop_last()), records_of(old_data + encv)));
}

/// An index entry that pointed at a well-formed record still does after
/// the last segment's data is extended.
pub proof fn lemma_entry_preserved(
    segsv0: Seq<SegV>,
    segsv1: Seq<SegV>,
    num: u64,
    old_data: Seq<char>,
    encv: Seq<char>,
    k: Seq<char>,
    e: (u64, u64, u64),
)
    requires
        entry_ok(segsv0, k, e),
        seg_data(segsv1, num) == old_data + encv,
        has_seg(segsv1, num),
        seg_data(segsv0, num) == old_data,
        forall|n2: u64| n2 != num ==> #[trigger] seg_data(segsv1, n2) == seg_data(segsv0, n2)
            && (has_seg(segsv1, n2) <==> has_seg(segsv0, n2)),
    ensures
        entry_ok(segsv1, k, e),
        entry_value(segsv1, e) == entry_value(segsv0, e),
{
    if e.0 == num {
        let p = parse_rec_at(old_data, e.1 as int).unwrap();
        lemma_parse_stable(old_data, encv, e.1 as int, p.0, p.1);
    } else {
        assert(seg_data(segsv1, e.0) == seg_data(segsv0, e.0));
    }
}

} // verus!
