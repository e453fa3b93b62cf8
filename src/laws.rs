use vstd::prelude::*;

use crate::codec::{parse_at, Record};
use crate::error::Error;
use crate::method::Method;
use crate::codec::record_size;
use crate::store::{
    concat_bytes, index_of, is_live, live_records, relocate, replay, values_of, Placed, Store,
};

verus! {

/// After a put of `v` under `k` is committed, the key is live, the index
/// points at the new record, and its value is `v`, whatever came before.
pub proof fn lemma_put_then_get(es: Seq<Placed>, p: u64, k: Seq<u8>, v: Seq<u8>)
    ensures
        ({
            let after = es.push((p, Record { key: k, value: v, mark: Method::Put }));
            &&& index_of(after).contains_key(k)
            &&& index_of(after)[k] == p
            &&& values_of(after).contains_key(k)
            &&& values_of(after)[k] == v
        }),
{
    let after = es.push((p, Record { key: k, value: v, mark: Method::Put }));
    assert(after.drop_last() =~= es);
}

/// After two puts under the same key, the later one wins: the index points at
/// the second record and the value is the second value, while both records
/// stay in the log.
pub proof fn lemma_overwrite(
    es: Seq<Placed>,
    p1: u64,
    p2: u64,
    k: Seq<u8>,
    v1: Seq<u8>,
    v2: Seq<u8>,
)
    ensures
        ({
            let after = es.push((p1, Record { key: k, value: v1, mark: Method::Put })).push(
                (p2, Record { key: k, value: v2, mark: Method::Put }),
            );
            &&& after.len() == es.len() + 2
            &&& index_of(after)[k] == p2
            &&& values_of(after).contains_key(k)
            &&& values_of(after)[k] == v2
        }),
{
    let mid = es.push((p1, Record { key: k, value: v1, mark: Method::Put }));
    lemma_put_then_get(es, p1, k, v1);
    lemma_put_then_get(mid, p2, k, v2);
}

/// After a delete of `k` is committed, the key is gone from the index and
/// from the contents, so a lookup or a second delete fails with
/// `KeyNotExists`.
pub proof fn lemma_delete_then_get(es: Seq<Placed>, p: u64, k: Seq<u8>)
    ensures
        ({
            let after = es.push((p, Record { key: k, value: Seq::empty(), mark: Method::Del }));
            &&& !index_of(after).contains_key(k)
            &&& !values_of(after).contains_key(k)
        }),
{
    let after = es.push((p, Record { key: k, value: Seq::empty(), mark: Method::Del }));
    assert(after.drop_last() =~= es);
}

/// The index and the contents have the same keys, and the index points each
/// key at a put of that key with its latest value.
pub proof fn lemma_index_tracks_values(es: Seq<Placed>)
    ensures
        index_of(es).dom() == values_of(es).dom(),
        forall|k: Seq<u8>|
            #[trigger] index_of(es).contains_key(k) ==> exists|i: int|
                0 <= i < es.len() && #[trigger] es[i] == (
                index_of(es)[k],
                Record { key: k, value: values_of(es)[k], mark: Method::Put },
            ),
    decreases es.len(),
{
    if es.len() > 0 {
        let pre = es.drop_last();
        lemma_index_tracks_values(pre);
        let (p, r) = es.last();
        assert forall|k: Seq<u8>| #[trigger] index_of(es).contains_key(k) implies exists|i: int|
            0 <= i < es.len() && #[trigger] es[i] == (
            index_of(es)[k],
            Record { key: k, value: values_of(es)[k], mark: Method::Put },
        ) by {
            if k == r.key && r.mark is Put {
                assert(es[es.len() - 1] == es.last());
            } else {
                let i = choose|i: int|
                    0 <= i < pre.len() && #[trigger] pre[i] == (
                    index_of(pre)[k],
                    Record { key: k, value: values_of(pre)[k], mark: Method::Put },
                );
                assert(es[i] == pre[i]);
            }
        }
        assert(index_of(es).dom() =~= values_of(es).dom());
    }
}

/// Each record that replay reads from `off` is what reading the log at its
/// offset gives.
pub proof fn lemma_replay_reads(log: Seq<u8>, off: int)
    requires
        0 <= off,
        log.len() <= u64::MAX,
        replay(log, off) is Ok,
    ensures
        forall|i: int|
            0 <= i < replay(log, off)->Ok_0.len() ==> parse_at(
                log,
                (#[trigger] replay(log, off)->Ok_0[i]).0 as int,
            ) == Ok::<Record, Error>(replay(log, off)->Ok_0[i].1),
    decreases log.len() - off,
{
    let t = replay(log, off)->Ok_0;
    match parse_at(log, off) {
        Ok(r) => {
            if 0 <= off && off + crate::codec::record_size(r) <= log.len() {
                let next = off + crate::codec::record_size(r);
                lemma_replay_reads(log, next);
                let rest = replay(log, next)->Ok_0;
                assert forall|i: int| 0 <= i < t.len() implies parse_at(
                    log,
                    (#[trigger] t[i]).0 as int,
                ) == Ok::<Record, Error>(t[i].1) by {
                    if i > 0 {
                        assert(t[i] == rest[i - 1]);
                    }
                }
            }
        },
        Err(_) => {},
    }
}

/// Reading the log at the offset that the index holds for a key gives a put
/// of that key carrying the key's latest value: what `get` returns.
pub proof fn lemma_lookup_reads_latest(s: Store, k: Seq<u8>)
    requires
        s.wf(),
        s.recoverable(),
        s.log@.len() <= u64::MAX,
        s.index@.contains_key(k),
    ensures
        values_of(s.entries@).contains_key(k),
        parse_at(s.log@, s.index@[k] as int) == Ok::<Record, Error>(
            Record { key: k, value: values_of(s.entries@)[k], mark: Method::Put },
        ),
{
    let es = s.entries@;
    lemma_index_tracks_values(es);
    lemma_replay_reads(s.log@, 0);
    assert(index_of(es).contains_key(k));
    let i = choose|i: int|
        0 <= i < es.len() && #[trigger] es[i] == (
        index_of(es)[k],
        Record { key: k, value: values_of(es)[k], mark: Method::Put },
    );
    assert(replay(s.log@, 0)->Ok_0[i] == es[i]);
}

/// Replaying the log of a store whose log replays to its end rebuilds the
/// same records, hence the same index and the same contents: closing and
/// reopening loses nothing.
pub proof fn lemma_recovery(s: Store)
    requires
        s.wf(),
        s.recoverable(),
    ensures
        replay(s.log@, 0) is Ok,
        index_of(replay(s.log@, 0)->Ok_0) == s.index@,
        values_of(replay(s.log@, 0)->Ok_0) == values_of(s.entries@),
{
}

/// The offsets of `es` strictly increase.
pub open spec fn increasing(es: Seq<Placed>) -> bool {
    forall|i: int, j: int| 0 <= i < j < es.len() ==> (#[trigger] es[i]).0 < (#[trigger] es[j]).0
}

/// Replay reads records at strictly increasing offsets, none before `off`.
pub proof fn lemma_replay_increasing(log: Seq<u8>, off: int)
    requires
        0 <= off,
        log.len() <= u64::MAX,
        replay(log, off) is Ok,
    ensures
        increasing(replay(log, off)->Ok_0),
        forall|i: int|
            0 <= i < replay(log, off)->Ok_0.len() ==> (#[trigger] replay(log, off)->Ok_0[i]).0
                >= off,
    decreases log.len() - off,
{
    let t = replay(log, off)->Ok_0;
    match parse_at(log, off) {
        Ok(r) => {
            if 0 <= off && off + record_size(r) <= log.len() {
                let next = off + record_size(r);
                lemma_replay_increasing(log, next);
                let rest = replay(log, next)->Ok_0;
                assert forall|i: int| 0 <= i < t.len() implies (#[trigger] t[i]).0 >= off by {
                    if i > 0 {
                        assert(t[i] == rest[i - 1]);
                    }
                }
                assert forall|i: int, j: int| 0 <= i < j < t.len() implies (#[trigger] t[i]).0 < (
                #[trigger] t[j]).0 by {
                    assert(t[j] == rest[j - 1]);
                    if i > 0 {
                        assert(t[i] == rest[i - 1]);
                    }
                }
            }
        },
        Err(_) => {},
    }
}

/// Whether `x` is a record of `es` that `idx` points at.
pub open spec fn live_in(es: Seq<Placed>, idx: Map<Seq<u8>, u64>, x: Placed) -> bool {
    exists|i: int| 0 <= i < es.len() && #[trigger] es[i] == x && is_live(idx, x)
}

/// Each live record is a record of `es` that `idx` points at.
pub proof fn lemma_live_records_from(es: Seq<Placed>, idx: Map<Seq<u8>, u64>)
    ensures
        forall|j: int|
            0 <= j < live_records(es, idx).len() ==> live_in(
                es,
                idx,
                #[trigger] live_records(es, idx)[j],
            ),
    decreases es.len(),
{
    if es.len() > 0 {
        let pre = es.drop_last();
        lemma_live_records_from(pre, idx);
        let kp = live_records(pre, idx);
        let n = es.len() - 1;
        assert(es.last() == es[n]);
        assert forall|j: int| 0 <= j < live_records(es, idx).len() implies live_in(
            es,
            idx,
            #[trigger] live_records(es, idx)[j],
        ) by {
            let x = live_records(es, idx)[j];
            if j < kp.len() {
                assert(x == kp[j]);
                assert(live_in(pre, idx, kp[j]));
                let i = choose|i: int| 0 <= i < pre.len() && #[trigger] pre[i] == x && is_live(idx, x);
                assert(es[i] == pre[i]);
            } else {
                assert(x == es[n]);
            }
        }
    }
}

/// Each record of `es` that `idx` points at is among the live records.
pub proof fn lemma_live_records_cover(es: Seq<Placed>, idx: Map<Seq<u8>, u64>)
    ensures
        forall|i: int|
            0 <= i < es.len() && is_live(idx, #[trigger] es[i]) ==> exists|j: int|
                0 <= j < live_records(es, idx).len() && live_records(es, idx)[j] == es[i],
    decreases es.len(),
{
    if es.len() > 0 {
        let pre = es.drop_last();
        lemma_live_records_cover(pre, idx);
        let kp = live_records(pre, idx);
        let k = live_records(es, idx);
        let n = es.len() - 1;
        assert(es.last() == es[n]);
        assert forall|i: int| 0 <= i < es.len() && is_live(idx, #[trigger] es[i]) implies exists|
            j: int,
        | 0 <= j < k.len() && k[j] == es[i] by {
            if i < n {
                assert(es[i] == pre[i]);
                let j = choose|j: int| 0 <= j < kp.len() && kp[j] == pre[i];
                assert(k[j] == kp[j]);
            } else {
                assert(k[kp.len() as int] == es[n]);
            }
        }
    }
}

/// The live records of records at increasing offsets are at increasing
/// offsets.
pub proof fn lemma_live_records_increasing(es: Seq<Placed>, idx: Map<Seq<u8>, u64>)
    requires
        increasing(es),
    ensures
        increasing(live_records(es, idx)),
    decreases es.len(),
{
    if es.len() > 0 {
        let pre = es.drop_last();
        assert(increasing(pre)) by {
            assert forall|i: int, j: int| 0 <= i < j < pre.len() implies (#[trigger] pre[i]).0 < (
            #[trigger] pre[j]).0 by {
                assert(pre[i] == es[i] && pre[j] == es[j]);
            }
        }
        lemma_live_records_increasing(pre, idx);
        lemma_live_records_from(pre, idx);
        let kp = live_records(pre, idx);
        let k = live_records(es, idx);
        let n = es.len() - 1;
        assert(es.last() == es[n]);
        assert forall|a: int, b: int| 0 <= a < b < k.len() implies (#[trigger] k[a]).0 < (
        #[trigger] k[b]).0 by {
            assert(k[a] == kp[a]);
            if b < kp.len() {
                assert(k[b] == kp[b]);
            } else {
                assert(k[b] == es[n]);
                assert(live_in(pre, idx, kp[a]));
                let ia = choose|i: int| 0 <= i < pre.len() && #[trigger] pre[i] == kp[a] && is_live(idx, kp[a]);
                assert(es[ia] == pre[ia]);
            }
        }
    }
}

/// Moving records to new offsets changes no contents.
pub proof fn lemma_values_of_relocate(es: Seq<Placed>)
    ensures
        values_of(relocate(es)) == values_of(es),
        relocate(es).len() == es.len(),
    decreases es.len(),
{
    if es.len() > 0 {
        lemma_values_of_relocate(es.drop_last());
        let r = relocate(es);
        assert(r.drop_last() =~= relocate(es.drop_last()));
    }
}

/// Records that are all puts of distinct keys leave each key with its own
/// record's value.
pub proof fn lemma_values_of_distinct_puts(x: Seq<Placed>)
    requires
        forall|i: int| 0 <= i < x.len() ==> (#[trigger] x[i]).1.mark is Put,
        forall|i: int, j: int|
            0 <= i < x.len() && 0 <= j < x.len() && i != j ==> (#[trigger] x[i]).1.key != (
            #[trigger] x[j]).1.key,
    ensures
        forall|k: Seq<u8>|
            #[trigger] values_of(x).contains_key(k) <==> exists|i: int|
                0 <= i < x.len() && (#[trigger] x[i]).1.key == k,
        forall|i: int|
            0 <= i < x.len() ==> values_of(x).contains_key((#[trigger] x[i]).1.key) && values_of(
                x,
            )[x[i].1.key] == x[i].1.value,
    decreases x.len(),
{
    if x.len() > 0 {
        let pre = x.drop_last();
        let n = x.len() - 1;
        lemma_values_of_distinct_puts(pre);
        assert(x.last() == x[n]);
        assert(values_of(x) == values_of(pre).insert(x[n].1.key, x[n].1.value));
        assert forall|k: Seq<u8>| #[trigger] values_of(x).contains_key(k) implies exists|i: int|
            0 <= i < x.len() && (#[trigger] x[i]).1.key == k by {
            if k != x[n].1.key {
                assert(values_of(pre).contains_key(k));
                let i = choose|i: int| 0 <= i < pre.len() && (#[trigger] pre[i]).1.key == k;
                assert(x[i] == pre[i]);
            }
        }
        assert forall|k: Seq<u8>|
            (exists|i: int| 0 <= i < x.len() && (#[trigger] x[i]).1.key == k) implies #[trigger] values_of(
            x,
        ).contains_key(k) by {
            let i = choose|i: int| 0 <= i < x.len() && (#[trigger] x[i]).1.key == k;
            if i < n {
                assert(pre[i] == x[i]);
                assert(values_of(pre).contains_key(k));
            }
        }
        assert forall|i: int| 0 <= i < x.len() implies values_of(x).contains_key(
            (#[trigger] x[i]).1.key,
        ) && values_of(x)[x[i].1.key] == x[i].1.value by {
            if i < n {
                assert(pre[i] == x[i]);
                assert(x[i].1.key != x[n].1.key);
            }
        }
    }
}

/// With the index that the records themselves leave, the live records are
/// puts of distinct keys, each carrying its key's latest value.
pub proof fn lemma_live_records_distinct_puts(es: Seq<Placed>)
    requires
        increasing(es),
    ensures
        ({
            let kept = live_records(es, index_of(es));
            &&& forall|j: int|
                0 <= j < kept.len() ==> (#[trigger] kept[j]) == (
                    index_of(es)[kept[j].1.key],
                    Record {
                        key: kept[j].1.key,
                        value: values_of(es)[kept[j].1.key],
                        mark: Method::Put,
                    },
                )
            &&& forall|i: int| 0 <= i < kept.len() ==> (#[trigger] kept[i]).1.mark is Put
            &&& forall|a: int, b: int|
                0 <= a < kept.len() && 0 <= b < kept.len() && a != b ==> (#[trigger] kept[a]).1.key
                    != (#[trigger] kept[b]).1.key
        }),
{
    let idx = index_of(es);
    let vals = values_of(es);
    let kept = live_records(es, idx);
    lemma_index_tracks_values(es);
    lemma_live_records_from(es, idx);
    lemma_live_records_increasing(es, idx);
    assert forall|j: int| 0 <= j < kept.len() implies (#[trigger] kept[j]) == (
        idx[kept[j].1.key],
        Record { key: kept[j].1.key, value: vals[kept[j].1.key], mark: Method::Put },
    ) by {
        assert(live_in(es, idx, kept[j]));
        let i = choose|i: int| 0 <= i < es.len() && #[trigger] es[i] == kept[j] && is_live(idx, kept[j]);
        let k = es[i].1.key;
        assert(idx.contains_key(k));
        let w = choose|w: int|
            0 <= w < es.len() && #[trigger] es[w] == (
            idx[k],
            Record { key: k, value: vals[k], mark: Method::Put },
        );
        if w < i {
            assert(es[w].0 < es[i].0);
        } else if i < w {
            assert(es[i].0 < es[w].0);
        }
    }
    assert forall|i: int| 0 <= i < kept.len() implies (#[trigger] kept[i]).1.mark is Put by {}
    assert forall|a: int, b: int|
        0 <= a < kept.len() && 0 <= b < kept.len() && a != b implies (#[trigger] kept[a]).1.key != (
    #[trigger] kept[b]).1.key by {
        if kept[a].1.key == kept[b].1.key {
            if a < b {
                assert(kept[a].0 < kept[b].0);
            } else {
                assert(kept[b].0 < kept[a].0);
            }
        }
    }
}

#[verifier::rlimit(100)]
/// Merging keeps the contents: rewriting only the records that the index
/// points at, in log order and at new offsets, leaves every key with the same
/// value and drops no live key.
pub proof fn lemma_merge_keeps_values(es: Seq<Placed>)
    requires
        increasing(es),
    ensures
        values_of(relocate(live_records(es, index_of(es)))) == values_of(es),
{
    let idx = index_of(es);
    let vals = values_of(es);
    let kept = live_records(es, idx);
    lemma_index_tracks_values(es);
    lemma_live_records_from(es, idx);
    lemma_live_records_cover(es, idx);
    lemma_live_records_increasing(es, idx);
    lemma_values_of_relocate(kept);
    lemma_live_records_distinct_puts(es);
    lemma_values_of_distinct_puts(kept);
    assert forall|k: Seq<u8>| #[trigger] vals.contains_key(k) implies values_of(kept).contains_key(k)
        && values_of(kept)[k] == vals[k] by {
        assert(idx.contains_key(k));
        let w = choose|w: int|
            0 <= w < es.len() && #[trigger] es[w] == (
            idx[k],
            Record { key: k, value: vals[k], mark: Method::Put },
        );
        assert(is_live(idx, es[w]));
        let j = choose|j: int| 0 <= j < kept.len() && kept[j] == es[w];
        assert(kept[j].1.key == k);
    }
    assert forall|k: Seq<u8>| #[trigger] values_of(kept).contains_key(k) implies vals.contains_key(k) by {
        let j = choose|j: int| 0 <= j < kept.len() && (#[trigger] kept[j]).1.key == k;
        assert(live_in(es, idx, kept[j]));
        let i = choose|i: int| 0 <= i < es.len() && #[trigger] es[i] == kept[j] && is_live(idx, kept[j]);
        assert(idx.contains_key(k));
    }
    assert(values_of(kept) =~= vals);
}

/// Merging the log of a store whose log replays to its end keeps every key
/// with the value it had.
pub proof fn lemma_merge_store_keeps_values(s: Store)
    requires
        s.wf(),
        s.recoverable(),
        s.log@.len() <= u64::MAX,
    ensures
        values_of(relocate(live_records(replay(s.log@, 0)->Ok_0, s.index@))) == values_of(
            s.entries@,
        ),
{
    lemma_replay_increasing(s.log@, 0);
    lemma_merge_keeps_values(s.entries@);
}

/// Only the records' contents decide where `relocate` puts them.
pub proof fn lemma_relocate_twice(es: Seq<Placed>)
    ensures
        relocate(relocate(es)) == relocate(es),
        concat_bytes(relocate(es)) == concat_bytes(es),
        relocate(es).len() == es.len(),
        forall|i: int| 0 <= i < es.len() ==> (#[trigger] relocate(es)[i]).1 == es[i].1,
    decreases es.len(),
{
    if es.len() > 0 {
        let pre = es.drop_last();
        lemma_relocate_twice(pre);
        let r = relocate(es);
        assert(r.drop_last() =~= relocate(pre));
        assert forall|i: int| 0 <= i < es.len() implies (#[trigger] relocate(es)[i]).1 == es[i].1 by {
            if i < pre.len() {
                assert(relocate(es)[i] == relocate(pre)[i]);
                assert(pre[i] == es[i]);
            }
        }
    }
}

/// Records that are all puts of distinct keys: the index they leave points
/// each key at its own record.
pub proof fn lemma_index_of_distinct_puts(x: Seq<Placed>)
    requires
        forall|i: int| 0 <= i < x.len() ==> (#[trigger] x[i]).1.mark is Put,
        forall|i: int, j: int|
            0 <= i < x.len() && 0 <= j < x.len() && i != j ==> (#[trigger] x[i]).1.key != (
            #[trigger] x[j]).1.key,
    ensures
        forall|i: int| 0 <= i < x.len() ==> is_live(index_of(x), #[trigger] x[i]),
    decreases x.len(),
{
    if x.len() > 0 {
        let pre = x.drop_last();
        let n = x.len() - 1;
        lemma_index_of_distinct_puts(pre);
        assert(x.last() == x[n]);
        assert forall|i: int| 0 <= i < x.len() implies is_live(index_of(x), #[trigger] x[i]) by {
            if i < n {
                assert(pre[i] == x[i]);
                assert(x[i].1.key != x[n].1.key);
                assert(is_live(index_of(pre), pre[i]));
            }
        }
    }
}

/// Where `idx` points at every record, all records are live.
pub proof fn lemma_all_live(x: Seq<Placed>, idx: Map<Seq<u8>, u64>)
    requires
        forall|i: int| 0 <= i < x.len() ==> is_live(idx, #[trigger] x[i]),
    ensures
        live_records(x, idx) == x,
    decreases x.len(),
{
    if x.len() > 0 {
        let pre = x.drop_last();
        assert forall|i: int| 0 <= i < pre.len() implies is_live(idx, #[trigger] pre[i]) by {
            assert(pre[i] == x[i]);
        }
        lemma_all_live(pre, idx);
        assert(x.last() == x[x.len() - 1]);
        assert(pre.push(x.last()) =~= x);
    }
}

/// Merging twice with no write in between changes nothing the second time:
/// every record of a merged log is live, and the records already stand one
/// after another from offset 0, so the second merge writes the same bytes
/// and the same records.
pub proof fn lemma_merge_twice(es: Seq<Placed>)
    requires
        increasing(es),
    ensures
        ({
            let m = relocate(live_records(es, index_of(es)));
            &&& live_records(m, index_of(m)) == m
            &&& relocate(live_records(m, index_of(m))) == m
            &&& concat_bytes(live_records(m, index_of(m))) == concat_bytes(
                live_records(es, index_of(es)),
            )
        }),
{
    let kept = live_records(es, index_of(es));
    let m = relocate(kept);
    lemma_live_records_distinct_puts(es);
    lemma_relocate_twice(kept);
    assert forall|i: int| 0 <= i < m.len() implies (#[trigger] m[i]).1.mark is Put by {
        assert(m[i].1 == kept[i].1);
    }
    assert forall|a: int, b: int|
        0 <= a < m.len() && 0 <= b < m.len() && a != b implies (#[trigger] m[a]).1.key != (
    #[trigger] m[b]).1.key by {
        assert(m[a].1 == kept[a].1);
        assert(m[b].1 == kept[b].1);
    }
    lemma_index_of_distinct_puts(m);
    lemma_all_live(m, index_of(m));
}

/// Merging the log of a store whose log replays to its end, then merging the
/// result again, gives back the first merge's bytes and records.
pub proof fn lemma_merge_store_twice(s: Store)
    requires
        s.wf(),
        s.recoverable(),
        s.log@.len() <= u64::MAX,
    ensures
        ({
            let kept = live_records(replay(s.log@, 0)->Ok_0, s.index@);
            let m = relocate(kept);
            &&& relocate(live_records(m, index_of(m))) == m
            &&& concat_bytes(live_records(m, index_of(m))) == concat_bytes(kept)
        }),
{
    lemma_replay_increasing(s.log@, 0);
    lemma_merge_twice(s.entries@);
}

} // verus!
