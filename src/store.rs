use vstd::prelude::*;

use crate::codec::{
    append_bytes, lemma_parse_record_bytes, parse_at, record_bytes, record_size, record_valid,
    Entry, Record, HEADER_SIZE,
};
use crate::error::{is_end_of_data, Error};
use crate::index::Index;
use crate::method::Method;

verus! {

/// A record together with the offset at which it starts in the log.
pub type Placed = (u64, Record);

/// The records that replaying `log` from `off` reads, in order; replay stops
/// without error at the end of the valid data, and fails on a malformed
/// record.
pub open spec fn replay(log: Seq<u8>, off: int) -> Result<Seq<Placed>, Error>
    decreases log.len() - off,
{
    match parse_at(log, off) {
        Ok(r) => if 0 <= off && off + record_size(r) <= log.len() {
            match replay(log, off + record_size(r)) {
                Ok(t) => Ok(seq![(off as u64, r)] + t),
                Err(e) => Err(e),
            }
        } else {
            Ok(Seq::empty())
        },
        Err(e) => if is_end_of_data(e) {
            Ok(Seq::empty())
        } else {
            Err(e)
        },
    }
}

/// The offset at which replaying `log` from `off` stops.
pub open spec fn scan_end(log: Seq<u8>, off: int) -> int
    decreases log.len() - off,
{
    match parse_at(log, off) {
        Ok(r) => if 0 <= off && off + record_size(r) <= log.len() {
            scan_end(log, off + record_size(r))
        } else {
            off
        },
        Err(e) => off,
    }
}

/// `acc` followed by the records of `rest`, or the error of `rest`.
pub open spec fn prepend(acc: Seq<Placed>, rest: Result<Seq<Placed>, Error>) -> Result<
    Seq<Placed>,
    Error,
> {
    match rest {
        Ok(t) => Ok(acc + t),
        Err(e) => Err(e),
    }
}

/// The index that the records `es` leave behind: each put points its key at
/// the put's offset, each delete drops its key.
pub open spec fn index_of(es: Seq<Placed>) -> Map<Seq<u8>, u64>
    decreases es.len(),
{
    if es.len() == 0 {
        Map::empty()
    } else {
        let m = index_of(es.drop_last());
        let (p, r) = es.last();
        match r.mark {
            Method::Put => m.insert(r.key, p),
            Method::Del => m.remove(r.key),
        }
    }
}

/// The contents that the records `es` leave behind: each key with the value of
/// its latest put, unless a later delete removed it.
pub open spec fn values_of(es: Seq<Placed>) -> Map<Seq<u8>, Seq<u8>>
    decreases es.len(),
{
    if es.len() == 0 {
        Map::empty()
    } else {
        let m = values_of(es.drop_last());
        let r = es.last().1;
        match r.mark {
            Method::Put => m.insert(r.key, r.value),
            Method::Del => m.remove(r.key),
        }
    }
}

/// Whether the record at `p` is the live one for its key under `idx`.
pub open spec fn is_live(idx: Map<Seq<u8>, u64>, x: Placed) -> bool {
    idx.contains_key(x.1.key) && idx[x.1.key] == x.0
}

/// The records of `es` that `idx` still points at, in their order.
pub open spec fn live_records(es: Seq<Placed>, idx: Map<Seq<u8>, u64>) -> Seq<Placed>
    decreases es.len(),
{
    if es.len() == 0 {
        Seq::empty()
    } else {
        let k = live_records(es.drop_last(), idx);
        if is_live(idx, es.last()) {
            k.push(es.last())
        } else {
            k
        }
    }
}

/// The bytes of the records of `es` written one after another.
pub open spec fn concat_bytes(es: Seq<Placed>) -> Seq<u8>
    decreases es.len(),
{
    if es.len() == 0 {
        Seq::empty()
    } else {
        concat_bytes(es.drop_last()) + record_bytes(es.last().1)
    }
}

/// The records of `es` placed one after another from offset 0.
pub open spec fn relocate(es: Seq<Placed>) -> Seq<Placed>
    decreases es.len(),
{
    if es.len() == 0 {
        Seq::empty()
    } else {
        relocate(es.drop_last()).push(
            (concat_bytes(es.drop_last()).len() as u64, es.last().1),
        )
    }
}

/// The state of an open store: its index and the end of its log, together with
/// the log's bytes and records as the store has seen them.
pub struct Store {
    pub index: Index,
    /// Where the next record will be appended: the length of the log.
    pub offset: u64,
    /// Whether the log file is still there.
    pub live: bool,
    pub log: Ghost<Seq<u8>>,
    pub entries: Ghost<Seq<Placed>>,
}

/// The outcome of a merge: the compacted log's bytes and the store over it.
pub struct Merged {
    pub bytes: Vec<u8>,
    pub store: Store,
}

impl Store {
    /// The index matches the records, and the offset is the log's length.
    pub open spec fn wf(&self) -> bool {
        &&& self.index.wf()
        &&& self.index@ == index_of(self.entries@)
        &&& self.offset as nat == self.log@.len()
    }

    /// Replaying the log reads exactly the store's records and reaches the end.
    pub open spec fn recoverable(&self) -> bool {
        &&& replay(self.log@, 0) == Ok::<Seq<Placed>, Error>(self.entries@)
        &&& scan_end(self.log@, 0) == self.log@.len()
    }
}

/// A record read at `off` lies within the log.
pub proof fn lemma_parse_fits(log: Seq<u8>, off: int)
    requires
        0 <= off,
        parse_at(log, off) is Ok,
    ensures
        off + record_size(parse_at(log, off)->Ok_0) <= log.len(),
        record_valid(parse_at(log, off)->Ok_0) || log.len() > u64::MAX,
{
}

impl Store {
    /// Opens a store over a log with the bytes `log`, rebuilding the index by
    /// replaying the log from its start. Replay ends without error where the
    /// valid records end; a record with an unknown tag fails the open.
    pub fn open(log: &[u8]) -> (r: Result<Store, Error>)
        requires
            log@.len() <= u64::MAX,
        ensures
            match replay(log@, 0) {
                Ok(es) => r matches Ok(s) && s.wf() && s.live && s.entries@ == es && s.log@
                    == log@,
                Err(e) => r == Err::<Store, Error>(e),
            },
            r is Ok && scan_end(log@, 0) == log@.len() ==> r->Ok_0.recoverable(),
    {
        let mut index = Index::new();
        let mut off: u64 = 0;
        let ghost mut acc: Seq<Placed> = Seq::empty();
        loop
            invariant
                off <= log@.len(),
                log@.len() <= u64::MAX,
                index.wf(),
                index@ == index_of(acc),
                replay(log@, 0) == prepend(acc, replay(log@, off as int)),
            decreases log@.len() - off,
        {
            match Entry::read_entry(log, off) {
                Ok(e) => {
                    proof {
                        lemma_parse_fits(log@, off as int);
                    }
                    let size = e.get_size();
                    let ghost placed: Placed = (off, e@);
                    proof {
                        let rest = replay(log@, off + size);
                        assert(replay(log@, off as int) == prepend(seq![placed], rest));
                        match rest {
                            Ok(t) => {
                                assert(acc + (seq![placed] + t) =~= acc.push(placed) + t);
                            },
                            Err(_) => {},
                        }
                        assert(acc.push(placed).drop_last() =~= acc);
                        acc = acc.push(placed);
                    }
                    match e.mark {
                        Method::Put => index.set(e.key, off),
                        Method::Del => index.remove(e.key.as_slice()),
                    }
                    off = off + size;
                },
                Err(err) => {
                    if err.is_end() {
                        assert(acc + Seq::<Placed>::empty() =~= acc);
                        return Ok(
                            Store {
                                index,
                                offset: log.len() as u64,
                                live: true,
                                log: Ghost(log@),
                                entries: Ghost(acc),
                            },
                        );
                    } else {
                        return Err(err);
                    }
                },
            }
        }
    }

    /// Checks a put of `value` under `key` and builds its record; nothing is
    /// written yet. Fails with `EmptyKey` for an empty key, `DBFileNotExist`
    /// once the log is torn down, and `InvalidOffset` where the record would
    /// end past the largest 64-bit offset.
    pub fn prepare_put(&self, key: Vec<u8>, value: Vec<u8>) -> (r: Result<Entry, Error>)
        ensures
            key@.len() == 0 ==> r == Err::<Entry, Error>(Error::EmptyKey),
            key@.len() > 0 && !self.live ==> r == Err::<Entry, Error>(Error::DBFileNotExist),
            key@.len() > 0 && self.live && self.offset + HEADER_SIZE + key@.len() + value@.len()
                > u64::MAX ==> r == Err::<Entry, Error>(Error::InvalidOffset),
            key@.len() > 0 && self.live && self.offset + HEADER_SIZE + key@.len() + value@.len()
                <= u64::MAX ==> (r matches Ok(e) && e.wf() && e@ == (Record {
                key: key@,
                value: value@,
                mark: Method::Put,
            }) && self.offset + record_size(e@) <= u64::MAX),
    {
        if key.len() == 0 {
            return Err(Error::EmptyKey);
        }
        if !self.live {
            return Err(Error::DBFileNotExist);
        }
        self.checked_entry(key, value, Method::Put)
    }

    /// Checks a delete of `key` and builds its tombstone; nothing is written
    /// yet. Fails with `EmptyKey` for an empty key, `KeyNotExists` where the
    /// key has no live record, `DBFileNotExist` once the log is torn down, and
    /// `InvalidOffset` where the record would end past the largest 64-bit
    /// offset.
    pub fn prepare_delete(&self, key: Vec<u8>) -> (r: Result<Entry, Error>)
        requires
            self.wf(),
        ensures
            key@.len() == 0 ==> r == Err::<Entry, Error>(Error::EmptyKey),
            key@.len() > 0 && !self.index@.contains_key(key@) ==> r == Err::<Entry, Error>(
                Error::KeyNotExists,
            ),
            key@.len() > 0 && self.index@.contains_key(key@) && !self.live ==> r == Err::<
                Entry,
                Error,
            >(Error::DBFileNotExist),
            key@.len() > 0 && self.index@.contains_key(key@) && self.live && self.offset
                + HEADER_SIZE + key@.len() > u64::MAX ==> r == Err::<Entry, Error>(
                Error::InvalidOffset,
            ),
            key@.len() > 0 && self.index@.contains_key(key@) && self.live && self.offset
                + HEADER_SIZE + key@.len() <= u64::MAX ==> (r matches Ok(e) && e.wf() && e@ == (
            Record { key: key@, value: Seq::empty(), mark: Method::Del }) && self.offset
                + record_size(e@) <= u64::MAX),
    {
        if key.len() == 0 {
            return Err(Error::EmptyKey);
        }
        if self.index.get(key.as_slice()).is_none() {
            return Err(Error::KeyNotExists);
        }
        if !self.live {
            return Err(Error::DBFileNotExist);
        }
        self.checked_entry(key, Vec::new(), Method::Del)
    }

    /// Builds a record that can be appended at the current offset.
    fn checked_entry(&self, key: Vec<u8>, value: Vec<u8>, mark: Method) -> (r: Result<
        Entry,
        Error,
    >)
        ensures
            self.offset + HEADER_SIZE + key@.len() + value@.len() > u64::MAX ==> r == Err::<
                Entry,
                Error,
            >(Error::InvalidOffset),
            self.offset + HEADER_SIZE + key@.len() + value@.len() <= u64::MAX ==> (r matches Ok(e)
                && e.wf() && e@ == (Record { key: key@, value: value@, mark }) && self.offset
                + record_size(e@) <= u64::MAX),
    {
        let room = u64::MAX - self.offset;
        if room < HEADER_SIZE || key.len() as u64 > room - HEADER_SIZE || value.len() as u64 > room
            - HEADER_SIZE - key.len() as u64 {
            return Err(Error::InvalidOffset);
        }
        Ok(
            Entry {
                key_size: key.len() as u64,
                value_size: value.len() as u64,
                key,
                value,
                mark,
            },
        )
    }

    /// Records that `e` was appended at the end of the log: the offset moves
    /// past it, and a put points its key at the record while a delete drops
    /// the key.
    pub fn commit(&mut self, e: Entry)
        requires
            old(self).wf(),
            e.wf(),
            old(self).offset + record_size(e@) <= u64::MAX,
        ensures
            final(self).wf(),
            final(self).live == old(self).live,
            final(self).offset == old(self).offset + record_size(e@),
            final(self).log@ == old(self).log@ + record_bytes(e@),
            final(self).entries@ == old(self).entries@.push((old(self).offset, e@)),
            e.mark is Put ==> final(self).index@ == old(self).index@.insert(e.key@, old(self).offset),
            e.mark is Del ==> final(self).index@ == old(self).index@.remove(e.key@),
            old(self).recoverable() ==> final(self).recoverable(),
    {
        let size = e.get_size();
        let ghost placed: Placed = (self.offset, e@);
        proof {
            if self.recoverable() {
                lemma_replay_append(self.log@, 0, e@);
            }
            assert(self.entries@.push(placed).drop_last() =~= self.entries@);
            crate::codec::lemma_be_bytes_len(e@.key.len(), 8);
            crate::codec::lemma_be_bytes_len(e@.value.len(), 8);
            crate::codec::lemma_be_bytes_len(crate::method::tag_of(e@.mark), 2);
        }
        match e.mark {
            Method::Put => self.index.set(e.key, self.offset),
            Method::Del => self.index.remove(e.key.as_slice()),
        }
        self.offset = self.offset + size;
        self.log = Ghost(self.log@ + record_bytes(placed.1));
        self.entries = Ghost(self.entries@.push(placed));
    }

    /// Plans a merge of the log with the bytes `log`: replays it and keeps, in
    /// log order, each record that the index still points at, placed one after
    /// another from offset 0. Returns `None` where there is nothing to do: an
    /// empty log, or no live record. The caller writes the bytes to a new file
    /// and swaps it in for the old log; only then does the new store hold.
    pub fn merge(&self, log: &[u8]) -> (r: Result<Option<Merged>, Error>)
        requires
            self.wf(),
            log@.len() <= u64::MAX,
        ensures
            !self.live ==> r == Err::<Option<Merged>, Error>(Error::DBFileNotExist),
            self.live && self.offset == 0 ==> (r matches Ok(m) && m is None),
            self.live && self.offset > 0 ==> match replay(log@, 0) {
                Err(e) => r == Err::<Option<Merged>, Error>(e),
                Ok(es) => {
                    let kept = live_records(es, self.index@);
                    &&& kept.len() == 0 ==> (r matches Ok(m) && m is None)
                    &&& kept.len() > 0 ==> (r matches Ok(Some(m)) && m.store.wf() && m.store.live
                        && m.bytes@ == concat_bytes(kept) && m.store.log@ == m.bytes@
                        && m.store.entries@ == relocate(kept) && m.store.recoverable()
                        && m.bytes@.len() <= log@.len())
                },
            },
    {
        if !self.live {
            return Err(Error::DBFileNotExist);
        }
        if self.offset == 0 {
            return Ok(None);
        }
        let mut off: u64 = 0;
        let mut out: Vec<u8> = Vec::new();
        let mut index = Index::new();
        let mut count: usize = 0;
        let ghost mut acc: Seq<Placed> = Seq::empty();
        let ghost mut kept: Seq<Placed> = Seq::empty();
        loop
            invariant
                self.wf(),
                self.live,
                self.offset > 0,
                off <= log@.len(),
                log@.len() <= u64::MAX,
                replay(log@, 0) == prepend(acc, replay(log@, off as int)),
                kept == live_records(acc, self.index@),
                count == kept.len(),
                count <= out@.len(),
                out@ == concat_bytes(kept),
                out@.len() <= off,
                index.wf(),
                index@ == index_of(relocate(kept)),
                replay(out@, 0) == Ok::<Seq<Placed>, Error>(relocate(kept)),
                scan_end(out@, 0) == out@.len(),
            decreases log@.len() - off,
        {
            match Entry::read_entry(log, off) {
                Ok(e) => {
                    proof {
                        lemma_parse_fits(log@, off as int);
                    }
                    let size = e.get_size();
                    let ghost placed: Placed = (off, e@);
                    proof {
                        let rest = replay(log@, off + size);
                        assert(replay(log@, off as int) == prepend(seq![placed], rest));
                        match rest {
                            Ok(t) => {
                                assert(acc + (seq![placed] + t) =~= acc.push(placed) + t);
                            },
                            Err(_) => {},
                        }
                        assert(acc.push(placed).drop_last() =~= acc);
                        acc = acc.push(placed);
                    }
                    let at = self.index.get(e.key.as_slice());
                    if at == Some(off) {
                        let pos = out.len() as u64;
                        let bytes = e.encode();
                        proof {
                            lemma_replay_append(out@, 0, e@);
                            crate::codec::lemma_be_bytes_len(e@.key.len(), 8);
                            crate::codec::lemma_be_bytes_len(e@.value.len(), 8);
                            crate::codec::lemma_be_bytes_len(crate::method::tag_of(e@.mark), 2);
                            assert(kept.push(placed).drop_last() =~= kept);
                            kept = kept.push(placed);
                        }
                        append_bytes(&mut out, bytes.as_slice());
                        let ghost k = e.key@;
                        match e.mark {
                            Method::Put => index.set(e.key, pos),
                            Method::Del => index.remove(e.key.as_slice()),
                        }
                        proof {
                            let rk = relocate(kept);
                            assert(rk.drop_last() =~= relocate(kept.drop_last()));
                            assert(rk.last() == (pos, e@));
                            assert(k == e@.key);
                        }
                        let n = out.len();
                        assert(count < n);
                        count = count + 1;
                    }
                    off = off + size;
                },
                Err(err) => {
                    if err.is_end() {
                        assert(acc + Seq::<Placed>::empty() =~= acc);
                        if count == 0 {
                            return Ok(None);
                        }
                        let store = Store {
                            index,
                            offset: out.len() as u64,
                            live: true,
                            log: Ghost(out@),
                            entries: Ghost(relocate(kept)),
                        };
                        return Ok(Some(Merged { bytes: out, store }));
                    } else {
                        return Err(err);
                    }
                },
            }
        }
    }

    /// The offset of the live record of `key`. Fails with `EmptyKey` for an
    /// empty key, `KeyNotExists` where the key has no live record, and
    /// `DBFileNotExist` once the log is torn down.
    pub fn lookup(&self, key: &[u8]) -> (r: Result<u64, Error>)
        requires
            self.wf(),
        ensures
            key@.len() == 0 ==> r == Err::<u64, Error>(Error::EmptyKey),
            key@.len() > 0 && !self.index@.contains_key(key@) ==> r == Err::<u64, Error>(
                Error::KeyNotExists,
            ),
            key@.len() > 0 && self.index@.contains_key(key@) && !self.live ==> r == Err::<
                u64,
                Error,
            >(Error::DBFileNotExist),
            key@.len() > 0 && self.index@.contains_key(key@) && self.live ==> r == Ok::<
                u64,
                Error,
            >(self.index@[key@]),
    {
        if key.len() == 0 {
            return Err(Error::EmptyKey);
        }
        match self.index.get(key) {
            None => Err(Error::KeyNotExists),
            Some(o) => if self.live {
                Ok(o)
            } else {
                Err(Error::DBFileNotExist)
            },
        }
    }

    /// Marks the log as torn down; later operations fail with
    /// `DBFileNotExist`. Tearing down twice is harmless.
    pub fn remove(&mut self)
        ensures
            !final(self).live,
            final(self).index@ == old(self).index@,
            final(self).offset == old(self).offset,
            final(self).log@ == old(self).log@,
            final(self).entries@ == old(self).entries@,
            final(self).index.wf() == old(self).index.wf(),
    {
        self.live = false;
    }

    /// The offset at which the next record will be appended.
    pub fn next_offset(&self) -> (o: u64)
        ensures
            o == self.offset,
    {
        self.offset
    }

    /// Whether the log file is still there.
    pub fn is_open(&self) -> (b: bool)
        ensures
            b == self.live,
    {
        self.live
    }
}

/// A record read at `off` in `log` reads the same in any longer log.
pub proof fn lemma_parse_extend(log: Seq<u8>, x: Seq<u8>, off: int)
    requires
        0 <= off,
        parse_at(log, off) is Ok,
    ensures
        parse_at(log + x, off) == parse_at(log, off),
{
    let l = log + x;
    lemma_parse_fits(log, off);
    assert(l.subrange(off, off + 8) =~= log.subrange(off, off + 8));
    assert(l.subrange(off + 8, off + 16) =~= log.subrange(off + 8, off + 16));
    assert(l.subrange(off + 16, off + 18) =~= log.subrange(off + 16, off + 18));
    let r = parse_at(log, off)->Ok_0;
    let k = r.key.len() as int;
    let v = r.value.len() as int;
    assert(l.subrange(off + 18, off + 18 + k) =~= log.subrange(off + 18, off + 18 + k));
    assert(l.subrange(off + 18 + k, off + 18 + k + v) =~= log.subrange(
        off + 18 + k,
        off + 18 + k + v,
    ));
}

/// Appending a record to a log that replays to its end: replay then reads one
/// more record, the appended one, at the old end of the log, and again
/// reaches the end.
pub proof fn lemma_replay_append(log: Seq<u8>, off: int, r: Record)
    requires
        0 <= off <= log.len(),
        scan_end(log, off) == log.len(),
        record_valid(r),
        log.len() + record_size(r) <= u64::MAX,
    ensures
        replay(log, off) is Ok,
        replay(log + record_bytes(r), off) == Ok::<Seq<Placed>, Error>(
            replay(log, off)->Ok_0.push((log.len() as u64, r)),
        ),
        scan_end(log + record_bytes(r), off) == log.len() + record_size(r),
    decreases log.len() - off,
{
    let l = log + record_bytes(r);
    crate::codec::lemma_be_bytes_len(r.key.len(), 8);
    crate::codec::lemma_be_bytes_len(r.value.len(), 8);
    crate::codec::lemma_be_bytes_len(crate::method::tag_of(r.mark), 2);
    assert(l.len() == log.len() + record_size(r));
    if off < log.len() {
        assert(parse_at(log, off) is Ok);
        let r0 = parse_at(log, off)->Ok_0;
        lemma_parse_fits(log, off);
        lemma_parse_extend(log, record_bytes(r), off);
        lemma_replay_append(log, off + record_size(r0), r);
        let t = replay(log, off + record_size(r0))->Ok_0;
        assert(replay(l, off) == prepend(seq![(off as u64, r0)], replay(l, off + record_size(r0))));
        assert(seq![(off as u64, r0)] + t.push((log.len() as u64, r)) =~= (seq![(off as u64, r0)]
            + t).push((log.len() as u64, r)));
    } else {
        assert(l.subrange(off, off + record_size(r)) =~= record_bytes(r));
        lemma_parse_record_bytes(l, off, r);
        assert(parse_at(l, off + record_size(r)) == Err::<Record, Error>(Error::InvalidOffset));
        assert(replay(l, off + record_size(r)) == Ok::<Seq<Placed>, Error>(Seq::empty()));
        assert(scan_end(l, off + record_size(r)) == off + record_size(r));
        assert(replay(log, off) == Ok::<Seq<Placed>, Error>(Seq::empty()));
        assert(Seq::<Placed>::empty().push((log.len() as u64, r)) =~= seq![(off as u64, r)]
            + Seq::<Placed>::empty());
    }
}

} // verus!
