use vstd::prelude::*;
use vstd::slice::{slice_subrange, slice_to_vec};

use crate::error::Error;
use crate::method::{method_of_tag, tag_of, Method};

verus! {

/// Length of the fixed record header: key length, value length, tag.
pub const HEADER_SIZE: u64 = 18;

/// `256` to the power `w`.
pub open spec fn pow256(w: nat) -> nat
    decreases w,
{
    if w == 0 {
        1
    } else {
        256 * pow256((w - 1) as nat)
    }
}

/// The unsigned number that the big-endian bytes `s` stand for.
pub open spec fn be_value(s: Seq<u8>) -> nat
    decreases s.len(),
{
    if s.len() == 0 {
        0
    } else {
        be_value(s.drop_last()) * 256 + s.last() as nat
    }
}

/// The `w` low bytes of `n`, most significant first.
pub open spec fn be_bytes(n: nat, w: nat) -> Seq<u8>
    decreases w,
{
    if w == 0 {
        Seq::empty()
    } else {
        be_bytes(n / 256, (w - 1) as nat).push((n % 256) as u8)
    }
}

/// A record as the log holds it.
pub struct Record {
    pub key: Seq<u8>,
    pub value: Seq<u8>,
    pub mark: Method,
}

/// Number of bytes that `r` takes in the log.
pub open spec fn record_size(r: Record) -> nat {
    HEADER_SIZE as nat + r.key.len() + r.value.len()
}

/// Whether `r` can be written: its size fits a 64-bit offset.
pub open spec fn record_valid(r: Record) -> bool {
    record_size(r) <= u64::MAX
}

/// The bytes of `r` in the log: key length and value length as 8-byte
/// big-endian numbers, the 2-byte tag, the key, the value.
pub open spec fn record_bytes(r: Record) -> Seq<u8> {
    be_bytes(r.key.len(), 8) + be_bytes(r.value.len(), 8) + be_bytes(tag_of(r.mark), 2) + r.key
        + r.value
}

/// The outcome of reading a record that starts at `off` in `log`: the record,
/// or the error that stops the read.
pub open spec fn parse_at(log: Seq<u8>, off: int) -> Result<Record, Error> {
    if off >= log.len() {
        Err(Error::InvalidOffset)
    } else if off + HEADER_SIZE > log.len() {
        Err(Error::Eof)
    } else {
        let k = be_value(log.subrange(off, off + 8)) as int;
        let v = be_value(log.subrange(off + 8, off + 16)) as int;
        let t = be_value(log.subrange(off + 16, off + 18));
        match method_of_tag(t) {
            None => Err(Error::InvalidRecord),
            Some(m) => if off + HEADER_SIZE + k + v > log.len() {
                Err(Error::Eof)
            } else {
                Ok(
                    Record {
                        key: log.subrange(off + 18, off + 18 + k),
                        value: log.subrange(off + 18 + k, off + 18 + k + v),
                        mark: m,
                    },
                )
            },
        }
    }
}

pub proof fn lemma_be_bytes_len(n: nat, w: nat)
    ensures
        be_bytes(n, w).len() == w,
    decreases w,
{
    if w > 0 {
        lemma_be_bytes_len(n / 256, (w - 1) as nat);
    }
}

pub proof fn lemma_be_value_bound(s: Seq<u8>)
    ensures
        be_value(s) < pow256(s.len()),
    decreases s.len(),
{
    if s.len() > 0 {
        lemma_be_value_bound(s.drop_last());
        let a = be_value(s.drop_last());
        let p = pow256((s.len() - 1) as nat);
        assert(a * 256 + (s.last() as nat) < 256 * p) by (nonlinear_arith)
            requires
                a < p,
                s.last() < 256,
        ;
    }
}

/// Encoding a number that fits `w` bytes and reading it back gives the number.
pub proof fn lemma_be_round_trip(n: nat, w: nat)
    requires
        n < pow256(w),
    ensures
        be_value(be_bytes(n, w)) == n,
    decreases w,
{
    if w > 0 {
        let p = pow256((w - 1) as nat);
        assert(n / 256 < p) by (nonlinear_arith)
            requires
                n < 256 * p,
        ;
        lemma_be_round_trip(n / 256, (w - 1) as nat);
        let s = be_bytes(n, w);
        assert(s.drop_last() =~= be_bytes(n / 256, (w - 1) as nat));
        assert(n == (n / 256) * 256 + n % 256) by (nonlinear_arith);
    }
}

pub proof fn lemma_pow256_8()
    ensures
        pow256(8) == 0x1_0000_0000_0000_0000,
        pow256(2) == 0x1_0000,
{
    reveal_with_fuel(pow256, 9);
}

/// Appends the `w` low bytes of `n`, most significant first.
pub fn push_be(out: &mut Vec<u8>, n: u64, w: usize)
    requires
        w <= 8,
    ensures
        final(out)@ == old(out)@ + be_bytes(n as nat, w as nat),
    decreases w,
{
    if w > 0 {
        push_be(out, n / 256, w - 1);
        out.push((n % 256) as u8);
        proof {
            let prev = old(out)@ + be_bytes((n / 256) as nat, (w - 1) as nat);
            assert(prev.push((n % 256) as u8) =~= old(out)@ + be_bytes(n as nat, w as nat));
        }
    }
}

/// Reads the `w`-byte big-endian number at `start` in `b`.
pub fn read_be(b: &[u8], start: usize, w: usize) -> (r: u64)
    requires
        start + w <= b.len(),
        w <= 8,
    ensures
        r as nat == be_value(b@.subrange(start as int, start + w)),
{
    let mut acc: u64 = 0;
    let mut i: usize = 0;
    while i < w
        invariant
            i <= w,
            w <= 8,
            start + w <= b.len(),
            acc as nat == be_value(b@.subrange(start as int, start + i)),
        decreases w - i,
    {
        let ghost s = b@.subrange(start as int, start + i + 1);
        assert(s.drop_last() =~= b@.subrange(start as int, start + i));
        proof {
            lemma_be_value_bound(s);
            lemma_pow256_8();
            let j: nat = (i + 1) as nat;
            assert(pow256(j) <= pow256(8)) by {
                lemma_pow256_mono(j, 8);
            }
            assert(s.last() == b@[start + i]);
            assert(be_value(s) == acc as nat * 256 + (b@[start + i] as nat));
            assert(s.len() == j);
            assert(acc as nat * 256 + (b@[start + i] as nat) < 0x1_0000_0000_0000_0000);
        }
        assert(start + i < b@.len());
        let at: usize = start + i;
        let byte = b[at] as u64;
        assert(acc * 256 + byte <= u64::MAX);
        acc = acc * 256 + byte;
        i = i + 1;
    }
    acc
}

proof fn lemma_pow256_mono(a: nat, b: nat)
    requires
        a <= b,
    ensures
        pow256(a) <= pow256(b),
    decreases b,
{
    if a < b {
        lemma_pow256_mono(a, (b - 1) as nat);
    }
}

/// A record's header: the two lengths and the operation.
#[derive(Debug, Copy, Clone, PartialEq, Eq, Structural)]
pub struct Header {
    pub key_size: u64,
    pub value_size: u64,
    pub mark: Method,
}

/// A record held in memory.
#[derive(Debug, Clone)]
pub struct Entry {
    pub key: Vec<u8>,
    pub value: Vec<u8>,
    pub key_size: u64,
    pub value_size: u64,
    pub mark: Method,
}

impl View for Entry {
    type V = Record;

    open spec fn view(&self) -> Record {
        Record { key: self.key@, value: self.value@, mark: self.mark }
    }
}

impl Entry {
    /// The stored lengths match the bytes, and the record can be written.
    pub open spec fn wf(&self) -> bool {
        &&& self.key_size as nat == self.key@.len()
        &&& self.value_size as nat == self.value@.len()
        &&& record_valid(self@)
    }

    /// Builds a record; fails with `InvalidOffset` where its size would not
    /// fit in a 64-bit offset.
    pub fn new(key: Vec<u8>, value: Vec<u8>, mark: Method) -> (r: Result<Entry, Error>)
        ensures
            record_size(Record { key: key@, value: value@, mark }) <= u64::MAX ==> (r matches Ok(
                e,
            ) && e.wf() && e@ == Record { key: key@, value: value@, mark }),
            record_size(Record { key: key@, value: value@, mark }) > u64::MAX ==> r == Err::<
                Entry,
                Error,
            >(Error::InvalidOffset),
    {
        let key_size = key.len() as u64;
        let value_size = value.len() as u64;
        if key_size > u64::MAX - HEADER_SIZE || value_size > u64::MAX - HEADER_SIZE - key_size {
            return Err(Error::InvalidOffset);
        }
        Ok(Entry { key, value, key_size, value_size, mark })
    }

    /// Number of bytes the record takes in the log.
    pub fn get_size(&self) -> (n: u64)
        requires
            self.wf(),
        ensures
            n as nat == record_size(self@),
    {
        HEADER_SIZE + self.key_size + self.value_size
    }

    /// The record's bytes in the log format.
    pub fn encode(&self) -> (b: Vec<u8>)
        requires
            self.wf(),
        ensures
            b@ == record_bytes(self@),
    {
        let mut buf: Vec<u8> = Vec::new();
        push_be(&mut buf, self.key_size, 8);
        push_be(&mut buf, self.value_size, 8);
        push_be(&mut buf, self.mark.tag() as u64, 2);
        append_bytes(&mut buf, self.key.as_slice());
        append_bytes(&mut buf, self.value.as_slice());
        buf
    }

    /// Decodes a record header from the first bytes of `buf`.
    pub fn decode_header(buf: &[u8]) -> (r: Result<Header, Error>)
        ensures
            r == header_of(buf@),
    {
        if buf.len() == 0 {
            return Err(Error::EmptyContent);
        }
        if buf.len() < HEADER_SIZE as usize {
            return Err(Error::Eof);
        }
        let key_size = read_be(buf, 0, 8);
        let value_size = read_be(buf, 8, 8);
        let t = read_be(buf, 16, 2);
        proof {
            lemma_be_value_bound(buf@.subrange(16, 18));
            reveal_with_fuel(pow256, 3);
        }
        let mark = Method::from_tag(t as u16)?;
        Ok(Header { key_size, value_size, mark })
    }

    /// Reads the record that starts at `off` in `log`.
    pub fn read_entry(log: &[u8], off: u64) -> (r: Result<Entry, Error>)
        ensures
            match parse_at(log@, off as int) {
                Ok(rec) => r matches Ok(e) && e.wf() && e@ == rec,
                Err(err) => r == Err::<Entry, Error>(err),
            },
    {
        if off >= log.len() as u64 {
            return Err(Error::InvalidOffset);
        }
        let start = off as usize;
        if log.len() - start < HEADER_SIZE as usize {
            return Err(Error::Eof);
        }
        proof {
            let h = log@.subrange(start as int, start + 18);
            lemma_pow256_8();
            lemma_be_value_bound(log@.subrange(start as int, start + 8));
            lemma_be_value_bound(log@.subrange(start + 8, start + 16));
            assert(h.subrange(0, 8) =~= log@.subrange(start as int, start + 8));
            assert(h.subrange(8, 16) =~= log@.subrange(start + 8, start + 16));
            assert(h.subrange(16, 18) =~= log@.subrange(start + 16, start + 18));
        }
        let header = match Entry::decode_header(slice_subrange(log, start, start + 18)) {
            Ok(h) => h,
            Err(e) => {
                return Err(e);
            },
        };
        let rest = log.len() - start - 18;
        if header.key_size as u128 + header.value_size as u128 > rest as u128 {
            return Err(Error::Eof);
        }
        let k = header.key_size as usize;
        let v = header.value_size as usize;
        let key = slice_to_vec(slice_subrange(log, start + 18, start + 18 + k));
        let value = slice_to_vec(slice_subrange(log, start + 18 + k, start + 18 + k + v));
        assert(key@.len() == k && value@.len() == v);
        assert(18 + k + v <= log@.len());
        Ok(Entry { key, value, key_size: header.key_size, value_size: header.value_size, mark: header.mark })
    }
}

/// The outcome of decoding a header from the first bytes of `b`.
pub open spec fn header_of(b: Seq<u8>) -> Result<Header, Error> {
    if b.len() == 0 {
        Err(Error::EmptyContent)
    } else if b.len() < HEADER_SIZE {
        Err(Error::Eof)
    } else {
        match method_of_tag(be_value(b.subrange(16, 18))) {
            None => Err(Error::InvalidRecord),
            Some(m) => Ok(
                Header {
                    key_size: be_value(b.subrange(0, 8)) as u64,
                    value_size: be_value(b.subrange(8, 16)) as u64,
                    mark: m,
                },
            ),
        }
    }
}

/// Appends the bytes of `src` to `out`.
pub fn append_bytes(out: &mut Vec<u8>, src: &[u8])
    ensures
        final(out)@ == old(out)@ + src@,
{
    let mut i: usize = 0;
    while i < src.len()
        invariant
            i <= src@.len(),
            out@ == old(out)@ + src@.subrange(0, i as int),
        decreases src@.len() - i,
    {
        out.push(src[i]);
        i = i + 1;
        assert(out@ =~= old(out)@ + src@.subrange(0, i as int));
    }
    assert(src@.subrange(0, src@.len() as int) =~= src@);
}

/// A record read from where its own bytes stand in a log is the record: the
/// decoding of an encoded record gives back every field.
pub proof fn lemma_parse_record_bytes(log: Seq<u8>, off: int, r: Record)
    requires
        record_valid(r),
        0 <= off,
        off + record_size(r) <= log.len(),
        log.subrange(off, off + record_size(r)) == record_bytes(r),
    ensures
        parse_at(log, off) == Ok::<Record, Error>(r),
{
    let k = r.key.len();
    let v = r.value.len();
    let b = record_bytes(r);
    lemma_be_bytes_len(k, 8);
    lemma_be_bytes_len(v, 8);
    lemma_be_bytes_len(tag_of(r.mark), 2);
    lemma_pow256_8();
    lemma_be_round_trip(k, 8);
    lemma_be_round_trip(v, 8);
    lemma_be_round_trip(tag_of(r.mark), 2);
    assert(log.subrange(off, off + 8) =~= b.subrange(0, 8));
    assert(b.subrange(0, 8) =~= be_bytes(k, 8));
    assert(log.subrange(off + 8, off + 16) =~= b.subrange(8, 16));
    assert(b.subrange(8, 16) =~= be_bytes(v, 8));
    assert(log.subrange(off + 16, off + 18) =~= b.subrange(16, 18));
    assert(b.subrange(16, 18) =~= be_bytes(tag_of(r.mark), 2));
    let ki = k as int;
    let vi = v as int;
    assert(b.subrange(18, 18 + ki) =~= r.key);
    assert(b.subrange(18 + ki, 18 + ki + vi) =~= r.value);
    assert(log.subrange(off + 18, off + 18 + ki) =~= b.subrange(18, 18 + ki));
    assert(log.subrange(off + 18 + ki, off + 18 + ki + vi) =~= b.subrange(18 + ki, 18 + ki + vi));
}

/// Decoding the encoding of any valid record gives the record back.
pub proof fn lemma_round_trip(r: Record)
    requires
        record_valid(r),
    ensures
        parse_at(record_bytes(r), 0) == Ok::<Record, Error>(r),
{
    let b = record_bytes(r);
    lemma_be_bytes_len(r.key.len(), 8);
    lemma_be_bytes_len(r.value.len(), 8);
    lemma_be_bytes_len(tag_of(r.mark), 2);
    assert(b.subrange(0, record_size(r) as int) =~= b);
    lemma_parse_record_bytes(b, 0, r);
}

} // verus!
