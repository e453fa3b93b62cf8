use minidb::codec::{Entry, Header};
use minidb::method::Method;
use minidb::store::Store;
use minidb::Error;

struct Mem {
    store: Store,
    log: Vec<u8>,
}

fn open(log: Vec<u8>) -> Result<Mem, Error> {
    let store = Store::open(&log)?;
    Ok(Mem { store, log })
}

fn write(m: &mut Mem, e: Entry) {
    assert_eq!(m.log.len() as u64, m.store.next_offset());
    m.log.extend_from_slice(&e.encode());
    m.store.commit(e);
}

fn put(m: &mut Mem, k: &[u8], v: &[u8]) -> Result<(), Error> {
    let e = m.store.prepare_put(k.to_vec(), v.to_vec())?;
    write(m, e);
    Ok(())
}

fn get(m: &Mem, k: &[u8]) -> Result<Vec<u8>, Error> {
    let off = m.store.lookup(k)?;
    Ok(Entry::read_entry(&m.log, off)?.value)
}

fn delete(m: &mut Mem, k: &[u8]) -> Result<(), Error> {
    let e = m.store.prepare_delete(k.to_vec())?;
    write(m, e);
    Ok(())
}

fn merge(m: &mut Mem) -> Result<(), Error> {
    if let Some(merged) = m.store.merge(&m.log)? {
        m.log = merged.bytes;
        m.store = merged.store;
    }
    Ok(())
}

fn count_records(log: &[u8]) -> usize {
    let mut off = 0u64;
    let mut n = 0;
    while let Ok(e) = Entry::read_entry(log, off) {
        off += e.get_size();
        n += 1;
    }
    n
}

fn fill(m: &mut Mem) {
    for i in 0..10000u64 {
        let key = format!("test_key_{}", i % 5);
        let val = format!("test_val_{}", i.wrapping_mul(0x9E37_79B9_7F4A_7C15));
        put(m, key.as_bytes(), val.as_bytes()).unwrap();
    }
}

#[test]
fn test_open() {
    let mut m = open(Vec::new()).unwrap();
    m.store.remove();
    assert_eq!(put(&mut m, b"a", b"1"), Err(Error::DBFileNotExist));
    m.store.remove();
    assert!(!m.store.is_open());
}

#[test]
fn test_put() {
    let mut m = open(Vec::new()).unwrap();
    fill(&mut m);
    assert_eq!(count_records(&m.log), 10000);
}

#[test]
fn test_get() {
    let mut m = open(Vec::new()).unwrap();
    fill(&mut m);
    for i in 0..5u64 {
        let key = format!("test_key_{}", i);
        let last = 9995 + i;
        let want = format!("test_val_{}", last.wrapping_mul(0x9E37_79B9_7F4A_7C15));
        assert_eq!(get(&m, key.as_bytes()).unwrap(), want.into_bytes());
    }
}

#[test]
fn test_delete() {
    let mut m = open(Vec::new()).unwrap();
    fill(&mut m);
    delete(&mut m, b"test_key_1").unwrap();
    delete(&mut m, b"test_key_2").unwrap();
    delete(&mut m, b"test_key_3").unwrap();
    assert!(delete(&mut m, b"test_key_7").is_err());
    assert!(delete(&mut m, b"test_key_8").is_err());
    assert!(delete(&mut m, b"test_key_9").is_err());
}

#[test]
fn test_merge() {
    let mut m = open(Vec::new()).unwrap();
    fill(&mut m);
    merge(&mut m).unwrap();
    assert_eq!(count_records(&m.log), 5);
    assert_eq!(m.log.len() as u64, m.store.next_offset());
}

#[test]
fn encode_exact_bytes() {
    let e = Entry::new(b"ab".to_vec(), b"xyz".to_vec(), Method::Put).unwrap();
    assert_eq!(e.get_size(), 23);
    let mut want = vec![0, 0, 0, 0, 0, 0, 0, 2, 0, 0, 0, 0, 0, 0, 0, 3, 0, 0];
    want.extend_from_slice(b"abxyz");
    assert_eq!(e.encode(), want);
    let d = Entry::new(b"k".to_vec(), Vec::new(), Method::Del).unwrap();
    assert_eq!(d.encode(), vec![0, 0, 0, 0, 0, 0, 0, 1, 0, 0, 0, 0, 0, 0, 0, 0, 0, 1, b'k']);
}

#[test]
fn big_endian_lengths() {
    let key = vec![7u8; 300];
    let e = Entry::new(key, Vec::new(), Method::Put).unwrap();
    let b = e.encode();
    assert_eq!(&b[0..8], &[0, 0, 0, 0, 0, 0, 1, 44]);
    let h = Entry::decode_header(&b[0..18]).unwrap();
    assert_eq!(h, Header { key_size: 300, value_size: 0, mark: Method::Put });
}

#[test]
fn round_trip_records() {
    let cases: Vec<(Vec<u8>, Vec<u8>, Method)> = vec![
        (b"key".to_vec(), b"value".to_vec(), Method::Put),
        (b"key".to_vec(), Vec::new(), Method::Put),
        (b"gone".to_vec(), Vec::new(), Method::Del),
        (Vec::new(), Vec::new(), Method::Put),
    ];
    for (k, v, m) in cases {
        let e = Entry::new(k.clone(), v.clone(), m).unwrap();
        let d = Entry::read_entry(&e.encode(), 0).unwrap();
        assert_eq!(d.key, k);
        assert_eq!(d.value, v);
        assert_eq!(d.mark, m);
        assert_eq!(d.key_size, k.len() as u64);
        assert_eq!(d.value_size, v.len() as u64);
    }
}

#[test]
fn decode_header_errors() {
    assert_eq!(Entry::decode_header(&[]), Err(Error::EmptyContent));
    assert_eq!(Entry::decode_header(&[0u8; 10]), Err(Error::Eof));
    let mut h = vec![0u8; 18];
    h[17] = 2;
    assert_eq!(Entry::decode_header(&h), Err(Error::InvalidRecord));
}

#[test]
fn read_entry_errors() {
    let e = Entry::new(b"a".to_vec(), b"1".to_vec(), Method::Put).unwrap();
    let b = e.encode();
    assert_eq!(Entry::read_entry(&b, 20).err(), Some(Error::InvalidOffset));
    assert_eq!(Entry::read_entry(&b[..10], 0).err(), Some(Error::Eof));
    assert_eq!(Entry::read_entry(&b[..19], 0).err(), Some(Error::Eof));
}

#[test]
fn method_tags() {
    assert_eq!(Method::Put.tag(), 0);
    assert_eq!(Method::Del.tag(), 1);
    assert_eq!(Method::from_tag(1), Ok(Method::Del));
    assert_eq!(Method::from_tag(9), Err(Error::InvalidRecord));
    assert_eq!(Method::default(), Method::Put);
}

#[test]
fn scenario_overwrite() {
    let mut m = open(Vec::new()).unwrap();
    put(&mut m, b"a", b"1").unwrap();
    assert_eq!(get(&m, b"a").unwrap(), b"1".to_vec());
    put(&mut m, b"a", b"2").unwrap();
    assert_eq!(get(&m, b"a").unwrap(), b"2".to_vec());
    assert_eq!(count_records(&m.log), 2);
}

#[test]
fn put_get_empty_value() {
    let mut m = open(Vec::new()).unwrap();
    put(&mut m, b"k", b"").unwrap();
    assert_eq!(get(&m, b"k").unwrap(), Vec::<u8>::new());
}

#[test]
fn scenario_delete_twice() {
    let mut m = open(Vec::new()).unwrap();
    put(&mut m, b"x", b"1").unwrap();
    delete(&mut m, b"x").unwrap();
    assert_eq!(get(&m, b"x"), Err(Error::KeyNotExists));
    assert_eq!(delete(&mut m, b"x"), Err(Error::KeyNotExists));
}

#[test]
fn scenario_merge_drops_dead() {
    let mut m = open(Vec::new()).unwrap();
    put(&mut m, b"a", b"1").unwrap();
    put(&mut m, b"b", b"1").unwrap();
    delete(&mut m, b"a").unwrap();
    let before = m.log.len();
    merge(&mut m).unwrap();
    assert_eq!(get(&m, b"a"), Err(Error::KeyNotExists));
    assert_eq!(get(&m, b"b").unwrap(), b"1".to_vec());
    assert_eq!(count_records(&m.log), 1);
    assert!(m.log.len() <= before);
}

#[test]
fn scenario_merge_empty() {
    let mut m = open(Vec::new()).unwrap();
    assert!(m.store.merge(&m.log).unwrap().is_none());
    merge(&mut m).unwrap();
    assert!(m.log.is_empty());
}

#[test]
fn merge_with_only_dead_records_is_noop() {
    let mut m = open(Vec::new()).unwrap();
    put(&mut m, b"a", b"1").unwrap();
    delete(&mut m, b"a").unwrap();
    assert!(m.store.merge(&m.log).unwrap().is_none());
}

#[test]
fn merge_twice_changes_nothing() {
    let mut m = open(Vec::new()).unwrap();
    put(&mut m, b"a", b"1").unwrap();
    put(&mut m, b"b", b"2").unwrap();
    put(&mut m, b"a", b"3").unwrap();
    merge(&mut m).unwrap();
    let once = m.log.clone();
    merge(&mut m).unwrap();
    assert_eq!(m.log, once);
    assert_eq!(get(&m, b"a").unwrap(), b"3".to_vec());
    assert_eq!(get(&m, b"b").unwrap(), b"2".to_vec());
}

#[test]
fn empty_key_rejected() {
    let mut m = open(Vec::new()).unwrap();
    assert_eq!(put(&mut m, b"", b"v"), Err(Error::EmptyKey));
    assert_eq!(get(&m, b""), Err(Error::EmptyKey));
    assert_eq!(delete(&mut m, b""), Err(Error::EmptyKey));
    assert!(m.log.is_empty());
}

#[test]
fn reopen_recovers_index() {
    let mut m = open(Vec::new()).unwrap();
    put(&mut m, b"a", b"1").unwrap();
    put(&mut m, b"b", b"2").unwrap();
    put(&mut m, b"a", b"3").unwrap();
    delete(&mut m, b"b").unwrap();
    put(&mut m, b"c", b"").unwrap();
    let again = open(m.log.clone()).unwrap();
    assert_eq!(again.store.next_offset(), m.log.len() as u64);
    assert_eq!(get(&again, b"a").unwrap(), b"3".to_vec());
    assert_eq!(get(&again, b"b"), Err(Error::KeyNotExists));
    assert_eq!(get(&again, b"c").unwrap(), Vec::<u8>::new());
}

#[test]
fn reopen_stops_at_torn_tail() {
    let mut m = open(Vec::new()).unwrap();
    put(&mut m, b"a", b"1").unwrap();
    let mut log = m.log.clone();
    log.extend_from_slice(&[0, 0, 0]);
    let again = open(log).unwrap();
    assert_eq!(get(&again, b"a").unwrap(), b"1".to_vec());
}

#[test]
fn reopen_fails_on_bad_tag() {
    let mut m = open(Vec::new()).unwrap();
    put(&mut m, b"a", b"1").unwrap();
    let mut log = m.log.clone();
    log[17] = 5;
    assert_eq!(open(log).err(), Some(Error::InvalidRecord));
}

#[test]
fn error_conversions() {
    assert_eq!(Error::from_io(true, String::from("x")), Error::Eof);
    assert_eq!(Error::from_io(false, String::from("disk")), Error::Io(String::from("disk")));
    assert_eq!(Error::from_poison(), Error::MutexPoison);
    assert!(Error::InvalidOffset.is_end());
    assert!(!Error::KeyNotExists.is_end());
    assert_eq!(Error::EmptyKey.message(), "empty key");
}
