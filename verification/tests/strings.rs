//! String commands on all the encodings of a string.
use kevy_store::{GetReply, GetShared, Store, StoreError, Value};

/// Long enough to be shared.
fn big(fill: u8) -> Vec<u8> {
    vec![fill; 9000]
}

fn set(s: &mut Store, k: &[u8], v: &[u8]) {
    s.set(k, v.to_vec(), None, false, false);
}

#[test]
fn getdel_accepts_all_string_encodings() {
    let mut s = Store::new();
    set(&mut s, b"i", b"5");
    assert_eq!(s.getdel(b"i").unwrap(), Some(b"5".to_vec()), "Int encoding");
    assert!(s.get(b"i").unwrap().is_none(), "Int-encoded key not deleted");

    set(&mut s, b"s", b"hello");
    assert_eq!(s.getdel(b"s").unwrap(), Some(b"hello".to_vec()), "Str encoding");

    let b = big(b'x');
    set(&mut s, b"b", &b);
    assert_eq!(s.getdel(b"b").unwrap(), Some(b.clone()), "ArcBulk encoding");
    assert!(s.get(b"b").unwrap().is_none());
}

#[test]
fn getset_accepts_all_string_encodings() {
    let mut s = Store::new();
    set(&mut s, b"i", b"42");
    assert_eq!(s.getset(b"i", b"new".to_vec()).unwrap(), Some(b"42".to_vec()), "Int encoding");
    assert_eq!(s.get(b"i").unwrap().unwrap(), b"new");

    let b = big(b'y');
    set(&mut s, b"b", &b);
    assert_eq!(s.getset(b"b", b"tiny".to_vec()).unwrap(), Some(b), "ArcBulk");
}

#[test]
fn getset_stores_new_value_with_canonical_encoding() {
    let mut s = Store::new();
    set(&mut s, b"k", b"old");
    s.getset(b"k", b"41".to_vec()).unwrap();
    assert_eq!(s.incr_by(b"k", 1).unwrap(), 42);
}

#[test]
fn append_accepts_int_encoding() {
    let mut s = Store::new();
    set(&mut s, b"i", b"12");
    assert_eq!(s.append(b"i", b"ab").unwrap(), 4);
    assert_eq!(s.get(b"i").unwrap().unwrap(), b"12ab");
    set(&mut s, b"j", b"1");
    s.append(b"j", b"2").unwrap();
    assert_eq!(s.incr_by(b"j", 1).unwrap(), 13);
}

#[test]
fn collections_are_refused_by_string_commands() {
    let mut s = Store::new();
    s.rpush(b"l", &[b"a".as_slice()]).unwrap();
    assert_eq!(s.getdel(b"l"), Err(StoreError::WrongType));
    assert_eq!(s.getset(b"l", b"v".to_vec()), Err(StoreError::WrongType));
    assert_eq!(s.append(b"l", b"x"), Err(StoreError::WrongType));
    assert_eq!(s.strlen(b"l"), Err(StoreError::WrongType));
    assert_eq!(s.getbit(b"l", 0), Err(StoreError::WrongType));
    assert_eq!(s.setbit(b"l", 0, 1), Err(StoreError::WrongType));
    assert_eq!(s.bitcount(b"l", None), Err(StoreError::WrongType));
    assert_eq!(s.bitpos(b"l", 1, None), Err(StoreError::WrongType));
    assert_eq!(s.getrange(b"l", 0, -1), Err(StoreError::WrongType));
    assert_eq!(s.setrange(b"l", 0, b"x"), Err(StoreError::WrongType));
}

#[test]
fn getrange_past_the_end_is_empty() {
    let mut s = Store::new();
    s.set_slice(b"k", b"hello-world", None, false, false);
    assert_eq!(s.getrange(b"k", 0, 4).unwrap(), b"hello".to_vec());
    assert_eq!(s.getrange(b"k", -5, -1).unwrap(), b"world".to_vec());
    assert_eq!(s.getrange(b"k", 99, 200).unwrap(), Vec::<u8>::new());
    assert_eq!(s.getrange(b"k", 11, 11).unwrap(), Vec::<u8>::new());
    assert_eq!(s.getrange(b"k", 3, 2).unwrap(), Vec::<u8>::new());
    assert_eq!(s.getrange(b"k", 6, 999).unwrap(), b"world".to_vec());
}

#[test]
fn a_window_past_the_end_holds_no_bit() {
    let mut s = Store::new();
    s.set(b"k", vec![0xff], None, false, false);
    assert_eq!(s.bitcount(b"k", Some((5, 9))), Ok(0));
    assert_eq!(s.bitpos(b"k", 1, Some((5, 9))), Ok(None));
    assert_eq!(s.bitpos(b"k", 0, Some((5, 9))), Ok(None));
    assert_eq!(s.bitcount(b"k", Some((0, 9))), Ok(8));
    assert_eq!(s.bitcount(b"k", Some((-1, -1))), Ok(8));
    assert_eq!(s.bitcount(b"k", Some((-9, 0))), Ok(8));
    assert_eq!(s.bitcount(b"k", Some((0, -5))), Ok(8), "an end before the start is the start");
    assert_eq!(s.bitpos(b"k", 1, Some((0, -5))), Ok(Some(0)));
    s.set(b"m", vec![0x00, 0xf0, 0x01], None, false, false);
    assert_eq!(s.bitcount(b"m", Some((1, 1))), Ok(4));
    assert_eq!(s.bitpos(b"m", 1, Some((-1, -1))), Ok(Some(23)));
    assert_eq!(s.bitpos(b"m", 1, Some((2, 1))), Ok(None));
}

#[test]
fn bits_read_back_as_written() {
    let mut s = Store::new();
    assert_eq!(s.setbit(b"k", 7, 1), Ok(0));
    assert_eq!(s.getbit(b"k", 7), Ok(1));
    assert_eq!(s.getbit(b"k", 6), Ok(0));
    assert_eq!(s.get(b"k"), Ok(Some(vec![1u8])));
    assert_eq!(s.setbit(b"k", 0, 1), Ok(0));
    assert_eq!(s.setbit(b"k", 0, 1), Ok(1));
    assert_eq!(s.get(b"k"), Ok(Some(vec![0x81u8])));
    assert_eq!(s.bitcount(b"k", None), Ok(2));
    assert_eq!(s.bitpos(b"k", 0, None), Ok(Some(1)));
    assert_eq!(s.bitpos(b"k", 1, None), Ok(Some(0)));
}

#[test]
fn setrange_pads_with_zeroes() {
    let mut s = Store::new();
    assert_eq!(s.setrange(b"k", 3, b"ab"), Ok(5));
    assert_eq!(s.get(b"k"), Ok(Some(vec![0, 0, 0, b'a', b'b'])));
    assert_eq!(s.setrange(b"k", 0, b"xyz"), Ok(5));
    assert_eq!(s.get(b"k"), Ok(Some(b"xyzab".to_vec())));
    assert_eq!(s.setrange(b"none", 2, b""), Ok(2));
    assert_eq!(s.get(b"none"), Ok(Some(vec![0, 0])));
}

/// A long string is handed out by its handle, a short one as bytes.
#[test]
fn replies_share_long_strings() {
    let mut s = Store::new();
    let b = big(b'z');
    set(&mut s, b"long", &b);
    set(&mut s, b"short", b"abc");
    match s.get_for_reply(b"long") {
        Ok(Some(GetReply::ArcBulk(a))) => assert_eq!(*a, b),
        _ => panic!("a long string is shared"),
    }
    match s.get_for_reply(b"short") {
        Ok(Some(GetReply::Bytes(v))) => assert_eq!(v, b"abc"),
        _ => panic!("a short string is copied"),
    }
    match s.get_shared_owned(b"long") {
        Ok(Some(GetShared::Arc(a))) => assert_eq!(*a, b),
        _ => panic!("a long string is shared"),
    }
    assert_eq!(s.get_shared(b"short"), Ok(Some(b"abc".to_vec())));
    assert!(matches!(s.value_ref(b"long"), Some(Value::ArcBulk(_))));
}

/// A reply is framed with its length; a long one is left to its handle.
#[test]
fn replies_are_framed() {
    let mut s = Store::new();
    set(&mut s, b"short", b"abc");
    let b = big(b'q');
    set(&mut s, b"long", &b);
    let mut out = Vec::new();
    let mut arcs = Vec::new();
    assert_eq!(s.get_into_output(b"short", &mut out, &mut arcs), Ok(true));
    assert_eq!(out, b"$3\r\nabc\r\n");
    assert!(arcs.is_empty());
    assert_eq!(s.get_into_output(b"none", &mut out, &mut arcs), Ok(false));
    assert_eq!(out, b"$3\r\nabc\r\n");
    assert_eq!(s.get_into_output(b"long", &mut out, &mut arcs), Ok(true));
    assert_eq!(arcs.len(), 1);
    assert_eq!(*arcs[0].1, b);
}

#[test]
fn a_string_written_is_read_back_and_others_stay() {
    let mut s = Store::new();
    set(&mut s, b"other", b"1");
    for v in [&b""[..], b"0", b"007", b"-5", b"-0", b"9223372036854775807", b"text"] {
        set(&mut s, b"k", v);
        assert_eq!(s.get(b"k"), Ok(Some(v.to_vec())));
    }
    assert_eq!(s.get(b"other"), Ok(Some(b"1".to_vec())));
}
