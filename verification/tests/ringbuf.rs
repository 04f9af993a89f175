use wraft::ringbuf::{Error, RingBuf};

#[test]
fn test_overflow() {
    let mut buf = RingBuf::with_capacity(4);
    for i in 0..4 {
        let ret = buf.add("foo");
        assert_eq!(ret.unwrap(), i);
    }
    let ohno = buf.add("nope!");
    assert_eq!(ohno, Err(Error::Overflow("nope!")));

    assert_eq!(buf.remove(0).unwrap(), "foo");
    assert_eq!(Ok(4), buf.add("ok now!"));
}

#[test]
fn test_add_variations() {
    let mut buf = RingBuf::with_capacity(4);
    let a_idx = buf.add("a").unwrap();
    let b_idx = buf.add("b").unwrap();
    let c_idx = buf.add("c").unwrap();
    let d_idx = buf.add("d").unwrap();

    assert_eq!(buf.remove(b_idx).unwrap(), "b");
    assert_eq!(buf.remove(c_idx).unwrap(), "c");
    assert_eq!(buf.remove(d_idx).unwrap(), "d");
    assert_eq!(buf.remove(a_idx).unwrap(), "a");
    assert_eq!(buf.remove(b_idx), None);

    let foo_idx = buf.add("foo").unwrap();
    assert_eq!(buf.remove(a_idx), None);
    assert_eq!(buf.remove(foo_idx).unwrap(), "foo");
}

#[test]
fn nearby_indices_have_slots_of_their_own() {
    let buf: RingBuf<u8> = RingBuf::with_capacity(4);
    assert_eq!(buf.data_idx(3), 3);
    assert_eq!(buf.data_idx(4), 0);
    for i in 0..20usize {
        for d in 1..4usize {
            assert_ne!(buf.data_idx(i), buf.data_idx(i + d));
        }
    }
}
