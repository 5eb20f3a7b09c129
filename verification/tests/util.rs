use minikernel::util::{memcpy, memset, strcmp, strcpy, Writer};

#[test]
fn memset_fills_prefix_only() {
    let mut buf: Vec<u8> = vec![7; 8];
    memset(&mut buf, 0xab, 5);
    assert_eq!(buf, vec![0xab, 0xab, 0xab, 0xab, 0xab, 7, 7, 7]);
}

#[test]
fn memcpy_copies_prefix_only() {
    let mut dst: Vec<u8> = vec![0; 6];
    let src: Vec<u8> = vec![1, 2, 3, 4, 5, 6];
    memcpy(&mut dst, &src, 4);
    assert_eq!(dst, vec![1, 2, 3, 4, 0, 0]);
}

#[test]
fn strcpy_copies_through_terminator() {
    let src: Vec<u8> = vec![b'h', b'i', 0, b'x'];
    let mut dst: Vec<u8> = vec![0xff; 6];
    let n = strcpy(&mut dst, &src);
    assert_eq!(n, 2);
    assert_eq!(dst, vec![b'h', b'i', 0, 0xff, 0xff, 0xff]);
}

#[test]
fn strcmp_orders_strings() {
    let a: Vec<u8> = vec![b'a', b'b', 0];
    let b: Vec<u8> = vec![b'a', b'c', 0];
    let a2: Vec<u8> = vec![b'a', b'b', 0, b'z'];
    assert_eq!(strcmp(&a, &b), -1);
    assert_eq!(strcmp(&b, &a), 1);
    assert_eq!(strcmp(&a, &a2), 0);
}

#[test]
fn strcmp_shorter_string_orders_first() {
    let a: Vec<u8> = vec![b'a', 0];
    let b: Vec<u8> = vec![b'a', b'b', 0];
    assert_eq!(strcmp(&a, &b), -1);
    assert_eq!(strcmp(&b, &a), 1);
}

#[test]
fn writer_appends_bytes_in_order() {
    let mut w = Writer::new();
    w.write_str("hello, ");
    w.write_str("world\n");
    assert_eq!(w.buf, b"hello, world\n".to_vec());
}
