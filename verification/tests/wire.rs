use abada::json::wire::{put_tag, put_varint, Reader};
use abada::json::JsonErrorKind;

#[test]
fn varints_are_seven_bits_at_a_time() {
    let mut out = Vec::new();
    put_varint(&mut out, 300);
    assert_eq!(out, vec![0xac, 0x02]);
    let mut out = Vec::new();
    put_varint(&mut out, u64::MAX);
    assert_eq!(out.len(), 10);
    assert_eq!(out[9], 1);
    let mut r = Reader::new(&out);
    assert_eq!(r.varint().unwrap(), u64::MAX);
    assert_eq!(r.position(), 10);
}

#[test]
fn what_is_written_reads_back() {
    for v in [0u64, 1, 127, 128, 16383, 16384, 1 << 35, (1 << 63) + 5] {
        let mut out = Vec::new();
        put_varint(&mut out, v);
        out.push(0xff);
        let mut r = Reader::new(&out);
        assert_eq!(r.varint().unwrap(), v);
        assert_eq!(r.position(), out.len() - 1);
    }
}

#[test]
fn malformed_varints_are_refused() {
    let mut r = Reader::new(&[0x80, 0x80]);
    let e = r.varint().unwrap_err();
    assert_eq!(e.kind(), JsonErrorKind::Marshal);
    assert_eq!(e.message(), b"proto: cannot parse invalid wire-format data");
    assert_eq!(r.position(), 0);
    let eleven = [0xff, 0xff, 0xff, 0xff, 0xff, 0xff, 0xff, 0xff, 0xff, 0x02];
    assert!(Reader::new(&eleven).varint().is_err());
}

#[test]
fn tags_carry_a_number_and_a_wire_type() {
    let mut out = Vec::new();
    put_tag(&mut out, 150, 2);
    let mut r = Reader::new(&out);
    assert_eq!(r.tag().unwrap(), (150, 2));
    assert!(Reader::new(&[0x02]).tag().is_err());
}

#[test]
fn fields_of_every_wire_type_are_skipped() {
    // varint, fixed64, bytes, fixed32, then a group holding a varint.
    let mut buf = vec![0x96, 0x01];
    buf.extend_from_slice(&[1, 2, 3, 4, 5, 6, 7, 8]);
    buf.extend_from_slice(&[3, b'a', b'b', b'c']);
    buf.extend_from_slice(&[9, 9, 9, 9]);
    put_tag(&mut buf, 1, 0);
    buf.push(5);
    put_tag(&mut buf, 7, 4);
    let mut r = Reader::new(&buf);
    r.skip(1, 0, 10).unwrap();
    assert_eq!(r.position(), 2);
    r.skip(1, 1, 10).unwrap();
    assert_eq!(r.position(), 10);
    assert_eq!(Reader::new(&buf[10..]).bytes().unwrap(), b"abc");
    r.skip(1, 2, 10).unwrap();
    r.skip(1, 5, 10).unwrap();
    assert_eq!(r.position(), 18);
    r.skip(7, 3, 10).unwrap();
    assert_eq!(r.position(), buf.len());
    let mut wrong_end = Reader::new(&buf[18..]);
    assert!(wrong_end.skip(8, 3, 10).is_err());
    let mut too_deep = Reader::new(&buf[18..]);
    assert!(too_deep.skip(7, 3, 0).is_err());
    assert!(Reader::new(&[]).skip(1, 6, 10).is_err());
}
