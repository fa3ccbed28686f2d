use bytes::BytesMut;
use kissvpn::buffer::{as_slice, get_u16, get_u32, put_u16, put_u32, put_u8};
use kissvpn::constants::{BUF_CAPACITY, NONCE_SIZE, TAG_SIZE, TRANSPORT_MTU, UDP_MTU, VPN_MTU};

#[test]
fn test_mtu_budget() {
    assert_eq!(VPN_MTU, 1362);
    assert_eq!(TRANSPORT_MTU, 1392);
    assert_eq!(UDP_MTU, 1464);
    assert_eq!(BUF_CAPACITY, 1500);
    assert!(VPN_MTU + NONCE_SIZE + TAG_SIZE <= TRANSPORT_MTU);
}

#[test]
fn test_big_endian_writes() {
    let mut buf = BytesMut::new();
    put_u8(&mut buf, 0xab);
    put_u16(&mut buf, 0x0102);
    put_u32(&mut buf, 0x0304_0506);
    put_u16(&mut buf, 0xffff);
    put_u32(&mut buf, 300);
    assert_eq!(
        as_slice(&buf),
        &[0xab, 1, 2, 3, 4, 5, 6, 0xff, 0xff, 0, 0, 1, 44]
    );
}

#[test]
fn test_big_endian_reads() {
    let bytes = [0xab, 1, 2, 3, 4, 5, 6, 0xff, 0xff];
    assert_eq!(get_u16(&bytes, 1), 0x0102);
    assert_eq!(get_u16(&bytes, 7), 0xffff);
    assert_eq!(get_u32(&bytes, 3), 0x0304_0506);
    assert_eq!(get_u32(&bytes, 5), 0x0506_ffff);
}
