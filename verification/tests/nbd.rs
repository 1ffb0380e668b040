use clouddrive::memory::MemoryProvider;
use clouddrive::counting::CountingProvider;
use clouddrive::lru::LRUProvider;
use clouddrive::provider::CloudProvider;
use clouddrive::nbd::{
    encode_export_item, encode_handshake_greeting, encode_option_reply, encode_simple_reply,
    check_client_flags, classify_option, handle_request, parse_option_header,
    parse_transmission_header, push_u16_be, push_u32_be, push_u64_be, u16_from_be, u32_from_be,
    u64_from_be, HandshakeAction, NBDError, TransmissionRequest,
};

const BS: usize = 4096;

fn request_header(flags: u16, cmdtype: u16, handle: u64, offset: u64, length: u32) -> Vec<u8> {
    let mut h: Vec<u8> = Vec::new();
    push_u32_be(&mut h, 0x25609513);
    push_u16_be(&mut h, flags);
    push_u16_be(&mut h, cmdtype);
    push_u64_be(&mut h, handle);
    push_u64_be(&mut h, offset);
    push_u32_be(&mut h, length);
    h
}

#[test]
fn codec_round_trips() {
    let mut v: Vec<u8> = Vec::new();
    push_u16_be(&mut v, 0xBEEF);
    push_u32_be(&mut v, 0x25609513);
    push_u64_be(&mut v, 0x4e42444d41474943);
    assert_eq!(v.len(), 14);
    assert_eq!(u16_from_be(v[0], v[1]), 0xBEEF);
    assert_eq!(u32_from_be(v[2], v[3], v[4], v[5]), 0x25609513);
    assert_eq!(
        u64_from_be(v[6], v[7], v[8], v[9], v[10], v[11], v[12], v[13]),
        0x4e42444d41474943
    );
    assert_eq!(&v[0..2], &[0xBE, 0xEF]);
    assert_eq!(&v[2..6], &[0x25, 0x60, 0x95, 0x13]);
}

#[test]
fn parse_header_rejects_bad_magic() {
    let mut h = request_header(0, 0, 1, 0, 0);
    h[0] = 0;
    assert_eq!(
        parse_transmission_header(&h).map(|q| q.handle),
        Err(NBDError::RequestMagicError)
    );
}

#[test]
fn parse_header_fields() {
    let h = request_header(1, 1, 0x1122334455667788, 4096, 8192);
    let q = parse_transmission_header(&h).ok().unwrap();
    assert_eq!(q.flags, 1);
    assert_eq!(q.cmdtype, 1);
    assert_eq!(q.handle, 0x1122334455667788);
    assert_eq!(q.offset, 4096);
    assert_eq!(q.length, 8192);
    assert!(q.data.is_none());
}

#[test]
fn s4_nbd_read_reply() {
    let mut p = MemoryProvider::new(16384);
    let pattern: Vec<u8> = (0..BS).map(|i| (i % 199) as u8).collect();
    assert_eq!(p.write(4096, &pattern, false), Ok(()));
    let h = request_header(0, 0, 0xDEADBEEF, 4096, 4096);
    let req = parse_transmission_header(&h).ok().unwrap();
    let (resp, close) = handle_request(&mut p, &req);
    assert!(!close);
    assert_eq!(resp.error, 0);
    assert_eq!(resp.handle, 0xDEADBEEF);
    let wire = encode_simple_reply(&resp);
    assert_eq!(wire.len(), 16 + 4096);
    assert_eq!(u32_from_be(wire[0], wire[1], wire[2], wire[3]), 0x67446698);
    assert_eq!(u32_from_be(wire[4], wire[5], wire[6], wire[7]), 0);
    assert_eq!(
        u64_from_be(wire[8], wire[9], wire[10], wire[11], wire[12], wire[13], wire[14], wire[15]),
        0xDEADBEEF
    );
    assert_eq!(&wire[16..], &pattern[..]);
}

#[test]
fn s5_nbd_write_misaligned_rejected() {
    let mut p = MemoryProvider::new(16384);
    let req = TransmissionRequest {
        flags: 0,
        cmdtype: 1,
        handle: 0x77,
        offset: 100,
        length: 4096,
        data: Some(vec![5u8; 4096]),
    };
    let (resp, close) = handle_request(&mut p, &req);
    assert!(!close);
    assert_eq!(resp.error, 22);
    assert_eq!(resp.handle, 0x77);
    assert!(resp.data.is_none());
    let wire = encode_simple_reply(&resp);
    assert_eq!(wire.len(), 16);
}

#[test]
fn s6_nbd_disc_closes() {
    let mut p = MemoryProvider::new(16384);
    let req = TransmissionRequest {
        flags: 0,
        cmdtype: 2,
        handle: 9,
        offset: 0,
        length: 0,
        data: None,
    };
    let (resp, close) = handle_request(&mut p, &req);
    assert!(close);
    assert_eq!(resp.error, 0);
    assert_eq!(resp.handle, 9);
    assert!(resp.data.is_none());
}

#[test]
fn nbd_write_and_read_back() {
    let mut p = MemoryProvider::new(16384);
    let payload = vec![0x5Au8; 4096];
    let wreq = TransmissionRequest {
        flags: 0,
        cmdtype: 1,
        handle: 1,
        offset: 0,
        length: 4096,
        data: Some(payload.clone()),
    };
    let (wresp, _) = handle_request(&mut p, &wreq);
    assert_eq!(wresp.error, 0);
    let rreq = TransmissionRequest {
        flags: 0,
        cmdtype: 0,
        handle: 2,
        offset: 0,
        length: 4096,
        data: None,
    };
    let (rresp, _) = handle_request(&mut p, &rreq);
    assert_eq!(rresp.error, 0);
    assert_eq!(rresp.data.unwrap(), payload);
}

#[test]
fn nbd_write_out_of_bounds_enospc() {
    let mut p = MemoryProvider::new(16384);
    let req = TransmissionRequest {
        flags: 0,
        cmdtype: 1,
        handle: 3,
        offset: 16384,
        length: 4096,
        data: Some(vec![0u8; 4096]),
    };
    let (resp, _) = handle_request(&mut p, &req);
    assert_eq!(resp.error, 28);
    assert!(resp.data.is_none());
}

#[test]
fn nbd_zero_length_read_einval() {
    let mut p = MemoryProvider::new(16384);
    let req = TransmissionRequest {
        flags: 0,
        cmdtype: 0,
        handle: 4,
        offset: 0,
        length: 0,
        data: None,
    };
    let (resp, _) = handle_request(&mut p, &req);
    assert_eq!(resp.error, 22);
}

#[test]
fn nbd_unknown_command_einval() {
    let mut p = MemoryProvider::new(16384);
    let req = TransmissionRequest {
        flags: 0,
        cmdtype: 9,
        handle: 5,
        offset: 0,
        length: 0,
        data: None,
    };
    let (resp, close) = handle_request(&mut p, &req);
    assert!(!close);
    assert_eq!(resp.error, 22);
}

#[test]
fn nbd_flush_ok() {
    let mut p = LRUProvider::new(MemoryProvider::new(16384), 2);
    let w = TransmissionRequest {
        flags: 0,
        cmdtype: 1,
        handle: 6,
        offset: 0,
        length: 4096,
        data: Some(vec![1u8; 4096]),
    };
    let (wresp, _) = handle_request(&mut p, &w);
    assert_eq!(wresp.error, 0);
    let f = TransmissionRequest {
        flags: 0,
        cmdtype: 3,
        handle: 7,
        offset: 0,
        length: 0,
        data: None,
    };
    let (resp, close) = handle_request(&mut p, &f);
    assert!(!close);
    assert_eq!(resp.error, 0);
    assert_eq!(resp.handle, 7);
}

#[test]
fn nbd_fua_write_is_write_through() {
    let mut p = LRUProvider::new(CountingProvider::new(MemoryProvider::new(16384)), 2);
    let fua = TransmissionRequest {
        flags: 1,
        cmdtype: 1,
        handle: 8,
        offset: 0,
        length: 4096,
        data: Some(vec![2u8; 4096]),
    };
    let (resp, _) = handle_request(&mut p, &fua);
    assert_eq!(resp.error, 0);
    assert_eq!(p.lower().write_count(), 1);
    let plain = TransmissionRequest {
        flags: 0,
        cmdtype: 1,
        handle: 9,
        offset: 4096,
        length: 4096,
        data: Some(vec![3u8; 4096]),
    };
    let (resp2, _) = handle_request(&mut p, &plain);
    assert_eq!(resp2.error, 0);
    assert_eq!(p.lower().write_count(), 1);
}

#[test]
fn handshake_greeting_and_options() {
    let greeting = encode_handshake_greeting();
    assert_eq!(greeting.len(), 18);
    assert_eq!(
        u64_from_be(
            greeting[0],
            greeting[1],
            greeting[2],
            greeting[3],
            greeting[4],
            greeting[5],
            greeting[6],
            greeting[7]
        ),
        0x4e42444d41474943
    );
    assert_eq!(u16_from_be(greeting[16], greeting[17]), 1);

    assert!(check_client_flags(1).is_ok());
    assert_eq!(check_client_flags(3), Err(NBDError::ClientFlagsError));

    assert_eq!(classify_option(1), HandshakeAction::ServeExport);
    assert_eq!(classify_option(2), HandshakeAction::AckAbort);
    assert_eq!(classify_option(7), HandshakeAction::Unsupported);

    let mut oh: Vec<u8> = Vec::new();
    push_u64_be(&mut oh, 0x49484156454f5054);
    push_u32_be(&mut oh, 1);
    push_u32_be(&mut oh, 6);
    let parsed = parse_option_header(&oh).ok().unwrap();
    assert_eq!(parsed, (1, 6));
    let mut bad = oh.clone();
    bad[0] = 0;
    assert_eq!(parse_option_header(&bad), Err(NBDError::ClientOptionsError));

    let reply = encode_option_reply(2, 1, &Vec::new());
    assert_eq!(reply.len(), 20);
    assert_eq!(
        u64_from_be(
            reply[0], reply[1], reply[2], reply[3], reply[4], reply[5], reply[6], reply[7]
        ),
        0x3e889045565a9
    );
    assert_eq!(u32_from_be(reply[8], reply[9], reply[10], reply[11]), 2);

    let item = encode_export_item(16384, 0x000d);
    assert_eq!(item.len(), 10);
    assert_eq!(
        u64_from_be(item[0], item[1], item[2], item[3], item[4], item[5], item[6], item[7]),
        16384
    );
    assert_eq!(u16_from_be(item[8], item[9]), 0x000d);
}
