use y_sweet_server::keys::DocId;
use y_sweet_server::mux::Frame;
use y_sweet_server::wire::{
    decode_header, decode_inbound, encode_header, encode_hello, encode_outbound, Inbound,
    AWARENESS, HEADER_LEN, HELLO, REFUSED, UPDATE,
};

#[test]
fn header_is_kind_and_big_endian_length() {
    assert_eq!(encode_header(UPDATE, 0), vec![1, 0, 0, 0, 0]);
    assert_eq!(encode_header(AWARENESS, 0x0102_0304), vec![2, 1, 2, 3, 4]);
    assert_eq!(encode_header(REFUSED, u32::MAX), vec![255, 255, 255, 255, 255]);
    assert_eq!(encode_header(HELLO, 256).len(), HEADER_LEN);
}

#[test]
fn header_reads_back() {
    for (kind, len) in [(HELLO, 0u32), (UPDATE, 1), (AWARENESS, 65_536), (7, u32::MAX), (9, 0x00ff_0100)] {
        assert_eq!(decode_header(&encode_header(kind, len)), Some((kind, len)));
    }
    assert_eq!(decode_header(&[1, 0, 0, 0]), None);
    assert_eq!(decode_header(&[1, 0, 0, 0, 0, 0]), None);
    assert_eq!(decode_header(&[]), None);
}

#[test]
fn hello_carries_token_and_document() {
    let doc = DocId::new("doc-A");
    let token = b"abcdef".to_vec();
    let payload = encode_hello(Some(&token), &doc).unwrap();
    assert_eq!(payload, b"\x00\x06abcdefdoc-A".to_vec());
    match decode_inbound(HELLO, &payload) {
        Some(Inbound::Hello { token: Some(t), doc: d }) => {
            assert_eq!(t, token);
            assert!(d.same(&doc));
        }
        other => panic!("unexpected {:?}", other),
    }
    let bare = encode_hello(None, &doc).unwrap();
    assert_eq!(bare, b"\x00\x00doc-A".to_vec());
    match decode_inbound(HELLO, &bare) {
        Some(Inbound::Hello { token: None, doc: d }) => assert!(d.same(&doc)),
        other => panic!("unexpected {:?}", other),
    }
    let long = vec![b'x'; 300];
    let payload = encode_hello(Some(&long), &doc).unwrap();
    assert_eq!(payload[..2].to_vec(), vec![1, 44]);
    assert!(matches!(
        decode_inbound(HELLO, &payload),
        Some(Inbound::Hello { token: Some(t), .. }) if t == long
    ));
    assert!(encode_hello(Some(&vec![0; 65_535]), &doc).is_some());
    assert!(encode_hello(Some(&vec![0; 65_536]), &doc).is_none());
}

#[test]
fn malformed_frames_are_refused() {
    assert!(decode_inbound(HELLO, &vec![]).is_none());
    assert!(decode_inbound(HELLO, &vec![0]).is_none());
    assert!(decode_inbound(HELLO, &vec![0, 3, b'a', b'b']).is_none());
    assert!(decode_inbound(3, &vec![1, 2]).is_none());
    assert!(decode_inbound(REFUSED, &vec![]).is_none());
    // a token that fills the frame leaves the empty document name
    assert!(matches!(
        decode_inbound(HELLO, &vec![0, 2, b'a', b'b']),
        Some(Inbound::Hello { token: Some(_), doc }) if doc.as_bytes().is_empty()
    ));
}

#[test]
fn updates_and_presence_are_carried_as_they_are() {
    assert!(matches!(decode_inbound(UPDATE, &vec![9, 8]), Some(Inbound::Update(b)) if b == vec![9, 8]));
    assert!(matches!(decode_inbound(UPDATE, &vec![]), Some(Inbound::Update(b)) if b.is_empty()));
    assert!(matches!(
        decode_inbound(AWARENESS, &vec![7]),
        Some(Inbound::Awareness(b)) if b == vec![7]
    ));
    assert_eq!(encode_outbound(&Frame::Update(vec![9, 8])), (UPDATE, vec![9, 8]));
    assert_eq!(
        encode_outbound(&Frame::Awareness(0x0102_0304_0506_0708, vec![7])),
        (AWARENESS, vec![1, 2, 3, 4, 5, 6, 7, 8, 7])
    );
    assert_eq!(
        encode_outbound(&Frame::Awareness(u64::MAX, vec![])),
        (AWARENESS, vec![255; 8])
    );
    assert_eq!(encode_outbound(&Frame::Awareness(5, vec![])), (AWARENESS, vec![0, 0, 0, 0, 0, 0, 0, 5]));
}
