use p2p_node::peer::{handshake_message, ping_message, pong_message};
use p2p_node::protocols::{
    Base, Handshake, PeerInfo, ProtoImpl, WireError, KIND_HANDSHAKE, KIND_PEER_INFO, KIND_PING,
    KIND_PONG, KIND_TEST,
};

fn base(kind: &str, data: Vec<u8>) -> Base {
    Base { kind: kind.to_string(), data }
}

#[test]
fn base_encodes_kind_then_data() {
    let b = base("PING", vec![1, 2]);
    assert_eq!(b.to_bytes(), vec![0x0a, 4, b'P', b'I', b'N', b'G', 0x12, 2, 1, 2]);
}

#[test]
fn default_fields_are_not_written() {
    assert_eq!(base("", Vec::new()).to_bytes(), Vec::<u8>::new());
    assert_eq!(Handshake { port: 0 }.to_bytes(), Vec::<u8>::new());
    assert_eq!(PeerInfo { port: 0, ip: String::new() }.to_bytes(), Vec::<u8>::new());
    assert_eq!(base("", vec![7]).to_bytes(), vec![0x12, 1, 7]);
}

#[test]
fn handshake_port_is_a_varint() {
    assert_eq!(Handshake { port: 8080 }.to_bytes(), vec![0x08, 0x90, 0x3f]);
    assert_eq!(Handshake { port: 127 }.to_bytes(), vec![0x08, 0x7f]);
    assert_eq!(Handshake { port: 128 }.to_bytes(), vec![0x08, 0x80, 0x01]);
    assert_eq!(
        Handshake { port: u32::MAX }.to_bytes(),
        vec![0x08, 0xff, 0xff, 0xff, 0xff, 0x0f]
    );
}

#[test]
fn peer_info_encodes_port_then_ip() {
    let p = PeerInfo { port: 300, ip: "10.0.0.1".to_string() };
    let mut expected = vec![0x08, 0xac, 0x02, 0x12, 8];
    expected.extend_from_slice(b"10.0.0.1");
    assert_eq!(p.to_bytes(), expected);
}

#[test]
fn messages_read_back() {
    for b in [base("HANDSHAKE", vec![0x08, 1]), base("", vec![]), base("é✓", vec![0; 300])] {
        assert_eq!(Base::from_bytes(&b.to_bytes()), Ok(b));
    }
    for port in [0u32, 1, 5000, 65535, 1 << 20, u32::MAX] {
        let h = Handshake { port };
        assert_eq!(Handshake::from_bytes(&h.to_bytes()), Ok(h));
    }
    let p = PeerInfo { port: 9000, ip: "::1".to_string() };
    assert_eq!(PeerInfo::from_bytes(&p.to_bytes()), Ok(p));
}

#[test]
fn empty_input_decodes_to_defaults() {
    assert_eq!(Base::from_bytes(&[]), Ok(base("", Vec::new())));
    assert_eq!(Handshake::from_bytes(&[]), Ok(Handshake { port: 0 }));
    assert_eq!(PeerInfo::from_bytes(&[]), Ok(PeerInfo { port: 0, ip: String::new() }));
}

#[test]
fn last_occurrence_of_a_field_wins() {
    let bytes = [0x0a, 1, b'a', 0x0a, 1, b'b'];
    assert_eq!(Base::from_bytes(&bytes), Ok(base("b", Vec::new())));
}

#[test]
fn unknown_fields_are_skipped() {
    // field 3 (varint), field 4 (32-bit), then the kind
    let bytes = [0x18, 0x96, 0x01, 0x25, 1, 2, 3, 4, 0x0a, 1, b'x'];
    assert_eq!(Base::from_bytes(&bytes), Ok(base("x", Vec::new())));
}

#[test]
fn lone_unknown_fields_leave_defaults() {
    assert_eq!(Base::from_bytes(&[0x18, 0x01]), Ok(base("", Vec::new())));
    // field 5, 64-bit
    assert_eq!(Base::from_bytes(&[0x29, 1, 2, 3, 4, 5, 6, 7, 8]), Ok(base("", Vec::new())));
    // field 6, length-delimited
    assert_eq!(Handshake::from_bytes(&[0x32, 2, 9, 9, 0x08, 7]), Ok(Handshake { port: 7 }));
    // a 64-bit field cut short, and an end-group with no start
    assert_eq!(Base::from_bytes(&[0x29, 1, 2]), Err(WireError));
    assert_eq!(Base::from_bytes(&[0x1c]), Err(WireError));
}

#[test]
fn truncated_field_is_refused() {
    assert_eq!(Base::from_bytes(&[0x0a, 5, b'a']), Err(WireError));
    assert_eq!(Base::from_bytes(&[0x0a]), Err(WireError));
    assert_eq!(Handshake::from_bytes(&[0x08, 0x80]), Err(WireError));
}

#[test]
fn wrong_wire_type_is_refused() {
    assert_eq!(Base::from_bytes(&[0x08, 1]), Err(WireError));
    assert_eq!(Handshake::from_bytes(&[0x0a, 0]), Err(WireError));
}

#[test]
fn invalid_utf8_is_refused() {
    assert_eq!(Base::from_bytes(&[0x0a, 1, 0xff]), Err(WireError));
    assert_eq!(PeerInfo::from_bytes(&[0x12, 2, 0xc3, 0x28]), Err(WireError));
}

#[test]
fn invalid_keys_are_refused() {
    // tag 0
    assert_eq!(Base::from_bytes(&[0x02, 0]), Err(WireError));
    // wire type 7
    assert_eq!(Base::from_bytes(&[0x0f]), Err(WireError));
    // an unexpected end of group
    assert_eq!(Base::from_bytes(&[0x1c]), Err(WireError));
}

#[test]
fn uint32_keeps_the_low_bits() {
    // 2^32 + 5
    let bytes = [0x08, 0x85, 0x80, 0x80, 0x80, 0x10];
    assert_eq!(Handshake::from_bytes(&bytes), Ok(Handshake { port: 5 }));
}

#[test]
fn overlong_varint_is_refused() {
    let bytes = [0x08, 0xff, 0xff, 0xff, 0xff, 0xff, 0xff, 0xff, 0xff, 0xff, 0x02];
    assert_eq!(Handshake::from_bytes(&bytes), Err(WireError));
    let eleven = [0x08, 0x80, 0x80, 0x80, 0x80, 0x80, 0x80, 0x80, 0x80, 0x80, 0x80, 0x00];
    assert_eq!(Handshake::from_bytes(&eleven), Err(WireError));
    // a non-minimal but short encoding of 1 is accepted
    assert_eq!(Handshake::from_bytes(&[0x08, 0x81, 0x00]), Ok(Handshake { port: 1 }));
}

#[test]
fn node_messages_have_their_kinds() {
    let hs = Base::from_bytes(&handshake_message(4000)).unwrap();
    assert_eq!(hs.kind, KIND_HANDSHAKE);
    assert_eq!(Handshake::from_bytes(&hs.data), Ok(Handshake { port: 4000 }));
    assert_eq!(Base::from_bytes(&ping_message()), Ok(base(KIND_PING, Vec::new())));
    assert_eq!(Base::from_bytes(&pong_message()), Ok(base(KIND_PONG, Vec::new())));
    assert_eq!(ping_message(), vec![0x0a, 4, b'P', b'I', b'N', b'G']);
    assert_ne!(KIND_TEST, KIND_PEER_INFO);
}

#[test]
fn concatenated_messages_merge() {
    let mut bytes = base("A", vec![1]).to_bytes();
    bytes.extend(base("", vec![2]).to_bytes());
    assert_eq!(Base::from_bytes(&bytes), Ok(base("A", vec![2])));
    let mut bytes = base("A", vec![1]).to_bytes();
    bytes.extend(base("B", vec![]).to_bytes());
    assert_eq!(Base::from_bytes(&bytes), Ok(base("B", vec![1])));
}
