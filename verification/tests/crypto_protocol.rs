use mc_link::crypto::{calculate_checksum, decrypt, derive_key, encrypt};
use mc_link::protocol::{
    bytes_equal, classify_host_inbound, data_packet, frame_length, frame_packet, pack_packet,
    registration_reply, relay_test_packet, relayed_data, try_decrypt_response, unwrap_data,
    HostInbound, RegistrationReply,
};

fn hex(bytes: &[u8]) -> String {
    bytes.iter().map(|b| format!("{:02x}", b)).collect()
}

#[test]
fn derive_key_is_sha256_of_password() {
    assert_eq!(
        hex(&derive_key("abc")),
        "ba7816bf8f01cfea414140de5dae2223b00361a396177a9cb410ff61f20015ad"
    );
    assert_eq!(
        hex(&derive_key("")),
        "e3b0c44298fc1c149afbf4c8996fb92427ae41e4649b934ca495991b7852b855"
    );
}

#[test]
fn encrypt_pads_to_whole_blocks() {
    assert_eq!(encrypt(b"", "pw").len(), 16);
    assert_eq!(encrypt(b"hello", "pw").len(), 16);
    assert_eq!(encrypt(&[7u8; 15], "pw").len(), 16);
    assert_eq!(encrypt(&[7u8; 16], "pw").len(), 32);
    assert_eq!(encrypt(&[7u8; 33], "pw").len(), 48);
}

#[test]
fn encrypt_does_not_leave_the_padded_text() {
    let mut padded = b"hello".to_vec();
    padded.extend_from_slice(&[11u8; 11]);
    let sealed = encrypt(b"hello", "pw");
    assert_ne!(sealed, padded);
    assert_ne!(encrypt(b"hello", "pw"), encrypt(b"hello", "other"));
    assert_eq!(encrypt(b"hello", "pw"), encrypt(b"hello", "pw"));
}

#[test]
fn decrypt_undoes_encrypt() {
    for data in [&b""[..], b"x", b"hello world", &[0u8; 16], &[255u8; 40]] {
        let sealed = encrypt(data, "secret");
        assert_eq!(decrypt(&sealed, "secret"), Some(data.to_vec()));
    }
}

#[test]
fn decrypt_refuses_partial_blocks() {
    assert_eq!(decrypt(&[1, 2, 3], "pw"), None);
    let sealed = encrypt(b"abc", "pw");
    assert_eq!(decrypt(&sealed[..15], "pw"), None);
}

#[test]
fn checksum_weights_bytes_by_position() {
    assert_eq!(calculate_checksum(&[]), 0);
    assert_eq!(calculate_checksum(&[1]), 1);
    assert_eq!(calculate_checksum(&[1, 2]), 0x0201);
    assert_eq!(calculate_checksum(&[1; 9]), 0x0101_0101_0101_0100);
    assert_eq!(calculate_checksum(&[0xff, 0, 0, 0, 0, 0, 0, 0x80]), 0x8000_0000_0000_00ff);
}

#[test]
fn pack_packet_lays_out_fields() {
    let packet = pack_packet("room", "pw", b"REGH");
    assert_eq!(&packet[..8], &[4, b'r', b'o', b'o', b'm', 2, b'p', b'w']);
    assert_eq!(&packet[8..], encrypt(b"REGH", "pw").as_slice());
}

#[test]
fn try_decrypt_response_opens_packed() {
    let packet = pack_packet("room", "pw", b"REGH_OK");
    assert_eq!(try_decrypt_response(&packet, "pw"), Some(b"REGH_OK".to_vec()));
    assert_eq!(try_decrypt_response(&[], "pw"), None);
    assert_eq!(try_decrypt_response(&[5, b'a'], "pw"), None);
    assert_eq!(try_decrypt_response(&[1, b'a', 9, b'x'], "pw"), None);
}

#[test]
fn relay_test_packet_is_tagged() {
    let packet = relay_test_packet("r", "p");
    assert_eq!(packet[0], 0x41);
    assert_eq!(&packet[1..], pack_packet("r", "p", b"TEST_PACKET").as_slice());
}

#[test]
fn frame_header_is_big_endian_length() {
    assert_eq!(frame_packet(&[1, 2, 3]), vec![0, 0, 0, 3, 1, 2, 3]);
    assert_eq!(frame_packet(&[]), vec![0, 0, 0, 0]);
    let big = vec![9u8; 300];
    let frame = frame_packet(&big);
    assert_eq!(&frame[..4], &[0, 0, 1, 44]);
    assert_eq!(frame_length([0, 0, 1, 44]), 300);
    assert_eq!(frame_length([1, 2, 3, 4]), 0x0102_0304);
}

#[test]
fn data_round_trip_through_relay_packets() {
    let packet = data_packet("room", "pw", &[1, 2, 3]);
    assert_eq!(relayed_data(&packet, "pw"), Some(vec![1, 2, 3]));
    let other = pack_packet("room", "pw", b"MEMBER_JOIN");
    assert_eq!(relayed_data(&other, "pw"), None);
}

#[test]
fn unwrap_data_needs_data_prefix() {
    assert_eq!(unwrap_data(b"DATAabc"), Some(b"abc".to_vec()));
    assert_eq!(unwrap_data(b"DATA"), Some(vec![]));
    assert_eq!(unwrap_data(b"DAT"), None);
    assert_eq!(unwrap_data(b"REGHabc"), None);
}

#[test]
fn bytes_equal_compares_contents() {
    assert!(bytes_equal(b"abc", b"abc"));
    assert!(!bytes_equal(b"abc", b"abd"));
    assert!(!bytes_equal(b"abc", b"ab"));
}

#[test]
fn host_inbound_sorts_packets() {
    assert!(matches!(classify_host_inbound(&[0x41, 1, 2], "pw"), HostInbound::Test));
    match classify_host_inbound(&data_packet("r", "pw", b"mc"), "pw") {
        HostInbound::Data(d) => assert_eq!(d, b"mc".to_vec()),
        _ => panic!("expected data"),
    }
    assert!(matches!(
        classify_host_inbound(&pack_packet("r", "pw", b"MC_READY"), "pw"),
        HostInbound::Ignored
    ));
}

#[test]
fn registration_reply_reads_answers() {
    let ok = pack_packet("r", "pw", b"REGH_OK");
    assert!(matches!(registration_reply(&ok, "pw", b"REGH_OK"), RegistrationReply::Accepted));
    let refused = pack_packet("r", "pw", b"ERRR");
    assert!(matches!(registration_reply(&refused, "pw", b"REGH_OK"), RegistrationReply::Refused));
    let other = pack_packet("r", "pw", b"REGC_OK");
    assert!(matches!(registration_reply(&other, "pw", b"REGH_OK"), RegistrationReply::Unexpected));
    assert!(matches!(registration_reply(&[1, 2], "pw", b"REGH_OK"), RegistrationReply::Undecryptable));
}

#[test]
fn checksum_of_joined_words_is_xor() {
    let a: Vec<u8> = (1u8..=16).collect();
    let b: Vec<u8> = vec![0xAA, 0x55, 0x01, 0x80, 0x7F, 0x10, 0x20, 0x30, 0x40, 0x99];
    let joined: Vec<u8> = [a.clone(), b.clone()].concat();
    assert_eq!(calculate_checksum(&joined), calculate_checksum(&a) ^ calculate_checksum(&b));
    let short = [0x01u8, 0x02, 0x03];
    let mut padded = [0u8; 8];
    padded[..3].copy_from_slice(&short);
    assert_eq!(calculate_checksum(&short), u64::from_le_bytes(padded));
}

#[test]
fn encryption_goes_block_by_block() {
    let a: Vec<u8> = (0u8..32).collect();
    let b: Vec<u8> = b"hello, relay".to_vec();
    let joined: Vec<u8> = [a.clone(), b.clone()].concat();
    let whole = encrypt(&joined, "pw");
    let first = encrypt(&a, "pw");
    let second = encrypt(&b, "pw");
    assert_eq!(whole, [&first[..a.len()], &second[..]].concat());
    assert_eq!(first.len(), 16 * (a.len() / 16 + 1));
    assert_eq!(second.len(), 16 * (b.len() / 16 + 1));
}
