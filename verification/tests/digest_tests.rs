use rgit::digest::{calculate_sha1, Digest};

#[test]
fn sha1_of_known_inputs() {
    assert_eq!(calculate_sha1(b"hello world"), "2aae6c35c94fcfb415dbe95f408b9ce91ee846ed");
    assert_eq!(calculate_sha1(b"hello"), "aaf4c61ddcc5e8a2dabede0f3b482cd9aea9434d");
    assert_eq!(calculate_sha1(b"fn main(){}"), "641e85b264a2499875422ed3b35b232a3cc710ab");
}

#[test]
fn sha1_of_empty_input_is_a_digest_of_its_own() {
    let empty = calculate_sha1(b"");
    assert_eq!(empty, "da39a3ee5e6b4b0d3255bfef95601890afd80709");
    assert_ne!(empty, calculate_sha1(b"\0"));
    assert_ne!(empty, calculate_sha1(b" "));
}

#[test]
fn digest_is_deterministic() {
    let data = vec![7u8; 4096];
    assert_eq!(Digest::of(&data), Digest::of(&data));
    assert_eq!(calculate_sha1(&data), calculate_sha1(&data));
    assert!(Digest::of(&data).same_as(&Digest::of(&data.clone())));
}

#[test]
fn distinct_inputs_have_distinct_digests() {
    let inputs: Vec<&[u8]> = vec![b"", b"a", b"b", b"ab", b"ba", b"hello", b"hello ", b"Hello"];
    for i in 0..inputs.len() {
        for j in 0..inputs.len() {
            if i != j {
                assert_ne!(Digest::of(inputs[i]), Digest::of(inputs[j]));
                assert!(!Digest::of(inputs[i]).same_as(&Digest::of(inputs[j])));
            }
        }
    }
}

#[test]
fn digest_does_not_hand_its_input_back() {
    let data = [1u8; 20];
    assert_ne!(Digest::of(&data).bytes, data);
}

#[test]
fn hex_is_forty_lowercase_characters() {
    let hex = Digest::of(b"hello").to_hex();
    assert_eq!(hex.len(), 40);
    assert!(hex.bytes().all(|c| c.is_ascii_digit() || (b'a'..=b'f').contains(&c)));
    assert_eq!(Digest::of(b"hello").hex_bytes(), hex.as_bytes());
}

#[test]
fn hex_of_given_bytes() {
    let mut bytes = [0u8; 20];
    bytes[0] = 0x0f;
    bytes[1] = 0xa0;
    bytes[19] = 0xff;
    let d = Digest { bytes };
    assert_eq!(d.to_hex(), "0fa00000000000000000000000000000000000ff");
    assert_eq!(d.hex_range(0, 2), "0f");
    assert_eq!(d.hex_range(2, 40), "a00000000000000000000000000000000000ff");
    assert_eq!(d.hex_range(5, 5), "");
}

#[test]
fn from_hex_reads_back_what_to_hex_wrote() {
    let d = Digest::of(b"round trip");
    assert_eq!(Digest::from_hex(d.to_hex().as_bytes()), Some(d));
    assert_eq!(Digest::from_hex(&d.hex_bytes()), Some(d));
}

#[test]
fn from_hex_refuses_what_is_no_digest() {
    assert_eq!(Digest::from_hex(b""), None);
    assert_eq!(Digest::from_hex(b"aaf4c61ddcc5e8a2dabede0f3b482cd9aea9434"), None);
    assert_eq!(Digest::from_hex(b"aaf4c61ddcc5e8a2dabede0f3b482cd9aea9434d0"), None);
    assert_eq!(Digest::from_hex(b"AAF4C61DDCC5E8A2DABEDE0F3B482CD9AEA9434D"), None);
    assert_eq!(Digest::from_hex(b"aaf4c61ddcc5e8a2dabede0f3b482cd9aea9434g"), None);
    assert_eq!(Digest::from_hex(b"aaf4c61ddcc5e8a2dabe e0f3b482cd9aea9434d"), None);
}
