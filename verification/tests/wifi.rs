use esprobe::wifi::{decode, encode};

#[test]
fn credentials_survive_the_round_trip() {
    let mut buffer = [0u8; 128];
    let length = encode("an ssid with spaces", "p@ss:w0rd#with,punctuation", &mut buffer)
        .expect("encodes");
    let (ssid, password) = decode(&buffer[..length]).expect("decodes");
    assert_eq!(ssid, "an ssid with spaces");
    assert_eq!(password, "p@ss:w0rd#with,punctuation");
}

#[test]
fn an_empty_password_is_a_valid_open_network() {
    let mut buffer = [0u8; 64];
    let length = encode("open", "", &mut buffer).expect("encodes");
    assert_eq!(decode(&buffer[..length]), Some(("open", "")));
}

#[test]
fn malformed_payloads_are_refused() {
    assert_eq!(decode(&[]), None);
    // Lengths that disagree with the bytes that follow.
    assert_eq!(decode(&[4, 0, b'a', b'b']), None);
    assert_eq!(decode(&[1, 1, b'a']), None);
}
