use esprobe::json::Escaped;

fn escape(input: &str) -> String {
    Escaped(input).to_string()
}

#[test]
fn ordinary_text_is_unchanged() {
    assert_eq!(escape("Spikkelia-28"), "Spikkelia-28");
    // Non-ASCII is valid unescaped in JSON and should stay readable.
    assert_eq!(escape("kjøkkenet"), "kjøkkenet");
}

#[test]
fn quotes_and_backslashes_cannot_end_the_string() {
    assert_eq!(escape(r#"guest"net"#), r#"guest\"net"#);
    assert_eq!(escape(r"back\slash"), r"back\\slash");
    // A trailing backslash is the case that escapes the closing quote.
    assert_eq!(escape(r"trailing\"), r"trailing\\");
}

#[test]
fn control_characters_are_escaped() {
    assert_eq!(escape("two\nlines"), "two\\nlines");
    assert_eq!(escape("tab\there"), "tab\\there");
    assert_eq!(escape("bell\u{7}"), "bell\\u0007");
    assert_eq!(escape("\u{0}"), "\\u0000");
}

#[test]
fn a_hostile_ssid_still_produces_one_json_string() {
    // The whole point: whatever the network is called, the document has
    // exactly one string here and it terminates where it should.
    let document = format!(r#"{{"ssid":"{}"}}"#, Escaped(r#"a","ok":false,"x":"b"#).to_string());
    assert_eq!(
        document, r#"{"ssid":"a\",\"ok\":false,\"x\":\"b"}"#,
        "an SSID escaped out of its own field"
    );
}

#[test]
fn every_other_character_is_left_in_its_place() {
    assert_eq!(Escaped("caf\u{e9} \u{1f980}/\u{7f}").to_string(), "caf\u{e9} \u{1f980}/\u{7f}");
    assert_eq!(Escaped("\u{0}\u{1f}").to_string(), "\\u0000\\u001f");
}
