use tutabridge::imap::utf16::decode_utf16_be;
use tutabridge::imap::utf7::{decode, encode};

fn roundtrip(plain: &str, wire: &str) {
    assert_eq!(encode(plain), wire, "encode {plain:?}");
    assert_eq!(decode(wire).as_deref(), Some(plain), "decode {wire:?}");
}

#[test]
fn ascii_is_identity() {
    roundtrip("INBOX", "INBOX");
    roundtrip("Work/Projects", "Work/Projects");
    roundtrip("Not Important", "Not Important");
}

#[test]
fn ampersand_is_escaped() {
    roundtrip("R&D", "R&-D");
    roundtrip("&", "&-");
}

#[test]
fn non_ascii_is_shifted() {
    // Examples from RFC 3501.
    roundtrip("Café", "Caf&AOk-");
    roundtrip("~peter/mail/台北/日本語", "~peter/mail/&U,BTFw-/&ZeVnLIqe-");
}

#[test]
fn mixed_runs() {
    roundtrip("Dossier éàü test", "Dossier &AOkA4AD8- test");
}

#[test]
fn decode_rejects_unterminated_shift() {
    assert_eq!(decode("&AOk"), None);
}

#[test]
fn empty_name_encodes_to_empty() {
    roundtrip("", "");
}

#[test]
fn control_characters_are_shifted() {
    // A tab is not printable ASCII, so it travels in a shifted run.
    roundtrip("a\tb", "a&AAk-b");
    roundtrip("\u{7f}", "&AH8-");
}

#[test]
fn characters_beyond_the_bmp_use_surrogate_pairs() {
    // U+1F4E6 is D83D DCE6 in UTF-16.
    roundtrip("📦", "&2D3c5g-");
    roundtrip("x📦&y", "x&2D3c5g-&-y");
}

#[test]
fn shifted_run_ends_at_ampersand() {
    roundtrip("é&é", "&AOk-&-&AOk-");
}

#[test]
fn encode_output_is_printable_ascii() {
    let wire = encode("Привет, мир & 世界\u{1}");
    assert!(wire.chars().all(|c| (' '..='~').contains(&c)));
    assert_eq!(decode(&wire).as_deref(), Some("Привет, мир & 世界\u{1}"));
}

#[test]
fn decode_rejects_bad_shifted_runs() {
    // Not modified BASE64.
    assert_eq!(decode("&A!A-"), None);
    // One byte: not whole UTF-16 code units.
    assert_eq!(decode("&AA-"), None);
    // A high surrogate with no low surrogate after it.
    assert_eq!(decode("&2AA-"), None);
    // A low surrogate on its own.
    assert_eq!(decode("&3AA-"), None);
    // Padding is refused.
    assert_eq!(decode("&AOk=-"), None);
    // The standard alphabet's `/` is not in the modified one.
    assert_eq!(decode("&U/BTFw-"), None);
}

#[test]
fn decode_rejects_non_canonical_runs() {
    // Two runs in a row are not what `encode` writes: it writes one.
    assert_eq!(decode("&AOk-&AOk-"), None);
    assert_eq!(encode("éé"), "&AOkA6Q-");
    // A printable character travels as itself, never in a run.
    assert_eq!(decode("&AGE-"), None);
    // Nonzero trailing bits are not canonical modified BASE64.
    assert_eq!(decode("&AOl-"), None);
}

#[test]
fn decode_rejects_raw_characters() {
    // Outside a shift only printable ASCII stands for itself.
    assert_eq!(decode("\t"), None);
    assert_eq!(decode("é"), None);
    assert_eq!(decode("a\u{7f}b"), None);
}

#[test]
fn decode_accepts_ampersand_after_a_run() {
    roundtrip("é&", "&AOk-&-");
    roundtrip("&é", "&-&AOk-");
}

#[test]
fn utf16_be_bytes_decode_to_characters() {
    assert_eq!(decode_utf16_be(&[0x00, 0xe9]), Some(vec!['é']));
    assert_eq!(decode_utf16_be(&[0xd8, 0x3d, 0xdc, 0xe6]), Some(vec!['📦']));
    assert_eq!(decode_utf16_be(&[]), Some(vec![]));
    assert_eq!(decode_utf16_be(&[0x00]), None);
    assert_eq!(decode_utf16_be(&[0xdc, 0xe6]), None);
    assert_eq!(decode_utf16_be(&[0xd8, 0x3d, 0x00, 0x41]), None);
}

#[test]
fn shifted_runs_use_no_slash_or_padding() {
    let wire = encode("a/b=ü☃€𝄞");
    assert_eq!(wire.matches('/').count(), 1);
    assert_eq!(wire.matches('=').count(), 1);
    assert_eq!(decode(&wire).as_deref(), Some("a/b=ü☃€𝄞"));
}

#[test]
fn names_meeting_at_printable_ascii_encode_piecewise() {
    assert_eq!(encode("éa"), format!("{}{}", encode("é"), encode("a")));
    assert_eq!(encode("&é"), format!("{}{}", encode("&"), encode("é")));
    // Two shifted runs that meet are one run, not two.
    assert_ne!(encode("éé"), format!("{}{}", encode("é"), encode("é")));
}
