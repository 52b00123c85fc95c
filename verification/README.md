# tutabridge

Mailbox-name and label logic of an IMAP bridge to Tuta, verified with Verus.

- `src/imap/utf7.rs` — modified UTF-7 for IMAP mailbox names (RFC 3501
  §5.1.3). `encode` states that `decode` gives back every name it encodes.
- `src/imap/utf16.rs` — UTF-16 code units in big-endian bytes, the payload of
  a shifted run.
- `src/imap/modified_base64.rs` — modified BASE64 stated as a spec, and the two
  calls into the `base64` crate, with the contracts they are trusted to meet.
  `decode` accepts exactly the texts that `encode` writes.
- `src/labels.rs`, `src/labels/` — label names as keyword atoms, the registry
  that gives every label a keyword distinct up to ASCII case, and the order of
  labels by element id.
- `src/status.rs` — what the connection status file records.
- `src/text.rs` — string building, ASCII case folding, decimal numerals and
  the code-point order of strings.
- `app/lib.rs` — writing the status file (file I/O, JSON, logging).
