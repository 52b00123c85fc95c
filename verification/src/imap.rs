//! IMAP-specific encodings.
pub mod modified_base64;
pub mod utf16;
pub mod utf7;
