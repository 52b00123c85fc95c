//! Mailbox-name and label logic of an IMAP bridge: modified UTF-7 for
//! mailbox names, the label ↔ keyword registry, and the connection status
//! record.
pub mod imap;
pub mod labels;
pub mod status;
pub mod text;
