//! The bridge's connection to Tuta, published as a file for local clients.
//!
//! IMAP has no way to say "this mailbox is stale": while the event bus is
//! down, the store keeps serving whatever it synced last and every client
//! sees a normal-looking inbox. Clients that can read a file check this one
//! and report the state they find. This module holds what the file says;
//! writing it is left to the caller.
use vstd::prelude::*;

use crate::text::{decimal, push_char, push_decimal};

verus! {

/// What the status file records: the connection state, when it was entered
/// (seconds since the Unix epoch), and the process that wrote it.
pub struct ConnectionStatus {
    pub tuta_connection: String,
    pub since_unix: u64,
    pub pid: u32,
}

impl ConnectionStatus {
    /// The status of a connection that entered the state named `state`
    /// `since_epoch_secs` seconds after the Unix epoch, as written by process
    /// `pid`. A time before the epoch (`None`) is recorded as the epoch.
    pub fn new(state: &str, since_epoch_secs: Option<u64>, pid: u32) -> (status: Self)
        ensures
            status.tuta_connection@ == state@,
            status.since_unix == match since_epoch_secs {
                Some(secs) => secs,
                None => 0,
            },
            status.pid == pid,
    {
        let since_unix = match since_epoch_secs {
            Some(secs) => secs,
            None => 0,
        };
        ConnectionStatus { tuta_connection: state.to_owned(), since_unix, pid }
    }
}

/// The extension of the temporary file the status is written through, so
/// that a reader never sees a torn write: `json.<pid>.tmp`.
pub fn temp_extension(pid: u32) -> (ext: String)
    ensures
        ext@ == seq!['j', 's', 'o', 'n', '.'] + decimal(pid as nat) + seq!['.', 't', 'm', 'p'],
{
    let mut ext = String::new();
    push_char(&mut ext, 'j');
    push_char(&mut ext, 's');
    push_char(&mut ext, 'o');
    push_char(&mut ext, 'n');
    push_char(&mut ext, '.');
    push_decimal(&mut ext, pid);
    push_char(&mut ext, '.');
    push_char(&mut ext, 't');
    push_char(&mut ext, 'm');
    push_char(&mut ext, 'p');
    assert(ext@ =~= seq!['j', 's', 'o', 'n', '.'] + decimal(pid as nat) + seq!['.', 't', 'm', 'p']);
    ext
}

} // verus!
