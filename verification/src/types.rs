//! Shared data types of the store: execution modes, the classification of
//! mutating commands, the outcome handed back to the transport, and the
//! command error taxonomy with its human-readable messages.
use vstd::prelude::*;

use crate::bytes_helper::{dec_str, push_bytes, push_dec};

verus! {

/// Largest chunk the transport reads from a client in one call.
pub const MAX_BUFFER: usize = 1024;

/// The two commands that mutate the store and are therefore candidates for
/// append-log recording.
#[derive(Clone, Copy, Debug)]
pub enum DangerCmd {
    SetCmd,
    DelCmd,
}

/// Execution mode of the dispatcher: live traffic must log mutations,
/// recovery replay must not.
#[derive(Clone, Copy, Debug)]
pub enum Mode {
    Live,
    Replay,
}

/// What one dispatched command produced: the textual response for the client,
/// the append-log record to persist (live mutations only), and the snapshot
/// image to persist (`SAVE` only).
#[derive(Debug)]
pub struct CmdOutcome {
    pub response: Vec<u8>,
    pub log_record: Option<Vec<u8>>,
    pub snapshot: Option<Vec<u8>>,
}

/// A command line that failed validation; always recoverable, reported to the
/// caller as a message string.
#[derive(Debug)]
pub enum CmdError {
    EmptyCommand,
    InvalidCommand { verb: Vec<u8> },
    InvalidArity { verb: Vec<u8>, expected: usize, found: usize },
    InvalidExOption { found: Vec<u8> },
    InvalidExNumber,
}

/// A snapshot file that is present and non-empty but does not deserialize;
/// fatal at startup.
#[derive(Debug)]
pub enum SnapshotError {
    Corrupt,
}

pub open spec fn lit_empty_command() -> Seq<u8> {
    seq![69u8, 109, 112, 116, 121, 32, 99, 111, 109, 109, 97, 110, 100]
}

pub open spec fn lit_invalid_command() -> Seq<u8> {
    seq![73u8, 110, 118, 97, 108, 105, 100, 32, 99, 111, 109, 109, 97, 110, 100, 58, 32]
}

pub open spec fn lit_invalid_args_for() -> Seq<u8> {
    seq![
        73u8,
        110,
        118,
        97,
        108,
        105,
        100,
        32,
        97,
        114,
        103,
        117,
        109,
        101,
        110,
        116,
        115,
        32,
        102,
        111,
        114,
        32,
    ]
}

pub open spec fn lit_command_expected() -> Seq<u8> {
    seq![32u8, 99, 111, 109, 109, 97, 110, 100, 58, 32, 101, 120, 112, 101, 99, 116, 101, 100, 32]
}

pub open spec fn lit_args_found() -> Seq<u8> {
    seq![32u8, 97, 114, 103, 115, 44, 32, 102, 111, 117, 110, 100, 32]
}

pub open spec fn lit_expected_ex_found() -> Seq<u8> {
    seq![
        73u8,
        110,
        118,
        97,
        108,
        105,
        100,
        32,
        111,
        112,
        116,
        105,
        111,
        110,
        58,
        32,
        101,
        120,
        112,
        101,
        99,
        116,
        101,
        100,
        32,
        39,
        69,
        88,
        39,
        44,
        32,
        102,
        111,
        117,
        110,
        100,
        32,
        39,
    ]
}

pub open spec fn lit_quote() -> Seq<u8> {
    seq![39u8]
}

pub open spec fn lit_expected_ex_number() -> Seq<u8> {
    seq![
        73u8,
        110,
        118,
        97,
        108,
        105,
        100,
        32,
        111,
        112,
        116,
        105,
        111,
        110,
        58,
        32,
        101,
        120,
        112,
        101,
        99,
        116,
        101,
        100,
        32,
        39,
        69,
        88,
        32,
        49,
        53,
        48,
        48,
        39,
    ]
}

/// The message text carried by each command error.
pub open spec fn message_of(e: CmdError) -> Seq<u8> {
    match e {
        CmdError::EmptyCommand => lit_empty_command(),
        CmdError::InvalidCommand { verb } => lit_invalid_command() + verb@,
        CmdError::InvalidArity { verb, expected, found } => lit_invalid_args_for() + verb@
            + lit_command_expected() + dec_str(expected as nat) + lit_args_found() + dec_str(
            found as nat,
        ),
        CmdError::InvalidExOption { found } => lit_expected_ex_found() + found@ + lit_quote(),
        CmdError::InvalidExNumber => lit_expected_ex_number(),
    }
}

impl CmdError {
    /// Renders the error as the response text the client receives.
    pub fn message(&self) -> (r: Vec<u8>)
        ensures
            r@ == message_of(*self),
    {
        let mut out: Vec<u8> = Vec::new();
        match self {
            CmdError::EmptyCommand => {
                let m: [u8; 13] = [69, 109, 112, 116, 121, 32, 99, 111, 109, 109, 97, 110, 100];
                push_bytes(&mut out, m.as_slice());
                proof {
                    assert(out@ =~= message_of(*self));
                }
            },
            CmdError::InvalidCommand { verb } => {
                let m: [u8; 17] = [
                    73,
                    110,
                    118,
                    97,
                    108,
                    105,
                    100,
                    32,
                    99,
                    111,
                    109,
                    109,
                    97,
                    110,
                    100,
                    58,
                    32,
                ];
                push_bytes(&mut out, m.as_slice());
                push_bytes(&mut out, verb.as_slice());
                proof {
                    assert(out@ =~= message_of(*self));
                }
            },
            CmdError::InvalidArity { verb, expected, found } => {
                let m1: [u8; 22] = [
                    73,
                    110,
                    118,
                    97,
                    108,
                    105,
                    100,
                    32,
                    97,
                    114,
                    103,
                    117,
                    109,
                    101,
                    110,
                    116,
                    115,
                    32,
                    102,
                    111,
                    114,
                    32,
                ];
                let m2: [u8; 19] = [
                    32,
                    99,
                    111,
                    109,
                    109,
                    97,
                    110,
                    100,
                    58,
                    32,
                    101,
                    120,
                    112,
                    101,
                    99,
                    116,
                    101,
                    100,
                    32,
                ];
                let m3: [u8; 13] = [32, 97, 114, 103, 115, 44, 32, 102, 111, 117, 110, 100, 32];
                push_bytes(&mut out, m1.as_slice());
                push_bytes(&mut out, verb.as_slice());
                push_bytes(&mut out, m2.as_slice());
                push_dec(&mut out, *expected as u64);
                push_bytes(&mut out, m3.as_slice());
                push_dec(&mut out, *found as u64);
                proof {
                    assert(out@ =~= message_of(*self));
                }
            },
            CmdError::InvalidExOption { found } => {
                let m1: [u8; 38] = [
                    73,
                    110,
                    118,
                    97,
                    108,
                    105,
                    100,
                    32,
                    111,
                    112,
                    116,
                    105,
                    111,
                    110,
                    58,
                    32,
                    101,
                    120,
                    112,
                    101,
                    99,
                    116,
                    101,
                    100,
                    32,
                    39,
                    69,
                    88,
                    39,
                    44,
                    32,
                    102,
                    111,
                    117,
                    110,
                    100,
                    32,
                    39,
                ];
                push_bytes(&mut out, m1.as_slice());
                push_bytes(&mut out, found.as_slice());
                out.push(39);
                proof {
                    assert(out@ =~= message_of(*self));
                }
            },
            CmdError::InvalidExNumber => {
                let m: [u8; 34] = [
                    73,
                    110,
                    118,
                    97,
                    108,
                    105,
                    100,
                    32,
                    111,
                    112,
                    116,
                    105,
                    111,
                    110,
                    58,
                    32,
                    101,
                    120,
                    112,
                    101,
                    99,
                    116,
                    101,
                    100,
                    32,
                    39,
                    69,
                    88,
                    32,
                    49,
                    53,
                    48,
                    48,
                    39,
                ];
                push_bytes(&mut out, m.as_slice());
                proof {
                    assert(out@ =~= message_of(*self));
                }
            },
        }
        out
    }
}

} // verus!
