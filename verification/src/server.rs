//! What the server and the client decide: which reply a request gets, and
//! what a reply means to the client.

use vstd::prelude::*;
use vstd::string::StringExecFns;
use crate::common::{Command, Commands, Message, NetworkConnection};
use crate::engine::text_of;
use crate::error::KvsError;
use crate::kvs::KvStore;
use crate::record::Record;

verus! {

/// The text that stands for a missing key.
pub open spec fn key_not_found() -> Seq<char> {
    "Key not found"@
}

/// The reply to a `Get`: the value, or the text for a missing key, as a
/// response; an error only where the store failed.
pub fn reply_to_get(found: Result<Option<String>, KvsError>) -> (reply: NetworkConnection)
    ensures
        match found {
            Ok(Some(value)) => reply@ == (Message::Response { value: value@ }),
            Ok(None) => reply@ == (Message::Response { value: key_not_found() }),
            Err(err) => reply@ matches Message::Error { error } && err.described_by(error),
        },
{
    match found {
        Ok(Some(value)) => NetworkConnection::Response { value },
        Ok(None) => NetworkConnection::Response { value: KvsError::KeyDoesNotExist.to_string() },
        Err(err) => NetworkConnection::Error { error: err.to_string() },
    }
}

/// The reply to a `Put` or a `Rm`: done, or the error's message.
pub fn reply_to_update(outcome: Result<(), KvsError>) -> (reply: NetworkConnection)
    ensures
        match outcome {
            Ok(()) => reply@ == Message::Done,
            Err(err) => reply@ matches Message::Error { error } && err.described_by(error),
        },
{
    match outcome {
        Ok(()) => NetworkConnection::Done,
        Err(err) => NetworkConnection::Error { error: err.to_string() },
    }
}

/// Whether a reply reports that an append of `record` to `store` failed.
pub open spec fn refuses_append(reply: Message, store: KvStore, record: Record) -> bool {
    reply matches Message::Error { error } && exists|err: KvsError|
        store.reports_no_append(err, record) && #[trigger] err.described_by(error)
}

/// The text that answers a message that is no request.
pub open spec fn not_a_request() -> Seq<char> {
    "Unexpected command type"@
}

/// Carries out one request on the store and returns the reply to send.
/// A message that is no request changes nothing and is answered with an
/// error.
///
/// A `Get` never changes the store and is answered with a response: the
/// value, or `Key not found`. A `Put` or `Rm` that the store carries out is
/// answered with `Done`; one that it refuses changes nothing and is
/// answered with the error's message, which for a `Rm` of a missing key is
/// `Key not found`.
pub fn handle_request(message: NetworkConnection, store: &mut KvStore) -> (sent: NetworkConnection)
    requires
        old(store).wf(),
    ensures
        final(store).wf(),
        match message@ {
            Message::Request { command: Command::Get { key } } => {
                &&& *final(store) == *old(store)
                &&& sent@ == (Message::Response {
                    value: if old(store)@.contains_key(key) {
                        old(store)@[key]
                    } else {
                        key_not_found()
                    },
                })
            },
            Message::Request { command: Command::Put { key, value } } => {
                let record = Record::Put { key, value };
                if old(store).can_append(record) {
                    sent@ == Message::Done && old(store).appended(*final(store), record)
                } else {
                    *final(store) == *old(store) && refuses_append(sent@, *old(store), record)
                }
            },
            Message::Request { command: Command::Rm { key } } => {
                let record = Record::Rm { key };
                if !old(store)@.contains_key(key) {
                    *final(store) == *old(store) && sent@ == (Message::Error {
                        error: key_not_found(),
                    })
                } else if old(store).can_append(record) {
                    sent@ == Message::Done && old(store).appended(*final(store), record)
                } else {
                    *final(store) == *old(store) && refuses_append(sent@, *old(store), record)
                }
            },
            _ => sent@ == (Message::Error { error: not_a_request() }) && *final(store) == *old(
                store,
            ),
        },
{
    match message {
        NetworkConnection::Request { command } => match command {
            Commands::Get { key } => reply_to_get(store.get(key)),
            Commands::Put { key, value } => {
                let outcome = store.set(key, value);
                reply_to_update(outcome)
            },
            Commands::Rm { key } => {
                let outcome = store.remove(key);
                reply_to_update(outcome)
            },
        },
        _ => reply_to_update(Err(KvsError::UnexpectedCommandType)),
    }
}

/// What the client does with a reply.
#[derive(Debug, PartialEq, Eq)]
pub struct ClientOutcome {
    /// The line to print on standard output, if any.
    pub stdout: Option<String>,
    /// The line to print on standard error, if any.
    pub stderr: Option<String>,
    /// The exit code.
    pub code: u8,
}

/// Decides what the client prints and how it exits: a response's value
/// goes to standard output, an error's message to standard error with
/// exit code 1, and a message that is no reply gives exit code 1 alone.
pub fn client_outcome(reply: NetworkConnection) -> (outcome: ClientOutcome)
    ensures
        match reply@ {
            Message::Response { value } => text_of(outcome.stdout) == Some(value) && outcome.stderr
                is None && outcome.code == 0,
            Message::Error { error } => outcome.stdout is None && text_of(outcome.stderr) == Some(
                error,
            ) && outcome.code == 1,
            Message::Done => outcome.stdout is None && outcome.stderr is None && outcome.code == 0,
            Message::Request { .. } => outcome.stdout is None && outcome.stderr is None
                && outcome.code == 1,
        },
{
    match reply {
        NetworkConnection::Response { value } => ClientOutcome {
            stdout: Some(value),
            stderr: None,
            code: 0,
        },
        NetworkConnection::Error { error } => ClientOutcome {
            stdout: None,
            stderr: Some(error),
            code: 1,
        },
        NetworkConnection::Done => ClientOutcome { stdout: None, stderr: None, code: 0 },
        NetworkConnection::Request { .. } => ClientOutcome { stdout: None, stderr: None, code: 1 },
    }
}

} // verus!
