//! Which engine owns a directory.
//!
//! A directory is marked with the name of the engine that first opened it,
//! and every later opening has to agree with the marker.

use vstd::prelude::*;
use vstd::string::StringExecFns;
use crate::error::KvsError;

verus! {

/// The name of the engine that this library implements, and the default.
pub open spec fn default_engine() -> Seq<char> {
    "kvs"@
}

/// Whether an engine of this name can be opened.
pub open spec fn is_supported(name: Seq<char>) -> bool {
    name == "kvs"@ || name == "sled"@
}

/// Why no engine was chosen.
pub enum EngineFailure {
    /// The directory belongs to another engine than the requested one.
    Wrong,
    /// The requested engine is not known.
    Unknown,
}

/// The engine to open, given the one that was asked for and the one that
/// the directory's marker records.
///
/// A requested engine must be the recorded one, if any is recorded, and
/// must be known. Without a request the recorded engine is taken, and the
/// default where none is recorded.
pub open spec fn engine_choice(requested: Option<Seq<char>>, recorded: Option<Seq<char>>) -> Result<
    Seq<char>,
    EngineFailure,
> {
    match requested {
        Some(name) => if recorded matches Some(owner) && owner != name {
            Err(EngineFailure::Wrong)
        } else if !is_supported(name) {
            Err(EngineFailure::Unknown)
        } else {
            Ok(name)
        },
        None => match recorded {
            Some(owner) => Ok(owner),
            None => Ok(default_engine()),
        },
    }
}

/// Once a directory is marked with the engine that was chosen for it, a
/// request for any other engine is refused as the wrong one.
pub proof fn lemma_marker_sticks(
    first: Option<Seq<char>>,
    recorded: Option<Seq<char>>,
    second: Seq<char>,
)
    requires
        engine_choice(first, recorded) matches Ok(chosen) && chosen != second,
    ensures
        engine_choice(Some(second), Some(engine_choice(first, recorded)->Ok_0)) == Err::<
            Seq<char>,
            EngineFailure,
        >(EngineFailure::Wrong),
{
}

/// The same view of an optional string.
pub open spec fn text_of(text: Option<String>) -> Option<Seq<char>> {
    match text {
        Some(text) => Some(text@),
        None => None,
    }
}

/// Chooses the engine to open. `KvStore::open` calls this before it looks
/// at any segment, and `sync_plan` has the chosen name written to the
/// marker where the directory has none.
///
/// Fails with `WrongEngineType` or `UnknownEngineType`, each carrying the
/// requested name.
pub fn resolve_engine(requested: Option<String>, recorded: Option<String>) -> (r: Result<
    String,
    KvsError,
>)
    ensures
        match r {
            Ok(chosen) => engine_choice(text_of(requested), text_of(recorded)) == Ok::<
                _,
                EngineFailure,
            >(chosen@),
            Err(KvsError::WrongEngineType(name)) => engine_choice(
                text_of(requested),
                text_of(recorded),
            ) == Err::<Seq<char>, _>(EngineFailure::Wrong) && Some(name@) == text_of(requested),
            Err(KvsError::UnknownEngineType(name)) => engine_choice(
                text_of(requested),
                text_of(recorded),
            ) == Err::<Seq<char>, _>(EngineFailure::Unknown) && Some(name@) == text_of(requested),
            Err(_) => false,
        },
{
    match requested {
        Some(name) => {
            if let Some(owner) = recorded {
                if owner != name {
                    return Err(KvsError::WrongEngineType(name));
                }
            }
            if name == String::from_str("kvs") || name == String::from_str("sled") {
                Ok(name)
            } else {
                Err(KvsError::UnknownEngineType(name))
            }
        },
        None => match recorded {
            Some(owner) => Ok(owner),
            None => Ok(String::from_str("kvs")),
        },
    }
}

/// What was chosen is what is recorded, wherever something is recorded.
pub proof fn lemma_choice_keeps_marker(requested: Option<Seq<char>>, recorded: Option<Seq<char>>)
    requires
        engine_choice(requested, recorded) is Ok,
    ensures
        recorded matches Some(owner) ==> engine_choice(requested, recorded) == Ok::<
            Seq<char>,
            EngineFailure,
        >(owner),
{
}

} // verus!
