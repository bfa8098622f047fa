//! Commands, responses, and the dispatch of one command to the store.
use vstd::prelude::*;
use vstd::utf8::encode_utf8;

use crate::error::{error_text, KvsError};
use crate::sled_engine::SledKvStore;
use crate::store::KvStore;

verus! {

/// A request to the store; `Put` (a set) and `Remove` are also what the log records.
pub enum Command {
    Get { key: String },
    Put { key: String, value: String },
    Remove { key: String },
}

/// The answer to one command: a value, an error text, or neither.
pub struct Response {
    pub value: Option<String>,
    pub error: Option<String>,
}

impl Response {
    /// A response carrying the value of a successful command, or the text
    /// of its error.
    pub fn new(result: Result<Option<String>, KvsError>) -> (r: Response)
        ensures
            match result {
                Ok(v) => r.value == v && r.error is None,
                Err(e) => r.value is None && (r.error matches Some(s) && s@ == error_text(e)),
            },
    {
        match result {
            Ok(value) => Response { value, error: None },
            Err(error) => Response { value: None, error: Some(error.message()) },
        }
    }

    pub fn is_error(&self) -> (r: bool)
        ensures
            r == self.error is Some,
    {
        match self.error {
            Some(_) => true,
            None => false,
        }
    }
}

/// What running `command` on a store whose view is `before` leaves, and
/// answers: a `Get` leaves the store as it was and answers the value, if
/// any; a `Put` sets the key and answers no value; a `Remove` drops the key,
/// and answers no value, or `KeyNotFound` where the key had none.
pub open spec fn outcome(
    command: Command,
    before: Map<Seq<u8>, Seq<u8>>,
    after: Map<Seq<u8>, Seq<u8>>,
    r: Result<Option<String>, KvsError>,
) -> bool {
    match command {
        Command::Get { key } => after == before && match r {
            Ok(Some(v)) => before.contains_key(encode_utf8(key@)) && before[encode_utf8(key@)]
                == encode_utf8(v@),
            Ok(None) => !before.contains_key(encode_utf8(key@)),
            Err(_) => false,
        },
        Command::Put { key, value } => r == Ok::<Option<String>, KvsError>(None) && after
            == before.insert(encode_utf8(key@), encode_utf8(value@)),
        Command::Remove { key } => after == before.remove(encode_utf8(key@)) && if before.contains_key(
            encode_utf8(key@),
        ) {
            r == Ok::<Option<String>, KvsError>(None)
        } else {
            r == Err::<Option<String>, KvsError>(KvsError::KeyNotFound)
        },
    }
}

/// Runs one command against the log-structured store.
pub fn execute(command: Command, store: &mut KvStore) -> (r: Result<Option<String>, KvsError>)
    requires
        old(store).wf(),
    ensures
        final(store).wf(),
        outcome(command, old(store)@, final(store)@, r),
{
    match command {
        Command::Get { key } => store.get(key),
        Command::Put { key, value } => match store.set(key, value) {
            Ok(()) => Ok(None),
            Err(e) => Err(e),
        },
        Command::Remove { key } => match store.remove(key) {
            Ok(()) => Ok(None),
            Err(e) => Err(e),
        },
    }
}

/// What the `sled` store may answer to `command` whether or not the
/// database fails: a `Get` leaves the store as it was and fails only with
/// `Io` or `Corrupt`; a `Put` fails only with `Io`; a `Remove` fails only
/// with `Io` or `KeyNotFound`.
pub open spec fn sled_answer(
    command: Command,
    before: Map<Seq<u8>, Seq<u8>>,
    after: Map<Seq<u8>, Seq<u8>>,
    r: Result<Option<String>, KvsError>,
) -> bool {
    match command {
        Command::Get { .. } => after == before && (r is Err ==> r == Err::<Option<String>, KvsError>(
            KvsError::Io,
        ) || r == Err::<Option<String>, KvsError>(KvsError::Corrupt)),
        Command::Put { .. } => r is Err ==> r == Err::<Option<String>, KvsError>(KvsError::Io),
        Command::Remove { .. } => r is Err ==> r == Err::<Option<String>, KvsError>(KvsError::Io)
            || r == Err::<Option<String>, KvsError>(KvsError::KeyNotFound),
    }
}

/// Runs one command against the `sled` store. Where the database answers,
/// the result is what `outcome` says; in any case it is what `sled_answer`
/// allows.
pub fn execute_sled(command: Command, store: &mut SledKvStore) -> (r: Result<Option<String>, KvsError>)
    ensures
        (r is Ok || r == Err::<Option<String>, KvsError>(KvsError::KeyNotFound)) ==> outcome(
            command,
            old(store)@,
            final(store)@,
            r,
        ),
        sled_answer(command, old(store)@, final(store)@, r),
{
    match command {
        Command::Get { key } => store.get(key),
        Command::Put { key, value } => match store.set(key, value) {
            Ok(()) => Ok(None),
            Err(e) => Err(e),
        },
        Command::Remove { key } => {
            let ghost kb = encode_utf8(key@);
            let r = store.remove(key);
            proof {
                if r == Err::<(), KvsError>(KvsError::KeyNotFound) {
                    assert(old(store)@.remove(kb) =~= old(store)@);
                }
            }
            match r {
                Ok(()) => Ok(None),
                Err(e) => Err(e),
            }
        },
    }
}

/// The storage engine a server runs on, picked once at start.
pub enum Engine {
    Kvs(KvStore),
    Sled(SledKvStore),
}

impl Engine {
    pub open spec fn wf(&self) -> bool {
        match self {
            Engine::Kvs(s) => s.wf(),
            Engine::Sled(_) => true,
        }
    }
}

/// Runs one command against whichever engine the server runs on.
pub fn get_result(command: Command, engine: &mut Engine) -> (r: Result<Option<String>, KvsError>)
    requires
        old(engine).wf(),
    ensures
        final(engine).wf(),
        (*old(engine) is Kvs) <==> (*final(engine) is Kvs),
        *old(engine) matches Engine::Kvs(s0) ==> (*final(engine) matches Engine::Kvs(s1) && outcome(
            command,
            s0@,
            s1@,
            r,
        )),
        *old(engine) matches Engine::Sled(s0) ==> (*final(engine) matches Engine::Sled(s1) && ((r is Ok
            || r == Err::<Option<String>, KvsError>(KvsError::KeyNotFound)) ==> outcome(
            command,
            s0@,
            s1@,
            r,
        )) && sled_answer(command, s0@, s1@, r)),
{
    match engine {
        Engine::Kvs(store) => execute(command, store),
        Engine::Sled(store) => execute_sled(command, store),
    }
}

} // verus!
