//! What the command-line front ends decide: which value or message a
//! command prints, with which status the program ends, and which storage
//! engine a server runs.

use crate::error::KvsError;
use crate::kv::KvStore;
use crate::logdir::{apply_steps, steps_of, FileOp, FileStep};
use crate::record::{framed, is_record, Record};
use vstd::prelude::*;
use vstd::string::StringExecFns;

verus! {

/// A storage engine that a server can run.
#[allow(non_camel_case_types)]
#[derive(Debug, Clone, Copy, PartialEq, Eq, Structural)]
pub enum Engine {
    kvs,
    sled,
}

/// Why no engine can be run.
#[derive(Debug, Clone, Copy, PartialEq, Eq, Structural)]
pub enum EngineError {
    /// The name is not the name of an engine.
    UnexpectedEngineType,
    /// The command line asks for another engine than the one that the
    /// directory was run with.
    WrongEngine,
}

impl Engine {
    /// The engine that `s` names: `kvs` or `sled`, and no other text.
    pub fn from_str(s: &str) -> (r: Result<Engine, EngineError>)
        ensures
            r == named_engine(s@),
    {
        let name = String::from_str(s);
        if name == String::from_str("kvs") {
            Ok(Engine::kvs)
        } else if name == String::from_str("sled") {
            Ok(Engine::sled)
        } else {
            Err(EngineError::UnexpectedEngineType)
        }
    }

    /// The name of the engine, as the `engine` file of a database
    /// directory holds it.
    pub fn name(&self) -> (name: &'static str)
        ensures
            named_engine(name@) == Ok::<Engine, EngineError>(*self),
    {
        proof {
            reveal_strlit("kvs");
            reveal_strlit("sled");
            assert("kvs"@.len() != "sled"@.len());
        }
        match self {
            Engine::kvs => "kvs",
            Engine::sled => "sled",
        }
    }
}

/// The engine that the text `name` names.
pub open spec fn named_engine(name: Seq<char>) -> Result<Engine, EngineError> {
    if name == "kvs"@ {
        Ok(Engine::kvs)
    } else if name == "sled"@ {
        Ok(Engine::sled)
    } else {
        Err(EngineError::UnexpectedEngineType)
    }
}

/// The engine that runs where nothing asks for another.
pub const DEFAULT_ENGINE: Engine = Engine::kvs;

/// The engine that the database directory was last run with: the one that
/// its `engine` file names, where `file` is the text of that file, and
/// none where the directory has no such file.
pub fn current_engine(file: Option<&str>) -> (r: Result<Option<Engine>, EngineError>)
    ensures
        r == (match file {
            Some(text) => match named_engine(text@) {
                Ok(engine) => Ok(Some(engine)),
                Err(e) => Err(e),
            },
            None => Ok(None),
        }),
{
    match file {
        Some(text) => match Engine::from_str(text) {
            Ok(engine) => Ok(Some(engine)),
            Err(e) => Err(e),
        },
        None => Ok(None),
    }
}

/// The engine that a server is to run: the one that the command line asks
/// for, else the one that the directory was last run with, else the
/// default. Fails where the command line asks for another engine than the
/// directory was run with.
pub fn select_engine(requested: Option<Engine>, current: Option<Engine>) -> (r: Result<
    Engine,
    EngineError,
>)
    ensures
        r == (match (requested, current) {
            (Some(asked), Some(had)) => if asked == had {
                Ok(asked)
            } else {
                Err(EngineError::WrongEngine)
            },
            (Some(asked), None) => Ok(asked),
            (None, Some(had)) => Ok(had),
            (None, None) => Ok(DEFAULT_ENGINE),
        }),
{
    match (requested, current) {
        (Some(asked), Some(had)) => if asked == had {
            Ok(asked)
        } else {
            Err(EngineError::WrongEngine)
        },
        (Some(asked), None) => Ok(asked),
        (None, Some(had)) => Ok(had),
        (None, None) => Ok(DEFAULT_ENGINE),
    }
}

/// A command of the client.
#[derive(Debug)]
pub enum Command {
    /// Set the value of a string key to a string.
    Put { key: String, value: String },
    /// Get the string value of a given string key.
    Get { key: String },
    /// Remove a given key.
    Rm { key: String },
}

/// What a command leaves for the front end to do.
#[derive(Debug)]
pub struct Reply {
    /// The line to print to standard output, if any.
    pub stdout: Option<String>,
    /// The line to print to standard error, if any.
    pub stderr: Option<String>,
    /// The status that the program ends with.
    pub code: u8,
    /// The file operations that bring the directory in line with the store.
    pub ops: Vec<FileOp>,
}

/// The line that is printed for a key without a value.
pub open spec fn key_not_found() -> Seq<char> {
    "Key not found"@
}

/// The line that `Get` prints for `key`.
pub open spec fn found_line(contents: Map<Seq<char>, Seq<char>>, key: Seq<char>) -> Seq<char> {
    if contents.dom().contains(key) {
        contents[key]
    } else {
        key_not_found()
    }
}

/// Runs `command` on `store` and says what to print and how to end.
///
/// A value that `Get` finds is printed; for a key without a value, `Get`
/// prints `Key not found` and succeeds, and `Rm` prints it and fails. A
/// mutation fails otherwise only where its record, written as JSON, does
/// not read back as it was written; it then prints the message of the
/// error to standard error. The status is 0 for success and 1 for failure.
pub fn run(store: &mut KvStore, command: Command) -> (reply: Reply)
    requires
        old(store).wf(),
        !(command is Get) ==> old(store).active_gen() <= u64::MAX - 2,
    ensures
        final(store).wf(),
        apply_steps(old(store).files(), steps_of(reply.ops@)) == final(store).files(),
        reply.code == 0 || reply.code == 1,
        reply.code == 1 ==> *final(store) == *old(store),
        match command {
            Command::Put { key, value } => {
                &&& reply.stdout is None
                &&& reply.code == 1 ==> reply.stderr is Some
                &&& reply.code == 1 ==> !is_record(
                    framed(Record::Put { key: key@, value: value@ }),
                    Record::Put { key: key@, value: value@ },
                )
                &&& reply.code == 0 ==> final(store).follows(
                    *old(store),
                    Record::Put { key: key@, value: value@ },
                    framed(Record::Put { key: key@, value: value@ }),
                )
            },
            Command::Get { key } => {
                &&& *final(store) == *old(store)
                &&& reply.code == 0
                &&& reply.stdout matches Some(line)
                &&& line@ == found_line(old(store)@, key@)
            },
            Command::Rm { key } => if old(store)@.dom().contains(key@) {
                &&& reply.stdout is None
                &&& reply.code == 1 ==> reply.stderr is Some
                &&& reply.code == 1 ==> !is_record(
                    framed(Record::Rm { key: key@ }),
                    Record::Rm { key: key@ },
                )
                &&& reply.code == 0 ==> final(store).follows(
                    *old(store),
                    Record::Rm { key: key@ },
                    framed(Record::Rm { key: key@ }),
                )
            } else {
                &&& reply.code == 1
                &&& reply.stderr is None
                &&& reply.stdout matches Some(line)
                &&& line@ == key_not_found()
            },
        },
        reply.code == 0 ==> reply.stderr is None,
{
    match command {
        Command::Put { key, value } => match store.set(key, value) {
            Ok(ops) => Reply { stdout: None, stderr: None, code: 0, ops },
            Err(e) => failed(e),
        },
        Command::Get { key } => match store.get(key) {
            Ok(Some(value)) => Reply { stdout: Some(value), stderr: None, code: 0, ops: no_ops() },
            Ok(None) => Reply {
                stdout: Some(String::from_str("Key not found")),
                stderr: None,
                code: 0,
                ops: no_ops(),
            },
            Err(e) => failed(e),
        },
        Command::Rm { key } => match store.remove(key) {
            Ok(ops) => Reply { stdout: None, stderr: None, code: 0, ops },
            Err(KvsError::KeyNotFound) => Reply {
                stdout: Some(String::from_str("Key not found")),
                stderr: None,
                code: 1,
                ops: no_ops(),
            },
            Err(e) => failed(e),
        },
    }
}

/// No file operation.
fn no_ops() -> (ops: Vec<FileOp>)
    ensures
        steps_of(ops@) == Seq::<FileStep>::empty(),
{
    let ops: Vec<FileOp> = Vec::new();
    proof {
        assert(steps_of(ops@) =~= Seq::<FileStep>::empty());
    }
    ops
}

/// The reply to a command that failed with `error`.
fn failed(error: KvsError) -> (reply: Reply)
    ensures
        reply.stdout is None,
        reply.stderr is Some,
        reply.code == 1,
        steps_of(reply.ops@) == Seq::<FileStep>::empty(),
{
    Reply { stdout: None, stderr: Some(error.message()), code: 1, ops: no_ops() }
}

} // verus!
