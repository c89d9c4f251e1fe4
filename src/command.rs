use vstd::prelude::*;
use vstd::string::StringSliceAdditionalSpecFns;

use crate::error::KvsError;

verus! {

/// The abstract content of one log record.
pub enum Record {
    Put(Seq<char>, Seq<char>),
    Remove(Seq<char>),
}

/// A mutation as it is written to the log.
pub enum Command {
    Put { key: String, value: String },
    Remove { key: String },
}

impl View for Command {
    type V = Record;

    open spec fn view(&self) -> Record {
        match self {
            Command::Put { key, value } => Record::Put(key@, value@),
            Command::Remove { key } => Record::Remove(key@),
        }
    }
}

/// The JSON string literal that serde_json writes for `s`.
pub uninterp spec fn json_quoted(s: Seq<char>) -> Seq<u8>;

#[verifier::external_type_specification]
#[verifier::external_body]
pub struct ExJsonError(serde_json::Error);

/// Relies on `serde_json::to_vec` applied to a `str`: the bytes of the JSON
/// string literal of `s`. Its only writer is a `Vec`, which never fails, so
/// the call always succeeds.
#[verifier::external_body]
fn json_string(s: &str) -> (r: Result<Vec<u8>, serde_json::Error>)
    ensures
        r is Ok,
        r matches Ok(b) ==> b@ == json_quoted(s@),
{
    serde_json::to_vec(s)
}

/// The bytes of a record in the log: one JSON object, tagged with the kind of
/// the record.
pub open spec fn encoding(r: Record) -> Seq<u8> {
    match r {
        Record::Put(k, v) => "{\"Set\":{\"key\":".spec_bytes() + json_quoted(k) + ",\"value\":".spec_bytes()
            + json_quoted(v) + "}}".spec_bytes(),
        Record::Remove(k) => "{\"Remove\":{\"key\":".spec_bytes() + json_quoted(k) + "}}".spec_bytes(),
    }
}

impl Command {
    /// The bytes that stand for this record in the log.
    pub fn encode(&self) -> (r: Vec<u8>)
        ensures
            r@ == encoding(self@),
    {
        let mut out: Vec<u8> = Vec::new();
        match self {
            Command::Put { key, value } => {
                let k = match json_string(key.as_str()) {
                    Ok(b) => b,
                    Err(_) => return unreached(),
                };
                let v = match json_string(value.as_str()) {
                    Ok(b) => b,
                    Err(_) => return unreached(),
                };
                out.extend_from_slice("{\"Set\":{\"key\":".as_bytes());
                out.extend_from_slice(k.as_slice());
                out.extend_from_slice(",\"value\":".as_bytes());
                out.extend_from_slice(v.as_slice());
                out.extend_from_slice("}}".as_bytes());
            },
            Command::Remove { key } => {
                let k = match json_string(key.as_str()) {
                    Ok(b) => b,
                    Err(_) => return unreached(),
                };
                out.extend_from_slice("{\"Remove\":{\"key\":".as_bytes());
                out.extend_from_slice(k.as_slice());
                out.extend_from_slice("}}".as_bytes());
            },
        }
        out
    }

    /// The value of a `Put`; a `Remove` holds none.
    pub fn into_value(self) -> (r: Result<String, KvsError>)
        ensures
            match self@ {
                Record::Put(_, v) => r matches Ok(s) && s@ == v,
                Record::Remove(_) => r == Err::<String, KvsError>(KvsError::UnexpectedCommandType),
            },
    {
        match self {
            Command::Put { value, .. } => Ok(value),
            Command::Remove { .. } => Err(KvsError::UnexpectedCommandType),
        }
    }

    pub fn set(key: String, value: String) -> (r: Command)
        ensures
            r@ == Record::Put(key@, value@),
    {
        Command::Put { key, value }
    }

    pub fn remove(key: String) -> (r: Command)
        ensures
            r@ == Record::Remove(key@),
    {
        Command::Remove { key }
    }
}

/// Where a record lies: its generation, its first byte and its length.
#[derive(Clone, Copy, Debug, PartialEq, Eq, Structural)]
pub struct CommandPos {
    pub gen: u64,
    pub pos: u64,
    pub len: u64,
}

/// The effect of one record on the key/value contents.
pub open spec fn apply(m: Map<Seq<char>, Seq<char>>, r: Record) -> Map<Seq<char>, Seq<char>> {
    match r {
        Record::Put(k, v) => m.insert(k, v),
        Record::Remove(k) => m.remove(k),
    }
}

/// The contents that a sequence of records leaves, starting from nothing.
pub open spec fn replay(log: Seq<Record>) -> Map<Seq<char>, Seq<char>>
    decreases log.len(),
{
    if log.len() == 0 {
        Map::empty()
    } else {
        apply(replay(log.drop_last()), log.last())
    }
}

} // verus!
