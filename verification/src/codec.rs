//! The record codec: how a command is written to a log and read back.
//!
//! A record is a JSON object without whitespace. `Set` is written as
//! `{"Set":{"key":K,"value":V}}` and `Remove` as `{"Remove":{"key":K}}`, where
//! `K` and `V` are JSON strings. Records follow one another without a
//! separator. The frame is matched byte by byte here; the JSON strings are
//! written and read by `serde_json`.

use vstd::prelude::*;
use vstd::string::StringSliceAdditionalSpecFns;
use crate::error::ErrorCode;

verus! {

/// What is persisted: a key gets a value, or loses its mapping.
#[derive(Debug)]
pub enum Command {
    SetCommand { key: String, value: String },
    RmCommand { key: String },
}

/// A command as a mathematical value.
pub enum Record {
    SetCommand { key: Seq<char>, value: Seq<char> },
    RmCommand { key: Seq<char> },
}

impl Record {
    /// The key that the record speaks of.
    pub open spec fn key(self) -> Seq<char> {
        match self {
            Record::SetCommand { key, .. } => key,
            Record::RmCommand { key } => key,
        }
    }
}

impl View for Command {
    type V = Record;

    open spec fn view(&self) -> Record {
        match self {
            Command::SetCommand { key, value } => Record::SetCommand { key: key@, value: value@ },
            Command::RmCommand { key } => Record::RmCommand { key: key@ },
        }
    }
}

impl Command {
    /// The command that maps `key` to `value`.
    pub fn set(key: String, value: String) -> (cmd: Command)
        ensures
            cmd@ == (Record::SetCommand { key: key@, value: value@ }),
    {
        Command::SetCommand { key, value }
    }

    /// The command that erases `key`.
    pub fn remove(key: String) -> (cmd: Command)
        ensures
            cmd@ == (Record::RmCommand { key: key@ }),
    {
        Command::RmCommand { key }
    }

    /// The key that the command speaks of.
    pub fn key(&self) -> (key: &String)
        ensures
            key@ == self@.key(),
    {
        match self {
            Command::SetCommand { key, .. } => key,
            Command::RmCommand { key } => key,
        }
    }
}

/// The JSON text of a string as `serde_json::to_vec` writes it, or `None`
/// where it reports an error.
pub uninterp spec fn json_string(text: Seq<char>) -> Option<Seq<u8>>;

/// What `serde_json` reads from the front of `bytes` as one JSON string: the
/// string and the number of bytes that it took, or `None` where no string
/// stands there.
pub uninterp spec fn json_parse(bytes: Seq<u8>) -> Option<(Seq<char>, nat)>;

/// Calls `serde_json::to_vec` on a string. The result is the text that
/// `json_string` names; an error of the outside function becomes `None`.
#[verifier::external_body]
fn write_string(text: &str) -> (out: Option<Vec<u8>>)
    ensures
        match out {
            Some(bytes) => json_string(text@) == Some(bytes@),
            None => json_string(text@).is_none(),
        },
{
    serde_json::to_vec(text).ok()
}

/// Reads one JSON string from `bytes` at offset `at` with
/// `serde_json::Deserializer::from_slice`, `into_iter::<String>`, `next` and
/// `byte_offset`. The result is what `json_parse` names for the bytes from
/// `at` on; the number of bytes taken is the stream's byte offset, which does
/// not pass the end of the input.
#[verifier::external_body]
fn read_string(bytes: &[u8], at: usize) -> (out: Option<(String, usize)>)
    requires
        at <= bytes@.len(),
    ensures
        match out {
            Some((text, taken)) => json_parse(bytes@.skip(at as int)) == Some(
                (text@, taken as nat),
            ) && taken <= bytes@.len() - at,
            None => json_parse(bytes@.skip(at as int)).is_none(),
        },
{
    let mut stream = serde_json::Deserializer::from_slice(&bytes[at..]).into_iter::<String>();
    match stream.next() {
        Some(Ok(text)) => Some((text, stream.byte_offset())),
        _ => None,
    }
}

/// The bytes that open a `Set` record, up to its key.
pub open spec fn set_head() -> Seq<u8> {
    "{\"Set\":{\"key\":".spec_bytes()
}

/// The bytes between the key and the value of a `Set` record.
pub open spec fn set_mid() -> Seq<u8> {
    ",\"value\":".spec_bytes()
}

/// The bytes that open a `Remove` record, up to its key.
pub open spec fn remove_head() -> Seq<u8> {
    "{\"Remove\":{\"key\":".spec_bytes()
}

/// The bytes that close a record.
pub open spec fn tail() -> Seq<u8> {
    "}}".spec_bytes()
}

/// The bytes of a record, or `None` where a string of it cannot be written.
pub open spec fn record_bytes(r: Record) -> Option<Seq<u8>> {
    match r {
        Record::SetCommand { key, value } => match (json_string(key), json_string(value)) {
            (Some(k), Some(v)) => Some(set_head() + k + set_mid() + v + tail()),
            _ => None,
        },
        Record::RmCommand { key } => match json_string(key) {
            Some(k) => Some(remove_head() + k + tail()),
            None => None,
        },
    }
}

/// Whether `bytes` holds `pat` at offset `at`.
pub open spec fn holds_at(bytes: Seq<u8>, at: int, pat: Seq<u8>) -> bool {
    0 <= at && at + pat.len() <= bytes.len() && bytes.subrange(at, at + pat.len()) == pat
}

/// The `Set` record at the front of `bytes` and its length, if one stands
/// there.
pub open spec fn parse_set(bytes: Seq<u8>) -> Option<(Record, nat)> {
    if !holds_at(bytes, 0, set_head()) {
        None
    } else {
        let a = set_head().len();
        match json_parse(bytes.skip(a as int)) {
            None => None,
            Some((key, n)) => {
                let b = a + n;
                if !holds_at(bytes, b as int, set_mid()) {
                    None
                } else {
                    let c = b + set_mid().len();
                    match json_parse(bytes.skip(c as int)) {
                        None => None,
                        Some((value, m)) => {
                            let d = c + m;
                            if holds_at(bytes, d as int, tail()) {
                                Some((Record::SetCommand { key, value }, d + tail().len()))
                            } else {
                                None
                            }
                        },
                    }
                }
            },
        }
    }
}

/// The `Remove` record at the front of `bytes` and its length, if one stands
/// there.
pub open spec fn parse_remove(bytes: Seq<u8>) -> Option<(Record, nat)> {
    if !holds_at(bytes, 0, remove_head()) {
        None
    } else {
        let a = remove_head().len();
        match json_parse(bytes.skip(a as int)) {
            None => None,
            Some((key, n)) => {
                let b = a + n;
                if holds_at(bytes, b as int, tail()) {
                    Some((Record::RmCommand { key }, b + tail().len()))
                } else {
                    None
                }
            },
        }
    }
}

/// The record at the front of `bytes` and its length in bytes, if one stands
/// there.
pub open spec fn parse_record(bytes: Seq<u8>) -> Option<(Record, nat)> {
    match parse_set(bytes) {
        Some(found) => Some(found),
        None => parse_remove(bytes),
    }
}

fn append(out: &mut Vec<u8>, src: &[u8])
    ensures
        final(out)@ == old(out)@ + src@,
{
    let ghost before = out@;
    let mut i: usize = 0;
    while i < src.len()
        invariant
            i <= src@.len(),
            out@ == before + src@.take(i as int),
        decreases src@.len() - i,
    {
        out.push(src[i]);
        i += 1;
        proof {
            assert(src@.take(i as int) =~= src@.take(i - 1).push(src@[i - 1]));
            assert(out@ =~= before + src@.take(i as int));
        }
    }
    proof {
        assert(src@.take(src@.len() as int) =~= src@);
    }
}

fn matches_at(bytes: &[u8], at: usize, pat: &[u8]) -> (found: bool)
    requires
        at <= bytes@.len(),
    ensures
        found == holds_at(bytes@, at as int, pat@),
{
    if pat.len() > bytes.len() - at {
        return false;
    }
    let mut i: usize = 0;
    while i < pat.len()
        invariant
            i <= pat@.len(),
            at + pat@.len() <= bytes@.len() <= usize::MAX,
            forall|j: int| 0 <= j < i ==> bytes@[at + j] == pat@[j],
        decreases pat@.len() - i,
    {
        if bytes[at + i] != pat[i] {
            proof {
                assert(bytes@.subrange(at as int, at + pat@.len())[i as int] == bytes@[at + i]);
            }
            return false;
        }
        i += 1;
    }
    proof {
        assert(bytes@.subrange(at as int, at + pat@.len()) =~= pat@);
    }
    true
}

/// Writes a command as one record. Fails with `Internal` where `serde_json`
/// cannot write one of its strings.
pub fn encode(cmd: &Command) -> (out: Result<Vec<u8>, ErrorCode>)
    ensures
        match out {
            Ok(bytes) => record_bytes(cmd@) == Some(bytes@),
            Err(e) => e == ErrorCode::Internal && record_bytes(cmd@).is_none(),
        },
{
    let mut out: Vec<u8> = Vec::new();
    match cmd {
        Command::SetCommand { key, value } => {
            let k = match write_string(key.as_str()) {
                Some(k) => k,
                None => {
                    return Err(ErrorCode::Internal);
                },
            };
            let v = match write_string(value.as_str()) {
                Some(v) => v,
                None => {
                    return Err(ErrorCode::Internal);
                },
            };
            append(&mut out, "{\"Set\":{\"key\":".as_bytes());
            append(&mut out, k.as_slice());
            append(&mut out, ",\"value\":".as_bytes());
            append(&mut out, v.as_slice());
            append(&mut out, "}}".as_bytes());
            proof {
                assert(out@ =~= set_head() + k@ + set_mid() + v@ + tail());
            }
        },
        Command::RmCommand { key } => {
            let k = match write_string(key.as_str()) {
                Some(k) => k,
                None => {
                    return Err(ErrorCode::Internal);
                },
            };
            append(&mut out, "{\"Remove\":{\"key\":".as_bytes());
            append(&mut out, k.as_slice());
            append(&mut out, "}}".as_bytes());
            proof {
                assert(out@ =~= remove_head() + k@ + tail());
            }
        },
    }
    Ok(out)
}

fn decode_set(bytes: &[u8], at: usize) -> (out: Option<(Command, usize)>)
    requires
        at <= bytes@.len(),
    ensures
        match out {
            Some((cmd, taken)) => parse_set(bytes@.skip(at as int)) == Some((cmd@, taken as nat))
                && taken <= bytes@.len() - at,
            None => parse_set(bytes@.skip(at as int)).is_none(),
        },
{
    let ghost rest = bytes@.skip(at as int);
    let total = bytes.len();
    let head = "{\"Set\":{\"key\":".as_bytes();
    let mid = ",\"value\":".as_bytes();
    let end = "}}".as_bytes();
    proof {
        shifted(bytes@, at as int, 0, set_head());
    }
    if !matches_at(bytes, at, head) {
        return None;
    }
    let a = at + head.len();
    proof {
        assert(rest.skip(head@.len() as int) =~= bytes@.skip(a as int));
    }
    let (key, n) = match read_string(bytes, a) {
        Some(found) => found,
        None => {
            return None;
        },
    };
    let b = a + n;
    proof {
        shifted(bytes@, at as int, b - at, set_mid());
    }
    if !matches_at(bytes, b, mid) {
        return None;
    }
    let c = b + mid.len();
    proof {
        assert(rest.skip(c - at) =~= bytes@.skip(c as int));
    }
    let (value, m) = match read_string(bytes, c) {
        Some(found) => found,
        None => {
            return None;
        },
    };
    let d = c + m;
    proof {
        shifted(bytes@, at as int, d - at, tail());
    }
    if !matches_at(bytes, d, end) {
        return None;
    }
    Some((Command::SetCommand { key, value }, d + end.len() - at))
}

fn decode_remove(bytes: &[u8], at: usize) -> (out: Option<(Command, usize)>)
    requires
        at <= bytes@.len(),
    ensures
        match out {
            Some((cmd, taken)) => parse_remove(bytes@.skip(at as int)) == Some(
                (cmd@, taken as nat),
            ) && taken <= bytes@.len() - at,
            None => parse_remove(bytes@.skip(at as int)).is_none(),
        },
{
    let ghost rest = bytes@.skip(at as int);
    let total = bytes.len();
    let head = "{\"Remove\":{\"key\":".as_bytes();
    let end = "}}".as_bytes();
    proof {
        shifted(bytes@, at as int, 0, remove_head());
    }
    if !matches_at(bytes, at, head) {
        return None;
    }
    let a = at + head.len();
    proof {
        assert(rest.skip(head@.len() as int) =~= bytes@.skip(a as int));
    }
    let (key, n) = match read_string(bytes, a) {
        Some(found) => found,
        None => {
            return None;
        },
    };
    let b = a + n;
    proof {
        shifted(bytes@, at as int, b - at, tail());
    }
    if !matches_at(bytes, b, end) {
        return None;
    }
    Some((Command::RmCommand { key }, b + end.len() - at))
}

proof fn shifted(bytes: Seq<u8>, at: int, off: int, pat: Seq<u8>)
    requires
        0 <= at <= bytes.len(),
        0 <= off,
    ensures
        holds_at(bytes.skip(at), off, pat) == holds_at(bytes, at + off, pat),
{
    if at + off + pat.len() <= bytes.len() {
        assert(bytes.skip(at).subrange(off, off + pat.len()) =~= bytes.subrange(
            at + off,
            at + off + pat.len(),
        ));
    }
}

/// Reads the record that starts at offset `at` of `bytes`. Returns the
/// command and the number of bytes that the record takes, or `None` where no
/// record stands there.
pub fn decode_at(bytes: &[u8], at: usize) -> (out: Option<(Command, usize)>)
    requires
        at <= bytes@.len(),
    ensures
        match out {
            Some((cmd, taken)) => parse_record(bytes@.skip(at as int)) == Some(
                (cmd@, taken as nat),
            ) && taken <= bytes@.len() - at,
            None => parse_record(bytes@.skip(at as int)).is_none(),
        },
{
    match decode_set(bytes, at) {
        Some(found) => Some(found),
        None => decode_remove(bytes, at),
    }
}

/// What a read of the record of a live key yields: the value, where `bytes`
/// is exactly one `Set` record; `Corrupted` otherwise.
pub open spec fn value_in(bytes: Seq<u8>) -> Result<Seq<char>, ErrorCode> {
    match parse_record(bytes) {
        Some((Record::SetCommand { key, value }, n)) => if n == bytes.len() {
            Ok(value)
        } else {
            Err(ErrorCode::Corrupted)
        },
        _ => Err(ErrorCode::Corrupted),
    }
}

/// Reads the value out of the bytes that an index pointer covers. Fails with
/// `Corrupted` unless the bytes are exactly one `Set` record.
pub fn decode_value(bytes: &[u8]) -> (out: Result<String, ErrorCode>)
    ensures
        match out {
            Ok(value) => value_in(bytes@) == Ok::<Seq<char>, ErrorCode>(value@),
            Err(e) => value_in(bytes@) == Err::<Seq<char>, ErrorCode>(e),
        },
{
    proof {
        assert(bytes@.skip(0) =~= bytes@);
    }
    match decode_at(bytes, 0) {
        Some((Command::SetCommand { key, value }, n)) => {
            if n == bytes.len() {
                Ok(value)
            } else {
                Err(ErrorCode::Corrupted)
            }
        },
        _ => Err(ErrorCode::Corrupted),
    }
}

} // verus!
