//! Transcripts in JSON. Byte strings are base64, or runs of repeated values.

use base64::prelude::{Engine, BASE64_STANDARD};
use base64::DecodeError;
use serde_json::{Error as JsonError, Value};
use vstd::prelude::*;

use super::replay::Vector;
use super::tape::{Event, ReadError};
use crate::bytes::{append, same_text};

verus! {

/// A JSON value.
#[verifier::external_type_specification]
#[verifier::external_body]
pub struct ExValue(Value);

/// The JSON parser's own error.
#[verifier::external_type_specification]
#[verifier::external_body]
pub struct ExJsonError(JsonError);

/// The base64 decoder's own error.
#[verifier::external_type_specification]
#[verifier::external_body]
pub struct ExDecodeError(DecodeError);

/// Value that a text stands for, if it is JSON.
pub uninterp spec fn json_parsed(text: Seq<char>) -> Option<Value>;

/// Field of an object, if the value is an object with that field.
pub uninterp spec fn json_field(value: Value, name: Seq<char>) -> Option<Value>;

/// Text of a value, if it is a string.
pub uninterp spec fn json_text(value: Value) -> Option<Seq<char>>;

/// Flag that a value is, if it is one.
pub uninterp spec fn json_flag(value: Value) -> Option<bool>;

/// Number of a value, if it is an integer from zero up that 64 bits can hold.
pub uninterp spec fn json_number(value: Value) -> Option<u64>;

/// Elements of a value, if it is an array.
pub uninterp spec fn json_list(value: Value) -> Option<Seq<Value>>;

/// Bytes that a text stands for in base64 with padding, if it is that.
pub uninterp spec fn base64_decoded(text: Seq<char>) -> Option<Seq<u8>>;

/// Parses JSON with `serde_json::from_str` into a `Value`.
#[verifier::external_body]
fn parse_json(text: &str) -> (value: Result<Value, JsonError>)
    ensures
        match value {
            Ok(value) => json_parsed(text@) == Some(value),
            Err(_) => json_parsed(text@) is None,
        },
{
    serde_json::from_str(text)
}

/// Looks up a field with `Value::get`.
#[verifier::external_body]
fn get_field<'a>(value: &'a Value, name: &str) -> (field: Option<&'a Value>)
    ensures
        match field {
            Some(field) => json_field(*value, name@) == Some(*field),
            None => json_field(*value, name@) is None,
        },
{
    value.get(name)
}

/// Decodes base64 with the standard engine of the base64 crate, which demands
/// canonical padding.
#[verifier::external_body]
fn decode_base64(text: &str) -> (bytes: Result<Vec<u8>, DecodeError>)
    ensures
        match bytes {
            Ok(bytes) => base64_decoded(text@) == Some(bytes@),
            Err(_) => base64_decoded(text@) is None,
        },
{
    BASE64_STANDARD.decode(text)
}

/// `Value::as_str` gives the text of a string.
pub assume_specification[ Value::as_str ](value: &Value) -> (text: Option<&str>)
    ensures
        match text {
            Some(text) => json_text(*value) == Some(text@),
            None => json_text(*value) is None,
        },
;

/// `Value::as_bool` gives the flag that a value is.
pub assume_specification[ Value::as_bool ](value: &Value) -> (flag: Option<bool>)
    ensures
        flag == json_flag(*value),
;

/// `Value::as_u64` gives the number of an integer that 64 bits can hold.
pub assume_specification[ Value::as_u64 ](value: &Value) -> (number: Option<u64>)
    ensures
        number == json_number(*value),
;

/// `Value::as_array` gives the elements of an array.
pub assume_specification[ Value::as_array ](value: &Value) -> (list: Option<&Vec<Value>>)
    ensures
        match list {
            Some(list) => json_list(*value) == Some(list@),
            None => json_list(*value) is None,
        },
;

/// Contents of an event.
pub enum Entry {
    Handshake { xdsa: Seq<u8>, xhpke: Seq<u8> },
    Send { message: Seq<u8> },
    Retain,
    SendRetained { message: Seq<u8> },
    Recv,
    Returned { reply: Option<Seq<u8>> },
    Refused { kind: Seq<char> },
    Session { established: bool },
    Read { bytes: Seq<u8>, chunk: usize },
    ReadFailed { error: ReadError },
    Write { bytes: Seq<u8>, failed: bool },
    FlushFailed,
    WriteTimedOut { bytes: Seq<u8> },
    FlushTimedOut,
}

impl View for Event {
    type V = Entry;

    open spec fn view(&self) -> Entry {
        match *self {
            Event::Handshake { xdsa, xhpke } => Entry::Handshake { xdsa: xdsa@, xhpke: xhpke@ },
            Event::Send { message } => Entry::Send { message: message@ },
            Event::Retain => Entry::Retain,
            Event::SendRetained { message } => Entry::SendRetained { message: message@ },
            Event::Recv => Entry::Recv,
            Event::Returned { reply } => Entry::Returned {
                reply: match reply {
                    Some(reply) => Some(reply@),
                    None => None,
                },
            },
            Event::Refused { kind } => Entry::Refused { kind: kind@ },
            Event::Session { established } => Entry::Session { established },
            Event::Read { bytes, chunk } => Entry::Read { bytes: bytes@, chunk },
            Event::ReadFailed { error } => Entry::ReadFailed { error },
            Event::Write { bytes, failed } => Entry::Write { bytes: bytes@, failed },
            Event::FlushFailed => Entry::FlushFailed,
            Event::WriteTimedOut { bytes } => Entry::WriteTimedOut { bytes: bytes@ },
            Event::FlushTimedOut => Entry::FlushTimedOut,
        }
    }
}

/// Text in a field, if it is there and a string.
pub open spec fn text_in(value: Value, name: Seq<char>) -> Option<Seq<char>> {
    match json_field(value, name) {
        Some(field) => json_text(field),
        None => None,
    }
}

/// Reads the text in a field.
fn text<'a>(value: &'a Value, name: &str) -> (text: Option<&'a str>)
    ensures
        match text {
            Some(text) => text_in(*value, name@) == Some(text@),
            None => text_in(*value, name@) is None,
        },
{
    match get_field(value, name) {
        Some(field) => field.as_str(),
        None => None,
    }
}

/// Bytes of a value, if it is a string of base64.
pub open spec fn bytes_of(value: Value) -> Option<Seq<u8>> {
    match json_text(value) {
        Some(text) => base64_decoded(text),
        None => None,
    }
}

/// Decodes a string of base64.
fn bytes(value: &Value) -> (bytes: Option<Vec<u8>>)
    ensures
        match bytes {
            Some(bytes) => bytes_of(*value) == Some(bytes@),
            None => bytes_of(*value) is None,
        },
{
    match value.as_str() {
        Some(text) => decode_base64(text).ok(),
        None => None,
    }
}

/// Bytes in a field, if it is there and a string of base64.
pub open spec fn bytes_in(value: Value, name: Seq<char>) -> Option<Seq<u8>> {
    match json_field(value, name) {
        Some(field) => bytes_of(field),
        None => None,
    }
}

/// Decodes the bytes in a field.
fn bytes_field(value: &Value, name: &str) -> (bytes: Option<Vec<u8>>)
    ensures
        match bytes {
            Some(bytes) => bytes_in(*value, name@) == Some(bytes@),
            None => bytes_in(*value, name@) is None,
        },
{
    match get_field(value, name) {
        Some(field) => self::bytes(field),
        None => None,
    }
}

/// Bytes in a field, which may be missing but not be anything else than a string of
/// base64.
pub open spec fn optional_bytes(value: Value, name: Seq<char>) -> Option<Option<Seq<u8>>> {
    match json_field(value, name) {
        Some(field) => match bytes_of(field) {
            Some(bytes) => Some(Some(bytes)),
            None => None,
        },
        None => Some(None),
    }
}

/// Bytes of a run, a pair of a value and how often it repeats.
pub open spec fn run_of(run: Value) -> Option<Seq<u8>> {
    match json_list(run) {
        Some(pair) => if pair.len() >= 2 {
            match (json_number(pair[0]), json_number(pair[1])) {
                (Some(value), Some(times)) => Some(
                    Seq::new(times as usize as nat, |i: int| value as u8),
                ),
                _ => None,
            }
        } else {
            None
        },
        None => None,
    }
}

/// Bytes of runs, one after the other.
pub open spec fn runs_of(runs: Seq<Value>) -> Option<Seq<u8>>
    decreases runs.len(),
{
    if runs.len() == 0 {
        Some(Seq::empty())
    } else {
        match (runs_of(runs.drop_last()), run_of(runs.last())) {
            (Some(front), Some(run)) => Some(front + run),
            _ => None,
        }
    }
}

/// Expands a run.
fn expand_run(run: &Value) -> (bytes: Option<Vec<u8>>)
    ensures
        match bytes {
            Some(bytes) => run_of(*run) == Some(bytes@),
            None => run_of(*run) is None,
        },
{
    let pair = match run.as_array() {
        Some(pair) => pair,
        None => return None,
    };
    if pair.len() < 2 {
        return None;
    }
    match (pair[0].as_u64(), pair[1].as_u64()) {
        (Some(value), Some(times)) => {
            let repeated: Vec<u8> = vec![value as u8; times as usize];
            assert(repeated@ =~= Seq::new(times as usize as nat, |i: int| value as u8));
            Some(repeated)
        },
        _ => None,
    }
}

/// Runs with an invalid one among them are invalid.
proof fn lemma_runs_fail(runs: Seq<Value>, count: int)
    requires
        0 <= count <= runs.len(),
        runs_of(runs.take(count)) is None,
    ensures
        runs_of(runs) is None,
    decreases runs.len() - count,
{
    if count < runs.len() {
        assert(runs.take(count + 1).drop_last() =~= runs.take(count));
        lemma_runs_fail(runs, count + 1);
    } else {
        assert(runs.take(count) =~= runs);
    }
}

/// Expands runs.
fn expand_runs(runs: &Vec<Value>) -> (bytes: Option<Vec<u8>>)
    ensures
        match bytes {
            Some(bytes) => runs_of(runs@) == Some(bytes@),
            None => runs_of(runs@) is None,
        },
{
    let mut bytes: Vec<u8> = Vec::new();
    assert(runs@.take(0) =~= Seq::<Value>::empty());
    assert(bytes@ =~= Seq::<u8>::empty());
    for i in 0..runs.len()
        invariant
            runs_of(runs@.take(i as int)) == Some(bytes@),
    {
        proof {
            assert(runs@.take(i + 1).drop_last() =~= runs@.take(i as int));
            assert(runs@.take(i + 1).last() == runs@[i as int]);
        }
        match expand_run(&runs[i]) {
            Some(run) => append(&mut bytes, run.as_slice()),
            None => {
                proof {
                    lemma_runs_fail(runs@, i + 1);
                }
                return None;
            },
        }
    }
    assert(runs@.take(runs@.len() as int) =~= runs@);
    Some(bytes)
}

/// Bytes of an event, in base64 or else in runs.
pub open spec fn payload_of(event: Value) -> Option<Seq<u8>> {
    match text_in(event, "bytes"@) {
        Some(text) => base64_decoded(text),
        None => match json_field(event, "runs"@) {
            Some(field) => match json_list(field) {
                Some(runs) => runs_of(runs),
                None => None,
            },
            None => None,
        },
    }
}

/// Decodes the bytes of an event.
pub fn payload(event: &Value) -> (bytes: Option<Vec<u8>>)
    ensures
        match bytes {
            Some(bytes) => payload_of(*event) == Some(bytes@),
            None => payload_of(*event) is None,
        },
{
    if let Some(text) = text(event, "bytes") {
        return decode_base64(text).ok();
    }
    match get_field(event, "runs") {
        Some(field) => match field.as_array() {
            Some(runs) => expand_runs(runs),
            None => None,
        },
        None => None,
    }
}

/// Flag in a field, if it is there and one.
pub open spec fn flag_in(value: Value, name: Seq<char>) -> Option<bool> {
    match json_field(value, name) {
        Some(field) => json_flag(field),
        None => None,
    }
}

/// Reads the flag in a field.
fn flag(value: &Value, name: &str) -> (flag: Option<bool>)
    ensures
        flag == flag_in(*value, name@),
{
    match get_field(value, name) {
        Some(field) => field.as_bool(),
        None => None,
    }
}

/// Event of a recorded read: how it failed, or what it brought in pieces of a size.
pub open spec fn read_of(value: Value) -> Option<Entry> {
    match json_field(value, "error"@) {
        Some(field) => match json_text(field) {
            Some(name) => match ReadError::named(name) {
                Some(error) => Some(Entry::ReadFailed { error }),
                None => None,
            },
            None => None,
        },
        None => match (payload_of(value), json_field(value, "chunk"@)) {
            (Some(bytes), None) => Some(Entry::Read { bytes, chunk: 0 }),
            (Some(bytes), Some(field)) => match json_number(field) {
                Some(chunk) => Some(Entry::Read { bytes, chunk: chunk as usize }),
                None => None,
            },
            (None, _) => None,
        },
    }
}

/// Reads the event of a recorded read.
fn read_event(value: &Value) -> (event: Option<Event>)
    ensures
        match event {
            Some(event) => read_of(*value) == Some(event@),
            None => read_of(*value) is None,
        },
{
    if let Some(field) = get_field(value, "error") {
        return match field.as_str() {
            Some(name) => match ReadError::parse(name) {
                Some(error) => Some(Event::ReadFailed { error }),
                None => None,
            },
            None => None,
        };
    }
    let bytes = match payload(value) {
        Some(bytes) => bytes,
        None => return None,
    };
    match get_field(value, "chunk") {
        None => Some(Event::Read { bytes, chunk: 0 }),
        Some(field) => match field.as_u64() {
            Some(chunk) => Some(Event::Read { bytes, chunk: chunk as usize }),
            None => None,
        },
    }
}

/// Event of a call: what it does, and what it came to.
pub open spec fn call_of(kind: Seq<char>, value: Value) -> Option<Entry> {
    if kind == "handshake"@ {
        match (bytes_in(value, "xdsa"@), bytes_in(value, "xhpke"@)) {
            (Some(xdsa), Some(xhpke)) => Some(Entry::Handshake { xdsa, xhpke }),
            _ => None,
        }
    } else if kind == "send"@ {
        match optional_bytes(value, "message"@) {
            Some(Some(message)) => Some(Entry::Send { message }),
            Some(None) => match payload_of(value) {
                Some(message) => Some(Entry::Send { message }),
                None => None,
            },
            None => None,
        }
    } else if kind == "retain"@ {
        Some(Entry::Retain)
    } else if kind == "send_retained"@ {
        match bytes_in(value, "message"@) {
            Some(message) => Some(Entry::SendRetained { message }),
            None => None,
        }
    } else if kind == "recv"@ {
        Some(Entry::Recv)
    } else if kind == "ok"@ {
        match optional_bytes(value, "message"@) {
            Some(reply) => Some(Entry::Returned { reply }),
            None => None,
        }
    } else if kind == "error"@ {
        match text_in(value, "kind"@) {
            Some(kind) => Some(Entry::Refused { kind }),
            None => None,
        }
    } else if kind == "session"@ {
        match flag_in(value, "established"@) {
            Some(established) => Some(Entry::Session { established }),
            None => None,
        }
    } else {
        None
    }
}

/// Reads the event of a call.
fn call_event(kind: &str, value: &Value) -> (event: Option<Event>)
    ensures
        match event {
            Some(event) => call_of(kind@, *value) == Some(event@),
            None => call_of(kind@, *value) is None,
        },
{
    if same_text(kind, "handshake") {
        match (bytes_field(value, "xdsa"), bytes_field(value, "xhpke")) {
            (Some(xdsa), Some(xhpke)) => Some(Event::Handshake { xdsa, xhpke }),
            _ => None,
        }
    } else if same_text(kind, "send") {
        let message = match get_field(value, "message") {
            Some(field) => bytes(field),
            None => payload(value),
        };
        match message {
            Some(message) => Some(Event::Send { message }),
            None => None,
        }
    } else if same_text(kind, "retain") {
        Some(Event::Retain)
    } else if same_text(kind, "send_retained") {
        match bytes_field(value, "message") {
            Some(message) => Some(Event::SendRetained { message }),
            None => None,
        }
    } else if same_text(kind, "recv") {
        Some(Event::Recv)
    } else if same_text(kind, "ok") {
        match get_field(value, "message") {
            None => Some(Event::Returned { reply: None }),
            Some(field) => match bytes(field) {
                Some(message) => Some(Event::Returned { reply: Some(message) }),
                None => None,
            },
        }
    } else if same_text(kind, "error") {
        match text(value, "kind") {
            Some(kind) => Some(Event::Refused { kind: String::from_str(kind) }),
            None => None,
        }
    } else if same_text(kind, "session") {
        match flag(value, "established") {
            Some(established) => Some(Event::Session { established }),
            None => None,
        }
    } else {
        None
    }
}

/// Event of output.
pub open spec fn output_of(kind: Seq<char>, value: Value) -> Option<Entry> {
    if kind == "write"@ {
        match payload_of(value) {
            Some(bytes) => Some(
                Entry::Write { bytes, failed: flag_in(value, "failed"@) == Some(true) },
            ),
            None => None,
        }
    } else if kind == "flush_failed"@ {
        Some(Entry::FlushFailed)
    } else if kind == "write_timed_out"@ {
        match payload_of(value) {
            Some(bytes) => Some(Entry::WriteTimedOut { bytes }),
            None => None,
        }
    } else if kind == "flush_timed_out"@ {
        Some(Entry::FlushTimedOut)
    } else {
        None
    }
}

/// Reads the event of output.
fn output_event(kind: &str, value: &Value) -> (event: Option<Event>)
    ensures
        match event {
            Some(event) => output_of(kind@, *value) == Some(event@),
            None => output_of(kind@, *value) is None,
        },
{
    if same_text(kind, "write") {
        match payload(value) {
            Some(bytes) => {
                let failed: bool = match flag(value, "failed") {
                    Some(failed) => failed,
                    None => false,
                };
                Some(Event::Write { bytes, failed })
            },
            None => None,
        }
    } else if same_text(kind, "flush_failed") {
        Some(Event::FlushFailed)
    } else if same_text(kind, "write_timed_out") {
        match payload(value) {
            Some(bytes) => Some(Event::WriteTimedOut { bytes }),
            None => None,
        }
    } else if same_text(kind, "flush_timed_out") {
        Some(Event::FlushTimedOut)
    } else {
        None
    }
}

/// Event that a value stands for, if its kind is known and its fields are valid.
pub open spec fn event_of(value: Value) -> Option<Entry> {
    match text_in(value, "event"@) {
        Some(kind) => if kind == "read"@ {
            read_of(value)
        } else if call_of(kind, value) is Some {
            call_of(kind, value)
        } else {
            output_of(kind, value)
        },
        None => None,
    }
}

/// Parses one event, unless its kind or required fields are invalid.
pub fn event(value: &Value) -> (event: Option<Event>)
    ensures
        match event {
            Some(event) => event_of(*value) == Some(event@),
            None => event_of(*value) is None,
        },
{
    let kind = match text(value, "event") {
        Some(kind) => kind,
        None => return None,
    };
    if same_text(kind, "read") {
        return read_event(value);
    }
    match call_event(kind, value) {
        Some(event) => Some(event),
        None => output_event(kind, value),
    }
}

/// Reads a string.
fn string(value: &Value) -> (string: Option<String>)
    ensures
        match string {
            Some(string) => json_text(*value) == Some(string@),
            None => json_text(*value) is None,
        },
{
    match value.as_str() {
        Some(text) => Some(String::from_str(text)),
        None => None,
    }
}

/// Texts of a list of strings, if they all are.
pub open spec fn all_texts(values: Seq<Value>) -> Option<Seq<Seq<char>>>
    decreases values.len(),
{
    if values.len() == 0 {
        Some(Seq::empty())
    } else {
        match (all_texts(values.drop_last()), json_text(values.last())) {
            (Some(front), Some(last)) => Some(front.push(last)),
            _ => None,
        }
    }
}

/// A list with an invalid element is invalid.
proof fn lemma_texts_fail(values: Seq<Value>, count: int)
    requires
        0 <= count <= values.len(),
        all_texts(values.take(count)) is None,
    ensures
        all_texts(values) is None,
    decreases values.len() - count,
{
    if count < values.len() {
        assert(values.take(count + 1).drop_last() =~= values.take(count));
        lemma_texts_fail(values, count + 1);
    } else {
        assert(values.take(count) =~= values);
    }
}

/// Reads a list of strings.
fn strings(values: &Vec<Value>) -> (list: Option<Vec<String>>)
    ensures
        match list {
            Some(list) => all_texts(values@) == Some(list@.map_values(|item: String| item@)),
            None => all_texts(values@) is None,
        },
{
    let mut list: Vec<String> = Vec::new();
    assert(values@.take(0) =~= Seq::<Value>::empty());
    assert(list@.map_values(|item: String| item@) =~= Seq::<Seq<char>>::empty());
    for i in 0..values.len()
        invariant
            all_texts(values@.take(i as int)) == Some(list@.map_values(|item: String| item@)),
    {
        proof {
            assert(values@.take(i + 1).drop_last() =~= values@.take(i as int));
            assert(values@.take(i + 1).last() == values@[i as int]);
        }
        match string(&values[i]) {
            Some(item) => {
                assert(list@.push(item).map_values(|item: String| item@) =~= list@.map_values(
                    |item: String| item@,
                ).push(item@));
                list.push(item);
            },
            None => {
                proof {
                    lemma_texts_fail(values@, i + 1);
                }
                return None;
            },
        }
    }
    assert(values@.take(values@.len() as int) =~= values@);
    Some(list)
}

/// Bytes of a list of strings of base64, if they all are.
pub open spec fn all_bytes(values: Seq<Value>) -> Option<Seq<Seq<u8>>>
    decreases values.len(),
{
    if values.len() == 0 {
        Some(Seq::empty())
    } else {
        match (all_bytes(values.drop_last()), bytes_of(values.last())) {
            (Some(front), Some(last)) => Some(front.push(last)),
            _ => None,
        }
    }
}

/// A list with an invalid element is invalid.
proof fn lemma_bytes_fail(values: Seq<Value>, count: int)
    requires
        0 <= count <= values.len(),
        all_bytes(values.take(count)) is None,
    ensures
        all_bytes(values) is None,
    decreases values.len() - count,
{
    if count < values.len() {
        assert(values.take(count + 1).drop_last() =~= values.take(count));
        lemma_bytes_fail(values, count + 1);
    } else {
        assert(values.take(count) =~= values);
    }
}

/// Decodes a list of strings of base64.
fn byte_strings(values: &Vec<Value>) -> (list: Option<Vec<Vec<u8>>>)
    ensures
        match list {
            Some(list) => all_bytes(values@) == Some(list@.map_values(|item: Vec<u8>| item@)),
            None => all_bytes(values@) is None,
        },
{
    let mut list: Vec<Vec<u8>> = Vec::new();
    assert(values@.take(0) =~= Seq::<Value>::empty());
    assert(list@.map_values(|item: Vec<u8>| item@) =~= Seq::<Seq<u8>>::empty());
    for i in 0..values.len()
        invariant
            all_bytes(values@.take(i as int)) == Some(list@.map_values(|item: Vec<u8>| item@)),
    {
        proof {
            assert(values@.take(i + 1).drop_last() =~= values@.take(i as int));
            assert(values@.take(i + 1).last() == values@[i as int]);
        }
        match bytes(&values[i]) {
            Some(item) => {
                assert(list@.push(item).map_values(|item: Vec<u8>| item@) =~= list@.map_values(
                    |item: Vec<u8>| item@,
                ).push(item@));
                list.push(item);
            },
            None => {
                proof {
                    lemma_bytes_fail(values@, i + 1);
                }
                return None;
            },
        }
    }
    assert(values@.take(values@.len() as int) =~= values@);
    Some(list)
}

/// Events of a list, if they all are valid.
pub open spec fn all_events(values: Seq<Value>) -> Option<Seq<Entry>>
    decreases values.len(),
{
    if values.len() == 0 {
        Some(Seq::empty())
    } else {
        match (all_events(values.drop_last()), event_of(values.last())) {
            (Some(front), Some(last)) => Some(front.push(last)),
            _ => None,
        }
    }
}

/// A list with an invalid element is invalid.
proof fn lemma_events_fail(values: Seq<Value>, count: int)
    requires
        0 <= count <= values.len(),
        all_events(values.take(count)) is None,
    ensures
        all_events(values) is None,
    decreases values.len() - count,
{
    if count < values.len() {
        assert(values.take(count + 1).drop_last() =~= values.take(count));
        lemma_events_fail(values, count + 1);
    } else {
        assert(values.take(count) =~= values);
    }
}

/// Parses a list of events.
fn events(values: &Vec<Value>) -> (list: Option<Vec<Event>>)
    ensures
        match list {
            Some(list) => all_events(values@) == Some(list@.map_values(|item: Event| item@)),
            None => all_events(values@) is None,
        },
{
    let mut list: Vec<Event> = Vec::new();
    assert(values@.take(0) =~= Seq::<Value>::empty());
    assert(list@.map_values(|item: Event| item@) =~= Seq::<Entry>::empty());
    for i in 0..values.len()
        invariant
            all_events(values@.take(i as int)) == Some(list@.map_values(|item: Event| item@)),
    {
        proof {
            assert(values@.take(i + 1).drop_last() =~= values@.take(i as int));
            assert(values@.take(i + 1).last() == values@[i as int]);
        }
        match event(&values[i]) {
            Some(item) => {
                assert(list@.push(item).map_values(|item: Event| item@) =~= list@.map_values(
                    |item: Event| item@,
                ).push(item@));
                list.push(item);
            },
            None => {
                proof {
                    lemma_events_fail(values@, i + 1);
                }
                return None;
            },
        }
    }
    assert(values@.take(values@.len() as int) =~= values@);
    Some(list)
}

/// Elements of a list in a field, if it is there and one.
pub open spec fn list_in(value: Value, name: Seq<char>) -> Option<Seq<Value>> {
    match json_field(value, name) {
        Some(field) => json_list(field),
        None => None,
    }
}

/// Looks up a list in a field.
fn list<'a>(value: &'a Value, name: &str) -> (list: Option<&'a Vec<Value>>)
    ensures
        match list {
            Some(list) => list_in(*value, name@) == Some(list@),
            None => list_in(*value, name@) is None,
        },
{
    match get_field(value, name) {
        Some(field) => field.as_array(),
        None => None,
    }
}

/// Contents of a transcript.
pub struct Record {
    pub scenario: Seq<char>,
    pub script: Seq<Seq<char>>,
    pub write_failures: bool,
    pub identity: Seq<u8>,
    pub attestation: Seq<u8>,
    pub server_keys: Seq<Seq<u8>>,
    pub trace: Seq<Entry>,
}

impl View for Vector {
    type V = Record;

    open spec fn view(&self) -> Record {
        Record {
            scenario: self.scenario@,
            script: self.script@.map_values(|item: String| item@),
            write_failures: self.write_failures,
            identity: self.identity@,
            attestation: self.attestation@,
            server_keys: self.server_keys@.map_values(|item: Vec<u8>| item@),
            trace: self.trace@.map_values(|item: Event| item@),
        }
    }
}

/// Whether a value states a transcript: what it was recorded from, the server's
/// secrets, and the events in order.
pub open spec fn states(root: Value, record: Record) -> bool {
    &&& text_in(root, "scenario"@) == Some(record.scenario)
    &&& list_in(root, "script"@) matches Some(script)
    &&& all_texts(script) == Some(record.script)
    &&& flag_in(root, "write_failures"@) == Some(record.write_failures)
    &&& json_field(root, "server"@) matches Some(server)
    &&& bytes_in(server, "identity"@) == Some(record.identity)
    &&& bytes_in(server, "attestation"@) == Some(record.attestation)
    &&& list_in(server, "xhpke"@) matches Some(server_keys)
    &&& all_bytes(server_keys) == Some(record.server_keys)
    &&& list_in(root, "trace"@) matches Some(trace)
    &&& all_events(trace) == Some(record.trace)
}

/// Reads a transcript out of a value, unless it states none.
pub fn read(root: &Value) -> (vector: Option<Vector>)
    ensures
        match vector {
            Some(vector) => states(*root, vector@),
            None => forall|record: Record| !states(*root, record),
        },
{
    let scenario = match text(root, "scenario") {
        Some(scenario) => String::from_str(scenario),
        None => return None,
    };
    let script = match list(root, "script") {
        Some(script) => match strings(script) {
            Some(script) => script,
            None => return None,
        },
        None => return None,
    };
    let write_failures: bool = match flag(root, "write_failures") {
        Some(flag) => flag,
        None => return None,
    };
    let server = match get_field(root, "server") {
        Some(server) => server,
        None => return None,
    };
    let (identity, attestation) = match (
        bytes_field(server, "identity"),
        bytes_field(server, "attestation"),
    ) {
        (Some(identity), Some(attestation)) => (identity, attestation),
        _ => return None,
    };
    let server_keys = match list(server, "xhpke") {
        Some(server_keys) => match byte_strings(server_keys) {
            Some(server_keys) => server_keys,
            None => return None,
        },
        None => return None,
    };
    let trace = match list(root, "trace") {
        Some(trace) => match events(trace) {
            Some(trace) => trace,
            None => return None,
        },
        None => return None,
    };
    Some(
        Vector { scenario, script, write_failures, identity, attestation, server_keys, trace },
    )
}

/// Decodes a transcript from its JSON, unless it is none.
pub fn parse(json: &str) -> (vector: Option<Vector>)
    ensures
        match json_parsed(json@) {
            Some(root) => match vector {
                Some(vector) => states(root, vector@),
                None => forall|record: Record| !states(root, record),
            },
            None => vector is None,
        },
{
    match parse_json(json) {
        Ok(root) => read(&root),
        Err(_) => None,
    }
}

/// A run is a value and how often it repeats: as many bytes as the count says, each the
/// low eight bits of the value. Anything but a pair of numbers, at least, is no run.
pub proof fn law_run_repeats(run: Value)
    ensures
        match json_list(run) {
            Some(pair) => if pair.len() >= 2 && json_number(pair[0]) is Some && json_number(
                pair[1],
            ) is Some {
                let times = json_number(pair[1])->0;
                &&& run_of(run) matches Some(bytes)
                &&& times <= usize::MAX ==> bytes.len() == times
                &&& forall|i: int|
                    0 <= i < bytes.len() ==> #[trigger] bytes[i] == json_number(pair[0])->0 % 256
            } else {
                run_of(run) is None
            },
            None => run_of(run) is None,
        },
{
    if let Some(pair) = json_list(run) {
        if pair.len() >= 2 {
            if let Some(value) = json_number(pair[0]) {
                assert(value as u8 == value % 256) by (bit_vector);
            }
        }
    }
}

/// How often the values of runs repeat, together.
pub open spec fn repeats(runs: Seq<Value>) -> nat
    decreases runs.len(),
{
    if runs.len() == 0 {
        0
    } else {
        json_number(json_list(runs[0])->0[1])->0 as nat + repeats(runs.skip(1))
    }
}

/// Whether the count of a run fits a buffer of this machine.
pub open spec fn countable(run: Value) -> bool {
    json_list(run) matches Some(pair) && pair.len() >= 2 && (json_number(pair[1]) matches Some(
        times,
    ) && times <= usize::MAX)
}

/// Runs expand one after the other: the bytes of two lists of runs in one are those of
/// the first and behind them those of the second. Both have to be valid.
pub proof fn law_runs_join(first: Seq<Value>, second: Seq<Value>)
    ensures
        match (runs_of(first), runs_of(second)) {
            (Some(front), Some(back)) => runs_of(first + second) == Some(front + back),
            _ => runs_of(first + second) is None,
        },
    decreases second.len(),
{
    if second.len() == 0 {
        assert(first + second =~= first);
        if let Some(front) = runs_of(first) {
            assert(front + Seq::<u8>::empty() =~= front);
        }
    } else {
        law_runs_join(first, second.drop_last());
        assert((first + second).drop_last() =~= first + second.drop_last());
        if let (Some(front), Some(middle), Some(last)) = (
            runs_of(first),
            runs_of(second.drop_last()),
            run_of(second.last()),
        ) {
            assert(front + (middle + last) =~= front + middle + last);
        }
    }
}

/// The bytes of a single run are those of that run.
pub proof fn law_single_run(run: Value)
    ensures
        runs_of(seq![run]) == run_of(run),
{
    let runs = seq![run];
    assert(runs.drop_last() =~= Seq::<Value>::empty());
    assert(runs_of(runs.drop_last()) == Some(Seq::<u8>::empty()));
    if let Some(bytes) = run_of(run) {
        assert(Seq::<u8>::empty() + bytes =~= bytes);
    }
}

/// There are as many bytes in runs as all their counts together, however large they are.
pub proof fn law_runs_add_up(runs: Seq<Value>, bytes: Seq<u8>)
    requires
        runs_of(runs) == Some(bytes),
        forall|i: int| 0 <= i < runs.len() ==> countable(#[trigger] runs[i]),
    ensures
        bytes.len() == repeats(runs),
    decreases runs.len(),
{
    if runs.len() > 0 {
        let first = seq![runs[0]];
        let rest = runs.skip(1);
        assert(runs =~= first + rest);
        law_runs_join(first, rest);
        law_single_run(runs[0]);
        law_run_repeats(runs[0]);
        assert(countable(runs[0]));
        assert forall|i: int| 0 <= i < rest.len() implies countable(#[trigger] rest[i]) by {
            assert(rest[i] == runs[i + 1]);
        }
        law_runs_add_up(rest, runs_of(rest)->0);
    }
}

/// The bytes of an event are those of its text in base64, or else those of its runs, as
/// many as their counts say together.
pub proof fn law_payload_is_whole(event: Value, bytes: Seq<u8>)
    requires
        payload_of(event) == Some(bytes),
    ensures
        ({
            ||| {
                &&& json_field(event, "bytes"@) matches Some(field)
                &&& json_text(field) matches Some(text)
                &&& base64_decoded(text) == Some(bytes)
            }
            ||| {
                &&& json_field(event, "bytes"@) is None || json_text(
                    json_field(event, "bytes"@)->0,
                ) is None
                &&& json_field(event, "runs"@) matches Some(field)
                &&& json_list(field) matches Some(runs)
                &&& (forall|i: int| 0 <= i < runs.len() ==> countable(#[trigger] runs[i]))
                    ==> bytes.len() == repeats(runs)
            }
        }),
{
    if text_in(event, "bytes"@) is None {
        let runs = json_list(json_field(event, "runs"@)->0)->0;
        if forall|i: int| 0 <= i < runs.len() ==> countable(#[trigger] runs[i]) {
            law_runs_add_up(runs, bytes);
        }
    }
}

/// Lists are read element by element, none left out: a list is valid exactly if each of
/// its elements is, and its elements come out in their order.
pub proof fn law_lists_are_whole(values: Seq<Value>)
    ensures
        match all_texts(values) {
            Some(texts) => {
                &&& texts.len() == values.len()
                &&& forall|i: int|
                    0 <= i < values.len() ==> json_text(#[trigger] values[i]) == Some(texts[i])
            },
            None => exists|i: int|
                0 <= i < values.len() && json_text(#[trigger] values[i]) is None,
        },
        match all_bytes(values) {
            Some(list) => {
                &&& list.len() == values.len()
                &&& forall|i: int|
                    0 <= i < values.len() ==> bytes_of(#[trigger] values[i]) == Some(list[i])
            },
            None => exists|i: int| 0 <= i < values.len() && bytes_of(#[trigger] values[i]) is None,
        },
        match all_events(values) {
            Some(list) => {
                &&& list.len() == values.len()
                &&& forall|i: int|
                    0 <= i < values.len() ==> event_of(#[trigger] values[i]) == Some(list[i])
            },
            None => exists|i: int| 0 <= i < values.len() && event_of(#[trigger] values[i]) is None,
        },
    decreases values.len(),
{
    if values.len() > 0 {
        let front = values.drop_last();
        law_lists_are_whole(front);
        assert(forall|i: int| 0 <= i < front.len() ==> #[trigger] front[i] == values[i]);
        let last = values.len() - 1;
        assert(values[last] == values.last());
        if all_texts(front) is None {
            let i = choose|i: int| 0 <= i < front.len() && json_text(#[trigger] front[i]) is None;
            assert(json_text(values[i]) is None);
        } else if let Some(texts) = all_texts(values) {
            assert forall|i: int| 0 <= i < values.len() implies json_text(#[trigger] values[i])
                == Some(texts[i]) by {
                if i < last {
                    assert(front[i] == values[i]);
                }
            }
        }
        if all_bytes(front) is None {
            let i = choose|i: int| 0 <= i < front.len() && bytes_of(#[trigger] front[i]) is None;
            assert(bytes_of(values[i]) is None);
        } else if let Some(list) = all_bytes(values) {
            assert forall|i: int| 0 <= i < values.len() implies bytes_of(#[trigger] values[i])
                == Some(list[i]) by {
                if i < last {
                    assert(front[i] == values[i]);
                }
            }
        }
        if all_events(front) is None {
            let i = choose|i: int| 0 <= i < front.len() && event_of(#[trigger] front[i]) is None;
            assert(event_of(values[i]) is None);
        } else if let Some(list) = all_events(values) {
            assert forall|i: int| 0 <= i < values.len() implies event_of(#[trigger] values[i])
                == Some(list[i]) by {
                if i < last {
                    assert(front[i] == values[i]);
                }
            }
        }
    }
}

/// Whether a value names its event.
pub open spec fn names_event(value: Value, kind: Seq<char>) -> bool {
    json_field(value, "event"@) matches Some(field) && json_text(field) == Some(kind)
}

/// The names of events are all different.
proof fn lemma_event_names()
    ensures
        "read"@.len() == 4,
        "read"@[0] == 'r',
        "read"@[2] == 'a',
        "handshake"@.len() == 9,
        "send"@.len() == 4,
        "send"@[0] == 's',
        "retain"@.len() == 6,
        "send_retained"@.len() == 13,
        "recv"@.len() == 4,
        "recv"@[0] == 'r',
        "recv"@[2] == 'c',
        "ok"@.len() == 2,
        "error"@.len() == 5,
        "error"@[0] == 'e',
        "session"@.len() == 7,
        "write"@.len() == 5,
        "write"@[0] == 'w',
        "flush_failed"@.len() == 12,
        "write_timed_out"@.len() == 15,
        "write_timed_out"@[0] == 'w',
        "flush_timed_out"@.len() == 15,
        "flush_timed_out"@[0] == 'f',
{
    reveal_strlit("read");
    reveal_strlit("handshake");
    reveal_strlit("send");
    reveal_strlit("retain");
    reveal_strlit("send_retained");
    reveal_strlit("recv");
    reveal_strlit("ok");
    reveal_strlit("error");
    reveal_strlit("session");
    reveal_strlit("write");
    reveal_strlit("flush_failed");
    reveal_strlit("write_timed_out");
    reveal_strlit("flush_timed_out");
}

/// A recorded read holds its bytes whole and the size of its pieces as recorded, zero if
/// none is. One with an error is that failure, and no bytes matter then.
pub proof fn law_read_is_read_whole(value: Value)
    requires
        names_event(value, "read"@),
    ensures
        match json_field(value, "error"@) {
            Some(error) => match json_text(error) {
                Some(name) => match ReadError::named(name) {
                    Some(error) => event_of(value) == Some(Entry::ReadFailed { error }),
                    None => event_of(value) is None,
                },
                None => event_of(value) is None,
            },
            None => match (payload_of(value), json_field(value, "chunk"@)) {
                (None, _) => event_of(value) is None,
                (Some(bytes), None) => event_of(value) == Some(Entry::Read { bytes, chunk: 0 }),
                (Some(bytes), Some(field)) => match json_number(field) {
                    Some(size) => size <= usize::MAX ==> (event_of(value) matches Some(
                        Entry::Read { bytes: read, chunk },
                    ) && read == bytes && chunk == size),
                    None => event_of(value) is None,
                },
            },
        },
{
}

/// A recorded call holds the bytes of its fields, decoded whole, and is none if one that it
/// needs is missing or does not decode.
pub proof fn law_calls_are_read_whole(value: Value)
    ensures
        names_event(value, "handshake"@) ==> match (
            json_field(value, "xdsa"@),
            json_field(value, "xhpke"@),
        ) {
            (Some(first), Some(second)) => match (json_text(first), json_text(second)) {
                (Some(first), Some(second)) => match (
                    base64_decoded(first),
                    base64_decoded(second),
                ) {
                    (Some(xdsa), Some(xhpke)) => event_of(value) == Some(
                        Entry::Handshake { xdsa, xhpke },
                    ),
                    _ => event_of(value) is None,
                },
                _ => event_of(value) is None,
            },
            _ => event_of(value) is None,
        },
        names_event(value, "send"@) ==> match json_field(value, "message"@) {
            Some(field) => match json_text(field) {
                Some(text) => match base64_decoded(text) {
                    Some(message) => event_of(value) == Some(Entry::Send { message }),
                    None => event_of(value) is None,
                },
                None => event_of(value) is None,
            },
            None => match payload_of(value) {
                Some(message) => event_of(value) == Some(Entry::Send { message }),
                None => event_of(value) is None,
            },
        },
        names_event(value, "send_retained"@) ==> match json_field(value, "message"@) {
            Some(field) => match json_text(field) {
                Some(text) => match base64_decoded(text) {
                    Some(message) => event_of(value) == Some(Entry::SendRetained { message }),
                    None => event_of(value) is None,
                },
                None => event_of(value) is None,
            },
            None => event_of(value) is None,
        },
        names_event(value, "retain"@) ==> event_of(value) == Some(Entry::Retain),
        names_event(value, "recv"@) ==> event_of(value) == Some(Entry::Recv),
{
    lemma_event_names();
}

/// A recorded result holds its reply, decoded whole, or none, and an error its kind. What is
/// recorded of a session is the flag.
pub proof fn law_results_are_read_whole(value: Value)
    ensures
        names_event(value, "ok"@) ==> match json_field(value, "message"@) {
            Some(field) => match json_text(field) {
                Some(text) => match base64_decoded(text) {
                    Some(reply) => event_of(value) == Some(Entry::Returned { reply: Some(reply) }),
                    None => event_of(value) is None,
                },
                None => event_of(value) is None,
            },
            None => event_of(value) == Some(Entry::Returned { reply: None }),
        },
        names_event(value, "error"@) ==> match json_field(value, "kind"@) {
            Some(field) => match json_text(field) {
                Some(kind) => event_of(value) == Some(Entry::Refused { kind }),
                None => event_of(value) is None,
            },
            None => event_of(value) is None,
        },
        names_event(value, "session"@) ==> match json_field(value, "established"@) {
            Some(field) => match json_flag(field) {
                Some(established) => event_of(value) == Some(Entry::Session { established }),
                None => event_of(value) is None,
            },
            None => event_of(value) is None,
        },
{
    lemma_event_names();
}

/// A recorded output holds its bytes whole, and failed only if it is said so.
pub proof fn law_outputs_are_read_whole(value: Value)
    ensures
        names_event(value, "write"@) ==> match payload_of(value) {
            Some(bytes) => event_of(value) matches Some(Entry::Write { bytes: written, failed })
                && written == bytes && (failed <==> (json_field(value, "failed"@) matches Some(
                field,
            ) && json_flag(field) == Some(true))),
            None => event_of(value) is None,
        },
        names_event(value, "write_timed_out"@) ==> match payload_of(value) {
            Some(bytes) => event_of(value) == Some(Entry::WriteTimedOut { bytes }),
            None => event_of(value) is None,
        },
        names_event(value, "flush_failed"@) ==> event_of(value) == Some(Entry::FlushFailed),
        names_event(value, "flush_timed_out"@) ==> event_of(value) == Some(Entry::FlushTimedOut),
{
    lemma_event_names();
}

/// A transcript holds every step of its script, every key and every event, in order, each
/// read whole.
pub proof fn law_transcript_is_whole(root: Value, record: Record)
    requires
        states(root, record),
    ensures
        json_field(root, "trace"@) matches Some(field) && {
            &&& json_list(field) matches Some(trace)
            &&& record.trace.len() == trace.len()
            &&& forall|i: int|
                0 <= i < trace.len() ==> event_of(#[trigger] trace[i]) == Some(record.trace[i])
        },
        json_field(root, "script"@) matches Some(field) && {
            &&& json_list(field) matches Some(script)
            &&& record.script.len() == script.len()
            &&& forall|i: int|
                0 <= i < script.len() ==> json_text(#[trigger] script[i]) == Some(
                    record.script[i],
                )
        },
        json_field(root, "server"@) matches Some(server) && {
            &&& json_field(server, "xhpke"@) matches Some(field)
            &&& json_list(field) matches Some(seeds)
            &&& record.server_keys.len() == seeds.len()
            &&& forall|i: int|
                0 <= i < seeds.len() ==> bytes_of(#[trigger] seeds[i]) == Some(
                    record.server_keys[i],
                )
            &&& json_field(server, "identity"@) matches Some(identity)
            &&& bytes_of(identity) == Some(record.identity)
            &&& json_field(server, "attestation"@) matches Some(attestation)
            &&& bytes_of(attestation) == Some(record.attestation)
        },
        json_field(root, "scenario"@) matches Some(field) && json_text(field) == Some(
            record.scenario,
        ),
        json_field(root, "write_failures"@) matches Some(field) && json_flag(field) == Some(
            record.write_failures,
        ),
{
    law_lists_are_whole(json_list(json_field(root, "trace"@)->0)->0);
    law_lists_are_whole(json_list(json_field(root, "script"@)->0)->0);
    law_lists_are_whole(json_list(json_field(json_field(root, "server"@)->0, "xhpke"@)->0)->0);
}

/// Bytes are those of a text in base64, all of them, and of nothing else.
pub proof fn law_bytes_are_base64(value: Value)
    ensures
        bytes_of(value) is Some ==> json_text(value) is Some,
        json_text(value) matches Some(text) ==> bytes_of(value) == base64_decoded(text),
{
}

} // verus!
