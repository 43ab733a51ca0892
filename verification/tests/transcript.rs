//! Transcripts in JSON.

use serde_json::Value;
use wire::transport::tape::{Event, ReadError};
use wire::transport::transcript::{event, parse, payload, read};

/// Parses JSON.
fn value(json: &str) -> Value {
    serde_json::from_str(json).unwrap()
}

/// Parses an event and shows what it holds.
fn shown(json: &str) -> Option<String> {
    event(&value(json)).map(|event| format!("{:?}", event))
}

/// Shows what an event holds.
fn show(event: Event) -> Option<String> {
    Some(format!("{:?}", event))
}

// Tests every kind of event, with its fields.
#[test]
fn test_events() {
    let cases = [
        (
            r#"{"event": "handshake", "xdsa": "AQI=", "xhpke": "Aw=="}"#,
            Event::Handshake { xdsa: vec![1, 2], xhpke: vec![3] },
        ),
        (r#"{"event": "send", "message": "cGluZw=="}"#, Event::Send { message: b"ping".to_vec() }),
        (
            r#"{"event": "send", "runs": [[7, 3], [0, 1]]}"#,
            Event::Send { message: vec![7, 7, 7, 0] },
        ),
        (r#"{"event": "retain"}"#, Event::Retain),
        (
            r#"{"event": "send_retained", "message": ""}"#,
            Event::SendRetained { message: Vec::new() },
        ),
        (r#"{"event": "recv"}"#, Event::Recv),
        (r#"{"event": "ok"}"#, Event::Returned { reply: None }),
        (r#"{"event": "ok", "message": "Kg=="}"#, Event::Returned { reply: Some(vec![42]) }),
        (
            r#"{"event": "error", "kind": "SessionReset"}"#,
            Event::Refused { kind: "SessionReset".to_string() },
        ),
        (r#"{"event": "session", "established": true}"#, Event::Session { established: true }),
        (r#"{"event": "read", "bytes": "AAA="}"#, Event::Read { bytes: vec![0, 0], chunk: 0 }),
        (
            r#"{"event": "read", "bytes": "AAA=", "chunk": 1}"#,
            Event::Read { bytes: vec![0, 0], chunk: 1 },
        ),
        (r#"{"event": "read", "error": "eof"}"#, Event::ReadFailed { error: ReadError::Eof }),
        (r#"{"event": "read", "error": "failed"}"#, Event::ReadFailed { error: ReadError::Failed }),
        (
            r#"{"event": "read", "error": "interrupted"}"#,
            Event::ReadFailed { error: ReadError::Interrupted },
        ),
        (
            r#"{"event": "read", "error": "timed_out"}"#,
            Event::ReadFailed { error: ReadError::TimedOut },
        ),
        (r#"{"event": "write", "bytes": "AA=="}"#, Event::Write { bytes: vec![0], failed: false }),
        (
            r#"{"event": "write", "bytes": "AA==", "failed": true}"#,
            Event::Write { bytes: vec![0], failed: true },
        ),
        (
            r#"{"event": "write", "bytes": "AA==", "failed": "yes"}"#,
            Event::Write { bytes: vec![0], failed: false },
        ),
        (r#"{"event": "flush_failed"}"#, Event::FlushFailed),
        (
            r#"{"event": "write_timed_out", "bytes": "AQ=="}"#,
            Event::WriteTimedOut { bytes: vec![1] },
        ),
        (r#"{"event": "flush_timed_out"}"#, Event::FlushTimedOut),
    ];
    for (json, expected) in cases {
        assert_eq!(shown(json), show(expected), "{}", json);
    }
}

// Tests that events of unknown kinds or with invalid fields are refused.
#[test]
fn test_invalid_events() {
    for json in [
        "null",
        "[]",
        r#"{}"#,
        r#"{"event": 1}"#,
        r#"{"event": "unheard of"}"#,
        r#"{"event": "handshake", "xdsa": "AQI="}"#,
        r#"{"event": "handshake", "xdsa": "AQI=", "xhpke": "not base64"}"#,
        r#"{"event": "send"}"#,
        r#"{"event": "send", "message": 1, "runs": [[1, 1]]}"#,
        r#"{"event": "send_retained", "runs": [[1, 1]]}"#,
        r#"{"event": "ok", "message": null}"#,
        r#"{"event": "error"}"#,
        r#"{"event": "session", "established": 1}"#,
        r#"{"event": "read"}"#,
        r#"{"event": "read", "bytes": "AA==", "chunk": -1}"#,
        r#"{"event": "read", "bytes": "AA==", "error": "lost"}"#,
        r#"{"event": "read", "error": null}"#,
        r#"{"event": "write"}"#,
        r#"{"event": "write_timed_out", "runs": 3}"#,
    ] {
        assert_eq!(shown(json), None, "{}", json);
    }
}

// Tests the two forms of an event's bytes. A string comes first, and the values of runs
// keep their lowest eight bits.
#[test]
fn test_payload() {
    assert_eq!(payload(&value(r#"{"bytes": "AQID"}"#)), Some(vec![1, 2, 3]));
    assert_eq!(payload(&value(r#"{"bytes": "AQID", "runs": []}"#)), Some(vec![1, 2, 3]));
    assert_eq!(payload(&value(r#"{"bytes": 1, "runs": [[9, 2]]}"#)), Some(vec![9, 9]));
    assert_eq!(payload(&value(r#"{"runs": []}"#)), Some(Vec::new()));
    assert_eq!(payload(&value(r#"{"runs": [[257, 2], [5, 0], [6, 1, 8]]}"#)), Some(vec![1, 1, 6]));
    for json in [
        r#"{}"#,
        r#"{"bytes": "AQI"}"#,
        r#"{"runs": {}}"#,
        r#"{"runs": [[1]]}"#,
        r#"{"runs": [[1, 2], 3]}"#,
        r#"{"runs": [["1", 2]]}"#,
        r#"{"runs": [[1, 1.5]]}"#,
    ] {
        assert_eq!(payload(&value(json)), None, "{}", json);
    }
}

/// A transcript of one call.
const TRANSCRIPT: &str = r#"{
    "scenario": "one call",
    "script": ["Recv", "Yield"],
    "write_failures": false,
    "server": {"identity": "AQ==", "attestation": "AgI=", "xhpke": ["Aw==", ""]},
    "trace": [{"event": "recv"}, {"event": "error", "kind": "EncryptionFailed"}]
}"#;

// Tests that a transcript is read in full.
#[test]
fn test_transcript() {
    let vector = parse(TRANSCRIPT).unwrap();
    assert_eq!(vector.scenario, "one call");
    assert_eq!(vector.script, vec!["Recv".to_string(), "Yield".to_string()]);
    assert!(!vector.write_failures);
    assert_eq!(vector.identity, vec![1]);
    assert_eq!(vector.attestation, vec![2, 2]);
    assert_eq!(vector.server_keys, vec![vec![3], Vec::new()]);
    let trace: Vec<String> = vector.trace.iter().map(|event| format!("{:?}", event)).collect();
    assert_eq!(
        trace,
        vec![
            format!("{:?}", Event::Recv),
            format!("{:?}", Event::Refused { kind: "EncryptionFailed".to_string() }),
        ]
    );
}

// Tests that a transcript without any one of its fields is refused, as is what is not
// JSON.
#[test]
fn test_incomplete_transcript() {
    assert!(read(&value(TRANSCRIPT)).is_some());
    for field in ["scenario", "script", "write_failures", "server", "trace"] {
        let mut root = value(TRANSCRIPT);
        root.as_object_mut().unwrap().remove(field);
        assert!(read(&root).is_none(), "{}", field);
    }
    for field in ["identity", "attestation", "xhpke"] {
        let mut root = value(TRANSCRIPT);
        root["server"].as_object_mut().unwrap().remove(field);
        assert!(read(&root).is_none(), "{}", field);
    }
    let mut root = value(TRANSCRIPT);
    root["trace"].as_array_mut().unwrap().push(Value::Null);
    assert!(read(&root).is_none());
    assert!(parse("{").is_none());
    assert!(parse("").is_none());
}
