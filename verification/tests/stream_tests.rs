use recstream::stream::{build_stream, RecStream, RecStreamState, SourceEvent, StepResult, DEFAULT_CHUNK_SIZE};

fn rec(bytes: &[u8]) -> SourceEvent {
    SourceEvent::Record(bytes.to_vec())
}

fn concat(chunks: &[bytes::BytesMut]) -> Vec<u8> {
    let mut all = Vec::new();
    for c in chunks {
        all.extend_from_slice(&c[..]);
    }
    all
}

fn array_stream(size: usize) -> RecStream {
    build_stream(b"[".to_vec(), b",".to_vec(), b"]".to_vec(), size)
}

#[test]
fn empty_source_single_chunk() {
    let mut s = array_stream(DEFAULT_CHUNK_SIZE);
    let out = s.run_stream(&vec![]);
    assert_eq!(out.len(), 1);
    assert_eq!(&out[0][..], b"[]");
    assert!(matches!(s.state, RecStreamState::Dead));
}

#[test]
fn empty_source_via_polls() {
    let mut s = array_stream(DEFAULT_CHUNK_SIZE);
    assert!(s.begin_poll());
    match s.on_event(&SourceEvent::Exhausted) {
        StepResult::Chunk(c) => assert_eq!(&c[..], b"[]"),
        _ => panic!("exhaustion must yield the final chunk"),
    }
    assert!(matches!(s.state, RecStreamState::Finished));
    assert!(!s.begin_poll());
    assert!(matches!(s.state, RecStreamState::Dead));
}

#[test]
fn three_records_one_chunk() {
    let mut s = array_stream(DEFAULT_CHUNK_SIZE);
    let events = vec![
        rec(b"{\"id\":1}"),
        rec(b"{\"id\":2}"),
        rec(b"{\"id\":3}"),
        SourceEvent::Exhausted,
    ];
    let out = s.run_stream(&events);
    assert_eq!(out.len(), 1);
    assert_eq!(&out[0][..], &b"[{\"id\":1},{\"id\":2},{\"id\":3}]"[..]);
    let v: serde_json::Value = serde_json::from_slice(&concat(&out)).unwrap();
    let arr = v.as_array().unwrap();
    assert_eq!(arr.len(), 3);
    assert_eq!(arr[0]["id"].as_i64(), Some(1));
    assert_eq!(arr[1]["id"].as_i64(), Some(2));
    assert_eq!(arr[2]["id"].as_i64(), Some(3));
}

#[test]
fn split_after_two_of_five() {
    // Each record is 8 bytes; with a 16-byte target the buffer crosses the
    // threshold after the second record of each pair.
    let mut s = array_stream(16);
    let events = vec![
        rec(b"{\"id\":1}"),
        rec(b"{\"id\":2}"),
        rec(b"{\"id\":3}"),
        rec(b"{\"id\":4}"),
        rec(b"{\"id\":5}"),
        SourceEvent::Exhausted,
    ];
    let out = s.run_stream(&events);
    assert!(out.len() >= 2);
    assert_eq!(out.len(), 3);
    assert_eq!(&out[0][..], &b"[{\"id\":1},{\"id\":2}"[..]);
    assert_eq!(&out[1][..], &b",{\"id\":3},{\"id\":4}"[..]);
    assert_eq!(&out[2][..], &b",{\"id\":5}]"[..]);
    let all = concat(&out);
    assert_eq!(
        &all[..],
        &b"[{\"id\":1},{\"id\":2},{\"id\":3},{\"id\":4},{\"id\":5}]"[..]
    );
    let v: serde_json::Value = serde_json::from_slice(&all).unwrap();
    assert_eq!(v.as_array().unwrap().len(), 5);
    // No chunk boundary splits a record: every chunk starts with a framing
    // byte or a record start, never inside a record's digits.
    for c in &out {
        assert!(!c.is_empty());
    }
}

#[test]
fn final_chunk_below_threshold() {
    let mut s = array_stream(DEFAULT_CHUNK_SIZE);
    let events = vec![rec(b"{\"id\":7}"), SourceEvent::Exhausted];
    let out = s.run_stream(&events);
    // Far below the 2048-byte target, yet the final chunk still comes out.
    assert_eq!(out.len(), 1);
    assert_eq!(&out[0][..], &b"[{\"id\":7}]"[..]);
}

#[test]
fn not_ready_flushes_partial_buffer() {
    let mut s = array_stream(DEFAULT_CHUNK_SIZE);
    assert!(s.begin_poll());
    match s.on_event(&rec(b"{\"id\":1}")) {
        StepResult::More => {}
        _ => panic!("a small record packs into the buffer"),
    }
    match s.on_event(&SourceEvent::NotReady) {
        StepResult::Chunk(c) => assert_eq!(&c[..], &b"[{\"id\":1}"[..]),
        _ => panic!("backpressure with buffered bytes must flush them"),
    }
    assert!(s.begin_poll());
    match s.on_event(&SourceEvent::Exhausted) {
        StepResult::Chunk(c) => assert_eq!(&c[..], b"]"),
        _ => panic!("exhaustion must yield the final chunk"),
    }
}

#[test]
fn not_ready_with_empty_buffer_waits() {
    let mut s = array_stream(DEFAULT_CHUNK_SIZE);
    assert!(s.begin_poll());
    match s.on_event(&SourceEvent::NotReady) {
        StepResult::Wait => {}
        _ => panic!("nothing buffered: the task must suspend"),
    }
    assert!(matches!(s.state, RecStreamState::New));
}

#[test]
fn errored_rows_are_skipped_whole() {
    let mut s = array_stream(DEFAULT_CHUNK_SIZE);
    let events = vec![
        rec(b"{\"id\":1}"),
        SourceEvent::RowError,
        SourceEvent::WriteError,
        rec(b"{\"id\":2}"),
        SourceEvent::Exhausted,
    ];
    let out = s.run_stream(&events);
    // Dropped rows leave no dangling separator behind.
    assert_eq!(&concat(&out)[..], &b"[{\"id\":1},{\"id\":2}]"[..]);
    let v: serde_json::Value = serde_json::from_slice(&concat(&out)).unwrap();
    assert_eq!(v.as_array().unwrap().len(), 2);
}

#[test]
fn polling_after_terminal_state_stays_closed() {
    let mut s = array_stream(DEFAULT_CHUNK_SIZE);
    let out = s.run_stream(&vec![rec(b"{\"id\":1}"), SourceEvent::Exhausted]);
    assert_eq!(out.len(), 1);
    // The stream is over: every further poll reports end-of-stream and
    // nothing (in particular no second suffix) is ever emitted again.
    assert!(!s.begin_poll());
    assert!(!s.begin_poll());
    assert!(matches!(s.state, RecStreamState::Dead));
}

#[test]
fn events_after_exhaustion_are_ignored() {
    let mut s = array_stream(DEFAULT_CHUNK_SIZE);
    let events = vec![
        rec(b"{\"id\":1}"),
        SourceEvent::Exhausted,
        rec(b"{\"id\":9}"),
    ];
    let out = s.run_stream(&events);
    assert_eq!(&concat(&out)[..], &b"[{\"id\":1}]"[..]);
}

#[test]
fn object_framing() {
    let mut s = build_stream(b"{\"items\":[".to_vec(), b",".to_vec(), b"]}".to_vec(), DEFAULT_CHUNK_SIZE);
    let events = vec![rec(b"1"), rec(b"2"), SourceEvent::Exhausted];
    let out = s.run_stream(&events);
    let all = concat(&out);
    assert_eq!(&all[..], &b"{\"items\":[1,2]}"[..]);
    let v: serde_json::Value = serde_json::from_slice(&all).unwrap();
    assert_eq!(v["items"].as_array().unwrap().len(), 2);
}

#[test]
fn script_without_exhaustion_still_closes() {
    let mut s = array_stream(DEFAULT_CHUNK_SIZE);
    let out = s.run_stream(&vec![rec(b"4"), rec(b"5")]);
    assert_eq!(&concat(&out)[..], b"[4,5]");
    assert!(matches!(s.state, RecStreamState::Dead));
}
