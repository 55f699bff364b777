//! Draining a channel in batches, driven by hand.

use std::collections::VecDeque;

use hdfs_bridge::entry::FileStatus;
use hdfs_bridge::error::classify;
use hdfs_bridge::error::BridgeError;
use hdfs_bridge::error::ErrorKind;
use hdfs_bridge::error::HDFS_ERR_IO;
use hdfs_bridge::error::HDFS_ERR_NOT_FOUND;
use hdfs_bridge::stream::BridgeListStream;
use hdfs_bridge::stream::StreamAction;
use hdfs_bridge::stream::StreamEvent;
use hdfs_bridge::stream::StreamFailure;

fn entry(path: &str) -> FileStatus {
    FileStatus {
        path: path.to_string(),
        length: 0,
        isdir: false,
        permission: 0,
        owner: String::new(),
        group: String::new(),
        modification_time: 0,
        access_time: 0,
        replication: None,
        blocksize: None,
    }
}

fn gone() -> BridgeError {
    BridgeError {
        kind: ErrorKind::FileNotFound,
        text: "gone".to_string(),
    }
}

/// A channel whose sender has gone, and how the walk ended.
struct Channel {
    items: VecDeque<Result<FileStatus, BridgeError>>,
    died: Option<String>,
    joins: usize,
}

fn channel(items: Vec<Result<FileStatus, BridgeError>>, died: Option<&str>) -> Channel {
    Channel {
        items: items.into(),
        died: died.map(|s| s.to_string()),
        joins: 0,
    }
}

fn next(
    stream: &mut BridgeListStream,
    from: &mut Channel,
    max_entries: usize,
) -> Result<Vec<String>, StreamFailure> {
    let mut event = StreamEvent::Next(max_entries);
    loop {
        event = match stream.next_batch(event) {
            StreamAction::Receive => match from.items.pop_front() {
                Some(item) => StreamEvent::Received(item),
                None => StreamEvent::Closed,
            },
            StreamAction::TryReceive => match from.items.pop_front() {
                Some(item) => StreamEvent::Received(item),
                None => StreamEvent::Empty,
            },
            StreamAction::Join => {
                from.joins += 1;
                StreamEvent::Joined(from.died.take())
            }
            StreamAction::Return(result) => {
                return result.map(|batch| batch.into_iter().map(|e| e.path).collect())
            }
        };
    }
}

#[test]
fn batches_are_bounded_and_in_order() {
    let mut stream = BridgeListStream::new("/p".to_string());
    assert_eq!(stream.path(), "/p");
    let names = ["a", "b", "c", "d", "e"];
    let mut from = channel(names.iter().map(|n| Ok(entry(n))).collect(), None);
    assert_eq!(next(&mut stream, &mut from, 2).unwrap(), vec!["a", "b"]);
    // At least one entry is handed out.
    assert_eq!(next(&mut stream, &mut from, 0).unwrap(), vec!["c"]);
    assert_eq!(next(&mut stream, &mut from, 9).unwrap(), vec!["d", "e"]);
    // Exhausted, and it stays so; the walk is joined once.
    assert!(next(&mut stream, &mut from, 9).unwrap().is_empty());
    assert!(next(&mut stream, &mut from, 9).unwrap().is_empty());
    assert_eq!(from.joins, 1);
}

#[test]
fn an_error_mid_batch_waits_for_the_next_turn() {
    let mut stream = BridgeListStream::new("/p".to_string());
    let mut from = channel(vec![Ok(entry("a")), Err(gone())], None);
    assert_eq!(next(&mut stream, &mut from, 9).unwrap(), vec!["a"]);
    match next(&mut stream, &mut from, 9) {
        Err(StreamFailure::Walk(e)) => assert_eq!(e.text, "gone"),
        other => panic!("{other:?}"),
    }
    assert!(next(&mut stream, &mut from, 9).unwrap().is_empty());
}

#[test]
fn an_error_at_first_is_handed_out_at_once() {
    let mut stream = BridgeListStream::new("/p".to_string());
    let mut from = channel(vec![Err(gone())], None);
    let failure = next(&mut stream, &mut from, 1).unwrap_err();
    let status = failure.report(stream.path());
    assert_eq!(status.code, HDFS_ERR_NOT_FOUND);
    assert_eq!(status.msg, "list '/p' failed: gone");
    let e = failure.into_error();
    assert_eq!(classify(&e), HDFS_ERR_NOT_FOUND);
    assert_eq!(e.text, "gone");
}

#[test]
fn a_walk_that_died_is_no_clean_end() {
    let mut stream = BridgeListStream::new("/p".to_string());
    let mut from = channel(vec![Ok(entry("a"))], Some("panicked"));
    assert_eq!(next(&mut stream, &mut from, 1).unwrap(), vec!["a"]);
    let failure = next(&mut stream, &mut from, 1).unwrap_err();
    let status = failure.report(stream.path());
    assert_eq!(status.code, HDFS_ERR_IO);
    assert_eq!(
        status.msg,
        "list '/p' failed: walker task died: panicked"
    );
    let e = failure.into_error();
    assert_eq!(classify(&e), HDFS_ERR_IO);
    assert_eq!(
        e.text,
        "IO error occurred while communicating with HDFS: walker task died: panicked"
    );
    // It is told once.
    assert!(next(&mut stream, &mut from, 1).unwrap().is_empty());
    assert_eq!(from.joins, 1);
}

#[test]
fn an_empty_channel_ends_a_batch() {
    let mut stream = BridgeListStream::new("/p".to_string());
    assert!(matches!(
        stream.next_batch(StreamEvent::Next(8)),
        StreamAction::Receive
    ));
    assert!(matches!(
        stream.next_batch(StreamEvent::Received(Ok(entry("a")))),
        StreamAction::TryReceive
    ));
    match stream.next_batch(StreamEvent::Empty) {
        StreamAction::Return(Ok(batch)) => assert_eq!(batch.len(), 1),
        _ => panic!("no batch"),
    }
}

#[test]
fn a_whole_drain_gives_the_entries_and_then_the_end() {
    let names = ["a", "b", "c", "d", "e"];
    for size in 0..7 {
        let mut stream = BridgeListStream::new("/p".to_string());
        let mut items: Vec<Result<FileStatus, BridgeError>> =
            names.iter().map(|n| Ok(entry(n))).collect();
        items.push(Err(gone()));
        let mut from = channel(items, None);
        let mut seen = Vec::new();
        let failure = loop {
            match next(&mut stream, &mut from, size) {
                Ok(batch) => {
                    assert!(!batch.is_empty() && batch.len() <= size.max(1));
                    seen.extend(batch);
                }
                Err(failure) => break failure,
            }
        };
        assert_eq!(seen, names);
        assert_eq!(failure.into_error().text, "gone");
        for _ in 0..3 {
            assert!(next(&mut stream, &mut from, size).unwrap().is_empty());
        }
    }
}
