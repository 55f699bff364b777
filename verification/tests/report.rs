//! Categories, statuses and entries as they are handed to the caller.

use hdfs_bridge::entry::file_info;
use hdfs_bridge::entry::status_to_entry;
use hdfs_bridge::entry::statuses_to_entries;
use hdfs_bridge::entry::to_c_string;
use hdfs_bridge::entry::FileStatus;
use hdfs_bridge::error::classify;
use hdfs_bridge::error::classify_io;
use hdfs_bridge::error::classify_rpc;
use hdfs_bridge::error::BridgeError;
use hdfs_bridge::error::ErrorKind;
use hdfs_bridge::error::IoErrorKind;
use hdfs_bridge::error::HDFS_ERR_ALREADY_EXISTS;
use hdfs_bridge::error::HDFS_ERR_CONNECTION;
use hdfs_bridge::error::HDFS_ERR_INVALID_ARGUMENT;
use hdfs_bridge::error::HDFS_ERR_IO;
use hdfs_bridge::error::HDFS_ERR_NOT_FOUND;
use hdfs_bridge::error::HDFS_ERR_PERMISSION;
use hdfs_bridge::error::HDFS_OK;
use hdfs_bridge::report::at_least_one;
use hdfs_bridge::report::decimal_text;
use hdfs_bridge::report::finish_delete;
use hdfs_bridge::report::opt_str;
use hdfs_bridge::report::read_length;
use hdfs_bridge::report::runtime_failed;
use hdfs_bridge::report::set_error;
use hdfs_bridge::report::set_status;
use hdfs_bridge::report::write_length;
use hdfs_bridge::report::Operation;
use hdfs_bridge::text::concat3;
use hdfs_bridge::text::contains;
use hdfs_bridge::text::string_of;

fn error(kind: ErrorKind) -> BridgeError {
    BridgeError {
        kind,
        text: "why".to_string(),
    }
}

fn sample(isdir: bool) -> FileStatus {
    FileStatus {
        path: "/d/f".to_string(),
        length: 10,
        isdir,
        permission: 0o755,
        owner: "alice".to_string(),
        group: "staff".to_string(),
        modification_time: 5,
        access_time: 6,
        replication: Some(3),
        blocksize: Some(134217728),
    }
}

#[test]
fn errors_fall_into_categories() {
    let table = vec![
        (ErrorKind::FileNotFound, HDFS_ERR_NOT_FOUND),
        (ErrorKind::AlreadyExists, HDFS_ERR_ALREADY_EXISTS),
        (ErrorKind::InvalidPath, HDFS_ERR_INVALID_ARGUMENT),
        (ErrorKind::InvalidArgument, HDFS_ERR_INVALID_ARGUMENT),
        (ErrorKind::UrlParseError, HDFS_ERR_INVALID_ARGUMENT),
        (
            ErrorKind::RPCError("java.io.FileNotFoundException".to_string()),
            HDFS_ERR_NOT_FOUND,
        ),
        (
            ErrorKind::FatalRPCError("org.apache.hadoop.ipc.StandbyException".to_string()),
            HDFS_ERR_CONNECTION,
        ),
        (ErrorKind::SASLError, HDFS_ERR_CONNECTION),
        (ErrorKind::GSSAPIError, HDFS_ERR_CONNECTION),
        (ErrorKind::NoSASLMechanism, HDFS_ERR_CONNECTION),
        (ErrorKind::DataTransferError, HDFS_ERR_CONNECTION),
        (ErrorKind::BlocksNotFound, HDFS_ERR_CONNECTION),
        (
            ErrorKind::IOError(IoErrorKind::PermissionDenied),
            HDFS_ERR_PERMISSION,
        ),
        (ErrorKind::Other, HDFS_ERR_IO),
    ];
    for (kind, code) in table {
        let e = error(kind);
        assert_eq!(classify(&e), code, "{e:?}");
        assert_ne!(classify(&e), HDFS_OK);
    }
}

#[test]
fn exceptions_fall_into_categories() {
    for (class, code) in [
        (
            "org.apache.hadoop.security.AccessControlException",
            HDFS_ERR_PERMISSION,
        ),
        ("java.lang.SecurityException", HDFS_ERR_PERMISSION),
        ("java.io.FileNotFoundException", HDFS_ERR_NOT_FOUND),
        (
            "org.apache.hadoop.fs.FileAlreadyExistsException",
            HDFS_ERR_ALREADY_EXISTS,
        ),
        (
            "org.apache.hadoop.hdfs.protocol.AlreadyBeingCreatedException",
            HDFS_ERR_ALREADY_EXISTS,
        ),
        ("org.apache.hadoop.ipc.StandbyException", HDFS_ERR_CONNECTION),
        (
            "org.apache.hadoop.ipc.RetriableException",
            HDFS_ERR_CONNECTION,
        ),
        ("java.io.IOException", HDFS_ERR_IO),
        ("", HDFS_ERR_IO),
    ] {
        assert_eq!(classify_rpc(class), code, "{class}");
    }
}

#[test]
fn io_errors_fall_into_categories() {
    for (kind, code) in [
        (IoErrorKind::NotFound, HDFS_ERR_NOT_FOUND),
        (IoErrorKind::PermissionDenied, HDFS_ERR_PERMISSION),
        (IoErrorKind::AlreadyExists, HDFS_ERR_ALREADY_EXISTS),
        (IoErrorKind::ConnectionRefused, HDFS_ERR_CONNECTION),
        (IoErrorKind::ConnectionReset, HDFS_ERR_CONNECTION),
        (IoErrorKind::ConnectionAborted, HDFS_ERR_CONNECTION),
        (IoErrorKind::NotConnected, HDFS_ERR_CONNECTION),
        (IoErrorKind::BrokenPipe, HDFS_ERR_CONNECTION),
        (IoErrorKind::TimedOut, HDFS_ERR_CONNECTION),
        (IoErrorKind::UnexpectedEof, HDFS_ERR_CONNECTION),
        (IoErrorKind::Other, HDFS_ERR_IO),
    ] {
        assert_eq!(classify_io(kind), code, "{kind:?}");
    }
}

#[test]
fn descriptions_are_those_of_the_client() {
    let message = "no \u{e9} here";
    assert_eq!(
        BridgeError::invalid_path(message).text,
        hdfs_native::HdfsError::InvalidPath(message.to_string()).to_string()
    );
    assert_eq!(
        BridgeError::invalid_path(message).text,
        "invalid path: no \u{e9} here"
    );
    assert_eq!(
        BridgeError::io_other(message).text,
        "IO error occurred while communicating with HDFS: no \u{e9} here"
    );
    let e = BridgeError::runtime_failed(IoErrorKind::TimedOut, "slow");
    assert_eq!(classify(&e), HDFS_ERR_CONNECTION);
    assert_eq!(
        e.text,
        "IO error occurred while communicating with HDFS: failed to start IO runtime: slow"
    );
}

#[test]
fn messages_hold_no_nul() {
    let status = set_status(HDFS_ERR_IO, "a\0b\0");
    assert_eq!(status.code, HDFS_ERR_IO);
    assert_eq!(status.msg, "a b ");
    let status = set_error("ctx\0", &error(ErrorKind::FileNotFound));
    assert_eq!(status.code, HDFS_ERR_NOT_FOUND);
    assert_eq!(status.msg, "ctx : why");
}

#[test]
fn runtime_failures_are_reported() {
    let status = runtime_failed(IoErrorKind::PermissionDenied, "no threads");
    assert_eq!(status.code, HDFS_ERR_PERMISSION);
    assert_eq!(status.msg, "failed to start IO runtime: no threads");
}

#[test]
fn operations_say_what_failed() {
    let path = || "/p".to_string();
    let table = vec![
        (Operation::Connect, "failed to connect to HDFS: why"),
        (Operation::Stat(path()), "stat '/p' failed: why"),
        (Operation::Open(path()), "open '/p' for reading failed: why"),
        (Operation::Read(1024), "read at offset 1024 failed: why"),
        (
            Operation::Create(path()),
            "create '/p' for writing failed: why",
        ),
        (Operation::Write, "write failed: why"),
        (Operation::CloseWriter, "close writer failed: why"),
        (Operation::Glob("/*".to_string()), "glob '/*' failed: why"),
        (Operation::List(path()), "list '/p' failed: why"),
        (Operation::Mkdirs(path()), "mkdirs '/p' failed: why"),
        (Operation::Delete(path()), "delete '/p' failed: why"),
        (
            Operation::Rename(path(), "/q".to_string()),
            "rename '/p' -> '/q' failed: why",
        ),
    ];
    for (op, message) in table {
        let status = op.failed(&error(ErrorKind::AlreadyExists));
        assert_eq!(status.code, HDFS_ERR_ALREADY_EXISTS);
        assert_eq!(status.msg, message);
    }
}

#[test]
fn outcomes_are_zero_or_minus_one() {
    let op = Operation::Mkdirs("/p".to_string());
    let (code, status) = op.finish(&Ok(()));
    assert_eq!(code, 0);
    assert!(status.is_none());
    let (code, status) = op.finish(&Err(error(ErrorKind::Other)));
    assert_eq!(code, -1);
    assert_eq!(status.unwrap().code, HDFS_ERR_IO);

    let (n, status) = Operation::Read(0).finish_transfer(17, &Ok(()));
    assert_eq!(n, 17);
    assert!(status.is_none());
    let (n, status) = Operation::Write.finish_transfer(17, &Err(error(ErrorKind::SASLError)));
    assert_eq!(n, -1);
    assert_eq!(status.unwrap().msg, "write failed: why");
}

#[test]
fn deleting_nothing_is_not_found() {
    let (code, status) = finish_delete("/p", &Ok(true));
    assert_eq!(code, 0);
    assert!(status.is_none());
    let (code, status) = finish_delete("/p", &Ok(false));
    assert_eq!(code, -1);
    let status = status.unwrap();
    assert_eq!(status.code, HDFS_ERR_NOT_FOUND);
    assert_eq!(status.msg, "delete '/p': path not found");
    let (code, status) = finish_delete("/p", &Err(error(ErrorKind::InvalidArgument)));
    assert_eq!(code, -1);
    let status = status.unwrap();
    assert_eq!(status.code, HDFS_ERR_INVALID_ARGUMENT);
    assert_eq!(status.msg, "delete '/p' failed: why");
}

#[test]
fn negative_lengths_are_refused() {
    assert_eq!(read_length(0).unwrap(), 0);
    assert_eq!(write_length(i64::MAX).unwrap(), 9223372036854775807);
    let status = read_length(-1).unwrap_err();
    assert_eq!(status.code, HDFS_ERR_INVALID_ARGUMENT);
    assert_eq!(status.msg, "negative read length");
    let status = write_length(i64::MIN).unwrap_err();
    assert_eq!(status.code, HDFS_ERR_INVALID_ARGUMENT);
    assert_eq!(status.msg, "negative write length");
}

#[test]
fn counts_are_at_least_one() {
    assert_eq!(at_least_one(-5), 1);
    assert_eq!(at_least_one(0), 1);
    assert_eq!(at_least_one(1), 1);
    assert_eq!(at_least_one(16), 16);
}

#[test]
fn empty_arguments_are_missing() {
    assert_eq!(opt_str(None), None);
    assert_eq!(opt_str(Some(String::new())), None);
    assert_eq!(opt_str(Some("u".to_string())), Some("u".to_string()));
}

#[test]
fn numbers_in_decimal() {
    for n in [0, 7, 9, 10, 42, 100, 65536, u64::MAX] {
        assert_eq!(decimal_text(n), n.to_string());
    }
}

#[test]
fn directories_have_no_blocks() {
    let entry = status_to_entry(sample(true));
    assert!(entry.is_dir);
    assert_eq!(entry.replication, -1);
    assert_eq!(entry.block_size, -1);
}

#[test]
fn files_keep_their_metadata() {
    let entry = status_to_entry(sample(false));
    assert_eq!(entry.path, "/d/f");
    assert!(!entry.is_dir);
    assert_eq!(entry.length, 10);
    assert_eq!(entry.mtime, 5);
    assert_eq!(entry.atime, 6);
    assert_eq!(entry.owner, "alice");
    assert_eq!(entry.group, "staff");
    assert_eq!(entry.permission, 0o755);
    assert_eq!(entry.replication, 3);
    assert_eq!(entry.block_size, 134217728);

    let mut bare = sample(false);
    bare.replication = None;
    bare.blocksize = None;
    let entry = status_to_entry(bare);
    assert_eq!(entry.replication, -1);
    assert_eq!(entry.block_size, -1);

    let info = file_info(&sample(true));
    assert_eq!(info.length, 10);
    assert!(info.is_dir);
    assert_eq!(info.mtime, 5);
}

#[test]
fn entries_come_in_order() {
    let mut second = sample(true);
    second.path = "/d/g".to_string();
    let (entries, count) = statuses_to_entries(vec![sample(false), second]);
    assert_eq!(count, 2);
    assert_eq!(entries[0].path, "/d/f");
    assert_eq!(entries[1].path, "/d/g");
    let (entries, count) = statuses_to_entries(Vec::new());
    assert_eq!(count, 0);
    assert!(entries.is_empty());
}

#[test]
fn c_strings_hold_no_nul() {
    assert_eq!(to_c_string("a\0b".to_string()), "");
    assert_eq!(to_c_string("ab".to_string()), "ab");
}

#[test]
fn text_building_blocks() {
    assert!(contains("abcabd", "abd"));
    assert!(!contains("abcabd", "abe"));
    assert!(contains("", ""));
    assert!(contains("x", ""));
    assert!(!contains("", "x"));
    assert_eq!(concat3("a", "", "\u{e9}"), "a\u{e9}");
    assert_eq!(string_of(&['a', 'b', 'c'], 1, 3), "bc");
}
