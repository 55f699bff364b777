//! Errors and their categories.

use vstd::prelude::*;

use crate::text::contains;
use crate::text::contains_text;

verus! {

/// Success.
pub const HDFS_OK: i32 = 0;

/// A failure of no particular category.
pub const HDFS_ERR_IO: i32 = 1;

/// The path does not exist.
pub const HDFS_ERR_NOT_FOUND: i32 = 2;

/// Access was denied.
pub const HDFS_ERR_PERMISSION: i32 = 3;

/// The path exists already.
pub const HDFS_ERR_ALREADY_EXISTS: i32 = 4;

/// The cluster could not be reached; connecting again may help.
pub const HDFS_ERR_CONNECTION: i32 = 5;

/// The caller passed a bad argument.
pub const HDFS_ERR_INVALID_ARGUMENT: i32 = 6;

/// The kind of a transport-level IO error, as far as it decides the category.
#[derive(Clone, Copy, Debug, PartialEq, Eq, Structural)]
pub enum IoErrorKind {
    NotFound,
    PermissionDenied,
    AlreadyExists,
    ConnectionRefused,
    ConnectionReset,
    ConnectionAborted,
    NotConnected,
    BrokenPipe,
    TimedOut,
    UnexpectedEof,
    Other,
}

/// The kind of a failed HDFS operation, as far as it decides the category.
#[derive(Debug)]
pub enum ErrorKind {
    FileNotFound,
    AlreadyExists,
    InvalidPath,
    InvalidArgument,
    UrlParseError,
    /// A server-side exception, with its Java class name.
    RPCError(String),
    /// A server-side exception that ended the connection, with its Java class
    /// name.
    FatalRPCError(String),
    SASLError,
    GSSAPIError,
    NoSASLMechanism,
    DataTransferError,
    BlocksNotFound,
    IOError(IoErrorKind),
    Other,
}

/// What an [`ErrorKind`] stands for.
pub enum KindModel {
    FileNotFound,
    AlreadyExists,
    InvalidPath,
    InvalidArgument,
    UrlParseError,
    RPCError(Seq<char>),
    FatalRPCError(Seq<char>),
    SASLError,
    GSSAPIError,
    NoSASLMechanism,
    DataTransferError,
    BlocksNotFound,
    IOError(IoErrorKind),
    Other,
}

impl View for ErrorKind {
    type V = KindModel;

    open spec fn view(&self) -> KindModel {
        match *self {
            ErrorKind::FileNotFound => KindModel::FileNotFound,
            ErrorKind::AlreadyExists => KindModel::AlreadyExists,
            ErrorKind::InvalidPath => KindModel::InvalidPath,
            ErrorKind::InvalidArgument => KindModel::InvalidArgument,
            ErrorKind::UrlParseError => KindModel::UrlParseError,
            ErrorKind::RPCError(class) => KindModel::RPCError(class@),
            ErrorKind::FatalRPCError(class) => KindModel::FatalRPCError(class@),
            ErrorKind::SASLError => KindModel::SASLError,
            ErrorKind::GSSAPIError => KindModel::GSSAPIError,
            ErrorKind::NoSASLMechanism => KindModel::NoSASLMechanism,
            ErrorKind::DataTransferError => KindModel::DataTransferError,
            ErrorKind::BlocksNotFound => KindModel::BlocksNotFound,
            ErrorKind::IOError(kind) => KindModel::IOError(kind),
            ErrorKind::Other => KindModel::Other,
        }
    }
}

/// A failed HDFS operation: its kind, and the text that describes it.
#[derive(Debug)]
pub struct BridgeError {
    pub kind: ErrorKind,
    pub text: String,
}

/// What a [`BridgeError`] stands for.
pub struct ErrorModel {
    pub kind: KindModel,
    pub text: Seq<char>,
}

impl View for BridgeError {
    type V = ErrorModel;

    open spec fn view(&self) -> ErrorModel {
        ErrorModel { kind: self.kind@, text: self.text@ }
    }
}

/// The category of a server-side exception of the given Java class.
pub open spec fn rpc_code(class: Seq<char>) -> i32 {
    if contains_text(class, "AccessControlException"@) || contains_text(
        class,
        "SecurityException"@,
    ) {
        HDFS_ERR_PERMISSION
    } else if contains_text(class, "FileNotFoundException"@) {
        HDFS_ERR_NOT_FOUND
    } else if contains_text(class, "FileAlreadyExistsException"@) || contains_text(
        class,
        "AlreadyBeingCreated"@,
    ) {
        HDFS_ERR_ALREADY_EXISTS
    } else if contains_text(class, "StandbyException"@) || contains_text(
        class,
        "RetriableException"@,
    ) {
        HDFS_ERR_CONNECTION
    } else {
        HDFS_ERR_IO
    }
}

/// The category of a transport-level IO error.
pub open spec fn io_code(kind: IoErrorKind) -> i32 {
    match kind {
        IoErrorKind::NotFound => HDFS_ERR_NOT_FOUND,
        IoErrorKind::PermissionDenied => HDFS_ERR_PERMISSION,
        IoErrorKind::AlreadyExists => HDFS_ERR_ALREADY_EXISTS,
        IoErrorKind::Other => HDFS_ERR_IO,
        _ => HDFS_ERR_CONNECTION,
    }
}

/// The category of an error of the given kind.
pub open spec fn error_code(kind: KindModel) -> i32 {
    match kind {
        KindModel::FileNotFound => HDFS_ERR_NOT_FOUND,
        KindModel::AlreadyExists => HDFS_ERR_ALREADY_EXISTS,
        KindModel::InvalidPath => HDFS_ERR_INVALID_ARGUMENT,
        KindModel::InvalidArgument => HDFS_ERR_INVALID_ARGUMENT,
        KindModel::UrlParseError => HDFS_ERR_INVALID_ARGUMENT,
        KindModel::RPCError(class) => rpc_code(class),
        KindModel::FatalRPCError(class) => rpc_code(class),
        KindModel::SASLError => HDFS_ERR_CONNECTION,
        KindModel::GSSAPIError => HDFS_ERR_CONNECTION,
        KindModel::NoSASLMechanism => HDFS_ERR_CONNECTION,
        KindModel::DataTransferError => HDFS_ERR_CONNECTION,
        KindModel::BlocksNotFound => HDFS_ERR_CONNECTION,
        KindModel::IOError(io) => io_code(io),
        KindModel::Other => HDFS_ERR_IO,
    }
}

/// Map an error to its category. The RPC and IO arms dig into the exception
/// class and the IO error kind, so that a caller can tell "access denied" or
/// "namenode in standby" (worth a retry) from a generic failure.
pub fn classify(err: &BridgeError) -> (code: i32)
    ensures
        code == error_code(err@.kind),
{
    match &err.kind {
        ErrorKind::FileNotFound => HDFS_ERR_NOT_FOUND,
        ErrorKind::AlreadyExists => HDFS_ERR_ALREADY_EXISTS,
        ErrorKind::InvalidPath | ErrorKind::InvalidArgument | ErrorKind::UrlParseError => {
            HDFS_ERR_INVALID_ARGUMENT
        },
        ErrorKind::RPCError(class) => classify_rpc(class.as_str()),
        ErrorKind::FatalRPCError(class) => classify_rpc(class.as_str()),
        ErrorKind::SASLError
        | ErrorKind::GSSAPIError
        | ErrorKind::NoSASLMechanism
        | ErrorKind::DataTransferError
        | ErrorKind::BlocksNotFound => HDFS_ERR_CONNECTION,
        ErrorKind::IOError(kind) => classify_io(*kind),
        ErrorKind::Other => HDFS_ERR_IO,
    }
}

/// Classify a server-side exception by its Java class name.
pub fn classify_rpc(class: &str) -> (code: i32)
    ensures
        code == rpc_code(class@),
{
    if contains(class, "AccessControlException") || contains(class, "SecurityException") {
        HDFS_ERR_PERMISSION
    } else if contains(class, "FileNotFoundException") {
        HDFS_ERR_NOT_FOUND
    } else if contains(class, "FileAlreadyExistsException") || contains(
        class,
        "AlreadyBeingCreated",
    ) {
        HDFS_ERR_ALREADY_EXISTS
    } else if contains(class, "StandbyException") || contains(class, "RetriableException") {
        // Namenode failover or retryable: a cached client should reconnect.
        HDFS_ERR_CONNECTION
    } else {
        HDFS_ERR_IO
    }
}

/// Classify a transport-level IO error.
pub fn classify_io(kind: IoErrorKind) -> (code: i32)
    ensures
        code == io_code(kind),
{
    match kind {
        IoErrorKind::NotFound => HDFS_ERR_NOT_FOUND,
        IoErrorKind::PermissionDenied => HDFS_ERR_PERMISSION,
        IoErrorKind::AlreadyExists => HDFS_ERR_ALREADY_EXISTS,
        IoErrorKind::ConnectionRefused
        | IoErrorKind::ConnectionReset
        | IoErrorKind::ConnectionAborted
        | IoErrorKind::NotConnected
        | IoErrorKind::BrokenPipe
        | IoErrorKind::TimedOut
        | IoErrorKind::UnexpectedEof => HDFS_ERR_CONNECTION,
        IoErrorKind::Other => HDFS_ERR_IO,
    }
}

/// Law: every error falls into one of the error categories, never into the
/// one that stands for success.
pub proof fn law_errors_are_not_success(kind: KindModel)
    ensures
        HDFS_OK < error_code(kind) <= HDFS_ERR_INVALID_ARGUMENT,
{
}

/// Law: the category of a server-side exception, told from the category: access
/// is denied exactly if the class names one of the two exceptions that say so,
/// and so on, with what is named first in that order deciding.
pub proof fn law_exception_categories(class: Seq<char>)
    ensures
        rpc_code(class) == HDFS_ERR_PERMISSION <==> contains_text(class, "AccessControlException"@)
            || contains_text(class, "SecurityException"@),
        rpc_code(class) == HDFS_ERR_NOT_FOUND <==> rpc_code(class) != HDFS_ERR_PERMISSION
            && contains_text(class, "FileNotFoundException"@),
        rpc_code(class) == HDFS_ERR_ALREADY_EXISTS <==> rpc_code(class) != HDFS_ERR_PERMISSION
            && rpc_code(class) != HDFS_ERR_NOT_FOUND && (contains_text(
            class,
            "FileAlreadyExistsException"@,
        ) || contains_text(class, "AlreadyBeingCreated"@)),
        rpc_code(class) == HDFS_ERR_CONNECTION <==> rpc_code(class) != HDFS_ERR_PERMISSION
            && rpc_code(class) != HDFS_ERR_NOT_FOUND && rpc_code(class) != HDFS_ERR_ALREADY_EXISTS
            && (contains_text(class, "StandbyException"@) || contains_text(
            class,
            "RetriableException"@,
        )),
        rpc_code(class) == HDFS_ERR_IO <==> !contains_text(class, "AccessControlException"@)
            && !contains_text(class, "SecurityException"@) && !contains_text(
            class,
            "FileNotFoundException"@,
        ) && !contains_text(class, "FileAlreadyExistsException"@) && !contains_text(
            class,
            "AlreadyBeingCreated"@,
        ) && !contains_text(class, "StandbyException"@) && !contains_text(
            class,
            "RetriableException"@,
        ),
{
}

/// Law: which errors fall into a category, told from the category. A
/// server-side exception falls into that of its class, whether or not it ended
/// the connection.
pub proof fn law_categories(kind: KindModel)
    ensures
        kind is RPCError ==> error_code(kind) == rpc_code(kind->RPCError_0),
        kind is FatalRPCError ==> error_code(kind) == rpc_code(kind->FatalRPCError_0),
        !(kind is RPCError || kind is FatalRPCError) ==> {
            &&& error_code(kind) == HDFS_ERR_NOT_FOUND <==> kind is FileNotFound || kind
                == KindModel::IOError(IoErrorKind::NotFound)
            &&& error_code(kind) == HDFS_ERR_PERMISSION <==> kind == KindModel::IOError(
                IoErrorKind::PermissionDenied,
            )
            &&& error_code(kind) == HDFS_ERR_ALREADY_EXISTS <==> kind is AlreadyExists || kind
                == KindModel::IOError(IoErrorKind::AlreadyExists)
            &&& error_code(kind) == HDFS_ERR_INVALID_ARGUMENT <==> kind is InvalidPath
                || kind is InvalidArgument || kind is UrlParseError
            &&& error_code(kind) == HDFS_ERR_IO <==> kind is Other || kind == KindModel::IOError(
                IoErrorKind::Other,
            )
            &&& error_code(kind) == HDFS_ERR_CONNECTION <==> {
                ||| kind is SASLError
                ||| kind is GSSAPIError
                ||| kind is NoSASLMechanism
                ||| kind is DataTransferError
                ||| kind is BlocksNotFound
                ||| kind == KindModel::IOError(IoErrorKind::ConnectionRefused)
                ||| kind == KindModel::IOError(IoErrorKind::ConnectionReset)
                ||| kind == KindModel::IOError(IoErrorKind::ConnectionAborted)
                ||| kind == KindModel::IOError(IoErrorKind::NotConnected)
                ||| kind == KindModel::IOError(IoErrorKind::BrokenPipe)
                ||| kind == KindModel::IOError(IoErrorKind::TimedOut)
                ||| kind == KindModel::IOError(IoErrorKind::UnexpectedEof)
            }
        },
{
}

/// Law: the categories have the numbers that callers know them by.
pub proof fn law_category_numbers()
    ensures
        HDFS_OK == 0,
        HDFS_ERR_IO == 1,
        HDFS_ERR_NOT_FOUND == 2,
        HDFS_ERR_PERMISSION == 3,
        HDFS_ERR_ALREADY_EXISTS == 4,
        HDFS_ERR_CONNECTION == 5,
        HDFS_ERR_INVALID_ARGUMENT == 6,
{
}

/// Law: what stands for an error has its kind, with the class name of a
/// server-side exception and the kind of an IO error, and its text.
pub proof fn law_error_model_keeps_all(error: BridgeError)
    ensures
        error@.text == error.text@,
        error@.kind is FileNotFound <==> error.kind is FileNotFound,
        error@.kind is AlreadyExists <==> error.kind is AlreadyExists,
        error@.kind is InvalidPath <==> error.kind is InvalidPath,
        error@.kind is InvalidArgument <==> error.kind is InvalidArgument,
        error@.kind is UrlParseError <==> error.kind is UrlParseError,
        error@.kind is SASLError <==> error.kind is SASLError,
        error@.kind is GSSAPIError <==> error.kind is GSSAPIError,
        error@.kind is NoSASLMechanism <==> error.kind is NoSASLMechanism,
        error@.kind is DataTransferError <==> error.kind is DataTransferError,
        error@.kind is BlocksNotFound <==> error.kind is BlocksNotFound,
        error@.kind is Other <==> error.kind is Other,
        error.kind matches ErrorKind::RPCError(class) ==> error@.kind == KindModel::RPCError(
            class@,
        ),
        error.kind matches ErrorKind::FatalRPCError(class) ==> error@.kind
            == KindModel::FatalRPCError(class@),
        error.kind matches ErrorKind::IOError(kind) ==> error@.kind == KindModel::IOError(kind),
{
}

/// The text that describes an invalid path.
pub open spec fn invalid_path_text(message: Seq<char>) -> Seq<char> {
    "invalid path: "@ + message
}

/// The text that describes a transport-level IO error.
pub open spec fn io_text(message: Seq<char>) -> Seq<char> {
    "IO error occurred while communicating with HDFS: "@ + message
}

/// What is said of a runtime for IO that could not be started.
pub open spec fn runtime_failed_text(description: Seq<char>) -> Seq<char> {
    "failed to start IO runtime: "@ + description
}

/// Law: a description ends with what was given to be described, whole and as it
/// was given, and starts with what it is a description of.
pub proof fn law_descriptions(message: Seq<char>)
    ensures
        invalid_path_text(message) == "invalid path: "@ + message,
        io_text(runtime_failed_text(message))
            == "IO error occurred while communicating with HDFS: failed to start IO runtime: "@
            + message,
{
    reveal_strlit("IO error occurred while communicating with HDFS: ");
    reveal_strlit("failed to start IO runtime: ");
    reveal_strlit(
        "IO error occurred while communicating with HDFS: failed to start IO runtime: ",
    );
    assert(io_text(runtime_failed_text(message))
        =~= "IO error occurred while communicating with HDFS: failed to start IO runtime: "@
        + message);
}

/// The description that `hdfs_native` gives of `HdfsError::InvalidPath`, by its
/// `Display`: a fixed prefix, then the message.
#[verifier::external_body]
fn describe_invalid_path(message: &str) -> (r: String)
    ensures
        r@ == invalid_path_text(message@),
{
    hdfs_native::HdfsError::InvalidPath(message.to_string()).to_string()
}

/// The description that `hdfs_native` gives of `HdfsError::IOError`, by its
/// `Display`, for an IO error that holds nothing but a message: a fixed prefix,
/// then the message.
#[verifier::external_body]
fn describe_io_error(message: &str) -> (r: String)
    ensures
        r@ == io_text(message@),
{
    hdfs_native::HdfsError::IOError(std::io::Error::other(message)).to_string()
}

impl BridgeError {
    /// The error of a path or pattern that is not valid.
    pub fn invalid_path(message: &str) -> (r: BridgeError)
        ensures
            r@.kind == KindModel::InvalidPath,
            r@.text == invalid_path_text(message@),
    {
        BridgeError { kind: ErrorKind::InvalidPath, text: describe_invalid_path(message) }
    }

    /// The error of a runtime for IO that could not be started, with the kind
    /// and the description of what went wrong.
    pub fn runtime_failed(kind: IoErrorKind, description: &str) -> (r: BridgeError)
        ensures
            r@.kind == KindModel::IOError(kind),
            r@.text == io_text(runtime_failed_text(description@)),
    {
        let mut message = String::from_str("failed to start IO runtime: ");
        message.append(description);
        BridgeError {
            kind: ErrorKind::IOError(kind),
            text: describe_io_error(message.as_str()),
        }
    }

    /// An IO error of no particular kind.
    pub fn io_other(message: &str) -> (r: BridgeError)
        ensures
            r@.kind == KindModel::IOError(IoErrorKind::Other),
            r@.text == io_text(message@),
    {
        BridgeError {
            kind: ErrorKind::IOError(IoErrorKind::Other),
            text: describe_io_error(message),
        }
    }
}

} // verus!
