//! What the caller is told about a finished operation.
//!
//! A success leaves the caller's status untouched. A failure gives a category
//! code and a message; the category lets the caller react to the *kind* of
//! failure (not-found vs unreachable cluster vs bad argument) without parsing
//! message strings.

use vstd::prelude::*;

use crate::error::classify;
use crate::error::classify_io;
use crate::error::error_code;
use crate::error::io_code;
use crate::error::runtime_failed_text;
use crate::error::BridgeError;
use crate::error::ErrorModel;
use crate::error::IoErrorKind;
use crate::error::HDFS_ERR_INVALID_ARGUMENT;
use crate::error::HDFS_ERR_NOT_FOUND;
use crate::text::chars_of;

verus! {

/// A failure as the caller is told of it.
#[derive(Debug)]
pub struct Status {
    pub code: i32,
    pub msg: String,
}

/// What a [`Status`] stands for.
pub struct ReportModel {
    pub code: i32,
    pub msg: Seq<char>,
}

impl View for Status {
    type V = ReportModel;

    open spec fn view(&self) -> ReportModel {
        ReportModel { code: self.code, msg: self.msg@ }
    }
}

/// `s` with every NUL replaced by a space.
pub open spec fn without_nul(s: Seq<char>) -> Seq<char> {
    Seq::new(
        s.len(),
        |k: int|
            if s[k] == '\0' {
                ' '
            } else {
                s[k]
            },
    )
}

/// The status with the given code and message.
pub open spec fn status_of(code: i32, msg: Seq<char>) -> ReportModel {
    ReportModel { code, msg: without_nul(msg) }
}

/// The status for an error, with a context before its text.
pub open spec fn error_status(context: Seq<char>, err: ErrorModel) -> ReportModel {
    status_of(error_code(err.kind), context + ": "@ + err.text)
}

/// The status for a failure. NULs in the message are replaced, so that it can
/// be handed over as a C string.
pub fn set_status(code: i32, msg: &str) -> (r: Status)
    ensures
        r@ == status_of(code, msg@),
{
    let chars: Vec<char> = chars_of(msg);
    let mut cleaned = String::new();
    let mut i: usize = 0;
    while i < chars.len()
        invariant
            chars@ == msg@,
            i <= chars@.len(),
            cleaned@ == without_nul(msg@).take(i as int),
        decreases chars@.len() - i,
    {
        if chars[i] == '\0' {
            cleaned.push(' ');
        } else {
            cleaned.push(chars[i]);
        }
        assert(cleaned@ =~= without_nul(msg@).take(i + 1));
        i += 1;
    }
    assert(cleaned@ =~= without_nul(msg@));
    Status { code, msg: cleaned }
}

/// The status for an error, with a context prefix.
pub fn set_error(context: &str, err: &BridgeError) -> (r: Status)
    ensures
        r@ == error_status(context@, err@),
{
    let mut msg = String::from_str(context);
    msg.append(": ");
    msg.append(err.text.as_str());
    set_status(classify(err), msg.as_str())
}

/// The status for a runtime for IO that could not be started, with the kind and
/// the description of what went wrong.
pub fn runtime_failed(kind: IoErrorKind, description: &str) -> (r: Status)
    ensures
        r@ == status_of(io_code(kind), runtime_failed_text(description@)),
{
    let mut msg = String::from_str("failed to start IO runtime: ");
    msg.append(description);
    set_status(classify_io(kind), msg.as_str())
}

/// Law: a message that is handed over holds no NUL, so a C string can hold all
/// of it, and differs from what it was made of in nothing but spaces for NULs.
pub proof fn law_messages_hold_no_nul(code: i32, msg: Seq<char>)
    ensures
        !status_of(code, msg).msg.contains('\0'),
        status_of(code, msg).msg.len() == msg.len(),
        forall|k: int|
            0 <= k < msg.len() ==> #[trigger] status_of(code, msg).msg[k] == if msg[k] == '\0' {
                ' '
            } else {
                msg[k]
            },
        !msg.contains('\0') ==> status_of(code, msg).msg == msg,
        status_of(code, msg).code == code,
{
    if !msg.contains('\0') {
        assert forall|k: int| 0 <= k < msg.len() implies msg[k] != '\0' by {
            assert(msg.contains(msg[k]));
        }
        assert(status_of(code, msg).msg =~= msg);
    }
}

/// Law: the status for an error has the error's category, and says the context
/// and then the error's text, both whole.
pub proof fn law_error_status(context: Seq<char>, err: ErrorModel)
    ensures
        error_status(context, err).code == error_code(err.kind),
        error_status(context, err).msg.len() == context.len() + 2 + err.text.len(),
        !context.contains('\0') && !err.text.contains('\0') ==> error_status(context, err).msg
            == context + seq![':', ' '] + err.text,
{
    reveal_strlit(": ");
    let msg = context + ": "@ + err.text;
    law_messages_hold_no_nul(error_code(err.kind), msg);
    assert(": "@ =~= seq![':', ' ']);
    if !context.contains('\0') && !err.text.contains('\0') {
        assert forall|k: int| 0 <= k < msg.len() implies msg[k] != '\0' by {
            if k < context.len() {
                assert(context.contains(context[k]));
            } else if k >= context.len() + 2 {
                assert(err.text.contains(err.text[k - context.len() - 2]));
            }
        }
    }
}

/// Law: what stands for a status has its code and its message.
pub proof fn law_report_model_keeps_all(status: Status)
    ensures
        status@.code == status.code,
        status@.msg == status.msg@,
{
}

/// An optional string argument: a missing one and an empty one are the same.
pub open spec fn given(s: Option<Seq<char>>) -> Option<Seq<char>> {
    match s {
        Some(text) => if text.len() == 0 {
            None
        } else {
            Some(text)
        },
        None => None,
    }
}

/// An optional string argument, `None` for a missing or empty one.
pub fn opt_str(s: Option<String>) -> (r: Option<String>)
    ensures
        match given(match s {
            Some(text) => Some(text@),
            None => None,
        }) {
            Some(text) => r matches Some(out) && out@ == text,
            None => r is None,
        },
        r is Some <==> s is Some && s->Some_0@.len() > 0,
        r is Some ==> r->Some_0@ == s->Some_0@,
{
    match s {
        Some(text) => {
            if text.as_str().is_empty() {
                None
            } else {
                Some(text)
            }
        },
        None => None,
    }
}

/// The decimal digit for `d`.
pub open spec fn digit(d: nat) -> char {
    if d == 0 {
        '0'
    } else if d == 1 {
        '1'
    } else if d == 2 {
        '2'
    } else if d == 3 {
        '3'
    } else if d == 4 {
        '4'
    } else if d == 5 {
        '5'
    } else if d == 6 {
        '6'
    } else if d == 7 {
        '7'
    } else if d == 8 {
        '8'
    } else {
        '9'
    }
}

/// `n` in decimal.
pub open spec fn decimal(n: nat) -> Seq<char>
    decreases n,
{
    if n < 10 {
        seq![digit(n)]
    } else {
        decimal(n / 10).push(digit(n % 10))
    }
}

/// The number that a text of decimal digits stands for.
pub open spec fn number(digits: Seq<char>) -> int
    decreases digits.len(),
{
    if digits.len() == 0 {
        0
    } else {
        number(digits.drop_last()) * 10 + (digits.last() as int - '0' as int)
    }
}

/// Law: a number in decimal is made of digits that stand for the number, and
/// does not start with a `0` unless it is zero.
pub proof fn law_decimal_stands_for_the_number(n: nat)
    ensures
        decimal(n).len() > 0,
        forall|k: int| 0 <= k < decimal(n).len() ==> '0' <= #[trigger] decimal(n)[k] <= '9',
        number(decimal(n)) == n,
        decimal(n)[0] == '0' <==> n == 0,
    decreases n,
{
    if n < 10 {
        assert(decimal(n).drop_last() =~= Seq::empty());
        assert(number(decimal(n).drop_last()) == 0);
    } else {
        law_decimal_stands_for_the_number(n / 10);
        assert(decimal(n).drop_last() =~= decimal(n / 10));
        assert(decimal(n)[0] == decimal(n / 10)[0]);
    }
}

/// The decimal digit for `d`.
fn digit_char(d: u64) -> (r: char)
    requires
        d < 10,
    ensures
        r == digit(d as nat),
{
    if d == 0 {
        '0'
    } else if d == 1 {
        '1'
    } else if d == 2 {
        '2'
    } else if d == 3 {
        '3'
    } else if d == 4 {
        '4'
    } else if d == 5 {
        '5'
    } else if d == 6 {
        '6'
    } else if d == 7 {
        '7'
    } else if d == 8 {
        '8'
    } else {
        '9'
    }
}

/// `n` in decimal.
pub fn decimal_text(n: u64) -> (r: String)
    ensures
        r@ == decimal(n as nat),
    decreases n,
{
    if n < 10 {
        let mut out = String::new();
        out.push(digit_char(n));
        assert(out@ =~= seq![digit(n as nat)]);
        out
    } else {
        let mut out: String = decimal_text(n / 10);
        out.push(digit_char(n % 10));
        out
    }
}

/// An operation, with what its error messages speak of.
#[derive(Debug)]
pub enum Operation {
    Connect,
    Stat(String),
    Open(String),
    /// A read at the given offset.
    Read(u64),
    Create(String),
    Write,
    CloseWriter,
    Glob(String),
    List(String),
    Mkdirs(String),
    Delete(String),
    Rename(String, String),
}

/// `before`, then `text` in single quotes, then `after`.
pub open spec fn quoted(before: Seq<char>, text: Seq<char>, after: Seq<char>) -> Seq<char> {
    before + "'"@ + text + "'"@ + after
}

/// Law: what is quoted stands between quotes, whole and as it was given.
pub proof fn law_quoted(before: Seq<char>, text: Seq<char>, after: Seq<char>)
    ensures
        quoted(before, text, after) == before + seq!['\''] + text + seq!['\''] + after,
{
    reveal_strlit("'");
    assert("'"@ =~= seq!['\'']);
}

/// `before`, then `text` in single quotes, then `after`.
fn quote(before: &str, text: &str, after: &str) -> (r: String)
    ensures
        r@ == quoted(before@, text@, after@),
{
    let mut out = String::from_str(before);
    out.append("'");
    out.append(text);
    out.append("'");
    out.append(after);
    out
}

/// What the message of a failed operation starts with.
pub open spec fn failure_context(op: Operation) -> Seq<char> {
    match op {
        Operation::Connect => "failed to connect to HDFS"@,
        Operation::Stat(path) => quoted("stat "@, path@, " failed"@),
        Operation::Open(path) => quoted("open "@, path@, " for reading failed"@),
        Operation::Read(offset) => "read at offset "@ + decimal(offset as nat) + " failed"@,
        Operation::Create(path) => quoted("create "@, path@, " for writing failed"@),
        Operation::Write => "write failed"@,
        Operation::CloseWriter => "close writer failed"@,
        Operation::Glob(pattern) => quoted("glob "@, pattern@, " failed"@),
        Operation::List(path) => quoted("list "@, path@, " failed"@),
        Operation::Mkdirs(path) => quoted("mkdirs "@, path@, " failed"@),
        Operation::Delete(path) => quoted("delete "@, path@, " failed"@),
        Operation::Rename(src, dst) => quoted(
            quoted("rename "@, src@, " -> "@),
            dst@,
            " failed"@,
        ),
    }
}

/// Law: what the message of a failed operation starts with, for each operation:
/// it names what the operation was about, whole and as it was given.
pub proof fn law_failure_contexts(path: String, other: String, offset: u64)
    ensures
        failure_context(Operation::Connect) == "failed to connect to HDFS"@,
        failure_context(Operation::Stat(path)) == "stat '"@ + path@ + "' failed"@,
        failure_context(Operation::Open(path)) == "open '"@ + path@ + "' for reading failed"@,
        failure_context(Operation::Read(offset)) == "read at offset "@ + decimal(offset as nat)
            + " failed"@,
        failure_context(Operation::Create(path)) == "create '"@ + path@
            + "' for writing failed"@,
        failure_context(Operation::Write) == "write failed"@,
        failure_context(Operation::CloseWriter) == "close writer failed"@,
        failure_context(Operation::Glob(path)) == "glob '"@ + path@ + "' failed"@,
        failure_context(Operation::List(path)) == "list '"@ + path@ + "' failed"@,
        failure_context(Operation::Mkdirs(path)) == "mkdirs '"@ + path@ + "' failed"@,
        failure_context(Operation::Delete(path)) == "delete '"@ + path@ + "' failed"@,
        failure_context(Operation::Rename(path, other)) == "rename '"@ + path@ + "' -> '"@ + other@
            + "' failed"@,
{
    reveal_strlit("'");
    reveal_strlit(" failed");
    reveal_strlit("' failed");
    reveal_strlit("stat ");
    reveal_strlit("stat '");
    reveal_strlit("open ");
    reveal_strlit("open '");
    reveal_strlit(" for reading failed");
    reveal_strlit("' for reading failed");
    reveal_strlit("create ");
    reveal_strlit("create '");
    reveal_strlit(" for writing failed");
    reveal_strlit("' for writing failed");
    reveal_strlit("glob ");
    reveal_strlit("glob '");
    reveal_strlit("list ");
    reveal_strlit("list '");
    reveal_strlit("mkdirs ");
    reveal_strlit("mkdirs '");
    reveal_strlit("delete ");
    reveal_strlit("delete '");
    reveal_strlit("rename ");
    reveal_strlit("rename '");
    reveal_strlit(" -> ");
    reveal_strlit("' -> '");
}

impl Operation {
    /// What the message of a failure of this operation starts with.
    pub fn context(&self) -> (r: String)
        ensures
            r@ == failure_context(*self),
    {
        match self {
            Operation::Connect => String::from_str("failed to connect to HDFS"),
            Operation::Stat(path) => quote("stat ", path.as_str(), " failed"),
            Operation::Open(path) => quote("open ", path.as_str(), " for reading failed"),
            Operation::Read(offset) => {
                let mut out = String::from_str("read at offset ");
                let offset_text: String = decimal_text(*offset);
                out.append(offset_text.as_str());
                out.append(" failed");
                out
            },
            Operation::Create(path) => quote("create ", path.as_str(), " for writing failed"),
            Operation::Write => String::from_str("write failed"),
            Operation::CloseWriter => String::from_str("close writer failed"),
            Operation::Glob(pattern) => quote("glob ", pattern.as_str(), " failed"),
            Operation::List(path) => quote("list ", path.as_str(), " failed"),
            Operation::Mkdirs(path) => quote("mkdirs ", path.as_str(), " failed"),
            Operation::Delete(path) => quote("delete ", path.as_str(), " failed"),
            Operation::Rename(src, dst) => {
                let front: String = quote("rename ", src.as_str(), " -> ");
                quote(front.as_str(), dst.as_str(), " failed")
            },
        }
    }

    /// The status for this operation, failed with `err`.
    pub fn failed(&self, err: &BridgeError) -> (r: Status)
        ensures
            r@ == error_status(failure_context(*self), err@),
    {
        let context: String = self.context();
        set_error(context.as_str(), err)
    }

    /// The outcome of an operation that returns nothing: 0 and no status on
    /// success, -1 and the status on failure.
    pub fn finish(&self, result: &Result<(), BridgeError>) -> (r: (i32, Option<Status>))
        ensures
            match *result {
                Ok(_) => r.0 == 0 && r.1 is None,
                Err(err) => {
                    &&& r.0 == -1
                    &&& r.1 matches Some(status)
                    &&& status@ == error_status(failure_context(*self), err@)
                },
            },
    {
        match result {
            Ok(_) => (0, None),
            Err(err) => (-1, Some(self.failed(err))),
        }
    }

    /// The outcome of a read or write of `len` bytes, which is done in full or
    /// fails: `len` and no status on success, -1 and the status on failure.
    pub fn finish_transfer(&self, len: i64, result: &Result<(), BridgeError>) -> (r: (
        i64,
        Option<Status>,
    ))
        ensures
            match *result {
                Ok(_) => r.0 == len && r.1 is None,
                Err(err) => {
                    &&& r.0 == -1
                    &&& r.1 matches Some(status)
                    &&& status@ == error_status(failure_context(*self), err@)
                },
            },
    {
        match result {
            Ok(_) => (len, None),
            Err(err) => (-1, Some(self.failed(err))),
        }
    }
}

/// The length of a read as a buffer length; a negative one is refused.
pub fn read_length(len: i64) -> (r: Result<u64, Status>)
    ensures
        match r {
            Ok(n) => len >= 0 && n == len,
            Err(status) => len < 0 && status@ == status_of(
                HDFS_ERR_INVALID_ARGUMENT,
                "negative read length"@,
            ),
        },
{
    if len < 0 {
        Err(set_status(HDFS_ERR_INVALID_ARGUMENT, "negative read length"))
    } else {
        Ok(len as u64)
    }
}

/// The length of a write as a buffer length; a negative one is refused.
pub fn write_length(len: i64) -> (r: Result<u64, Status>)
    ensures
        match r {
            Ok(n) => len >= 0 && n == len,
            Err(status) => len < 0 && status@ == status_of(
                HDFS_ERR_INVALID_ARGUMENT,
                "negative write length"@,
            ),
        },
{
    if len < 0 {
        Err(set_status(HDFS_ERR_INVALID_ARGUMENT, "negative write length"))
    } else {
        Ok(len as u64)
    }
}

/// The outcome of a delete. A server response of "false" (nothing deleted) is
/// reported as not-found.
pub fn finish_delete(path: &str, result: &Result<bool, BridgeError>) -> (r: (i32, Option<Status>))
    ensures
        match *result {
            Ok(deleted) => if deleted {
                r.0 == 0 && r.1 is None
            } else {
                &&& r.0 == -1
                &&& r.1 matches Some(status)
                &&& status@ == status_of(
                    HDFS_ERR_NOT_FOUND,
                    quoted("delete "@, path@, ": path not found"@),
                )
            },
            Err(err) => {
                &&& r.0 == -1
                &&& r.1 matches Some(status)
                &&& status@ == error_status(quoted("delete "@, path@, " failed"@), err@)
            },
        },
{
    match result {
        Ok(deleted) => {
            if *deleted {
                (0, None)
            } else {
                let msg: String = quote("delete ", path, ": path not found");
                (-1, Some(set_status(HDFS_ERR_NOT_FOUND, msg.as_str())))
            }
        },
        Err(err) => {
            let op = Operation::Delete(path.to_owned());
            (-1, Some(op.failed(err)))
        },
    }
}

/// At least one: the number of listings in flight or of entries in a batch
/// that is asked for by `n`.
pub fn at_least_one(n: i32) -> (r: usize)
    ensures
        r == if n < 1 {
            1int
        } else {
            n as int
        },
{
    if n < 1 {
        1
    } else {
        n as usize
    }
}

} // verus!
