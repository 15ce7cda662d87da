//! Status codes and error translation.
//!
//! The engine reports every outcome as a signed status code: `0` for
//! success, a reserved sentinel for "not found", engine-specific negative
//! codes, and OS-style positive codes. This module fixes those codes as
//! constants, maps each code to its message, and wraps a code and its
//! message as the [`Error`] value that every fallible operation returns.

use vstd::prelude::*;

verus! {

/// Conflict between concurrent operations: the whole transaction must be
/// retried from its beginning.
pub const WT_ROLLBACK: i32 = -31800;
/// Attempt to insert an existing key while overwrite is switched off.
pub const WT_DUPLICATE_KEY: i32 = -31801;
/// Non-specific engine error.
pub const WT_ERROR: i32 = -31802;
/// The reserved "not found" sentinel, distinct from all failure codes.
pub const WT_NOTFOUND: i32 = -31803;
/// Engine panic; the process cannot continue with the handle.
pub const WT_PANIC: i32 = -31804;
/// Restart the operation.
pub const WT_RESTART: i32 = -31805;
/// Recovery must run before the database can be used.
pub const WT_RUN_RECOVERY: i32 = -31806;
/// The operation would overflow the cache.
pub const WT_CACHE_FULL: i32 = -31807;
/// Conflict with a prepared, not yet resolved update.
pub const WT_PREPARE_CONFLICT: i32 = -31808;
/// On-disk state unreadable: database corruption detected.
pub const WT_TRY_SALVAGE: i32 = -31809;

/// Invalid argument (OS-style code).
pub const EINVAL: i32 = 22;
/// File exists (OS-style code).
pub const EEXIST: i32 = 17;
/// No such file or directory (OS-style code).
pub const ENOENT: i32 = 2;
/// Device or resource busy (OS-style code).
pub const EBUSY: i32 = 16;

/// The character standing for one decimal digit value.
pub open spec fn digit_char(d: int) -> char {
    if d == 0 { '0' }
    else if d == 1 { '1' }
    else if d == 2 { '2' }
    else if d == 3 { '3' }
    else if d == 4 { '4' }
    else if d == 5 { '5' }
    else if d == 6 { '6' }
    else if d == 7 { '7' }
    else if d == 8 { '8' }
    else { '9' }
}

/// Decimal rendering of a non-negative integer, most significant digit first.
pub open spec fn dec_nat(n: int) -> Seq<char>
    decreases n,
{
    if n < 10 {
        seq![digit_char(n)]
    } else {
        dec_nat(n / 10).push(digit_char(n % 10))
    }
}

/// Decimal rendering of a signed code, with a leading minus sign when negative.
pub open spec fn dec_int(c: i32) -> Seq<char> {
    if c < 0 {
        seq!['-'] + dec_nat(-(c as int))
    } else {
        dec_nat(c as int)
    }
}

/// The message the engine's own code-to-string facility gives for a status
/// code: a fixed text for each engine code and each OS code the layer uses,
/// and a generic rendering for any other code.
pub open spec fn error_message_spec(code: i32) -> Seq<char> {
    if code == 0 { "Successful return: 0"@ }
    else if code == WT_ROLLBACK { "WT_ROLLBACK: conflict between concurrent operations"@ }
    else if code == WT_DUPLICATE_KEY { "WT_DUPLICATE_KEY: attempt to insert an existing key"@ }
    else if code == WT_ERROR { "WT_ERROR: non-specific WiredTiger error"@ }
    else if code == WT_NOTFOUND { "WT_NOTFOUND: item not found"@ }
    else if code == WT_PANIC { "WT_PANIC: WiredTiger library panic"@ }
    else if code == WT_RESTART { "WT_RESTART: restart the operation (internal)"@ }
    else if code == WT_RUN_RECOVERY { "WT_RUN_RECOVERY: recovery must be run to continue"@ }
    else if code == WT_CACHE_FULL { "WT_CACHE_FULL: operation would overflow cache"@ }
    else if code == WT_PREPARE_CONFLICT { "WT_PREPARE_CONFLICT: conflict with a prepared update"@ }
    else if code == WT_TRY_SALVAGE { "WT_TRY_SALVAGE: database corruption detected"@ }
    else if code == EINVAL { "Invalid argument"@ }
    else if code == EEXIST { "File exists"@ }
    else if code == ENOENT { "No such file or directory"@ }
    else if code == EBUSY { "Device or resource busy"@ }
    else { "error return: "@ + dec_int(code) }
}

/// A status code together with its translated message.
///
/// Carried as the error arm of every fallible operation's result, so a
/// caller can pattern-match the numeric code while a human reads the text.
#[derive(Debug, Clone, PartialEq, Eq)]
pub struct Error {
    pub code: i32,
    pub message: String,
}

/// Holds when `r` is the error that translates `code`: the numeric code is
/// preserved and the message is the engine's text for it.
pub open spec fn is_err_code<T>(r: Result<T, Error>, code: i32) -> bool {
    &&& r matches Err(e)
    &&& r->Err_0.code == code
    &&& r->Err_0.message@ == error_message_spec(code)
}

impl Error {
    /// An error wrapping a message alone, with no engine code.
    pub fn new(message: String) -> (e: Error)
        ensures
            e.code == 0,
            e.message@ == message@,
    {
        Error { code: 0, message }
    }

    /// The error translating a status code: the code itself beside the
    /// engine's message for it.
    pub fn from_code(code: i32) -> (e: Error)
        ensures
            e.code == code,
            e.message@ == error_message_spec(code),
    {
        Error { code, message: error_message(code) }
    }

    /// Whether this error is the reserved "not found" sentinel, which
    /// search-style callers treat as an absent record rather than a failure.
    pub fn is_not_found(&self) -> (r: bool)
        ensures
            r == (self.code == WT_NOTFOUND),
    {
        self.code == WT_NOTFOUND
    }
}

/// One decimal digit as a string slice.
fn digit_str(d: u8) -> (s: &'static str)
    requires
        d < 10,
    ensures
        s@ == seq![digit_char(d as int)],
{
    proof {
        reveal_strlit("0");
        reveal_strlit("1");
        reveal_strlit("2");
        reveal_strlit("3");
        reveal_strlit("4");
        reveal_strlit("5");
        reveal_strlit("6");
        reveal_strlit("7");
        reveal_strlit("8");
        reveal_strlit("9");
    }
    if d == 0 { "0" }
    else if d == 1 { "1" }
    else if d == 2 { "2" }
    else if d == 3 { "3" }
    else if d == 4 { "4" }
    else if d == 5 { "5" }
    else if d == 6 { "6" }
    else if d == 7 { "7" }
    else if d == 8 { "8" }
    else { "9" }
}

/// Appends the decimal rendering of `n` to `out`.
pub(crate) fn push_dec_u64(n: u64, out: &mut String)
    ensures
        final(out)@ == old(out)@ + dec_nat(n as int),
    decreases n,
{
    if n < 10 {
        out.append(digit_str(n as u8));
    } else {
        push_dec_u64(n / 10, out);
        out.append(digit_str((n % 10) as u8));
        proof {
            assert(final(out)@ =~= old(out)@ + dec_nat(n as int));
        }
    }
}

/// Appends the decimal rendering of a signed code to `out`.
fn push_dec_i32(code: i32, out: &mut String)
    ensures
        final(out)@ == old(out)@ + dec_int(code),
{
    if code < 0 {
        out.append("-");
        proof { reveal_strlit("-"); }
        let m: u64 = (-(code as i64)) as u64;
        push_dec_u64(m, out);
        proof {
            assert(final(out)@ =~= old(out)@ + dec_int(code));
        }
    } else {
        push_dec_u64(code as u64, out);
    }
}

/// The engine's message for a status code, as `error_message_spec` states it.
pub fn error_message(code: i32) -> (m: String)
    ensures
        m@ == error_message_spec(code),
{
    if code == 0 { "Successful return: 0".to_owned() }
    else if code == WT_ROLLBACK { "WT_ROLLBACK: conflict between concurrent operations".to_owned() }
    else if code == WT_DUPLICATE_KEY { "WT_DUPLICATE_KEY: attempt to insert an existing key".to_owned() }
    else if code == WT_ERROR { "WT_ERROR: non-specific WiredTiger error".to_owned() }
    else if code == WT_NOTFOUND { "WT_NOTFOUND: item not found".to_owned() }
    else if code == WT_PANIC { "WT_PANIC: WiredTiger library panic".to_owned() }
    else if code == WT_RESTART { "WT_RESTART: restart the operation (internal)".to_owned() }
    else if code == WT_RUN_RECOVERY { "WT_RUN_RECOVERY: recovery must be run to continue".to_owned() }
    else if code == WT_CACHE_FULL { "WT_CACHE_FULL: operation would overflow cache".to_owned() }
    else if code == WT_PREPARE_CONFLICT { "WT_PREPARE_CONFLICT: conflict with a prepared update".to_owned() }
    else if code == WT_TRY_SALVAGE { "WT_TRY_SALVAGE: database corruption detected".to_owned() }
    else if code == EINVAL { "Invalid argument".to_owned() }
    else if code == EEXIST { "File exists".to_owned() }
    else if code == ENOENT { "No such file or directory".to_owned() }
    else if code == EBUSY { "Device or resource busy".to_owned() }
    else {
        let mut m = "error return: ".to_owned();
        push_dec_i32(code, &mut m);
        m
    }
}

} // verus!
