//! What went wrong, in words.

use vstd::prelude::*;
use vstd::string::StringExecFns;

verus! {

/// A failure with the message that a user gets to read.
#[derive(Debug)]
pub struct Failure {
    pub message: String,
}

/// The failure whose message is the three parts in a row.
pub fn failure(before: &str, value: &str, after: &str) -> (res: Failure)
    ensures
        res.message@ == before@ + value@ + after@,
{
    let mut message = String::new();
    message.append(before);
    message.append(value);
    message.append(after);
    assert(message@ =~= before@ + value@ + after@);
    Failure { message }
}

/// The failure whose message ends in a value.
pub fn failure_about(before: &str, value: &str) -> (res: Failure)
    ensures
        res.message@ == before@ + value@,
{
    let mut message = String::new();
    message.append(before);
    message.append(value);
    assert(message@ =~= before@ + value@);
    Failure { message }
}

/// The failure with a fixed message.
pub fn plain_failure(message: &str) -> (res: Failure)
    ensures
        res.message@ == message@,
{
    Failure { message: message.to_owned() }
}

/// That a result is the one stated: the same value, or the stated message.
pub open spec fn result_is<T>(res: Result<T, Failure>, stated: Result<T, Seq<char>>) -> bool {
    match (res, stated) {
        (Ok(v), Ok(w)) => v == w,
        (Err(e), Err(m)) => e.message@ == m,
        _ => false,
    }
}

} // verus!
