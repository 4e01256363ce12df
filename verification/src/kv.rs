//! The request rules of the built-in key-value plugin: an array whose first
//! element is the string `SET` and that has at least three elements stores
//! the third under the second; one whose first element is `GET` and that has
//! at least two elements reads the second; everything else is echoed back.
use vstd::prelude::*;

verus! {

/// What the key-value plugin does with a request.
#[derive(Debug, Clone, Copy, PartialEq, Eq, Structural)]
pub enum KvCommand {
    Store,
    Fetch,
    Echo,
}

/// Whether the first element is the string `word`.
pub open spec fn head_is(head: Option<&str>, word: Seq<char>) -> bool {
    match head {
        Some(h) => h@ == word,
        None => false,
    }
}

/// The command of an array request with `arg_count` elements whose first
/// element is the string `head` (`None` where it is no string).
pub fn kv_command(arg_count: usize, head: Option<&str>) -> (c: KvCommand)
    ensures
        c == (if arg_count >= 3 && head_is(head, "SET"@) {
            KvCommand::Store
        } else if arg_count >= 2 && head_is(head, "GET"@) {
            KvCommand::Fetch
        } else {
            KvCommand::Echo
        }),
{
    let set = "SET".to_owned();
    let get = "GET".to_owned();
    match head {
        Some(h) => {
            let h = h.to_owned();
            if arg_count >= 3 && h == set {
                KvCommand::Store
            } else if arg_count >= 2 && h == get {
                KvCommand::Fetch
            } else {
                KvCommand::Echo
            }
        },
        None => KvCommand::Echo,
    }
}

} // verus!
