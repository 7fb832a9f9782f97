//! Reading the outcome of an fzf run: which repository the user picked, if
//! any.

use vstd::prelude::*;
use vstd::utf8::{decode_utf8, valid_utf8};
use crate::text::{
    is_white_space, lemma_trimmed_is_core, opt_view, trimmed, trimmed_spec, utf8_decode_lossy,
    utf8_lossy,
};

verus! {

/// Why fzf did not produce a usable outcome.
#[derive(Debug, PartialEq, Eq, Structural)]
pub enum FzfError {
    /// fzf exited with a status other than selected, no match or interrupted.
    Exit(i32),
    /// fzf was terminated by a signal.
    Signal,
}

/// The picked entry in fzf's standard output: the decoded output without
/// surrounding whitespace, nothing when that is empty.
pub open spec fn picked_spec(stdout: Seq<u8>) -> Option<Seq<char>> {
    trimmed_spec(utf8_lossy(stdout))
}

/// Interprets how fzf ended (its exit code, `None` when a signal ended it)
/// and what it printed.
///
/// `Ok(None)` means the user cancelled or nothing matched — that is a normal
/// outcome, not a failure. Errors are reserved for fzf dying.
pub fn selection(code: Option<i32>, stdout: &[u8]) -> (r: Result<Option<String>, FzfError>)
    ensures
        match code {
            Some(0) => r matches Ok(o) && opt_view(o) == picked_spec(stdout@),
            Some(c) => if c == 1 || c == 130 {
                r matches Ok(None)
            } else {
                r == Err::<Option<String>, FzfError>(FzfError::Exit(c))
            },
            None => r == Err::<Option<String>, FzfError>(FzfError::Signal),
        },
        code == Some(0i32) && valid_utf8(stdout@) ==> (r matches Ok(o) && opt_view(o)
            == trimmed_spec(decode_utf8(stdout@))),
{
    // fzf: 0 = selected, 1 = no match, 2 = error, 130 = interrupted
    match code {
        Some(0) => {},
        Some(1) => return Ok(None),
        Some(130) => return Ok(None),
        Some(c) => return Err(FzfError::Exit(c)),
        None => return Err(FzfError::Signal),
    }
    let text = utf8_decode_lossy(stdout);
    Ok(trimmed(text.as_str()))
}

/// The pick is the whole of fzf's decoded output but for surrounding
/// whitespace: nothing when the output is all whitespace, otherwise the
/// stretch from its first to its last non-whitespace character.
pub proof fn lemma_pick_is_trimmed_output(stdout: Seq<u8>)
    ensures
        ({
            let t = utf8_lossy(stdout);
            match picked_spec(stdout) {
                None => forall|k: int| 0 <= k < t.len() ==> is_white_space(#[trigger] t[k]),
                Some(x) => exists|i: int, j: int|
                    0 <= i < j <= t.len() && x == #[trigger] t.subrange(i, j) && !is_white_space(t[i])
                        && !is_white_space(t[j - 1]) && (forall|k: int|
                        0 <= k < i ==> is_white_space(#[trigger] t[k])) && (forall|k: int|
                        j <= k < t.len() ==> is_white_space(#[trigger] t[k])),
            }
        }),
{
    lemma_trimmed_is_core(utf8_lossy(stdout));
}

} // verus!
