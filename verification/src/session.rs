//! What an interactive session and a batch report decide, apart from the
//! reading and printing that carries them out: which command a line is,
//! what a line does to the history, and how a batch turned out.

use vstd::prelude::*;
use vstd::string::*;
use crate::eval::{evaluate, value_of_text, EvaluationResult};
use crate::text::{trim, trimmed};

verus! {

/// How many expressions of a batch have a value, and how many have none.
#[derive(Debug, Clone, Copy, PartialEq, Eq, Structural)]
pub struct Summary {
    pub total: usize,
    pub successful: usize,
    pub failed: usize,
}

/// The number of outcomes that are values.
pub open spec fn successes(results: Seq<EvaluationResult>) -> nat
    decreases results.len(),
{
    if results.len() == 0 {
        0
    } else {
        successes(results.drop_last()) + if results.last().value is Ok {
            1nat
        } else {
            0nat
        }
    }
}

/// Counts the outcomes of a batch.
pub fn summarize(results: &Vec<EvaluationResult>) -> (summary: Summary)
    ensures
        summary.total == results.len(),
        summary.successful == successes(results@),
        summary.successful + summary.failed == summary.total,
{
    let mut successful: usize = 0;
    let mut i: usize = 0;
    assert(results@.subrange(0, 0) =~= Seq::<EvaluationResult>::empty());
    while i < results.len()
        invariant
            i <= results.len(),
            successful <= i,
            successful == successes(results@.subrange(0, i as int)),
        decreases results.len() - i,
    {
        proof {
            let longer = results@.subrange(0, i + 1);
            assert(longer.drop_last() =~= results@.subrange(0, i as int));
            assert(longer.last() == results@[i as int]);
        }
        if results[i].value.is_ok() {
            successful = successful + 1;
        }
        i = i + 1;
    }
    assert(results@.subrange(0, i as int) =~= results@);
    Summary { total: results.len(), successful, failed: results.len() - successful }
}

/// What a line of an interactive session asks for.
#[derive(Debug, Clone, Copy, PartialEq, Eq, Structural)]
pub enum Command {
    /// `quit` or `exit`: end the session.
    Quit,
    /// `help`: show the commands.
    Help,
    /// `history`: show what was evaluated so far.
    History,
    /// `clear`: forget what was evaluated so far.
    Clear,
    /// A blank line: nothing.
    Skip,
    /// Anything else: an expression to evaluate.
    Evaluate,
}

/// The command that a line is, whitespace at its ends apart.
pub open spec fn command_of(line: Seq<char>) -> Command {
    let word = trim(line);
    if word == "quit"@ || word == "exit"@ {
        Command::Quit
    } else if word == "help"@ {
        Command::Help
    } else if word == "history"@ {
        Command::History
    } else if word == "clear"@ {
        Command::Clear
    } else if word.len() == 0 {
        Command::Skip
    } else {
        Command::Evaluate
    }
}

/// Whether two texts are the same.
pub fn same_text(a: &str, b: &str) -> (r: bool)
    ensures
        r == (a@ == b@),
{
    let left = a.as_bytes();
    let right = b.as_bytes();
    assert(a@ == b@ ==> left@ == right@);
    if left.len() != right.len() {
        return false;
    }
    let mut i: usize = 0;
    while i < left.len()
        invariant
            i <= left.len(),
            left.len() == right.len(),
            forall|k: int| 0 <= k < i ==> left@[k] == right@[k],
            a@ == b@ ==> left@ == right@,
        decreases left.len() - i,
    {
        if left[i] != right[i] {
            return false;
        }
        i = i + 1;
    }
    proof {
        assert(left@ =~= right@);
        vstd::utf8::encode_utf8_decode_utf8(a@);
        vstd::utf8::encode_utf8_decode_utf8(b@);
    }
    true
}

/// The command that a line is.
pub fn classify(line: &str) -> (command: Command)
    ensures
        command == command_of(line@),
{
    let word = trimmed(line);
    if same_text(word, "quit") || same_text(word, "exit") {
        Command::Quit
    } else if same_text(word, "help") {
        Command::Help
    } else if same_text(word, "history") {
        Command::History
    } else if same_text(word, "clear") {
        Command::Clear
    } else if word.unicode_len() == 0 {
        Command::Skip
    } else {
        Command::Evaluate
    }
}

/// What a line of an interactive session leads to.
#[derive(Debug, Clone, Copy, PartialEq, Eq, Structural)]
pub enum Outcome {
    /// The session ends.
    Quit,
    /// The commands are to be shown.
    Help,
    /// The history is to be shown.
    History,
    /// The history was cleared.
    Cleared,
    /// Nothing is to be done.
    Nothing,
    /// An expression was evaluated: the last entry of the history holds
    /// it and what it evaluated to.
    Evaluated,
}

/// Carries out one line of an interactive session on its history. Only
/// `clear` and an expression change the history: the first empties it, the
/// second adds the trimmed line with what it evaluated to.
pub fn step(history: &mut Vec<EvaluationResult>, line: &str) -> (outcome: Outcome)
    ensures
        match command_of(line@) {
            Command::Quit => outcome == Outcome::Quit && final(history)@ == old(history)@,
            Command::Help => outcome == Outcome::Help && final(history)@ == old(history)@,
            Command::History => outcome == Outcome::History && final(history)@ == old(
                history,
            )@,
            Command::Clear => outcome == Outcome::Cleared && final(history)@.len() == 0,
            Command::Skip => outcome == Outcome::Nothing && final(history)@ == old(history)@,
            Command::Evaluate => {
                &&& outcome == Outcome::Evaluated
                &&& final(history)@.len() == old(history)@.len() + 1
                &&& final(history)@.subrange(0, old(history)@.len() as int) == old(history)@
                &&& final(history)@.last().expression@ == trim(line@)
                &&& final(history)@.last().value == value_of_text(line@)
            },
        },
{
    match classify(line) {
        Command::Quit => Outcome::Quit,
        Command::Help => Outcome::Help,
        Command::History => Outcome::History,
        Command::Clear => {
            history.clear();
            Outcome::Cleared
        },
        Command::Skip => Outcome::Nothing,
        Command::Evaluate => {
            let ghost before = history@;
            let word = trimmed(line);
            let value = evaluate(word);
            proof {
                crate::text::lemma_trim_idempotent(line@);
            }
            history.push(EvaluationResult { expression: word.to_owned(), value });
            proof {
                assert(history@.subrange(0, before.len() as int) =~= before);
            }
            Outcome::Evaluated
        },
    }
}

} // verus!
