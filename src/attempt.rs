//! Decisions of the generation attempt loop: retry, succeed or give up.
use vstd::prelude::*;
use crate::text::{chars_of};

verus! {

/// One question/answer pair.
#[derive(Clone, Debug, PartialEq, Eq)]
pub struct ProcessedItem {
    pub question: String,
    pub answer: String,
}

/// How many attempts a chunk gets before it fails.
pub const MAX_ATTEMPTS: usize = 3;

/// Why an attempt failed.
#[derive(Clone, Copy, Debug, PartialEq, Eq, Structural)]
pub enum FailureKind {
    /// The backend answered with a non-success status, or could not be reached.
    Backend,
    /// The reply envelope did not parse.
    Envelope,
    /// The repaired payload did not parse against the question/answer schema.
    Schema,
}

/// A chunk's retry budget ran out.
#[derive(Clone, Copy, Debug, PartialEq, Eq, Structural)]
pub struct GenerationFailure {
    /// The failure of the last attempt.
    pub reason: FailureKind,
    /// How many attempts were made.
    pub attempts: usize,
}

/// What the loop does next.
#[derive(Clone, Debug, PartialEq, Eq)]
pub enum AttemptAction {
    /// Wait one time unit, then send the request again.
    Retry,
    /// Hand the parsed items back, as they are.
    Succeed(Vec<ProcessedItem>),
    /// Give up on this chunk.
    GiveUp(GenerationFailure),
}

/// The state of the attempt loop for one chunk.
#[derive(Clone, Copy, Debug, PartialEq, Eq, Structural)]
pub struct AttemptLoop {
    /// Failed attempts so far.
    pub failures: usize,
    /// The loop has ended, by success or by giving up.
    pub finished: bool,
}

/// The framing of the request sent to the backend.
#[derive(Clone, Copy, Debug, PartialEq, Eq, Structural)]
pub enum PromptMode {
    ReleaseNotes,
    Documentation,
}

pub open spec fn contains_at(s: Seq<char>, pat: Seq<char>, p: int) -> bool {
    0 <= p && p + pat.len() <= s.len() && s.subrange(p, p + pat.len()) == pat
}

pub open spec fn contains(s: Seq<char>, pat: Seq<char>) -> bool {
    exists|p: int| contains_at(s, pat, p)
}

pub open spec fn release_notes_heading() -> Seq<char> {
    seq!['#', ' ', 'R', 'e', 'l', 'e', 'a', 's', 'e', ' ', 'N', 'o', 't', 'e', 's']
}

pub open spec fn changelog_heading() -> Seq<char> {
    seq!['#', ' ', 'C', 'h', 'a', 'n', 'g', 'e', 'l', 'o', 'g']
}

/// The release-notes framing is used for a chunk that holds a
/// "# Release Notes" or "# Changelog" heading.
pub open spec fn mode_of(s: Seq<char>) -> PromptMode {
    if contains(s, release_notes_heading()) || contains(s, changelog_heading()) {
        PromptMode::ReleaseNotes
    } else {
        PromptMode::Documentation
    }
}

fn has_substring(s: &Vec<char>, pat: &Vec<char>) -> (r: bool)
    ensures
        r == contains(s@, pat@),
{
    if pat.len() > s.len() {
        assert forall|p: int| !contains_at(s@, pat@, p) by {}
        return false;
    }
    let mut q: usize = 0;
    while q <= s.len() - pat.len()
        invariant
            pat.len() <= s.len(),
            q <= s.len() - pat.len() + 1,
            forall|p: int| 0 <= p < q ==> !contains_at(s@, pat@, p),
        decreases s.len() - pat.len() + 1 - q,
    {
        let mut k: usize = 0;
        while k < pat.len() && s[q + k] == pat[k]
            invariant
                q + pat.len() <= s.len(),
                k <= pat.len(),
                forall|j: int| 0 <= j < k ==> s@[q + j] == pat@[j],
            decreases pat.len() - k,
        {
            k = k + 1;
        }
        if k == pat.len() {
            assert(s@.subrange(q as int, q + pat.len()) =~= pat@);
            assert(contains_at(s@, pat@, q as int));
            return true;
        }
        assert(!contains_at(s@, pat@, q as int)) by {
            if contains_at(s@, pat@, q as int) {
                assert(s@.subrange(q as int, q + pat.len())[k as int] == s@[q + k]);
            }
        }
        q = q + 1;
    }
    false
}

/// The framing for a request on `section`.
pub fn prompt_mode(section: &str) -> (m: PromptMode)
    ensures
        m == mode_of(section@),
{
    let s = chars_of(section);
    let rn: Vec<char> = vec!['#', ' ', 'R', 'e', 'l', 'e', 'a', 's', 'e', ' ', 'N', 'o', 't', 'e', 's'];
    let cl: Vec<char> = vec!['#', ' ', 'C', 'h', 'a', 'n', 'g', 'e', 'l', 'o', 'g'];
    assert(rn@ =~= release_notes_heading());
    assert(cl@ =~= changelog_heading());
    if has_substring(&s, &rn) || has_substring(&s, &cl) {
        PromptMode::ReleaseNotes
    } else {
        PromptMode::Documentation
    }
}

impl AttemptLoop {
    /// A loop with no attempt made yet.
    pub fn new() -> (r: AttemptLoop)
        ensures
            r.failures == 0,
            !r.finished,
    {
        AttemptLoop { failures: 0, finished: false }
    }

    /// The loop can still take the result of an attempt.
    pub open spec fn running(self) -> bool {
        !self.finished && self.failures < MAX_ATTEMPTS
    }

    /// Takes the result of one attempt: the parsed items, or why it failed.
    /// Items are handed back as they are, whatever their number; a failure
    /// leads to a retry until the third one, which gives up.
    pub fn on_result(&mut self, result: Result<Vec<ProcessedItem>, FailureKind>) -> (a: AttemptAction)
        requires
            old(self).running(),
        ensures
            match result {
                Ok(items) => {
                    &&& a == AttemptAction::Succeed(items)
                    &&& final(self).finished
                    &&& final(self).failures == old(self).failures
                },
                Err(k) => {
                    &&& final(self).failures == old(self).failures + 1
                    &&& if old(self).failures + 1 < MAX_ATTEMPTS {
                        a == AttemptAction::Retry && !final(self).finished
                    } else {
                        &&& a == AttemptAction::GiveUp(
                            GenerationFailure { reason: k, attempts: MAX_ATTEMPTS },
                        )
                        &&& final(self).finished
                    }
                },
            },
    {
        match result {
            Ok(items) => {
                self.finished = true;
                AttemptAction::Succeed(items)
            },
            Err(k) => {
                self.failures = self.failures + 1;
                if self.failures < MAX_ATTEMPTS {
                    AttemptAction::Retry
                } else {
                    self.finished = true;
                    AttemptAction::GiveUp(GenerationFailure { reason: k, attempts: MAX_ATTEMPTS })
                }
            },
        }
    }
}

} // verus!
