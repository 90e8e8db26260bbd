//! Decisions for a whole document: reuse of stored pairs, then the covering
//! of its top-level sections in order.
use vstd::prelude::*;
use crate::attempt::ProcessedItem;
use crate::coverage::{views, yielded};
use crate::segment::{Strategy, is_segmentation, chunks_in_place, joined, split, lemma_chunk_words_of};
use crate::targets::{base_goal, extra_goal, min_goal, share_of, calculate_question_targets, proportional_target};
use crate::text::{is_ws, all_ws, word_count, chars_of, count_words, is_whitespace};

verus! {

/// What is already stored for a document.
#[derive(Clone, Copy, Debug, PartialEq, Eq, Structural)]
pub enum StoredQa {
    /// No stored pairs can be read.
    Absent,
    /// The one-record-per-line file exists; this many records were read
    /// from it (none when it could not be read).
    Lines(usize),
    /// Only the legacy all-at-once file exists, and it holds this many pairs.
    Legacy(usize),
}

/// What to do with the stored pairs.
#[derive(Clone, Copy, Debug, PartialEq, Eq, Structural)]
pub enum Existing {
    /// Return the stored pairs; nothing is generated.
    Reuse,
    /// Rewrite the legacy file one record per line and return its pairs;
    /// nothing is generated.
    Upgrade,
    /// Generate the pairs anew.
    Generate,
}

/// The stored pairs are enough when there are at least as many as the
/// minimum acceptable yield for the document's word count.
pub open spec fn existing_choice(words: int, stored: StoredQa) -> Existing {
    let min = min_goal(base_goal(words));
    match stored {
        StoredQa::Lines(n) => if n > 0 && n >= min { Existing::Reuse } else { Existing::Generate },
        StoredQa::Legacy(n) => if n >= min { Existing::Upgrade } else { Existing::Generate },
        StoredQa::Absent => Existing::Generate,
    }
}

/// Decides whether the pairs already stored for a document of `word_count`
/// words are kept.
pub fn check_existing_qa(word_count: usize, stored: StoredQa) -> (r: Existing)
    ensures
        r == existing_choice(word_count as int, stored),
{
    let t = calculate_question_targets(word_count);
    match stored {
        StoredQa::Lines(n) => if n > 0 && n >= t.min_acceptable {
            Existing::Reuse
        } else {
            Existing::Generate
        },
        StoredQa::Legacy(n) => if n >= t.min_acceptable {
            Existing::Upgrade
        } else {
            Existing::Generate
        },
        StoredQa::Absent => Existing::Generate,
    }
}

/// What the document run asks for next.
#[derive(Clone, Debug, PartialEq, Eq)]
pub enum DocStep {
    /// Return the stored pairs.
    Reuse,
    /// Upgrade the legacy file and return its pairs.
    Upgrade,
    /// Cover this section with this target (see `Coverage`), then hand the
    /// result back.
    Cover(String, usize),
    /// All sections are done: store these pairs, when there are any, and
    /// return them.
    Finish(Vec<ProcessedItem>),
}

/// The run over one document.
pub struct DocumentRun {
    pub content: String,
    /// The document's top-level sections.
    pub sections: Vec<String>,
    /// The document's word count.
    pub words: usize,
    /// The number of pairs to ask for the whole document.
    pub target: usize,
    /// The section being covered.
    pub next: usize,
    /// The pairs gathered so far, in section order.
    pub items: Vec<ProcessedItem>,
}

impl DocumentRun {
    pub open spec fn wf(self) -> bool {
        &&& is_segmentation(self.content@, views(self.sections@), Strategy::BySection)
        &&& chunks_in_place(self.content@, views(self.sections@))
        &&& joined(views(self.sections@)) == self.content@
        &&& self.words == word_count(self.content@)
        &&& self.next <= self.sections.len()
    }

    /// The target of section `i`: its share of the document's target.
    pub open spec fn section_target(self, i: int) -> int {
        share_of(self.target as int, word_count(self.sections[i]@) as int, self.words as int)
    }

    /// `a` covers the first section at or after `from` that is not
    /// whitespace only, or, when there is none, finishes with the pairs so
    /// far.
    pub open spec fn moved_on(self, a: DocStep, from: int) -> bool {
        &&& from <= self.next
        &&& forall|j: int| from <= j < self.next ==> all_ws(#[trigger] self.sections[j]@)
        &&& match a {
            DocStep::Cover(s, t) => {
                &&& self.next < self.sections.len()
                &&& s@ == self.sections[self.next as int]@
                &&& !all_ws(s@)
                &&& t == self.section_target(self.next as int)
            },
            DocStep::Finish(_) => self.next == self.sections.len(),
            _ => false,
        }
    }

    /// Covers the first section at or after `next` that is not whitespace
    /// only, or finishes.
    fn advance(&mut self) -> (a: DocStep)
        requires
            old(self).wf(),
        ensures
            final(self).wf(),
            final(self).content == old(self).content,
            final(self).sections == old(self).sections,
            final(self).words == old(self).words,
            final(self).target == old(self).target,
            a is Finish ==> a->Finish_0@ == old(self).items@,
            a is Cover ==> final(self).items@ == old(self).items@,
            final(self).moved_on(a, old(self).next as int),
    {
        let ghost start = self.next as int;
        let mut i: usize = self.next;
        while i < self.sections.len()
            invariant
                self == old(self),
                start == old(self).next,
                self.wf(),
                start <= i <= self.sections.len(),
                forall|j: int| start <= j < i ==> all_ws(#[trigger] self.sections[j]@),
            decreases self.sections.len() - i,
        {
            let sec = chars_of(self.sections[i].as_str());
            let mut k: usize = 0;
            while k < sec.len() && is_whitespace(sec[k])
                invariant
                    k <= sec.len(),
                    forall|j: int| 0 <= j < k ==> is_ws(#[trigger] sec@[j]),
                decreases sec.len() - k,
            {
                k = k + 1;
            }
            if k < sec.len() {
                assert(!all_ws(sec@)) by {
                    assert(!is_ws(sec@[k as int]));
                }
                let sw = count_words(sec.as_slice());
                proof {
                    lemma_chunk_words_of(self.content@, views(self.sections@), Strategy::BySection, i as int);
                }
                let t = proportional_target(self.target, sw, self.words);
                let s = self.sections[i].clone();
                self.next = i;
                return DocStep::Cover(s, t);
            }
            i = i + 1;
        }
        self.next = i;
        let mut done: Vec<ProcessedItem> = Vec::new();
        std::mem::swap(&mut done, &mut self.items);
        DocStep::Finish(done)
    }

    /// A run over `content`, given what is stored for it. When the stored
    /// pairs are enough, the run asks to reuse (or upgrade) them and nothing
    /// is generated; otherwise it asks to cover the first section that is
    /// not whitespace only, or finishes with no pairs.
    pub fn start(content: String, stored: StoredQa) -> (r: (DocumentRun, DocStep))
        ensures
            r.0.wf(),
            r.0.content == content,
            r.0.words == word_count(content@),
            r.0.target == base_goal(r.0.words as int) + extra_goal(base_goal(r.0.words as int)),
            existing_choice(r.0.words as int, stored) == Existing::Reuse ==> r.1 == DocStep::Reuse,
            existing_choice(r.0.words as int, stored) == Existing::Upgrade ==> r.1 == DocStep::Upgrade,
            existing_choice(r.0.words as int, stored) == Existing::Generate ==> {
                &&& r.0.moved_on(r.1, 0)
                &&& r.1 is Cover ==> r.0.items@ == Seq::<ProcessedItem>::empty()
                &&& r.1 is Finish ==> r.1->Finish_0@ == Seq::<ProcessedItem>::empty()
            },
    {
        let words = count_words(chars_of(content.as_str()).as_slice());
        let targets = calculate_question_targets(words);
        let sections = split_into_sections_of(&content);
        let mut run = DocumentRun {
            content,
            sections,
            words,
            target: targets.generation_target,
            next: 0,
            items: Vec::new(),
        };
        let a = match check_existing_qa(words, stored) {
            Existing::Reuse => DocStep::Reuse,
            Existing::Upgrade => DocStep::Upgrade,
            Existing::Generate => run.advance(),
        };
        (run, a)
    }

    /// Takes the pairs of the section asked for last (`None` when covering
    /// it failed), adds them to those gathered, and moves on to the next
    /// section that is not whitespace only, or finishes with all the pairs.
    pub fn on_section(&mut self, outcome: Option<Vec<ProcessedItem>>) -> (a: DocStep)
        requires
            old(self).wf(),
            old(self).next < old(self).sections.len(),
        ensures
            final(self).wf(),
            final(self).content == old(self).content,
            final(self).sections == old(self).sections,
            final(self).target == old(self).target,
            final(self).moved_on(a, old(self).next + 1),
            a is Cover ==> final(self).items@ == old(self).items@ + yielded(outcome),
            a is Finish ==> a->Finish_0@ == old(self).items@ + yielded(outcome),
    {
        match outcome {
            Some(items) => {
                let mut items = items;
                self.items.append(&mut items);
            },
            None => {},
        }
        self.next = self.next + 1;
        self.advance()
    }
}

fn split_into_sections_of(content: &String) -> (r: Vec<String>)
    ensures
        is_segmentation(content@, views(r@), Strategy::BySection),
        chunks_in_place(content@, views(r@)),
        joined(views(r@)) == content@,
{
    split(content.as_str(), Strategy::BySection)
}

} // verus!
