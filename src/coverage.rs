//! The recursive coverage controller: a chunk is tried whole, then by
//! heading, then by paragraph, until enough pairs come back.
use vstd::prelude::*;
use crate::attempt::ProcessedItem;
use crate::segment::{Strategy, is_segmentation, chunks_in_place, joined, split, lemma_chunk_words_of};
use crate::targets::{share_of, proportional_target, base_goal, extra_goal, calculate_question_targets};
use crate::text::{word_count, chars_of, count_words};

verus! {

/// Where the controller stands.
#[derive(Clone, Copy, Debug, PartialEq, Eq, Structural)]
pub enum Stage {
    /// Waiting for the attempt on the whole chunk.
    Whole,
    /// Waiting for the attempt on sub-chunk `next` of a split.
    Split(Strategy),
    /// Done: no more results are taken.
    Finished,
}

/// What the controller asks for next.
#[derive(Clone, Debug, PartialEq, Eq)]
pub enum CoverStep {
    /// Run the attempt loop on this text, asking for this many pairs, and
    /// hand back its result.
    Attempt(String, usize),
    /// The chunk is covered with these pairs.
    Done(Vec<ProcessedItem>),
    /// The attempt on the whole chunk failed: the chunk yields nothing.
    Failed,
}

/// The controller for one chunk.
pub struct Coverage {
    /// The chunk being covered.
    pub section: String,
    /// The number of pairs wanted for it.
    pub target: usize,
    /// Its word count.
    pub words: usize,
    pub stage: Stage,
    /// The sub-chunks of the current split.
    pub chunks: Vec<String>,
    /// The sub-chunk whose result is awaited.
    pub next: usize,
    /// The pairs gathered from the current split so far.
    pub acc: Vec<ProcessedItem>,
    /// The yield of the attempt on the whole chunk.
    pub best: Vec<ProcessedItem>,
}

/// The characters of each string, in order.
pub open spec fn views(cs: Seq<String>) -> Seq<Seq<char>> {
    cs.map_values(|c: String| c@)
}

/// `text` is a single chunk under `s`.
pub open spec fn unsplit(text: Seq<char>, s: Strategy) -> bool {
    is_segmentation(text, seq![text], s)
}

/// `a` finishes the chunk with exactly the pairs `items`.
pub open spec fn done_with(a: CoverStep, items: Seq<ProcessedItem>) -> bool {
    a matches CoverStep::Done(v) && v@ == items
}

/// `a` asks for an attempt on exactly the text `t`, for `n` pairs.
pub open spec fn asks_for(a: CoverStep, t: Seq<char>, n: int) -> bool {
    a matches CoverStep::Attempt(x, m) && x@ == t && m == n
}

/// The pairs an attempt brought: none when it failed.
pub open spec fn yielded(o: Option<Vec<ProcessedItem>>) -> Seq<ProcessedItem> {
    match o {
        Some(v) => v@,
        None => Seq::empty(),
    }
}

impl Coverage {
    pub open spec fn wf(self) -> bool {
        &&& self.words == word_count(self.section@)
        &&& match self.stage {
            Stage::Split(s) => {
                &&& s == Strategy::ByHeading || s == Strategy::ByParagraph
                &&& is_segmentation(self.section@, views(self.chunks@), s)
                &&& chunks_in_place(self.section@, views(self.chunks@))
                &&& self.chunks.len() > 1
                &&& self.next < self.chunks.len()
            },
            _ => true,
        }
    }

    /// The target of sub-chunk `i`: its share of the chunk's target, in
    /// proportion to its word count.
    pub open spec fn share(self, i: int) -> int {
        share_of(self.target as int, word_count(self.chunks[i]@) as int, self.words as int)
    }

    /// The controller has just opened a split under `s` and asks for its
    /// first sub-chunk.
    pub open spec fn opened(self, a: CoverStep, s: Strategy) -> bool {
        &&& self.stage == Stage::Split(s)
        &&& self.next == 0
        &&& self.acc@ == Seq::<ProcessedItem>::empty()
        &&& asks_for(a, self.chunks[0]@, self.share(0))
    }

    /// Coming from a level that fell short, the controller opens the first
    /// finer split that yields more than one sub-chunk, starting at `from`,
    /// and, when there is none, finishes with the whole chunk's yield `best`.
    pub open spec fn went_finer(self, a: CoverStep, from: Strategy, best: Seq<ProcessedItem>) -> bool {
        &&& self.stage != Stage::Finished ==> self.best@ == best
        &&& if from == Strategy::ByHeading {
            ||| self.opened(a, Strategy::ByHeading)
            ||| (unsplit(self.section@, Strategy::ByHeading) && self.opened(a, Strategy::ByParagraph))
            ||| (unsplit(self.section@, Strategy::ByHeading) && unsplit(self.section@, Strategy::ByParagraph)
                && self.stage == Stage::Finished && done_with(a, best))
        } else {
            ||| self.opened(a, Strategy::ByParagraph)
            ||| (unsplit(self.section@, Strategy::ByParagraph) && self.stage == Stage::Finished
                && done_with(a, best))
        }
    }

    /// A controller for `section` with target `target`; it first asks for an
    /// attempt on the whole section, for the generation target of its word
    /// count.
    pub fn start(section: String, target: usize) -> (r: (Coverage, CoverStep))
        ensures
            r.0.wf(),
            r.0.section == section,
            r.0.target == target,
            r.0.stage == Stage::Whole,
            r.1 == CoverStep::Attempt(
                section,
                (base_goal(word_count(section@) as int) + extra_goal(base_goal(word_count(section@) as int))) as usize,
            ),
    {
        let s2 = section.clone();
        let words = count_words(chars_of(section.as_str()).as_slice());
        let own = calculate_question_targets(words);
        (
            Coverage {
                section,
                target,
                words,
                stage: Stage::Whole,
                chunks: Vec::new(),
                next: 0,
                acc: Vec::new(),
                best: Vec::new(),
            },
            CoverStep::Attempt(s2, own.generation_target),
        )
    }

    /// Asks for an attempt on sub-chunk `i` of the current split.
    fn ask(&self, i: usize, s: Strategy) -> (a: CoverStep)
        requires
            self.words == word_count(self.section@),
            is_segmentation(self.section@, views(self.chunks@), s),
            chunks_in_place(self.section@, views(self.chunks@)),
            i < self.chunks.len(),
        ensures
            asks_for(a, self.chunks[i as int]@, self.share(i as int)),
    {
        let sw = count_words(chars_of(self.chunks[i].as_str()).as_slice());
        proof {
            lemma_chunk_words_of(self.section@, views(self.chunks@), s, i as int);
        }
        let n = proportional_target(self.target, sw, self.words);
        CoverStep::Attempt(self.chunks[i].clone(), n)
    }

    /// Opens the split of the section under `s`, or the next finer one, or
    /// finishes with the best yield.
    fn go_finer(&mut self, s: Strategy) -> (a: CoverStep)
        requires
            s == Strategy::ByHeading || s == Strategy::ByParagraph,
            old(self).words == word_count(old(self).section@),
        ensures
            final(self).wf(),
            final(self).section == old(self).section,
            final(self).target == old(self).target,
            final(self).words == old(self).words,
            final(self).went_finer(a, s, old(self).best@),
        decreases if s == Strategy::ByHeading { 1int } else { 0int },
    {
        let chunks = split(self.section.as_str(), s);
        if chunks.len() > 1 {
            self.chunks = chunks;
            self.stage = Stage::Split(s);
            self.next = 0;
            self.acc = Vec::new();
            return self.ask(0, s);
        }
        proof {
            let cs = views(chunks@);
            assert(cs.len() == 1);
            assert(cs.drop_last() =~= Seq::<Seq<char>>::empty());
            assert(joined(cs) == cs[0]);
            assert(cs =~= seq![self.section@]);
        }
        if s == Strategy::ByHeading {
            self.go_finer(Strategy::ByParagraph)
        } else {
            self.stage = Stage::Finished;
            let mut b: Vec<ProcessedItem> = Vec::new();
            std::mem::swap(&mut b, &mut self.best);
            CoverStep::Done(b)
        }
    }

    /// Takes the result of the attempt asked for last (`None` when it
    /// failed) and says what to do next.
    ///
    /// The whole chunk: a failure fails the chunk; a yield that meets the
    /// target is returned as is; a smaller one is kept and the chunk is split
    /// by heading (or, when that gives one sub-chunk, by paragraph; when that
    /// gives one sub-chunk too, the kept yield is returned). A sub-chunk: its
    /// pairs are added to those of its split, failures adding none, and the
    /// next sub-chunk is asked for with its share of the target. After the
    /// last sub-chunk of a heading split, its pairs are returned when they
    /// meet the target; otherwise they are dropped and the paragraph split
    /// follows. After the last sub-chunk of a paragraph split, its pairs are
    /// returned, whether or not they meet the target.
    pub fn on_result(&mut self, outcome: Option<Vec<ProcessedItem>>) -> (a: CoverStep)
        requires
            old(self).wf(),
            old(self).stage != Stage::Finished,
        ensures
            final(self).wf(),
            final(self).section == old(self).section,
            final(self).target == old(self).target,
            final(self).words == old(self).words,
            old(self).stage == Stage::Whole ==> match outcome {
                None => a == CoverStep::Failed && final(self).stage == Stage::Finished,
                Some(items) => if items.len() >= old(self).target {
                    a == CoverStep::Done(items) && final(self).stage == Stage::Finished
                } else {
                    final(self).went_finer(a, Strategy::ByHeading, items@)
                },
            },
            old(self).stage matches Stage::Split(s) ==> {
                let got = old(self).acc@ + yielded(outcome);
                let n = old(self).next + 1;
                if n < old(self).chunks.len() {
                    &&& final(self).stage == old(self).stage
                    &&& final(self).chunks@ == old(self).chunks@
                    &&& final(self).next == n
                    &&& final(self).acc@ == got
                    &&& final(self).best@ == old(self).best@
                    &&& asks_for(a, old(self).chunks[n]@, old(self).share(n))
                } else if s == Strategy::ByParagraph || got.len() >= old(self).target {
                    done_with(a, got) && final(self).stage == Stage::Finished
                } else {
                    final(self).went_finer(a, Strategy::ByParagraph, old(self).best@)
                }
            },
    {
        match self.stage {
            Stage::Whole => {
                match outcome {
                    None => {
                        self.stage = Stage::Finished;
                        CoverStep::Failed
                    },
                    Some(items) => {
                        if items.len() >= self.target {
                            self.stage = Stage::Finished;
                            CoverStep::Done(items)
                        } else {
                            self.best = items;
                            self.go_finer(Strategy::ByHeading)
                        }
                    },
                }
            },
            Stage::Split(s) => {
                match outcome {
                    Some(items) => {
                        let mut items = items;
                        self.acc.append(&mut items);
                    },
                    None => {},
                }
                let n = self.next + 1;
                if n < self.chunks.len() {
                    self.next = n;
                    return self.ask(n, s);
                }
                let mut got: Vec<ProcessedItem> = Vec::new();
                std::mem::swap(&mut got, &mut self.acc);
                if s == Strategy::ByParagraph || got.len() >= self.target {
                    self.stage = Stage::Finished;
                    return CoverStep::Done(got);
                }
                self.go_finer(Strategy::ByParagraph)
            },
            Stage::Finished => CoverStep::Failed,
        }
    }
}

/// When a heading split falls short and the chunk splits by paragraph into
/// more than one sub-chunk, the controller goes on to the paragraph split:
/// it asks for the first paragraph and returns none of the heading-level
/// pairs. (`on_result` ensures `went_finer(a, ByParagraph, ..)` after a
/// heading split below target.)
pub proof fn lemma_short_headings_go_to_paragraphs(c: Coverage, a: CoverStep, best: Seq<ProcessedItem>)
    requires
        c.went_finer(a, Strategy::ByParagraph, best),
        !unsplit(c.section@, Strategy::ByParagraph),
    ensures
        c.stage == Stage::Split(Strategy::ByParagraph),
        c.next == 0,
        c.acc@ == Seq::<ProcessedItem>::empty(),
        asks_for(a, c.chunks[0]@, c.share(0)),
{
}

} // verus!
