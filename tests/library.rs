use qagen::attempt::{
    prompt_mode, AttemptAction, AttemptLoop, FailureKind, GenerationFailure, ProcessedItem,
    PromptMode,
};
use qagen::coverage::{CoverStep, Coverage, Stage};
use qagen::document::{check_existing_qa, DocStep, DocumentRun, Existing, StoredQa};
use qagen::repair::{
    collapse_newlines, fix_backslashes, fix_truncation, remove_trailing_commas, sanitize_json,
    strip_code_fence,
};
use qagen::segment::{split, split_by_headings, split_by_paragraphs, split_into_sections, Strategy};
use qagen::targets::{calculate_question_targets, proportional_target};
use qagen::text::{chars_of, count_words};

fn items(n: usize, tag: &str) -> Vec<ProcessedItem> {
    (0..n)
        .map(|i| ProcessedItem {
            question: format!("{} q{}", tag, i),
            answer: format!("{} a{}", tag, i),
        })
        .collect()
}

fn words(text: &str) -> usize {
    count_words(&chars_of(text))
}

#[test]
fn targets_for_one_hundred_words() {
    let t = calculate_question_targets(100);
    assert_eq!(t.base_goal, 10);
    assert_eq!(t.generation_target, 13);
    assert_eq!(t.min_acceptable, 8);
}

#[test]
fn targets_for_five_words() {
    let t = calculate_question_targets(5);
    assert_eq!(t.base_goal, 2);
    assert_eq!(t.generation_target, 4);
    assert_eq!(t.min_acceptable, 2);
}

#[test]
fn targets_keep_their_order_for_many_counts() {
    for w in [0usize, 1, 9, 10, 11, 19, 20, 21, 55, 99, 1000, 12345, 1_000_000] {
        let t = calculate_question_targets(w);
        assert!(t.min_acceptable <= t.base_goal && t.base_goal <= t.generation_target);
        assert!(t.base_goal >= 2 && t.min_acceptable >= 2);
    }
    let t = calculate_question_targets(250);
    assert_eq!((t.base_goal, t.generation_target, t.min_acceptable), (25, 32, 20));
}

#[test]
fn proportional_target_rounds_up() {
    assert_eq!(proportional_target(13, 30, 100), 4);
    assert_eq!(proportional_target(10, 50, 100), 5);
    assert_eq!(proportional_target(10, 0, 100), 0);
    assert_eq!(proportional_target(7, 0, 0), 7);
}

#[test]
fn words_are_whitespace_delimited() {
    assert_eq!(words(""), 0);
    assert_eq!(words("   \n\t "), 0);
    assert_eq!(words("  one two\nthree\u{3000}four  "), 4);
}

#[test]
fn headings_open_chunks() {
    let text = "intro\n# A\ntext\n## B\nmore";
    let r = split_by_headings(text);
    assert_eq!(r, vec!["intro\n", "# A\ntext\n", "## B\nmore"]);
    assert_eq!(r.concat(), text);
}

#[test]
fn blank_lines_before_a_heading_stay_with_it() {
    let text = "\n\n# A\nx\n";
    assert_eq!(split_by_headings(text), vec![text]);
    let text = "\n\n# A\nx\n# B\n";
    assert_eq!(split_by_headings(text), vec!["\n\n# A\nx\n", "# B\n"]);
}

#[test]
fn no_heading_gives_the_whole_text() {
    assert_eq!(split_by_headings("plain\ntext"), vec!["plain\ntext"]);
    assert_eq!(split_by_headings(""), vec![""]);
    assert_eq!(split_by_headings("  \n \n"), vec!["  \n \n"]);
}

#[test]
fn two_blank_lines_open_a_paragraph() {
    let text = "a\n\n\nb\n";
    let r = split_by_paragraphs(text);
    assert_eq!(r, vec!["a\n\n", "\nb\n"]);
    assert_eq!(r.concat(), text);
}

#[test]
fn one_blank_line_does_not_split() {
    assert_eq!(split_by_paragraphs("a\n\nb\n"), vec!["a\n\nb\n"]);
}

#[test]
fn trailing_blank_lines_stay_with_the_last_paragraph() {
    let text = "a\n\n\n\n";
    assert_eq!(split_by_paragraphs(text), vec![text]);
    let text = "a\n\n\nb\n\n\n \n";
    let r = split_by_paragraphs(text);
    assert_eq!(r, vec!["a\n\n", "\nb\n\n\n \n"]);
}

#[test]
fn sections_open_at_first_and_second_level_headings() {
    let text = "# A\nx\n## B\ny\n### C\nz\n#tag\n";
    let r = split_into_sections(text);
    assert_eq!(r, vec!["# A\nx\n", "## B\ny\n### C\nz\n#tag\n"]);
    assert_eq!(r.concat(), text);
    assert_eq!(split_into_sections("#\n## \n"), vec!["#\n", "## \n"]);
}

#[test]
fn crlf_text_survives_every_strategy() {
    let text = "# A\r\nx\r\n\r\n\r\n# B\r\ny";
    for s in [Strategy::Whole, Strategy::ByHeading, Strategy::BySection, Strategy::ByParagraph] {
        assert_eq!(split(text, s).concat(), text);
    }
    assert_eq!(split(text, Strategy::BySection).len(), 2);
    assert_eq!(split(text, Strategy::Whole), vec![text]);
}

#[test]
fn code_fence_is_stripped_only_when_closed() {
    assert_eq!(strip_code_fence("```json\n{\"a\":1}\n```"), "{\"a\":1}");
    assert_eq!(strip_code_fence("```json\n{\"a\":1}"), "```json\n{\"a\":1}");
    assert_eq!(strip_code_fence("{\"a\":1}"), "{\"a\":1}");
}

#[test]
fn truncated_payload_keeps_last_complete_pair() {
    let raw = r#"{"questions":[{"question":"Q1","answer":"A1"},{"question":"Q2","ans"#;
    let fixed = sanitize_json(raw);
    assert_eq!(fixed, r#"{"questions":[{"question":"Q1","answer":"A1"}]}"#);
    let v: serde_json::Value = serde_json::from_str(&fixed).unwrap();
    assert_eq!(v["questions"].as_array().unwrap().len(), 1);
    assert_eq!(v["questions"][0]["answer"], "A1");
}

#[test]
fn truncated_mid_answer_drops_that_pair() {
    let raw = r#"{"questions":[{"question":"Q1","answer":"A1"},{"question":"Q2","answer":"A2 is cut"#;
    assert_eq!(sanitize_json(raw), r#"{"questions":[{"question":"Q1","answer":"A1"}]}"#);
}

#[test]
fn truncated_at_the_opening_of_a_pair_keeps_the_complete_ones() {
    let want = r#"{"questions":[{"question":"Q1","answer":"A1"}]}"#;
    assert_eq!(sanitize_json(r#"{"questions":[{"question":"Q1","answer":"A1"},{"#), want);
    assert_eq!(sanitize_json(r#"{"questions":[{"question":"Q1","answer":"A1"},{"quest"#), want);
    assert_eq!(sanitize_json(r#"{"questions":[{"question":"Q1","answer":"A1"},"#), want);
    let two = r#"{"questions":[{"question":"Q1","answer":"A1"},{"question":"Q2","answer":"A2"},{"question":"Q3"#;
    assert_eq!(
        fix_truncation(two),
        r#"{"questions":[{"question":"Q1","answer":"A1"},{"question":"Q2","answer":"A2"}]}"#
    );
}

#[test]
fn braces_inside_strings_do_not_end_a_pair() {
    let want = r#"{"questions":[{"question":"a","answer":"b"}]}"#;
    let raw = r#"{"questions":[{"question":"a","answer":"b"},{"question":"c","answer":"}x"#;
    assert_eq!(sanitize_json(raw), want);
    let raw = r#"{"questions":[{"question":"a","answer":"b"},{"question":"}a"#;
    assert_eq!(sanitize_json(raw), want);
    let raw = r#"{"questions":[{"question":"a","answer":"x\"}y"},{"question":"c"#;
    assert_eq!(
        fix_truncation(raw),
        r#"{"questions":[{"question":"a","answer":"x\"}y"}]}"#
    );
}

#[test]
fn truncation_falls_back_to_double_brace() {
    assert_eq!(fix_truncation("{\"a\":{\"b\":1}} tail"), "{\"a\":{\"b\":1}}");
    assert_eq!(fix_truncation("no braces here"), "no braces here");
    assert_eq!(fix_truncation("{\"a\":1}  \n"), "{\"a\":1}  \n");
}

#[test]
fn trailing_comma_is_removed() {
    let raw = r#"{"questions":[{"question":"Q","answer":"A"},]}"#;
    assert_eq!(sanitize_json(raw), r#"{"questions":[{"question":"Q","answer":"A"}]}"#);
    assert_eq!(remove_trailing_commas("[1, 2 ,\n ]"), "[1, 2 \n ]");
    assert_eq!(remove_trailing_commas("{\"a\":\"x,y\"}"), "{\"a\":\"x,y\"}");
}

#[test]
fn newline_runs_collapse_to_one_space() {
    assert_eq!(collapse_newlines("a \n  b\n\nc  d"), "a b c  d");
    assert_eq!(collapse_newlines("no newline"), "no newline");
}

#[test]
fn backslashes_become_slashes_except_before_quotes() {
    assert_eq!(fix_backslashes(r#"C:\path\"q\"#), r#"C:/path\"q/"#);
    assert_eq!(fix_backslashes(r#"a\\"b"#), r#"a/\"b"#);
}

#[test]
fn repair_twice_is_repair_once_on_samples() {
    for raw in [
        "```json\n{\"questions\":[{\"question\":\"Q\",\n \"answer\":\"C:\\\\x\"},\n]}\n```",
        r#"{"questions":[{"question":"Q1","answer":"A1"},{"question":"Q2","ans"#,
        "plain text",
    ] {
        let once = sanitize_json(raw);
        assert_eq!(sanitize_json(&once), once);
    }
}

#[test]
fn release_notes_heading_selects_its_framing() {
    assert_eq!(prompt_mode("intro\n# Release Notes\n- x"), PromptMode::ReleaseNotes);
    assert_eq!(prompt_mode("# Changelog\n"), PromptMode::ReleaseNotes);
    assert_eq!(prompt_mode("# Guide\nRelease Notes"), PromptMode::Documentation);
}

#[test]
fn attempt_loop_gives_up_after_three_failures() {
    let mut lp = AttemptLoop::new();
    assert_eq!(lp.on_result(Err(FailureKind::Backend)), AttemptAction::Retry);
    assert_eq!(lp.on_result(Err(FailureKind::Envelope)), AttemptAction::Retry);
    assert_eq!(
        lp.on_result(Err(FailureKind::Schema)),
        AttemptAction::GiveUp(GenerationFailure { reason: FailureKind::Schema, attempts: 3 })
    );
    assert!(lp.finished);
}

#[test]
fn attempt_loop_hands_items_back_as_they_are() {
    let mut lp = AttemptLoop::new();
    assert_eq!(lp.on_result(Err(FailureKind::Schema)), AttemptAction::Retry);
    assert_eq!(lp.on_result(Ok(items(2, "x"))), AttemptAction::Succeed(items(2, "x")));
    assert_eq!(lp.failures, 1);
}

#[test]
fn coverage_returns_a_whole_attempt_that_meets_the_target() {
    let (mut c, a) = Coverage::start("# A\nx\n# B\ny\n".to_string(), 3);
    assert_eq!(a, CoverStep::Attempt("# A\nx\n# B\ny\n".to_string(), 4));
    assert_eq!(c.on_result(Some(items(3, "w"))), CoverStep::Done(items(3, "w")));
    assert_eq!(c.stage, Stage::Finished);
}

#[test]
fn coverage_fails_with_the_whole_attempt() {
    let (mut c, _) = Coverage::start("text".to_string(), 3);
    assert_eq!(c.on_result(None), CoverStep::Failed);
}

#[test]
fn coverage_goes_to_paragraphs_when_headings_fall_short() {
    let section = "# A\na a\n\n\n# B\nb b\n";
    let (mut c, _) = Coverage::start(section.to_string(), 10);
    assert_eq!(c.on_result(Some(items(5, "w"))), CoverStep::Attempt("# A\na a\n\n\n".to_string(), 5));
    assert_eq!(c.on_result(Some(items(4, "h1"))), CoverStep::Attempt("# B\nb b\n".to_string(), 5));
    let step = c.on_result(Some(items(3, "h2")));
    assert_eq!(step, CoverStep::Attempt("# A\na a\n\n".to_string(), 5));
    assert_eq!(c.stage, Stage::Split(Strategy::ByParagraph));
    assert_eq!(c.on_result(Some(items(6, "first"))), CoverStep::Attempt("\n# B\nb b\n".to_string(), 5));
    let mut want = items(6, "first");
    want.extend(items(6, "second"));
    assert_eq!(c.on_result(Some(items(6, "second"))), CoverStep::Done(want));
}

#[test]
fn coverage_returns_paragraph_pairs_when_all_fall_short() {
    let section = "# A\na\n\n\n# B\nb\n";
    let (mut c, _) = Coverage::start(section.to_string(), 10);
    c.on_result(Some(items(2, "w")));
    c.on_result(Some(items(4, "h1")));
    assert_eq!(c.on_result(None), CoverStep::Attempt("# A\na\n\n".to_string(), 5));
    c.on_result(Some(items(1, "first")));
    let mut want = items(1, "first");
    want.extend(items(1, "second"));
    assert_eq!(c.on_result(Some(items(1, "second"))), CoverStep::Done(want));
}

#[test]
fn coverage_drops_the_heading_pairs_below_target() {
    let section = "# A\na a\n\n\n# B\nb b\n";
    let (mut c, _) = Coverage::start(section.to_string(), 10);
    c.on_result(Some(items(5, "w")));
    c.on_result(Some(items(4, "h1")));
    c.on_result(Some(items(3, "h2")));
    c.on_result(Some(items(2, "first")));
    assert_eq!(c.on_result(None), CoverStep::Done(items(2, "first")));
}

#[test]
fn coverage_asks_sub_chunks_for_their_share() {
    let section = "# A\none two three four five six seven eight\n# B\nnine ten\n";
    let (mut c, a) = Coverage::start(section.to_string(), 7);
    assert_eq!(a, CoverStep::Attempt(section.to_string(), 4));
    assert_eq!(
        c.on_result(Some(items(1, "w"))),
        CoverStep::Attempt("# A\none two three four five six seven eight\n".to_string(), 5)
    );
    assert_eq!(c.on_result(None), CoverStep::Attempt("# B\nnine ten\n".to_string(), 2));
}

#[test]
fn coverage_without_splits_returns_the_whole_attempt() {
    let (mut c, _) = Coverage::start("one line".to_string(), 10);
    assert_eq!(c.on_result(Some(items(4, "w"))), CoverStep::Done(items(4, "w")));
}

#[test]
fn stored_pairs_are_kept_when_enough() {
    let doc: String = (0..100).map(|i| format!("w{} ", i)).collect();
    let (_, step) = DocumentRun::start(doc.clone(), StoredQa::Lines(9));
    assert_eq!(step, DocStep::Reuse);
    let (_, step) = DocumentRun::start(doc.clone(), StoredQa::Legacy(8));
    assert_eq!(step, DocStep::Upgrade);
    let (_, step) = DocumentRun::start(doc.clone(), StoredQa::Lines(7));
    assert_eq!(step, DocStep::Cover(doc.clone(), 13));
}

#[test]
fn existing_check_follows_the_minimum() {
    assert_eq!(check_existing_qa(100, StoredQa::Lines(8)), Existing::Reuse);
    assert_eq!(check_existing_qa(100, StoredQa::Lines(7)), Existing::Generate);
    assert_eq!(check_existing_qa(0, StoredQa::Lines(0)), Existing::Generate);
    assert_eq!(check_existing_qa(100, StoredQa::Legacy(7)), Existing::Generate);
    assert_eq!(check_existing_qa(100, StoredQa::Absent), Existing::Generate);
}

#[test]
fn document_sections_are_covered_in_order() {
    let doc = "# A\none two three\n# B\nfour five six seven eight nine ten\n".to_string();
    let (mut run, step) = DocumentRun::start(doc, StoredQa::Absent);
    assert_eq!(step, DocStep::Cover("# A\none two three\n".to_string(), 2));
    let step = run.on_section(Some(items(2, "a")));
    assert_eq!(step, DocStep::Cover("# B\nfour five six seven eight nine ten\n".to_string(), 3));
    let step = run.on_section(None);
    assert_eq!(step, DocStep::Finish(items(2, "a")));
}

#[test]
fn blank_document_finishes_at_once() {
    let (_, step) = DocumentRun::start("  \n\n".to_string(), StoredQa::Absent);
    assert_eq!(step, DocStep::Finish(vec![]));
}
