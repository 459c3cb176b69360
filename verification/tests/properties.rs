use termquiz::model::{Answer, AnswerKind};
use termquiz::parser::parse_quiz;
use termquiz::state::Session;
use termquiz::submit::{build_answers_yaml, Publisher, PushEvent, PushOutcome, PushPhase};
use termquiz::timer::{timer_step, TimerEvent};

fn cs(s: &str) -> Vec<char> {
    s.chars().collect()
}

fn sv(v: &[char]) -> String {
    v.iter().collect()
}

const SAMPLE_QUIZ: &str = "\
---
title: Midterm Exam: Systems Programming
start: 2025-01-01T09:00:00-05:00
end: 2030-12-31T17:00:00-05:00
---

# Midterm Exam: Systems Programming

Read all questions carefully before answering.

## 1. Multiple Choice (Single)

Which system call creates a new process?

- [ ] exec
- [x] fork
- [ ] wait
- [ ] open

## 2. System Calls (Multi)

Which of these are system calls?

- [ ] read
- [x] write
- [ ] printf
- [x] open
- [ ] strlen

## 3. Short Answer

Which flag makes the listing include hidden files?

> short

## 4. Long Answer

Explain how the borrow checker prevents data races.

> long

:::hint

Think about aliasing and mutation.

:::

:::hint

Only one mutable reference may exist at a time.

:::

## 5. Upload Your Solution

Attach your implementation files.

> file(max_files: 3, max_size: 5MB, accept: .rs)

:::hint

Remember to include tests.

:::
";

fn sample_session() -> Session {
    let quiz = parse_quiz(&cs(SAMPLE_QUIZ), &cs("sample_quiz.md"), &cs("sha256:t")).unwrap();
    Session::new(quiz)
}

#[test]
fn test_done_and_flag_never_both() {
    let mut s = sample_session();
    s.navigate_to(0);
    s.select_single_choice(1);
    // An arbitrary toggle sequence; after each step the marks stay exclusive.
    s.toggle_done();
    s.toggle_flag();
    s.toggle_flag();
    s.toggle_done();
    s.toggle_flag();
    for q in 1..=5u32 {
        assert!(!(s.done_marks.contains(q) && s.flags.contains(q)));
    }
    assert!(s.flags.contains(1));
    assert!(!s.done_marks.contains(1));
}

#[test]
fn test_done_requires_answer() {
    let mut s = sample_session();
    s.navigate_to(0);
    // Nothing answered yet: marking done must refuse and change nothing.
    assert_eq!(s.toggle_done(), false);
    assert!(!s.done_marks.contains(1));
    // After an answer it succeeds.
    s.select_single_choice(0);
    assert_eq!(s.toggle_done(), true);
    assert!(s.done_marks.contains(1));
}

#[test]
fn test_done_requires_live_buffer_for_text() {
    let mut s = sample_session();
    s.navigate_to(2);
    assert_eq!(s.toggle_done(), false);
    s.text_insert_char('x');
    assert_eq!(s.toggle_done(), true);
    // Emptying the live buffer clears the done mark at once.
    s.text_backspace();
    assert!(!s.done_marks.contains(3));
}

#[test]
fn test_retry_then_success_reaches_published() {
    let mut p = Publisher::new();
    let mut retry_events = 0u32;
    let mut waited = 0u32;

    // First push fails (transient).
    match p.record_outcome(PushOutcome::Failure, cs("NETWORK:down")) {
        PushEvent::Retrying { attempt, wait_secs, .. } => {
            retry_events += 1;
            assert_eq!(attempt, 1);
            assert_eq!(wait_secs, 2);
        }
        _ => panic!("expected a retry"),
    }
    while p.phase == PushPhase::Waiting {
        p.wait_tick();
        waited += 1;
    }

    // Second push fails too.
    match p.record_outcome(PushOutcome::Failure, cs("NETWORK:down")) {
        PushEvent::Retrying { attempt, wait_secs, .. } => {
            retry_events += 1;
            assert_eq!(attempt, 2);
            assert_eq!(wait_secs, 4);
        }
        _ => panic!("expected a retry"),
    }
    while p.phase == PushPhase::Waiting {
        p.wait_tick();
        waited += 1;
    }

    // Third push succeeds.
    match p.record_outcome(PushOutcome::Success, Vec::new()) {
        PushEvent::Success => {}
        _ => panic!("expected success"),
    }
    assert_eq!(p.phase, PushPhase::Published);
    assert_eq!(retry_events, 2);
    assert!(waited >= 2 + 4);
}

#[test]
fn test_conflict_short_circuits() {
    let mut p = Publisher::new();
    let ev = p.record_outcome(PushOutcome::Conflict, cs("CONFLICT:rejected"));
    match ev {
        PushEvent::Conflict(_) => {}
        _ => panic!("expected a conflict event"),
    }
    assert_eq!(p.phase, PushPhase::AlreadySubmitted);
    // Terminal: no retry was emitted and no wait is pending.
    assert_ne!(p.phase, PushPhase::Waiting);
    assert_ne!(p.phase, PushPhase::Publishing);
}

#[test]
fn test_backoff_doubles_and_caps() {
    let mut p = Publisher::new();
    let mut waits: Vec<u32> = Vec::new();
    for _ in 0..6 {
        match p.record_outcome(PushOutcome::Failure, cs("NETWORK:down")) {
            PushEvent::Retrying { wait_secs, .. } => waits.push(wait_secs),
            PushEvent::Timeout => break,
            _ => panic!("unexpected event"),
        }
        while p.phase == PushPhase::Waiting {
            p.wait_tick();
        }
    }
    assert_eq!(waits, vec![2, 4, 8, 16, 30, 30]);
}

#[test]
fn test_backoff_ceiling_reaches_local_fallback() {
    let mut p = Publisher::new();
    loop {
        match p.record_outcome(PushOutcome::Failure, cs("NETWORK:down")) {
            PushEvent::Retrying { .. } => {
                while p.phase == PushPhase::Waiting {
                    p.wait_tick();
                }
            }
            PushEvent::Timeout => break,
            _ => panic!("unexpected event"),
        }
    }
    assert_eq!(p.phase, PushPhase::LocalFallback);
    assert!(p.elapsed >= 600);
}

#[test]
fn test_cancel_returns_to_work() {
    let mut p = Publisher::new();
    match p.record_outcome(PushOutcome::Failure, cs("NETWORK:down")) {
        PushEvent::Retrying { .. } => {}
        _ => panic!("expected a retry"),
    }
    p.wait_tick();
    let ev = p.cancel();
    assert!(matches!(ev, PushEvent::Cancelled));
    assert_eq!(p.phase, PushPhase::Cancelled);

    let mut s = sample_session();
    s.on_push_event(ev);
    assert_eq!(s.screen, termquiz::state::Screen::Working);
}

#[test]
fn test_end_to_end_submission_document() {
    let mut s = sample_session();
    s.started_at = Some(cs("2025-01-02T10:00:00-05:00"));
    // Answer Q1 and Q3; mark Q1 done; flag Q3.
    s.navigate_to(0);
    s.select_single_choice(1);
    s.toggle_done();
    s.navigate_to(2);
    s.text_insert_char('-');
    s.text_insert_char('a');
    s.toggle_flag();
    // Submit: the live buffer commits, the submission instant is stamped.
    s.save_current_text_input();
    s.begin_submit(cs("2025-01-02T11:30:00-05:00"));
    let yaml = sv(&build_answers_yaml(&s));

    let null_count = yaml.matches("answer: null").count();
    assert_eq!(null_count, 3);
    assert!(yaml.contains("duration: \"01:30:00\""));
    assert!(yaml.contains("answer: b"));
    assert!(yaml.contains("answer: \"-a\""));
    assert!(yaml.contains("done: true"));
    assert!(yaml.contains("flagged: true"));
}

#[test]
fn test_status_precedence_and_counts() {
    let mut s = sample_session();
    s.navigate_to(0);
    s.select_single_choice(0);
    s.toggle_done();
    s.navigate_to(1);
    s.toggle_multi_choice(0);
    s.toggle_flag();
    let counts = s.status_counts();
    assert_eq!(counts.done, 1);
    assert_eq!(counts.flagged, 1);
    // Question 2 is current; 3..5 unread.
    assert_eq!(counts.unread, 3);
    assert_eq!(
        s.question_status(1),
        termquiz::state::QuestionStatus::Done
    );
    assert_eq!(
        s.question_status(2),
        termquiz::state::QuestionStatus::Flagged
    );
}

#[test]
fn test_multi_choice_toggles_membership() {
    let mut s = sample_session();
    s.navigate_to(1);
    s.toggle_multi_choice(0);
    s.toggle_multi_choice(2);
    assert!(s.is_choice_selected(2, 'a'));
    assert!(s.is_choice_selected(2, 'c'));
    s.toggle_multi_choice(0);
    assert!(!s.is_choice_selected(2, 'a'));
    assert!(s.is_choice_selected(2, 'c'));
}

#[test]
fn test_timer_step_events() {
    let (evs, warned) = timer_step(500, false);
    assert_eq!(evs.len(), 1);
    assert!(matches!(evs[0], TimerEvent::Tick(500)));
    assert!(!warned);

    let (evs, warned) = timer_step(100, false);
    assert_eq!(evs.len(), 2);
    assert!(matches!(evs[0], TimerEvent::TwoMinuteWarning));
    assert!(matches!(evs[1], TimerEvent::Tick(100)));
    assert!(warned);

    let (evs, _) = timer_step(0, true);
    assert_eq!(evs.len(), 1);
    assert!(matches!(evs[0], TimerEvent::TimeExpired));
}

#[test]
fn test_duration_formats() {
    assert_eq!(sv(&termquiz::timer::format_duration(3723)), "1h 2m 3s");
    assert_eq!(sv(&termquiz::timer::format_duration(0)), "0h 0m 0s");
    assert_eq!(sv(&termquiz::timer::format_wait_duration(0)), "now");
    assert_eq!(sv(&termquiz::timer::format_wait_duration(59)), "59s");
    assert_eq!(sv(&termquiz::timer::format_wait_duration(75)), "1m 15s");
    assert_eq!(sv(&termquiz::timer::format_wait_duration(3723)), "1h 02m 03s");
}

#[test]
fn test_git_helpers() {
    assert!(termquiz::git::has_response_in_history(&cs("abc123\n")));
    assert!(!termquiz::git::has_response_in_history(&cs("  \n")));
    assert!(termquiz::git::has_existing_submission(false, true));
    assert!(!termquiz::git::has_existing_submission(false, false));
    assert!(matches!(
        termquiz::git::classify_push_error(&cs("! [rejected] main -> main")),
        PushOutcome::Conflict
    ));
    assert!(matches!(
        termquiz::git::classify_push_error(&cs("could not resolve host")),
        PushOutcome::Failure
    ));
}

#[test]
fn test_source_helpers() {
    assert!(termquiz::source::is_git_url(&cs("git@example.com:a/b.git")));
    assert!(termquiz::source::is_git_url(&cs("https://example.com/a/b")));
    assert!(!termquiz::source::is_git_url(&cs("./local/dir")));
    assert_eq!(
        sv(&termquiz::source::repo_name_from_url(&cs(
            "https://example.com/team/exam.git"
        ))),
        "exam"
    );
}

#[test]
fn test_cursor_row_col() {
    let text = cs("ab\ncdef\ng");
    assert_eq!(termquiz::state::cursor_row_col(&text, 0), (0, 0));
    assert_eq!(termquiz::state::cursor_row_col(&text, 2), (0, 2));
    assert_eq!(termquiz::state::cursor_row_col(&text, 3), (1, 0));
    assert_eq!(termquiz::state::cursor_row_col(&text, 7), (1, 4));
    assert_eq!(termquiz::state::cursor_row_col(&text, 9), (2, 1));
}

#[test]
fn test_hint_reveal_bounded() {
    let mut s = sample_session();
    s.navigate_to(3);
    assert!(s.reveal_hint());
    assert!(s.reveal_hint());
    // Both hints shown: no third reveal.
    assert!(!s.reveal_hint());
    assert_eq!(s.hints_revealed.get(4).copied(), Some(2));
}

#[test]
fn test_file_answers_roundtrip() {
    let mut s = sample_session();
    s.add_file(5, cs("files/q5/main.rs"));
    s.add_file(5, cs("files/q5/lib.rs"));
    let yaml = build_answers_yaml(&s);

    let quiz2 = parse_quiz(&cs(SAMPLE_QUIZ), &cs("sample_quiz.md"), &cs("sha256:t")).unwrap();
    let mut s2 = Session::new(quiz2);
    assert!(termquiz::persist::load_state(&mut s2, &yaml).is_ok());
    let files = s2.get_file_list(5);
    assert_eq!(files.len(), 2);
    assert_eq!(sv(&files[0]), "files/q5/main.rs");
    assert_eq!(sv(&files[1]), "files/q5/lib.rs");
}

#[test]
fn test_set_answer_empty_text_clears_entry_and_done() {
    let mut s = sample_session();
    s.set_answer(
        3,
        Answer {
            answer_type: AnswerKind::Short,
            selected: None,
            text: Some(cs("-a")),
            files: None,
        },
    );
    s.navigate_to(2);
    assert!(s.toggle_done());
    s.navigate_to(0);
    assert!(s.done_marks.contains(3));
    s.set_answer(
        3,
        Answer { answer_type: AnswerKind::Short, selected: None, text: None, files: None },
    );
    assert!(s.answers.get(3).is_none());
    assert!(!s.done_marks.contains(3));
}

#[test]
fn test_status_filter_hides_questions() {
    let mut s = sample_session();
    s.navigate_to(0);
    s.select_single_choice(0);
    s.toggle_done();
    assert!(s.filtered_questions().contains(&0));
    // Hide the done slot.
    s.toggle_status_filter(0);
    assert!(!s.filtered_questions().contains(&0));
    assert!(s.filtered_questions().contains(&1));
}

#[test]
fn test_navigate_out_of_range_is_ignored() {
    let mut s = sample_session();
    s.navigate_to(1);
    s.navigate_to(99);
    assert_eq!(s.current_question, 1);
}

#[test]
fn test_navigation_restores_committed_text() {
    let mut s = sample_session();
    s.navigate_to(2);
    s.text_insert_char('o');
    s.text_insert_char('k');
    // Moving away commits the buffer; coming back reloads it.
    s.navigate_to(0);
    let a = s.answers.get(3).expect("committed answer missing");
    assert_eq!(sv(a.text.as_ref().unwrap()), "ok");
    s.navigate_to(2);
    assert_eq!(sv(&s.text_input), "ok");
}

#[test]
fn test_load_clamps_stored_position() {
    let quiz = parse_quiz(&cs(SAMPLE_QUIZ), &cs("sample_quiz.md"), &cs("sha256:t")).unwrap();
    let mut s = Session::new(quiz);
    s.navigate_to(2);
    let yaml = sv(&build_answers_yaml(&s));
    // The snapshot's navigation line carries an out-of-range index, as a
    // foreign writer might leave it.
    let edited = yaml.replace("\n  current_question: 2\n", "\n  current_question: 99\n");
    assert_ne!(yaml, edited);

    let quiz2 = parse_quiz(&cs(SAMPLE_QUIZ), &cs("sample_quiz.md"), &cs("sha256:t")).unwrap();
    let mut s2 = Session::new(quiz2);
    let r = termquiz::persist::load_state(&mut s2, &cs(&edited));
    assert!(r.is_ok());
    // Defensively clamped into range, everything else restored.
    assert_eq!(s2.current_question, 4);
    assert!(s2.visited.contains(3));
}

#[test]
fn test_empty_multi_selection_is_no_answer() {
    let mut s = sample_session();
    s.navigate_to(1);
    s.toggle_multi_choice(0);
    assert_eq!(s.toggle_done(), true);
    // Toggling the only label off empties the selection: the done mark
    // clears at once, and done cannot be set again.
    s.toggle_multi_choice(0);
    assert!(!s.done_marks.contains(2));
    assert_eq!(s.toggle_done(), false);
}

#[test]
fn test_load_rejected_leaves_session_fresh() {
    let quiz = parse_quiz(&cs(SAMPLE_QUIZ), &cs("sample_quiz.md"), &cs("sha256:t")).unwrap();
    let mut s = Session::new(quiz);
    s.navigate_to(0);
    s.select_single_choice(1);
    let r = termquiz::persist::load_state(&mut s, &cs("garbage"));
    assert!(r.is_err());
    // Nothing partially restored: the session is fresh over the quiz.
    assert!(s.answers.get(1).is_none());
    assert_eq!(s.current_question, 0);
}
