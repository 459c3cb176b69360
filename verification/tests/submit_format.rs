use termquiz::model::{AckData, Answer, AnswerKind};
use termquiz::parser::parse_quiz;
use termquiz::state::Session;
use termquiz::submit::build_answers_yaml;

fn cs(s: &str) -> Vec<char> {
    s.chars().collect()
}

fn sv(v: &[char]) -> String {
    v.iter().collect()
}

const SAMPLE_QUIZ: &str = "\
---
title: Midterm Exam: Systems Programming
start: 2025-01-01T09:00:00-05:00
end: 2030-12-31T17:00:00-05:00
acknowledgment:
  required: true
  text: \"I affirm that this submission is my own work.\"
---

# Midterm Exam: Systems Programming

Read all questions carefully before answering.

## 1. Multiple Choice (Single)

Which system call creates a new process?

- [ ] exec
- [x] fork
- [ ] wait
- [ ] open

## 2. System Calls (Multi)

Which of these are system calls?

- [ ] read
- [x] write
- [ ] printf
- [x] open
- [ ] strlen

## 3. Short Answer

Which flag makes the listing include hidden files?

> short

## 4. Long Answer

Explain how the borrow checker prevents data races.

> long

:::hint

Think about aliasing and mutation.

:::

:::hint

Only one mutable reference may exist at a time.

:::

## 5. Upload Your Solution

Attach your implementation files.

> file(max_files: 3, max_size: 5MB, accept: .rs)

:::hint

Remember to include tests.

:::
";

fn single(label: char) -> Answer {
    Answer {
        answer_type: AnswerKind::Single,
        selected: Some(vec![label]),
        text: None,
        files: None,
    }
}

fn short_text(t: &str) -> Answer {
    Answer {
        answer_type: AnswerKind::Short,
        selected: None,
        text: Some(cs(t)),
        files: None,
    }
}

#[test]
fn test_build_response() {
    let content = cs(SAMPLE_QUIZ);
    let quiz = parse_quiz(&content, &cs("sample_quiz.md"), &cs("sha256:abc123")).unwrap();

    let mut state = Session::new(quiz);
    state.started_at = Some(cs("2025-01-02T10:01:23-05:00"));
    state.submitted_at = Some(cs("2025-01-02T11:23:45-05:00"));

    state.set_answer(1, single('b'));
    state.set_answer(3, short_text("-i"));

    let yaml = sv(&build_answers_yaml(&state));

    assert!(yaml.contains("quiz:"));
    assert!(yaml.contains("sample_quiz.md"));
    assert!(yaml.contains("submitted_at:"));
    assert!(yaml.contains("duration:"));

    assert!(yaml.contains("session:"));
    assert!(yaml.contains("quiz_file_hash:"));
    assert!(yaml.contains("current_question:"));

    assert!(yaml.contains("questions:"));

    assert!(yaml.contains("type: single"));
    assert!(yaml.contains("answer: b"));

    assert!(yaml.contains("type: short"));
    assert!(yaml.contains("answer: \"-i\""));

    let null_count = yaml.matches("answer: null").count();
    assert!(null_count >= 3, "Expected at least 3 null answers, got {}", null_count);
}

#[test]
fn test_commit_message() {
    let content = cs(SAMPLE_QUIZ);
    let quiz = parse_quiz(&content, &cs("sample_quiz.md"), &cs("sha256:abc123")).unwrap();

    let state = Session::new(quiz);

    let msg = sv(&termquiz::submit::build_commit_message(&state));
    assert!(msg.starts_with("termquiz: submit"));
    assert!(msg.contains("Questions: 5"));
}

#[test]
fn test_yaml_structure() {
    let content = cs(SAMPLE_QUIZ);
    let quiz = parse_quiz(&content, &cs("sample_quiz.md"), &cs("sha256:abc123")).unwrap();

    let mut state = Session::new(quiz);
    state.started_at = Some(cs("2025-01-02T10:00:00-05:00"));
    state.submitted_at = Some(cs("2025-01-02T11:22:34-05:00"));
    state.ack_data = Some(AckData {
        name: cs("Test Student"),
        agreed_at: cs("2025-01-02T10:00:05-05:00"),
        text_hash: cs("sha256:abc"),
    });

    state.set_answer(1, single('b'));
    state.set_answer(
        2,
        Answer {
            answer_type: AnswerKind::Multi,
            selected: Some(vec!['a', 'b', 'd']),
            text: None,
            files: None,
        },
    );
    state.set_answer(3, short_text("-i"));
    state.set_answer(
        4,
        Answer {
            answer_type: AnswerKind::Long,
            selected: None,
            text: Some(cs("The borrow checker ensures\nsafety at compile time.")),
            files: None,
        },
    );

    state.hints_revealed.insert(4, 1);
    state.done_marks.insert(1);
    state.flags.insert(3);

    let yaml = sv(&build_answers_yaml(&state));

    let parsed: serde_yaml::Value =
        serde_yaml::from_str(&yaml).expect("Output must be valid YAML");

    let quiz_node = &parsed["quiz"];
    assert_eq!(quiz_node["acknowledged"], serde_yaml::Value::Bool(true));
    assert_eq!(
        quiz_node["duration"],
        serde_yaml::Value::String("01:22:34".to_string())
    );

    let session = &parsed["session"];
    assert_eq!(session["current_question"], serde_yaml::Value::Number(0.into()));
    assert!(session["quiz_file_hash"].as_str().is_some());

    let questions = parsed["questions"].as_sequence().expect("questions must be a sequence");
    assert_eq!(questions.len(), 5);

    assert_eq!(questions[0]["type"], serde_yaml::Value::String("single".to_string()));
    assert_eq!(questions[0]["answer"], serde_yaml::Value::String("b".to_string()));
    assert_eq!(questions[0]["done"], serde_yaml::Value::Bool(true));
    assert!(questions[0]["choices"].as_mapping().is_some());

    assert_eq!(questions[1]["type"], serde_yaml::Value::String("multi".to_string()));
    let q2_answer = questions[1]["answer"].as_sequence().expect("multi answer must be a list");
    assert_eq!(q2_answer.len(), 3);

    assert_eq!(questions[2]["type"], serde_yaml::Value::String("short".to_string()));
    assert_eq!(questions[2]["answer"], serde_yaml::Value::String("-i".to_string()));
    assert_eq!(questions[2]["flagged"], serde_yaml::Value::Bool(true));

    assert_eq!(questions[3]["type"], serde_yaml::Value::String("long".to_string()));
    assert_eq!(questions[3]["hint_used"], serde_yaml::Value::Bool(true));
    let q4_text = questions[3]["answer"].as_str().expect("long answer must be a string");
    assert!(q4_text.contains("borrow checker"));

    assert_eq!(questions[4]["type"], serde_yaml::Value::String("file".to_string()));
    assert!(questions[4]["answer"].is_null());
}

#[test]
fn test_save_and_load_roundtrip() {
    let content = cs(SAMPLE_QUIZ);
    let quiz = parse_quiz(&content, &cs("sample_quiz.md"), &cs("sha256:abc123")).unwrap();

    let mut state = Session::new(quiz);
    state.started_at = Some(cs("2025-01-02T10:00:00-05:00"));
    state.current_question = 2;
    state.ack_data = Some(AckData {
        name: cs("Jane"),
        agreed_at: cs("2025-01-02T10:00:05-05:00"),
        text_hash: cs("sha256:abc"),
    });
    state.set_answer(1, single('b'));
    state.set_answer(3, short_text("-i"));
    state.done_marks.insert(1);
    state.flags.insert(3);
    state.hints_revealed.insert(4, 1);

    let yaml = build_answers_yaml(&state);

    let quiz2 = parse_quiz(&content, &cs("sample_quiz.md"), &cs("sha256:abc123")).unwrap();
    let mut state2 = Session::new(quiz2);
    let loaded = termquiz::persist::load_state(&mut state2, &yaml);
    assert!(loaded.is_ok());

    assert_eq!(state2.current_question, 2);
    assert_eq!(state2.started_at.as_ref().map(|v| sv(v)), Some("2025-01-02T10:00:00-05:00".to_string()));
    assert!(state2.ack_data.is_some());
    assert_eq!(sv(&state2.ack_data.as_ref().unwrap().name), "Jane");

    let a1 = state2.answers.get(1).expect("Q1 answer missing");
    assert_eq!(a1.selected.as_ref().unwrap(), &vec!['b']);

    let a3 = state2.answers.get(3).expect("Q3 answer missing");
    assert_eq!(sv(a3.text.as_ref().unwrap()), "-i");

    assert!(state2.done_marks.contains(1));
    assert!(state2.flags.contains(3));
    assert_eq!(state2.hints_revealed.get(4).copied(), Some(1));
}

#[test]
fn test_roundtrip_with_awkward_text() {
    let content = cs(SAMPLE_QUIZ);
    let quiz = parse_quiz(&content, &cs("sample_quiz.md"), &cs("sha256:abc123")).unwrap();

    let mut state = Session::new(quiz);
    let tricky = "a \"quoted\" line\\nnot an escape\nreal newline\tand tab";
    state.set_answer(
        4,
        Answer {
            answer_type: AnswerKind::Long,
            selected: None,
            text: Some(cs(tricky)),
            files: None,
        },
    );

    let yaml = build_answers_yaml(&state);

    let quiz2 = parse_quiz(&content, &cs("sample_quiz.md"), &cs("sha256:abc123")).unwrap();
    let mut state2 = Session::new(quiz2);
    assert!(termquiz::persist::load_state(&mut state2, &yaml).is_ok());
    let a4 = state2.answers.get(4).expect("Q4 answer missing");
    assert_eq!(sv(a4.text.as_ref().unwrap()), tricky);

    // The quoted scalar also reads back through a real YAML reader.
    let parsed: serde_yaml::Value = serde_yaml::from_str(&sv(&yaml)).unwrap();
    assert_eq!(parsed["questions"][3]["answer"].as_str().unwrap(), tricky);
}

#[test]
fn test_hash_guard_rejects_changed_document() {
    let content = cs(SAMPLE_QUIZ);
    let quiz = parse_quiz(&content, &cs("sample_quiz.md"), &cs("sha256:old")).unwrap();
    let mut state = Session::new(quiz);
    state.set_answer(1, single('b'));
    let yaml = build_answers_yaml(&state);

    // The document's bytes changed: the live quiz carries another hash.
    let quiz2 = parse_quiz(&content, &cs("sample_quiz.md"), &cs("sha256:new")).unwrap();
    let mut state2 = Session::new(quiz2);
    let r = termquiz::persist::load_state(&mut state2, &yaml);
    assert!(r.is_err());
    let msg: String = r.err().unwrap().message.iter().collect();
    assert!(msg.contains("changed"));
}

#[test]
fn test_corrupt_snapshot_rejected() {
    let content = cs(SAMPLE_QUIZ);
    let quiz = parse_quiz(&content, &cs("sample_quiz.md"), &cs("sha256:x")).unwrap();
    let mut state = Session::new(quiz);
    let r = termquiz::persist::load_state(&mut state, &cs("not a snapshot at all"));
    assert!(r.is_err());
}

#[test]
fn test_content_hash_known_vector() {
    // SHA-256 of the empty input, through the hashing front door.
    let h = sv(&termquiz::persist::compute_str_hash(&[]));
    assert_eq!(
        h,
        "sha256:e3b0c44298fc1c149afbf4c8996fb92427ae41e4649b934ca495991b7852b855"
    );
}

#[test]
fn test_compute_duration_exact() {
    let d = termquiz::submit::compute_duration(
        &Some(cs("2025-01-02T10:00:00-05:00")),
        &Some(cs("2025-01-02T11:22:34-05:00")),
    );
    assert_eq!(sv(&d), "01:22:34");
    let unk = termquiz::submit::compute_duration(&None, &Some(cs("2025-01-02T11:22:34-05:00")));
    assert_eq!(sv(&unk), "unknown");
}
