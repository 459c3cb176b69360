use termquiz::model::QuestionKind;
use termquiz::parser::parse_quiz;

fn cs(s: &str) -> Vec<char> {
    s.chars().collect()
}

fn sv(v: &[char]) -> String {
    v.iter().collect()
}

const SAMPLE_QUIZ: &str = "\
---
title: Midterm Exam: Systems Programming
start: 2025-01-01T09:00:00-05:00
end: 2030-12-31T17:00:00-05:00
acknowledgment:
  required: true
  text: \"I affirm that this submission is my own work.\"
---

# Midterm Exam: Systems Programming

Read all questions carefully before answering.

Good luck!

## 1. Multiple Choice (Single)

Which system call creates a new process?

- [ ] exec
- [x] fork
- [ ] wait
- [ ] open

## 2. System Calls (Multi)

Which of these are system calls?

- [ ] read
- [x] write
- [ ] printf
- [x] open
- [ ] strlen

## 3. Short Answer

Which flag makes the listing include hidden files?

> short

## 4. Long Answer

Explain how the borrow checker prevents data races.

> long

:::hint

Think about aliasing and mutation.

:::

:::hint

Only one mutable reference may exist at a time.

:::

## 5. Upload Your Solution

Attach your implementation files.

> file(max_files: 3, max_size: 5MB, accept: .rs)

:::hint

Remember to include tests.

:::
";

#[test]
fn test_parse_sample_quiz() {
    let content = cs(SAMPLE_QUIZ);
    let quiz = parse_quiz(&content, &cs("sample_quiz.md"), &cs("sha256:test")).unwrap();

    assert_eq!(sv(&quiz.title), "Midterm Exam: Systems Programming");
    assert_eq!(quiz.questions.len(), 5);

    let q1 = &quiz.questions[0];
    assert_eq!(q1.number, 1);
    assert!(sv(&q1.title).contains("Multiple Choice (Single)"));
    match &q1.kind {
        QuestionKind::SingleChoice(choices) => {
            assert_eq!(choices.len(), 4);
            assert_eq!(sv(&choices[0].text), "exec");
            assert_eq!(sv(&choices[1].text), "fork");
            assert_eq!(choices[1].marked, true);
        }
        _ => panic!("Expected SingleChoice"),
    }

    let q2 = &quiz.questions[1];
    assert_eq!(q2.number, 2);
    match &q2.kind {
        QuestionKind::MultiChoice(choices) => {
            assert_eq!(choices.len(), 5);
        }
        _ => panic!("Expected MultiChoice"),
    }

    let q3 = &quiz.questions[2];
    assert_eq!(q3.number, 3);
    match &q3.kind {
        QuestionKind::Short => {}
        _ => panic!("Expected Short"),
    }

    let q4 = &quiz.questions[3];
    assert_eq!(q4.number, 4);
    match &q4.kind {
        QuestionKind::Long => {}
        _ => panic!("Expected Long"),
    }
    assert_eq!(q4.hints.len(), 2);

    let q5 = &quiz.questions[4];
    assert_eq!(q5.number, 5);
    match &q5.kind {
        QuestionKind::File(constraints) => {
            assert_eq!(constraints.max_files, Some(3));
            assert_eq!(constraints.max_size, Some(5 * 1024 * 1024));
            assert!(constraints.accept.iter().any(|a| sv(a) == ".rs"));
        }
        _ => panic!("Expected File"),
    }
    assert_eq!(q5.hints.len(), 1);
}

#[test]
fn test_frontmatter_parsing() {
    let content = cs(SAMPLE_QUIZ);
    let quiz = parse_quiz(&content, &cs("test.md"), &cs("sha256:test")).unwrap();

    assert!(quiz.frontmatter.acknowledgment.is_some());
    let ack = quiz.frontmatter.acknowledgment.as_ref().unwrap();
    assert!(ack.required);
    assert!(ack.text.is_some());
}

#[test]
fn test_preamble_parsing() {
    let content = cs(SAMPLE_QUIZ);
    let quiz = parse_quiz(&content, &cs("test.md"), &cs("sha256:test")).unwrap();

    assert!(!quiz.preamble.is_empty());
    assert!(sv(&quiz.preamble[0]).contains("Read all questions carefully"));
}

#[test]
fn test_duplicate_question_number_rejected() {
    let doc = "\
---
start: 2025-01-01T09:00:00-05:00
end: 2030-12-31T17:00:00-05:00
---

## 3. First

> short

## 3. Second

> short
";
    let r = parse_quiz(&cs(doc), &cs("dup.md"), &cs("sha256:x"));
    assert!(r.is_err());
}

#[test]
fn test_choice_labels_in_document_order() {
    let doc = "\
---
start: 2025-01-01T09:00:00-05:00
end: 2030-12-31T17:00:00-05:00
---

## 1. Pick One

- [ ] first
- [ ] second
- [x] third
- [ ] fourth
";
    let quiz = parse_quiz(&cs(doc), &cs("labels.md"), &cs("sha256:x")).unwrap();
    match &quiz.questions[0].kind {
        QuestionKind::SingleChoice(choices) => {
            assert_eq!(choices.len(), 4);
            assert_eq!(choices[0].label, 'a');
            assert_eq!(choices[1].label, 'b');
            assert_eq!(choices[2].label, 'c');
            assert_eq!(choices[3].label, 'd');
            assert_eq!(sv(&choices[2].text), "third");
        }
        _ => panic!("Expected SingleChoice"),
    }
}

#[test]
fn test_size_parsing() {
    assert_eq!(termquiz::parser::parse_size(&cs("5MB")), Some(5_242_880));
    assert_eq!(termquiz::parser::parse_size(&cs("2GB")), Some(2_147_483_648));
    assert_eq!(termquiz::parser::parse_size(&cs("100")), Some(100));
    assert_eq!(termquiz::parser::parse_size(&cs("3kb")), Some(3072));
    assert_eq!(termquiz::parser::parse_size(&cs("512B")), Some(512));
    assert_eq!(termquiz::parser::parse_size(&cs("oops")), None);
}

#[test]
fn test_missing_frontmatter_rejected() {
    let r = parse_quiz(&cs("# Just a title\n"), &cs("bad.md"), &cs("sha256:x"));
    assert!(r.is_err());
}

#[test]
fn test_bad_timestamp_rejected() {
    let doc = "\
---
start: not-a-time
end: 2030-12-31T17:00:00-05:00
---

## 1. Q

> short
";
    let r = parse_quiz(&cs(doc), &cs("bad.md"), &cs("sha256:x"));
    assert!(r.is_err());
}

#[test]
fn test_malformed_heading_rejected() {
    let doc = "\
---
start: 2025-01-01T09:00:00-05:00
end: 2030-12-31T17:00:00-05:00
---

## No Number Here

> short
";
    let r = parse_quiz(&cs(doc), &cs("bad.md"), &cs("sha256:x"));
    assert!(r.is_err());
}

#[test]
fn test_code_fence_hides_headings() {
    let doc = "\
---
start: 2025-01-01T09:00:00-05:00
end: 2030-12-31T17:00:00-05:00
---

## 1. Only Question

```
## 2. Not a question
```

> short
";
    let quiz = parse_quiz(&cs(doc), &cs("fence.md"), &cs("sha256:x")).unwrap();
    assert_eq!(quiz.questions.len(), 1);
}
