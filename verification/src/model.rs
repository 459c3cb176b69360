//! The typed quiz model: frontmatter, questions, choices and answers.
//!
//! Document text is carried as `Vec<char>`; timestamps keep both their
//! source text and the instant it denotes, in seconds.
use vstd::prelude::*;

use crate::timer::rfc3339_secs_of;

verus! {

/// A point in time: the RFC 3339 text from the document together with the
/// epoch seconds it denotes.
pub struct Timestamp {
    pub text: Vec<char>,
    pub secs: i64,
}

impl Timestamp {
    /// The parsed seconds really are what the text denotes.
    pub open spec fn wf(&self) -> bool {
        rfc3339_secs_of(self.text@) == Some(self.secs)
    }
}

/// The document's metadata block: the open/close window and the optional
/// consent gate.
pub struct Frontmatter {
    pub title: Option<Vec<char>>,
    pub start: Timestamp,
    pub end: Timestamp,
    pub acknowledgment: Option<AckConfig>,
}

impl Frontmatter {
    pub open spec fn wf(&self) -> bool {
        self.start.wf() && self.end.wf()
    }
}

/// The consent gate's configuration.
pub struct AckConfig {
    pub required: bool,
    pub text: Option<Vec<char>>,
}

/// A recorded consent: who agreed, when, and to which text.
pub struct AckData {
    pub name: Vec<char>,
    pub agreed_at: Vec<char>,
    pub text_hash: Vec<char>,
}

/// One block of a question's body, kept typed for faithful rendering.
pub enum BodyElement {
    Text(Vec<char>),
    Code(Vec<char>),
    Bold(Vec<char>),
    Italic(Vec<char>),
    InlineCode(Vec<char>),
    ListItem(Vec<char>),
}

/// One selectable choice of a single- or multi-choice question.
pub struct Choice {
    pub label: char,
    pub text: Vec<char>,
    pub marked: bool,
}

/// The label the `i`-th choice receives: `a`, `b`, `c`, ... in document
/// order.
pub open spec fn choice_label(i: int) -> char
    recommends
        0 <= i < 26,
{
    ((97 + i) as u8) as char
}

/// Choices are labelled `a`, `b`, `c`, ... in document order.
pub open spec fn choices_wf(cs: Seq<Choice>) -> bool {
    cs.len() <= 26 && forall|i: int| 0 <= i < cs.len() ==> (#[trigger] cs[i]).label
        == choice_label(i)
}

/// Constraints a file-answer question puts on its attachments.
pub struct FileConstraints {
    pub max_files: Option<u32>,
    pub max_size: Option<u64>,
    pub accept: Vec<Vec<char>>,
}

/// How a question is answered.
pub enum QuestionKind {
    SingleChoice(Vec<Choice>),
    MultiChoice(Vec<Choice>),
    Short,
    Long,
    File(FileConstraints),
}

impl QuestionKind {
    pub open spec fn wf(&self) -> bool {
        match self {
            QuestionKind::SingleChoice(cs) => choices_wf(cs@),
            QuestionKind::MultiChoice(cs) => choices_wf(cs@),
            _ => true,
        }
    }
}

/// One question: its heading number and title, body, kind, and hints.
pub struct Question {
    pub number: u32,
    pub title: Vec<char>,
    pub body_lines: Vec<BodyElement>,
    pub kind: QuestionKind,
    pub hints: Vec<Vec<char>>,
}

impl Question {
    pub open spec fn wf(&self) -> bool {
        self.kind.wf()
    }
}

/// The parsed document: immutable after parsing; `quiz_hash` is the
/// resumption identity.
pub struct Quiz {
    pub frontmatter: Frontmatter,
    pub title: Vec<char>,
    pub preamble: Vec<Vec<char>>,
    pub questions: Vec<Question>,
    pub quiz_file: Vec<char>,
    pub quiz_hash: Vec<char>,
}

impl Quiz {
    /// Question numbers are unique and every question is well-formed.
    pub open spec fn wf(&self) -> bool {
        &&& self.frontmatter.wf()
        &&& forall|i: int, j: int|
            0 <= i < j < self.questions@.len() ==> (#[trigger] self.questions@[i]).number != (
            #[trigger] self.questions@[j]).number
        &&& forall|i: int| 0 <= i < self.questions@.len() ==> (#[trigger] self.questions@[i]).wf()
    }

    /// Whether some question carries the number `n`.
    pub open spec fn has_number(&self, n: u32) -> bool {
        exists|i: int| 0 <= i < self.questions@.len() && (#[trigger] self.questions@[i]).number == n
    }
}

/// The discriminant of an answer's payload, aligned with the question kind.
#[derive(Clone, Copy, PartialEq, Eq, Structural)]
pub enum AnswerKind {
    Single,
    Multi,
    Short,
    Long,
    File,
}

/// A committed answer: exactly the payload its kind calls for is present.
pub struct Answer {
    pub answer_type: AnswerKind,
    pub selected: Option<Vec<char>>,
    pub text: Option<Vec<char>>,
    pub files: Option<Vec<Vec<char>>>,
}

impl Answer {
    /// The tag decides the payload: one selected label for single choice, a
    /// label list for multi choice, non-empty text for short or long, a
    /// non-empty file list for file answers.
    pub open spec fn wf(&self) -> bool {
        match self.answer_type {
            AnswerKind::Single => {
                &&& self.selected matches Some(v) && v@.len() == 1 && crate::text::all_lower(v@)
                &&& self.text is None
                &&& self.files is None
            },
            AnswerKind::Multi => {
                &&& self.selected matches Some(v) && crate::text::all_lower(v@)
                &&& self.text is None
                &&& self.files is None
            },
            AnswerKind::Short | AnswerKind::Long => {
                &&& self.selected is None
                &&& self.text matches Some(t) && t@.len() > 0
                &&& self.files is None
            },
            AnswerKind::File => {
                &&& self.selected is None
                &&& self.text is None
                &&& self.files matches Some(f) && f@.len() > 0
            },
        }
    }

    /// The tag an answer must carry to belong to a question of kind `k`.
    pub open spec fn matches_kind(&self, k: QuestionKind) -> bool {
        match k {
            QuestionKind::SingleChoice(_) => self.answer_type == AnswerKind::Single,
            QuestionKind::MultiChoice(_) => self.answer_type == AnswerKind::Multi,
            QuestionKind::Short => self.answer_type == AnswerKind::Short,
            QuestionKind::Long => self.answer_type == AnswerKind::Long,
            QuestionKind::File(_) => self.answer_type == AnswerKind::File,
        }
    }
}

} // verus!
