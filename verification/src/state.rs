//! The answer/session state machine: per-question progress, the live text
//! buffer, dialogs and screens, with the status invariants enforced.
//!
//! The invariants carried by `Session::wf`: an answer's tag matches its
//! question's kind, done marks and flags are mutually exclusive, a done mark
//! implies a committed answer, hint-reveal counts never exceed the hints on
//! offer, and every per-question record belongs to a question of the quiz.
use vstd::prelude::*;

use crate::model::{AckData, Answer, AnswerKind, Question, QuestionKind, Quiz};
use crate::store::{NumSet, QMap};
use crate::text::push_chars;

verus! {

#[derive(Clone, Copy, PartialEq, Eq, Structural, Debug)]
pub enum Screen {
    Waiting,
    Preamble,
    Acknowledgment,
    Working,
    Closed,
    AlreadySubmitted,
    Pushing,
    PushRetrying,
    SaveLocal,
    Done,
}

#[derive(Clone, Copy, PartialEq, Eq, Structural, Debug)]
pub enum Dialog {
    ConfirmSubmit,
    ConfirmQuit,
    ConfirmHint,
    DoneRequiresAnswer,
    TwoMinuteWarning,
    Help,
}

#[derive(Clone, Copy, PartialEq, Eq, Structural, Debug)]
pub enum InputMode {
    Navigation,
    ChoiceSelect,
    TextInput,
    AckNameInput,
}

#[derive(Clone, Copy, PartialEq, Eq, Structural, Debug)]
pub enum AckFocus {
    Name,
    Checkbox,
    Confirm,
    Cancel,
}

#[derive(Clone, Copy, PartialEq, Eq, Structural, Debug)]
pub enum ActivePanel {
    Sidebar,
    Main,
}

#[derive(Clone, Copy, PartialEq, Eq, Structural, Debug)]
pub enum MainFocus {
    Answer,
    Hint,
    DoneButton,
    FlagButton,
}

#[derive(Clone, Copy, PartialEq, Eq, Structural, Debug)]
pub enum QuestionStatus {
    Unread,
    NotAnswered,
    Answered,
    Done,
    Flagged,
}

/// How many questions currently sit in each status.
pub struct StatusCounts {
    pub unread: usize,
    pub not_answered: usize,
    pub answered: usize,
    pub done: usize,
    pub flagged: usize,
}

/// Whether an answer's payload is non-empty: only a multi-choice selection
/// can be empty while its entry exists.
pub open spec fn answer_nonempty(a: Answer) -> bool {
    match a.answer_type {
        AnswerKind::Multi => (a.selected->0)@.len() > 0,
        _ => true,
    }
}

/// Every answer belongs to a question of the quiz, is well-formed and
/// carries the tag its question's kind calls for.
pub open spec fn answers_ok(q: Quiz, m: Map<u32, Answer>) -> bool {
    &&& forall|n: u32| #[trigger] m.contains_key(n) ==> q.has_number(n)
    &&& forall|i: int|
        0 <= i < q.questions@.len() && m.contains_key((#[trigger] q.questions@[i]).number)
            ==> m[q.questions@[i].number].wf() && m[q.questions@[i].number].matches_kind(
            q.questions@[i].kind,
        )
}

/// Every hint-reveal count belongs to a question and stays within its hints.
pub open spec fn hints_ok(q: Quiz, m: Map<u32, usize>) -> bool {
    &&& forall|n: u32| #[trigger] m.contains_key(n) ==> q.has_number(n)
    &&& forall|i: int|
        0 <= i < q.questions@.len() && m.contains_key((#[trigger] q.questions@[i]).number) ==> 1
            <= m[q.questions@[i].number] <= q.questions@[i].hints@.len()
}

/// Inserting a well-formed, kind-matching answer for question `idx`
/// preserves the answer discipline.
pub proof fn lemma_answers_insert_ok(q: Quiz, m: Map<u32, Answer>, qn: u32, a: Answer, idx: int)
    requires
        q.wf(),
        answers_ok(q, m),
        0 <= idx < q.questions@.len(),
        q.questions@[idx].number == qn,
        a.wf(),
        a.matches_kind(q.questions@[idx].kind),
    ensures
        answers_ok(q, m.insert(qn, a)),
{
    let m2 = m.insert(qn, a);
    assert(q.has_number(qn));
    assert forall|i: int|
        0 <= i < q.questions@.len() && m2.contains_key(
            (#[trigger] q.questions@[i]).number,
        ) implies m2[q.questions@[i].number].wf() && m2[q.questions@[i].number].matches_kind(
        q.questions@[i].kind,
    ) by {
        if q.questions@[i].number == qn {
            assert(i == idx) by {
                if i != idx {
                    assert(q.questions@[i].number != q.questions@[idx].number);
                }
            }
        }
    }
}

/// Removing an entry preserves the answer discipline.
pub proof fn lemma_answers_remove_ok(q: Quiz, m: Map<u32, Answer>, qn: u32)
    requires
        answers_ok(q, m),
    ensures
        answers_ok(q, m.remove(qn)),
{
}

/// Raising a hint count within range preserves the hint discipline.
pub proof fn lemma_hints_insert_ok(q: Quiz, m: Map<u32, usize>, qn: u32, c: usize, idx: int)
    requires
        q.wf(),
        hints_ok(q, m),
        0 <= idx < q.questions@.len(),
        q.questions@[idx].number == qn,
        1 <= c <= q.questions@[idx].hints@.len(),
    ensures
        hints_ok(q, m.insert(qn, c)),
{
    let m2 = m.insert(qn, c);
    assert(q.has_number(qn));
    assert forall|i: int|
        0 <= i < q.questions@.len() && m2.contains_key(
            (#[trigger] q.questions@[i]).number,
        ) implies 1 <= m2[q.questions@[i].number] <= q.questions@[i].hints@.len() by {
        if q.questions@[i].number == qn {
            assert(i == idx) by {
                if i != idx {
                    assert(q.questions@[i].number != q.questions@[idx].number);
                }
            }
        }
    }
}

/// The mutable per-run record of progress and answers.
pub struct Session {
    pub screen: Screen,
    pub quiz: Quiz,
    pub current_question: usize,
    pub answers: QMap<Answer>,
    pub flags: NumSet,
    pub visited: NumSet,
    pub done_marks: NumSet,
    pub hints_revealed: QMap<usize>,
    pub input_mode: InputMode,
    pub dialog_stack: Vec<Dialog>,
    pub choice_cursor: usize,
    pub text_input: Vec<char>,
    pub text_cursor: usize,
    pub remaining_seconds: Option<i64>,
    pub started_at: Option<Vec<char>>,
    pub submitted_at: Option<Vec<char>>,
    pub should_quit: bool,
    pub ack_data: Option<AckData>,
    pub ack_name: Vec<char>,
    pub ack_checkbox: bool,
    pub ack_focus: AckFocus,
    pub push_attempt: u32,
    pub push_retry_secs: u32,
    pub push_elapsed_secs: u32,
    pub push_error: Vec<char>,
    pub sidebar_scroll: usize,
    pub question_scroll: usize,
    pub file_cursor: usize,
    pub active_panel: ActivePanel,
    pub main_focus: MainFocus,
    pub dragging_scrollbar: bool,
    pub status_filter: Vec<bool>,
}

impl Session {
    /// The quiz question at index `i`.
    pub open spec fn q_at(&self, i: int) -> Question {
        self.quiz.questions@[i]
    }

    /// The number of questions.
    pub open spec fn n_questions(&self) -> int {
        self.quiz.questions@.len() as int
    }

    /// Whether a current question exists.
    pub open spec fn has_current(&self) -> bool {
        self.n_questions() > 0
    }

    /// The current question's number, `0` when there are no questions.
    pub open spec fn spec_current_number(&self) -> u32 {
        if self.has_current() {
            self.q_at(self.current_question as int).number
        } else {
            0
        }
    }

    /// Whether `qnum` names the current question and it is a text (short or
    /// long) question, so the live buffer speaks for it.
    pub open spec fn is_current_text(&self, qnum: u32) -> bool {
        &&& self.has_current()
        &&& self.q_at(self.current_question as int).number == qnum
        &&& (self.q_at(self.current_question as int).kind is Short || self.q_at(
            self.current_question as int,
        ).kind is Long)
    }

    /// The answer map key discipline and the status invariants.
    pub open spec fn wf(&self) -> bool {
        &&& self.quiz.wf()
        &&& self.answers.wf()
        &&& self.flags.wf()
        &&& self.visited.wf()
        &&& self.done_marks.wf()
        &&& self.hints_revealed.wf()
        &&& self.n_questions() == 0 ==> self.current_question == 0
        &&& self.n_questions() > 0 ==> (self.current_question as int) < self.n_questions()
        &&& answers_ok(self.quiz, self.answers@)
        &&& forall|n: u32| #[trigger] self.done_marks@.contains(n) ==> self.answers@.contains_key(
            n,
        )
        &&& forall|n: u32|
            !(#[trigger] self.done_marks@.contains(n) && #[trigger] self.flags@.contains(n))
        &&& forall|n: u32| #[trigger] self.flags@.contains(n) ==> self.quiz.has_number(n)
        &&& forall|n: u32| #[trigger] self.visited@.contains(n) ==> self.quiz.has_number(n)
        &&& hints_ok(self.quiz, self.hints_revealed@)
        &&& self.text_cursor <= self.text_input@.len()
        &&& self.status_filter@.len() == 5
        &&& (self.started_at matches Some(t) ==> t@.len() > 0)
        &&& (self.submitted_at matches Some(t) ==> t@ != "unknown"@)
        &&& (self.ack_data matches Some(a) ==> a.name@.len() > 0)
    }

    /// A fresh session over a parsed quiz: nothing answered, nothing
    /// visited, the working screen up.
    pub fn new(quiz: Quiz) -> (r: Session)
        requires
            quiz.wf(),
        ensures
            r.wf(),
            r.quiz == quiz,
            r.screen == Screen::Working,
            r.current_question == 0,
            r.answers@ == Map::<u32, Answer>::empty(),
            r.flags@ == Set::<u32>::empty(),
            r.visited@ == Set::<u32>::empty(),
            r.done_marks@ == Set::<u32>::empty(),
            r.hints_revealed@ == Map::<u32, usize>::empty(),
            r.text_input@ == Seq::<char>::empty(),
            r.started_at is None,
            r.submitted_at is None,
            r.ack_data is None,
            r.dialog_stack@ == Seq::<Dialog>::empty(),
    {
        let mut status_filter: Vec<bool> = Vec::new();
        status_filter.push(true);
        status_filter.push(true);
        status_filter.push(true);
        status_filter.push(true);
        status_filter.push(true);
        Session {
            screen: Screen::Working,
            quiz,
            current_question: 0,
            answers: QMap::new(),
            flags: NumSet::new(),
            visited: NumSet::new(),
            done_marks: NumSet::new(),
            hints_revealed: QMap::new(),
            input_mode: InputMode::Navigation,
            dialog_stack: Vec::new(),
            choice_cursor: 0,
            text_input: Vec::new(),
            text_cursor: 0,
            remaining_seconds: None,
            started_at: None,
            submitted_at: None,
            should_quit: false,
            ack_data: None,
            ack_name: Vec::new(),
            ack_checkbox: false,
            ack_focus: AckFocus::Name,
            push_attempt: 0,
            push_retry_secs: 0,
            push_elapsed_secs: 0,
            push_error: Vec::new(),
            sidebar_scroll: 0,
            question_scroll: 0,
            file_cursor: 0,
            active_panel: ActivePanel::Main,
            main_focus: MainFocus::Answer,
            dragging_scrollbar: false,
            status_filter,
        }
    }

    /// The current question, if any.
    pub fn current_question(&self) -> (r: Option<&Question>)
        ensures
            match r {
                Some(q) => (self.current_question as int) < self.n_questions() && *q == self.q_at(
                    self.current_question as int,
                ),
                None => (self.current_question as int) >= self.n_questions(),
            },
            self.wf() ==> (r is Some <==> self.has_current()),
    {
        if self.current_question < self.quiz.questions.len() {
            Some(&self.quiz.questions[self.current_question])
        } else {
            None
        }
    }

    /// The current question's number, `0` when there are no questions.
    pub fn current_question_number(&self) -> (r: u32)
        requires
            self.wf(),
        ensures
            r == self.spec_current_number(),
    {
        match self.current_question() {
            Some(q) => q.number,
            None => 0,
        }
    }

    /// The status precedence: Done > Flagged > Answered > NotAnswered >
    /// Unread, with the live buffer speaking for the current text question.
    pub open spec fn spec_status(&self, qnum: u32) -> QuestionStatus {
        let ict = self.is_current_text(qnum);
        let current_text_empty = ict && self.text_input@.len() == 0;
        if !current_text_empty && self.done_marks@.contains(qnum) {
            QuestionStatus::Done
        } else if self.flags@.contains(qnum) {
            QuestionStatus::Flagged
        } else if ict && self.text_input@.len() > 0 {
            QuestionStatus::Answered
        } else if !ict && self.answers@.contains_key(qnum) {
            QuestionStatus::Answered
        } else if self.visited@.contains(qnum) {
            QuestionStatus::NotAnswered
        } else {
            QuestionStatus::Unread
        }
    }

    pub fn question_status(&self, qnum: u32) -> (r: QuestionStatus)
        requires
            self.wf(),
        ensures
            r == self.spec_status(qnum),
    {
        let ict = match self.current_question() {
            Some(q) => q.number == qnum && match q.kind {
                QuestionKind::Short | QuestionKind::Long => true,
                _ => false,
            },
            None => false,
        };
        let current_text_empty = ict && self.text_input.len() == 0;
        if !current_text_empty && self.done_marks.contains(qnum) {
            QuestionStatus::Done
        } else if self.flags.contains(qnum) {
            QuestionStatus::Flagged
        } else if ict && self.text_input.len() > 0 {
            QuestionStatus::Answered
        } else if !ict && self.answers.contains_key(qnum) {
            QuestionStatus::Answered
        } else if self.visited.contains(qnum) {
            QuestionStatus::NotAnswered
        } else {
            QuestionStatus::Unread
        }
    }

    /// How many of the first `i` questions sit in status `st`.
    pub open spec fn count_status(&self, st: QuestionStatus, i: int) -> int
        decreases i,
    {
        if i <= 0 {
            0
        } else {
            self.count_status(st, i - 1) + if self.spec_status(self.q_at(i - 1).number) == st {
                1int
            } else {
                0int
            }
        }
    }

    /// Counts every question's status. These counts are the basis for
    /// progress reporting and the submission confirmation.
    #[verifier::loop_isolation(false)]
    pub fn status_counts(&self) -> (r: StatusCounts)
        requires
            self.wf(),
        ensures
            r.unread == self.count_status(QuestionStatus::Unread, self.n_questions()),
            r.not_answered == self.count_status(QuestionStatus::NotAnswered, self.n_questions()),
            r.answered == self.count_status(QuestionStatus::Answered, self.n_questions()),
            r.done == self.count_status(QuestionStatus::Done, self.n_questions()),
            r.flagged == self.count_status(QuestionStatus::Flagged, self.n_questions()),
    {
        let mut unread: usize = 0;
        let mut not_answered: usize = 0;
        let mut answered: usize = 0;
        let mut done: usize = 0;
        let mut flagged: usize = 0;
        let n = self.quiz.questions.len();
        let mut i: usize = 0;
        while i < n
            invariant
                0 <= i <= n,
                unread == self.count_status(QuestionStatus::Unread, i as int),
                not_answered == self.count_status(QuestionStatus::NotAnswered, i as int),
                answered == self.count_status(QuestionStatus::Answered, i as int),
                done == self.count_status(QuestionStatus::Done, i as int),
                flagged == self.count_status(QuestionStatus::Flagged, i as int),
                unread <= i && not_answered <= i && answered <= i && done <= i && flagged <= i,
            decreases n - i,
        {
            let qnum = self.quiz.questions[i].number;
            match self.question_status(qnum) {
                QuestionStatus::Unread => {
                    unread += 1;
                },
                QuestionStatus::NotAnswered => {
                    not_answered += 1;
                },
                QuestionStatus::Answered => {
                    answered += 1;
                },
                QuestionStatus::Done => {
                    done += 1;
                },
                QuestionStatus::Flagged => {
                    flagged += 1;
                },
            }
            i += 1;
        }
        StatusCounts { unread, not_answered, answered, done, flagged }
    }

    /// Whether a committed (or live) answer exists for the current
    /// question. A multi-choice entry whose selection was toggled empty
    /// counts as no answer.
    pub open spec fn spec_has_answer_now(&self) -> bool {
        if self.is_current_text(self.spec_current_number()) {
            self.text_input@.len() > 0
        } else {
            self.answers@.contains_key(self.spec_current_number()) && answer_nonempty(
                self.answers@[self.spec_current_number()],
            )
        }
    }

    /// Commits the live text buffer into the answer map: a non-empty buffer
    /// becomes the current text question's answer, an empty one clears the
    /// entry and its done mark. Other question kinds are untouched.
    pub fn save_current_text_input(&mut self)
        requires
            old(self).wf(),
        ensures
            final(self).wf(),
            ({
                let qn = old(self).spec_current_number();
                if old(self).is_current_text(qn) {
                    if old(self).text_input@.len() > 0 {
                        &&& final(self).answers@.contains_key(qn)
                        &&& final(self).answers@ == old(self).answers@.insert(
                            qn,
                            final(self).answers@[qn],
                        )
                        &&& final(self).answers@[qn].text matches Some(t) && t@ == old(
                            self,
                        ).text_input@
                        &&& final(self).answers@[qn].answer_type == (if old(self).q_at(
                            old(self).current_question as int,
                        ).kind is Short {
                            AnswerKind::Short
                        } else {
                            AnswerKind::Long
                        })
                        &&& final(self).done_marks@ == old(self).done_marks@
                    } else {
                        &&& final(self).answers@ == old(self).answers@.remove(qn)
                        &&& final(self).done_marks@ == old(self).done_marks@.remove(qn)
                    }
                } else {
                    final(self).answers@ == old(self).answers@ && final(self).done_marks@ == old(
                        self,
                    ).done_marks@
                }
            }),
            final(self).quiz == old(self).quiz,
            final(self).current_question == old(self).current_question,
            final(self).text_input@ == old(self).text_input@,
            final(self).text_cursor == old(self).text_cursor,
            final(self).flags@ == old(self).flags@,
            final(self).visited@ == old(self).visited@,
            final(self).hints_revealed@ == old(self).hints_revealed@,
            final(self).started_at == old(self).started_at,
            final(self).submitted_at == old(self).submitted_at,
            final(self).ack_data == old(self).ack_data,
            final(self).screen == old(self).screen,
            final(self).dialog_stack@ == old(self).dialog_stack@,
            final(self).status_filter@ == old(self).status_filter@,
            final(self).input_mode == old(self).input_mode,
            final(self).main_focus == old(self).main_focus,
    {
        let is_short: bool;
        let qn: u32;
        match self.current_question() {
            Some(q) => {
                qn = q.number;
                match q.kind {
                    QuestionKind::Short => {
                        is_short = true;
                    },
                    QuestionKind::Long => {
                        is_short = false;
                    },
                    _ => {
                        return ;
                    },
                }
            },
            None => {
                return ;
            },
        }
        if self.text_input.len() > 0 {
            let mut text: Vec<char> = Vec::new();
            push_chars(&mut text, self.text_input.as_slice());
            let a = Answer {
                answer_type: if is_short {
                    AnswerKind::Short
                } else {
                    AnswerKind::Long
                },
                selected: None,
                text: Some(text),
                files: None,
            };
            proof {
                assert(a.wf());
                lemma_answers_insert_ok(
                    self.quiz,
                    self.answers@,
                    qn,
                    a,
                    old(self).current_question as int,
                );
            }
            self.answers.insert(qn, a);
        } else {
            proof {
                lemma_answers_remove_ok(self.quiz, self.answers@, qn);
            }
            self.answers.remove(qn);
            self.done_marks.remove(qn);
        }
    }

    /// Loads the committed text of the current question into the live
    /// buffer, or clears it.
    pub fn load_text_input_for_current(&mut self)
        requires
            old(self).wf(),
        ensures
            final(self).wf(),
            ({
                let qn = old(self).spec_current_number();
                if old(self).has_current() && old(self).answers@.contains_key(qn) && old(
                    self,
                ).answers@[qn].text is Some {
                    final(self).text_input@ == (old(self).answers@[qn].text->0)@
                } else {
                    final(self).text_input@ == Seq::<char>::empty()
                }
            }),
            final(self).text_cursor == final(self).text_input@.len(),
            *final(self) == (Session {
                text_input: final(self).text_input,
                text_cursor: final(self).text_cursor,
                ..*old(self)
            }),
    {
        let qn = self.current_question_number();
        let has = self.current_question().is_some();
        if has {
            let found: Option<Vec<char>> = match self.answers.get(qn) {
                Some(a) => match &a.text {
                    Some(t) => {
                        let mut c: Vec<char> = Vec::new();
                        push_chars(&mut c, t.as_slice());
                        Some(c)
                    },
                    None => None,
                },
                None => None,
            };
            match found {
                Some(t) => {
                    self.text_cursor = t.len();
                    self.text_input = t;
                    return ;
                },
                None => {},
            }
        }
        self.text_input = Vec::new();
        self.text_cursor = 0;
        proof {
            assert(self.text_input@ =~= Seq::<char>::empty());
        }
    }

    /// Toggles the done mark of the current question. Marking done succeeds
    /// only while an answer exists (for the current text question, a
    /// non-empty live buffer); it then clears the flag. Unmarking always
    /// succeeds. On `false` nothing changes.
    pub fn toggle_done(&mut self) -> (r: bool)
        requires
            old(self).wf(),
        ensures
            final(self).wf(),
            ({
                let qn = old(self).spec_current_number();
                if old(self).done_marks@.contains(qn) {
                    &&& r == true
                    &&& final(self).done_marks@ == old(self).done_marks@.remove(qn)
                    &&& final(self).flags@ == old(self).flags@
                    &&& final(self).answers@ == old(self).answers@
                } else if !old(self).spec_has_answer_now() {
                    &&& r == false
                    &&& *final(self) == *old(self)
                } else {
                    &&& r == true
                    &&& final(self).done_marks@ == old(self).done_marks@.insert(qn)
                    &&& final(self).flags@ == old(self).flags@.remove(qn)
                    &&& final(self).answers@.contains_key(qn)
                }
            }),
            final(self).quiz == old(self).quiz,
            final(self).current_question == old(self).current_question,
            final(self).visited@ == old(self).visited@,
            final(self).hints_revealed@ == old(self).hints_revealed@,
            final(self).text_input@ == old(self).text_input@,
            final(self).started_at == old(self).started_at,
            final(self).submitted_at == old(self).submitted_at,
            final(self).ack_data == old(self).ack_data,
            final(self).screen == old(self).screen,
            final(self).status_filter@ == old(self).status_filter@,
            final(self).dialog_stack@ == old(self).dialog_stack@,
    {
        let qn = self.current_question_number();
        if self.done_marks.contains(qn) {
            self.done_marks.remove(qn);
            return true;
        }
        let is_text = match self.current_question() {
            Some(q) => match q.kind {
                QuestionKind::Short | QuestionKind::Long => true,
                _ => false,
            },
            None => false,
        };
        let has_answer: bool = if is_text {
            self.text_input.len() > 0
        } else {
            match self.answers.get(qn) {
                Some(a) => match a.answer_type {
                    AnswerKind::Multi => match &a.selected {
                        Some(sel) => sel.len() > 0,
                        None => false,
                    },
                    _ => true,
                },
                None => false,
            }
        };
        if !has_answer {
            return false;
        }
        self.save_current_text_input();
        self.done_marks.insert(qn);
        self.flags.remove(qn);
        proof {
            assert(self.answers@.contains_key(qn));
            assert(self.quiz.has_number(qn)) by {
                assert(old(self).has_current() || old(self).answers@.contains_key(qn));
                if old(self).has_current() {
                    assert(old(self).q_at(old(self).current_question as int).number == qn);
                }
            }
        }
        true
    }

    /// Toggles the flag of the current question; flagging clears any done
    /// mark. With no questions nothing changes.
    pub fn toggle_flag(&mut self)
        requires
            old(self).wf(),
        ensures
            final(self).wf(),
            ({
                let qn = old(self).spec_current_number();
                if !old(self).has_current() {
                    *final(self) == *old(self)
                } else if old(self).flags@.contains(qn) {
                    &&& final(self).flags@ == old(self).flags@.remove(qn)
                    &&& final(self).done_marks@ == old(self).done_marks@
                } else {
                    &&& final(self).flags@ == old(self).flags@.insert(qn)
                    &&& final(self).done_marks@ == old(self).done_marks@.remove(qn)
                }
            }),
            final(self).quiz == old(self).quiz,
            final(self).answers@ == old(self).answers@,
            final(self).current_question == old(self).current_question,
            final(self).visited@ == old(self).visited@,
            final(self).hints_revealed@ == old(self).hints_revealed@,
            final(self).text_input@ == old(self).text_input@,
            final(self).started_at == old(self).started_at,
            final(self).submitted_at == old(self).submitted_at,
            final(self).ack_data == old(self).ack_data,
            final(self).screen == old(self).screen,
            final(self).status_filter@ == old(self).status_filter@,
            final(self).dialog_stack@ == old(self).dialog_stack@,
    {
        if self.current_question().is_none() {
            return ;
        }
        let qn = self.current_question_number();
        if self.flags.contains(qn) {
            self.flags.remove(qn);
        } else {
            self.flags.insert(qn);
            self.done_marks.remove(qn);
        }
    }

    /// Whether `qnum` is effectively done: its done mark stands and, for the
    /// current text question, the live buffer is non-empty.
    pub fn is_done(&self, qnum: u32) -> (r: bool)
        requires
            self.wf(),
        ensures
            r == (self.done_marks@.contains(qnum) && !(self.is_current_text(qnum)
                && self.text_input@.len() == 0)),
    {
        if !self.done_marks.contains(qnum) {
            return false;
        }
        let ict = match self.current_question() {
            Some(q) => q.number == qnum && match q.kind {
                QuestionKind::Short | QuestionKind::Long => true,
                _ => false,
            },
            None => false,
        };
        !(ict && self.text_input.len() == 0)
    }

    pub fn is_flagged(&self, qnum: u32) -> (r: bool)
        requires
            self.wf(),
        ensures
            r == self.flags@.contains(qnum),
    {
        self.flags.contains(qnum)
    }

    /// Which filter slot a status reads.
    pub open spec fn spec_visible(&self, st: QuestionStatus) -> bool {
        match st {
            QuestionStatus::Done => self.status_filter@[0],
            QuestionStatus::Answered => self.status_filter@[1],
            QuestionStatus::Flagged => self.status_filter@[2],
            QuestionStatus::NotAnswered => self.status_filter@[3],
            QuestionStatus::Unread => self.status_filter@[4],
        }
    }

    pub fn is_status_visible(&self, status: QuestionStatus) -> (r: bool)
        requires
            self.wf(),
        ensures
            r == self.spec_visible(status),
    {
        match status {
            QuestionStatus::Done => self.status_filter[0],
            QuestionStatus::Answered => self.status_filter[1],
            QuestionStatus::Flagged => self.status_filter[2],
            QuestionStatus::NotAnswered => self.status_filter[3],
            QuestionStatus::Unread => self.status_filter[4],
        }
    }

    pub fn toggle_status_filter(&mut self, idx: usize)
        requires
            old(self).wf(),
        ensures
            final(self).wf(),
            idx < 5 ==> final(self).status_filter@ == old(self).status_filter@.update(
                idx as int,
                !old(self).status_filter@[idx as int],
            ),
            idx >= 5 ==> final(self).status_filter@ == old(self).status_filter@,
            *final(self) == (Session { status_filter: final(self).status_filter, ..*old(self) }),
    {
        if idx < 5 {
            let v = self.status_filter[idx];
            self.status_filter[idx] = !v;
        }
    }

    /// Whether the question at index `i` passes the status filter.
    pub open spec fn visible_at(&self, i: int) -> bool {
        self.spec_visible(self.spec_status(self.q_at(i).number))
    }

    /// Indices of the questions whose status passes the filter, in order.
    #[verifier::loop_isolation(false)]
    pub fn filtered_questions(&self) -> (r: Vec<usize>)
        requires
            self.wf(),
        ensures
            forall|j: int|
                0 <= j < r@.len() ==> (#[trigger] r@[j]) < self.n_questions() && self.visible_at(
                    r@[j] as int,
                ),
            forall|j1: int, j2: int| 0 <= j1 < j2 < r@.len() ==> r@[j1] < r@[j2],
            forall|i: int|
                0 <= i < self.n_questions() && #[trigger] self.visible_at(i) ==> r@.contains(
                    i as usize,
                ),
    {
        let n = self.quiz.questions.len();
        let mut r: Vec<usize> = Vec::new();
        let mut i: usize = 0;
        while i < n
            invariant
                0 <= i <= n,
                forall|j: int|
                    0 <= j < r@.len() ==> (#[trigger] r@[j]) < i && self.visible_at(r@[j] as int),
                forall|j1: int, j2: int| 0 <= j1 < j2 < r@.len() ==> r@[j1] < r@[j2],
                forall|k: int|
                    0 <= k < i && #[trigger] self.visible_at(k) ==> r@.contains(k as usize),
            decreases n - i,
        {
            let qnum = self.quiz.questions[i].number;
            let st = self.question_status(qnum);
            if self.is_status_visible(st) {
                let ghost prev = r@;
                r.push(i);
                proof {
                    assert(r@[r@.len() - 1] == i);
                    assert forall|k: int|
                        0 <= k < i + 1 && #[trigger] self.visible_at(k) implies r@.contains(
                        k as usize,
                    ) by {
                        if k < i {
                            assert(prev.contains(k as usize));
                            let j = choose|j: int| 0 <= j < prev.len() && prev[j] == k as usize;
                            assert(r@[j] == k as usize);
                        } else {
                            assert(r@[r@.len() - 1] == k as usize);
                        }
                    }
                }
            }
            i += 1;
        }
        r
    }

    /// Moves to the question at `idx`: commits the live buffer, marks the
    /// destination visited, and loads its committed text into the buffer.
    /// An out-of-range index changes nothing.
    pub fn navigate_to(&mut self, idx: usize)
        requires
            old(self).wf(),
        ensures
            final(self).wf(),
            idx >= old(self).n_questions() ==> *final(self) == *old(self),
            idx < old(self).n_questions() ==> {
                let oqn = old(self).spec_current_number();
                let dest = old(self).q_at(idx as int).number;
                &&& final(self).current_question == idx
                &&& final(self).visited@ == old(self).visited@.insert(dest)
                &&& final(self).quiz == old(self).quiz
                &&& final(self).flags@ == old(self).flags@
                &&& final(self).hints_revealed@ == old(self).hints_revealed@
                &&& final(self).main_focus == MainFocus::Answer
                // Leaving commits the pending live-text edit: a non-empty
                // buffer becomes the outgoing text question's answer, an
                // empty one clears its entry and done mark.
                &&& (if old(self).is_current_text(oqn) {
                    if old(self).text_input@.len() > 0 {
                        &&& final(self).answers@ == old(self).answers@.insert(
                            oqn,
                            final(self).answers@[oqn],
                        )
                        &&& final(self).answers@[oqn].text matches Some(t) && t@ == old(
                            self,
                        ).text_input@
                        &&& final(self).done_marks@ == old(self).done_marks@
                    } else {
                        &&& final(self).answers@ == old(self).answers@.remove(oqn)
                        &&& final(self).done_marks@ == old(self).done_marks@.remove(oqn)
                    }
                } else {
                    final(self).answers@ == old(self).answers@ && final(self).done_marks@ == old(
                        self,
                    ).done_marks@
                })
                // Arriving loads the destination's stored text into the
                // live buffer, or clears it.
                &&& final(self).text_input@ == (if final(self).answers@.contains_key(dest)
                    && final(self).answers@[dest].text is Some {
                    (final(self).answers@[dest].text->0)@
                } else {
                    Seq::<char>::empty()
                })
                &&& final(self).text_cursor == final(self).text_input@.len()
            },
    {
        if idx < self.quiz.questions.len() {
            self.save_current_text_input();
            self.current_question = idx;
            let qnum = self.quiz.questions[idx].number;
            proof {
                assert(self.q_at(idx as int).number == qnum);
                assert(self.quiz.has_number(qnum));
            }
            self.visited.insert(qnum);
            self.load_text_input_for_current();
            self.choice_cursor = 0;
            self.question_scroll = 0;
            self.file_cursor = 0;
            self.main_focus = MainFocus::Answer;
            self.update_input_mode();
        }
    }

    /// Sets the input mode the current question's kind calls for.
    pub fn update_input_mode(&mut self)
        requires
            old(self).wf(),
        ensures
            final(self).wf(),
            *final(self) == (Session { input_mode: final(self).input_mode, ..*old(self) }),
            old(self).has_current() ==> final(self).input_mode == (match old(self).q_at(
                old(self).current_question as int,
            ).kind {
                QuestionKind::SingleChoice(_) => InputMode::ChoiceSelect,
                QuestionKind::MultiChoice(_) => InputMode::ChoiceSelect,
                QuestionKind::Short => InputMode::TextInput,
                QuestionKind::Long => InputMode::TextInput,
                QuestionKind::File(_) => InputMode::Navigation,
            }),
            !old(self).has_current() ==> final(self).input_mode == old(self).input_mode,
    {
        let mode: Option<InputMode> = match self.current_question() {
            Some(q) => match q.kind {
                QuestionKind::SingleChoice(_) | QuestionKind::MultiChoice(_) => Some(
                    InputMode::ChoiceSelect,
                ),
                QuestionKind::Short | QuestionKind::Long => Some(InputMode::TextInput),
                QuestionKind::File(_) => Some(InputMode::Navigation),
            },
            None => None,
        };
        match mode {
            Some(m) => {
                self.input_mode = m;
            },
            None => {},
        }
    }

    /// Cycles the main panel's focus: Answer, Hint (while hints remain),
    /// Done button, Flag button, and back. Leaving the answer commits the
    /// live buffer.
    pub fn cycle_main_focus(&mut self)
        requires
            old(self).wf(),
        ensures
            final(self).wf(),
            final(self).quiz == old(self).quiz,
            final(self).main_focus == (match old(self).main_focus {
                MainFocus::Answer => if old(self).spec_has_unrevealed_hints() {
                    MainFocus::Hint
                } else {
                    MainFocus::DoneButton
                },
                MainFocus::Hint => MainFocus::DoneButton,
                MainFocus::DoneButton => MainFocus::FlagButton,
                MainFocus::FlagButton => MainFocus::Answer,
            }),
            final(self).flags@ == old(self).flags@,
            final(self).done_marks@ == old(self).done_marks@ || (old(self).main_focus
                is Answer && old(self).is_current_text(old(self).spec_current_number()) && old(
                self,
            ).text_input@.len() == 0 && final(self).done_marks@ == old(self).done_marks@.remove(
                old(self).spec_current_number(),
            )),
    {
        match self.main_focus {
            MainFocus::Answer => {
                let has = self.has_unrevealed_hints();
                self.save_current_text_input();
                self.input_mode = InputMode::Navigation;
                self.main_focus = if has {
                    MainFocus::Hint
                } else {
                    MainFocus::DoneButton
                };
            },
            MainFocus::Hint => {
                self.main_focus = MainFocus::DoneButton;
            },
            MainFocus::DoneButton => {
                self.main_focus = MainFocus::FlagButton;
            },
            MainFocus::FlagButton => {
                self.main_focus = MainFocus::Answer;
                self.update_input_mode();
            },
        }
    }

    /// Whether the current question still has hints to reveal.
    pub open spec fn spec_has_unrevealed_hints(&self) -> bool {
        &&& self.has_current()
        &&& self.q_at(self.current_question as int).hints@.len() > 0
        &&& (if self.hints_revealed@.contains_key(self.spec_current_number()) {
            (self.hints_revealed@[self.spec_current_number()] as int) < self.q_at(
                self.current_question as int,
            ).hints@.len()
        } else {
            true
        })
    }

    pub fn has_unrevealed_hints(&self) -> (r: bool)
        requires
            self.wf(),
        ensures
            r == self.spec_has_unrevealed_hints(),
    {
        match self.current_question() {
            Some(q) => {
                if q.hints.len() == 0 {
                    return false;
                }
                let qn = q.number;
                let revealed: usize = match self.hints_revealed.get(qn) {
                    Some(c) => *c,
                    None => 0,
                };
                if self.hints_revealed.contains_key(qn) {
                    revealed < q.hints.len()
                } else {
                    true
                }
            },
            None => false,
        }
    }

    /// Reveals the next hint of the current question, if one remains.
    pub fn reveal_hint(&mut self) -> (r: bool)
        requires
            old(self).wf(),
        ensures
            final(self).wf(),
            final(self).quiz == old(self).quiz,
            r == old(self).spec_has_unrevealed_hints(),
            r ==> final(self).hints_revealed@ == old(self).hints_revealed@.insert(
                old(self).spec_current_number(),
                (if old(self).hints_revealed@.contains_key(old(self).spec_current_number()) {
                    old(self).hints_revealed@[old(self).spec_current_number()] + 1
                } else {
                    1int
                }) as usize,
            ),
            !r ==> *final(self) == *old(self),
            final(self).answers@ == old(self).answers@,
            final(self).done_marks@ == old(self).done_marks@,
            final(self).flags@ == old(self).flags@,
            final(self).visited@ == old(self).visited@,
    {
        if !self.has_unrevealed_hints() {
            return false;
        }
        let qn = self.current_question_number();
        let hlen: usize = match self.current_question() {
            Some(q) => q.hints.len(),
            None => 0,
        };
        let revealed: usize = match self.hints_revealed.get(qn) {
            Some(c) => *c,
            None => 0,
        };
        proof {
            assert(self.q_at(self.current_question as int).number == qn);
            assert(hlen == self.q_at(self.current_question as int).hints@.len());
            assert(revealed < hlen) by {
                if self.hints_revealed@.contains_key(qn) {
                    assert(1 <= self.hints_revealed@[qn] <= self.q_at(
                        self.current_question as int,
                    ).hints@.len());
                }
            }
            lemma_hints_insert_ok(
                self.quiz,
                self.hints_revealed@,
                qn,
                (revealed + 1) as usize,
                self.current_question as int,
            );
        }
        self.hints_revealed.insert(qn, revealed + 1);
        true
    }

    /// The current question's single-choice list, if that is its kind.
    pub open spec fn current_single_choices(&self) -> Option<Seq<crate::model::Choice>> {
        if self.has_current() {
            match self.q_at(self.current_question as int).kind {
                QuestionKind::SingleChoice(cs) => Some(cs@),
                _ => None,
            }
        } else {
            None
        }
    }

    /// The current question's multi-choice list, if that is its kind.
    pub open spec fn current_multi_choices(&self) -> Option<Seq<crate::model::Choice>> {
        if self.has_current() {
            match self.q_at(self.current_question as int).kind {
                QuestionKind::MultiChoice(cs) => Some(cs@),
                _ => None,
            }
        } else {
            None
        }
    }

    /// Selects exactly one choice of the current single-choice question.
    pub fn select_single_choice(&mut self, idx: usize)
        requires
            old(self).wf(),
        ensures
            final(self).wf(),
            final(self).quiz == old(self).quiz,
            ({
                let qn = old(self).spec_current_number();
                match old(self).current_single_choices() {
                    Some(cs) => if (idx as int) < cs.len() {
                        &&& final(self).answers@ == old(self).answers@.insert(
                            qn,
                            final(self).answers@[qn],
                        )
                        &&& final(self).answers@[qn].answer_type == AnswerKind::Single
                        &&& final(self).answers@[qn].selected matches Some(sel) && sel@ == seq![
                            cs[idx as int].label,
                        ]
                    } else {
                        final(self).answers@ == old(self).answers@
                    },
                    None => final(self).answers@ == old(self).answers@,
                }
            }),
            final(self).done_marks@ == old(self).done_marks@,
            final(self).flags@ == old(self).flags@,
            final(self).visited@ == old(self).visited@,
            final(self).hints_revealed@ == old(self).hints_revealed@,
            final(self).text_input@ == old(self).text_input@,
            final(self).current_question == old(self).current_question,
            final(self).started_at == old(self).started_at,
            final(self).submitted_at == old(self).submitted_at,
            final(self).screen == old(self).screen,
    {
        let qn = self.current_question_number();
        let label: Option<char> = match self.current_question() {
            Some(q) => match &q.kind {
                QuestionKind::SingleChoice(choices) => {
                    if idx < choices.len() {
                        Some(choices[idx].label)
                    } else {
                        None
                    }
                },
                _ => None,
            },
            None => None,
        };
        match label {
            Some(lb) => {
                let mut sel: Vec<char> = Vec::new();
                sel.push(lb);
                let a = Answer {
                    answer_type: AnswerKind::Single,
                    selected: Some(sel),
                    text: None,
                    files: None,
                };
                proof {
                    assert(crate::text::is_lower(lb)) by {
                        let cq = self.current_question as int;
                        assert(self.q_at(cq).wf());
                        match self.q_at(cq).kind {
                            QuestionKind::SingleChoice(cs) => {
                                assert(cs@[idx as int].label == crate::model::choice_label(
                                    idx as int,
                                ));
                            },
                            _ => {},
                        }
                    }
                    assert(crate::text::all_lower(sel@)) by {
                        assert(sel@ =~= seq![lb]);
                    }
                    assert(a.wf());
                    lemma_answers_insert_ok(
                        self.quiz,
                        self.answers@,
                        qn,
                        a,
                        self.current_question as int,
                    );
                }
                self.answers.insert(qn, a);
            },
            None => {},
        }
    }

    /// Flips one label in the current multi-choice question's selection.
    pub fn toggle_multi_choice(&mut self, idx: usize)
        requires
            old(self).wf(),
        ensures
            final(self).wf(),
            final(self).quiz == old(self).quiz,
            ({
                let qn = old(self).spec_current_number();
                match old(self).current_multi_choices() {
                    Some(cs) => if (idx as int) < cs.len() {
                        let lb = cs[idx as int].label;
                        let prev = if old(self).answers@.contains_key(qn) && old(
                            self,
                        ).answers@[qn].selected is Some {
                            (old(self).answers@[qn].selected->0)@
                        } else {
                            Seq::<char>::empty()
                        };
                        &&& final(self).answers@ == old(self).answers@.insert(
                            qn,
                            final(self).answers@[qn],
                        )
                        &&& final(self).answers@[qn].answer_type == AnswerKind::Multi
                        &&& final(self).answers@[qn].selected matches Some(sel) && sel@ == (
                        if prev.contains(lb) {
                            prev.filter(|c: char| c != lb)
                        } else {
                            prev.push(lb)
                        })
                        // An emptied selection is no answer: its done mark
                        // clears at once.
                        &&& final(self).done_marks@ == (
                        if (final(self).answers@[qn].selected->0)@.len() == 0 {
                            old(self).done_marks@.remove(qn)
                        } else {
                            old(self).done_marks@
                        })
                    } else {
                        final(self).answers@ == old(self).answers@ && final(self).done_marks@
                            == old(self).done_marks@
                    },
                    None => final(self).answers@ == old(self).answers@ && final(self).done_marks@
                        == old(self).done_marks@,
                }
            }),
            final(self).flags@ == old(self).flags@,
            final(self).visited@ == old(self).visited@,
            final(self).hints_revealed@ == old(self).hints_revealed@,
            final(self).text_input@ == old(self).text_input@,
            final(self).current_question == old(self).current_question,
            final(self).started_at == old(self).started_at,
            final(self).submitted_at == old(self).submitted_at,
            final(self).screen == old(self).screen,
    {
        let qn = self.current_question_number();
        let label: Option<char> = match self.current_question() {
            Some(q) => match &q.kind {
                QuestionKind::MultiChoice(choices) => {
                    if idx < choices.len() {
                        Some(choices[idx].label)
                    } else {
                        None
                    }
                },
                _ => None,
            },
            None => None,
        };
        match label {
            Some(lb) => {
                let prev: Vec<char> = match self.answers.get(qn) {
                    Some(a) => match &a.selected {
                        Some(sel) => {
                            let mut c: Vec<char> = Vec::new();
                            push_chars(&mut c, sel.as_slice());
                            c
                        },
                        None => Vec::new(),
                    },
                    None => Vec::new(),
                };
                proof {
                    if !(old(self).answers@.contains_key(qn) && old(
                        self,
                    ).answers@[qn].selected is Some) {
                        assert(prev@ =~= Seq::<char>::empty());
                    }
                }
                let mut contains = false;
                let np = prev.len();
                let mut i: usize = 0;
                while i < np
                    invariant
                        0 <= i <= np,
                        np == prev@.len(),
                        contains == prev@.take(i as int).contains(lb),
                    decreases np - i,
                {
                    if prev[i] == lb {
                        contains = true;
                        proof {
                            assert(prev@.take(i + 1)[i as int] == lb);
                        }
                    }
                    proof {
                        assert(prev@.take(i + 1) =~= prev@.take(i as int).push(prev@[i as int]));
                        if prev@.take(i as int).contains(lb) {
                            let w = choose|w: int|
                                0 <= w < i && prev@.take(i as int)[w] == lb;
                            assert(prev@.take(i + 1)[w] == lb);
                        }
                    }
                    i += 1;
                }
                proof {
                    assert(prev@.take(np as int) =~= prev@);
                }
                let sel: Vec<char> = if contains {
                    let mut out: Vec<char> = Vec::new();
                    let mut j: usize = 0;
                    while j < np
                        invariant
                            0 <= j <= np,
                            np == prev@.len(),
                            out@ == prev@.take(j as int).filter(|c: char| c != lb),
                        decreases np - j,
                    {
                        proof {
                            assert(prev@.take(j + 1).drop_last() =~= prev@.take(j as int));
                            assert(prev@.take(j + 1).last() == prev@[j as int]);
                            reveal_with_fuel(Seq::filter, 2);
                        }
                        if prev[j] != lb {
                            out.push(prev[j]);
                        }
                        j += 1;
                    }
                    proof {
                        assert(prev@.take(np as int) =~= prev@);
                    }
                    out
                } else {
                    let mut out = prev;
                    out.push(lb);
                    out
                };
                let a = Answer {
                    answer_type: AnswerKind::Multi,
                    selected: Some(sel),
                    text: None,
                    files: None,
                };
                proof {
                    let cq = self.current_question as int;
                    assert(crate::text::is_lower(lb)) by {
                        assert(self.q_at(cq).wf());
                        match self.q_at(cq).kind {
                            QuestionKind::MultiChoice(cs) => {
                                assert(cs@[idx as int].label == crate::model::choice_label(
                                    idx as int,
                                ));
                            },
                            _ => {},
                        }
                    }
                    assert(crate::text::all_lower(prev@)) by {
                        if old(self).answers@.contains_key(qn) && old(
                            self,
                        ).answers@[qn].selected is Some {
                            assert(old(self).q_at(cq).number == qn);
                            assert(old(self).answers@[qn].wf());
                        }
                    }
                    assert(crate::text::all_lower(sel@)) by {
                        if prev@.contains(lb) {
                            let pred = |c: char| c != lb;
                            assert forall|i: int|
                                0 <= i < sel@.len() implies crate::text::is_lower(
                                #[trigger] sel@[i],
                            ) by {
                                assert(prev@.filter(pred).contains(sel@[i])) by {
                                    assert(sel@ == prev@.filter(pred));
                                }
                                prev@.lemma_filter_contains_rev(pred, sel@[i]);
                                let w = choose|w: int|
                                    0 <= w < prev@.len() && prev@[w] == sel@[i];
                                assert(crate::text::is_lower(prev@[w]));
                            }
                        } else {
                            assert(forall|i: int|
                                0 <= i < sel@.len() ==> #[trigger] sel@[i] == (if i < prev@.len() {
                                    prev@[i]
                                } else {
                                    lb
                                }));
                        }
                    }
                    assert(a.wf());
                    lemma_answers_insert_ok(
                        self.quiz,
                        self.answers@,
                        qn,
                        a,
                        self.current_question as int,
                    );
                }
                let emptied = match &a.selected {
                    Some(v) => v.len() == 0,
                    None => false,
                };
                self.answers.insert(qn, a);
                if emptied {
                    self.done_marks.remove(qn);
                }
            },
            None => {},
        }
    }

    /// Whether `label` is among the selected labels of `qnum`'s answer.
    #[verifier::loop_isolation(false)]
    pub fn is_choice_selected(&self, qnum: u32, label: char) -> (r: bool)
        requires
            self.wf(),
        ensures
            r == (self.answers@.contains_key(qnum) && self.answers@[qnum].selected is Some && (
            self.answers@[qnum].selected->0)@.contains(label)),
    {
        match self.answers.get(qnum) {
            Some(a) => match &a.selected {
                Some(sel) => {
                    let n = sel.len();
                    let mut i: usize = 0;
                    while i < n
                        invariant
                            0 <= i <= n,
                            n == sel@.len(),
                            forall|j: int| 0 <= j < i ==> sel@[j] != label,
                        decreases n - i,
                    {
                        if sel[i] == label {
                            proof {
                                assert((a.selected->0)@[i as int] == label);
                            }
                            return true;
                        }
                        i += 1;
                    }
                    false
                },
                None => false,
            },
            None => false,
        }
    }

    /// The file paths attached to `qnum`'s answer, empty if none.
    pub fn get_file_list(&self, qnum: u32) -> (r: Vec<Vec<char>>)
        requires
            self.wf(),
        ensures
            r@.map_values(|v: Vec<char>| v@) == (if self.answers@.contains_key(qnum)
                && self.answers@[qnum].files is Some {
                (self.answers@[qnum].files->0)@.map_values(|v: Vec<char>| v@)
            } else {
                Seq::<Seq<char>>::empty()
            }),
    {
        match self.answers.get(qnum) {
            Some(a) => match &a.files {
                Some(files) => {
                    let n = files.len();
                    let mut out: Vec<Vec<char>> = Vec::new();
                    let mut i: usize = 0;
                    while i < n
                        invariant
                            0 <= i <= n,
                            n == files@.len(),
                            out@.map_values(|v: Vec<char>| v@) == files@.map_values(
                                |v: Vec<char>| v@,
                            ).take(i as int),
                        decreases n - i,
                    {
                        let mut c: Vec<char> = Vec::new();
                        push_chars(&mut c, files[i].as_slice());
                        let ghost prevo = out@;
                        out.push(c);
                        proof {
                            assert(out@.map_values(|v: Vec<char>| v@) =~= prevo.map_values(
                                |v: Vec<char>| v@,
                            ).push(files@[i as int]@));
                            assert(files@.map_values(|v: Vec<char>| v@).take(i + 1)
                                =~= files@.map_values(|v: Vec<char>| v@).take(i as int).push(
                                files@[i as int]@,
                            ));
                        }
                        i += 1;
                    }
                    proof {
                        assert(files@.map_values(|v: Vec<char>| v@).take(n as int)
                            =~= files@.map_values(|v: Vec<char>| v@));
                    }
                    out
                },
                None => {
                    let r: Vec<Vec<char>> = Vec::new();
                    proof {
                        assert(r@.map_values(|v: Vec<char>| v@) =~= Seq::<Seq<char>>::empty());
                    }
                    r
                },
            },
            None => {
                let r: Vec<Vec<char>> = Vec::new();
                proof {
                    assert(r@.map_values(|v: Vec<char>| v@) =~= Seq::<Seq<char>>::empty());
                }
                r
            },
        }
    }

    /// Attaches a file path to `qnum`'s file answer, creating the entry.
    pub fn add_file(&mut self, qnum: u32, file_path: Vec<char>)
        requires
            old(self).wf(),
            old(self).quiz.has_number(qnum),
            ({
                // the question numbered qnum is a file question
                forall|i: int|
                    0 <= i < old(self).n_questions() && (#[trigger] old(self).q_at(i)).number
                        == qnum ==> old(self).q_at(i).kind is File
            }),
        ensures
            final(self).wf(),
            final(self).quiz == old(self).quiz,
            final(self).answers@.contains_key(qnum),
            final(self).answers@ == old(self).answers@.insert(qnum, final(self).answers@[qnum]),
            final(self).answers@[qnum].answer_type == AnswerKind::File,
            final(self).answers@[qnum].files matches Some(f) && f@.map_values(|v: Vec<char>| v@)
                == (if old(self).answers@.contains_key(qnum) && old(self).answers@[qnum].files
                is Some {
                (old(self).answers@[qnum].files->0)@.map_values(|v: Vec<char>| v@)
            } else {
                Seq::<Seq<char>>::empty()
            }).push(file_path@),
            final(self).done_marks@ == old(self).done_marks@,
            final(self).flags@ == old(self).flags@,
            final(self).visited@ == old(self).visited@,
            final(self).hints_revealed@ == old(self).hints_revealed@,
    {
        let mut files = self.get_file_list(qnum);
        let ghost prevf = files@.map_values(|v: Vec<char>| v@);
        files.push(file_path);
        proof {
            assert(files@.map_values(|v: Vec<char>| v@) =~= prevf.push(file_path@));
        }
        let a = Answer {
            answer_type: AnswerKind::File,
            selected: None,
            text: None,
            files: Some(files),
        };
        proof {
            assert(a.wf());
            let idx = choose|i: int|
                0 <= i < self.quiz.questions@.len() && (#[trigger] self.quiz.questions@[i]).number
                    == qnum;
            assert((old(self).q_at(idx)).number == qnum);
            assert(old(self).q_at(idx).kind is File);
            lemma_answers_insert_ok(self.quiz, self.answers@, qnum, a, idx);
        }
        self.answers.insert(qnum, a);
    }

    pub fn has_dialog(&self) -> (r: bool)
        ensures
            r == (self.dialog_stack@.len() > 0),
    {
        self.dialog_stack.len() > 0
    }

    pub fn top_dialog(&self) -> (r: Option<&Dialog>)
        ensures
            match r {
                Some(d) => self.dialog_stack@.len() > 0 && *d == self.dialog_stack@.last(),
                None => self.dialog_stack@.len() == 0,
            },
    {
        if self.dialog_stack.len() > 0 {
            Some(&self.dialog_stack[self.dialog_stack.len() - 1])
        } else {
            None
        }
    }

    pub fn push_dialog(&mut self, dialog: Dialog)
        requires
            old(self).wf(),
        ensures
            final(self).wf(),
            final(self).dialog_stack@ == old(self).dialog_stack@.push(dialog),
            *final(self) == (Session { dialog_stack: final(self).dialog_stack, ..*old(self) }),
    {
        self.dialog_stack.push(dialog);
    }

    /// Stores an answer for question `n`. For a short or long answer an
    /// empty text clears the entry and its done mark instead.
    pub fn set_answer(&mut self, n: u32, a: Answer)
        requires
            old(self).wf(),
            old(self).quiz.has_number(n),
            forall|i: int|
                0 <= i < old(self).n_questions() && (#[trigger] old(self).q_at(i)).number == n
                    ==> a.matches_kind(old(self).q_at(i).kind),
            a.wf() || ((a.answer_type == AnswerKind::Short || a.answer_type == AnswerKind::Long)
                && a.selected is None && a.files is None),
        ensures
            final(self).wf(),
            final(self).quiz == old(self).quiz,
            ({
                let empty_text = (a.answer_type == AnswerKind::Short || a.answer_type
                    == AnswerKind::Long) && (a.text is None || (a.text->0)@.len() == 0);
                if empty_text {
                    &&& final(self).answers@ == old(self).answers@.remove(n)
                    &&& final(self).done_marks@ == old(self).done_marks@.remove(n)
                } else {
                    &&& final(self).answers@ == old(self).answers@.insert(n, a)
                    &&& final(self).done_marks@ == old(self).done_marks@
                }
            }),
            final(self).flags@ == old(self).flags@,
            final(self).visited@ == old(self).visited@,
            final(self).hints_revealed@ == old(self).hints_revealed@,
            final(self).current_question == old(self).current_question,
            final(self).text_input@ == old(self).text_input@,
            final(self).started_at == old(self).started_at,
            final(self).submitted_at == old(self).submitted_at,
            final(self).ack_data == old(self).ack_data,
            final(self).screen == old(self).screen,
    {
        let is_text = match a.answer_type {
            AnswerKind::Short | AnswerKind::Long => true,
            _ => false,
        };
        let empty_text = is_text && (match &a.text {
            Some(t) => t.len() == 0,
            None => true,
        });
        if empty_text {
            self.answers.remove(n);
            self.done_marks.remove(n);
        } else {
            proof {
                assert(a.wf());
                let idx = choose|i: int|
                    0 <= i < old(self).quiz.questions@.len() && (
                    #[trigger] old(self).quiz.questions@[i]).number == n;
                assert(old(self).q_at(idx).number == n);
                lemma_answers_insert_ok(self.quiz, self.answers@, n, a, idx);
            }
            self.answers.insert(n, a);
        }
    }

    /// Inserts one character at the cursor of the live text buffer; an
    /// emptied buffer can no longer happen here, so no done mark changes.
    pub fn text_insert_char(&mut self, c: char)
        requires
            old(self).wf(),
        ensures
            final(self).wf(),
            final(self).text_input@ == old(self).text_input@.insert(
                old(self).text_cursor as int,
                c,
            ),
            final(self).text_cursor == old(self).text_cursor + 1,
            *final(self) == (Session {
                text_input: final(self).text_input,
                text_cursor: final(self).text_cursor,
                ..*old(self)
            }),
    {
        self.text_input.insert(self.text_cursor, c);
        let n = self.text_input.len();
        proof {
            assert(self.text_cursor < n);
        }
        self.text_cursor = self.text_cursor + 1;
    }

    /// Deletes the character before the cursor; when the buffer becomes
    /// empty the current question's done mark is cleared at once.
    pub fn text_backspace(&mut self)
        requires
            old(self).wf(),
        ensures
            final(self).wf(),
            old(self).text_cursor == 0 ==> final(self).text_input@ == old(self).text_input@
                && final(self).text_cursor == 0,
            old(self).text_cursor > 0 ==> final(self).text_input@ == old(
                self,
            ).text_input@.remove(old(self).text_cursor - 1) && final(self).text_cursor == old(
                self,
            ).text_cursor - 1,
            final(self).done_marks@ == (if final(self).text_input@.len() == 0 {
                old(self).done_marks@.remove(old(self).spec_current_number())
            } else {
                old(self).done_marks@
            }),
            final(self).answers@ == old(self).answers@,
            final(self).flags@ == old(self).flags@,
            final(self).quiz == old(self).quiz,
            final(self).current_question == old(self).current_question,
    {
        if self.text_cursor > 0 {
            self.text_cursor = self.text_cursor - 1;
            self.text_input.remove(self.text_cursor);
        }
        self.clear_done_if_emptied();
    }

    /// Deletes the character under the cursor, clearing the done mark when
    /// the buffer empties.
    pub fn text_delete(&mut self)
        requires
            old(self).wf(),
        ensures
            final(self).wf(),
            old(self).text_cursor < old(self).text_input@.len() ==> final(self).text_input@ == old(
                self,
            ).text_input@.remove(old(self).text_cursor as int),
            old(self).text_cursor >= old(self).text_input@.len() ==> final(self).text_input@
                == old(self).text_input@,
            final(self).text_cursor == old(self).text_cursor,
            final(self).done_marks@ == (if final(self).text_input@.len() == 0 {
                old(self).done_marks@.remove(old(self).spec_current_number())
            } else {
                old(self).done_marks@
            }),
            final(self).answers@ == old(self).answers@,
            final(self).flags@ == old(self).flags@,
            final(self).quiz == old(self).quiz,
    {
        if self.text_cursor < self.text_input.len() {
            self.text_input.remove(self.text_cursor);
        }
        self.clear_done_if_emptied();
    }

    /// The emptied-buffer rule: `done` may not stand while the live answer
    /// is empty.
    fn clear_done_if_emptied(&mut self)
        requires
            old(self).wf(),
        ensures
            final(self).wf(),
            final(self).done_marks@ == (if old(self).text_input@.len() == 0 {
                old(self).done_marks@.remove(old(self).spec_current_number())
            } else {
                old(self).done_marks@
            }),
            *final(self) == (Session { done_marks: final(self).done_marks, ..*old(self) }),
    {
        if self.text_input.len() == 0 {
            let qn = self.current_question_number();
            self.done_marks.remove(qn);
        }
    }

    /// Moves the live cursor, clamped to the buffer.
    pub fn set_text_cursor(&mut self, pos: usize)
        requires
            old(self).wf(),
        ensures
            final(self).wf(),
            final(self).text_cursor == (if pos <= old(self).text_input@.len() {
                pos as int
            } else {
                old(self).text_input@.len() as int
            }),
            *final(self) == (Session { text_cursor: final(self).text_cursor, ..*old(self) }),
    {
        if pos <= self.text_input.len() {
            self.text_cursor = pos;
        } else {
            self.text_cursor = self.text_input.len();
        }
    }

    /// Stamps the submission instant and moves to the pushing screen; the
    /// caller then freezes and publishes the document.
    pub fn begin_submit(&mut self, now: Vec<char>)
        requires
            old(self).wf(),
            now@ != "unknown"@,
        ensures
            final(self).wf(),
            final(self).submitted_at matches Some(t) && t@ == now@,
            final(self).screen == Screen::Pushing,
            *final(self) == (Session {
                submitted_at: final(self).submitted_at,
                screen: Screen::Pushing,
                ..*old(self)
            }),
    {
        self.submitted_at = Some(now);
        self.screen = Screen::Pushing;
    }

    /// Applies one clock event: ticks update the remaining time (and move a
    /// waiting session to the preamble at the opening instant), the
    /// two-minute warning raises its dialog once, and expiry asks the
    /// caller to submit. Returns whether submission must start now.
    pub fn on_timer_event(&mut self, ev: &crate::timer::TimerEvent) -> (submit_now: bool)
        requires
            old(self).wf(),
        ensures
            final(self).wf(),
            final(self).quiz == old(self).quiz,
            match *ev {
                crate::timer::TimerEvent::Tick(secs) => {
                    &&& !submit_now
                    &&& final(self).remaining_seconds == Some(secs)
                    &&& final(self).screen == (if old(self).screen == Screen::Waiting && secs <= 0 {
                        Screen::Preamble
                    } else {
                        old(self).screen
                    })
                },
                crate::timer::TimerEvent::TwoMinuteWarning => {
                    &&& !submit_now
                    &&& (old(self).screen == Screen::Working && old(self).dialog_stack@.len() == 0
                        ==> final(self).dialog_stack@ == old(self).dialog_stack@.push(
                        Dialog::TwoMinuteWarning,
                    ))
                },
                crate::timer::TimerEvent::TimeExpired => {
                    &&& final(self).remaining_seconds == Some(0i64)
                    &&& submit_now == (old(self).screen == Screen::Working)
                },
            },
    {
        match ev {
            crate::timer::TimerEvent::Tick(secs) => {
                self.remaining_seconds = Some(*secs);
                if self.screen == Screen::Waiting && *secs <= 0 {
                    self.screen = Screen::Preamble;
                }
                false
            },
            crate::timer::TimerEvent::TwoMinuteWarning => {
                if self.screen == Screen::Working && !self.has_dialog() {
                    self.push_dialog(Dialog::TwoMinuteWarning);
                }
                false
            },
            crate::timer::TimerEvent::TimeExpired => {
                if self.screen == Screen::Working {
                    self.save_current_text_input();
                    self.remaining_seconds = Some(0);
                    true
                } else {
                    self.remaining_seconds = Some(0);
                    false
                }
            },
        }
    }

    /// Applies one submission-worker event to the screen: success reaches
    /// the done screen (the caller then clears local persistence), a retry
    /// shows the countdown, a timeout falls back to the local copy, a
    /// cancellation returns to work, and a conflict ends in the
    /// already-submitted screen.
    pub fn on_push_event(&mut self, ev: crate::submit::PushEvent)
        requires
            old(self).wf(),
        ensures
            final(self).wf(),
            final(self).quiz == old(self).quiz,
            match ev {
                crate::submit::PushEvent::Success => final(self).screen == Screen::Done,
                crate::submit::PushEvent::Retrying { attempt, wait_secs, elapsed, .. } => {
                    &&& final(self).screen == Screen::PushRetrying
                    &&& final(self).push_attempt == attempt
                    &&& final(self).push_retry_secs == wait_secs
                    &&& final(self).push_elapsed_secs == elapsed
                },
                crate::submit::PushEvent::Timeout => final(self).screen == Screen::SaveLocal,
                crate::submit::PushEvent::Cancelled => final(self).screen == Screen::Working,
                crate::submit::PushEvent::Conflict(_) => final(self).screen
                    == Screen::AlreadySubmitted,
            },
    {
        match ev {
            crate::submit::PushEvent::Success => {
                self.screen = Screen::Done;
            },
            crate::submit::PushEvent::Retrying { attempt, wait_secs, elapsed, error } => {
                self.screen = Screen::PushRetrying;
                self.push_attempt = attempt;
                self.push_retry_secs = wait_secs;
                self.push_elapsed_secs = elapsed;
                self.push_error = error;
            },
            crate::submit::PushEvent::Timeout => {
                self.screen = Screen::SaveLocal;
            },
            crate::submit::PushEvent::Cancelled => {
                self.screen = Screen::Working;
            },
            crate::submit::PushEvent::Conflict(_) => {
                self.screen = Screen::AlreadySubmitted;
            },
        }
    }

    /// Confirms the consent gate: with a name of at least two characters
    /// and the box ticked, records who agreed, when, and the consent
    /// text's hash, then starts work.
    pub fn confirm_acknowledgment(&mut self, now: Vec<char>) -> (r: bool)
        requires
            old(self).wf(),
            now@.len() > 0,
            now@ != "unknown"@,
        ensures
            final(self).wf(),
            final(self).quiz == old(self).quiz,
            r == (old(self).ack_name@.len() >= 2 && old(self).ack_checkbox),
            r ==> (final(self).ack_data matches Some(a) && a.name@ == old(self).ack_name@
                && a.agreed_at@ == now@) && final(self).screen == Screen::Working,
            !r ==> *final(self) == *old(self),
    {
        if self.ack_name.len() >= 2 && self.ack_checkbox {
            let ack_text: Vec<char> = match &self.quiz.frontmatter.acknowledgment {
                Some(cfg) => match &cfg.text {
                    Some(t) => {
                        let mut c: Vec<char> = Vec::new();
                        push_chars(&mut c, t.as_slice());
                        c
                    },
                    None => Vec::new(),
                },
                None => Vec::new(),
            };
            let text_hash = crate::persist::compute_str_hash(ack_text.as_slice());
            let mut name: Vec<char> = Vec::new();
            push_chars(&mut name, self.ack_name.as_slice());
            let mut agreed_at: Vec<char> = Vec::new();
            push_chars(&mut agreed_at, now.as_slice());
            self.ack_data = Some(AckData { name, agreed_at, text_hash });
            self.screen = Screen::Working;
            self.input_mode = InputMode::Navigation;
            if self.started_at.is_none() {
                self.started_at = Some(now);
            }
            true
        } else {
            false
        }
    }

    pub fn pop_dialog(&mut self) -> (r: Option<Dialog>)
        requires
            old(self).wf(),
        ensures
            final(self).wf(),
            match r {
                Some(d) => old(self).dialog_stack@.len() > 0 && d == old(
                    self,
                ).dialog_stack@.last() && final(self).dialog_stack@ == old(
                    self,
                ).dialog_stack@.drop_last(),
                None => old(self).dialog_stack@.len() == 0 && final(self).dialog_stack@ == old(
                    self,
                ).dialog_stack@,
            },
            *final(self) == (Session { dialog_stack: final(self).dialog_stack, ..*old(self) }),
    {
        self.dialog_stack.pop()
    }
}


/// How many newlines precede `i` in `s`.
pub open spec fn count_nl(s: Seq<char>, i: int) -> int
    decreases i,
{
    if i <= 0 {
        0
    } else {
        count_nl(s, i - 1) + if s[i - 1] == '\n' {
            1int
        } else {
            0int
        }
    }
}

/// The cursor's visual row and column in a multi-line buffer: the row is
/// how many newlines precede it, the column its distance from the last
/// newline (the cursor is clamped to the text first).
#[verifier::loop_isolation(false)]
pub fn cursor_row_col(text: &[char], cursor: usize) -> (r: (usize, usize))
    ensures
        ({
            let pos = if cursor <= text@.len() {
                cursor as int
            } else {
                text@.len() as int
            };
            &&& r.0 == count_nl(text@, pos)
            &&& r.1 == pos - (crate::parser::rfind_ch(text@.take(pos), '\n') + 1)
        }),
{
    let n = text.len();
    let pos = if cursor <= n {
        cursor
    } else {
        n
    };
    let mut row: usize = 0;
    let mut last_nl: usize = 0;
    let mut seen_nl = false;
    let mut j: usize = 0;
    while j < pos
        invariant
            0 <= j <= pos <= n,
            row == count_nl(text@, j as int),
            row <= j,
            seen_nl ==> last_nl < j && text@[last_nl as int] == '\n' && (forall|k: int|
                last_nl < k < j ==> text@[k] != '\n'),
            !seen_nl ==> forall|k: int| 0 <= k < j ==> text@[k] != '\n',
        decreases pos - j,
    {
        if text[j] == '\n' {
            row = row + 1;
            last_nl = j;
            seen_nl = true;
        }
        j += 1;
    }
    proof {
        let pre = text@.take(pos as int);
        assert(forall|k: int| 0 <= k < pos ==> pre[k] == text@[k]);
        if seen_nl {
            crate::parser::lemma_rfind_ch_is(pre, '\n', last_nl as int);
        } else {
            crate::parser::lemma_rfind_ch_none(pre, '\n');
        }
    }
    if seen_nl {
        (row, pos - last_nl - 1)
    } else {
        (row, pos)
    }
}

/// Done marks and flags are mutually exclusive: in any well-formed session
/// — and every operation here keeps sessions well-formed — no question is
/// both done and flagged.
pub proof fn lemma_done_flag_exclusive(s: Session, n: u32)
    requires
        s.wf(),
    ensures
        !(s.done_marks@.contains(n) && s.flags@.contains(n)),
{
}

/// Done requires an answer: a well-formed session never marks a question
/// done without a committed answer for it.
pub proof fn lemma_done_requires_answer(s: Session, n: u32)
    requires
        s.wf(),
        s.done_marks@.contains(n),
    ensures
        s.answers@.contains_key(n),
{
}

} // verus!
