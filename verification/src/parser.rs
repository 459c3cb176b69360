//! The document parser: turns the semi-structured quiz text into the typed
//! model, with no side effects.
//!
//! The grammar is line-based: headings (`#`, `##`), block quotes (`>`),
//! checkbox and plain list items, fenced code blocks, hint blocks
//! (`:::hint` ... `:::`) and paragraphs. Each question section's content is
//! specified by a fold (`sec_fold`) over its lines, and the executable
//! parser is proved to compute exactly that fold.
use vstd::prelude::*;

use crate::model::{
    choice_label, AckConfig, BodyElement, Choice, FileConstraints, Frontmatter, Question,
    QuestionKind, Quiz, Timestamp,
};
use crate::text::{
    chars_eq_str, contains_seq, contains_str, ends_with_str, find_ch, find_char, is_ws,
    is_ws_char, lemma_find_ch_is, parse_u32, parse_u64, push_chars, rfind_char, spec_parse_u32,
    spec_parse_u64, split_char, split_lines, split_lines_spec, split_on, split_whitespace_chars,
    split_ws, starts_with_str, str_to_chars, to_upper_chars, trim_chars, trim_spec, upper,
    find_seq, find_str, scan_quoted_spec, ws_prefix_len,
};

verus! {

broadcast use vstd::utf8::char_is_scalar;

/// A malformed document: fatal, reported before any session exists.
#[derive(Debug)]
pub struct DocumentError {
    pub message: Vec<char>,
}

// ---------------------------------------------------------------------------
// Line classification
// ---------------------------------------------------------------------------
pub open spec fn is_fence(l: Seq<char>) -> bool {
    l.len() >= 3 && l.take(3) == "```"@
}

pub open spec fn is_h1(l: Seq<char>) -> bool {
    l.len() >= 2 && l.take(2) == "# "@
}

pub open spec fn is_h2(l: Seq<char>) -> bool {
    l.len() >= 3 && l.take(3) == "## "@
}

pub open spec fn is_hash(l: Seq<char>) -> bool {
    l.len() >= 1 && l[0] == '#'
}

pub open spec fn is_bq(l: Seq<char>) -> bool {
    l.len() >= 1 && l[0] == '>'
}

pub open spec fn is_checkbox(l: Seq<char>) -> bool {
    l.len() >= 6 && (l.take(6) == "- [ ] "@ || l.take(6) == "- [x] "@ || l.take(6) == "- [X] "@)
}

pub open spec fn checkbox_checked(l: Seq<char>) -> bool {
    l.take(6) != "- [ ] "@
}

pub open spec fn is_list(l: Seq<char>) -> bool {
    l.len() >= 2 && (l.take(2) == "- "@ || l.take(2) == "* "@)
}

pub open spec fn is_blank(l: Seq<char>) -> bool {
    forall|i: int| 0 <= i < l.len() ==> is_ws(l[i])
}

/// A block-quote line's content: the marker and one following space removed.
pub open spec fn bq_strip(l: Seq<char>) -> Seq<char> {
    if l.len() >= 2 && l[1] == ' ' {
        l.skip(2)
    } else {
        l.skip(1)
    }
}

fn line_is_fence(l: &[char]) -> (r: bool)
    ensures
        r == is_fence(l@),
{
    proof {
        reveal_strlit("```");
    }
    starts_with_str(l, "```")
}

fn line_is_h1(l: &[char]) -> (r: bool)
    ensures
        r == is_h1(l@),
{
    proof {
        reveal_strlit("# ");
    }
    starts_with_str(l, "# ")
}

fn line_is_h2(l: &[char]) -> (r: bool)
    ensures
        r == is_h2(l@),
{
    proof {
        reveal_strlit("## ");
    }
    starts_with_str(l, "## ")
}

fn line_is_hash(l: &[char]) -> (r: bool)
    ensures
        r == is_hash(l@),
{
    l.len() >= 1 && l[0] == '#'
}

fn line_is_bq(l: &[char]) -> (r: bool)
    ensures
        r == is_bq(l@),
{
    l.len() >= 1 && l[0] == '>'
}

fn line_is_checkbox(l: &[char]) -> (r: bool)
    ensures
        r == is_checkbox(l@),
{
    proof {
        reveal_strlit("- [ ] ");
        reveal_strlit("- [x] ");
        reveal_strlit("- [X] ");
    }
    starts_with_str(l, "- [ ] ") || starts_with_str(l, "- [x] ") || starts_with_str(l, "- [X] ")
}

fn line_is_list(l: &[char]) -> (r: bool)
    ensures
        r == is_list(l@),
{
    proof {
        reveal_strlit("- ");
        reveal_strlit("* ");
    }
    starts_with_str(l, "- ") || starts_with_str(l, "* ")
}

fn line_is_blank(l: &[char]) -> (r: bool)
    ensures
        r == is_blank(l@),
{
    let n = l.len();
    let mut i: usize = 0;
    while i < n
        invariant
            0 <= i <= n,
            n == l@.len(),
            forall|j: int| 0 <= j < i ==> is_ws(l@[j]),
        decreases n - i,
    {
        if !is_ws_char(l[i]) {
            return false;
        }
        i += 1;
    }
    true
}

// ---------------------------------------------------------------------------
// The per-section machine
// ---------------------------------------------------------------------------
/// A body element at the specification level.
pub enum BodyEl {
    BText(Seq<char>),
    BCode(Seq<char>),
    BItem(Seq<char>),
}

/// The view of an executable body element. Only the three variants the
/// parser produces occur in parsed documents.
pub open spec fn body_el_view(e: BodyElement) -> BodyEl {
    match e {
        BodyElement::Text(t) => BodyEl::BText(t@),
        BodyElement::Code(t) => BodyEl::BCode(t@),
        BodyElement::ListItem(t) => BodyEl::BItem(t@),
        BodyElement::Bold(t) => BodyEl::BText(t@),
        BodyElement::Italic(t) => BodyEl::BText(t@),
        BodyElement::InlineCode(t) => BodyEl::BText(t@),
    }
}

/// A kind override taken from a block quote, at the specification level:
/// `short`, `long`, or `file` with its raw parameter text.
pub enum SecKind {
    KShort,
    KLong,
    KFile(Seq<char>),
}

/// The state of the per-section machine.
pub struct SecSt {
    /// Whether this section follows a level-2 heading (else it is the
    /// preamble before the first question).
    pub question_mode: bool,
    /// The last level-1 heading's text, if any.
    pub title: Option<Seq<char>>,
    /// Completed paragraphs before the first question.
    pub preamble: Seq<Seq<char>>,
    /// Typed body blocks of the current question.
    pub body: Seq<BodyEl>,
    /// Checkbox items seen: checked flag and text, in document order.
    pub choices: Seq<(bool, Seq<char>)>,
    /// The last block-quote kind override.
    pub kind_tag: Option<SecKind>,
    /// Completed hint entries.
    pub hints: Seq<Seq<char>>,
    /// The open paragraph's text, lines joined with one space.
    pub para: Seq<char>,
    /// Whether a hint block is open.
    pub in_hint: bool,
    /// The open hint block's accumulated text.
    pub hint_acc: Seq<char>,
    /// Whether a code fence is open.
    pub in_code: bool,
    /// The open code block's text.
    pub code_acc: Seq<char>,
    /// Whether a block quote is open.
    pub in_bq: bool,
    /// The open block quote's text, lines joined with one space.
    pub bq_acc: Seq<char>,
}

pub open spec fn sec_init(question_mode: bool) -> SecSt {
    SecSt {
        question_mode,
        title: None,
        preamble: Seq::empty(),
        body: Seq::empty(),
        choices: Seq::empty(),
        kind_tag: None,
        hints: Seq::empty(),
        para: Seq::empty(),
        in_hint: false,
        hint_acc: Seq::empty(),
        in_code: false,
        code_acc: Seq::empty(),
        in_bq: false,
        bq_acc: Seq::empty(),
    }
}

/// Closes an open paragraph: non-empty trimmed text becomes a preamble entry
/// or a body text block.
pub open spec fn close_para(st: SecSt) -> SecSt {
    let text = trim_spec(st.para);
    let st1 = SecSt { para: Seq::empty(), ..st };
    if text.len() == 0 {
        st1
    } else if st.question_mode {
        SecSt { body: st.body.push(BodyEl::BText(text)), ..st1 }
    } else {
        SecSt { preamble: st.preamble.push(text), ..st1 }
    }
}

/// Closes an open block quote: in a question section its trimmed text may
/// override the question kind.
pub open spec fn close_bq(st: SecSt) -> SecSt {
    if !st.in_bq {
        st
    } else {
        let t = trim_spec(st.bq_acc);
        let st1 = SecSt { in_bq: false, bq_acc: Seq::empty(), ..st };
        if !st.question_mode {
            st1
        } else if t == "short"@ {
            SecSt { kind_tag: Some(SecKind::KShort), ..st1 }
        } else if t == "long"@ {
            SecSt { kind_tag: Some(SecKind::KLong), ..st1 }
        } else if t.len() >= 4 && t.take(4) == "file"@ {
            SecSt { kind_tag: Some(SecKind::KFile(t)), ..st1 }
        } else {
            st1
        }
    }
}

/// One paragraph-content line: hint markers first, else the paragraph grows.
pub open spec fn para_line(st: SecSt, l: Seq<char>) -> SecSt {
    let lt = trim_spec(l);
    if st.in_hint {
        if lt == ":::"@ {
            let st1 = SecSt { in_hint: false, hint_acc: Seq::empty(), ..st };
            if st.hint_acc.len() > 0 && st.question_mode {
                SecSt { hints: st.hints.push(trim_spec(st.hint_acc)), ..st1 }
            } else {
                st1
            }
        } else if lt.len() == 0 {
            st
        } else if st.hint_acc.len() == 0 {
            SecSt { hint_acc: lt, ..st }
        } else {
            SecSt { hint_acc: st.hint_acc + " "@ + lt, ..st }
        }
    } else if lt.len() >= 7 && lt.take(7) == ":::hint"@ {
        SecSt { in_hint: true, hint_acc: Seq::empty(), para: Seq::empty(), ..st }
    } else if st.para.len() == 0 {
        SecSt { para: l, ..st }
    } else {
        SecSt { para: st.para + " "@ + l, ..st }
    }
}

/// One line of a section.
pub open spec fn sec_step(st: SecSt, l: Seq<char>) -> SecSt {
    if st.in_code {
        if is_fence(l) {
            let st1 = SecSt { in_code: false, code_acc: Seq::empty(), ..st };
            if st.question_mode {
                SecSt { body: st.body.push(BodyEl::BCode(st.code_acc)), ..st1 }
            } else {
                st1
            }
        } else {
            SecSt { code_acc: st.code_acc + l + "\n"@, ..st }
        }
    } else if is_fence(l) {
        SecSt { in_code: true, code_acc: Seq::empty(), ..close_bq(close_para(st)) }
    } else if is_bq(l) {
        let st1 = close_para(st);
        let c = bq_strip(l);
        if st1.in_bq {
            SecSt { bq_acc: st1.bq_acc + " "@ + c, ..st1 }
        } else {
            SecSt { in_bq: true, bq_acc: c, ..st1 }
        }
    } else if is_h1(l) {
        SecSt { title: Some(trim_spec(l.skip(2))), ..close_bq(close_para(st)) }
    } else if is_hash(l) {
        close_bq(close_para(st))
    } else if is_checkbox(l) {
        let st1 = close_bq(close_para(st));
        if st.question_mode {
            SecSt {
                choices: st1.choices.push((checkbox_checked(l), trim_spec(l.skip(6)))),
                ..st1
            }
        } else {
            st1
        }
    } else if is_list(l) {
        let st1 = close_bq(close_para(st));
        let t = trim_spec(l.skip(2));
        if st.question_mode && t.len() > 0 {
            SecSt { body: st1.body.push(BodyEl::BItem(t)), ..st1 }
        } else {
            st1
        }
    } else if is_blank(l) {
        close_bq(close_para(st))
    } else {
        para_line(close_bq(st), l)
    }
}

/// The end of a section: open paragraph, block quote and code fence close.
pub open spec fn sec_finish(st: SecSt) -> SecSt {
    let st1 = close_bq(close_para(st));
    if st1.in_code && st1.question_mode {
        SecSt {
            in_code: false,
            code_acc: Seq::empty(),
            body: st1.body.push(BodyEl::BCode(st1.code_acc)),
            ..st1
        }
    } else if st1.in_code {
        SecSt { in_code: false, code_acc: Seq::empty(), ..st1 }
    } else {
        st1
    }
}

/// The machine's state after the lines `[from, i)`.
pub open spec fn sec_fold(lines: Seq<Seq<char>>, from: int, i: int, question_mode: bool) -> SecSt
    decreases i - from,
{
    if i <= from {
        sec_init(question_mode)
    } else {
        sec_step(sec_fold(lines, from, i - 1, question_mode), lines[i - 1])
    }
}

/// A kind override taken from a block quote.
pub enum KindOverride {
    OShort,
    OLong,
    OFile(Vec<char>),
}

pub open spec fn kind_override_view(k: Option<KindOverride>) -> Option<SecKind> {
    match k {
        None => None,
        Some(KindOverride::OShort) => Some(SecKind::KShort),
        Some(KindOverride::OLong) => Some(SecKind::KLong),
        Some(KindOverride::OFile(t)) => Some(SecKind::KFile(t@)),
    }
}

pub open spec fn opt_chars_view(t: Option<Vec<char>>) -> Option<Seq<char>> {
    match t {
        None => None,
        Some(v) => Some(v@),
    }
}

/// The executable twin of the per-section machine; its view is a `SecSt`.
pub struct SecMachine {
    pub question_mode: bool,
    pub title: Option<Vec<char>>,
    pub preamble: Vec<Vec<char>>,
    pub body: Vec<BodyElement>,
    pub choices: Vec<(bool, Vec<char>)>,
    pub kind_tag: Option<KindOverride>,
    pub hints: Vec<Vec<char>>,
    pub para: Vec<char>,
    pub in_hint: bool,
    pub hint_acc: Vec<char>,
    pub in_code: bool,
    pub code_acc: Vec<char>,
    pub in_bq: bool,
    pub bq_acc: Vec<char>,
}

impl SecMachine {
    pub open spec fn view(&self) -> SecSt {
        SecSt {
            question_mode: self.question_mode,
            title: opt_chars_view(self.title),
            preamble: self.preamble@.map_values(|v: Vec<char>| v@),
            body: self.body@.map_values(|e: BodyElement| body_el_view(e)),
            choices: self.choices@.map_values(|p: (bool, Vec<char>)| (p.0, p.1@)),
            kind_tag: kind_override_view(self.kind_tag),
            hints: self.hints@.map_values(|v: Vec<char>| v@),
            para: self.para@,
            in_hint: self.in_hint,
            hint_acc: self.hint_acc@,
            in_code: self.in_code,
            code_acc: self.code_acc@,
            in_bq: self.in_bq,
            bq_acc: self.bq_acc@,
        }
    }

    pub fn new(question_mode: bool) -> (r: Self)
        ensures
            r.view() == sec_init(question_mode),
    {
        let r = SecMachine {
            question_mode,
            title: None,
            preamble: Vec::new(),
            body: Vec::new(),
            choices: Vec::new(),
            kind_tag: None,
            hints: Vec::new(),
            para: Vec::new(),
            in_hint: false,
            hint_acc: Vec::new(),
            in_code: false,
            code_acc: Vec::new(),
            in_bq: false,
            bq_acc: Vec::new(),
        };
        proof {
            assert(r.view().preamble =~= sec_init(question_mode).preamble);
            assert(r.view().body =~= sec_init(question_mode).body);
            assert(r.view().choices =~= sec_init(question_mode).choices);
            assert(r.view().hints =~= sec_init(question_mode).hints);
            assert(r.view() == sec_init(question_mode));
        }
        r
    }

    fn do_close_para(&mut self)
        ensures
            final(self).view() == close_para(old(self).view()),
    {
        let text = trim_chars(self.para.as_slice());
        if text.len() > 0 {
            if self.question_mode {
                let ghost prev = self.body@;
                let ghost t = text@;
                self.body.push(BodyElement::Text(text));
                proof {
                    assert(self.body@.map_values(|e: BodyElement| body_el_view(e))
                        =~= prev.map_values(|e: BodyElement| body_el_view(e)).push(
                        BodyEl::BText(t),
                    ));
                }
            } else {
                let ghost prev = self.preamble@;
                let ghost t = text@;
                self.preamble.push(text);
                proof {
                    assert(self.preamble@.map_values(|v: Vec<char>| v@) =~= prev.map_values(
                        |v: Vec<char>| v@,
                    ).push(t));
                }
            }
        }
        self.para = Vec::new();
        proof {
            assert(self.para@ =~= Seq::<char>::empty());
        }
    }

    fn do_close_bq(&mut self)
        ensures
            final(self).view() == close_bq(old(self).view()),
    {
        if self.in_bq {
            let t = trim_chars(self.bq_acc.as_slice());
            self.in_bq = false;
            self.bq_acc = Vec::new();
            proof {
                assert(self.bq_acc@ =~= Seq::<char>::empty());
                reveal_strlit("short");
                reveal_strlit("long");
                reveal_strlit("file");
            }
            if self.question_mode {
                if chars_eq_str(t.as_slice(), "short") {
                    self.kind_tag = Some(KindOverride::OShort);
                } else if chars_eq_str(t.as_slice(), "long") {
                    self.kind_tag = Some(KindOverride::OLong);
                } else if starts_with_str(t.as_slice(), "file") {
                    self.kind_tag = Some(KindOverride::OFile(t));
                }
            }
        }
    }

    /// One paragraph-content line (already known to be none of the
    /// structural forms).
    fn do_para_line(&mut self, l: &[char])
        requires
            !old(self).in_bq,
        ensures
            final(self).view() == para_line(old(self).view(), l@),
    {
        let lt = trim_chars(l);
        proof {
            reveal_strlit(":::");
            reveal_strlit(":::hint");
        }
        if self.in_hint {
            if chars_eq_str(lt.as_slice(), ":::") {
                let had = self.hint_acc.len() > 0;
                let acc = trim_chars(self.hint_acc.as_slice());
                self.in_hint = false;
                self.hint_acc = Vec::new();
                proof {
                    assert(self.hint_acc@ =~= Seq::<char>::empty());
                }
                if had && self.question_mode {
                    let ghost prev = self.hints@;
                    let ghost t = acc@;
                    self.hints.push(acc);
                    proof {
                        assert(self.hints@.map_values(|v: Vec<char>| v@) =~= prev.map_values(
                            |v: Vec<char>| v@,
                        ).push(t));
                    }
                }
            } else if lt.len() == 0 {
            } else if self.hint_acc.len() == 0 {
                self.hint_acc = lt;
            } else {
                self.hint_acc.push(' ');
                push_chars(&mut self.hint_acc, lt.as_slice());
                proof {
                    reveal_strlit(" ");
                    assert(self.hint_acc@ =~= old(self).hint_acc@ + " "@ + lt@);
                }
            }
        } else if starts_with_str(lt.as_slice(), ":::hint") {
            self.in_hint = true;
            self.hint_acc = Vec::new();
            self.para = Vec::new();
            proof {
                assert(self.hint_acc@ =~= Seq::<char>::empty());
                assert(self.para@ =~= Seq::<char>::empty());
            }
        } else if self.para.len() == 0 {
            let mut p: Vec<char> = Vec::new();
            push_chars(&mut p, l);
            self.para = p;
            proof {
                assert(self.para@ =~= l@);
            }
        } else {
            self.para.push(' ');
            push_chars(&mut self.para, l);
            proof {
                reveal_strlit(" ");
                assert(self.para@ =~= old(self).para@ + " "@ + l@);
            }
        }
    }

    /// Feeds one line to the machine.
    pub fn step(&mut self, l: &[char])
        ensures
            final(self).view() == sec_step(old(self).view(), l@),
    {
        if self.in_code {
            if line_is_fence(l) {
                let code = take_vec(&mut self.code_acc);
                self.in_code = false;
                proof {
                    assert(self.code_acc@ =~= Seq::<char>::empty());
                }
                if self.question_mode {
                    let ghost prev = self.body@;
                    let ghost t = code@;
                    self.body.push(BodyElement::Code(code));
                    proof {
                        assert(self.body@.map_values(|e: BodyElement| body_el_view(e))
                            =~= prev.map_values(|e: BodyElement| body_el_view(e)).push(
                            BodyEl::BCode(t),
                        ));
                    }
                }
            } else {
                push_chars(&mut self.code_acc, l);
                self.code_acc.push('\n');
                proof {
                    reveal_strlit("\n");
                    assert(self.code_acc@ =~= old(self).code_acc@ + l@ + "\n"@);
                }
            }
        } else if line_is_fence(l) {
            self.do_close_para();
            self.do_close_bq();
            self.in_code = true;
            self.code_acc = Vec::new();
            proof {
                assert(self.code_acc@ =~= Seq::<char>::empty());
            }
        } else if line_is_bq(l) {
            self.do_close_para();
            let c = bq_strip_exec(l);
            if self.in_bq {
                self.bq_acc.push(' ');
                push_chars(&mut self.bq_acc, c.as_slice());
                proof {
                    reveal_strlit(" ");
                    assert(self.bq_acc@ =~= close_para(old(self).view()).bq_acc + " "@ + bq_strip(
                        l@,
                    ));
                }
            } else {
                self.in_bq = true;
                self.bq_acc = c;
            }
        } else if line_is_h1(l) {
            self.do_close_para();
            self.do_close_bq();
            let rest = slice_from(l, 2);
            let t = trim_chars(rest.as_slice());
            self.title = Some(t);
        } else if line_is_hash(l) {
            self.do_close_para();
            self.do_close_bq();
        } else if line_is_checkbox(l) {
            let qm = self.question_mode;
            self.do_close_para();
            self.do_close_bq();
            if qm {
                let checked = !(l[3] == ' ');
                let rest = slice_from(l, 6);
                let t = trim_chars(rest.as_slice());
                let ghost prev = self.choices@;
                let ghost tv = t@;
                self.choices.push((checked, t));
                proof {
                    reveal_strlit("- [ ] ");
                    assert(checked == checkbox_checked(l@)) by {
                        if l@.take(6) == "- [ ] "@ {
                            assert(l@.take(6)[3] == "- [ ] "@[3]);
                            assert(l@[3] == ' ');
                        } else {
                            assert(is_checkbox(l@));
                            reveal_strlit("- [x] ");
                            reveal_strlit("- [X] ");
                            if l@[3] == ' ' {
                                assert(l@.take(6) =~= "- [ ] "@) by {
                                    if l@.take(6) == "- [x] "@ {
                                        assert(l@.take(6)[3] == 'x');
                                    }
                                    if l@.take(6) == "- [X] "@ {
                                        assert(l@.take(6)[3] == 'X');
                                    }
                                }
                            }
                        }
                    }
                    assert(self.choices@.map_values(|p: (bool, Vec<char>)| (p.0, p.1@))
                        =~= prev.map_values(|p: (bool, Vec<char>)| (p.0, p.1@)).push(
                        (checkbox_checked(l@), tv),
                    ));
                }
            }
        } else if line_is_list(l) {
            let qm = self.question_mode;
            self.do_close_para();
            self.do_close_bq();
            let rest = slice_from(l, 2);
            let t = trim_chars(rest.as_slice());
            if qm && t.len() > 0 {
                let ghost prev = self.body@;
                let ghost tv = t@;
                self.body.push(BodyElement::ListItem(t));
                proof {
                    assert(self.body@.map_values(|e: BodyElement| body_el_view(e))
                        =~= prev.map_values(|e: BodyElement| body_el_view(e)).push(
                        BodyEl::BItem(tv),
                    ));
                }
            }
        } else if line_is_blank(l) {
            self.do_close_para();
            self.do_close_bq();
        } else {
            self.do_close_bq();
            self.do_para_line(l);
        }
    }

    /// Ends the section.
    pub fn finish(&mut self)
        ensures
            final(self).view() == sec_finish(old(self).view()),
    {
        self.do_close_para();
        self.do_close_bq();
        if self.in_code {
            let code = take_vec(&mut self.code_acc);
            self.in_code = false;
            proof {
                assert(self.code_acc@ =~= Seq::<char>::empty());
            }
            if self.question_mode {
                let ghost prev = self.body@;
                let ghost t = code@;
                self.body.push(BodyElement::Code(code));
                proof {
                    assert(self.body@.map_values(|e: BodyElement| body_el_view(e))
                        =~= prev.map_values(|e: BodyElement| body_el_view(e)).push(
                        BodyEl::BCode(t),
                    ));
                }
            }
        }
    }
}

/// Moves a vector out, leaving an empty one behind.
fn take_vec(v: &mut Vec<char>) -> (r: Vec<char>)
    ensures
        r@ == old(v)@,
        final(v)@ == Seq::<char>::empty(),
{
    let mut t: Vec<char> = Vec::new();
    std::mem::swap(v, &mut t);
    t
}

/// Copies `l` from index `at` on.
pub(crate) fn slice_from(l: &[char], at: usize) -> (r: Vec<char>)
    requires
        at <= l@.len(),
    ensures
        r@ == l@.skip(at as int),
{
    let n = l.len();
    let mut r: Vec<char> = Vec::new();
    let mut i: usize = at;
    while i < n
        invariant
            at <= i <= n,
            n == l@.len(),
            r@ == l@.subrange(at as int, i as int),
        decreases n - i,
    {
        r.push(l[i]);
        proof {
            assert(l@.subrange(at as int, i + 1) =~= l@.subrange(at as int, i as int).push(
                l@[i as int],
            ));
        }
        i += 1;
    }
    proof {
        assert(l@.subrange(at as int, n as int) =~= l@.skip(at as int));
    }
    r
}

/// A block-quote line's content.
fn bq_strip_exec(l: &[char]) -> (r: Vec<char>)
    requires
        is_bq(l@),
    ensures
        r@ == bq_strip(l@),
{
    if l.len() >= 2 && l[1] == ' ' {
        slice_from(l, 2)
    } else {
        slice_from(l, 1)
    }
}

/// Copies `l` up to index `to`.
fn slice_to(l: &[char], to: usize) -> (r: Vec<char>)
    requires
        to <= l@.len(),
    ensures
        r@ == l@.take(to as int),
{
    let mut r: Vec<char> = Vec::new();
    let mut i: usize = 0;
    while i < to
        invariant
            0 <= i <= to <= l@.len(),
            r@ == l@.subrange(0, i as int),
        decreases to - i,
    {
        r.push(l[i]);
        proof {
            assert(l@.subrange(0, i + 1) =~= l@.subrange(0, i as int).push(l@[i as int]));
        }
        i += 1;
    }
    r
}

// ---------------------------------------------------------------------------
// Heading, size and file-constraint parsing
// ---------------------------------------------------------------------------
/// What a level-2 heading's text yields: the question number before the
/// first dot, and the title after it, both trimmed.
pub open spec fn spec_parse_h2(t: Seq<char>) -> Option<(u32, Seq<char>)> {
    let tr = trim_spec(t);
    let dot = find_ch(tr, '.', 0);
    if dot == tr.len() {
        None
    } else {
        match spec_parse_u32(trim_spec(tr.take(dot))) {
            Some(n) => Some((n, trim_spec(tr.skip(dot + 1)))),
            None => None,
        }
    }
}

/// Splits a heading of the form `N. Title` into number and title.
pub fn parse_h2_title(text: &[char]) -> (r: Result<(u32, Vec<char>), DocumentError>)
    ensures
        match r {
            Ok(p) => spec_parse_h2(text@) == Some((p.0, p.1@)),
            Err(_) => spec_parse_h2(text@) == None::<(u32, Seq<char>)>,
        },
{
    let tr = trim_chars(text);
    let dot = find_char(tr.as_slice(), '.', 0);
    match dot {
        None => {
            proof {
                lemma_find_ch_is(tr@, '.', 0, tr@.len() as int);
            }
            let mut m = str_to_chars("Question heading must be in format '## N. Title', got: ");
            push_chars(&mut m, tr.as_slice());
            Err(DocumentError { message: m })
        },
        Some(d) => {
            let trn = tr.len();
            assert(d < trn);
            proof {
                lemma_find_ch_is(tr@, '.', 0, d as int);
            }
            let num_part = slice_to(tr.as_slice(), d);
            let num_str = trim_chars(num_part.as_slice());
            let title_part = slice_from(tr.as_slice(), d + 1);
            let title = trim_chars(title_part.as_slice());
            match parse_u32(num_str.as_slice()) {
                Some(n) => Ok((n, title)),
                None => {
                    let mut m = str_to_chars("Invalid question number in heading: ");
                    push_chars(&mut m, tr.as_slice());
                    Err(DocumentError { message: m })
                },
            }
        },
    }
}

/// Multiplies a parsed count by a unit, `None` on overflow.
pub open spec fn spec_scale(o: Option<u64>, k: int) -> Option<u64> {
    match o {
        Some(n) => if n * k <= u64::MAX {
            Some((n * k) as u64)
        } else {
            None
        },
        None => None,
    }
}

/// What a size token denotes: an integer with an optional case-insensitive
/// `B`/`KB`/`MB`/`GB` suffix, in binary multiples.
pub open spec fn spec_parse_size(s: Seq<char>) -> Option<u64> {
    let u = upper(trim_spec(s));
    if u.len() >= 2 && u.skip(u.len() - 2) == "GB"@ {
        spec_scale(spec_parse_u64(trim_spec(u.take(u.len() - 2))), 0x4000_0000)
    } else if u.len() >= 2 && u.skip(u.len() - 2) == "MB"@ {
        spec_scale(spec_parse_u64(trim_spec(u.take(u.len() - 2))), 0x10_0000)
    } else if u.len() >= 2 && u.skip(u.len() - 2) == "KB"@ {
        spec_scale(spec_parse_u64(trim_spec(u.take(u.len() - 2))), 0x400)
    } else if u.len() >= 1 && u.skip(u.len() - 1) == "B"@ {
        spec_parse_u64(trim_spec(u.take(u.len() - 1)))
    } else {
        spec_parse_u64(u)
    }
}

fn scale_by(o: Option<u64>, k: u64) -> (r: Option<u64>)
    requires
        k >= 1,
    ensures
        r == spec_scale(o, k as int),
{
    match o {
        Some(n) => {
            if n <= u64::MAX / k {
                proof {
                    assert(n * k <= (u64::MAX / k) * k <= u64::MAX) by (nonlinear_arith)
                        requires
                            n <= u64::MAX / k,
                            k >= 1,
                    ;
                }
                Some(n * k)
            } else {
                proof {
                    assert(n * k > u64::MAX) by (nonlinear_arith)
                        requires
                            n >= u64::MAX / k + 1,
                            k >= 1,
                    ;
                }
                None
            }
        },
        None => None,
    }
}

/// Parses a size such as `100`, `512B`, `5MB` or `2GB`.
pub fn parse_size(s: &[char]) -> (r: Option<u64>)
    ensures
        r == spec_parse_size(s@),
{
    let t = trim_chars(s);
    let u = to_upper_chars(t.as_slice());
    proof {
        reveal_strlit("GB");
        reveal_strlit("MB");
        reveal_strlit("KB");
        reveal_strlit("B");
    }
    let n = u.len();
    if ends_with_str(u.as_slice(), "GB") {
        let base = slice_to(u.as_slice(), n - 2);
        let num = trim_chars(base.as_slice());
        scale_by(parse_u64(num.as_slice()), 0x4000_0000)
    } else if ends_with_str(u.as_slice(), "MB") {
        let base = slice_to(u.as_slice(), n - 2);
        let num = trim_chars(base.as_slice());
        scale_by(parse_u64(num.as_slice()), 0x10_0000)
    } else if ends_with_str(u.as_slice(), "KB") {
        let base = slice_to(u.as_slice(), n - 2);
        let num = trim_chars(base.as_slice());
        scale_by(parse_u64(num.as_slice()), 0x400)
    } else if ends_with_str(u.as_slice(), "B") {
        let base = slice_to(u.as_slice(), n - 1);
        let num = trim_chars(base.as_slice());
        parse_u64(num.as_slice())
    } else {
        parse_u64(u.as_slice())
    }
}

/// Last index of `c` in `s`, or `-1`.
pub open spec fn rfind_ch(s: Seq<char>, c: char) -> int
    decreases s.len(),
{
    if s.len() == 0 {
        -1
    } else if s.last() == c {
        s.len() - 1
    } else {
        rfind_ch(s.drop_last(), c)
    }
}

pub proof fn lemma_rfind_ch_is(s: Seq<char>, c: char, k: int)
    requires
        0 <= k < s.len(),
        s[k] == c,
        forall|j: int| k < j < s.len() ==> s[j] != c,
    ensures
        rfind_ch(s, c) == k,
    decreases s.len(),
{
    if k < s.len() - 1 {
        assert(forall|j: int| 0 <= j < s.len() - 1 ==> s.drop_last()[j] == s[j]);
        lemma_rfind_ch_is(s.drop_last(), c, k);
    }
}

pub proof fn lemma_rfind_ch_none(s: Seq<char>, c: char)
    requires
        forall|j: int| 0 <= j < s.len() ==> s[j] != c,
    ensures
        rfind_ch(s, c) == -1,
    decreases s.len(),
{
    if s.len() > 0 {
        assert(forall|j: int| 0 <= j < s.len() - 1 ==> s.drop_last()[j] == s[j]);
        lemma_rfind_ch_none(s.drop_last(), c);
    }
}

/// One `key: value` pair applied to the accumulating constraint triple.
pub open spec fn fc_apply(
    acc: (Option<u32>, Option<u64>, Seq<Seq<char>>),
    param: Seq<char>,
) -> (Option<u32>, Option<u64>, Seq<Seq<char>>) {
    let colon = find_ch(param, ':', 0);
    if colon == param.len() {
        acc
    } else {
        let key = trim_spec(param.take(colon));
        let value = trim_spec(param.skip(colon + 1));
        if key == "max_files"@ {
            (spec_parse_u32(value), acc.1, acc.2)
        } else if key == "max_size"@ {
            (acc.0, spec_parse_size(value), acc.2)
        } else if key == "accept"@ {
            let toks = split_ws(value);
            if toks.len() == 0 {
                (acc.0, acc.1, seq![value])
            } else {
                (acc.0, acc.1, toks)
            }
        } else {
            acc
        }
    }
}

pub open spec fn fc_fold(
    params: Seq<Seq<char>>,
    i: int,
) -> (Option<u32>, Option<u64>, Seq<Seq<char>>)
    decreases i,
{
    if i <= 0 {
        (None, None, Seq::empty())
    } else {
        fc_apply(fc_fold(params, i - 1), params[i - 1])
    }
}

/// What a `file(...)` block quote denotes: the `key: value` list between the
/// first `(` and the last `)`, unknown keys ignored, unparseable values left
/// unset.
pub open spec fn spec_parse_fc(text: Seq<char>) -> (Option<u32>, Option<u64>, Seq<Seq<char>>) {
    let op = find_ch(text, '(', 0);
    let cp = rfind_ch(text, ')');
    if op == text.len() || cp < op + 1 {
        (None, None, Seq::empty())
    } else {
        let params = split_on(text.subrange(op + 1, cp), ',');
        fc_fold(params, params.len() as int)
    }
}

/// Parses `file(max_files: 3, max_size: 5MB, accept: .rs)` parameters.
#[verifier::loop_isolation(false)]
pub fn parse_file_constraints(text: &[char]) -> (r: FileConstraints)
    ensures
        Some(r.max_files) == Some(spec_parse_fc(text@).0),
        r.max_size == spec_parse_fc(text@).1,
        r.accept@.map_values(|v: Vec<char>| v@) == spec_parse_fc(text@).2,
{
    let op = find_char(text, '(', 0);
    let cp = rfind_char(text, ')');
    let ghost sp = spec_parse_fc(text@);
    match (op, cp) {
        (Some(o), Some(c)) if o < text.len() && c >= o + 1 => {
            proof {
                lemma_find_ch_is(text@, '(', 0, o as int);
                lemma_rfind_ch_is(text@, ')', c as int);
            }
            let inner = slice_from(text, o + 1);
            let params_text = slice_to(inner.as_slice(), c - o - 1);
            proof {
                assert(params_text@ =~= text@.subrange(o + 1, c as int));
            }
            let params = split_char(params_text.as_slice(), ',');
            let ghost pv = params@.map_values(|v: Vec<char>| v@);
            let mut max_files: Option<u32> = None;
            let mut max_size: Option<u64> = None;
            let mut accept: Vec<Vec<char>> = Vec::new();
            let np = params.len();
            let mut i: usize = 0;
            proof {
                assert(accept@.map_values(|v: Vec<char>| v@) =~= Seq::<Seq<char>>::empty());
            }
            while i < np
                invariant
                    0 <= i <= np,
                    np == pv.len(),
                    pv == params@.map_values(|v: Vec<char>| v@),
                    (max_files, max_size, accept@.map_values(|v: Vec<char>| v@)) == fc_fold(
                        pv,
                        i as int,
                    ),
                decreases np - i,
            {
                let param = &params[i];
                let ghost acc0 = (max_files, max_size, accept@.map_values(|v: Vec<char>| v@));
                proof {
                    assert(param@ == pv[i as int]);
                }
                let colon = find_char(param.as_slice(), ':', 0);
                match colon {
                    None => {
                        proof {
                            lemma_find_ch_is(param@, ':', 0, param@.len() as int);
                            assert(fc_fold(pv, i + 1) == fc_apply(acc0, pv[i as int]));
                        }
                    },
                    Some(cl) => {
                        let pn = param.len();
                        assert(cl < pn);
                        proof {
                            lemma_find_ch_is(param@, ':', 0, cl as int);
                        }
                        let key_part = slice_to(param.as_slice(), cl);
                        let key = trim_chars(key_part.as_slice());
                        let value_part = slice_from(param.as_slice(), cl + 1);
                        let value = trim_chars(value_part.as_slice());
                        proof {
                            reveal_strlit("max_files");
                            reveal_strlit("max_size");
                            reveal_strlit("accept");
                        }
                        if chars_eq_str(key.as_slice(), "max_files") {
                            max_files = parse_u32(value.as_slice());
                        } else if chars_eq_str(key.as_slice(), "max_size") {
                            max_size = parse_size(value.as_slice());
                        } else if chars_eq_str(key.as_slice(), "accept") {
                            let toks = split_whitespace_chars(value.as_slice());
                            if toks.len() == 0 {
                                let mut one: Vec<Vec<char>> = Vec::new();
                                one.push(value);
                                accept = one;
                                proof {
                                    assert(accept@.map_values(|v: Vec<char>| v@) =~= seq![
                                        trim_spec(pv[i as int].skip(cl + 1)),
                                    ]);
                                }
                            } else {
                                accept = toks;
                            }
                        }
                        proof {
                            assert(fc_fold(pv, i + 1) == fc_apply(acc0, pv[i as int]));
                        }
                    },
                }
                i += 1;
            }
            proof {
                assert(sp == fc_fold(pv, np as int));
            }
            FileConstraints { max_files, max_size, accept }
        },
        _ => {
            proof {
                match op {
                    None => {
                        lemma_find_ch_is(text@, '(', 0, text@.len() as int);
                    },
                    Some(o) => {
                        lemma_find_ch_is(text@, '(', 0, o as int);
                    },
                }
                match cp {
                    None => {
                        lemma_rfind_ch_none(text@, ')');
                    },
                    Some(c) => {
                        lemma_rfind_ch_is(text@, ')', c as int);
                    },
                }
            }
            let r = FileConstraints { max_files: None, max_size: None, accept: Vec::new() };
            proof {
                assert(r.accept@.map_values(|v: Vec<char>| v@) =~= Seq::<Seq<char>>::empty());
            }
            r
        },
    }
}

// ---------------------------------------------------------------------------
// Question sections of the whole body
// ---------------------------------------------------------------------------
/// Indices of level-2 headings from line `i` on, with `st` the open-fence
/// state: headings inside fenced code blocks do not count.
pub open spec fn h2_list(lines: Seq<Seq<char>>, i: int, st: bool) -> Seq<int>
    decreases lines.len() - i,
{
    if i < 0 || i >= lines.len() {
        Seq::empty()
    } else if !st && is_h2(lines[i]) {
        seq![i] + h2_list(lines, i + 1, st)
    } else {
        h2_list(
            lines,
            i + 1,
            if is_fence(lines[i]) {
                !st
            } else {
                st
            },
        )
    }
}

pub proof fn lemma_h2_list_bounds(lines: Seq<Seq<char>>, i: int, st: bool)
    requires
        0 <= i,
    ensures
        forall|k: int|
            0 <= k < h2_list(lines, i, st).len() ==> i <= #[trigger] h2_list(lines, i, st)[k]
                < lines.len(),
        forall|k1: int, k2: int|
            0 <= k1 < k2 < h2_list(lines, i, st).len() ==> h2_list(lines, i, st)[k1] < h2_list(
                lines,
                i,
                st,
            )[k2],
        forall|k: int|
            0 <= k < h2_list(lines, i, st).len() ==> is_h2(
                lines[#[trigger] h2_list(lines, i, st)[k]],
            ),
    decreases lines.len() - i,
{
    if i < lines.len() {
        let r = h2_list(lines, i, st);
        if !st && is_h2(lines[i]) {
            lemma_h2_list_bounds(lines, i + 1, st);
            let rest = h2_list(lines, i + 1, st);
            assert(r == seq![i] + rest);
            assert(r[0] == i);
            assert(forall|k: int| 0 <= k < rest.len() ==> #[trigger] r[k + 1] == rest[k]);
            assert forall|k: int| 0 <= k < r.len() implies i <= #[trigger] r[k] < lines.len() by {
                if k > 0 {
                    assert(r[k] == rest[k - 1]);
                }
            }
            assert forall|k1: int, k2: int| 0 <= k1 < k2 < r.len() implies r[k1] < r[k2] by {
                assert(r[k2] == rest[k2 - 1]);
                assert(i + 1 <= rest[k2 - 1]);
                if k1 > 0 {
                    assert(r[k1] == rest[k1 - 1]);
                }
            }
            assert forall|k: int| 0 <= k < r.len() implies is_h2(lines[r[k]]) by {
                if k > 0 {
                    assert(r[k] == rest[k - 1]);
                }
            }
        } else {
            let st2 = if is_fence(lines[i]) {
                !st
            } else {
                st
            };
            lemma_h2_list_bounds(lines, i + 1, st2);
            assert(r == h2_list(lines, i + 1, st2));
        }
    }
}

/// Where the `k`-th question section ends: at the next heading, else at the
/// end of the document.
pub open spec fn sec_to(n_lines: int, hs: Seq<int>, k: int) -> int {
    if k + 1 < hs.len() {
        hs[k + 1]
    } else {
        n_lines
    }
}

/// The settled state of the `k`-th question section.
pub open spec fn q_sec(lv: Seq<Seq<char>>, hs: Seq<int>, k: int) -> SecSt {
    sec_finish(sec_fold(lv, hs[k] + 1, sec_to(lv.len() as int, hs, k), true))
}

/// The `k`-th heading's text.
pub open spec fn heading_text(lv: Seq<Seq<char>>, hs: Seq<int>, k: int) -> Seq<char> {
    lv[hs[k]].skip(3)
}

/// The number a heading's text parses to.
pub open spec fn h2_num(l: Seq<char>) -> u32 {
    (spec_parse_h2(l)->Some_0).0
}

/// The title a heading's text parses to.
pub open spec fn h2_title(l: Seq<char>) -> Seq<char> {
    (spec_parse_h2(l)->Some_0).1
}

/// A title selects multi-choice when it carries the `(Multi)` marker.
pub open spec fn title_is_multi(t: Seq<char>) -> bool {
    contains_seq(t, "(Multi)"@)
}

/// The labelled choices a section's checkbox items become.
pub open spec fn choices_match(cs: Seq<Choice>, raw: Seq<(bool, Seq<char>)>) -> bool {
    cs.len() == raw.len() && forall|i: int|
        0 <= i < cs.len() ==> (#[trigger] cs[i]).label == choice_label(i) && cs[i].marked
            == raw[i].0 && cs[i].text@ == raw[i].1
}

/// The question kind a section's checkbox items and kind override yield,
/// given the question's title.
pub open spec fn kind_matches(
    k: QuestionKind,
    choices: Seq<(bool, Seq<char>)>,
    tag: Option<SecKind>,
    title: Seq<char>,
) -> bool {
    if choices.len() > 0 {
        if title_is_multi(title) {
            k matches QuestionKind::MultiChoice(cs) && choices_match(cs@, choices)
        } else {
            k matches QuestionKind::SingleChoice(cs) && choices_match(cs@, choices)
        }
    } else {
        match tag {
            None => k == QuestionKind::Short,
            Some(SecKind::KShort) => k == QuestionKind::Short,
            Some(SecKind::KLong) => k == QuestionKind::Long,
            Some(SecKind::KFile(t)) => k matches QuestionKind::File(fc) && fc.max_files
                == spec_parse_fc(t).0 && fc.max_size == spec_parse_fc(t).1 && fc.accept@.map_values(
                |v: Vec<char>| v@,
            ) == spec_parse_fc(t).2,
        }
    }
}

/// Everything the `k`-th question is required to be.
pub open spec fn question_matches(q: Question, lv: Seq<Seq<char>>, hs: Seq<int>, k: int) -> bool {
    let st = q_sec(lv, hs, k);
    let h = spec_parse_h2(heading_text(lv, hs, k));
    &&& h is Some
    &&& q.number == h2_num(heading_text(lv, hs, k))
    &&& q.title@ == h2_title(heading_text(lv, hs, k))
    &&& q.hints@.map_values(|v: Vec<char>| v@) == st.hints
    &&& q.body_lines@.map_values(|e: BodyElement| body_el_view(e)) == st.body
    &&& kind_matches(q.kind, st.choices, st.kind_tag, h2_title(heading_text(lv, hs, k)))
}

/// When the body parses: every heading is `N. Title`, numbers are unique,
/// and no section has more than 26 checkbox items.
pub open spec fn body_ok(lv: Seq<Seq<char>>, hs: Seq<int>) -> bool {
    &&& forall|k: int|
        0 <= k < hs.len() ==> (#[trigger] spec_parse_h2(heading_text(lv, hs, k))) is Some
    &&& forall|k1: int, k2: int|
        0 <= k1 < k2 < hs.len() ==> #[trigger] h2_num(heading_text(lv, hs, k1)) != #[trigger] h2_num(
            heading_text(lv, hs, k2),
        )
    &&& forall|k: int| 0 <= k < hs.len() ==> (#[trigger] q_sec(lv, hs, k)).choices.len() <= 26
}

/// The first question section's start: everything before it is preamble.
pub open spec fn pre_end(lv: Seq<Seq<char>>, hs: Seq<int>) -> int {
    if hs.len() > 0 {
        hs[0]
    } else {
        lv.len() as int
    }
}

/// The settled preamble state.
pub open spec fn pre_sec(lv: Seq<Seq<char>>, hs: Seq<int>) -> SecSt {
    sec_finish(sec_fold(lv, 0, pre_end(lv, hs), false))
}

/// The document's fallback title: the last level-1 heading anywhere, the
/// empty text if there is none.
pub open spec fn last_title(lv: Seq<Seq<char>>, hs: Seq<int>, k: int) -> Option<Seq<char>>
    decreases k,
{
    if k <= 0 {
        pre_sec(lv, hs).title
    } else {
        match q_sec(lv, hs, k - 1).title {
            Some(t) => Some(t),
            None => last_title(lv, hs, k - 1),
        }
    }
}

pub open spec fn title_spec(lv: Seq<Seq<char>>, hs: Seq<int>) -> Seq<char> {
    match last_title(lv, hs, hs.len() as int) {
        Some(t) => t,
        None => Seq::empty(),
    }
}

/// Runs the section machine over the lines `[from, to)` and settles it.
#[verifier::loop_isolation(false)]
fn run_section(lines: &Vec<Vec<char>>, from: usize, to: usize, question_mode: bool) -> (m:
    SecMachine)
    requires
        from <= to <= lines@.len(),
    ensures
        m.view() == sec_finish(
            sec_fold(
                lines@.map_values(|v: Vec<char>| v@),
                from as int,
                to as int,
                question_mode,
            ),
        ),
{
    let ghost lv = lines@.map_values(|v: Vec<char>| v@);
    let mut m = SecMachine::new(question_mode);
    let mut i = from;
    while i < to
        invariant
            from <= i <= to,
            m.view() == sec_fold(lv, from as int, i as int, question_mode),
        decreases to - i,
    {
        m.step(lines[i].as_slice());
        proof {
            assert(lv[i as int] == lines@[i as int]@);
        }
        i += 1;
    }
    m.finish();
    m
}

/// Finds the level-2 heading lines, skipping fenced code.
#[verifier::loop_isolation(false)]
fn find_headings(lines: &Vec<Vec<char>>) -> (r: Vec<usize>)
    ensures
        r@.map_values(|u: usize| u as int) == h2_list(
            lines@.map_values(|v: Vec<char>| v@),
            0,
            false,
        ),
{
    let ghost lv = lines@.map_values(|v: Vec<char>| v@);
    let n = lines.len();
    let mut r: Vec<usize> = Vec::new();
    let mut st = false;
    let mut i: usize = 0;
    proof {
        assert(r@.map_values(|u: usize| u as int) + h2_list(lv, 0, false) =~= h2_list(
            lv,
            0,
            false,
        ));
    }
    while i < n
        invariant
            0 <= i <= n,
            n == lv.len(),
            h2_list(lv, 0, false) == r@.map_values(|u: usize| u as int) + h2_list(
                lv,
                i as int,
                st,
            ),
        decreases n - i,
    {
        let l = lines[i].as_slice();
        proof {
            assert(lv[i as int] == lines@[i as int]@);
        }
        if !st && line_is_h2(l) {
            let ghost prev = r@;
            r.push(i);
            proof {
                assert(r@.map_values(|u: usize| u as int) =~= prev.map_values(|u: usize| u as int)
                    + seq![i as int]);
                assert(prev.map_values(|u: usize| u as int) + h2_list(lv, i as int, st)
                    =~= r@.map_values(|u: usize| u as int) + h2_list(lv, i + 1, st));
            }
        } else {
            if line_is_fence(l) {
                st = !st;
            }
        }
        i += 1;
    }
    proof {
        assert(h2_list(lv, n as int, st) =~= Seq::<int>::empty());
        assert(r@.map_values(|u: usize| u as int) + Seq::<int>::empty() =~= r@.map_values(
            |u: usize| u as int,
        ));
    }
    r
}

/// Resolves a section's checkbox items and kind override into a question's
/// kind, labelling the choices `a`, `b`, `c`, ... in document order.
#[verifier::loop_isolation(false)]
fn resolve_kind(
    items: Vec<(bool, Vec<char>)>,
    kind_tag: Option<KindOverride>,
    title: &[char],
) -> (r: Result<QuestionKind, DocumentError>)
    ensures
        ({
            let raw = items@.map_values(|p: (bool, Vec<char>)| (p.0, p.1@));
            match r {
                Ok(k) => raw.len() <= 26 && kind_matches(
                    k,
                    raw,
                    kind_override_view(kind_tag),
                    title@,
                ),
                Err(_) => raw.len() > 26,
            }
        }),
{
    let ghost raw = items@.map_values(|p: (bool, Vec<char>)| (p.0, p.1@));
    if items.len() > 0 {
        if items.len() > 26 {
            return Err(
                DocumentError {
                    message: str_to_chars("Too many checkbox choices under one question"),
                },
            );
        }
        let mut cs: Vec<Choice> = Vec::new();
        let nc = items.len();
        let mut i: usize = 0;
        while i < nc
            invariant
                0 <= i <= nc,
                nc == items@.len(),
                nc <= 26,
                raw == items@.map_values(|p: (bool, Vec<char>)| (p.0, p.1@)),
                cs@.len() == i,
                forall|j: int|
                    0 <= j < i ==> (#[trigger] cs@[j]).label == choice_label(j) && cs@[j].marked
                        == raw[j].0 && cs@[j].text@ == raw[j].1,
            decreases nc - i,
        {
            let (marked, text) = copy_pair(&items[i]);
            let label = ((97 + i as u8)) as char;
            proof {
                assert(label == choice_label(i as int));
            }
            cs.push(Choice { label, text, marked });
            i += 1;
        }
        proof {
            reveal_strlit("(Multi)");
        }
        if contains_str(title, "(Multi)") {
            Ok(QuestionKind::MultiChoice(cs))
        } else {
            Ok(QuestionKind::SingleChoice(cs))
        }
    } else {
        match kind_tag {
            None => Ok(QuestionKind::Short),
            Some(KindOverride::OShort) => Ok(QuestionKind::Short),
            Some(KindOverride::OLong) => Ok(QuestionKind::Long),
            Some(KindOverride::OFile(t)) => Ok(
                QuestionKind::File(parse_file_constraints(t.as_slice())),
            ),
        }
    }
}

fn copy_pair(p: &(bool, Vec<char>)) -> (r: (bool, Vec<char>))
    ensures
        r.0 == p.0,
        r.1@ == p.1@,
{
    let mut t: Vec<char> = Vec::new();
    push_chars(&mut t, p.1.as_slice());
    (p.0, t)
}

/// Parses the document body: the fallback title, the preamble, and the
/// questions in document order.
#[verifier::loop_isolation(false)]
#[verifier::rlimit(80)]
pub fn parse_body(body: &[char]) -> (r: Result<
    (Vec<char>, Vec<Vec<char>>, Vec<Question>),
    DocumentError,
>)
    ensures
        ({
            let lv = split_lines_spec(body@);
            let hs = h2_list(lv, 0, false);
            match r {
                Ok(t) => {
                    &&& body_ok(lv, hs)
                    &&& t.0@ == title_spec(lv, hs)
                    &&& t.1@.map_values(|v: Vec<char>| v@) == pre_sec(lv, hs).preamble
                    &&& t.2@.len() == hs.len()
                    &&& forall|k: int|
                        0 <= k < hs.len() ==> question_matches(#[trigger] t.2@[k], lv, hs, k)
                },
                Err(_) => !body_ok(lv, hs),
            }
        }),
{
    let lines = split_lines(body);
    let ghost lv = lines@.map_values(|l: Vec<char>| l@);
    proof {
        assert(lv == split_lines_spec(body@));
    }
    let hs = find_headings(&lines);
    let ghost hsv = hs@.map_values(|u: usize| u as int);
    proof {
        lemma_h2_list_bounds(lv, 0, false);
    }
    let n_lines = lines.len();
    let nq = hs.len();

    // Preamble section.
    let first = if nq > 0 {
        hs[0]
    } else {
        n_lines
    };
    let pre = run_section(&lines, 0, first, false);
    let ghost pre_st = pre.view();
    proof {
        assert(pre_st == pre_sec(lv, hsv));
    }
    let mut title: Option<Vec<char>> = pre.title;
    let preamble: Vec<Vec<char>> = pre.preamble;

    let mut questions: Vec<Question> = Vec::new();
    let mut k: usize = 0;
    proof {
        assert(opt_chars_view(title) == last_title(lv, hsv, 0));
    }
    while k < nq
        invariant
            0 <= k <= nq,
            nq == hsv.len(),
            questions@.len() == k,
            opt_chars_view(title) == last_title(lv, hsv, k as int),
            forall|j: int| 0 <= j < k ==> question_matches(#[trigger] questions@[j], lv, hsv, j),
            forall|j: int|
                0 <= j < k ==> (#[trigger] spec_parse_h2(heading_text(lv, hsv, j))) is Some,
            forall|j: int| 0 <= j < k ==> (#[trigger] q_sec(lv, hsv, j)).choices.len() <= 26,
            forall|j1: int, j2: int|
                0 <= j1 < j2 < k ==> #[trigger] h2_num(heading_text(lv, hsv, j1))
                    != #[trigger] h2_num(heading_text(lv, hsv, j2)),
        decreases nq - k,
    {
        let from = hs[k] + 1;
        let to = if k + 1 < nq {
            hs[k + 1]
        } else {
            n_lines
        };
        proof {
            assert(hsv[k as int] < lv.len());
            if k + 1 < nq {
                assert(hsv[k as int] < hsv[k + 1]);
            }
            assert(sec_to(lv.len() as int, hsv, k as int) == to as int);
        }
        let m = run_section(&lines, from, to, true);
        let ghost mst = m.view();
        proof {
            assert(mst == q_sec(lv, hsv, k as int));
        }
        let SecMachine { title: m_title, body: m_body, choices: m_choices, kind_tag: m_kind, hints:
            m_hints, .. } = m;
        let hline = lines[hs[k]].as_slice();
        let htext = slice_from(hline, 3);
        proof {
            assert(lv[hsv[k as int]] == lines@[hsv[k as int]]@);
            assert(htext@ == heading_text(lv, hsv, k as int));
        }
        let (number, qtitle) = match parse_h2_title(htext.as_slice()) {
            Ok(p) => p,
            Err(e) => {
                return Err(e);
            },
        };
        // duplicate numbers are fatal
        let mut j: usize = 0;
        while j < questions.len()
            invariant
                0 <= j <= questions@.len(),
                questions@.len() == k,
                forall|i2: int| 0 <= i2 < j ==> (#[trigger] questions@[i2]).number != number,
            decreases questions@.len() - j,
        {
            if questions[j].number == number {
                let mut msg = str_to_chars("Duplicate question number in heading: ");
                push_chars(&mut msg, htext.as_slice());
                proof {
                    assert(question_matches(questions@[j as int], lv, hsv, j as int));
                    assert(h2_num(heading_text(lv, hsv, j as int)) == number);
                    assert(h2_num(heading_text(lv, hsv, k as int)) == number);
                    assert(!body_ok(lv, hsv));
                }
                return Err(DocumentError { message: msg });
            }
            j += 1;
        }
        if let Some(t) = m_title {
            title = Some(t);
        }
        proof {
            assert(opt_chars_view(title) == last_title(lv, hsv, k + 1));
        }
        let ghost qtitle_v = qtitle@;
        let kind = match resolve_kind(m_choices, m_kind, qtitle.as_slice()) {
            Ok(kd) => kd,
            Err(e) => {
                proof {
                    assert(q_sec(lv, hsv, k as int).choices.len() > 26);
                    assert(!body_ok(lv, hsv));
                }
                return Err(e);
            },
        };
        proof {
            assert(forall|i2: int|
                0 <= i2 < k ==> #[trigger] h2_num(heading_text(lv, hsv, i2))
                    == questions@[i2].number);
        }
        let q = Question { number, title: qtitle, body_lines: m_body, kind, hints: m_hints };
        proof {
            assert(question_matches(q, lv, hsv, k as int));
        }
        questions.push(q);
        k += 1;
    }
    let title_out = match title {
        Some(t) => t,
        None => Vec::new(),
    };
    Ok((title_out, preamble, questions))
}

// ---------------------------------------------------------------------------
// Frontmatter
// ---------------------------------------------------------------------------
/// Splits the leading `---`-delimited metadata block from the body.
pub open spec fn spec_split_frontmatter(s: Seq<char>) -> Option<(Seq<char>, Seq<char>)> {
    let t = s.skip(ws_prefix_len(s));
    if !(t.len() >= 3 && t.take(3) == "---"@) {
        None
    } else {
        let rest = t.skip(3);
        let k = find_seq(rest, "\n---"@, 0);
        if k < 0 {
            None
        } else {
            Some((trim_spec(rest.take(k)), rest.skip(k + 4)))
        }
    }
}

/// Splits the document into its metadata block and its body.
pub fn split_frontmatter(content: &[char]) -> (r: Result<(Vec<char>, Vec<char>), DocumentError>)
    ensures
        match r {
            Ok(p) => spec_split_frontmatter(content@) == Some((p.0@, p.1@)),
            Err(_) => spec_split_frontmatter(content@) == None::<(Seq<char>, Seq<char>)>,
        },
{
    let n = content.len();
    let mut a: usize = 0;
    while a < n && is_ws_char(content[a])
        invariant
            0 <= a <= n,
            n == content@.len(),
            forall|j: int| 0 <= j < a ==> is_ws(content@[j]),
        decreases n - a,
    {
        a += 1;
    }
    proof {
        crate::text::lemma_ws_prefix_unique(content@, a as int);
        reveal_strlit("---");
        reveal_strlit("\n---");
    }
    let t = slice_from(content, a);
    if !starts_with_str(t.as_slice(), "---") {
        return Err(
            DocumentError {
                message: str_to_chars("Quiz file must start with YAML frontmatter (---)"),
            },
        );
    }
    let rest = slice_from(t.as_slice(), 3);
    match find_str(rest.as_slice(), "\n---") {
        None => Err(DocumentError { message: str_to_chars("No closing --- for frontmatter") }),
        Some(k) => {
            proof {
                crate::text::lemma_find_seq_found(rest@, "\n---"@, 0, k as int);
            }
            let fm_raw = slice_to(rest.as_slice(), k);
            let fm = trim_chars(fm_raw.as_slice());
            let body = slice_from(rest.as_slice(), k + 4);
            Ok((fm, body))
        },
    }
}

/// The frontmatter machine's state: the fields seen so far.
pub struct FmSt {
    pub title: Option<Seq<char>>,
    pub start: Option<Seq<char>>,
    pub end: Option<Seq<char>>,
    pub ack: bool,
    pub ack_required: bool,
    pub ack_text: Option<Seq<char>>,
    pub in_ack: bool,
}

pub open spec fn fm_init() -> FmSt {
    FmSt {
        title: None,
        start: None,
        end: None,
        ack: false,
        ack_required: false,
        ack_text: None,
        in_ack: false,
    }
}

/// A frontmatter value: trimmed; a double-quoted scalar spanning the whole
/// value is decoded.
pub open spec fn fm_value(v: Seq<char>) -> Seq<char> {
    let t = trim_spec(v);
    if t.len() >= 1 && t[0] == '"' {
        match scan_quoted_spec(t, 1) {
            Some((s, j)) => if j == t.len() {
                s
            } else {
                t
            },
            None => t,
        }
    } else {
        t
    }
}

/// One frontmatter line.
pub open spec fn fm_step(st: FmSt, l: Seq<char>) -> FmSt {
    if is_blank(l) {
        st
    } else if is_ws(l[0]) {
        if st.in_ack {
            let colon = find_ch(l, ':', 0);
            if colon == l.len() {
                st
            } else {
                let key = trim_spec(l.take(colon));
                let value = fm_value(l.skip(colon + 1));
                if key == "required"@ {
                    FmSt { ack_required: value == "true"@, ..st }
                } else if key == "text"@ {
                    FmSt { ack_text: Some(value), ..st }
                } else {
                    st
                }
            }
        } else {
            st
        }
    } else {
        let st0 = FmSt { in_ack: false, ..st };
        let colon = find_ch(l, ':', 0);
        if colon == l.len() {
            st0
        } else {
            let key = trim_spec(l.take(colon));
            let value = fm_value(l.skip(colon + 1));
            if key == "title"@ {
                FmSt { title: Some(value), ..st0 }
            } else if key == "start"@ {
                FmSt { start: Some(value), ..st0 }
            } else if key == "end"@ {
                FmSt { end: Some(value), ..st0 }
            } else if key == "acknowledgment"@ {
                FmSt { ack: true, in_ack: true, ..st0 }
            } else {
                st0
            }
        }
    }
}

pub open spec fn fm_fold(lines: Seq<Seq<char>>, i: int) -> FmSt
    decreases i,
{
    if i <= 0 {
        fm_init()
    } else {
        fm_step(fm_fold(lines, i - 1), lines[i - 1])
    }
}

/// The settled frontmatter of a metadata text.
pub open spec fn fm_of(text: Seq<char>) -> FmSt {
    let lines = split_lines_spec(text);
    fm_fold(lines, lines.len() as int)
}

/// When a settled frontmatter is acceptable: both window bounds present and
/// readable as RFC 3339 instants.
pub open spec fn fm_ok(st: FmSt) -> bool {
    &&& st.start is Some
    &&& st.end is Some
    &&& crate::timer::rfc3339_secs_of(st.start->0) is Some
    &&& crate::timer::rfc3339_secs_of(st.end->0) is Some
}

/// What a parsed `Frontmatter` must be, given the settled machine state.
pub open spec fn frontmatter_matches(fm: Frontmatter, st: FmSt) -> bool {
    &&& opt_chars_view(fm.title) == st.title
    &&& fm.start.text@ == st.start->0
    &&& fm.end.text@ == st.end->0
    &&& fm.start.wf()
    &&& fm.end.wf()
    &&& match fm.acknowledgment {
        None => !st.ack,
        Some(a) => st.ack && a.required == st.ack_required && opt_chars_view(a.text)
            == st.ack_text,
    }
}

/// Reads one frontmatter value.
fn fm_value_exec(v: &[char]) -> (r: Vec<char>)
    ensures
        r@ == fm_value(v@),
{
    let t = trim_chars(v);
    if t.len() >= 1 && t[0] == '"' {
        match crate::text::scan_quoted(t.as_slice(), 1) {
            Some((s, j)) => {
                if j == t.len() {
                    s
                } else {
                    t
                }
            },
            None => t,
        }
    } else {
        t
    }
}

/// Parses the metadata block into a `Frontmatter`; missing or invalid
/// timestamps are an error.
#[verifier::loop_isolation(false)]
pub fn parse_frontmatter(text: &[char]) -> (r: Result<Frontmatter, DocumentError>)
    ensures
        match r {
            Ok(fm) => fm_ok(fm_of(text@)) && frontmatter_matches(fm, fm_of(text@)),
            Err(_) => !fm_ok(fm_of(text@)),
        },
{
    let lines = split_lines(text);
    let ghost lv = lines@.map_values(|l: Vec<char>| l@);
    proof {
        assert(lv == split_lines_spec(text@));
    }
    let n = lines.len();
    let mut title: Option<Vec<char>> = None;
    let mut start: Option<Vec<char>> = None;
    let mut end: Option<Vec<char>> = None;
    let mut ack = false;
    let mut ack_required = false;
    let mut ack_text: Option<Vec<char>> = None;
    let mut in_ack = false;
    let mut i: usize = 0;
    while i < n
        invariant
            0 <= i <= n,
            n == lv.len(),
            fm_fold(lv, i as int) == (FmSt {
                title: opt_chars_view(title),
                start: opt_chars_view(start),
                end: opt_chars_view(end),
                ack,
                ack_required,
                ack_text: opt_chars_view(ack_text),
                in_ack,
            }),
        decreases n - i,
    {
        let l = lines[i].as_slice();
        proof {
            assert(lv[i as int] == lines@[i as int]@);
        }
        if line_is_blank(l) {
        } else if is_ws_char(l[0]) {
            if in_ack {
                match find_char(l, ':', 0) {
                    None => {
                        proof {
                            lemma_find_ch_is(l@, ':', 0, l@.len() as int);
                        }
                    },
                    Some(c) => {
                        proof {
                            lemma_find_ch_is(l@, ':', 0, c as int);
                        }
                        let key_part = slice_to(l, c);
                        let key = trim_chars(key_part.as_slice());
                        let val_part = slice_from(l, c + 1);
                        let value = fm_value_exec(val_part.as_slice());
                        proof {
                            reveal_strlit("required");
                            reveal_strlit("text");
                            reveal_strlit("true");
                        }
                        if chars_eq_str(key.as_slice(), "required") {
                            ack_required = chars_eq_str(value.as_slice(), "true");
                        } else if chars_eq_str(key.as_slice(), "text") {
                            ack_text = Some(value);
                        }
                    },
                }
            }
        } else {
            in_ack = false;
            match find_char(l, ':', 0) {
                None => {
                    proof {
                        lemma_find_ch_is(l@, ':', 0, l@.len() as int);
                    }
                },
                Some(c) => {
                    proof {
                        lemma_find_ch_is(l@, ':', 0, c as int);
                    }
                    let key_part = slice_to(l, c);
                    let key = trim_chars(key_part.as_slice());
                    let val_part = slice_from(l, c + 1);
                    let value = fm_value_exec(val_part.as_slice());
                    proof {
                        reveal_strlit("title");
                        reveal_strlit("start");
                        reveal_strlit("end");
                        reveal_strlit("acknowledgment");
                    }
                    if chars_eq_str(key.as_slice(), "title") {
                        title = Some(value);
                    } else if chars_eq_str(key.as_slice(), "start") {
                        start = Some(value);
                    } else if chars_eq_str(key.as_slice(), "end") {
                        end = Some(value);
                    } else if chars_eq_str(key.as_slice(), "acknowledgment") {
                        ack = true;
                        in_ack = true;
                    }
                },
            }
        }
        i += 1;
    }
    let start_text = match start {
        Some(t) => t,
        None => {
            return Err(
                DocumentError { message: str_to_chars("Invalid frontmatter: missing start") },
            );
        },
    };
    let end_text = match end {
        Some(t) => t,
        None => {
            return Err(DocumentError { message: str_to_chars("Invalid frontmatter: missing end") });
        },
    };
    let start_secs = match crate::timer::parse_rfc3339_secs(start_text.as_slice()) {
        Some(s) => s,
        None => {
            return Err(
                DocumentError { message: str_to_chars("Invalid frontmatter: bad start timestamp") },
            );
        },
    };
    let end_secs = match crate::timer::parse_rfc3339_secs(end_text.as_slice()) {
        Some(s) => s,
        None => {
            return Err(
                DocumentError { message: str_to_chars("Invalid frontmatter: bad end timestamp") },
            );
        },
    };
    let acknowledgment = if ack {
        Some(AckConfig { required: ack_required, text: ack_text })
    } else {
        None
    };
    Ok(
        Frontmatter {
            title,
            start: Timestamp { text: start_text, secs: start_secs },
            end: Timestamp { text: end_text, secs: end_secs },
            acknowledgment,
        },
    )
}

// ---------------------------------------------------------------------------
// The whole document
// ---------------------------------------------------------------------------
/// The metadata part of a split document.
pub open spec fn sf_fm(content: Seq<char>) -> Seq<char> {
    (spec_split_frontmatter(content)->Some_0).0
}

/// The body part of a split document.
pub open spec fn sf_body(content: Seq<char>) -> Seq<char> {
    (spec_split_frontmatter(content)->Some_0).1
}

/// When a document parses: the metadata block is present and acceptable and
/// the body's sections are well-formed.
pub open spec fn quiz_ok(content: Seq<char>) -> bool {
    &&& spec_split_frontmatter(content) is Some
    &&& fm_ok(fm_of(sf_fm(content)))
    &&& body_ok(split_lines_spec(sf_body(content)), h2_list(split_lines_spec(sf_body(content)), 0, false))
}

/// Everything a parsed `Quiz` must be.
pub open spec fn quiz_matches(
    q: Quiz,
    content: Seq<char>,
    quiz_file: Seq<char>,
    quiz_hash: Seq<char>,
) -> bool {
    let fm_text = sf_fm(content);
    let body = sf_body(content);
    let lv = split_lines_spec(body);
    let hs = h2_list(lv, 0, false);
    let st = fm_of(fm_text);
    &&& frontmatter_matches(q.frontmatter, st)
    &&& q.title@ == (match st.title {
        Some(t) => t,
        None => title_spec(lv, hs),
    })
    &&& q.preamble@.map_values(|v: Vec<char>| v@) == pre_sec(lv, hs).preamble
    &&& q.questions@.len() == hs.len()
    &&& forall|k: int| 0 <= k < hs.len() ==> question_matches(#[trigger] q.questions@[k], lv, hs, k)
    &&& q.quiz_file@ == quiz_file
    &&& q.quiz_hash@ == quiz_hash
}

/// Parses a quiz document. On success the quiz is well-formed: question
/// numbers are unique and choices are labelled `a`, `b`, `c`, ... in
/// document order.
pub fn parse_quiz(content: &[char], quiz_file: &[char], quiz_hash: &[char]) -> (r: Result<
    Quiz,
    DocumentError,
>)
    ensures
        match r {
            Ok(q) => quiz_ok(content@) && quiz_matches(q, content@, quiz_file@, quiz_hash@)
                && q.wf(),
            Err(_) => !quiz_ok(content@),
        },
{
    let (fm_text, body) = match split_frontmatter(content) {
        Ok(p) => p,
        Err(e) => {
            return Err(e);
        },
    };
    let fm = match parse_frontmatter(fm_text.as_slice()) {
        Ok(f) => f,
        Err(e) => {
            return Err(e);
        },
    };
    let (body_title, preamble, questions) = match parse_body(body.as_slice()) {
        Ok(t) => t,
        Err(e) => {
            return Err(e);
        },
    };
    let title = match &fm.title {
        Some(t) => {
            let mut c: Vec<char> = Vec::new();
            push_chars(&mut c, t.as_slice());
            c
        },
        None => body_title,
    };
    let mut qf: Vec<char> = Vec::new();
    push_chars(&mut qf, quiz_file);
    let mut qh: Vec<char> = Vec::new();
    push_chars(&mut qh, quiz_hash);
    let q = Quiz { frontmatter: fm, title, preamble, questions, quiz_file: qf, quiz_hash: qh };
    proof {
        let lv = split_lines_spec(body@);
        let hs = h2_list(lv, 0, false);
        assert forall|i: int, j: int|
            0 <= i < j < q.questions@.len() implies (#[trigger] q.questions@[i]).number != (
        #[trigger] q.questions@[j]).number by {
            assert(question_matches(q.questions@[i], lv, hs, i));
            assert(question_matches(q.questions@[j], lv, hs, j));
            assert(h2_num(heading_text(lv, hs, i)) != h2_num(heading_text(lv, hs, j)));
        }
        assert forall|i: int| 0 <= i < q.questions@.len() implies (
        #[trigger] q.questions@[i]).wf() by {
            assert(question_matches(q.questions@[i], lv, hs, i));
            let st = q_sec(lv, hs, i);
            assert(st.choices.len() <= 26);
            match q.questions@[i].kind {
                QuestionKind::SingleChoice(cs) => {
                    assert(choices_match(cs@, st.choices));
                },
                QuestionKind::MultiChoice(cs) => {
                    assert(choices_match(cs@, st.choices));
                },
                _ => {},
            }
        }
    }
    Ok(q)
}

} // verus!
