//! Freezing a session into the submission/snapshot document, and the
//! publish-with-retry pipeline's decision machine.
//!
//! The document is plain YAML built line by line; `build_answers_yaml` is
//! proved to produce exactly `snap_lines` of the session's snapshot
//! projection, which the persistence layer reads back.
use vstd::prelude::*;

use crate::model::{Answer, AnswerKind, Choice, QuestionKind, Quiz};
use crate::state::Session;
use crate::text::{
    fmt_u64, join_lines, lemma_join_lines_append, push_chars, push_quoted, push_str_chars, quoted,
    spec_fmt_u64,
};
use crate::timer::{parse_rfc3339_secs, rfc3339_secs_of, spec_pad2};

verus! {

broadcast use vstd::utf8::char_is_scalar;

// ---------------------------------------------------------------------------
// The snapshot projection of a session
// ---------------------------------------------------------------------------
/// One answer, reduced to its payload.
pub enum AnsSnap {
    ASel(Seq<char>),
    AText(Seq<char>),
    AFiles(Seq<Seq<char>>),
}

/// One question's progress record.
#[verifier::ext_equal]
pub struct QSnap {
    pub answer: Option<AnsSnap>,
    pub hint: int,
    pub done: bool,
    pub flagged: bool,
    pub visited: bool,
}

/// Everything the snapshot persists of a session.
#[verifier::ext_equal]
pub struct SnapData {
    pub current: u64,
    pub started: Option<Seq<char>>,
    pub submitted: Option<Seq<char>>,
    pub ack: Option<(Seq<char>, Seq<char>, Seq<char>)>,
    pub qs: Seq<QSnap>,
}

/// An answer's payload.
pub open spec fn ans_snap(a: Answer) -> AnsSnap {
    match a.answer_type {
        AnswerKind::Single => AnsSnap::ASel((a.selected->0)@),
        AnswerKind::Multi => AnsSnap::ASel((a.selected->0)@),
        AnswerKind::Short => AnsSnap::AText((a.text->0)@),
        AnswerKind::Long => AnsSnap::AText((a.text->0)@),
        AnswerKind::File => AnsSnap::AFiles((a.files->0)@.map_values(|v: Vec<char>| v@)),
    }
}

pub open spec fn opt_view(t: Option<Vec<char>>) -> Option<Seq<char>> {
    match t {
        None => None,
        Some(v) => Some(v@),
    }
}

/// The snapshot a session projects to.
pub open spec fn snap_of(s: Session) -> SnapData {
    SnapData {
        current: s.current_question as u64,
        started: opt_view(s.started_at),
        submitted: opt_view(s.submitted_at),
        ack: match s.ack_data {
            None => None,
            Some(a) => Some((a.name@, a.agreed_at@, a.text_hash@)),
        },
        qs: Seq::new(
            s.quiz.questions@.len(),
            |k: int|
                QSnap {
                    answer: if s.answers@.contains_key(s.quiz.questions@[k].number) {
                        Some(ans_snap(s.answers@[s.quiz.questions@[k].number]))
                    } else {
                        None
                    },
                    hint: if s.hints_revealed@.contains_key(s.quiz.questions@[k].number) {
                        s.hints_revealed@[s.quiz.questions@[k].number] as int
                    } else {
                        0
                    },
                    done: s.done_marks@.contains(s.quiz.questions@[k].number),
                    flagged: s.flags@.contains(s.quiz.questions@[k].number),
                    visited: s.visited@.contains(s.quiz.questions@[k].number),
                },
        ),
    }
}

pub open spec fn is_lower(c: char) -> bool {
    crate::text::is_lower(c)
}

pub open spec fn all_lower(s: Seq<char>) -> bool {
    forall|i: int| 0 <= i < s.len() ==> is_lower(s[i])
}

/// When a snapshot is coherent with a quiz: the record count matches, the
/// position is in range, and every per-question record respects the
/// question's kind and the status invariants.
pub open spec fn snap_ok(q: Quiz, d: SnapData) -> bool {
    &&& d.qs.len() == q.questions@.len()
    &&& (q.questions@.len() == 0 ==> d.current == 0)
    &&& (q.questions@.len() > 0 ==> (d.current as int) < q.questions@.len())
    &&& (d.started matches Some(t) ==> t.len() > 0)
    &&& (d.submitted matches Some(t) ==> t != "unknown"@)
    &&& (d.ack matches Some(a) ==> a.0.len() > 0)
    &&& forall|k: int| 0 <= k < d.qs.len() ==> q_snap_ok(q.questions@[k].kind, #[trigger] d.qs[k],
        q.questions@[k].hints@.len() as int)
}

pub open spec fn q_snap_ok(kind: QuestionKind, qs: QSnap, n_hints: int) -> bool {
    &&& 0 <= qs.hint <= n_hints
    &&& qs.hint <= u64::MAX
    &&& (qs.done ==> qs.answer is Some)
    &&& !(qs.done && qs.flagged)
    &&& match qs.answer {
        None => true,
        Some(AnsSnap::ASel(sel)) => (kind is SingleChoice || kind is MultiChoice) && all_lower(sel)
            && (kind is SingleChoice ==> sel.len() == 1),
        Some(AnsSnap::AText(t)) => (kind is Short || kind is Long) && t.len() > 0,
        Some(AnsSnap::AFiles(fs)) => kind is File && fs.len() > 0,
    }
}

// ---------------------------------------------------------------------------
// The document, line by line
// ---------------------------------------------------------------------------
pub open spec fn bool_word(b: bool) -> Seq<char> {
    if b {
        "true"@
    } else {
        "false"@
    }
}

/// The duration between two RFC 3339 instants as `HH:MM:SS`, or `unknown`.
pub open spec fn spec_duration(started: Option<Seq<char>>, submitted: Option<Seq<char>>) -> Seq<
    char,
> {
    if started is Some && submitted is Some && rfc3339_secs_of(started->0) is Some
        && rfc3339_secs_of(submitted->0) is Some {
        let d = rfc3339_secs_of(submitted->0)->0 - rfc3339_secs_of(started->0)->0;
        let secs = if d <= 0 {
            0int
        } else {
            d as int
        };
        spec_pad2(secs / 3600) + ":"@ + spec_pad2((secs % 3600) / 60) + ":"@ + spec_pad2(secs % 60)
    } else {
        "unknown"@
    }
}

/// Computes the `HH:MM:SS` duration between start and submission.
pub fn compute_duration(started: &Option<Vec<char>>, submitted: &Option<Vec<char>>) -> (r: Vec<
    char,
>)
    ensures
        r@ == spec_duration(opt_view(*started), opt_view(*submitted)),
{
    let st: i64;
    let su: i64;
    match started {
        Some(t) => match parse_rfc3339_secs(t.as_slice()) {
            Some(v) => {
                st = v;
            },
            None => {
                return crate::text::str_to_chars("unknown");
            },
        },
        None => {
            return crate::text::str_to_chars("unknown");
        },
    }
    match submitted {
        Some(t) => match parse_rfc3339_secs(t.as_slice()) {
            Some(v) => {
                su = v;
            },
            None => {
                return crate::text::str_to_chars("unknown");
            },
        },
        None => {
            return crate::text::str_to_chars("unknown");
        },
    }
    let secs: u64 = if su <= st {
        0
    } else {
        if st >= 0 {
            (su - st) as u64
        } else if su >= 0 {
            (su as u64) + neg_mag(st)
        } else {
            neg_mag(st) - neg_mag(su)
        }
    };
    let mut out: Vec<char> = Vec::new();
    push_pad2_local(&mut out, secs / 3600);
    out.push(':');
    push_pad2_local(&mut out, (secs % 3600) / 60);
    out.push(':');
    push_pad2_local(&mut out, secs % 60);
    proof {
        reveal_strlit(":");
        let d = rfc3339_secs_of(opt_view(*submitted)->0)->0 - rfc3339_secs_of(
            opt_view(*started)->0,
        )->0;
        let sp = if d <= 0 {
            0int
        } else {
            d as int
        };
        assert(secs as int == sp);
        assert(out@ =~= spec_pad2(sp / 3600) + ":"@ + spec_pad2((sp % 3600) / 60) + ":"@
            + spec_pad2(sp % 60));
    }
    out
}

/// The magnitude of a negative value, as unsigned.
fn neg_mag(x: i64) -> (r: u64)
    requires
        x < 0,
    ensures
        r as int == -(x as int),
{
    (-(x + 1)) as u64 + 1
}

fn push_pad2_local(out: &mut Vec<char>, n: u64)
    ensures
        final(out)@ == old(out)@ + spec_pad2(n as int),
{
    if n < 10 {
        out.push('0');
        proof {
            assert(seq!['0'] =~= seq![crate::text::digit_char(0)]);
            assert(old(out)@.push('0') =~= old(out)@ + seq![crate::text::digit_char(0)]);
        }
    }
    let d = fmt_u64(n);
    push_chars(out, d.as_slice());
}

/// The word the snapshot uses for a question's kind.
pub open spec fn kind_word(k: QuestionKind) -> Seq<char> {
    match k {
        QuestionKind::SingleChoice(_) => "single"@,
        QuestionKind::MultiChoice(_) => "multi"@,
        QuestionKind::Short => "short"@,
        QuestionKind::Long => "long"@,
        QuestionKind::File(_) => "file"@,
    }
}

/// Labels joined with `, `.
pub open spec fn join_labels(sel: Seq<char>) -> Seq<char>
    decreases sel.len(),
{
    if sel.len() == 0 {
        Seq::empty()
    } else if sel.len() == 1 {
        seq![sel[0]]
    } else {
        seq![sel[0]] + ", "@ + join_labels(sel.skip(1))
    }
}

/// Quoted texts joined with `, `.
pub open spec fn join_quoted(fs: Seq<Seq<char>>) -> Seq<char>
    decreases fs.len(),
{
    if fs.len() == 0 {
        Seq::empty()
    } else if fs.len() == 1 {
        quoted(fs[0])
    } else {
        quoted(fs[0]) + ", "@ + join_quoted(fs.skip(1))
    }
}

/// The choice block: nothing for non-choice kinds.
pub open spec fn choice_lines(k: QuestionKind) -> Seq<Seq<char>> {
    match k {
        QuestionKind::SingleChoice(cs) => seq!["    choices:"@] + choice_entry_lines(cs@),
        QuestionKind::MultiChoice(cs) => seq!["    choices:"@] + choice_entry_lines(cs@),
        _ => Seq::empty(),
    }
}

pub open spec fn choice_entry_lines(cs: Seq<Choice>) -> Seq<Seq<char>> {
    Seq::new(cs.len(), |i: int| "      "@ + seq![cs[i].label] + ": "@ + quoted(cs[i].text@))
}

/// The one `answer:` line of a question.
pub open spec fn answer_line(kind: QuestionKind, ans: Option<AnsSnap>) -> Seq<char> {
    match ans {
        None => "    answer: null"@,
        Some(AnsSnap::ASel(sel)) => if kind is SingleChoice {
            "    answer: "@ + sel
        } else {
            "    answer: ["@ + join_labels(sel) + "]"@
        },
        Some(AnsSnap::AText(t)) => "    answer: "@ + quoted(t),
        Some(AnsSnap::AFiles(fs)) => "    answer: ["@ + join_quoted(fs) + "]"@,
    }
}

/// One question's lines.
pub open spec fn q_lines(q: Quiz, d: SnapData, k: int) -> Seq<Seq<char>> {
    let qu = q.questions@[k];
    let qs = d.qs[k];
    seq![
        "  - number: "@ + spec_fmt_u64(qu.number as int),
        "    title: "@ + quoted(qu.title@),
        "    type: "@ + kind_word(qu.kind),
    ] + choice_lines(qu.kind) + seq![
        "    hint_used: "@ + bool_word(qs.hint > 0),
        "    hints_revealed: "@ + spec_fmt_u64(qs.hint),
        "    done: "@ + bool_word(qs.done),
        "    flagged: "@ + bool_word(qs.flagged),
        "    visited: "@ + bool_word(qs.visited),
        answer_line(qu.kind, qs.answer),
    ]
}

/// The lines of questions `[0, k)`.
pub open spec fn all_q_lines(q: Quiz, d: SnapData, k: int) -> Seq<Seq<char>>
    decreases k,
{
    if k <= 0 {
        Seq::empty()
    } else {
        all_q_lines(q, d, k - 1) + q_lines(q, d, k - 1)
    }
}

pub open spec fn opt_or_empty(t: Option<Seq<char>>) -> Seq<char> {
    match t {
        None => Seq::empty(),
        Some(v) => v,
    }
}

pub open spec fn ack_part(a: Option<(Seq<char>, Seq<char>, Seq<char>)>, i: int) -> Seq<char> {
    match a {
        None => Seq::empty(),
        Some(t) => if i == 0 {
            t.0
        } else if i == 1 {
            t.1
        } else {
            t.2
        },
    }
}

/// The fixed header: the quiz block and the session block.
pub open spec fn header_lines(q: Quiz, d: SnapData) -> Seq<Seq<char>> {
    seq![
        "quiz:"@,
        "  title: "@ + quoted(q.title@),
        "  source: "@ + quoted(q.quiz_file@),
        "  submitted_at: "@ + quoted(
            match d.submitted {
                Some(t) => t,
                None => "unknown"@,
            },
        ),
        "  duration: "@ + quoted(spec_duration(d.started, d.submitted)),
        "  acknowledged: "@ + bool_word(d.ack is Some),
        Seq::<char>::empty(),
        "session:"@,
        "  current_question: "@ + spec_fmt_u64(d.current as int),
        "  quiz_file_hash: "@ + quoted(q.quiz_hash@),
        "  started_at: "@ + quoted(opt_or_empty(d.started)),
        "  acknowledgment:"@,
        "    name: "@ + quoted(ack_part(d.ack, 0)),
        "    agreed_at: "@ + quoted(ack_part(d.ack, 1)),
        "    text_hash: "@ + quoted(ack_part(d.ack, 2)),
        Seq::<char>::empty(),
        "questions:"@,
    ]
}

/// The whole snapshot document, as lines.
pub open spec fn snap_lines(q: Quiz, d: SnapData) -> Seq<Seq<char>> {
    header_lines(q, d) + all_q_lines(q, d, d.qs.len() as int)
}

// ---------------------------------------------------------------------------
// The executable emitter
// ---------------------------------------------------------------------------
/// Appends `key` + a quoted value + newline.
fn push_kv_quoted(out: &mut Vec<char>, key: &str, v: &[char])
    ensures
        final(out)@ == old(out)@ + (key@ + quoted(v@)) + "\n"@,
{
    push_str_chars(out, key);
    push_quoted(out, v);
    out.push('\n');
    proof {
        reveal_strlit("\n");
        assert(out@ =~= old(out)@ + (key@ + quoted(v@)) + "\n"@);
    }
}

/// Appends `key` + a raw value + newline.
fn push_kv_raw(out: &mut Vec<char>, key: &str, v: &[char])
    ensures
        final(out)@ == old(out)@ + (key@ + v@) + "\n"@,
{
    push_str_chars(out, key);
    push_chars(out, v);
    out.push('\n');
    proof {
        reveal_strlit("\n");
        assert(out@ =~= old(out)@ + (key@ + v@) + "\n"@);
    }
}

/// Appends a fixed line + newline.
fn push_line(out: &mut Vec<char>, line: &str)
    ensures
        final(out)@ == old(out)@ + line@ + "\n"@,
{
    push_str_chars(out, line);
    out.push('\n');
    proof {
        reveal_strlit("\n");
        assert(out@ =~= old(out)@ + line@ + "\n"@);
    }
}

fn push_kv_bool(out: &mut Vec<char>, key: &str, b: bool)
    ensures
        final(out)@ == old(out)@ + (key@ + bool_word(b)) + "\n"@,
{
    push_str_chars(out, key);
    if b {
        push_str_chars(out, "true");
    } else {
        push_str_chars(out, "false");
    }
    out.push('\n');
    proof {
        reveal_strlit("\n");
        assert(out@ =~= old(out)@ + (key@ + bool_word(b)) + "\n"@);
    }
}

proof fn lemma_join_one(pre: Seq<Seq<char>>, line: Seq<char>)
    ensures
        join_lines(pre.push(line)) == join_lines(pre) + line + "\n"@,
{
    lemma_join_lines_append(pre, seq![line]);
    assert(pre.push(line) =~= pre + seq![line]);
    assert(join_lines(seq![line]) == line + seq!['\n'] + join_lines(
        seq![line].skip(1),
    ));
    assert(seq![line].skip(1) =~= Seq::<Seq<char>>::empty());
    reveal_strlit("\n");
    assert(seq!['\n'] =~= "\n"@);
    assert(join_lines(pre) + (line + "\n"@ + Seq::<char>::empty()) =~= join_lines(pre) + line
        + "\n"@);
}

/// Serializes the session into the snapshot/submission document. Also used
/// after every mutation to keep the on-disk state at most one event behind.
#[verifier::loop_isolation(false)]
pub fn build_answers_yaml(s: &Session) -> (r: Vec<char>)
    requires
        s.wf(),
    ensures
        r@ == join_lines(snap_lines(s.quiz, snap_of(*s))),
{
    let ghost d = snap_of(*s);
    let ghost hl = header_lines(s.quiz, d);
    let mut out: Vec<char> = Vec::new();

    // quiz block
    push_line(&mut out, "quiz:");
    proof {
        step_join(Seq::empty(), hl, 0, Seq::empty(), out@);
    }
    push_kv_quoted(&mut out, "  title: ", s.quiz.title.as_slice());
    proof {
        step_join(Seq::empty(), hl, 1, Seq::empty(), out@);
    }
    push_kv_quoted(&mut out, "  source: ", s.quiz.quiz_file.as_slice());
    proof {
        step_join(Seq::empty(), hl, 2, Seq::empty(), out@);
    }
    let sub_text: Vec<char> = match &s.submitted_at {
        Some(t) => {
            let mut c: Vec<char> = Vec::new();
            push_chars(&mut c, t.as_slice());
            c
        },
        None => crate::text::str_to_chars("unknown"),
    };
    push_kv_quoted(&mut out, "  submitted_at: ", sub_text.as_slice());
    proof {
        assert(sub_text@ == (match d.submitted {
            Some(t) => t,
            None => "unknown"@,
        }));
        step_join(Seq::empty(), hl, 3, Seq::empty(), out@);
    }
    let dur = compute_duration(&s.started_at, &s.submitted_at);
    push_kv_quoted(&mut out, "  duration: ", dur.as_slice());
    proof {
        step_join(Seq::empty(), hl, 4, Seq::empty(), out@);
    }
    push_kv_bool(&mut out, "  acknowledged: ", s.ack_data.is_some());
    proof {
        step_join(Seq::empty(), hl, 5, Seq::empty(), out@);
    }
    push_line(&mut out, "");
    proof {
        reveal_strlit("");
        step_join(Seq::empty(), hl, 6, Seq::empty(), out@);
    }

    // session block
    push_line(&mut out, "session:");
    proof {
        step_join(Seq::empty(), hl, 7, Seq::empty(), out@);
    }
    let cur = fmt_u64(s.current_question as u64);
    push_kv_raw(&mut out, "  current_question: ", cur.as_slice());
    proof {
        step_join(Seq::empty(), hl, 8, Seq::empty(), out@);
    }
    push_kv_quoted(&mut out, "  quiz_file_hash: ", s.quiz.quiz_hash.as_slice());
    proof {
        step_join(Seq::empty(), hl, 9, Seq::empty(), out@);
    }
    let started_text: Vec<char> = match &s.started_at {
        Some(t) => {
            let mut c: Vec<char> = Vec::new();
            push_chars(&mut c, t.as_slice());
            c
        },
        None => Vec::new(),
    };
    push_kv_quoted(&mut out, "  started_at: ", started_text.as_slice());
    proof {
        assert(started_text@ == opt_or_empty(d.started));
        step_join(Seq::empty(), hl, 10, Seq::empty(), out@);
    }
    push_line(&mut out, "  acknowledgment:");
    proof {
        step_join(Seq::empty(), hl, 11, Seq::empty(), out@);
    }
    let (ack_name, ack_at, ack_hash): (Vec<char>, Vec<char>, Vec<char>) = match &s.ack_data {
        Some(a) => {
            let mut n: Vec<char> = Vec::new();
            push_chars(&mut n, a.name.as_slice());
            let mut g: Vec<char> = Vec::new();
            push_chars(&mut g, a.agreed_at.as_slice());
            let mut h: Vec<char> = Vec::new();
            push_chars(&mut h, a.text_hash.as_slice());
            (n, g, h)
        },
        None => (Vec::new(), Vec::new(), Vec::new()),
    };
    push_kv_quoted(&mut out, "    name: ", ack_name.as_slice());
    proof {
        assert(ack_name@ == ack_part(d.ack, 0));
        step_join(Seq::empty(), hl, 12, Seq::empty(), out@);
    }
    push_kv_quoted(&mut out, "    agreed_at: ", ack_at.as_slice());
    proof {
        assert(ack_at@ == ack_part(d.ack, 1));
        step_join(Seq::empty(), hl, 13, Seq::empty(), out@);
    }
    push_kv_quoted(&mut out, "    text_hash: ", ack_hash.as_slice());
    proof {
        assert(ack_hash@ == ack_part(d.ack, 2));
        step_join(Seq::empty(), hl, 14, Seq::empty(), out@);
    }
    push_line(&mut out, "");
    proof {
        reveal_strlit("");
        step_join(Seq::empty(), hl, 15, Seq::empty(), out@);
    }
    push_line(&mut out, "questions:");
    proof {
        step_join(Seq::empty(), hl, 16, Seq::empty(), out@);
        assert(hl.take(17) =~= hl);
        assert(out@ == join_lines(hl));
    }

    // questions
    let n = s.quiz.questions.len();
    let mut k: usize = 0;
    proof {
        assert(join_lines(hl) + join_lines(all_q_lines(s.quiz, d, 0)) =~= join_lines(hl));
        assert(snap_lines(s.quiz, d) == hl + all_q_lines(s.quiz, d, d.qs.len() as int));
    }
    while k < n
        invariant
            0 <= k <= n,
            out@ == join_lines(hl) + join_lines(all_q_lines(s.quiz, d, k as int)),
        decreases n - k,
    {
        emit_question(&mut out, s, k);
        proof {
            lemma_join_lines_append(all_q_lines(s.quiz, d, k as int), q_lines(s.quiz, d, k as int));
            assert(all_q_lines(s.quiz, d, k + 1) == all_q_lines(s.quiz, d, k as int) + q_lines(
                s.quiz,
                d,
                k as int,
            ));
        }
        k += 1;
    }
    proof {
        lemma_join_lines_append(hl, all_q_lines(s.quiz, d, n as int));
        assert(d.qs.len() == n);
    }
    out
}

/// After appending line `i` of `ls` (with `base` already holding the prior
/// lines beyond `pre`), the text is the join of one more line.
proof fn step_join(pre: Seq<Seq<char>>, ls: Seq<Seq<char>>, i: int, base: Seq<char>, now: Seq<char>)
    requires
        0 <= i < ls.len(),
        now == base + join_lines(ls.take(i)) + ls[i] + "\n"@,
    ensures
        now == base + join_lines(ls.take(i + 1)),
{
    lemma_join_one(ls.take(i), ls[i]);
    assert(ls.take(i).push(ls[i]) =~= ls.take(i + 1));
    assert(base + (join_lines(ls.take(i)) + ls[i] + "\n"@) =~= base + join_lines(ls.take(i))
        + ls[i] + "\n"@);
}

/// Emits one question's lines.
#[verifier::loop_isolation(false)]
fn emit_question(out: &mut Vec<char>, s: &Session, k: usize)
    requires
        s.wf(),
        (k as int) < s.quiz.questions@.len(),
    ensures
        final(out)@ == old(out)@ + join_lines(q_lines(s.quiz, snap_of(*s), k as int)),
{
    let ghost d = snap_of(*s);
    let ghost ql = q_lines(s.quiz, d, k as int);
    let ghost base = old(out)@;
    let q = &s.quiz.questions[k];
    let qn = q.number;
    let ghost qs = d.qs[k as int];
    proof {
        assert(join_lines(ql.take(0)) =~= Seq::<char>::empty());
        assert(base + Seq::<char>::empty() =~= base);
    }

    let num = fmt_u64(qn as u64);
    push_kv_raw(out, "  - number: ", num.as_slice());
    proof {
        step_join(Seq::empty(), ql, 0, base, out@);
    }
    push_kv_quoted(out, "    title: ", q.title.as_slice());
    proof {
        step_join(Seq::empty(), ql, 1, base, out@);
    }
    match &q.kind {
        QuestionKind::SingleChoice(_) => {
            let w = crate::text::str_to_chars("single");
            push_kv_raw(out, "    type: ", w.as_slice());
        },
        QuestionKind::MultiChoice(_) => {
            let w = crate::text::str_to_chars("multi");
            push_kv_raw(out, "    type: ", w.as_slice());
        },
        QuestionKind::Short => {
            let w = crate::text::str_to_chars("short");
            push_kv_raw(out, "    type: ", w.as_slice());
        },
        QuestionKind::Long => {
            let w = crate::text::str_to_chars("long");
            push_kv_raw(out, "    type: ", w.as_slice());
        },
        QuestionKind::File(_) => {
            let w = crate::text::str_to_chars("file");
            push_kv_raw(out, "    type: ", w.as_slice());
        },
    }
    proof {
        assert(ql[2] == "    type: "@ + kind_word(s.quiz.questions@[k as int].kind));
        step_join(Seq::empty(), ql, 2, base, out@);
    }

    // choices block
    match &q.kind {
        QuestionKind::SingleChoice(cs) => {
            emit_choices(out, cs);
        },
        QuestionKind::MultiChoice(cs) => {
            emit_choices(out, cs);
        },
        _ => {},
    }
    let ghost nch = 3 + choice_lines(s.quiz.questions@[k as int].kind).len() as int;
    proof {
        let ch = choice_lines(s.quiz.questions@[k as int].kind);
        match s.quiz.questions@[k as int].kind {
            QuestionKind::SingleChoice(cs) => {
                assert(ch == seq!["    choices:"@] + choice_entry_lines(cs@));
            },
            QuestionKind::MultiChoice(cs) => {
                assert(ch == seq!["    choices:"@] + choice_entry_lines(cs@));
            },
            _ => {
                assert(ch =~= Seq::<Seq<char>>::empty());
            },
        }
        assert(ql.take(nch) =~= ql.take(3) + ch) by {
            assert(forall|j: int| 0 <= j < ch.len() ==> ql[3 + j] == #[trigger] ch[j]);
        }
        lemma_join_lines_append(ql.take(3), ch);
        assert(out@ == base + join_lines(ql.take(nch)));
    }

    // status lines
    let hint: usize = match s.hints_revealed.get(qn) {
        Some(c) => *c,
        None => 0,
    };
    push_kv_bool(out, "    hint_used: ", hint > 0);
    proof {
        assert((hint as int) == qs.hint);
        step_join(Seq::empty(), ql, nch, base, out@);
    }
    let hint_num = fmt_u64(hint as u64);
    push_kv_raw(out, "    hints_revealed: ", hint_num.as_slice());
    proof {
        step_join(Seq::empty(), ql, nch + 1, base, out@);
    }
    let done = s.done_marks.contains(qn);
    push_kv_bool(out, "    done: ", done);
    proof {
        step_join(Seq::empty(), ql, nch + 2, base, out@);
    }
    let flagged = s.flags.contains(qn);
    push_kv_bool(out, "    flagged: ", flagged);
    proof {
        step_join(Seq::empty(), ql, nch + 3, base, out@);
    }
    let visited = s.visited.contains(qn);
    push_kv_bool(out, "    visited: ", visited);
    proof {
        step_join(Seq::empty(), ql, nch + 4, base, out@);
    }

    // answer line
    emit_answer_line(out, s, k);
    proof {
        assert(ql[nch + 5] == answer_line(s.quiz.questions@[k as int].kind, qs.answer));
        step_join(Seq::empty(), ql, nch + 5, base, out@);
        assert(ql.take(nch + 6) =~= ql);
    }
}

/// Emits the `choices:` block for a choice question.
#[verifier::loop_isolation(false)]
fn emit_choices(out: &mut Vec<char>, cs: &Vec<Choice>)
    ensures
        final(out)@ == old(out)@ + join_lines(
            seq!["    choices:"@] + choice_entry_lines(cs@),
        ),
{
    let ghost cls = choice_entry_lines(cs@);
    let ghost base = old(out)@;
    push_line(out, "    choices:");
    let nc = cs.len();
    let mut i: usize = 0;
    proof {
        assert(join_lines(cls.take(0)) =~= Seq::<char>::empty());
        assert(out@ =~= base + "    choices:"@ + "\n"@ + join_lines(cls.take(0)));
    }
    while i < nc
        invariant
            0 <= i <= nc,
            nc == cs@.len(),
            out@ == base + "    choices:"@ + "\n"@ + join_lines(cls.take(i as int)),
        decreases nc - i,
    {
        let mut line_start: Vec<char> = crate::text::str_to_chars("      ");
        line_start.push(cs[i].label);
        push_chars(out, line_start.as_slice());
        push_str_chars(out, ": ");
        push_quoted(out, cs[i].text.as_slice());
        out.push('\n');
        proof {
            reveal_strlit("\n");
            assert(cls[i as int] == "      "@ + seq![cs@[i as int].label] + ": "@ + quoted(
                cs@[i as int].text@,
            ));
            lemma_join_one(cls.take(i as int), cls[i as int]);
            assert(cls.take(i as int).push(cls[i as int]) =~= cls.take(i + 1));
            assert(out@ =~= base + "    choices:"@ + "\n"@ + join_lines(cls.take(i + 1)));
        }
        i += 1;
    }
    proof {
        assert(cls.take(nc as int) =~= cls);
        lemma_join_lines_append(seq!["    choices:"@], cls);
        assert((seq!["    choices:"@] + cls).skip(1) =~= cls);
        assert(join_lines(seq!["    choices:"@]) =~= "    choices:"@ + "\n"@) by {
            lemma_join_one(Seq::empty(), "    choices:"@);
            assert(Seq::<Seq<char>>::empty().push("    choices:"@) =~= seq!["    choices:"@]);
            assert(join_lines(Seq::<Seq<char>>::empty()) =~= Seq::<char>::empty());
            assert(Seq::<char>::empty() + "    choices:"@ + "\n"@ =~= "    choices:"@ + "\n"@);
        }
        assert(out@ =~= base + join_lines(seq!["    choices:"@] + cls));
    }
}

/// Emits the `answer:` line of question `k`.
#[verifier::loop_isolation(false)]
fn emit_answer_line(out: &mut Vec<char>, s: &Session, k: usize)
    requires
        s.wf(),
        (k as int) < s.quiz.questions@.len(),
    ensures
        final(out)@ == old(out)@ + answer_line(
            s.quiz.questions@[k as int].kind,
            snap_of(*s).qs[k as int].answer,
        ) + "\n"@,
{
    let ghost d = snap_of(*s);
    let ghost base = old(out)@;
    let q = &s.quiz.questions[k];
    let qn = q.number;
    proof {
        reveal_strlit("\n");
        assert(d.qs[k as int].answer == (if s.answers@.contains_key(qn) {
            Some(ans_snap(s.answers@[qn]))
        } else {
            Option::<AnsSnap>::None
        }));
    }
    match s.answers.get(qn) {
        None => {
            push_line(out, "    answer: null");
        },
        Some(a) => {
            proof {
                assert(*a == s.answers@[qn]);
                assert(s.answers@.contains_key(s.quiz.questions@[k as int].number));
                assert(a.wf() && a.matches_kind(s.quiz.questions@[k as int].kind));
            }
            match &q.kind {
                QuestionKind::SingleChoice(_) => {
                    let sel = match &a.selected {
                        Some(v) => v,
                        None => {
                            proof {
                                assert(false);
                            }
                            unreached()
                        },
                    };
                    push_str_chars(out, "    answer: ");
                    push_chars(out, sel.as_slice());
                    out.push('\n');
                    proof {
                        assert(out@ =~= base + ("    answer: "@ + sel@) + "\n"@);
                    }
                },
                QuestionKind::MultiChoice(_) => {
                    let sel = match &a.selected {
                        Some(v) => v,
                        None => {
                            proof {
                                assert(false);
                            }
                            unreached()
                        },
                    };
                    push_str_chars(out, "    answer: [");
                    push_join_labels(out, sel.as_slice());
                    push_str_chars(out, "]");
                    out.push('\n');
                    proof {
                        assert(out@ =~= base + ("    answer: ["@ + join_labels(sel@) + "]"@)
                            + "\n"@);
                    }
                },
                QuestionKind::Short | QuestionKind::Long => {
                    let t = match &a.text {
                        Some(v) => v,
                        None => {
                            proof {
                                assert(false);
                            }
                            unreached()
                        },
                    };
                    push_str_chars(out, "    answer: ");
                    push_quoted(out, t.as_slice());
                    out.push('\n');
                    proof {
                        assert(out@ =~= base + ("    answer: "@ + quoted(t@)) + "\n"@);
                    }
                },
                QuestionKind::File(_) => {
                    let fs = match &a.files {
                        Some(v) => v,
                        None => {
                            proof {
                                assert(false);
                            }
                            unreached()
                        },
                    };
                    push_str_chars(out, "    answer: [");
                    push_join_quoted(out, fs);
                    push_str_chars(out, "]");
                    out.push('\n');
                    proof {
                        assert(out@ =~= base + ("    answer: ["@ + join_quoted(
                            fs@.map_values(|v: Vec<char>| v@),
                        ) + "]"@) + "\n"@);
                    }
                },
            }
        },
    }
}

/// Appends labels joined with `, `.
#[verifier::loop_isolation(false)]
fn push_join_labels(out: &mut Vec<char>, sel: &[char])
    ensures
        final(out)@ == old(out)@ + join_labels(sel@),
{
    let n = sel.len();
    let mut i: usize = 0;
    while i < n
        invariant
            0 <= i <= n,
            n == sel@.len(),
            out@ == old(out)@ + jl_prefix(sel@, i as int),
        decreases n - i,
    {
        if i > 0 {
            push_str_chars(out, ", ");
        }
        out.push(sel[i]);
        proof {
            reveal_strlit(", ");
            lemma_jl_prefix_step(sel@, i as int);
        }
        i += 1;
    }
    proof {
        lemma_jl_prefix_all(sel@, n as int);
    }
}

/// The rendering of the first `i` labels.
pub open spec fn jl_prefix(sel: Seq<char>, i: int) -> Seq<char>
    decreases i,
{
    if i <= 0 {
        Seq::empty()
    } else if i == 1 {
        seq![sel[0]]
    } else {
        jl_prefix(sel, i - 1) + ", "@ + seq![sel[i - 1]]
    }
}

proof fn lemma_jl_prefix_step(sel: Seq<char>, i: int)
    requires
        0 <= i < sel.len(),
    ensures
        i == 0 ==> jl_prefix(sel, 1) == seq![sel[0]],
        i > 0 ==> jl_prefix(sel, i + 1) == jl_prefix(sel, i) + ", "@ + seq![sel[i]],
{
}

proof fn lemma_jl_prefix_all(sel: Seq<char>, n: int)
    requires
        n == sel.len(),
    ensures
        jl_prefix(sel, n) == join_labels(sel),
    decreases n,
{
    if n <= 0 {
        assert(join_labels(sel) == Seq::<char>::empty());
    } else if n == 1 {
        assert(join_labels(sel) =~= seq![sel[0]]);
    } else {
        lemma_jl_all_rec(sel, 0);
        lemma_jl_tail(sel, 0);
        assert(sel.skip(0) =~= sel);
        assert(jl_prefix(sel, 1) == seq![sel[0]]);
    }
}

/// The tail of the joined labels, from position `j` on.
proof fn lemma_jl_tail(sel: Seq<char>, j: int)
    requires
        0 <= j < sel.len(),
    ensures
        join_labels(sel.skip(j)) == seq![sel[j]] + tail_rendering(sel, j + 1),
    decreases sel.len() - j,
{
    let t = sel.skip(j);
    assert(t[0] == sel[j]);
    if t.len() == 1 {
        assert(join_labels(t) =~= seq![sel[j]]);
        assert(seq![sel[j]] + tail_rendering(sel, j + 1) =~= seq![sel[j]]);
    } else {
        lemma_jl_tail(sel, j + 1);
        assert(t.skip(1) =~= sel.skip(j + 1));
        assert(join_labels(t) == seq![t[0]] + ", "@ + join_labels(t.skip(1)));
        assert(tail_rendering(sel, j + 1) == ", "@ + seq![sel[j + 1]] + tail_rendering(
            sel,
            j + 2,
        ));
        assert(seq![t[0]] + ", "@ + (seq![sel[j + 1]] + tail_rendering(sel, j + 2)) =~= seq![
            sel[j],
        ] + (", "@ + seq![sel[j + 1]] + tail_rendering(sel, j + 2)));
        assert(seq![t[0]] + ", "@ + join_labels(t.skip(1)) =~= seq![sel[j]] + tail_rendering(
            sel,
            j + 1,
        ));
    }
}

/// `join_labels(sel.skip(j))` equals the tail rendering from `j`.
proof fn lemma_jl_all_rec(sel: Seq<char>, j: int)
    requires
        0 <= j < sel.len(),
    ensures
        jl_prefix(sel, sel.len() as int) == jl_prefix(sel, j + 1) + tail_rendering(sel, j + 1),
    decreases sel.len() - j,
{
    if j + 1 < sel.len() {
        lemma_jl_all_rec(sel, j + 1);
        assert(jl_prefix(sel, j + 2) == jl_prefix(sel, j + 1) + ", "@ + seq![sel[j + 1]]);
        assert(jl_prefix(sel, j + 1) + (", "@ + seq![sel[j + 1]] + tail_rendering(sel, j + 2))
            =~= (jl_prefix(sel, j + 1) + ", "@ + seq![sel[j + 1]]) + tail_rendering(sel, j + 2));
    } else {
        assert(tail_rendering(sel, j + 1) =~= Seq::<char>::empty());
        assert(jl_prefix(sel, sel.len() as int) + Seq::<char>::empty() =~= jl_prefix(
            sel,
            sel.len() as int,
        ));
    }
}

pub open spec fn tail_rendering(sel: Seq<char>, j: int) -> Seq<char>
    decreases sel.len() - j,
{
    if j >= sel.len() {
        Seq::empty()
    } else {
        ", "@ + seq![sel[j]] + tail_rendering(sel, j + 1)
    }
}

/// Appends quoted texts joined with `, `.
#[verifier::loop_isolation(false)]
fn push_join_quoted(out: &mut Vec<char>, fs: &Vec<Vec<char>>)
    ensures
        final(out)@ == old(out)@ + join_quoted(fs@.map_values(|v: Vec<char>| v@)),
{
    let ghost fv = fs@.map_values(|v: Vec<char>| v@);
    let n = fs.len();
    let mut i: usize = 0;
    while i < n
        invariant
            0 <= i <= n,
            n == fv.len(),
            fv == fs@.map_values(|v: Vec<char>| v@),
            out@ == old(out)@ + jq_prefix(fv, i as int),
        decreases n - i,
    {
        if i > 0 {
            push_str_chars(out, ", ");
        }
        push_quoted(out, fs[i].as_slice());
        proof {
            reveal_strlit(", ");
            assert(fv[i as int] == fs@[i as int]@);
        }
        i += 1;
    }
    proof {
        lemma_jq_prefix_all(fv, n as int);
    }
}

pub open spec fn jq_prefix(fs: Seq<Seq<char>>, i: int) -> Seq<char>
    decreases i,
{
    if i <= 0 {
        Seq::empty()
    } else if i == 1 {
        quoted(fs[0])
    } else {
        jq_prefix(fs, i - 1) + ", "@ + quoted(fs[i - 1])
    }
}

proof fn lemma_jq_prefix_all(fs: Seq<Seq<char>>, n: int)
    requires
        n == fs.len(),
    ensures
        jq_prefix(fs, n) == join_quoted(fs),
    decreases n,
{
    if n <= 0 {
    } else if n == 1 {
    } else {
        lemma_jq_all_rec(fs, 0);
        lemma_jq_tail(fs, 0);
        assert(fs.skip(0) =~= fs);
        assert(jq_prefix(fs, 1) == quoted(fs[0]));
    }
}

proof fn lemma_jq_tail(fs: Seq<Seq<char>>, j: int)
    requires
        0 <= j < fs.len(),
    ensures
        join_quoted(fs.skip(j)) == quoted(fs[j]) + tail_rendering_q(fs, j + 1),
    decreases fs.len() - j,
{
    let t = fs.skip(j);
    assert(t[0] == fs[j]);
    if t.len() == 1 {
        assert(join_quoted(t) =~= quoted(fs[j]));
        assert(quoted(fs[j]) + tail_rendering_q(fs, j + 1) =~= quoted(fs[j]));
    } else {
        lemma_jq_tail(fs, j + 1);
        assert(t.skip(1) =~= fs.skip(j + 1));
        assert(join_quoted(t) == quoted(t[0]) + ", "@ + join_quoted(t.skip(1)));
        assert(tail_rendering_q(fs, j + 1) == ", "@ + quoted(fs[j + 1]) + tail_rendering_q(
            fs,
            j + 2,
        ));
        assert(quoted(t[0]) + ", "@ + (quoted(fs[j + 1]) + tail_rendering_q(fs, j + 2)) =~= quoted(
            fs[j],
        ) + (", "@ + quoted(fs[j + 1]) + tail_rendering_q(fs, j + 2)));
        assert(quoted(t[0]) + ", "@ + join_quoted(t.skip(1)) =~= quoted(fs[j]) + tail_rendering_q(
            fs,
            j + 1,
        ));
    }
}

proof fn lemma_jq_all_rec(fs: Seq<Seq<char>>, j: int)
    requires
        0 <= j < fs.len(),
    ensures
        jq_prefix(fs, fs.len() as int) == jq_prefix(fs, j + 1) + tail_rendering_q(fs, j + 1),
    decreases fs.len() - j,
{
    if j + 1 < fs.len() {
        lemma_jq_all_rec(fs, j + 1);
        assert(jq_prefix(fs, j + 2) == jq_prefix(fs, j + 1) + ", "@ + quoted(fs[j + 1]));
        assert(jq_prefix(fs, j + 1) + (", "@ + quoted(fs[j + 1]) + tail_rendering_q(fs, j + 2))
            =~= (jq_prefix(fs, j + 1) + ", "@ + quoted(fs[j + 1])) + tail_rendering_q(fs, j + 2));
    } else {
        assert(tail_rendering_q(fs, j + 1) =~= Seq::<char>::empty());
        assert(jq_prefix(fs, fs.len() as int) + Seq::<char>::empty() =~= jq_prefix(
            fs,
            fs.len() as int,
        ));
    }
}

pub open spec fn tail_rendering_q(fs: Seq<Seq<char>>, j: int) -> Seq<char>
    decreases fs.len() - j,
{
    if j >= fs.len() {
        Seq::empty()
    } else {
        ", "@ + quoted(fs[j]) + tail_rendering_q(fs, j + 1)
    }
}


// ---------------------------------------------------------------------------
// The publish-with-retry pipeline
// ---------------------------------------------------------------------------
/// How one push attempt ended, as classified from the collaborator's
/// output.
#[derive(Clone, Copy, PartialEq, Eq, Structural, Debug)]
pub enum PushOutcome {
    Success,
    Conflict,
    Failure,
}

/// What the submission worker posts to the interactive loop.
pub enum PushEvent {
    Success,
    Retrying { attempt: u32, wait_secs: u32, elapsed: u32, error: Vec<char> },
    Timeout,
    Cancelled,
    Conflict(Vec<char>),
}

/// Where the pipeline stands.
#[derive(Clone, Copy, PartialEq, Eq, Structural, Debug)]
pub enum PushPhase {
    /// About to push (or pushing).
    Publishing,
    /// Counting down a backoff wait.
    Waiting,
    /// The remote durably holds the submission.
    Published,
    /// The remote already held a submission: terminal, never retried.
    AlreadySubmitted,
    /// The cumulative backoff ceiling passed: the work stays committed
    /// locally.
    LocalFallback,
    /// The candidate cancelled the retry loop.
    Cancelled,
}

/// The decision machine behind the submission worker: the worker performs
/// one push per `Publishing` round and sleeps one second per `wait_tick`;
/// every decision — backoff doubling capped at 30s, the 10-minute ceiling,
/// the conflict short-circuit — lives here.
pub struct Publisher {
    pub phase: PushPhase,
    pub attempt: u32,
    pub wait_secs: u32,
    pub wait_done: u32,
    pub elapsed: u32,
}

impl Publisher {
    /// Backoff bounds and the attempt/elapsed accounting that keeps the
    /// counters small.
    pub open spec fn wf(&self) -> bool {
        &&& 2 <= self.wait_secs <= 30
        &&& self.elapsed <= 630
        &&& (self.phase is Waiting ==> self.wait_done < self.wait_secs && self.elapsed
            - self.wait_done < 600 && 2 * self.attempt <= self.elapsed + self.wait_secs
            - self.wait_done + 2)
        &&& (self.phase is Publishing ==> 2 * self.attempt <= self.elapsed + 2)
        &&& self.attempt <= 320
    }

    /// A fresh pipeline run: first wait 2 seconds, nothing elapsed.
    pub fn new() -> (r: Publisher)
        ensures
            r.wf(),
            r.phase == PushPhase::Publishing,
            r.attempt == 0,
            r.wait_secs == 2,
            r.elapsed == 0,
    {
        Publisher {
            phase: PushPhase::Publishing,
            attempt: 0,
            wait_secs: 2,
            wait_done: 0,
            elapsed: 0,
        }
    }

    /// Records one push attempt's outcome. Success publishes; a remote
    /// conflict ends the run at once — it is never retried; any other
    /// failure retries until the cumulative wait passes the 10-minute
    /// ceiling, then falls back to the local copy.
    pub fn record_outcome(&mut self, outcome: PushOutcome, error: Vec<char>) -> (ev: PushEvent)
        requires
            old(self).wf(),
            old(self).phase == PushPhase::Publishing,
        ensures
            final(self).wf(),
            final(self).attempt == old(self).attempt + 1,
            final(self).elapsed == old(self).elapsed,
            final(self).wait_secs == old(self).wait_secs,
            outcome == PushOutcome::Success ==> final(self).phase == PushPhase::Published && ev
                == PushEvent::Success,
            outcome == PushOutcome::Conflict ==> final(self).phase == PushPhase::AlreadySubmitted
                && (ev matches PushEvent::Conflict(e) && e@ == error@),
            outcome == PushOutcome::Failure && old(self).elapsed >= 600 ==> final(self).phase
                == PushPhase::LocalFallback && ev == PushEvent::Timeout,
            outcome == PushOutcome::Failure && old(self).elapsed < 600 ==> final(self).phase
                == PushPhase::Waiting && final(self).wait_done == 0 && (ev
                matches PushEvent::Retrying { attempt, wait_secs, elapsed, error: e } && attempt
                == old(self).attempt + 1 && wait_secs == old(self).wait_secs && elapsed == old(
                self,
            ).elapsed && e@ == error@),
    {
        self.attempt = self.attempt + 1;
        match outcome {
            PushOutcome::Success => {
                self.phase = PushPhase::Published;
                PushEvent::Success
            },
            PushOutcome::Conflict => {
                self.phase = PushPhase::AlreadySubmitted;
                PushEvent::Conflict(error)
            },
            PushOutcome::Failure => {
                if self.elapsed >= 600 {
                    self.phase = PushPhase::LocalFallback;
                    PushEvent::Timeout
                } else {
                    self.phase = PushPhase::Waiting;
                    self.wait_done = 0;
                    PushEvent::Retrying {
                        attempt: self.attempt,
                        wait_secs: self.wait_secs,
                        elapsed: self.elapsed,
                        error,
                    }
                }
            },
        }
    }

    /// Counts one slept second of the current backoff wait. When the wait
    /// completes, the next wait doubles, capped at 30 seconds, and the
    /// pipeline is ready to push again.
    pub fn wait_tick(&mut self) -> (done: bool)
        requires
            old(self).wf(),
            old(self).phase == PushPhase::Waiting,
        ensures
            final(self).wf(),
            final(self).elapsed == old(self).elapsed + 1,
            final(self).attempt == old(self).attempt,
            done == (old(self).wait_done + 1 == old(self).wait_secs),
            done ==> final(self).phase == PushPhase::Publishing && final(self).wait_secs == (
            if 2 * old(self).wait_secs <= 30 {
                (2 * old(self).wait_secs) as u32
            } else {
                30u32
            }),
            !done ==> final(self).phase == PushPhase::Waiting && final(self).wait_secs == old(
                self,
            ).wait_secs && final(self).wait_done == old(self).wait_done + 1,
    {
        self.elapsed = self.elapsed + 1;
        self.wait_done = self.wait_done + 1;
        if self.wait_done == self.wait_secs {
            self.phase = PushPhase::Publishing;
            self.wait_secs = if self.wait_secs * 2 <= 30 {
                self.wait_secs * 2
            } else {
                30
            };
            self.wait_done = 0;
            true
        } else {
            false
        }
    }

    /// A cancellation observed before an attempt or during a wait: back to
    /// composing without losing the committed local work.
    pub fn cancel(&mut self) -> (ev: PushEvent)
        requires
            old(self).wf(),
            old(self).phase == PushPhase::Publishing || old(self).phase == PushPhase::Waiting,
        ensures
            final(self).wf(),
            final(self).phase == PushPhase::Cancelled,
            ev == PushEvent::Cancelled,
    {
        self.phase = PushPhase::Cancelled;
        PushEvent::Cancelled
    }
}

/// The submission commit's message text.
pub open spec fn commit_message_spec(s: Session) -> Seq<char> {
    let total = s.quiz.questions@.len() as int;
    let done = s.count_status(crate::state::QuestionStatus::Done, total);
    let answered = s.count_status(crate::state::QuestionStatus::Answered, total);
    let flagged = s.count_status(crate::state::QuestionStatus::Flagged, total);
    let na = s.count_status(crate::state::QuestionStatus::NotAnswered, total) + s.count_status(
        crate::state::QuestionStatus::Unread,
        total,
    );
    "termquiz: submit "@ + s.quiz.quiz_file@ + "\n\nStarted: "@ + (match s.started_at {
        Some(t) => t@,
        None => "unknown"@,
    }) + "\nSubmitted: "@ + (match s.submitted_at {
        Some(t) => t@,
        None => "unknown"@,
    }) + "\nQuestions: "@ + spec_fmt_u64(total) + " ("@ + spec_fmt_u64(done) + " done, "@
        + spec_fmt_u64(answered) + " answered, "@ + spec_fmt_u64(flagged) + " flagged, "@
        + spec_fmt_u64(na) + " not answered)"@
}

/// Builds the commit message for the submission commit.
pub fn build_commit_message(s: &Session) -> (r: Vec<char>)
    requires
        s.wf(),
    ensures
        r@ == commit_message_spec(*s),
{
    let counts = s.status_counts();
    let total = s.quiz.questions.len();
    let mut out = crate::text::str_to_chars("termquiz: submit ");
    push_chars(&mut out, s.quiz.quiz_file.as_slice());
    push_str_chars(&mut out, "\n\nStarted: ");
    match &s.started_at {
        Some(t) => push_chars(&mut out, t.as_slice()),
        None => push_str_chars(&mut out, "unknown"),
    }
    push_str_chars(&mut out, "\nSubmitted: ");
    match &s.submitted_at {
        Some(t) => push_chars(&mut out, t.as_slice()),
        None => push_str_chars(&mut out, "unknown"),
    }
    push_str_chars(&mut out, "\nQuestions: ");
    let tn = fmt_u64(total as u64);
    push_chars(&mut out, tn.as_slice());
    push_str_chars(&mut out, " (");
    let dn = fmt_u64(counts.done as u64);
    push_chars(&mut out, dn.as_slice());
    push_str_chars(&mut out, " done, ");
    let an = fmt_u64(counts.answered as u64);
    push_chars(&mut out, an.as_slice());
    push_str_chars(&mut out, " answered, ");
    let fl = fmt_u64(counts.flagged as u64);
    push_chars(&mut out, fl.as_slice());
    push_str_chars(&mut out, " flagged, ");
    proof {
        lemma_count_status_pair(
            *s,
            crate::state::QuestionStatus::NotAnswered,
            crate::state::QuestionStatus::Unread,
            total as int,
        );
    }
    let nn = fmt_u64((counts.not_answered + counts.unread) as u64);
    push_chars(&mut out, nn.as_slice());
    push_str_chars(&mut out, " not answered)");
    proof {
        assert(out@ =~= commit_message_spec(*s));
    }
    out
}

/// Two different statuses' counts never together exceed the questions
/// counted.
pub proof fn lemma_count_status_pair(
    s: Session,
    st1: crate::state::QuestionStatus,
    st2: crate::state::QuestionStatus,
    i: int,
)
    requires
        i >= 0,
        st1 != st2,
    ensures
        0 <= s.count_status(st1, i) + s.count_status(st2, i) <= i,
    decreases i,
{
    if i > 0 {
        lemma_count_status_pair(s, st1, st2, i - 1);
    }
}

/// A status count never exceeds the number of questions counted.
pub proof fn lemma_count_status_bound(
    s: Session,
    st: crate::state::QuestionStatus,
    i: int,
)
    requires
        i >= 0,
    ensures
        0 <= s.count_status(st, i) <= i,
    decreases i,
{
    if i > 0 {
        lemma_count_status_bound(s, st, i - 1);
    }
}

} // verus!
