//! The persistence layer's verified core: content hashing and the snapshot
//! reader, bound to the quiz's content hash.
//!
//! The snapshot text itself is produced by `submit::build_answers_yaml`;
//! reading it back is proved to be its exact inverse
//! (`lemma_snapshot_round_trip`), and a snapshot whose stored hash differs
//! from the live document's is always rejected (`lemma_hash_guard`).
use sha2::Digest;
use vstd::prelude::*;

use crate::model::{Question, QuestionKind, Quiz};
use crate::submit::{AnsSnap, QSnap, SnapData};
use crate::text::{
    digit_char, escape, is_digit, push_chars, quoted, scan_quoted_spec, spec_fmt_u64,
    spec_parse_u64,
};

verus! {

broadcast use vstd::utf8::char_is_scalar;

/// An unreadable or hash-mismatched snapshot: fatal, requires explicit
/// reset.
#[derive(Debug)]
pub struct StateCorruption {
    pub message: Vec<char>,
}

/// What SHA-256 digests to: 32 bytes, a function of the input bytes alone.
pub uninterp spec fn sha256_of(data: Seq<u8>) -> Seq<u8>;

/// Relies on sha2's `Sha256` through the `Digest` trait: the 32-byte digest
/// depends on the input bytes alone.
#[verifier::external_body]
fn sha256_digest(data: &[u8]) -> (r: Vec<u8>)
    ensures
        r@ == sha256_of(data@),
        r@.len() == 32,
{
    sha2::Sha256::digest(data).to_vec()
}

/// The lower-case hex digit for a value below 16.
pub open spec fn hex_digit(d: int) -> char
    recommends
        0 <= d < 16,
{
    if d < 10 {
        digit_char(d)
    } else {
        ((87 + d) as u8) as char
    }
}

/// Two lower-case hex digits per byte, in order.
pub open spec fn spec_hex(bytes: Seq<u8>) -> Seq<char>
    decreases bytes.len(),
{
    if bytes.len() == 0 {
        Seq::empty()
    } else {
        spec_hex(bytes.drop_last()) + seq![
            hex_digit(bytes.last() as int / 16),
            hex_digit(bytes.last() as int % 16),
        ]
    }
}

fn hex_digit_exec(d: u8) -> (r: char)
    requires
        d < 16,
    ensures
        r == hex_digit(d as int),
{
    if d < 10 {
        (d + 48) as char
    } else {
        (87 + d) as char
    }
}

/// Renders bytes as lower-case hex, two digits per byte.
pub fn hex_encode(bytes: &[u8]) -> (r: Vec<char>)
    ensures
        r@ == spec_hex(bytes@),
{
    let n = bytes.len();
    let mut out: Vec<char> = Vec::new();
    let mut i: usize = 0;
    while i < n
        invariant
            0 <= i <= n,
            n == bytes@.len(),
            out@ == spec_hex(bytes@.take(i as int)),
        decreases n - i,
    {
        let b = bytes[i];
        out.push(hex_digit_exec(b / 16));
        out.push(hex_digit_exec(b % 16));
        proof {
            assert(bytes@.take(i + 1).drop_last() =~= bytes@.take(i as int));
            assert(bytes@.take(i + 1).last() == bytes@[i as int]);
            assert(out@ =~= spec_hex(bytes@.take(i as int)) + seq![
                hex_digit(bytes@[i as int] as int / 16),
                hex_digit(bytes@[i as int] as int % 16),
            ]);
        }
        i += 1;
    }
    proof {
        assert(bytes@.take(n as int) =~= bytes@);
    }
    out
}

/// Hex output is two digits per byte.
pub proof fn lemma_spec_hex_len(bytes: Seq<u8>)
    ensures
        spec_hex(bytes).len() == 2 * bytes.len(),
    decreases bytes.len(),
{
    if bytes.len() > 0 {
        lemma_spec_hex_len(bytes.drop_last());
    }
}

/// The content identity of a byte sequence: `sha256:` and the digest in
/// hex.
pub open spec fn spec_content_hash(data: Seq<u8>) -> Seq<char> {
    "sha256:"@ + spec_hex(sha256_of(data))
}

/// Hashes document bytes into the `sha256:`-prefixed identity the snapshot
/// is bound to: the prefix and 64 hex digits, 71 characters in all.
pub fn compute_bytes_hash(data: &[u8]) -> (r: Vec<char>)
    ensures
        r@ == spec_content_hash(data@),
        r@.len() == 71,
{
    proof {
        reveal_strlit("sha256:");
        lemma_spec_hex_len(sha256_of(data@));
    }
    let digest = sha256_digest(data);
    let hx = hex_encode(digest.as_slice());
    let mut out: Vec<char> = crate::text::str_to_chars("sha256:");
    push_chars(&mut out, hx.as_slice());
    out
}

/// The UTF-8 bytes of a character sequence, as an outside computation would
/// produce them.
pub open spec fn utf8_of(s: Seq<char>) -> Seq<u8> {
    vstd::utf8::encode_utf8(s)
}

/// Encodes characters as UTF-8 bytes.
#[verifier::external_body]
fn chars_to_utf8(s: &[char]) -> (r: Vec<u8>)
    ensures
        r@ == utf8_of(s@),
{
    let text: String = s.iter().collect();
    text.into_bytes()
}

/// Hashes a text, as the acknowledgment record does for the consent text:
/// the `sha256:` prefix and 64 hex digits, 71 characters in all.
pub fn compute_str_hash(s: &[char]) -> (r: Vec<char>)
    ensures
        r@ == spec_content_hash(utf8_of(s@)),
        r@.len() == 71,
{
    let bytes = chars_to_utf8(s);
    compute_bytes_hash(bytes.as_slice())
}

// ---------------------------------------------------------------------------
// Reading the snapshot back
// ---------------------------------------------------------------------------
/// The value of a line `p"..."`: the decoded quoted scalar filling the rest
/// of the line.
pub open spec fn q_value(l: Seq<char>, p: Seq<char>) -> Option<Seq<char>> {
    if l.len() > p.len() && l.take(p.len() as int) == p && l[p.len() as int] == '"' {
        match scan_quoted_spec(l, p.len() as int + 1) {
            Some((v, j)) => if j == l.len() {
                Some(v)
            } else {
                None
            },
            None => None,
        }
    } else {
        None
    }
}

/// The value of a line `ptrue` or `pfalse`.
pub open spec fn b_value(l: Seq<char>, p: Seq<char>) -> Option<bool> {
    if l == p + "true"@ {
        Some(true)
    } else if l == p + "false"@ {
        Some(false)
    } else {
        None
    }
}

/// The value of a line `pN` with `N` decimal.
pub open spec fn n_value(l: Seq<char>, p: Seq<char>) -> Option<u64> {
    if l.len() >= p.len() && l.take(p.len() as int) == p {
        spec_parse_u64(l.skip(p.len() as int))
    } else {
        None
    }
}

/// A quoted scalar is read back as what was quoted.
pub proof fn lemma_q_value_inverse(p: Seq<char>, v: Seq<char>)
    ensures
        q_value(p + quoted(v), p) == Some(v),
{
    let l = p + quoted(v);
    assert(l.len() == p.len() + escape(v).len() + 2);
    assert(l.take(p.len() as int) =~= p);
    assert(l[p.len() as int] == '"') by {
        assert(quoted(v)[0] == '"');
    }
    assert(l.skip(p.len() as int + 1) =~= escape(v) + seq!['"'] + Seq::<char>::empty()) by {
        assert(forall|j: int|
            0 <= j < quoted(v).len() - 1 ==> #[trigger] l.skip(p.len() as int + 1)[j] == quoted(v)[j + 1]);
    }
    crate::text::lemma_scan_quoted_escape(l, p.len() as int + 1, v, Seq::empty());
}

/// A boolean word is read back as the flag it renders.
pub proof fn lemma_b_value_inverse(p: Seq<char>, b: bool)
    ensures
        b_value(p + crate::submit::bool_word(b), p) == Some(b),
{
    reveal_strlit("true");
    reveal_strlit("false");
    if b {
        assert(p + "true"@ != p + "false"@) by {
            assert((p + "true"@).len() != (p + "false"@).len());
        }
    } else {
        assert(p + "false"@ != p + "true"@) by {
            assert((p + "true"@).len() != (p + "false"@).len());
        }
    }
}

/// A decimal is read back as the number it renders.
pub proof fn lemma_n_value_inverse(p: Seq<char>, n: u64)
    ensures
        n_value(p + spec_fmt_u64(n as int), p) == Some(n),
{
    let l = p + spec_fmt_u64(n as int);
    assert(l.take(p.len() as int) =~= p);
    assert(l.skip(p.len() as int) =~= spec_fmt_u64(n as int));
    crate::text::lemma_fmt_u64_roundtrip(n);
}

/// The labels of `[a, b]` content.
pub open spec fn parse_labels(inner: Seq<char>) -> Option<Seq<char>>
    decreases inner.len(),
{
    if inner.len() == 0 {
        Some(Seq::empty())
    } else if !crate::submit::is_lower(inner[0]) {
        None
    } else if inner.len() == 1 {
        Some(seq![inner[0]])
    } else if inner.len() >= 4 && inner[1] == ',' && inner[2] == ' ' {
        match parse_labels(inner.skip(3)) {
            Some(rest) => Some(seq![inner[0]] + rest),
            None => None,
        }
    } else {
        None
    }
}

/// Joined labels are read back as themselves.
pub proof fn lemma_parse_labels_inverse(sel: Seq<char>)
    requires
        crate::submit::all_lower(sel),
    ensures
        parse_labels(crate::submit::join_labels(sel)) == Some(sel),
    decreases sel.len(),
{
    let inner = crate::submit::join_labels(sel);
    reveal_strlit(", ");
    if sel.len() == 0 {
        assert(sel =~= Seq::<char>::empty());
    } else if sel.len() == 1 {
        assert(inner =~= seq![sel[0]]);
        assert(crate::submit::is_lower(inner[0]));
        assert(seq![inner[0]] =~= sel);
    } else {
        let rest = crate::submit::join_labels(sel.skip(1));
        assert(inner == seq![sel[0]] + ", "@ + rest);
        assert(rest.len() >= 1) by {
            lemma_join_labels_len(sel.skip(1));
        }
        assert(inner.len() >= 4);
        assert(inner[0] == sel[0]);
        assert(crate::submit::is_lower(inner[0]));
        assert(inner[1] == ',' && inner[2] == ' ') by {
            assert(inner[1] == ", "@[0]);
            assert(inner[2] == ", "@[1]);
        }
        assert(inner.skip(3) =~= rest);
        assert(crate::submit::all_lower(sel.skip(1))) by {
            assert(forall|i: int| 0 <= i < sel.skip(1).len() ==> sel.skip(1)[i] == sel[i + 1]);
        }
        lemma_parse_labels_inverse(sel.skip(1));
        assert(seq![inner[0]] + sel.skip(1) =~= sel);
    }
}

proof fn lemma_join_labels_len(sel: Seq<char>)
    requires
        sel.len() >= 1,
    ensures
        crate::submit::join_labels(sel).len() >= 1,
{
    reveal_strlit(", ");
}

/// The quoted texts of `["a", "b"]` content.
pub open spec fn parse_qlist(inner: Seq<char>) -> Option<Seq<Seq<char>>>
    decreases inner.len(),
{
    if inner.len() == 0 {
        Some(Seq::empty())
    } else if inner[0] != '"' {
        None
    } else {
        match scan_quoted_spec(inner, 1) {
            None => None,
            Some((v, j)) => if j == inner.len() {
                Some(seq![v])
            } else if j + 2 <= inner.len() && inner[j] == ',' && inner[j + 1] == ' ' && j >= 1 {
                match parse_qlist(inner.skip(j + 2)) {
                    Some(rest) => Some(seq![v] + rest),
                    None => None,
                }
            } else {
                None
            },
        }
    }
}

/// Joined quoted texts are read back as themselves.
pub proof fn lemma_parse_qlist_inverse(fs: Seq<Seq<char>>)
    ensures
        parse_qlist(crate::submit::join_quoted(fs)) == Some(fs),
    decreases fs.len(),
{
    let inner = crate::submit::join_quoted(fs);
    reveal_strlit(", ");
    if fs.len() == 0 {
        assert(fs =~= Seq::<Seq<char>>::empty());
    } else if fs.len() == 1 {
        assert(inner =~= quoted(fs[0]));
        assert(inner[0] == '"') by {
            assert(quoted(fs[0])[0] == '"');
        }
        assert(inner.skip(1) =~= escape(fs[0]) + seq!['"'] + Seq::<char>::empty()) by {
            assert(forall|j: int|
                0 <= j < inner.len() - 1 ==> #[trigger] inner.skip(1)[j] == quoted(fs[0])[j + 1]);
        }
        crate::text::lemma_scan_quoted_escape(inner, 1, fs[0], Seq::empty());
        assert(seq![fs[0]] =~= fs);
    } else {
        let rest = crate::submit::join_quoted(fs.skip(1));
        assert(inner == quoted(fs[0]) + ", "@ + rest);
        assert(inner[0] == '"') by {
            assert(inner[0] == quoted(fs[0])[0]);
        }
        let tail = ", "@ + rest;
        assert(inner.skip(1) =~= escape(fs[0]) + seq!['"'] + tail) by {
            assert(forall|j: int|
                0 <= j < inner.len() - 1 ==> #[trigger] inner.skip(1)[j] == (quoted(fs[0])
                    + tail)[j + 1]);
        }
        crate::text::lemma_scan_quoted_escape(inner, 1, fs[0], tail);
        let j: int = 2 + escape(fs[0]).len() as int;
        assert(scan_quoted_spec(inner, 1) == Some((fs[0], j as int)));
        assert(j == quoted(fs[0]).len());
        assert(inner[j as int] == ',') by {
            assert(inner[j as int] == tail[0]);
        }
        assert(inner[j + 1] == ' ') by {
            assert(inner[j + 1] == tail[1]);
        }
        assert(inner.len() == quoted(fs[0]).len() + 2 + rest.len());
        assert(rest.len() >= 1) by {
            lemma_join_quoted_len(fs.skip(1));
        }
        assert(inner.skip(j + 2) =~= rest);
        lemma_parse_qlist_inverse(fs.skip(1));
        assert(seq![fs[0]] + fs.skip(1) =~= fs);
    }
}

proof fn lemma_join_quoted_len(fs: Seq<Seq<char>>)
    requires
        fs.len() >= 1,
    ensures
        crate::submit::join_quoted(fs).len() >= 1,
{
    reveal_strlit(", ");
    if fs.len() == 1 {
        assert(crate::submit::join_quoted(fs) == quoted(fs[0]));
        assert(quoted(fs[0]).len() >= 2);
    }
}

/// What an `answer:` line denotes for a question of the given kind:
/// `Some(None)` for `null`, `Some(Some(..))` for a payload, `None` when the
/// line is unreadable.
pub open spec fn parse_answer(l: Seq<char>, kind: QuestionKind) -> Option<Option<AnsSnap>> {
    if l == "    answer: null"@ {
        Some(None)
    } else {
        let p = "    answer: "@;
        let pb = "    answer: ["@;
        match kind {
            QuestionKind::SingleChoice(_) => if l.len() == p.len() + 1 && l.take(p.len() as int)
                == p && crate::submit::is_lower(l[p.len() as int]) {
                Some(Some(AnsSnap::ASel(seq![l[p.len() as int]])))
            } else {
                None
            },
            QuestionKind::MultiChoice(_) => if l.len() >= pb.len() + 1 && l.take(pb.len() as int)
                == pb && l.last() == ']' {
                match parse_labels(l.subrange(pb.len() as int, l.len() - 1)) {
                    Some(sel) => Some(Some(AnsSnap::ASel(sel))),
                    None => None,
                }
            } else {
                None
            },
            QuestionKind::Short | QuestionKind::Long => match q_value(l, p) {
                Some(t) => if t.len() > 0 {
                    Some(Some(AnsSnap::AText(t)))
                } else {
                    None
                },
                None => None,
            },
            QuestionKind::File(_) => if l.len() >= pb.len() + 1 && l.take(pb.len() as int) == pb
                && l.last() == ']' {
                match parse_qlist(l.subrange(pb.len() as int, l.len() - 1)) {
                    Some(fs) => if fs.len() > 0 {
                        Some(Some(AnsSnap::AFiles(fs)))
                    } else {
                        None
                    },
                    None => None,
                }
            } else {
                None
            },
        }
    }
}

/// The `answer:` line is read back as the payload it rendered.
pub proof fn lemma_parse_answer_inverse(kind: QuestionKind, ans: Option<AnsSnap>)
    requires
        crate::submit::q_snap_ok(
            kind,
            crate::submit::QSnap { answer: ans, hint: 0, done: false, flagged: false, visited: false },
            0,
        ),
    ensures
        parse_answer(crate::submit::answer_line(kind, ans), kind) == Some(ans),
{
    let l = crate::submit::answer_line(kind, ans);
    let p = "    answer: "@;
    let pb = "    answer: ["@;
    reveal_strlit("    answer: null");
    reveal_strlit("    answer: ");
    reveal_strlit("    answer: [");
    reveal_strlit("]");
    match ans {
        None => {
        },
        Some(AnsSnap::ASel(sel)) => {
            if kind is SingleChoice {
                assert(l == p + sel);
                assert(sel.len() == 1);
                assert(l.len() == 13);
                assert(l != "    answer: null"@) by {
                    assert("    answer: null"@.len() == 16);
                }
                assert(l.take(p.len() as int) =~= p);
                assert(l[p.len() as int] == sel[0]);
                assert(crate::submit::is_lower(sel[0]));
                assert(seq![l[p.len() as int]] =~= sel);
            } else {
                let inner = crate::submit::join_labels(sel);
                assert(l == pb + inner + "]"@);
                assert(l != "    answer: null"@) by {
                    assert(l[12] == '[') by {
                        assert(l[12] == pb[12]);
                    }
                    assert("    answer: null"@[12] == 'n');
                }
                assert(l.take(pb.len() as int) =~= pb);
                assert(l.last() == ']') by {
                    assert(l[l.len() - 1] == "]"@[0]);
                }
                assert(l.subrange(pb.len() as int, l.len() - 1) =~= inner);
                lemma_parse_labels_inverse(sel);
            }
        },
        Some(AnsSnap::AText(t)) => {
            assert(l == p + quoted(t));
            assert(l != "    answer: null"@) by {
                assert(l[12] == '"') by {
                    assert(l[12] == quoted(t)[0]);
                }
                assert("    answer: null"@[12] == 'n');
            }
            lemma_q_value_inverse(p, t);
            assert(t.len() > 0);
        },
        Some(AnsSnap::AFiles(fs)) => {
            let inner = crate::submit::join_quoted(fs);
            assert(l == pb + inner + "]"@);
            assert(l != "    answer: null"@) by {
                assert(l[12] == '[') by {
                    assert(l[12] == pb[12]);
                }
                assert("    answer: null"@[12] == 'n');
            }
            assert(l.take(pb.len() as int) =~= pb);
            assert(l.last() == ']') by {
                assert(l[l.len() - 1] == "]"@[0]);
            }
            assert(l.subrange(pb.len() as int, l.len() - 1) =~= inner);
            lemma_parse_qlist_inverse(fs);
            assert(fs.len() > 0);
        },
    }
}

/// One question's record, read from `pos`: the record and the next
/// position.
pub open spec fn parse_q(lines: Seq<Seq<char>>, qu: Question, pos: int) -> Option<(QSnap, int)> {
    let chlen = crate::submit::choice_lines(qu.kind).len() as int;
    let sbase = pos + 3 + chlen;
    let end = sbase + 6;
    if pos < 0 || end > lines.len() {
        None
    } else if lines[pos] != "  - number: "@ + spec_fmt_u64(qu.number as int) {
        None
    } else if lines[pos + 1] != "    title: "@ + quoted(qu.title@) {
        None
    } else if lines[pos + 2] != "    type: "@ + crate::submit::kind_word(qu.kind) {
        None
    } else if lines.subrange(pos + 3, sbase) != crate::submit::choice_lines(qu.kind) {
        None
    } else {
        let hu = b_value(lines[sbase], "    hint_used: "@);
        let hn = n_value(lines[sbase + 1], "    hints_revealed: "@);
        let dn = b_value(lines[sbase + 2], "    done: "@);
        let fl = b_value(lines[sbase + 3], "    flagged: "@);
        let vi = b_value(lines[sbase + 4], "    visited: "@);
        let an = parse_answer(lines[sbase + 5], qu.kind);
        if hu is Some && hn is Some && dn is Some && fl is Some && vi is Some && an is Some {
            let h = hn->0;
            let done = dn->0;
            let flagged = fl->0;
            if h as int <= qu.hints@.len() && !(done && flagged) && (done ==> (an->0) is Some) {
                Some(
                    (
                        QSnap {
                            answer: an->0,
                            hint: h as int,
                            done,
                            flagged,
                            visited: vi->0,
                        },
                        end,
                    ),
                )
            } else {
                None
            }
        } else {
            None
        }
    }
}

/// An emitted question block is read back as its record.
pub proof fn lemma_parse_q_inverse(q: Quiz, d: SnapData, k: int, lines: Seq<Seq<char>>, pos: int)
    requires
        crate::submit::snap_ok(q, d),
        0 <= k < d.qs.len(),
        0 <= pos,
        pos + crate::submit::q_lines(q, d, k).len() <= lines.len(),
        lines.subrange(pos, pos + crate::submit::q_lines(q, d, k).len() as int)
            == crate::submit::q_lines(q, d, k),
    ensures
        parse_q(lines, q.questions@[k], pos) == Some(
            (d.qs[k], pos + crate::submit::q_lines(q, d, k).len() as int),
        ),
{
    let ql = crate::submit::q_lines(q, d, k);
    let qu = q.questions@[k];
    let qs = d.qs[k];
    let chlen = crate::submit::choice_lines(qu.kind).len() as int;
    assert(ql.len() == 9 + chlen);
    assert(forall|j: int|
        0 <= j < ql.len() ==> lines[pos + j] == #[trigger] ql[j]) by {
        assert(forall|j: int|
            0 <= j < ql.len() ==> lines.subrange(pos, pos + ql.len() as int)[j]
                == #[trigger] ql[j]);
    }
    let sbase = pos + 3 + chlen;
    assert(lines[pos] == ql[0]);
    assert(lines[pos + 1] == ql[1]);
    assert(lines[pos + 2] == ql[2]);
    assert(lines.subrange(pos + 3, sbase) =~= crate::submit::choice_lines(qu.kind)) by {
        assert(forall|j: int|
            0 <= j < chlen ==> #[trigger] lines.subrange(pos + 3, sbase)[j] == lines[pos + 3
                + j]);
        assert(forall|j: int| 0 <= j < chlen ==> ql[3 + j] == #[trigger] crate::submit::choice_lines(
            qu.kind,
        )[j]);
    }
    let a3 = seq![
        "  - number: "@ + spec_fmt_u64(qu.number as int),
        "    title: "@ + quoted(qu.title@),
        "    type: "@ + crate::submit::kind_word(qu.kind),
    ];
    let cpart = seq![
        "    hint_used: "@ + crate::submit::bool_word(qs.hint > 0),
        "    hints_revealed: "@ + spec_fmt_u64(qs.hint),
        "    done: "@ + crate::submit::bool_word(qs.done),
        "    flagged: "@ + crate::submit::bool_word(qs.flagged),
        "    visited: "@ + crate::submit::bool_word(qs.visited),
        crate::submit::answer_line(qu.kind, qs.answer),
    ];
    assert(ql == a3 + crate::submit::choice_lines(qu.kind) + cpart);
    assert(forall|t: int|
        0 <= t < 6 ==> #[trigger] ql[3 + chlen + t] == cpart[t]) by {
        assert(forall|t: int|
            0 <= t < 6 ==> (a3 + crate::submit::choice_lines(qu.kind) + cpart)[3 + chlen + t]
                == #[trigger] cpart[t]);
    }
    assert(ql[3 + chlen + 0] == cpart[0]);
    assert(lines[pos + (3 + chlen + 0)] == ql[3 + chlen + 0]);
    assert(lines[sbase + 0] == cpart[0]);
    assert(ql[3 + chlen + 1] == cpart[1]);
    assert(lines[pos + (3 + chlen + 1)] == ql[3 + chlen + 1]);
    assert(lines[sbase + 1] == cpart[1]);
    assert(ql[3 + chlen + 2] == cpart[2]);
    assert(lines[pos + (3 + chlen + 2)] == ql[3 + chlen + 2]);
    assert(lines[sbase + 2] == cpart[2]);
    assert(ql[3 + chlen + 3] == cpart[3]);
    assert(lines[pos + (3 + chlen + 3)] == ql[3 + chlen + 3]);
    assert(lines[sbase + 3] == cpart[3]);
    assert(ql[3 + chlen + 4] == cpart[4]);
    assert(lines[pos + (3 + chlen + 4)] == ql[3 + chlen + 4]);
    assert(lines[sbase + 4] == cpart[4]);
    assert(ql[3 + chlen + 5] == cpart[5]);
    assert(lines[pos + (3 + chlen + 5)] == ql[3 + chlen + 5]);
    assert(lines[sbase + 5] == cpart[5]);
    lemma_b_value_inverse("    hint_used: "@, qs.hint > 0);
    assert(crate::submit::q_snap_ok(qu.kind, qs, qu.hints@.len() as int));
    assert(0 <= qs.hint <= qu.hints@.len());
    assert(spec_fmt_u64(qs.hint) == spec_fmt_u64((qs.hint as u64) as int));
    lemma_n_value_inverse("    hints_revealed: "@, qs.hint as u64);
    lemma_b_value_inverse("    done: "@, qs.done);
    lemma_b_value_inverse("    flagged: "@, qs.flagged);
    lemma_b_value_inverse("    visited: "@, qs.visited);
    lemma_parse_answer_inverse_ok(qu.kind, qs, qu.hints@.len() as int);
    let r = parse_q(lines, qu, pos);
    assert(r matches Some(p) && p.0 =~= qs && p.1 == pos + ql.len());
}

/// Bridges the per-question invariant into the answer-line inverse.
proof fn lemma_parse_answer_inverse_ok(kind: QuestionKind, qs: QSnap, n_hints: int)
    requires
        crate::submit::q_snap_ok(kind, qs, n_hints),
    ensures
        parse_answer(crate::submit::answer_line(kind, qs.answer), kind) == Some(qs.answer),
{
    lemma_parse_answer_inverse(kind, qs.answer);
}

/// The question records from `k` on, ending exactly at the last line.
pub open spec fn parse_qs(lines: Seq<Seq<char>>, q: Quiz, k: int, pos: int) -> Option<Seq<QSnap>>
    decreases q.questions@.len() - k,
{
    if k < 0 || k >= q.questions@.len() {
        if k == q.questions@.len() && pos == lines.len() {
            Some(Seq::empty())
        } else {
            None
        }
    } else {
        match parse_q(lines, q.questions@[k], pos) {
            None => None,
            Some((qs, next)) => match parse_qs(lines, q, k + 1, next) {
                None => None,
                Some(rest) => Some(seq![qs] + rest),
            },
        }
    }
}

/// The lines of questions `k` on.
pub open spec fn q_lines_from(q: Quiz, d: SnapData, k: int) -> Seq<Seq<char>>
    decreases d.qs.len() - k,
{
    if k < 0 || k >= d.qs.len() {
        Seq::empty()
    } else {
        crate::submit::q_lines(q, d, k) + q_lines_from(q, d, k + 1)
    }
}

pub proof fn lemma_all_q_eq_from(q: Quiz, d: SnapData, k: int)
    requires
        0 <= k <= d.qs.len(),
    ensures
        crate::submit::all_q_lines(q, d, d.qs.len() as int) == crate::submit::all_q_lines(q, d, k)
            + q_lines_from(q, d, k),
    decreases d.qs.len() - k,
{
    if k == d.qs.len() {
        assert(q_lines_from(q, d, k) =~= Seq::<Seq<char>>::empty());
        assert(crate::submit::all_q_lines(q, d, k) + Seq::<Seq<char>>::empty()
            =~= crate::submit::all_q_lines(q, d, k));
    } else {
        lemma_all_q_eq_from(q, d, k + 1);
        assert(crate::submit::all_q_lines(q, d, k + 1) == crate::submit::all_q_lines(q, d, k)
            + crate::submit::q_lines(q, d, k));
        assert((crate::submit::all_q_lines(q, d, k) + crate::submit::q_lines(q, d, k))
            + q_lines_from(q, d, k + 1) =~= crate::submit::all_q_lines(q, d, k) + (
        crate::submit::q_lines(q, d, k) + q_lines_from(q, d, k + 1)));
    }
}

/// Emitted question blocks are read back as their records.
pub proof fn lemma_parse_qs_inverse(q: Quiz, d: SnapData, k: int, lines: Seq<Seq<char>>, pos: int)
    requires
        crate::submit::snap_ok(q, d),
        0 <= k <= d.qs.len(),
        0 <= pos <= lines.len(),
        lines.subrange(pos, lines.len() as int) == q_lines_from(q, d, k),
    ensures
        parse_qs(lines, q, k, pos) == Some(d.qs.skip(k)),
    decreases d.qs.len() - k,
{
    if k == d.qs.len() {
        assert(q_lines_from(q, d, k) =~= Seq::<Seq<char>>::empty());
        assert(pos == lines.len());
        assert(d.qs.skip(k) =~= Seq::<QSnap>::empty());
    } else {
        let ql = crate::submit::q_lines(q, d, k);
        let rest = q_lines_from(q, d, k + 1);
        assert(q_lines_from(q, d, k) == ql + rest);
        assert(lines.len() - pos == ql.len() + rest.len());
        assert(lines.subrange(pos, pos + ql.len() as int) =~= ql) by {
            assert(forall|j: int|
                0 <= j < ql.len() ==> #[trigger] (ql + rest)[j] == ql[j]);
            assert(forall|j: int|
                0 <= j < ql.len() + rest.len() ==> #[trigger] lines.subrange(
                    pos,
                    lines.len() as int,
                )[j] == lines[pos + j]);
            assert(forall|j: int|
                0 <= j < ql.len() ==> #[trigger] lines.subrange(pos, pos + ql.len() as int)[j]
                    == lines[pos + j]);
        }
        lemma_parse_q_inverse(q, d, k, lines, pos);
        let next = pos + ql.len() as int;
        assert(lines.subrange(next, lines.len() as int) =~= rest) by {
            assert(forall|j: int|
                0 <= j < rest.len() ==> #[trigger] lines.subrange(next, lines.len() as int)[j]
                    == lines[next + j]);
            assert(forall|j: int|
                0 <= j < ql.len() + rest.len() ==> #[trigger] lines.subrange(
                    pos,
                    lines.len() as int,
                )[j] == lines[pos + j]);
            assert(forall|j: int|
                0 <= j < rest.len() ==> #[trigger] rest[j] == (ql + rest)[ql.len() + j]);
            assert(forall|j: int|
                0 <= j < rest.len() ==> lines[next + j] == #[trigger] lines.subrange(
                    pos,
                    lines.len() as int,
                )[ql.len() + j]);
        }
        lemma_parse_qs_inverse(q, d, k + 1, lines, next);
        assert(seq![d.qs[k]] + d.qs.skip(k + 1) =~= d.qs.skip(k));
    }
}

/// The header's extracted fields.
pub open spec fn parse_header(lines: Seq<Seq<char>>, q: Quiz) -> Option<
    (u64, Option<Seq<char>>, Option<Seq<char>>, Option<(Seq<char>, Seq<char>, Seq<char>)>),
> {
    if lines.len() < 17 {
        None
    } else if lines[0] != "quiz:"@ {
        None
    } else if lines[1] != "  title: "@ + quoted(q.title@) {
        None
    } else if lines[2] != "  source: "@ + quoted(q.quiz_file@) {
        None
    } else if q_value(lines[3], "  submitted_at: "@) is None {
        None
    } else if q_value(lines[4], "  duration: "@) is None {
        None
    } else if b_value(lines[5], "  acknowledged: "@) is None {
        None
    } else if lines[6] != Seq::<char>::empty() {
        None
    } else if lines[7] != "session:"@ {
        None
    } else if n_value(lines[8], "  current_question: "@) is None {
        None
    } else if lines[9] != "  quiz_file_hash: "@ + quoted(q.quiz_hash@) {
        None
    } else if q_value(lines[10], "  started_at: "@) is None {
        None
    } else if lines[11] != "  acknowledgment:"@ {
        None
    } else if q_value(lines[12], "    name: "@) is None {
        None
    } else if q_value(lines[13], "    agreed_at: "@) is None {
        None
    } else if q_value(lines[14], "    text_hash: "@) is None {
        None
    } else if lines[15] != Seq::<char>::empty() {
        None
    } else if lines[16] != "questions:"@ {
        None
    } else {
        let su_raw = q_value(lines[3], "  submitted_at: "@)->0;
        let st_raw = q_value(lines[10], "  started_at: "@)->0;
        let nm = q_value(lines[12], "    name: "@)->0;
        let ag = q_value(lines[13], "    agreed_at: "@)->0;
        let th = q_value(lines[14], "    text_hash: "@)->0;
        Some(
            (
                n_value(lines[8], "  current_question: "@)->0,
                if st_raw.len() == 0 {
                    None
                } else {
                    Some(st_raw)
                },
                if su_raw == "unknown"@ {
                    None
                } else {
                    Some(su_raw)
                },
                if nm.len() == 0 {
                    None
                } else {
                    Some((nm, ag, th))
                },
            ),
        )
    }
}

/// The emitted header is read back as the snapshot's scalar fields.
pub proof fn lemma_parse_header_inverse(q: Quiz, d: SnapData, lines: Seq<Seq<char>>)
    requires
        crate::submit::snap_ok(q, d),
        lines.len() >= 17,
        lines.take(17) == crate::submit::header_lines(q, d),
    ensures
        parse_header(lines, q) == Some((d.current, d.started, d.submitted, d.ack)),
{
    let hl = crate::submit::header_lines(q, d);
    assert(forall|j: int| 0 <= j < 17 ==> lines[j] == #[trigger] hl[j]) by {
        assert(forall|j: int| 0 <= j < 17 ==> lines.take(17)[j] == #[trigger] hl[j]);
    }
    let su_text = (match d.submitted {
        Some(t) => t,
        None => "unknown"@,
    });
    lemma_q_value_inverse("  submitted_at: "@, su_text);
    lemma_q_value_inverse("  duration: "@, crate::submit::spec_duration(d.started, d.submitted));
    lemma_b_value_inverse("  acknowledged: "@, d.ack is Some);
    lemma_n_value_inverse("  current_question: "@, d.current);
    lemma_q_value_inverse("  started_at: "@, crate::submit::opt_or_empty(d.started));
    lemma_q_value_inverse("    name: "@, crate::submit::ack_part(d.ack, 0));
    lemma_q_value_inverse("    agreed_at: "@, crate::submit::ack_part(d.ack, 1));
    lemma_q_value_inverse("    text_hash: "@, crate::submit::ack_part(d.ack, 2));
    reveal_strlit("unknown");
    match d.submitted {
        Some(t) => {
            assert(t != "unknown"@);
        },
        None => {},
    }
    match d.started {
        Some(t) => {
            assert(t.len() > 0);
        },
        None => {
            assert(crate::submit::opt_or_empty(d.started).len() == 0);
        },
    }
    match d.ack {
        Some(a) => {
            assert(crate::submit::ack_part(d.ack, 0).len() > 0);
            assert((crate::submit::ack_part(d.ack, 0), crate::submit::ack_part(d.ack, 1),
            crate::submit::ack_part(d.ack, 2)) == a);
        },
        None => {},
    }
}

/// The whole snapshot, read against the live quiz. The stored hash must be
/// exactly the live document's.
pub open spec fn parse_snap(lines: Seq<Seq<char>>, q: Quiz) -> Option<SnapData> {
    match parse_header(lines, q) {
        None => None,
        Some((cur, st, su, ack)) => match parse_qs(lines, q, 0, 17) {
            None => None,
            Some(qs) => Some(SnapData { current: cur, started: st, submitted: su, ack, qs }),
        },
    }
}

/// Round trip: the document `build_answers_yaml` writes for a session is
/// read back, against the same quiz, as exactly that session's snapshot —
/// no field is lost or altered.
pub proof fn lemma_snapshot_round_trip(q: Quiz, d: SnapData)
    requires
        crate::submit::snap_ok(q, d),
    ensures
        parse_snap(crate::submit::snap_lines(q, d), q) == Some(d),
{
    let lines = crate::submit::snap_lines(q, d);
    let hl = crate::submit::header_lines(q, d);
    let qlf = q_lines_from(q, d, 0);
    lemma_all_q_eq_from(q, d, 0);
    assert(crate::submit::all_q_lines(q, d, 0) =~= Seq::<Seq<char>>::empty());
    assert(Seq::<Seq<char>>::empty() + qlf =~= qlf);
    assert(lines == hl + qlf);
    assert(hl.len() == 17);
    assert(lines.take(17) =~= hl);
    lemma_parse_header_inverse(q, d, lines);
    assert(lines.subrange(17, lines.len() as int) =~= qlf);
    lemma_parse_qs_inverse(q, d, 0, lines, 17);
    assert(d.qs.skip(0) =~= d.qs);
    let r = parse_snap(lines, q);
    assert(r matches Some(d2) && d2 =~= d);
}

/// Hash guard: a snapshot written for a document with a different content
/// hash is never read back silently; reading it against the live quiz
/// fails.
pub proof fn lemma_hash_guard(q_old: Quiz, d: SnapData, q_new: Quiz)
    requires
        q_old.quiz_hash@ != q_new.quiz_hash@,
    ensures
        parse_snap(crate::submit::snap_lines(q_old, d), q_new) == None::<SnapData>,
{
    let lines = crate::submit::snap_lines(q_old, d);
    let hl = crate::submit::header_lines(q_old, d);
    if lines.len() >= 17 {
        assert(lines[9] == hl[9]) by {
            assert(hl.len() == 17);
            assert(forall|j: int| 0 <= j < 17 ==> lines[j] == #[trigger] hl[j]);
        }
        assert(hl[9] == "  quiz_file_hash: "@ + quoted(q_old.quiz_hash@));
        if lines[9] == "  quiz_file_hash: "@ + quoted(q_new.quiz_hash@) {
            let p = "  quiz_file_hash: "@;
            lemma_q_value_inverse(p, q_old.quiz_hash@);
            lemma_q_value_inverse(p, q_new.quiz_hash@);
            assert(q_value(lines[9], p) == Some(q_old.quiz_hash@));
            assert(q_value(lines[9], p) == Some(q_new.quiz_hash@));
            assert(false);
        }
    }
}


/// A session's snapshot projection is coherent with its quiz.
pub proof fn lemma_session_snap_ok(s: crate::state::Session)
    requires
        s.wf(),
    ensures
        crate::submit::snap_ok(s.quiz, crate::submit::snap_of(s)),
{
    let q = s.quiz;
    let d = crate::submit::snap_of(s);
    assert forall|k: int| 0 <= k < d.qs.len() implies crate::submit::q_snap_ok(
        q.questions@[k].kind,
        #[trigger] d.qs[k],
        q.questions@[k].hints@.len() as int,
    ) by {
        let num = q.questions@[k].number;
        assert(d.qs[k].done == s.done_marks@.contains(num));
        if s.done_marks@.contains(num) {
            assert(s.answers@.contains_key(num));
        }
        if s.answers@.contains_key(num) {
            assert(s.answers@[num].wf() && s.answers@[num].matches_kind(q.questions@[k].kind));
        }
        if s.hints_revealed@.contains_key(num) {
            assert(1 <= s.hints_revealed@[num] <= q.questions@[k].hints@.len());
        }
    }
}

/// No character sequence the escaping produces holds a raw newline.
pub proof fn lemma_escape_no_nl(v: Seq<char>)
    ensures
        forall|j: int| 0 <= j < escape(v).len() ==> #[trigger] escape(v)[j] != '\n',
    decreases v.len(),
{
    if v.len() > 0 {
        lemma_escape_no_nl(v.drop_last());
        let e = crate::text::esc_char(v.last());
        assert(forall|j: int| 0 <= j < e.len() ==> #[trigger] e[j] != '\n');
        assert(forall|j: int|
            0 <= j < escape(v).len() ==> #[trigger] escape(v)[j] == (if j < escape(
                v.drop_last(),
            ).len() {
                escape(v.drop_last())[j]
            } else {
                e[j - escape(v.drop_last()).len()]
            }));
    }
}

/// Nor does a quoted scalar.
pub proof fn lemma_quoted_no_nl(v: Seq<char>)
    ensures
        forall|j: int| 0 <= j < quoted(v).len() ==> #[trigger] quoted(v)[j] != '\n',
{
    lemma_escape_no_nl(v);
    assert(forall|j: int|
        0 <= j < quoted(v).len() ==> #[trigger] quoted(v)[j] == (if j == 0 || j == quoted(
            v,
        ).len() - 1 {
            '"'
        } else {
            escape(v)[j - 1]
        }));
}

/// Nor do rendered decimals.
pub proof fn lemma_fmt_no_nl(n: int)
    requires
        n >= 0,
    ensures
        forall|j: int| 0 <= j < spec_fmt_u64(n).len() ==> #[trigger] spec_fmt_u64(n)[j] != '\n',
{
    crate::text::lemma_fmt_all_digits(n);
    assert(forall|j: int|
        0 <= j < spec_fmt_u64(n).len() ==> is_digit(#[trigger] spec_fmt_u64(n)[j]));
}

/// Whether a line is free of newlines.
pub open spec fn no_nl(l: Seq<char>) -> bool {
    forall|j: int| 0 <= j < l.len() ==> #[trigger] l[j] != '\n'
}

proof fn lemma_no_nl_concat(a: Seq<char>, b: Seq<char>)
    requires
        no_nl(a),
        no_nl(b),
    ensures
        no_nl(a + b),
{
    assert(forall|j: int|
        0 <= j < a.len() + b.len() ==> #[trigger] (a + b)[j] == (if j < a.len() {
            a[j]
        } else {
            b[j - a.len()]
        }));
}


/// No snapshot line holds a newline, so joining and splitting are inverse.
pub proof fn lemma_snap_lines_no_nl(q: Quiz, d: SnapData)
    requires
        q.wf(),
        crate::submit::snap_ok(q, d),
    ensures
        forall|i: int|
            0 <= i < crate::submit::snap_lines(q, d).len() ==> no_nl(
                #[trigger] crate::submit::snap_lines(q, d)[i],
            ),
{
    let lines = crate::submit::snap_lines(q, d);
    let hl = crate::submit::header_lines(q, d);
    lemma_header_no_nl(q, d);
    lemma_all_q_no_nl(q, d, d.qs.len() as int);
    assert forall|i: int| 0 <= i < lines.len() implies no_nl(#[trigger] lines[i]) by {
        if i < 17 {
            assert(lines[i] == hl[i]);
        } else {
            assert(lines[i] == crate::submit::all_q_lines(q, d, d.qs.len() as int)[i - 17]);
        }
    }
}

proof fn lemma_kv_no_nl(p: Seq<char>, v: Seq<char>)
    requires
        no_nl(p),
        no_nl(v),
    ensures
        no_nl(p + v),
{
    lemma_no_nl_concat(p, v);
}

proof fn lemma_header_no_nl(q: Quiz, d: SnapData)
    requires
        crate::submit::snap_ok(q, d),
    ensures
        forall|i: int|
            0 <= i < 17 ==> no_nl(#[trigger] crate::submit::header_lines(q, d)[i]),
{
    let hl = crate::submit::header_lines(q, d);
    reveal_strlit("quiz:");
    reveal_strlit("  title: ");
    reveal_strlit("  source: ");
    reveal_strlit("  submitted_at: ");
    reveal_strlit("  duration: ");
    reveal_strlit("  acknowledged: ");
    reveal_strlit("session:");
    reveal_strlit("  current_question: ");
    reveal_strlit("  quiz_file_hash: ");
    reveal_strlit("  started_at: ");
    reveal_strlit("  acknowledgment:");
    reveal_strlit("    name: ");
    reveal_strlit("    agreed_at: ");
    reveal_strlit("    text_hash: ");
    reveal_strlit("questions:");
    reveal_strlit("true");
    reveal_strlit("false");
    reveal_strlit("unknown");
    lemma_quoted_no_nl(q.title@);
    lemma_quoted_no_nl(q.quiz_file@);
    lemma_quoted_no_nl(q.quiz_hash@);
    lemma_quoted_no_nl(
        match d.submitted {
            Some(t) => t,
            None => "unknown"@,
        },
    );
    lemma_quoted_no_nl(crate::submit::spec_duration(d.started, d.submitted));
    lemma_quoted_no_nl(crate::submit::opt_or_empty(d.started));
    lemma_quoted_no_nl(crate::submit::ack_part(d.ack, 0));
    lemma_quoted_no_nl(crate::submit::ack_part(d.ack, 1));
    lemma_quoted_no_nl(crate::submit::ack_part(d.ack, 2));
    lemma_fmt_no_nl(d.current as int);
    assert forall|i: int| 0 <= i < 17 implies no_nl(#[trigger] hl[i]) by {
        if i == 0 {
        } else if i == 1 {
            lemma_no_nl_concat("  title: "@, quoted(q.title@));
        } else if i == 2 {
            lemma_no_nl_concat("  source: "@, quoted(q.quiz_file@));
        } else if i == 3 {
            lemma_no_nl_concat(
                "  submitted_at: "@,
                quoted(
                    match d.submitted {
                        Some(t) => t,
                        None => "unknown"@,
                    },
                ),
            );
        } else if i == 4 {
            lemma_no_nl_concat(
                "  duration: "@,
                quoted(crate::submit::spec_duration(d.started, d.submitted)),
            );
        } else if i == 5 {
            lemma_no_nl_concat("  acknowledged: "@, crate::submit::bool_word(d.ack is Some));
        } else if i == 8 {
            lemma_no_nl_concat("  current_question: "@, spec_fmt_u64(d.current as int));
        } else if i == 9 {
            lemma_no_nl_concat("  quiz_file_hash: "@, quoted(q.quiz_hash@));
        } else if i == 10 {
            lemma_no_nl_concat("  started_at: "@, quoted(crate::submit::opt_or_empty(d.started)));
        } else if i == 12 {
            lemma_no_nl_concat("    name: "@, quoted(crate::submit::ack_part(d.ack, 0)));
        } else if i == 13 {
            lemma_no_nl_concat("    agreed_at: "@, quoted(crate::submit::ack_part(d.ack, 1)));
        } else if i == 14 {
            lemma_no_nl_concat("    text_hash: "@, quoted(crate::submit::ack_part(d.ack, 2)));
        }
    }
}

proof fn lemma_join_labels_no_nl(sel: Seq<char>)
    requires
        crate::text::all_lower(sel),
    ensures
        no_nl(crate::submit::join_labels(sel)),
    decreases sel.len(),
{
    reveal_strlit(", ");
    if sel.len() > 1 {
        assert(crate::text::all_lower(sel.skip(1))) by {
            assert(forall|i: int| 0 <= i < sel.skip(1).len() ==> sel.skip(1)[i] == sel[i + 1]);
        }
        lemma_join_labels_no_nl(sel.skip(1));
        lemma_no_nl_concat(seq![sel[0]], ", "@);
        lemma_no_nl_concat(seq![sel[0]] + ", "@, crate::submit::join_labels(sel.skip(1)));
    }
}

proof fn lemma_join_quoted_no_nl(fs: Seq<Seq<char>>)
    ensures
        no_nl(crate::submit::join_quoted(fs)),
    decreases fs.len(),
{
    reveal_strlit(", ");
    if fs.len() == 1 {
        lemma_quoted_no_nl(fs[0]);
    } else if fs.len() > 1 {
        lemma_quoted_no_nl(fs[0]);
        lemma_join_quoted_no_nl(fs.skip(1));
        lemma_no_nl_concat(quoted(fs[0]), ", "@);
        lemma_no_nl_concat(quoted(fs[0]) + ", "@, crate::submit::join_quoted(fs.skip(1)));
    }
}

proof fn lemma_q_lines_no_nl(q: Quiz, d: SnapData, k: int)
    requires
        q.wf(),
        crate::submit::snap_ok(q, d),
        0 <= k < d.qs.len(),
    ensures
        forall|i: int|
            0 <= i < crate::submit::q_lines(q, d, k).len() ==> no_nl(
                #[trigger] crate::submit::q_lines(q, d, k)[i],
            ),
{
    let ql = crate::submit::q_lines(q, d, k);
    let qu = q.questions@[k];
    let qs = d.qs[k];
    let ch = crate::submit::choice_lines(qu.kind);
    let chlen = ch.len() as int;
    reveal_strlit("  - number: ");
    reveal_strlit("    title: ");
    reveal_strlit("    type: ");
    reveal_strlit("single");
    reveal_strlit("multi");
    reveal_strlit("short");
    reveal_strlit("long");
    reveal_strlit("file");
    reveal_strlit("    choices:");
    reveal_strlit("      ");
    reveal_strlit(": ");
    reveal_strlit("    hint_used: ");
    reveal_strlit("    hints_revealed: ");
    reveal_strlit("    done: ");
    reveal_strlit("    flagged: ");
    reveal_strlit("    visited: ");
    reveal_strlit("    answer: null");
    reveal_strlit("    answer: ");
    reveal_strlit("    answer: [");
    reveal_strlit("]");
    reveal_strlit("true");
    reveal_strlit("false");
    lemma_fmt_no_nl(qu.number as int);
    lemma_fmt_no_nl(qs.hint);
    lemma_quoted_no_nl(qu.title@);
    assert(no_nl(ql[0])) by {
        lemma_no_nl_concat("  - number: "@, spec_fmt_u64(qu.number as int));
    }
    assert(no_nl(ql[1])) by {
        lemma_no_nl_concat("    title: "@, quoted(qu.title@));
    }
    assert(no_nl(ql[2])) by {
        lemma_no_nl_concat("    type: "@, crate::submit::kind_word(qu.kind));
    }
    assert forall|i: int| 0 <= i < chlen implies no_nl(#[trigger] ch[i]) by {
        match qu.kind {
            QuestionKind::SingleChoice(cs) | QuestionKind::MultiChoice(cs) => {
                if i > 0 {
                    let e = crate::submit::choice_entry_lines(cs@);
                    assert(ch[i] == e[i - 1]);
                    lemma_quoted_no_nl(cs@[i - 1].text@);
                    assert(qu.wf());
                    assert(cs@[i - 1].label == crate::model::choice_label(i - 1));
                    assert(cs@[i - 1].label != '\n');
                    lemma_no_nl_concat("      "@, seq![cs@[i - 1].label]);
                    lemma_no_nl_concat("      "@ + seq![cs@[i - 1].label], ": "@);
                    lemma_no_nl_concat(
                        "      "@ + seq![cs@[i - 1].label] + ": "@,
                        quoted(cs@[i - 1].text@),
                    );
                }
            },
            _ => {},
        }
    }
    assert(no_nl(ql[3 + chlen])) by {
        lemma_no_nl_concat("    hint_used: "@, crate::submit::bool_word(qs.hint > 0));
    }
    assert(no_nl(ql[3 + chlen + 1])) by {
        lemma_no_nl_concat("    hints_revealed: "@, spec_fmt_u64(qs.hint));
    }
    assert(no_nl(ql[3 + chlen + 2])) by {
        lemma_no_nl_concat("    done: "@, crate::submit::bool_word(qs.done));
    }
    assert(no_nl(ql[3 + chlen + 3])) by {
        lemma_no_nl_concat("    flagged: "@, crate::submit::bool_word(qs.flagged));
    }
    assert(no_nl(ql[3 + chlen + 4])) by {
        lemma_no_nl_concat("    visited: "@, crate::submit::bool_word(qs.visited));
    }
    assert(no_nl(ql[3 + chlen + 5])) by {
        let al = crate::submit::answer_line(qu.kind, qs.answer);
        assert(ql[3 + chlen + 5] == al);
        match qs.answer {
            None => {},
            Some(AnsSnap::ASel(sel)) => {
                assert(crate::text::all_lower(sel));
                if qu.kind is SingleChoice {
                    lemma_no_nl_concat("    answer: "@, sel);
                } else {
                    lemma_join_labels_no_nl(sel);
                    lemma_no_nl_concat("    answer: ["@, crate::submit::join_labels(sel));
                    lemma_no_nl_concat(
                        "    answer: ["@ + crate::submit::join_labels(sel),
                        "]"@,
                    );
                }
            },
            Some(AnsSnap::AText(t)) => {
                lemma_quoted_no_nl(t);
                lemma_no_nl_concat("    answer: "@, quoted(t));
            },
            Some(AnsSnap::AFiles(fs)) => {
                lemma_join_quoted_no_nl(fs);
                lemma_no_nl_concat("    answer: ["@, crate::submit::join_quoted(fs));
                lemma_no_nl_concat("    answer: ["@ + crate::submit::join_quoted(fs), "]"@);
            },
        }
    }
    assert forall|i: int| 0 <= i < ql.len() implies no_nl(#[trigger] ql[i]) by {
        if 3 <= i < 3 + chlen {
            assert(ql[i] == ch[i - 3]);
        }
    }
}

proof fn lemma_all_q_no_nl(q: Quiz, d: SnapData, k: int)
    requires
        q.wf(),
        crate::submit::snap_ok(q, d),
        0 <= k <= d.qs.len(),
    ensures
        forall|i: int|
            0 <= i < crate::submit::all_q_lines(q, d, k).len() ==> no_nl(
                #[trigger] crate::submit::all_q_lines(q, d, k)[i],
            ),
    decreases k,
{
    if k > 0 {
        lemma_all_q_no_nl(q, d, k - 1);
        lemma_q_lines_no_nl(q, d, k - 1);
        let prev = crate::submit::all_q_lines(q, d, k - 1);
        let ql = crate::submit::q_lines(q, d, k - 1);
        assert forall|i: int|
            0 <= i < crate::submit::all_q_lines(q, d, k).len() implies no_nl(
            #[trigger] crate::submit::all_q_lines(q, d, k)[i],
        ) by {
            if i < prev.len() {
                assert(crate::submit::all_q_lines(q, d, k)[i] == prev[i]);
            } else {
                assert(crate::submit::all_q_lines(q, d, k)[i] == ql[i - prev.len()]);
            }
        }
    }
}

/// Round trip, end to end: the text written for a well-formed session,
/// split back into lines and read against the same quiz, yields exactly the
/// session's snapshot. Saving then loading on an unchanged document loses
/// nothing.
pub proof fn lemma_save_load_round_trip(s: crate::state::Session)
    requires
        s.wf(),
    ensures
        parse_snap(
            crate::text::split_lines_spec(
                crate::text::join_lines(
                    crate::submit::snap_lines(s.quiz, crate::submit::snap_of(s)),
                ),
            ),
            s.quiz,
        ) == Some(crate::submit::snap_of(s)),
{
    lemma_session_snap_ok(s);
    let d = crate::submit::snap_of(s);
    let lines = crate::submit::snap_lines(s.quiz, d);
    lemma_snap_lines_no_nl(s.quiz, d);
    assert forall|i: int| 0 <= i < lines.len() implies !(#[trigger] lines[i]).contains('\n') by {
        assert(no_nl(lines[i]));
        if lines[i].contains('\n') {
            let w = choose|w: int| 0 <= w < lines[i].len() && lines[i][w] == '\n';
        }
    }
    crate::text::lemma_split_join(lines);
    lemma_snapshot_round_trip(s.quiz, d);
}

/// Two snapshot documents with the same text carry the same snapshot.
pub proof fn lemma_emit_injective(q: Quiz, d1: SnapData, d2: SnapData)
    requires
        q.wf(),
        crate::submit::snap_ok(q, d1),
        crate::submit::snap_ok(q, d2),
        crate::text::join_lines(crate::submit::snap_lines(q, d1)) == crate::text::join_lines(
            crate::submit::snap_lines(q, d2),
        ),
    ensures
        d1 == d2,
{
    lemma_snap_lines_no_nl(q, d1);
    lemma_snap_lines_no_nl(q, d2);
    let l1 = crate::submit::snap_lines(q, d1);
    let l2 = crate::submit::snap_lines(q, d2);
    assert forall|i: int| 0 <= i < l1.len() implies !(#[trigger] l1[i]).contains('\n') by {
        assert(no_nl(l1[i]));
    }
    assert forall|i: int| 0 <= i < l2.len() implies !(#[trigger] l2[i]).contains('\n') by {
        assert(no_nl(l2[i]));
    }
    crate::text::lemma_split_join(l1);
    crate::text::lemma_split_join(l2);
    assert(l1 == l2);
    lemma_snapshot_round_trip(q, d1);
    lemma_snapshot_round_trip(q, d2);
}


// ---------------------------------------------------------------------------
// The shape of stored snapshots
// ---------------------------------------------------------------------------
/// The navigation position a stored index restores to: clamped into the
/// question range, `0` when there are no questions.
pub open spec fn spec_clamp(m: u64, n: int) -> int {
    if n <= 0 {
        0
    } else if (m as int) < n {
        m as int
    } else {
        n - 1
    }
}

/// The `current_question` line a stored index `m` makes.
pub open spec fn cq_line(m: u64) -> Seq<char> {
    "  current_question: "@ + spec_fmt_u64(m as int)
}

/// The text `build_answers_yaml` writes for `s0`.
pub open spec fn canonical_snapshot(content: Seq<char>, q: Quiz, s0: crate::state::Session) -> bool {
    &&& s0.wf()
    &&& s0.quiz == q
    &&& content == crate::text::join_lines(crate::submit::snap_lines(q, crate::submit::snap_of(s0)))
}

/// A saved document whose navigation line may carry any stored index `m`
/// that clamps to `s0`'s position; the canonical text is the `m ==
/// current` instance.
pub open spec fn stored_snapshot(
    content: Seq<char>,
    q: Quiz,
    s0: crate::state::Session,
    m: u64,
) -> bool {
    &&& s0.wf()
    &&& s0.quiz == q
    &&& content == crate::text::join_lines(
        crate::submit::snap_lines(q, crate::submit::snap_of(s0)).update(8, cq_line(m)),
    )
    &&& spec_clamp(m, q.questions@.len() as int) == s0.current_question as int
}

/// What a successful load leaves behind: the input lines equal the restored
/// session's own document on every line but the navigation one, which
/// carries a decimal that clamps to the restored position.
pub open spec fn accepted_as(content: Seq<char>, q: Quiz, d: SnapData) -> bool {
    let lv = crate::text::split_lines_spec(content);
    let canon = crate::submit::snap_lines(q, d);
    &&& lv.len() == canon.len()
    &&& forall|i: int| 0 <= i < lv.len() && i != 8 ==> lv[i] == canon[i]
    &&& exists|m: u64|
        n_value(lv[8], "  current_question: "@) == Some(m) && spec_clamp(
            m,
            q.questions@.len() as int,
        ) == d.current as int
}

/// Where question `k`'s block starts in the document.
pub open spec fn q_offset(q: Quiz, k: int) -> int
    decreases k,
{
    if k <= 0 {
        17
    } else {
        q_offset(q, k - 1) + 9 + crate::submit::choice_lines(q.questions@[k - 1].kind).len()
    }
}

pub proof fn lemma_q_offset_mono(q: Quiz, k1: int, k2: int)
    requires
        0 <= k1 <= k2,
    ensures
        q_offset(q, k1) <= q_offset(q, k2),
    decreases k2 - k1,
{
    if k1 < k2 {
        lemma_q_offset_mono(q, k1, k2 - 1);
    }
}

/// The lines of the first `k` question blocks fill `[17, q_offset(k))`.
pub proof fn lemma_all_q_len(q: Quiz, d: SnapData, k: int)
    requires
        crate::submit::snap_ok(q, d),
        0 <= k <= d.qs.len(),
    ensures
        crate::submit::all_q_lines(q, d, k).len() == q_offset(q, k) - 17,
    decreases k,
{
    if k > 0 {
        lemma_all_q_len(q, d, k - 1);
        assert(crate::submit::q_lines(q, d, k - 1).len() == 9 + crate::submit::choice_lines(
            q.questions@[k - 1].kind,
        ).len());
    }
}

/// The whole document's line count.
pub proof fn lemma_snap_len(q: Quiz, d: SnapData)
    requires
        crate::submit::snap_ok(q, d),
    ensures
        crate::submit::snap_lines(q, d).len() == q_offset(q, d.qs.len() as int),
        q_offset(q, d.qs.len() as int) >= 17,
{
    lemma_all_q_len(q, d, d.qs.len() as int);
    lemma_q_offset_mono(q, 0, d.qs.len() as int);
}

/// Question `k`'s lines sit at `q_offset(k)` in the document.
pub proof fn lemma_snap_line_at(q: Quiz, d: SnapData, k: int, t: int)
    requires
        crate::submit::snap_ok(q, d),
        0 <= k < d.qs.len(),
        0 <= t < crate::submit::q_lines(q, d, k).len(),
    ensures
        q_offset(q, k) + crate::submit::q_lines(q, d, k).len() == q_offset(q, k + 1),
        q_offset(q, k + 1) <= crate::submit::snap_lines(q, d).len(),
        crate::submit::snap_lines(q, d)[q_offset(q, k) + t] == crate::submit::q_lines(q, d, k)[t],
{
    lemma_all_q_len(q, d, k);
    lemma_all_q_len(q, d, k + 1);
    lemma_snap_len(q, d);
    lemma_q_offset_mono(q, k + 1, d.qs.len() as int);
    let canon = crate::submit::snap_lines(q, d);
    let hl = crate::submit::header_lines(q, d);
    let allq = crate::submit::all_q_lines(q, d, d.qs.len() as int);
    lemma_all_q_eq_from(q, d, k);
    let pre = crate::submit::all_q_lines(q, d, k);
    let from = q_lines_from(q, d, k);
    assert(allq == pre + from);
    assert(from == crate::submit::q_lines(q, d, k) + q_lines_from(q, d, k + 1));
    assert(canon == hl + allq);
    assert(canon[q_offset(q, k) + t] == allq[q_offset(q, k) + t - 17]);
    assert(allq[pre.len() + t] == from[t]);
    assert(from[t] == crate::submit::q_lines(q, d, k)[t]);
}

/// The individual lines of one question block.
pub proof fn lemma_q_line_parts(q: Quiz, d: SnapData, k: int)
    requires
        crate::submit::snap_ok(q, d),
        0 <= k < d.qs.len(),
    ensures
        ({
            let ql = crate::submit::q_lines(q, d, k);
            let qu = q.questions@[k];
            let qs = d.qs[k];
            let chlen = crate::submit::choice_lines(qu.kind).len() as int;
            &&& ql.len() == 9 + chlen
            &&& ql[0] == "  - number: "@ + spec_fmt_u64(qu.number as int)
            &&& ql[1] == "    title: "@ + quoted(qu.title@)
            &&& ql[2] == "    type: "@ + crate::submit::kind_word(qu.kind)
            &&& forall|j: int|
                0 <= j < chlen ==> ql[3 + j] == #[trigger] crate::submit::choice_lines(qu.kind)[j]
            &&& ql[3 + chlen] == "    hint_used: "@ + crate::submit::bool_word(qs.hint > 0)
            &&& ql[3 + chlen + 1] == "    hints_revealed: "@ + spec_fmt_u64(qs.hint)
            &&& ql[3 + chlen + 2] == "    done: "@ + crate::submit::bool_word(qs.done)
            &&& ql[3 + chlen + 3] == "    flagged: "@ + crate::submit::bool_word(qs.flagged)
            &&& ql[3 + chlen + 4] == "    visited: "@ + crate::submit::bool_word(qs.visited)
            &&& ql[3 + chlen + 5] == crate::submit::answer_line(qu.kind, qs.answer)
        }),
{
    let ql = crate::submit::q_lines(q, d, k);
    let qu = q.questions@[k];
    let qs = d.qs[k];
    let chlen = crate::submit::choice_lines(qu.kind).len() as int;
    let a3 = seq![
        "  - number: "@ + spec_fmt_u64(qu.number as int),
        "    title: "@ + quoted(qu.title@),
        "    type: "@ + crate::submit::kind_word(qu.kind),
    ];
    let cpart = seq![
        "    hint_used: "@ + crate::submit::bool_word(qs.hint > 0),
        "    hints_revealed: "@ + spec_fmt_u64(qs.hint),
        "    done: "@ + crate::submit::bool_word(qs.done),
        "    flagged: "@ + crate::submit::bool_word(qs.flagged),
        "    visited: "@ + crate::submit::bool_word(qs.visited),
        crate::submit::answer_line(qu.kind, qs.answer),
    ];
    assert(ql == a3 + crate::submit::choice_lines(qu.kind) + cpart);
    assert(forall|t: int|
        0 <= t < 6 ==> #[trigger] ql[3 + chlen + t] == cpart[t]) by {
        assert(forall|t: int|
            0 <= t < 6 ==> (a3 + crate::submit::choice_lines(qu.kind) + cpart)[3 + chlen + t]
                == #[trigger] cpart[t]);
    }
    assert(ql[3 + chlen] == cpart[0]);
    assert(ql[3 + chlen + 1] == cpart[1]);
    assert(ql[3 + chlen + 2] == cpart[2]);
    assert(ql[3 + chlen + 3] == cpart[3]);
    assert(ql[3 + chlen + 4] == cpart[4]);
    assert(ql[3 + chlen + 5] == cpart[5]);
}

/// A stored snapshot splits back into the canonical lines with its
/// navigation line swapped in.
pub proof fn lemma_accepted_lines(
    content: Seq<char>,
    q: Quiz,
    s0: crate::state::Session,
    m: u64,
)
    requires
        stored_snapshot(content, q, s0, m),
    ensures
        q.wf(),
        crate::submit::snap_ok(q, crate::submit::snap_of(s0)),
        crate::text::split_lines_spec(content) == crate::submit::snap_lines(
            q,
            crate::submit::snap_of(s0),
        ).update(8, cq_line(m)),
        crate::text::split_lines_spec(content).len() == crate::submit::snap_lines(
            q,
            crate::submit::snap_of(s0),
        ).len(),
        crate::text::split_lines_spec(content).len() == q_offset(q, q.questions@.len() as int),
        forall|i: int|
            0 <= i < crate::text::split_lines_spec(content).len() && i != 8
                ==> crate::text::split_lines_spec(content)[i] == crate::submit::snap_lines(
                q,
                crate::submit::snap_of(s0),
            )[i],
        crate::text::split_lines_spec(content)[8] == cq_line(m),
{
    let d = crate::submit::snap_of(s0);
    lemma_session_snap_ok(s0);
    lemma_snap_lines_no_nl(q, d);
    lemma_snap_len(q, d);
    let canon = crate::submit::snap_lines(q, d);
    let upd = canon.update(8, cq_line(m));
    assert(no_nl(cq_line(m))) by {
        lemma_fmt_no_nl(m as int);
        reveal_strlit("  current_question: ");
        lemma_no_nl_concat("  current_question: "@, spec_fmt_u64(m as int));
    }
    assert forall|i: int| 0 <= i < upd.len() implies !(#[trigger] upd[i]).contains('\n') by {
        if i == 8 {
            assert(no_nl(upd[i]));
        } else {
            assert(upd[i] == canon[i]);
            assert(no_nl(canon[i]));
        }
        if upd[i].contains('\n') {
            let w = choose|w: int| 0 <= w < upd[i].len() && upd[i][w] == '\n';
        }
    }
    crate::text::lemma_split_join(upd);
    assert(canon.len() >= 17);
    assert(upd[8] == cq_line(m));
}

/// The canonical text is the stored form whose navigation line carries the
/// position itself.
pub proof fn lemma_canonical_is_stored(content: Seq<char>, q: Quiz, s0: crate::state::Session)
    requires
        canonical_snapshot(content, q, s0),
    ensures
        stored_snapshot(content, q, s0, s0.current_question as u64),
{
    let d = crate::submit::snap_of(s0);
    let canon = crate::submit::snap_lines(q, d);
    let m = s0.current_question as u64;
    lemma_session_snap_ok(s0);
    lemma_snap_len(q, d);
    assert(canon[8] == cq_line(m)) by {
        assert(canon[8] == crate::submit::header_lines(q, d)[8]);
    }
    assert(canon.update(8, cq_line(m)) =~= canon);
    if q.questions@.len() > 0 {
        assert((s0.current_question as int) < q.questions@.len());
    }
}

/// A successful load accepts every parsed label list as lower-case.
pub proof fn lemma_parse_labels_lower(inner: Seq<char>)
    ensures
        parse_labels(inner) matches Some(sel) ==> crate::text::all_lower(sel),
    decreases inner.len(),
{
    if inner.len() > 0 && crate::submit::is_lower(inner[0]) && inner.len() >= 4 && inner[1] == ','
        && inner[2] == ' ' {
        lemma_parse_labels_lower(inner.skip(3));
    }
}

/// Reads a `key: "value"` line: exactly `q_value` of it.
fn read_quoted_line(l: &[char], p: &str) -> (r: Option<Vec<char>>)
    ensures
        match r {
            Some(v) => q_value(l@, p@) == Some(v@),
            None => q_value(l@, p@) == None::<Seq<char>>,
        },
{
    if !crate::text::starts_with_str(l, p) {
        return None;
    }
    let plen = p.unicode_len();
    if plen >= l.len() || !(l[plen] == '"') {
        return None;
    }
    match crate::text::scan_quoted(l, plen + 1) {
        Some((v, j)) => {
            if j == l.len() {
                Some(v)
            } else {
                None
            }
        },
        None => None,
    }
}

/// Reads a `key: true|false` line: exactly `b_value` of it.
fn read_bool_line(l: &[char], p: &str) -> (r: Option<bool>)
    ensures
        r == b_value(l@, p@),
{
    proof {
        reveal_strlit("true");
        reveal_strlit("false");
    }
    let mut t = crate::text::str_to_chars(p);
    crate::text::push_str_chars(&mut t, "true");
    if crate::text::slices_eq(l, t.as_slice()) {
        proof {
            assert(l@ == p@ + "true"@);
        }
        return Some(true);
    }
    let mut f = crate::text::str_to_chars(p);
    crate::text::push_str_chars(&mut f, "false");
    if crate::text::slices_eq(l, f.as_slice()) {
        return Some(false);
    }
    None
}

/// Reads a `key: N` line: exactly `n_value` of it.
fn read_num_line(l: &[char], p: &str) -> (r: Option<u64>)
    ensures
        r == n_value(l@, p@),
{
    if !crate::text::starts_with_str(l, p) {
        return None;
    }
    let plen = p.unicode_len();
    let rest = crate::parser::slice_from(l, plen);
    crate::text::parse_u64(rest.as_slice())
}

fn corrupt(msg: &str) -> (r: StateCorruption) {
    StateCorruption { message: crate::text::str_to_chars(msg) }
}

/// Where a question's status lines start.
pub open spec fn q_status_base(q: Quiz, k: int) -> int {
    q_offset(q, k) + 3 + crate::submit::choice_lines(q.questions@[k].kind).len()
}

/// The record a loader must have read for question `k`, as relations
/// between the stores and the line values.
pub open spec fn stores_match_q(
    s: crate::state::Session,
    lv: Seq<Seq<char>>,
    q: Quiz,
    k: int,
) -> bool {
    let num = q.questions@[k].number;
    let sb = q_status_base(q, k);
    &&& (n_value(lv[sb + 1], "    hints_revealed: "@) matches Some(hv) && {
        &&& s.hints_revealed@.contains_key(num) == (hv > 0)
        &&& (hv > 0 ==> s.hints_revealed@[num] as int == hv as int)
    })
    &&& (b_value(lv[sb + 2], "    done: "@) matches Some(dv) && s.done_marks@.contains(num) == dv)
    &&& (b_value(lv[sb + 3], "    flagged: "@) matches Some(fv) && s.flags@.contains(num) == fv)
    &&& (b_value(lv[sb + 4], "    visited: "@) matches Some(vv) && s.visited@.contains(num) == vv)
    &&& (parse_answer(lv[sb + 5], q.questions@[k].kind) matches Some(aop) && {
        &&& s.answers@.contains_key(num) == (aop is Some)
        &&& (aop matches Some(snap) ==> crate::submit::ans_snap(s.answers@[num]) == snap)
    })
}

/// The records of questions `[0, k_upto)`.
pub open spec fn stores_match_lines(
    s: crate::state::Session,
    lv: Seq<Seq<char>>,
    q: Quiz,
    k_upto: int,
) -> bool {
    forall|k: int| 0 <= k < k_upto ==> #[trigger] stores_match_q(s, lv, q, k)
}

/// The header fields a loader must have read, as relations between the
/// session's scalar fields and the line values.
pub open spec fn header_matches_lines(
    s: crate::state::Session,
    lv: Seq<Seq<char>>,
    cur: u64,
) -> bool {
    &&& (q_value(lv[3], "  submitted_at: "@) matches Some(v3) && crate::submit::opt_view(
        s.submitted_at,
    ) == (if v3 == "unknown"@ {
        None::<Seq<char>>
    } else {
        Some(v3)
    }))
    &&& (q_value(lv[10], "  started_at: "@) matches Some(v10) && crate::submit::opt_view(
        s.started_at,
    ) == (if v10.len() == 0 {
        None::<Seq<char>>
    } else {
        Some(v10)
    }))
    &&& (q_value(lv[12], "    name: "@) matches Some(nm) && (q_value(
        lv[13],
        "    agreed_at: "@,
    ) matches Some(ag) && (q_value(lv[14], "    text_hash: "@) matches Some(th) && (match s.ack_data {
        None => nm.len() == 0,
        Some(a) => nm.len() > 0 && a.name@ == nm && a.agreed_at@ == ag && a.text_hash@ == th,
    }))))
    &&& n_value(lv[8], "  current_question: "@) == Some(cur)
    &&& s.current_question as int == spec_clamp(cur, s.quiz.questions@.len() as int)
}

/// A session whose stores and scalars match a stored snapshot's lines
/// carries exactly the saved session's snapshot.
#[verifier::rlimit(100)]
pub proof fn lemma_final_matches(
    content: Seq<char>,
    lv: Seq<Seq<char>>,
    q: Quiz,
    sess: crate::state::Session,
    cur: u64,
    s0: crate::state::Session,
    m: u64,
)
    requires
        sess.wf(),
        sess.quiz == q,
        stored_snapshot(content, q, s0, m),
        lv == crate::text::split_lines_spec(content),
        header_matches_lines(sess, lv, cur),
        stores_match_lines(sess, lv, q, q.questions@.len() as int),
    ensures
        crate::submit::snap_of(sess) == crate::submit::snap_of(s0),
{
    let d0 = crate::submit::snap_of(s0);
    let df = crate::submit::snap_of(sess);
    let nq = q.questions@.len() as int;
    lemma_accepted_lines(content, q, s0, m);
    let canon = crate::submit::snap_lines(q, d0);
    let hl = crate::submit::header_lines(q, d0);
    assert(forall|i: int| 0 <= i < 17 ==> canon[i] == #[trigger] hl[i]) by {
        lemma_snap_len(q, d0);
        assert(canon == hl + crate::submit::all_q_lines(q, d0, d0.qs.len() as int));
    }

    // The scalar fields.
    let su_text = (match d0.submitted {
        Some(t) => t,
        None => "unknown"@,
    });
    lemma_q_value_inverse("  submitted_at: "@, su_text);
    assert(lv[3] == hl[3]);
    reveal_strlit("unknown");
    assert(df.submitted == d0.submitted);
    lemma_q_value_inverse("  started_at: "@, crate::submit::opt_or_empty(d0.started));
    assert(lv[10] == hl[10]);
    assert(df.started == d0.started);
    lemma_q_value_inverse("    name: "@, crate::submit::ack_part(d0.ack, 0));
    lemma_q_value_inverse("    agreed_at: "@, crate::submit::ack_part(d0.ack, 1));
    lemma_q_value_inverse("    text_hash: "@, crate::submit::ack_part(d0.ack, 2));
    assert(lv[12] == hl[12] && lv[13] == hl[13] && lv[14] == hl[14]);
    assert(df.ack == d0.ack) by {
        match d0.ack {
            None => {},
            Some(a) => {
                assert(crate::submit::ack_part(d0.ack, 0).len() > 0);
            },
        }
    }
    assert(lv[8] == cq_line(m));
    lemma_n_value_inverse("  current_question: "@, m);
    assert(cur == m);
    assert(sess.current_question as int == s0.current_question as int);
    assert(df.current == d0.current);

    // The per-question records.
    assert forall|k: int| 0 <= k < nq implies df.qs[k] == d0.qs[k] by {
        let qu = q.questions@[k];
        let num = qu.number;
        let qs0 = d0.qs[k];
        let chlen = crate::submit::choice_lines(qu.kind).len() as int;
        let sb = q_status_base(q, k);
        assert(stores_match_q(sess, lv, q, k));
        lemma_q_line_parts(q, d0, k);
        lemma_snap_line_at(q, d0, k, 3 + chlen);
        lemma_snap_line_at(q, d0, k, 3 + chlen + 1);
        lemma_snap_line_at(q, d0, k, 3 + chlen + 2);
        lemma_snap_line_at(q, d0, k, 3 + chlen + 3);
        lemma_snap_line_at(q, d0, k, 3 + chlen + 4);
        lemma_snap_line_at(q, d0, k, 3 + chlen + 5);
        assert(sb == q_offset(q, k) + 3 + chlen);
        assert(sb >= 17 + 3) by {
            lemma_q_offset_mono(q, 0, k);
        }
        assert(lv[sb + 1] == canon[sb + 1] && canon[sb + 1] == "    hints_revealed: "@
            + spec_fmt_u64(qs0.hint));
        assert(spec_fmt_u64(qs0.hint) == spec_fmt_u64((qs0.hint as u64) as int));
        lemma_n_value_inverse("    hints_revealed: "@, qs0.hint as u64);
        assert(lv[sb + 2] == canon[sb + 2] && canon[sb + 2] == "    done: "@
            + crate::submit::bool_word(qs0.done));
        lemma_b_value_inverse("    done: "@, qs0.done);
        assert(lv[sb + 3] == canon[sb + 3]);
        lemma_b_value_inverse("    flagged: "@, qs0.flagged);
        assert(lv[sb + 4] == canon[sb + 4]);
        lemma_b_value_inverse("    visited: "@, qs0.visited);
        assert(lv[sb + 5] == canon[sb + 5]);
        lemma_parse_answer_inverse_ok(qu.kind, qs0, qu.hints@.len() as int);
        assert(df.qs[k].hint == qs0.hint) by {
            if qs0.hint > 0 {
                assert(sess.hints_revealed@.contains_key(num));
            } else {
                assert(!sess.hints_revealed@.contains_key(num));
            }
        }
        assert(df.qs[k].done == qs0.done);
        assert(df.qs[k].flagged == qs0.flagged);
        assert(df.qs[k].visited == qs0.visited);
        assert(df.qs[k].answer == qs0.answer) by {
            match qs0.answer {
                None => {
                    assert(!sess.answers@.contains_key(num));
                },
                Some(snap) => {
                    assert(sess.answers@.contains_key(num));
                    assert(crate::submit::ans_snap(sess.answers@[num]) == snap);
                },
            }
        }
        assert(df.qs[k] =~= qs0);
    }
    assert(df.qs =~= d0.qs);
    assert(df =~= d0);
}

/// The prefix a quoted header line at index `i` carries.
pub open spec fn header_key(i: int) -> Seq<char> {
    if i == 3 {
        "  submitted_at: "@
    } else if i == 10 {
        "  started_at: "@
    } else if i == 12 {
        "    name: "@
    } else if i == 13 {
        "    agreed_at: "@
    } else {
        "    text_hash: "@
    }
}

/// No saved document is shorter than its header.
proof fn no_stored_short(content: Seq<char>, q: Quiz, lv: Seq<Seq<char>>)
    requires
        lv == crate::text::split_lines_spec(content),
        lv.len() < 17,
    ensures
        !(exists|s0: crate::state::Session, m: u64| stored_snapshot(content, q, s0, m)),
        !(exists|s0: crate::state::Session| canonical_snapshot(content, q, s0)),
{
    assert forall|s0: crate::state::Session, m: u64|
        !stored_snapshot(content, q, s0, m) by {
        if stored_snapshot(content, q, s0, m) {
            lemma_accepted_lines(content, q, s0, m);
            lemma_q_offset_mono(q, 0, q.questions@.len() as int);
        }
    }
    assert forall|s0: crate::state::Session| !canonical_snapshot(content, q, s0) by {
        if canonical_snapshot(content, q, s0) {
            lemma_canonical_is_stored(content, q, s0);
        }
    }
}

/// No saved document carries a hash line other than the live document's.
proof fn no_stored_hash(content: Seq<char>, q: Quiz, lv: Seq<Seq<char>>)
    requires
        lv == crate::text::split_lines_spec(content),
        lv.len() >= 17,
        lv[9] != "  quiz_file_hash: "@ + quoted(q.quiz_hash@),
    ensures
        !(exists|s0: crate::state::Session, m: u64| stored_snapshot(content, q, s0, m)),
        !(exists|s0: crate::state::Session| canonical_snapshot(content, q, s0)),
{
    assert forall|s0: crate::state::Session, m: u64|
        !stored_snapshot(content, q, s0, m) by {
        if stored_snapshot(content, q, s0, m) {
            lemma_accepted_lines(content, q, s0, m);
            let d0 = crate::submit::snap_of(s0);
            assert(lv[9] == crate::submit::snap_lines(q, d0)[9]);
            assert(crate::submit::snap_lines(q, d0)[9] == crate::submit::header_lines(q, d0)[9])
                by {
                lemma_snap_len(q, d0);
                assert(crate::submit::snap_lines(q, d0) == crate::submit::header_lines(q, d0)
                    + crate::submit::all_q_lines(q, d0, d0.qs.len() as int));
            }
        }
    }
    assert forall|s0: crate::state::Session| !canonical_snapshot(content, q, s0) by {
        if canonical_snapshot(content, q, s0) {
            lemma_canonical_is_stored(content, q, s0);
        }
    }
}

/// No saved document has an unreadable quoted header line.
proof fn no_stored_header(content: Seq<char>, q: Quiz, lv: Seq<Seq<char>>, i: int)
    requires
        lv == crate::text::split_lines_spec(content),
        i == 3 || i == 10 || i == 12 || i == 13 || i == 14,
        lv.len() > i,
        q_value(lv[i], header_key(i)) is None,
    ensures
        !(exists|s0: crate::state::Session, m: u64| stored_snapshot(content, q, s0, m)),
        !(exists|s0: crate::state::Session| canonical_snapshot(content, q, s0)),
{
    assert forall|s0: crate::state::Session, m: u64|
        !stored_snapshot(content, q, s0, m) by {
        if stored_snapshot(content, q, s0, m) {
            lemma_accepted_lines(content, q, s0, m);
            let d0 = crate::submit::snap_of(s0);
            let hl = crate::submit::header_lines(q, d0);
            assert(lv[i] == crate::submit::snap_lines(q, d0)[i]);
            assert(crate::submit::snap_lines(q, d0)[i] == hl[i]) by {
                lemma_snap_len(q, d0);
                assert(crate::submit::snap_lines(q, d0) == hl + crate::submit::all_q_lines(
                    q,
                    d0,
                    d0.qs.len() as int,
                ));
            }
            if i == 3 {
                lemma_q_value_inverse(
                    header_key(i),
                    (match d0.submitted {
                        Some(t) => t,
                        None => "unknown"@,
                    }),
                );
            } else if i == 10 {
                lemma_q_value_inverse(header_key(i), crate::submit::opt_or_empty(d0.started));
            } else if i == 12 {
                lemma_q_value_inverse(header_key(i), crate::submit::ack_part(d0.ack, 0));
            } else if i == 13 {
                lemma_q_value_inverse(header_key(i), crate::submit::ack_part(d0.ack, 1));
            } else {
                lemma_q_value_inverse(header_key(i), crate::submit::ack_part(d0.ack, 2));
            }
        }
    }
    assert forall|s0: crate::state::Session| !canonical_snapshot(content, q, s0) by {
        if canonical_snapshot(content, q, s0) {
            lemma_canonical_is_stored(content, q, s0);
        }
    }
}

/// No saved document has an unreadable navigation line.
proof fn no_stored_cq(content: Seq<char>, q: Quiz, lv: Seq<Seq<char>>)
    requires
        lv == crate::text::split_lines_spec(content),
        lv.len() > 8,
        n_value(lv[8], "  current_question: "@) is None,
    ensures
        !(exists|s0: crate::state::Session, m: u64| stored_snapshot(content, q, s0, m)),
        !(exists|s0: crate::state::Session| canonical_snapshot(content, q, s0)),
{
    assert forall|s0: crate::state::Session, m: u64|
        !stored_snapshot(content, q, s0, m) by {
        if stored_snapshot(content, q, s0, m) {
            lemma_accepted_lines(content, q, s0, m);
            lemma_n_value_inverse("  current_question: "@, m);
        }
    }
    assert forall|s0: crate::state::Session| !canonical_snapshot(content, q, s0) by {
        if canonical_snapshot(content, q, s0) {
            lemma_canonical_is_stored(content, q, s0);
        }
    }
}

/// Why question `k`'s record was rejected: one of the readable-shape
/// conditions failed.
pub open spec fn q_reject(lv: Seq<Seq<char>>, q: Quiz, k: int) -> bool {
    let sb = q_status_base(q, k);
    let qu = q.questions@[k];
    ||| lv.len() < q_offset(q, k + 1)
    ||| n_value(lv[sb + 1], "    hints_revealed: "@) is None
    ||| (n_value(lv[sb + 1], "    hints_revealed: "@) matches Some(h) && h as int
        > qu.hints@.len())
    ||| b_value(lv[sb + 2], "    done: "@) is None
    ||| b_value(lv[sb + 3], "    flagged: "@) is None
    ||| b_value(lv[sb + 4], "    visited: "@) is None
    ||| (b_value(lv[sb + 2], "    done: "@) == Some(true) && b_value(lv[sb + 3], "    flagged: "@)
        == Some(true))
    ||| parse_answer(lv[sb + 5], qu.kind) is None
    ||| (b_value(lv[sb + 2], "    done: "@) == Some(true) && parse_answer(lv[sb + 5], qu.kind)
        == Some(None::<AnsSnap>))
}

/// No saved document has a rejected question record.
proof fn no_stored_q(content: Seq<char>, q: Quiz, lv: Seq<Seq<char>>, k: int)
    requires
        lv == crate::text::split_lines_spec(content),
        0 <= k < q.questions@.len(),
        q_reject(lv, q, k),
    ensures
        !(exists|s0: crate::state::Session, m: u64| stored_snapshot(content, q, s0, m)),
        !(exists|s0: crate::state::Session| canonical_snapshot(content, q, s0)),
{
    assert forall|s0: crate::state::Session, m: u64|
        !stored_snapshot(content, q, s0, m) by {
        if stored_snapshot(content, q, s0, m) {
            lemma_accepted_lines(content, q, s0, m);
            let d0 = crate::submit::snap_of(s0);
            let qu = q.questions@[k];
            let qs0 = d0.qs[k];
            let chlen = crate::submit::choice_lines(qu.kind).len() as int;
            let sb = q_status_base(q, k);
            lemma_q_line_parts(q, d0, k);
            lemma_snap_line_at(q, d0, k, 0);
            lemma_snap_line_at(q, d0, k, 3 + chlen);
            lemma_snap_line_at(q, d0, k, 3 + chlen + 1);
            lemma_snap_line_at(q, d0, k, 3 + chlen + 2);
            lemma_snap_line_at(q, d0, k, 3 + chlen + 3);
            lemma_snap_line_at(q, d0, k, 3 + chlen + 4);
            lemma_snap_line_at(q, d0, k, 3 + chlen + 5);
            lemma_q_offset_mono(q, k + 1, q.questions@.len() as int);
            assert(sb >= 20) by {
                lemma_q_offset_mono(q, 0, k);
            }
            assert(lv.len() >= q_offset(q, k + 1));
            assert(lv[sb + 1] == "    hints_revealed: "@ + spec_fmt_u64(qs0.hint));
            assert(spec_fmt_u64(qs0.hint) == spec_fmt_u64((qs0.hint as u64) as int));
            lemma_n_value_inverse("    hints_revealed: "@, qs0.hint as u64);
            assert(qs0.hint <= qu.hints@.len());
            assert(lv[sb + 2] == "    done: "@ + crate::submit::bool_word(qs0.done));
            lemma_b_value_inverse("    done: "@, qs0.done);
            assert(lv[sb + 3] == "    flagged: "@ + crate::submit::bool_word(qs0.flagged));
            lemma_b_value_inverse("    flagged: "@, qs0.flagged);
            assert(lv[sb + 4] == "    visited: "@ + crate::submit::bool_word(qs0.visited));
            lemma_b_value_inverse("    visited: "@, qs0.visited);
            assert(lv[sb + 5] == crate::submit::answer_line(qu.kind, qs0.answer));
            lemma_parse_answer_inverse_ok(qu.kind, qs0, qu.hints@.len() as int);
            assert(!(qs0.done && qs0.flagged));
            assert(qs0.done ==> qs0.answer is Some);
        }
    }
    assert forall|s0: crate::state::Session| !canonical_snapshot(content, q, s0) by {
        if canonical_snapshot(content, q, s0) {
            lemma_canonical_is_stored(content, q, s0);
        }
    }
}

/// Why the final comparison rejected: some line differs from the restored
/// session's own document.
pub open spec fn cmp_reject(lv: Seq<Seq<char>>, q: Quiz, sess: crate::state::Session) -> bool {
    let canon = crate::submit::snap_lines(q, crate::submit::snap_of(sess));
    ||| lv.len() != canon.len()
    ||| exists|i: int| 0 <= i < lv.len() && i != 8 && lv[i] != canon[i]
}

/// No saved document differs from its own restoration's re-emission.
proof fn no_stored_cmp(
    content: Seq<char>,
    q: Quiz,
    lv: Seq<Seq<char>>,
    sess: crate::state::Session,
    cur: u64,
)
    requires
        lv == crate::text::split_lines_spec(content),
        sess.wf(),
        sess.quiz == q,
        header_matches_lines(sess, lv, cur),
        stores_match_lines(sess, lv, q, q.questions@.len() as int),
        cmp_reject(lv, q, sess),
    ensures
        !(exists|s0: crate::state::Session, m: u64| stored_snapshot(content, q, s0, m)),
        !(exists|s0: crate::state::Session| canonical_snapshot(content, q, s0)),
{
    assert forall|s0: crate::state::Session, m: u64|
        !stored_snapshot(content, q, s0, m) by {
        if stored_snapshot(content, q, s0, m) {
            lemma_accepted_lines(content, q, s0, m);
            lemma_final_matches(content, lv, q, sess, cur, s0, m);
            let canon = crate::submit::snap_lines(q, crate::submit::snap_of(sess));
            assert(canon == crate::submit::snap_lines(q, crate::submit::snap_of(s0)));
            assert(lv.len() == canon.len());
            assert(forall|i: int| 0 <= i < lv.len() && i != 8 ==> lv[i] == #[trigger] canon[i]);
        }
    }
    assert forall|s0: crate::state::Session| !canonical_snapshot(content, q, s0) by {
        if canonical_snapshot(content, q, s0) {
            lemma_canonical_is_stored(content, q, s0);
        }
    }
}

/// No restored state is observable: every progress field is as in a fresh
/// session.
pub open spec fn progress_cleared(s: crate::state::Session) -> bool {
    &&& s.answers@ == Map::<u32, crate::model::Answer>::empty()
    &&& s.flags@ == Set::<u32>::empty()
    &&& s.visited@ == Set::<u32>::empty()
    &&& s.done_marks@ == Set::<u32>::empty()
    &&& s.hints_revealed@ == Map::<u32, usize>::empty()
    &&& s.current_question == 0
    &&& s.started_at is None
    &&& s.submitted_at is None
    &&& s.ack_data is None
}

/// Clears every restored field, leaving the session fresh over its quiz,
/// and builds the error.
fn fail(s: &mut crate::state::Session, msg: &str) -> (e: StateCorruption)
    requires
        old(s).wf(),
    ensures
        final(s).wf(),
        final(s).quiz == old(s).quiz,
        e.message@ == msg@,
        progress_cleared(*final(s)),
{
    s.answers = crate::store::QMap::new();
    s.flags = crate::store::NumSet::new();
    s.visited = crate::store::NumSet::new();
    s.done_marks = crate::store::NumSet::new();
    s.hints_revealed = crate::store::QMap::new();
    s.current_question = 0;
    s.started_at = None;
    s.submitted_at = None;
    s.ack_data = None;
    StateCorruption { message: crate::text::str_to_chars(msg) }
}

/// Restores every question's record, in document order. The caller has
/// reset the per-question stores and read the header.
#[verifier::loop_isolation(false)]
#[verifier::rlimit(100)]
fn restore_questions(
    s: &mut crate::state::Session,
    lines: &Vec<Vec<char>>,
    content: &[char],
    cur: u64,
) -> (r: Result<(), StateCorruption>)
    requires
        old(s).wf(),
        lines@.map_values(|l: Vec<char>| l@) == crate::text::split_lines_spec(content@),
        crate::text::split_lines_spec(content@).len() >= 17,
        header_matches_lines(*old(s), crate::text::split_lines_spec(content@), cur),
        crate::text::split_lines_spec(content@)[9] == "  quiz_file_hash: "@ + quoted(
            old(s).quiz.quiz_hash@,
        ),
        old(s).answers@ == Map::<u32, crate::model::Answer>::empty(),
        old(s).flags@ == Set::<u32>::empty(),
        old(s).visited@ == Set::<u32>::empty(),
        old(s).done_marks@ == Set::<u32>::empty(),
        old(s).hints_revealed@ == Map::<u32, usize>::empty(),
    ensures
        final(s).wf(),
        final(s).quiz == old(s).quiz,
        r is Ok ==> header_matches_lines(*final(s), crate::text::split_lines_spec(content@), cur),
        r is Ok ==> stores_match_lines(
            *final(s),
            crate::text::split_lines_spec(content@),
            final(s).quiz,
            final(s).quiz.questions@.len() as int,
        ),
        r is Err ==> progress_cleared(*final(s)),
        r is Err ==> !(exists|s0: crate::state::Session, m: u64|
            stored_snapshot(content@, old(s).quiz, s0, m)) && !(
        exists|s0: crate::state::Session| canonical_snapshot(content@, old(s).quiz, s0)),
        r matches Err(e) ==> e.message@ == "Corrupt snapshot (use --clear to reset)"@,
{
    let ghost q = old(s).quiz;
    let ghost lv = lines@.map_values(|l: Vec<char>| l@);
    let n = s.quiz.questions.len();
    let mut pos: usize = 17;
    let mut k: usize = 0;
    while k < n
        invariant
            0 <= k <= n,
            s.wf(),
            s.quiz == q,
            n == s.quiz.questions@.len(),
            pos == q_offset(q, k as int),
            17 <= pos,
            header_matches_lines(*s, lv, cur),
            stores_match_lines(*s, lv, q, k as int),
            forall|nn: u32| #[trigger] s.flags@.contains(nn) ==> exists|j: int|
                0 <= j < k && (#[trigger] s.quiz.questions@[j]).number == nn,
            forall|nn: u32| #[trigger] s.done_marks@.contains(nn) ==> exists|j: int|
                0 <= j < k && (#[trigger] s.quiz.questions@[j]).number == nn,
            forall|nn: u32| #[trigger] s.visited@.contains(nn) ==> exists|j: int|
                0 <= j < k && (#[trigger] s.quiz.questions@[j]).number == nn,
            forall|nn: u32| #[trigger] s.answers@.contains_key(nn) ==> exists|j: int|
                0 <= j < k && (#[trigger] s.quiz.questions@[j]).number == nn,
            forall|nn: u32| #[trigger] s.hints_revealed@.contains_key(nn) ==> exists|j: int|
                0 <= j < k && (#[trigger] s.quiz.questions@[j]).number == nn,
        decreases n - k,
    {
        let ghost s_head = *s;
        let qn = s.quiz.questions[k].number;
        let nch: usize = match &s.quiz.questions[k].kind {
            QuestionKind::SingleChoice(cs) => 1 + cs.len(),
            QuestionKind::MultiChoice(cs) => 1 + cs.len(),
            _ => 0,
        };
        proof {
            assert(nch as int == crate::submit::choice_lines(
                s.quiz.questions@[k as int].kind,
            ).len()) by {
                match s.quiz.questions@[k as int].kind {
                    QuestionKind::SingleChoice(cs) => {
                        assert(crate::submit::choice_entry_lines(cs@).len() == cs@.len());
                    },
                    QuestionKind::MultiChoice(cs) => {
                        assert(crate::submit::choice_entry_lines(cs@).len() == cs@.len());
                    },
                    _ => {},
                }
            }
            assert(q_offset(q, k + 1) == pos + 9 + nch);
        }
        if pos > lines.len() || lines.len() - pos < 3 || lines.len() - pos - 3 < nch
            || lines.len() - pos - 3 - nch < 6 {
            proof {
                assert(q_reject(lv, q, k as int));
                no_stored_q(content@, q, lv, k as int);
            }
            return Err(fail(s, "Corrupt snapshot (use --clear to reset)"));
        }
        let sbase = pos + 3 + nch;
        proof {
            assert(sbase as int == q_status_base(q, k as int));
            assert(lv[sbase as int + 1] == lines@[sbase as int + 1]@);
            assert(lv[sbase as int + 2] == lines@[sbase as int + 2]@);
            assert(lv[sbase as int + 3] == lines@[sbase as int + 3]@);
            assert(lv[sbase as int + 4] == lines@[sbase as int + 4]@);
            assert(lv[sbase as int + 5] == lines@[sbase as int + 5]@);
        }
        let hint: u64 = match read_num_line(lines[sbase + 1].as_slice(), "    hints_revealed: ") {
            Some(v) => v,
            None => {
                proof {
                    assert(q_reject(lv, q, k as int));
                    no_stored_q(content@, q, lv, k as int);
                }
                return Err(fail(s, "Corrupt snapshot (use --clear to reset)"));
            },
        };
        let nh = s.quiz.questions[k].hints.len();
        if hint > nh as u64 {
            proof {
                assert(q_reject(lv, q, k as int));
                no_stored_q(content@, q, lv, k as int);
            }
            return Err(fail(s, "Corrupt snapshot (use --clear to reset)"));
        }
        let done = match read_bool_line(lines[sbase + 2].as_slice(), "    done: ") {
            Some(v) => v,
            None => {
                proof {
                    assert(q_reject(lv, q, k as int));
                    no_stored_q(content@, q, lv, k as int);
                }
                return Err(fail(s, "Corrupt snapshot (use --clear to reset)"));
            },
        };
        let flagged = match read_bool_line(lines[sbase + 3].as_slice(), "    flagged: ") {
            Some(v) => v,
            None => {
                proof {
                    assert(q_reject(lv, q, k as int));
                    no_stored_q(content@, q, lv, k as int);
                }
                return Err(fail(s, "Corrupt snapshot (use --clear to reset)"));
            },
        };
        let visited = match read_bool_line(lines[sbase + 4].as_slice(), "    visited: ") {
            Some(v) => v,
            None => {
                proof {
                    assert(q_reject(lv, q, k as int));
                    no_stored_q(content@, q, lv, k as int);
                }
                return Err(fail(s, "Corrupt snapshot (use --clear to reset)"));
            },
        };
        if done && flagged {
            proof {
                assert(q_reject(lv, q, k as int));
                no_stored_q(content@, q, lv, k as int);
            }
            return Err(fail(s, "Corrupt snapshot (use --clear to reset)"));
        }
        let answer = match read_answer_line(lines[sbase + 5].as_slice(), &s.quiz.questions[k].kind)
        {
            Some(a) => a,
            None => {
                proof {
                    assert(q_reject(lv, q, k as int));
                    no_stored_q(content@, q, lv, k as int);
                }
                return Err(fail(s, "Corrupt snapshot (use --clear to reset)"));
            },
        };
        if done && answer.is_none() {
            proof {
                assert(q_reject(lv, q, k as int));
                no_stored_q(content@, q, lv, k as int);
            }
            return Err(fail(s, "Corrupt snapshot (use --clear to reset)"));
        }
        proof {
            assert(s.quiz.has_number(qn)) by {
                assert(s.quiz.questions@[k as int].number == qn);
            }
            if s.flags@.contains(qn) || s.done_marks@.contains(qn) || s.visited@.contains(qn)
                || s.answers@.contains_key(qn) || s.hints_revealed@.contains_key(qn) {
                let j = choose|j: int|
                    0 <= j < k && (#[trigger] s.quiz.questions@[j]).number == qn;
                assert(s.quiz.questions@[j].number != s.quiz.questions@[k as int].number);
                assert(false);
            }
        }
        let ghost answer_snap = (if answer is Some {
            Some(crate::submit::ans_snap(answer->0))
        } else {
            None::<AnsSnap>
        });
        match answer {
            Some(a) => {
                proof {
                    crate::state::lemma_answers_insert_ok(
                        s.quiz,
                        s.answers@,
                        qn,
                        a,
                        k as int,
                    );
                }
                s.answers.insert(qn, a);
            },
            None => {},
        }
        if done {
            s.done_marks.insert(qn);
        }
        if flagged {
            s.flags.insert(qn);
        }
        if visited {
            s.visited.insert(qn);
        }
        if hint > 0 {
            proof {
                crate::state::lemma_hints_insert_ok(
                    s.quiz,
                    s.hints_revealed@,
                    qn,
                    hint as usize,
                    k as int,
                );
            }
            s.hints_revealed.insert(qn, hint as usize);
        }
        proof {
            assert forall|k2: int|
                0 <= k2 < k + 1 implies #[trigger] stores_match_q(*s, lv, q, k2) by {
                if k2 < k {
                    assert(stores_match_q(s_head, lv, q, k2));
                    let num2 = q.questions@[k2].number;
                    assert(num2 != qn) by {
                        assert(q.questions@[k2].number != q.questions@[k as int].number);
                    }
                    assert(s.answers@.contains_key(num2) == s_head.answers@.contains_key(num2));
                    assert(s.answers@.contains_key(num2) ==> s.answers@[num2]
                        == s_head.answers@[num2]);
                    assert(s.done_marks@.contains(num2) == s_head.done_marks@.contains(num2));
                    assert(s.flags@.contains(num2) == s_head.flags@.contains(num2));
                    assert(s.visited@.contains(num2) == s_head.visited@.contains(num2));
                    assert(s.hints_revealed@.contains_key(num2)
                        == s_head.hints_revealed@.contains_key(num2));
                    assert(s.hints_revealed@.contains_key(num2) ==> s.hints_revealed@[num2]
                        == s_head.hints_revealed@[num2]);
                } else {
                    assert(stores_match_q(*s, lv, q, k as int)) by {
                        assert(n_value(lv[sbase as int + 1], "    hints_revealed: "@) == Some(
                            hint,
                        ));
                        assert(b_value(lv[sbase as int + 2], "    done: "@) == Some(done));
                        assert(b_value(lv[sbase as int + 3], "    flagged: "@) == Some(flagged));
                        assert(b_value(lv[sbase as int + 4], "    visited: "@) == Some(visited));
                        assert(parse_answer(lv[sbase as int + 5], q.questions@[k as int].kind)
                            == Some(answer_snap));
                        assert(s.answers@.contains_key(qn) == (answer_snap is Some));
                        assert(s.done_marks@.contains(qn) == done);
                        assert(s.flags@.contains(qn) == flagged);
                        assert(s.visited@.contains(qn) == visited);
                        assert(s.hints_revealed@.contains_key(qn) == (hint > 0));
                    }
                }
            }
        }
        pos = sbase + 6;
        k += 1;
    }
    Ok(())
}

/// Restores a session from a snapshot document.
///
/// The reader is strict: every line must be the one the restored session
/// itself would write, which it proves by re-serializing and comparing —
/// except the navigation line, whose stored index is defensively clamped
/// into the question range. The contract gives both directions: any
/// document saved by `build_answers_yaml` over the unchanged quiz (its
/// navigation index possibly rewritten) loads successfully, and success
/// restores exactly the saved session's snapshot. A hash-mismatched
/// document is rejected with the document-changed message; on any error
/// the session is left fresh over the unchanged quiz, never partially
/// restored.
#[verifier::loop_isolation(false)]
#[verifier::rlimit(100)]
pub fn load_state(s: &mut crate::state::Session, content: &[char]) -> (r: Result<
    (),
    StateCorruption,
>)
    requires
        old(s).wf(),
    ensures
        final(s).wf(),
        final(s).quiz == old(s).quiz,
        // What success means: the document is the restored session's own,
        // line for line, except that the navigation line may carry any
        // stored index that clamps to the restored position.
        r is Ok ==> accepted_as(content@, final(s).quiz, crate::submit::snap_of(*final(s))),
        // Success is owed on every saved document (with the navigation
        // line possibly rewritten): loading never spuriously fails.
        (exists|s0: crate::state::Session, m: u64|
            stored_snapshot(content@, old(s).quiz, s0, m)) ==> r is Ok,
        (exists|s0: crate::state::Session| canonical_snapshot(content@, old(s).quiz, s0)) ==> r
            is Ok,
        // Round trip: success on a saved document restores exactly the
        // saved session's snapshot.
        r is Ok ==> forall|s0: crate::state::Session|
            canonical_snapshot(content@, old(s).quiz, s0) ==> crate::submit::snap_of(*final(s))
                == crate::submit::snap_of(s0),
        // Hash guard: a stored hash other than the live document's is
        // rejected with the document-changed message.
        (crate::text::split_lines_spec(content@).len() >= 17 && crate::text::split_lines_spec(
            content@,
        )[9] != "  quiz_file_hash: "@ + quoted(old(s).quiz.quiz_hash@)) ==> (r matches Err(e)
            && e.message@ == "Quiz file has changed since last session. Use --clear to reset."@),
        // A rejected document is never partially applied: the session is
        // left fresh over the unchanged quiz.
        r is Err ==> progress_cleared(*final(s)),
        // Every rejection names its remedy: the document changed, or the
        // snapshot is corrupt, either way an explicit reset.
        r matches Err(e) ==> (e.message@
            == "Quiz file has changed since last session. Use --clear to reset."@ || e.message@
            == "Corrupt snapshot (use --clear to reset)"@),
{
    let ghost q = old(s).quiz;
    s.answers = crate::store::QMap::new();
    s.flags = crate::store::NumSet::new();
    s.visited = crate::store::NumSet::new();
    s.done_marks = crate::store::NumSet::new();
    s.hints_revealed = crate::store::QMap::new();
    s.current_question = 0;
    s.started_at = None;
    s.submitted_at = None;
    s.ack_data = None;
    proof {
        assert(s.wf());
    }

    let lines = crate::text::split_lines(content);
    let ghost lv = lines@.map_values(|l: Vec<char>| l@);
    proof {
        assert(lv == crate::text::split_lines_spec(content@));
    }
    if lines.len() < 17 {
        proof {
            no_stored_short(content@, q, lv);
        }
        return Err(fail(s, "Corrupt snapshot (use --clear to reset)"));
    }

    // The stored hash must be exactly the live document's.
    let mut hash_line: Vec<char> = crate::text::str_to_chars("  quiz_file_hash: ");
    crate::text::push_quoted(&mut hash_line, s.quiz.quiz_hash.as_slice());
    if !crate::text::slices_eq(lines[9].as_slice(), hash_line.as_slice()) {
        proof {
            assert(lv[9] == lines@[9]@);
            no_stored_hash(content@, q, lv);
        }
        return Err(fail(s, "Quiz file has changed since last session. Use --clear to reset."));
    }

    let submitted: Option<Vec<char>> = match read_quoted_line(
        lines[3].as_slice(),
        "  submitted_at: ",
    ) {
        Some(v) => {
            if crate::text::chars_eq_str(v.as_slice(), "unknown") {
                None
            } else {
                Some(v)
            }
        },
        None => {
            proof {
                assert(lv[3] == lines@[3]@);
                reveal_strlit("  submitted_at: ");
                no_stored_header(content@, q, lv, 3);
            }
            return Err(fail(s, "Corrupt snapshot (use --clear to reset)"));
        },
    };
    let cur: u64 = match read_num_line(lines[8].as_slice(), "  current_question: ") {
        Some(v) => v,
        None => {
            proof {
                assert(lv[8] == lines@[8]@);
                no_stored_cq(content@, q, lv);
            }
            return Err(fail(s, "Corrupt snapshot (use --clear to reset)"));
        },
    };
    let started: Option<Vec<char>> = match read_quoted_line(
        lines[10].as_slice(),
        "  started_at: ",
    ) {
        Some(v) => {
            if v.len() == 0 {
                None
            } else {
                Some(v)
            }
        },
        None => {
            proof {
                assert(lv[10] == lines@[10]@);
                reveal_strlit("  started_at: ");
                no_stored_header(content@, q, lv, 10);
            }
            return Err(fail(s, "Corrupt snapshot (use --clear to reset)"));
        },
    };
    let ack_name = match read_quoted_line(lines[12].as_slice(), "    name: ") {
        Some(v) => v,
        None => {
            proof {
                assert(lv[12] == lines@[12]@);
                reveal_strlit("    name: ");
                no_stored_header(content@, q, lv, 12);
            }
            return Err(fail(s, "Corrupt snapshot (use --clear to reset)"));
        },
    };
    let ack_at = match read_quoted_line(lines[13].as_slice(), "    agreed_at: ") {
        Some(v) => v,
        None => {
            proof {
                assert(lv[13] == lines@[13]@);
                reveal_strlit("    agreed_at: ");
                no_stored_header(content@, q, lv, 13);
            }
            return Err(fail(s, "Corrupt snapshot (use --clear to reset)"));
        },
    };
    let ack_hash = match read_quoted_line(lines[14].as_slice(), "    text_hash: ") {
        Some(v) => v,
        None => {
            proof {
                assert(lv[14] == lines@[14]@);
                reveal_strlit("    text_hash: ");
                no_stored_header(content@, q, lv, 14);
            }
            return Err(fail(s, "Corrupt snapshot (use --clear to reset)"));
        },
    };

    let n = s.quiz.questions.len();
    if n > 0 {
        if (cur as u64) < (n as u64) {
            s.current_question = cur as usize;
        } else {
            s.current_question = n - 1;
        }
    }
    s.submitted_at = submitted;
    s.started_at = started;
    if ack_name.len() > 0 {
        s.ack_data = Some(
            crate::model::AckData { name: ack_name, agreed_at: ack_at, text_hash: ack_hash },
        );
    }
    proof {
        assert(s.wf());
        assert(header_matches_lines(*s, lv, cur));
    }

    match restore_questions(s, &lines, content, cur) {
        Ok(()) => {},
        Err(e) => {
            return Err(e);
        },
    }

    // Every line must be the restored session's own; the navigation line
    // was already read and clamped above.
    let expected = crate::submit::build_answers_yaml(s);
    let explines = crate::text::split_lines(expected.as_slice());
    let ghost canon_f = crate::submit::snap_lines(q, crate::submit::snap_of(*s));
    proof {
        lemma_session_snap_ok(*s);
        lemma_snap_lines_no_nl(q, crate::submit::snap_of(*s));
        assert forall|i: int| 0 <= i < canon_f.len() implies !(#[trigger] canon_f[i]).contains(
            '\n',
        ) by {
            assert(no_nl(canon_f[i]));
            if canon_f[i].contains('\n') {
                let w = choose|w: int| 0 <= w < canon_f[i].len() && canon_f[i][w] == '\n';
            }
        }
        crate::text::lemma_split_join(canon_f);
        assert(explines@.map_values(|l: Vec<char>| l@) == canon_f);
    }
    if explines.len() != lines.len() {
        proof {
            assert(explines@.len() == canon_f.len());
            assert(cmp_reject(lv, q, *s));
            no_stored_cmp(content@, q, lv, *s, cur);
        }
        return Err(fail(s, "Corrupt snapshot (use --clear to reset)"));
    }
    let total = lines.len();
    let ghost s_snap = *s;
    let mut i: usize = 0;
    while i < total
        invariant
            0 <= i <= total,
            *s == s_snap,
            total == lv.len(),
            explines@.len() == total,
            forall|i2: int| 0 <= i2 < i && i2 != 8 ==> lv[i2] == #[trigger] explines@[i2]@,
        decreases total - i,
    {
        if i != 8 {
            if !crate::text::slices_eq(lines[i].as_slice(), explines[i].as_slice()) {
                proof {
                    assert(lv[i as int] == lines@[i as int]@);
                    assert(lv[i as int] != canon_f[i as int]) by {
                        assert(explines@.map_values(|l: Vec<char>| l@)[i as int] == explines@[
                            i as int
                        ]@);
                    }
                    assert(cmp_reject(lv, q, *s));
                    no_stored_cmp(content@, q, lv, *s, cur);
                }
                return Err(fail(s, "Corrupt snapshot (use --clear to reset)"));
            }
        }
        i += 1;
    }

    proof {
        // Success: the document is the restored session's own up to the
        // navigation line.
        assert(accepted_as(content@, q, crate::submit::snap_of(*s))) by {
            assert(explines@.len() == canon_f.len());
            assert(lv.len() == canon_f.len());
            assert forall|i2: int|
                0 <= i2 < lv.len() && i2 != 8 implies lv[i2] == #[trigger] canon_f[i2] by {
                assert(lv[i2] == explines@[i2]@);
                assert(explines@.map_values(|l: Vec<char>| l@)[i2] == explines@[i2]@);
            }
            assert(n_value(lv[8], "  current_question: "@) == Some(cur));
            assert(spec_clamp(cur, q.questions@.len() as int) == crate::submit::snap_of(
                *s,
            ).current as int);
        }
        // Exactness on canonical documents.
        assert forall|s0: crate::state::Session|
            canonical_snapshot(content@, q, s0) implies crate::submit::snap_of(*s)
            == crate::submit::snap_of(s0) by {
            lemma_canonical_is_stored(content@, q, s0);
            lemma_final_matches(content@, lv, q, *s, cur, s0, s0.current_question as u64);
        }
    }
    Ok(())
}

/// Reads the label list inside `[` ... `]`: exactly `parse_labels` of it.
#[verifier::loop_isolation(false)]
fn read_labels(inner: &[char]) -> (r: Option<Vec<char>>)
    ensures
        match r {
            Some(v) => parse_labels(inner@) == Some(v@),
            None => parse_labels(inner@) is None,
        },
{
    let n = inner.len();
    let mut sel: Vec<char> = Vec::new();
    if n == 0 {
        proof {
            assert(sel@ =~= Seq::<char>::empty());
        }
        return Some(sel);
    }
    let mut j: usize = 0;
    proof {
        assert(inner@.skip(0) =~= inner@);
        assert forall|rest: Seq<char>|
            parse_labels(inner@) == Some(rest) implies sel@ + rest == rest by {
            assert(sel@ + rest =~= rest);
        }
    }
    loop
        invariant
            0 <= j < n,
            n == inner@.len(),
            parse_labels(inner@) == (match parse_labels(inner@.skip(j as int)) {
                None => None::<Seq<char>>,
                Some(rest) => Some(sel@ + rest),
            }),
        decreases n - j,
    {
        let c = inner[j];
        proof {
            assert(inner@.skip(j as int)[0] == c);
        }
        if !(c >= 'a' && c <= 'z') {
            return None;
        }
        let ghost prev = sel@;
        sel.push(c);
        if j + 1 == n {
            proof {
                assert(inner@.skip(j as int) =~= seq![c]);
                assert(parse_labels(inner@.skip(j as int)) == Some(seq![c]));
                assert(prev + seq![c] =~= sel@);
            }
            return Some(sel);
        }
        proof {
            assert(inner@.skip(j as int).len() >= 2);
        }
        if n - j < 4 || !(inner[j + 1] == ',') || !(inner[j + 2] == ' ') {
            proof {
                let w = inner@.skip(j as int);
                assert(w[1] == inner@[j + 1]);
                if w.len() >= 3 {
                    assert(w[2] == inner@[j + 2]);
                }
                assert(parse_labels(w) is None);
            }
            return None;
        }
        proof {
            let w = inner@.skip(j as int);
            assert(w.len() >= 4);
            assert(w[1] == ',' && w[2] == ' ');
            assert(w.skip(3) =~= inner@.skip(j + 3));
            assert(parse_labels(w) == (match parse_labels(inner@.skip(j + 3)) {
                None => None::<Seq<char>>,
                Some(rest) => Some(seq![c] + rest),
            }));
            assert forall|rest: Seq<char>|
                parse_labels(inner@.skip(j + 3)) == Some(rest) implies prev + (seq![c] + rest)
                    == sel@ + rest by {
                assert(prev + (seq![c] + rest) =~= sel@ + rest);
            }
        }
        j += 3;
    }
}

/// Reads the quoted list inside `[` ... `]`: exactly `parse_qlist` of it.
#[verifier::loop_isolation(false)]
fn read_qlist(inner: &[char]) -> (r: Option<Vec<Vec<char>>>)
    ensures
        match r {
            Some(v) => parse_qlist(inner@) == Some(v@.map_values(|x: Vec<char>| x@)),
            None => parse_qlist(inner@) is None,
        },
{
    let n = inner.len();
    let mut files: Vec<Vec<char>> = Vec::new();
    if n == 0 {
        proof {
            assert(files@.map_values(|x: Vec<char>| x@) =~= Seq::<Seq<char>>::empty());
        }
        return Some(files);
    }
    let mut j: usize = 0;
    proof {
        assert(inner@.skip(0) =~= inner@);
        assert forall|rest: Seq<Seq<char>>|
            parse_qlist(inner@) == Some(rest) implies files@.map_values(|x: Vec<char>| x@) + rest
                == rest by {
            assert(files@.map_values(|x: Vec<char>| x@) + rest =~= rest);
        }
    }
    loop
        invariant
            0 <= j < n,
            n == inner@.len(),
            parse_qlist(inner@) == (match parse_qlist(inner@.skip(j as int)) {
                None => None::<Seq<Seq<char>>>,
                Some(rest) => Some(files@.map_values(|x: Vec<char>| x@) + rest),
            }),
        decreases n - j,
    {
        proof {
            assert(inner@.skip(j as int)[0] == inner@[j as int]);
        }
        if !(inner[j] == '"') {
            return None;
        }
        let ghost w = inner@.skip(j as int);
        proof {
            crate::text::lemma_scan_shift(inner@, j as int, 1);
        }
        let (v, e) = match crate::text::scan_quoted(inner, j + 1) {
            Some(p) => p,
            None => {
                proof {
                    assert(scan_quoted_spec(w, 1) is None);
                }
                return None;
            },
        };
        proof {
            assert(scan_quoted_spec(w, 1) == Some((v@, e - j as int)));
            assert(e - j >= 1) by {
                crate::text::lemma_scan_past(inner@, (j + 1) as int, v@, e as int);
            }
        }
        let ghost prevf = files@.map_values(|x: Vec<char>| x@);
        let ghost vv = v@;
        files.push(v);
        proof {
            assert(files@.map_values(|x: Vec<char>| x@) =~= prevf.push(vv));
        }
        if e == n {
            proof {
                assert(parse_qlist(w) == Some(seq![vv]));
                assert(prevf + seq![vv] =~= files@.map_values(|x: Vec<char>| x@));
            }
            return Some(files);
        }
        if e > n || n - e < 2 || !(inner[e] == ',') || !(inner[e + 1] == ' ') {
            proof {
                if e < n {
                    assert(w[e - j as int] == inner@[e as int]);
                    if e + 1 < n {
                        assert(w[e - j + 1] == inner@[e + 1]);
                    }
                }
                assert(parse_qlist(w) is None);
            }
            return None;
        }
        proof {
            assert(w[e - j as int] == ',' && w[e - j + 1] == ' ');
            assert(w.skip(e - j + 2) =~= inner@.skip(e + 2));
            assert(parse_qlist(w) == (match parse_qlist(inner@.skip(e + 2)) {
                None => None::<Seq<Seq<char>>>,
                Some(rest) => Some(seq![vv] + rest),
            }));
            assert forall|rest: Seq<Seq<char>>|
                parse_qlist(inner@.skip(e + 2)) == Some(rest) implies prevf + (seq![vv] + rest)
                    == files@.map_values(|x: Vec<char>| x@) + rest by {
                assert(prevf + (seq![vv] + rest) =~= files@.map_values(|x: Vec<char>| x@) + rest);
            }
        }
        if e + 2 >= n {
            proof {
                assert(inner@.skip(e + 2).len() == 0 || e + 2 == n);
                if e + 2 > n {
                    assert(false);
                }
                assert(parse_qlist(inner@.skip(e + 2)) == Some(Seq::<Seq<char>>::empty()));
                assert(parse_qlist(w) matches Some(x) && x == seq![vv]);
            }
            // A trailing separator with nothing after it: the remaining
            // empty list closes the parse.
            return Some(files);
        }
        j = e + 2;
    }
}

/// Reads an `answer:` line: exactly `parse_answer` of it, as a typed,
/// well-formed answer for the question kind.
fn read_answer_line(l: &[char], kind: &QuestionKind) -> (r: Option<Option<crate::model::Answer>>)
    ensures
        match r {
            None => parse_answer(l@, *kind) is None,
            Some(None) => parse_answer(l@, *kind) == Some(None::<AnsSnap>),
            Some(Some(a)) => parse_answer(l@, *kind) == Some(Some(crate::submit::ans_snap(a)))
                && a.wf() && a.matches_kind(*kind),
        },
{
    proof {
        reveal_strlit("    answer: null");
        reveal_strlit("    answer: ");
        reveal_strlit("    answer: [");
    }
    if crate::text::chars_eq_str(l, "    answer: null") {
        return Some(None);
    }
    match kind {
        QuestionKind::SingleChoice(_) => {
            if l.len() != 13 || !crate::text::starts_with_str(l, "    answer: ") {
                return None;
            }
            let c = l[12];
            if !(c >= 'a' && c <= 'z') {
                return None;
            }
            let mut sel: Vec<char> = Vec::new();
            sel.push(c);
            let a = crate::model::Answer {
                answer_type: crate::model::AnswerKind::Single,
                selected: Some(sel),
                text: None,
                files: None,
            };
            proof {
                assert((a.selected->0)@ =~= seq![c]);
                assert(crate::text::all_lower((a.selected->0)@));
                assert(crate::submit::ans_snap(a) == AnsSnap::ASel(seq![c]));
            }
            Some(Some(a))
        },
        QuestionKind::MultiChoice(_) => {
            if l.len() < 14 || !crate::text::starts_with_str(l, "    answer: [") || !(l[l.len()
                - 1] == ']') {
                return None;
            }
            let inner_part = crate::parser::slice_from(l, 13);
            let inner = slice_to_local(inner_part.as_slice(), inner_part.len() - 1);
            proof {
                assert(inner@ =~= l@.subrange(13, l@.len() - 1));
            }
            let sel = match read_labels(inner.as_slice()) {
                Some(v) => v,
                None => {
                    return None;
                },
            };
            proof {
                lemma_parse_labels_lower(inner@);
            }
            let a = crate::model::Answer {
                answer_type: crate::model::AnswerKind::Multi,
                selected: Some(sel),
                text: None,
                files: None,
            };
            Some(Some(a))
        },
        QuestionKind::Short | QuestionKind::Long => {
            match read_quoted_line(l, "    answer: ") {
                Some(t) => {
                    if t.len() == 0 {
                        None
                    } else {
                        let a = crate::model::Answer {
                            answer_type: (match kind {
                                QuestionKind::Short => crate::model::AnswerKind::Short,
                                _ => crate::model::AnswerKind::Long,
                            }),
                            selected: None,
                            text: Some(t),
                            files: None,
                        };
                        Some(Some(a))
                    }
                },
                None => None,
            }
        },
        QuestionKind::File(_) => {
            if l.len() < 14 || !crate::text::starts_with_str(l, "    answer: [") || !(l[l.len()
                - 1] == ']') {
                return None;
            }
            let inner_part = crate::parser::slice_from(l, 13);
            let inner = slice_to_local(inner_part.as_slice(), inner_part.len() - 1);
            proof {
                assert(inner@ =~= l@.subrange(13, l@.len() - 1));
            }
            let files = match read_qlist(inner.as_slice()) {
                Some(v) => v,
                None => {
                    return None;
                },
            };
            if files.len() == 0 {
                return None;
            }
            let a = crate::model::Answer {
                answer_type: crate::model::AnswerKind::File,
                selected: None,
                text: None,
                files: Some(files),
            };
            Some(Some(a))
        },
    }
}

/// Copies `l` up to index `to`.
fn slice_to_local(l: &[char], to: usize) -> (r: Vec<char>)
    requires
        to <= l@.len(),
    ensures
        r@ == l@.take(to as int),
{
    let mut r: Vec<char> = Vec::new();
    let mut i: usize = 0;
    while i < to
        invariant
            0 <= i <= to <= l@.len(),
            r@ == l@.subrange(0, i as int),
        decreases to - i,
    {
        r.push(l[i]);
        proof {
            assert(l@.subrange(0, i + 1) =~= l@.subrange(0, i as int).push(l@[i as int]));
        }
        i += 1;
    }
    r
}

} // verus!
