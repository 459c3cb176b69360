//! Character-sequence utilities shared by the parser and the snapshot codec.
//!
//! All document text is modelled as `Vec<char>`; these helpers give the exact
//! specifications (decimal formatting and parsing, whitespace trimming,
//! substring search) that the higher layers' contracts are written over.
use vstd::prelude::*;

verus! {

broadcast use vstd::utf8::char_is_scalar;

/// True for the ASCII whitespace characters that surround tokens in the
/// quiz grammar.
pub open spec fn is_ws(c: char) -> bool {
    c == ' ' || c == '\t' || c == '\r' || c == '\n'
}

/// True for an ASCII lower-case letter.
pub open spec fn is_lower(c: char) -> bool {
    97 <= c as int && c as int <= 122
}

/// All characters are ASCII lower-case letters.
pub open spec fn all_lower(s: Seq<char>) -> bool {
    forall|i: int| 0 <= i < s.len() ==> is_lower(s[i])
}

/// True for an ASCII decimal digit.
pub open spec fn is_digit(c: char) -> bool {
    48 <= c as int && c as int <= 57
}

pub open spec fn digit_val(c: char) -> int {
    c as int - 48
}

pub open spec fn digit_char(d: int) -> char
    recommends
        0 <= d < 10,
{
    ((d + 48) as u8) as char
}

/// The decimal digits of `n`, most significant first.
pub open spec fn spec_fmt_u64(n: int) -> Seq<char>
    recommends
        n >= 0,
    decreases n,
{
    if n < 10 {
        seq![digit_char(n)]
    } else {
        spec_fmt_u64(n / 10).push(digit_char(n % 10))
    }
}

pub open spec fn all_digits(s: Seq<char>) -> bool {
    forall|i: int| 0 <= i < s.len() ==> is_digit(s[i])
}

/// The value of a digit string, most significant digit first.
pub open spec fn dec_value(s: Seq<char>) -> int
    decreases s.len(),
{
    if s.len() == 0 {
        0
    } else {
        dec_value(s.drop_last()) * 10 + digit_val(s.last())
    }
}

/// What parsing an unsigned decimal returns: the digits' value when the text
/// is one or more digits and the value fits in a `u64`.
pub open spec fn spec_parse_u64(s: Seq<char>) -> Option<u64> {
    if s.len() > 0 && all_digits(s) && dec_value(s) <= u64::MAX {
        Some(dec_value(s) as u64)
    } else {
        None
    }
}

pub proof fn lemma_dec_value_nonneg(s: Seq<char>)
    requires
        all_digits(s),
    ensures
        dec_value(s) >= 0,
    decreases s.len(),
{
    if s.len() > 0 {
        assert(all_digits(s.drop_last())) by {
            assert(forall|i: int|
                0 <= i < s.drop_last().len() ==> s.drop_last()[i] == s[i]);
        }
        lemma_dec_value_nonneg(s.drop_last());
    }
}

/// Extending a digit string multiplies its value up: a prefix never exceeds
/// the whole.
pub proof fn lemma_dec_value_prefix_le(s: Seq<char>, i: int)
    requires
        all_digits(s),
        0 <= i <= s.len(),
    ensures
        dec_value(s.take(i)) <= dec_value(s),
    decreases s.len() - i,
{
    if i < s.len() {
        let t = s.take(i + 1);
        assert(all_digits(t)) by {
            assert(forall|j: int| 0 <= j < t.len() ==> t[j] == s[j]);
        }
        assert(t.drop_last() =~= s.take(i));
        assert(t.last() == s[i]);
        assert(all_digits(s.take(i))) by {
            assert(forall|j: int|
                0 <= j < s.take(i).len() ==> s.take(i)[j] == s[j]);
        }
        lemma_dec_value_nonneg(s.take(i));
        assert(dec_value(t) == dec_value(s.take(i)) * 10 + digit_val(s[i]));
        assert(dec_value(s.take(i)) <= dec_value(s.take(i)) * 10 + digit_val(s[i])) by {
            assert(digit_val(s[i]) >= 0);
            assert(dec_value(s.take(i)) * 10 >= dec_value(s.take(i)));
        }
        lemma_dec_value_prefix_le(s, i + 1);
    } else {
        assert(s.take(i) =~= s);
    }
}

/// Formats `n` in decimal.
pub fn fmt_u64(n: u64) -> (r: Vec<char>)
    ensures
        r@ == spec_fmt_u64(n as int),
    decreases n,
{
    if n < 10 {
        let mut v: Vec<char> = Vec::new();
        v.push(((n as u8) + 48) as char);
        assert(v@ =~= seq![digit_char(n as int)]);
        v
    } else {
        let mut v = fmt_u64(n / 10);
        v.push((((n % 10) as u8) + 48) as char);
        assert((((n % 10) as u8) + 48) as char == digit_char((n as int) % 10));
        v
    }
}

pub proof fn lemma_fmt_all_digits(n: int)
    requires
        n >= 0,
    ensures
        all_digits(spec_fmt_u64(n)),
        spec_fmt_u64(n).len() >= 1,
    decreases n,
{
    if n >= 10 {
        lemma_fmt_all_digits(n / 10);
        let s = spec_fmt_u64(n);
        let p = spec_fmt_u64(n / 10);
        assert(s == p.push(digit_char(n % 10)));
        assert(forall|i: int| 0 <= i < p.len() ==> s[i] == p[i]);
        assert(is_digit(digit_char(n % 10)));
    }
}

/// Decimal formatting and parsing are inverse.
pub proof fn lemma_fmt_u64_value(n: int)
    requires
        n >= 0,
    ensures
        dec_value(spec_fmt_u64(n)) == n,
    decreases n,
{
    if n < 10 {
        let s = spec_fmt_u64(n);
        assert(s =~= seq![digit_char(n)]);
        assert(s.len() == 1);
        assert(s.last() == digit_char(n));
        assert(s.drop_last() =~= Seq::<char>::empty());
        assert(dec_value(s.drop_last()) == 0);
        assert(digit_val(digit_char(n)) == n);
        assert(dec_value(s) == digit_val(digit_char(n)));
    } else {
        lemma_fmt_u64_value(n / 10);
        let s = spec_fmt_u64(n);
        let p = spec_fmt_u64(n / 10);
        assert(s.drop_last() =~= p);
        assert(s.last() == digit_char(n % 10));
        assert(digit_val(digit_char(n % 10)) == n % 10);
    }
}

pub proof fn lemma_fmt_u64_roundtrip(n: u64)
    ensures
        spec_parse_u64(spec_fmt_u64(n as int)) == Some(n),
{
    lemma_fmt_all_digits(n as int);
    lemma_fmt_u64_value(n as int);
}

proof fn lemma_all_digits_extend(s: Seq<char>, i: int)
    requires
        0 <= i < s.len(),
        all_digits(s.take(i)),
        is_digit(s[i]),
    ensures
        all_digits(s.take(i + 1)),
{
    let t = s.take(i + 1);
    assert forall|j: int| 0 <= j < t.len() implies is_digit(t[j]) by {
        if j < i {
            assert(t[j] == s.take(i)[j]);
        } else {
            assert(t[j] == s[i]);
        }
    }
}

/// The scalar value of a character, as an exec integer.
pub fn char_code(c: char) -> (r: u32)
    ensures
        r == c as int,
{
    let cv = c as u32;
    proof {
        vstd::utf8::char_u32_cast(c, cv);
        assert((cv as char) as int == c as int);
    }
    cv
}

/// Parses an unsigned decimal, rejecting empty text, non-digits and overflow.
pub fn parse_u64(s: &[char]) -> (r: Option<u64>)
    ensures
        r == spec_parse_u64(s@),
{
    let n = s.len();
    if n == 0 {
        return None;
    }
    let mut acc: u64 = 0;
    let mut i: usize = 0;
    while i < n
        invariant
            0 <= i <= n,
            n == s@.len(),
            all_digits(s@.take(i as int)),
            acc == dec_value(s@.take(i as int)),
        decreases n - i,
    {
        let c = s[i];
        if c < '0' || c > '9' {
            assert(!is_digit(s@[i as int]));
            return None;
        }
        let d = (char_code(c) - 48) as u64;
        proof {
            assert(c == s@[i as int]);
            assert(is_digit(s@[i as int]));
            assert(digit_val(s@[i as int]) == d as int);
            lemma_all_digits_extend(s@, i as int);
            assert(s@.take(i + 1).drop_last() =~= s@.take(i as int));
            assert(s@.take(i + 1).last() == s@[i as int]);
            assert(dec_value(s@.take(i + 1)) == acc * 10 + d);
        }
        if acc > (u64::MAX - d) / 10 {
            proof {
                lemma_dec_value_nonneg(s@.take(i as int));
                assert(acc * 10 + d > u64::MAX) by {
                    assert(acc >= (u64::MAX - d) / 10 + 1);
                    assert(acc * 10 >= ((u64::MAX - d) / 10 + 1) * 10) by (nonlinear_arith)
                        requires
                            acc >= (u64::MAX - d) / 10 + 1,
                    ;
                    assert(((u64::MAX - d) / 10 + 1) * 10 > u64::MAX - d);
                }
                assert(dec_value(s@.take(i + 1)) > u64::MAX);
                if all_digits(s@) {
                    lemma_dec_value_prefix_le(s@, i + 1);
                    assert(dec_value(s@) > u64::MAX);
                }
            }
            return None;
        }
        proof {
            assert(acc * 10 + d <= u64::MAX) by {
                assert(acc <= (u64::MAX - d) / 10);
                assert(acc * 10 <= ((u64::MAX - d) / 10) * 10) by (nonlinear_arith)
                    requires
                        acc <= (u64::MAX - d) / 10,
                ;
                assert(((u64::MAX - d) / 10) * 10 <= u64::MAX - d);
            }
        }
        acc = acc * 10 + d;
        i += 1;
    }
    proof {
        assert(s@.take(n as int) =~= s@);
    }
    Some(acc)
}

/// What parsing an unsigned 32-bit decimal returns.
pub open spec fn spec_parse_u32(s: Seq<char>) -> Option<u32> {
    if s.len() > 0 && all_digits(s) && dec_value(s) <= u32::MAX {
        Some(dec_value(s) as u32)
    } else {
        None
    }
}

/// Parses an unsigned 32-bit decimal.
pub fn parse_u32(s: &[char]) -> (r: Option<u32>)
    ensures
        r == spec_parse_u32(s@),
{
    proof {
        if s@.len() > 0 && all_digits(s@) {
            lemma_dec_value_nonneg(s@);
        }
    }
    match parse_u64(s) {
        Some(v) => {
            if v <= 0xffff_ffff {
                Some(v as u32)
            } else {
                None
            }
        },
        None => None,
    }
}

// ---------------------------------------------------------------------------
// Building and comparing character sequences
// ---------------------------------------------------------------------------
/// Appends every character of the literal `s` to `out`.
pub fn push_str_chars(out: &mut Vec<char>, s: &str)
    ensures
        final(out)@ == old(out)@ + s@,
{
    let n = s.unicode_len();
    let mut i: usize = 0;
    while i < n
        invariant
            0 <= i <= n,
            n == s@.len(),
            out@ == old(out)@ + s@.take(i as int),
        decreases n - i,
    {
        out.push(s.get_char(i));
        proof {
            assert(s@.take(i + 1) =~= s@.take(i as int).push(s@[i as int]));
        }
        i += 1;
    }
    proof {
        assert(s@.take(n as int) =~= s@);
    }
}

/// Appends every character of `s` to `out`.
pub fn push_chars(out: &mut Vec<char>, s: &[char])
    ensures
        final(out)@ == old(out)@ + s@,
{
    let n = s.len();
    let mut i: usize = 0;
    while i < n
        invariant
            0 <= i <= n,
            n == s@.len(),
            out@ == old(out)@ + s@.take(i as int),
        decreases n - i,
    {
        out.push(s[i]);
        proof {
            assert(s@.take(i + 1) =~= s@.take(i as int).push(s@[i as int]));
        }
        i += 1;
    }
    proof {
        assert(s@.take(n as int) =~= s@);
    }
}

/// The characters of the literal `s`, as a vector.
pub fn str_to_chars(s: &str) -> (r: Vec<char>)
    ensures
        r@ == s@,
{
    let mut v: Vec<char> = Vec::new();
    push_str_chars(&mut v, s);
    v
}

/// Whether `a` holds exactly the characters of `s`.
pub fn chars_eq_str(a: &[char], s: &str) -> (r: bool)
    ensures
        r == (a@ == s@),
{
    let n = s.unicode_len();
    if a.len() != n {
        return false;
    }
    let mut i: usize = 0;
    while i < n
        invariant
            0 <= i <= n,
            n == s@.len(),
            a@.len() == n,
            forall|j: int| 0 <= j < i ==> a@[j] == s@[j],
        decreases n - i,
    {
        if a[i] != s.get_char(i) {
            return false;
        }
        i += 1;
    }
    proof {
        assert(a@ =~= s@);
    }
    true
}

/// Whether two character slices hold the same text.
pub fn slices_eq(a: &[char], b: &[char]) -> (r: bool)
    ensures
        r == (a@ == b@),
{
    let n = a.len();
    if b.len() != n {
        return false;
    }
    let mut i: usize = 0;
    while i < n
        invariant
            0 <= i <= n,
            n == a@.len() && n == b@.len(),
            forall|j: int| 0 <= j < i ==> a@[j] == b@[j],
        decreases n - i,
    {
        if a[i] != b[i] {
            return false;
        }
        i += 1;
    }
    proof {
        assert(a@ =~= b@);
    }
    true
}

/// Whether `a` begins with the characters of the literal `p`.
pub fn starts_with_str(a: &[char], p: &str) -> (r: bool)
    ensures
        r == (p@.len() <= a@.len() && a@.take(p@.len() as int) == p@),
{
    let n = p.unicode_len();
    if a.len() < n {
        return false;
    }
    let mut i: usize = 0;
    while i < n
        invariant
            0 <= i <= n,
            n == p@.len(),
            n <= a@.len(),
            forall|j: int| 0 <= j < i ==> a@[j] == p@[j],
        decreases n - i,
    {
        if a[i] != p.get_char(i) {
            assert(a@.take(n as int)[i as int] != p@[i as int]);
            return false;
        }
        i += 1;
    }
    proof {
        assert(a@.take(n as int) =~= p@);
    }
    true
}

/// Whether `a` ends with the characters of the literal `p`.
pub fn ends_with_str(a: &[char], p: &str) -> (r: bool)
    ensures
        r == (p@.len() <= a@.len() && a@.skip(a@.len() - p@.len()) == p@),
{
    let n = p.unicode_len();
    let m = a.len();
    if m < n {
        return false;
    }
    let base = m - n;
    let mut i: usize = 0;
    while i < n
        invariant
            0 <= i <= n,
            n == p@.len(),
            base == m - n,
            m == a@.len(),
            n <= m,
            forall|j: int| 0 <= j < i ==> a@[base + j] == p@[j],
        decreases n - i,
    {
        if a[base + i] != p.get_char(i) {
            assert(a@.skip(a@.len() - p@.len())[i as int] != p@[i as int]);
            return false;
        }
        i += 1;
    }
    proof {
        assert(a@.skip(a@.len() - p@.len()) =~= p@);
    }
    true
}

// ---------------------------------------------------------------------------
// Whitespace trimming
// ---------------------------------------------------------------------------
/// How many whitespace characters `s` begins with.
pub open spec fn ws_prefix_len(s: Seq<char>) -> int
    decreases s.len(),
{
    if s.len() == 0 || !is_ws(s[0]) {
        0
    } else {
        1 + ws_prefix_len(s.skip(1))
    }
}

/// How many whitespace characters `s` ends with.
pub open spec fn ws_suffix_len(s: Seq<char>) -> int
    decreases s.len(),
{
    if s.len() == 0 || !is_ws(s.last()) {
        0
    } else {
        1 + ws_suffix_len(s.drop_last())
    }
}

/// `s` with leading and trailing whitespace removed.
pub open spec fn trim_spec(s: Seq<char>) -> Seq<char> {
    let t = s.skip(ws_prefix_len(s));
    t.take(t.len() - ws_suffix_len(t))
}

pub proof fn lemma_ws_prefix_unique(s: Seq<char>, i: int)
    requires
        0 <= i <= s.len(),
        forall|j: int| 0 <= j < i ==> is_ws(s[j]),
        i == s.len() || !is_ws(s[i]),
    ensures
        ws_prefix_len(s) == i,
    decreases s.len(),
{
    if i == 0 {
    } else {
        assert(is_ws(s[0]));
        let t = s.skip(1);
        assert(forall|j: int| 0 <= j < i - 1 ==> t[j] == s[j + 1]);
        assert(i - 1 == t.len() || !is_ws(t[i - 1]));
        lemma_ws_prefix_unique(t, i - 1);
    }
}

proof fn lemma_ws_suffix_unique(s: Seq<char>, m: int)
    requires
        0 <= m <= s.len(),
        forall|j: int| s.len() - m <= j < s.len() ==> is_ws(s[j]),
        m == s.len() || !is_ws(s[s.len() - m - 1]),
    ensures
        ws_suffix_len(s) == m,
    decreases s.len(),
{
    if m == 0 {
    } else {
        assert(is_ws(s.last()));
        let t = s.drop_last();
        assert(forall|j: int| t.len() - (m - 1) <= j < t.len() ==> t[j] == s[j]);
        lemma_ws_suffix_unique(t, m - 1);
    }
}

/// Is the character ASCII whitespace?
pub fn is_ws_char(c: char) -> (r: bool)
    ensures
        r == is_ws(c),
{
    c == ' ' || c == '\t' || c == '\r' || c == '\n'
}

/// Copies `s` without its leading and trailing whitespace.
pub fn trim_chars(s: &[char]) -> (r: Vec<char>)
    ensures
        r@ == trim_spec(s@),
{
    let n = s.len();
    let mut a: usize = 0;
    while a < n && is_ws_char(s[a])
        invariant
            0 <= a <= n,
            n == s@.len(),
            forall|j: int| 0 <= j < a ==> is_ws(s@[j]),
        decreases n - a,
    {
        a += 1;
    }
    proof {
        lemma_ws_prefix_unique(s@, a as int);
    }
    let mut b: usize = n;
    while b > a && is_ws_char(s[b - 1])
        invariant
            a <= b <= n,
            n == s@.len(),
            forall|j: int| b <= j < n ==> is_ws(s@[j]),
        decreases b,
    {
        b -= 1;
    }
    let ghost t = s@.skip(a as int);
    proof {
        assert(forall|j: int| t.len() - (n - b) <= j < t.len() ==> t[j] == s@[j + a]);
        if b > a {
            assert(t[b - a - 1] == s@[b - 1]);
        }
        lemma_ws_suffix_unique(t, n - b);
    }
    let mut r: Vec<char> = Vec::new();
    let mut i: usize = a;
    while i < b
        invariant
            a <= i <= b <= n,
            n == s@.len(),
            r@ == s@.subrange(a as int, i as int),
        decreases b - i,
    {
        r.push(s[i]);
        proof {
            assert(s@.subrange(a as int, i + 1) =~= s@.subrange(a as int, i as int).push(s@[i as int]));
        }
        i += 1;
    }
    proof {
        assert(r@ =~= t.take(t.len() - ws_suffix_len(t)));
    }
    r
}

// ---------------------------------------------------------------------------
// Searching
// ---------------------------------------------------------------------------
/// First index of `c` in `s` at or after `from`.
pub fn find_char(s: &[char], c: char, from: usize) -> (r: Option<usize>)
    requires
        from <= s@.len(),
    ensures
        match r {
            Some(i) => from <= i < s@.len() && s@[i as int] == c && forall|j: int|
                from <= j < i ==> s@[j] != c,
            None => forall|j: int| from <= j < s@.len() ==> s@[j] != c,
        },
{
    let n = s.len();
    let mut i: usize = from;
    while i < n
        invariant
            from <= i <= n,
            n == s@.len(),
            forall|j: int| from <= j < i ==> s@[j] != c,
        decreases n - i,
    {
        if s[i] == c {
            return Some(i);
        }
        i += 1;
    }
    None
}

/// Last index of `c` in `s`.
pub fn rfind_char(s: &[char], c: char) -> (r: Option<usize>)
    ensures
        match r {
            Some(i) => i < s@.len() && s@[i as int] == c && forall|j: int|
                i < j < s@.len() ==> s@[j] != c,
            None => forall|j: int| 0 <= j < s@.len() ==> s@[j] != c,
        },
{
    let n = s.len();
    let mut i: usize = n;
    while i > 0
        invariant
            0 <= i <= n,
            n == s@.len(),
            forall|j: int| i <= j < n ==> s@[j] != c,
        decreases i,
    {
        i -= 1;
        if s[i] == c {
            return Some(i);
        }
    }
    None
}

/// `n` occurs in `h` starting at index `i`.
pub open spec fn contains_at(h: Seq<char>, n: Seq<char>, i: int) -> bool {
    0 <= i && i + n.len() <= h.len() && h.subrange(i, i + n.len()) == n
}

/// `n` occurs somewhere in `h`.
pub open spec fn contains_seq(h: Seq<char>, n: Seq<char>) -> bool {
    exists|i: int| contains_at(h, n, i)
}

fn match_at(h: &[char], nd: &[char], i: usize) -> (r: bool)
    requires
        i + nd@.len() <= h@.len(),
    ensures
        r == (h@.subrange(i as int, i + nd@.len()) == nd@),
{
    let m = nd.len();
    let hn = h.len();
    let mut j: usize = 0;
    while j < m
        invariant
            0 <= j <= m,
            m == nd@.len(),
            hn == h@.len(),
            i + m <= hn,
            forall|k: int| 0 <= k < j ==> h@[i + k] == nd@[k],
        decreases m - j,
    {
        if h[i + j] != nd[j] {
            assert(h@.subrange(i as int, i + nd@.len())[j as int] != nd@[j as int]);
            return false;
        }
        j += 1;
    }
    proof {
        assert(h@.subrange(i as int, i + nd@.len()) =~= nd@);
    }
    true
}

/// Naive substring search.
pub fn contains_chars(h: &[char], nd: &[char]) -> (r: bool)
    ensures
        r == contains_seq(h@, nd@),
{
    let m = nd.len();
    let n = h.len();
    if m > n {
        assert(!contains_seq(h@, nd@)) by {
            assert(forall|i: int| !contains_at(h@, nd@, i));
        }
        return false;
    }
    if m == 0 {
        proof {
            assert(h@.subrange(0, 0) =~= nd@);
            assert(contains_at(h@, nd@, 0));
        }
        return true;
    }
    let last = n - m;
    let mut i: usize = 0;
    while i <= last
        invariant
            0 <= i <= last + 1,
            last == n - m,
            m >= 1,
            n == h@.len(),
            m == nd@.len(),
            forall|k: int| 0 <= k < i ==> !contains_at(h@, nd@, k),
        decreases n - i,
    {
        if match_at(h, nd, i) {
            assert(contains_at(h@, nd@, i as int));
            return true;
        }
        i += 1;
    }
    proof {
        assert(forall|k: int| !contains_at(h@, nd@, k));
    }
    false
}

/// Whether the literal `s` occurs in `h`.
pub fn contains_str(h: &[char], s: &str) -> (r: bool)
    ensures
        r == contains_seq(h@, s@),
{
    let nd = str_to_chars(s);
    contains_chars(h, nd.as_slice())
}

/// First index at or after `i` where `n` occurs in `h`, or `-1`.
pub open spec fn find_seq(h: Seq<char>, n: Seq<char>, i: int) -> int
    decreases h.len() - i,
    via find_seq_dec
{
    if i < 0 || i + n.len() > h.len() {
        -1
    } else if h.subrange(i, i + n.len()) == n {
        i
    } else {
        find_seq(h, n, i + 1)
    }
}

#[via_fn]
proof fn find_seq_dec(h: Seq<char>, n: Seq<char>, i: int) {
    if 0 <= i && i + n.len() <= h.len() && h.subrange(i, i + n.len()) != n {
        if n.len() == 0 {
            assert(h.subrange(i, i + n.len()) =~= n);
        }
    }
}

proof fn lemma_find_seq_is(h: Seq<char>, n: Seq<char>, i: int, k: int)
    requires
        0 <= i <= k,
        k + n.len() <= h.len(),
        forall|j: int| i <= j < k ==> #[trigger] h.subrange(j, j + n.len()) != n,
        h.subrange(k, k + n.len()) == n,
    ensures
        find_seq(h, n, i) == k,
    decreases k - i,
{
    if i < k {
        lemma_find_seq_is(h, n, i + 1, k);
    }
}

proof fn lemma_find_seq_none(h: Seq<char>, n: Seq<char>, i: int)
    requires
        0 <= i,
        forall|j: int| i <= j && j + n.len() <= h.len() ==> #[trigger] h.subrange(j, j + n.len()) != n,
    ensures
        find_seq(h, n, i) == -1,
    decreases h.len() - i,
{
    if i < h.len() {
        lemma_find_seq_none(h, n, i + 1);
    } else if i + n.len() <= h.len() {
        assert(h.subrange(i, i + n.len()) =~= n);
    }
}

/// A found index really carries the needle.
pub proof fn lemma_find_seq_found(h: Seq<char>, n: Seq<char>, i: int, k: int)
    requires
        find_seq(h, n, i) == k,
        k >= 0,
        0 <= i,
    ensures
        i <= k,
        k + n.len() <= h.len(),
        h.subrange(k, k + n.len()) == n,
    decreases h.len() - i,
{
    if !(i + n.len() > h.len()) && h.subrange(i, i + n.len()) != n {
        if n.len() == 0 {
            assert(h.subrange(i, i + n.len()) =~= n);
        }
        lemma_find_seq_found(h, n, i + 1, k);
    }
}

/// First occurrence of the literal `p` in `h`.
pub fn find_str(h: &[char], p: &str) -> (r: Option<usize>)
    ensures
        match r {
            Some(k) => find_seq(h@, p@, 0) == k as int,
            None => find_seq(h@, p@, 0) == -1,
        },
{
    let nd = str_to_chars(p);
    let m = nd.len();
    let n = h.len();
    if m > n {
        proof {
            lemma_find_seq_none(h@, p@, 0);
        }
        return None;
    }
    if m == 0 {
        proof {
            assert(h@.subrange(0, 0) =~= p@);
        }
        return Some(0);
    }
    let last = n - m;
    let mut i: usize = 0;
    while i <= last
        invariant
            0 <= i <= last + 1,
            last == n - m,
            1 <= m,
            n == h@.len(),
            m == nd@.len(),
            nd@ == p@,
            forall|j: int| 0 <= j < i ==> #[trigger] h@.subrange(j, j + p@.len()) != p@,
        decreases n - i,
    {
        if match_at(h, nd.as_slice(), i) {
            proof {
                lemma_find_seq_is(h@, p@, 0, i as int);
            }
            return Some(i);
        }
        i += 1;
    }
    proof {
        lemma_find_seq_none(h@, p@, 0);
    }
    None
}

// ---------------------------------------------------------------------------
// Splitting on a separator, splitting on whitespace, upper-casing
// ---------------------------------------------------------------------------
/// First index of `c` at or after `i`, or the length.
pub open spec fn find_ch(s: Seq<char>, c: char, i: int) -> int
    decreases s.len() - i,
{
    if i < 0 || i >= s.len() {
        s.len() as int
    } else if s[i] == c {
        i
    } else {
        find_ch(s, c, i + 1)
    }
}

pub proof fn lemma_find_ch_is(s: Seq<char>, c: char, i: int, k: int)
    requires
        0 <= i <= k <= s.len(),
        forall|j: int| i <= j < k ==> s[j] != c,
        k == s.len() || s[k] == c,
    ensures
        find_ch(s, c, i) == k,
    decreases k - i,
{
    if i < k {
        lemma_find_ch_is(s, c, i + 1, k);
    }
}

/// The pieces of `s` between occurrences of `c`. Splitting an empty text
/// yields one empty piece.
pub open spec fn split_on(s: Seq<char>, c: char) -> Seq<Seq<char>>
    decreases s.len(),
    via split_on_dec
{
    let k = find_ch(s, c, 0);
    if k == s.len() {
        seq![s]
    } else {
        seq![s.take(k)] + split_on(s.skip(k + 1), c)
    }
}

#[via_fn]
proof fn split_on_dec(s: Seq<char>, c: char) {
    lemma_find_ch_is_bounds(s, c);
}

proof fn lemma_find_ch_is_bounds(s: Seq<char>, c: char)
    ensures
        0 <= find_ch(s, c, 0) <= s.len(),
{
    lemma_find_ch_bounds(s, c, 0);
}

pub proof fn lemma_find_ch_bounds(s: Seq<char>, c: char, i: int)
    requires
        0 <= i <= s.len(),
    ensures
        i <= find_ch(s, c, i) <= s.len(),
        forall|j: int| i <= j < find_ch(s, c, i) ==> s[j] != c,
        find_ch(s, c, i) < s.len() ==> s[find_ch(s, c, i)] == c,
    decreases s.len() - i,
{
    if i < s.len() && s[i] != c {
        lemma_find_ch_bounds(s, c, i + 1);
    }
}

/// Splits `s` at every occurrence of `c`.
#[verifier::loop_isolation(false)]
pub fn split_char(s: &[char], c: char) -> (r: Vec<Vec<char>>)
    ensures
        r@.map_values(|l: Vec<char>| l@) == split_on(s@, c),
{
    let n = s.len();
    let mut r: Vec<Vec<char>> = Vec::new();
    let mut start: usize = 0;
    proof {
        assert(s@.skip(0) =~= s@);
        assert(r@.map_values(|l: Vec<char>| l@) + split_on(s@, c) =~= split_on(s@, c));
    }
    let mut done = false;
    while !done
        invariant
            0 <= start <= n,
            split_on(s@, c) == if done {
                r@.map_values(|l: Vec<char>| l@)
            } else {
                r@.map_values(|l: Vec<char>| l@) + split_on(s@.skip(start as int), c)
            },
        decreases n - start + (if done { 0int } else { 1int }),
    {
        let mut i: usize = start;
        let mut piece: Vec<char> = Vec::new();
        while i < n && s[i] != c
            invariant
                start <= i <= n,
                piece@ == s@.subrange(start as int, i as int),
                forall|j: int| start <= j < i ==> s@[j] != c,
            decreases n - i,
        {
            piece.push(s[i]);
            proof {
                assert(s@.subrange(start as int, i + 1) =~= s@.subrange(
                    start as int,
                    i as int,
                ).push(s@[i as int]));
            }
            i += 1;
        }
        let ghost tail = s@.skip(start as int);
        proof {
            assert(forall|j: int| 0 <= j < tail.len() ==> tail[j] == s@[j + start]);
            if i < n {
                lemma_find_ch_is(tail, c, 0, i - start);
            } else {
                lemma_find_ch_is(tail, c, 0, tail.len() as int);
            }
            assert(tail.take(i - start) =~= s@.subrange(start as int, i as int));
        }
        let ghost prev = r@;
        r.push(piece);
        proof {
            assert(r@.map_values(|l: Vec<char>| l@) =~= prev.map_values(|l: Vec<char>| l@).push(
                s@.subrange(start as int, i as int),
            ));
        }
        if i < n {
            proof {
                assert(split_on(tail, c) == seq![tail.take(i - start)] + split_on(
                    tail.skip(i - start + 1),
                    c,
                ));
                assert(tail.skip(i - start + 1) =~= s@.skip(i + 1));
                assert(prev.map_values(|l: Vec<char>| l@) + split_on(tail, c) =~= r@.map_values(
                    |l: Vec<char>| l@,
                ) + split_on(s@.skip(i + 1), c));
            }
            start = i + 1;
        } else {
            proof {
                assert(tail =~= tail.take(i - start));
                assert(split_on(tail, c) == seq![tail]);
                assert(prev.map_values(|l: Vec<char>| l@) + split_on(tail, c) =~= r@.map_values(
                    |l: Vec<char>| l@,
                ));
            }
            start = n;
            done = true;
        }
    }
    r
}

/// First index of non-whitespace at or after `i`, or the length.
pub open spec fn find_non_ws(s: Seq<char>, i: int) -> int
    decreases s.len() - i,
{
    if i < 0 || i >= s.len() {
        s.len() as int
    } else if !is_ws(s[i]) {
        i
    } else {
        find_non_ws(s, i + 1)
    }
}

/// First index of whitespace at or after `i`, or the length.
pub open spec fn find_ws(s: Seq<char>, i: int) -> int
    decreases s.len() - i,
{
    if i < 0 || i >= s.len() {
        s.len() as int
    } else if is_ws(s[i]) {
        i
    } else {
        find_ws(s, i + 1)
    }
}

pub proof fn lemma_find_non_ws_bounds(s: Seq<char>, i: int)
    requires
        0 <= i <= s.len(),
    ensures
        i <= find_non_ws(s, i) <= s.len(),
        forall|j: int| i <= j < find_non_ws(s, i) ==> is_ws(s[j]),
        find_non_ws(s, i) < s.len() ==> !is_ws(s[find_non_ws(s, i)]),
    decreases s.len() - i,
{
    if i < s.len() && is_ws(s[i]) {
        lemma_find_non_ws_bounds(s, i + 1);
    }
}

pub proof fn lemma_find_ws_bounds(s: Seq<char>, i: int)
    requires
        0 <= i <= s.len(),
    ensures
        i <= find_ws(s, i) <= s.len(),
        forall|j: int| i <= j < find_ws(s, i) ==> !is_ws(s[j]),
        find_ws(s, i) < s.len() ==> is_ws(s[find_ws(s, i)]),
    decreases s.len() - i,
{
    if i < s.len() && !is_ws(s[i]) {
        lemma_find_ws_bounds(s, i + 1);
    }
}

/// The whitespace-separated tokens of `s.skip(i)`.
pub open spec fn split_ws_from(s: Seq<char>, i: int) -> Seq<Seq<char>>
    decreases s.len() - i,
    via split_ws_from_dec
{
    if i < 0 {
        Seq::empty()
    } else {
        let a = find_non_ws(s, i);
        if a >= s.len() {
            Seq::empty()
        } else {
            let b = find_ws(s, a);
            seq![s.subrange(a, b)] + split_ws_from(s, b)
        }
    }
}

#[via_fn]
proof fn split_ws_from_dec(s: Seq<char>, i: int) {
    if i >= 0 {
        if i <= s.len() {
            lemma_find_non_ws_bounds(s, i);
            let a = find_non_ws(s, i);
            if a < s.len() {
                lemma_find_ws_bounds(s, a);
            }
        }
    }
}

/// The whitespace-separated tokens of `s`.
pub open spec fn split_ws(s: Seq<char>) -> Seq<Seq<char>> {
    split_ws_from(s, 0)
}

/// Splits `s` into whitespace-separated tokens.
#[verifier::loop_isolation(false)]
pub fn split_whitespace_chars(s: &[char]) -> (r: Vec<Vec<char>>)
    ensures
        r@.map_values(|l: Vec<char>| l@) == split_ws(s@),
{
    let n = s.len();
    let mut r: Vec<Vec<char>> = Vec::new();
    let mut i: usize = 0;
    proof {
        assert(r@.map_values(|l: Vec<char>| l@) + split_ws_from(s@, 0) =~= split_ws_from(s@, 0));
    }
    while i < n
        invariant
            0 <= i <= n,
            split_ws(s@) == r@.map_values(|l: Vec<char>| l@) + split_ws_from(s@, i as int),
        decreases n - i,
    {
        if is_ws_char(s[i]) {
            proof {
                assert(find_non_ws(s@, i as int) == find_non_ws(s@, i + 1));
            }
            i += 1;
        } else {
            proof {
                lemma_find_non_ws_bounds(s@, i as int);
                assert(find_non_ws(s@, i as int) == i);
            }
            let mut j = i;
            let mut tok: Vec<char> = Vec::new();
            while j < n && !is_ws_char(s[j])
                invariant
                    i <= j <= n,
                    tok@ == s@.subrange(i as int, j as int),
                    forall|k: int| i <= k < j ==> !is_ws(s@[k]),
                decreases n - j,
            {
                tok.push(s[j]);
                proof {
                    assert(s@.subrange(i as int, j + 1) =~= s@.subrange(i as int, j as int).push(
                        s@[j as int],
                    ));
                }
                j += 1;
            }
            proof {
                if j < n {
                    lemma_find_ws_bounds(s@, i as int);
                    lemma_find_ws_is(s@, i as int, j as int);
                } else {
                    lemma_find_ws_is(s@, i as int, n as int);
                }
            }
            let ghost prev = r@;
            r.push(tok);
            proof {
                assert(r@.map_values(|l: Vec<char>| l@) =~= prev.map_values(|l: Vec<char>| l@).push(
                    s@.subrange(i as int, j as int),
                ));
                assert(split_ws_from(s@, i as int) == seq![s@.subrange(i as int, j as int)]
                    + split_ws_from(s@, j as int));
                assert(prev.map_values(|l: Vec<char>| l@) + split_ws_from(s@, i as int)
                    =~= r@.map_values(|l: Vec<char>| l@) + split_ws_from(s@, j as int));
            }
            i = j;
        }
    }
    proof {
        assert(split_ws_from(s@, n as int) =~= Seq::<Seq<char>>::empty());
        assert(r@.map_values(|l: Vec<char>| l@) + Seq::<Seq<char>>::empty() =~= r@.map_values(
            |l: Vec<char>| l@,
        ));
    }
    r
}

proof fn lemma_find_ws_is(s: Seq<char>, i: int, k: int)
    requires
        0 <= i <= k <= s.len(),
        forall|j: int| i <= j < k ==> !is_ws(s[j]),
        k == s.len() || is_ws(s[k]),
    ensures
        find_ws(s, i) == k,
    decreases k - i,
{
    if i < k {
        lemma_find_ws_is(s, i + 1, k);
    }
}

/// ASCII upper-casing of one character.
pub open spec fn upper_char(c: char) -> char {
    if 97 <= c as int && c as int <= 122 {
        ((c as int - 32) as u8) as char
    } else {
        c
    }
}

/// ASCII upper-casing, character by character.
pub open spec fn upper(s: Seq<char>) -> Seq<char> {
    s.map_values(|c: char| upper_char(c))
}

/// Upper-cases ASCII letters, leaving everything else alone.
#[verifier::loop_isolation(false)]
pub fn to_upper_chars(s: &[char]) -> (r: Vec<char>)
    ensures
        r@ == upper(s@),
{
    let n = s.len();
    let mut r: Vec<char> = Vec::new();
    let mut i: usize = 0;
    while i < n
        invariant
            0 <= i <= n,
            r@ == upper(s@.take(i as int)),
        decreases n - i,
    {
        let c = s[i];
        if c >= 'a' && c <= 'z' {
            let u = (char_code(c) - 32) as u8;
            r.push(u as char);
        } else {
            r.push(c);
        }
        proof {
            assert(upper(s@.take(i + 1)) =~= upper(s@.take(i as int)).push(upper_char(
                s@[i as int],
            )));
        }
        i += 1;
    }
    proof {
        assert(s@.take(n as int) =~= s@);
    }
    r
}

// ---------------------------------------------------------------------------
// Quoting and escaping (the snapshot's double-quoted scalar style)
// ---------------------------------------------------------------------------
/// How one character appears inside a double-quoted scalar.
pub open spec fn esc_char(c: char) -> Seq<char> {
    if c == '"' {
        seq!['\\', '"']
    } else if c == '\\' {
        seq!['\\', '\\']
    } else if c == '\n' {
        seq!['\\', 'n']
    } else if c == '\r' {
        seq!['\\', 'r']
    } else if c == '\t' {
        seq!['\\', 't']
    } else {
        seq![c]
    }
}

/// The escaped body of a double-quoted scalar.
pub open spec fn escape(s: Seq<char>) -> Seq<char>
    decreases s.len(),
{
    if s.len() == 0 {
        Seq::empty()
    } else {
        escape(s.drop_last()) + esc_char(s.last())
    }
}

/// `s` rendered as a double-quoted scalar.
pub open spec fn quoted(s: Seq<char>) -> Seq<char> {
    seq!['"'] + escape(s) + seq!['"']
}

pub proof fn lemma_escape_singleton(c: char)
    ensures
        escape(seq![c]) == esc_char(c),
{
    let s = seq![c];
    assert(s.drop_last() =~= Seq::<char>::empty());
    assert(s.last() == c);
    assert(escape(s) == escape(Seq::<char>::empty()) + esc_char(c));
    assert(Seq::<char>::empty() + esc_char(c) =~= esc_char(c));
}

pub proof fn lemma_escape_append(a: Seq<char>, b: Seq<char>)
    ensures
        escape(a + b) == escape(a) + escape(b),
    decreases b.len(),
{
    if b.len() == 0 {
        assert(a + b =~= a);
        assert(escape(a) + escape(b) =~= escape(a));
    } else {
        lemma_escape_append(a, b.drop_last());
        assert((a + b).drop_last() =~= a + b.drop_last());
        assert((a + b).last() == b.last());
        assert(escape(a + b) == escape(a) + escape(b.drop_last()) + esc_char(b.last()));
        assert(escape(a) + escape(b.drop_last()) + esc_char(b.last()) =~= escape(a) + (escape(
            b.drop_last(),
        ) + esc_char(b.last())));
    }
}

pub proof fn lemma_escape_first(s: Seq<char>)
    requires
        s.len() > 0,
    ensures
        escape(s) == esc_char(s[0]) + escape(s.skip(1)),
{
    assert(s =~= seq![s[0]] + s.skip(1));
    lemma_escape_append(seq![s[0]], s.skip(1));
    lemma_escape_singleton(s[0]);
}

/// Appends `s` as a double-quoted scalar to `out`.
pub fn push_quoted(out: &mut Vec<char>, s: &[char])
    ensures
        final(out)@ == old(out)@ + quoted(s@),
{
    out.push('"');
    let n = s.len();
    let mut i: usize = 0;
    while i < n
        invariant
            0 <= i <= n,
            n == s@.len(),
            out@ == old(out)@ + seq!['"'] + escape(s@.take(i as int)),
        decreases n - i,
    {
        let c = s[i];
        if c == '"' {
            out.push('\\');
            out.push('"');
        } else if c == '\\' {
            out.push('\\');
            out.push('\\');
        } else if c == '\n' {
            out.push('\\');
            out.push('n');
        } else if c == '\r' {
            out.push('\\');
            out.push('r');
        } else if c == '\t' {
            out.push('\\');
            out.push('t');
        } else {
            out.push(c);
        }
        proof {
            assert(s@.take(i + 1) =~= s@.take(i as int) + seq![s@[i as int]]);
            lemma_escape_append(s@.take(i as int), seq![s@[i as int]]);
            lemma_escape_singleton(s@[i as int]);
            assert(out@ =~= old(out)@ + seq!['"'] + escape(s@.take(i + 1)));
        }
        i += 1;
    }
    out.push('"');
    proof {
        assert(s@.take(n as int) =~= s@);
        assert(out@ =~= old(out)@ + quoted(s@));
    }
}

/// What scanning a double-quoted scalar's remainder yields: the decoded
/// content and the index just past the closing quote. `i` stands just after
/// the opening quote.
pub open spec fn scan_quoted_spec(l: Seq<char>, i: int) -> Option<(Seq<char>, int)>
    decreases l.len() - i,
{
    if i < 0 || i >= l.len() {
        None
    } else if l[i] == '"' {
        Some((Seq::empty(), i + 1))
    } else if l[i] == '\\' {
        if i + 1 >= l.len() {
            None
        } else {
            let c = l[i + 1];
            let dec = if c == '"' {
                Some('"')
            } else if c == '\\' {
                Some('\\')
            } else if c == 'n' {
                Some('\n')
            } else if c == 'r' {
                Some('\r')
            } else if c == 't' {
                Some('\t')
            } else {
                None
            };
            match dec {
                None => None,
                Some(d) => match scan_quoted_spec(l, i + 2) {
                    None => None,
                    Some((s, j)) => Some((seq![d] + s, j)),
                },
            }
        }
    } else {
        match scan_quoted_spec(l, i + 1) {
            None => None,
            Some((s, j)) => Some((seq![l[i]] + s, j)),
        }
    }
}

/// Scanning is the inverse of quoting: after the opening quote, an escaped
/// body followed by the closing quote decodes to the original text.
pub proof fn lemma_scan_quoted_escape(l: Seq<char>, i: int, s: Seq<char>, t: Seq<char>)
    requires
        0 <= i <= l.len(),
        l.skip(i) == escape(s) + seq!['"'] + t,
    ensures
        scan_quoted_spec(l, i) == Some((s, i + escape(s).len() + 1)),
    decreases s.len(),
{
    let w = l.skip(i);
    assert(forall|k: int| 0 <= k < w.len() ==> #[trigger] w[k] == l[i + k]);
    if s.len() == 0 {
        assert(escape(s) =~= Seq::<char>::empty());
        assert(w =~= seq!['"'] + t);
        assert(w[0] == '"');
        assert(l[i] == '"');
    } else {
        lemma_escape_first(s);
        let e0 = esc_char(s[0]);
        let rest = escape(s.skip(1));
        assert(w =~= e0 + (rest + (seq!['"'] + t))) by {
            assert(w == escape(s) + seq!['"'] + t);
            assert(escape(s) == e0 + rest);
        }
        let inner = rest + (seq!['"'] + t);
        assert(w.len() == e0.len() + inner.len());
        if e0.len() == 2 {
            assert(w[0] == e0[0]);
            assert(w[1] == e0[1]);
            assert(l[i] == e0[0]);
            assert(l[i + 1] == e0[1]);
            assert(e0[0] == '\\');
            assert(l.skip(i + 2) =~= rest + seq!['"'] + t) by {
                assert(forall|k: int|
                    0 <= k < l.len() - i - 2 ==> #[trigger] l.skip(i + 2)[k] == l[i + 2 + k]);
                assert(forall|k: int|
                    0 <= k < inner.len() ==> w[2 + k] == #[trigger] inner[k]);
                assert(inner =~= rest + seq!['"'] + t);
            }
            lemma_scan_quoted_escape(l, i + 2, s.skip(1), t);
            assert(seq![s[0]] + s.skip(1) =~= s);
            assert(escape(s).len() == 2 + rest.len());
            let d = e0[1];
            assert((d == '"' && s[0] == '"') || (d == '\\' && s[0] == '\\') || (d == 'n' && s[0]
                == '\n') || (d == 'r' && s[0] == '\r') || (d == 't' && s[0] == '\t'));
        } else {
            assert(e0 =~= seq![s[0]]);
            assert(s[0] != '"' && s[0] != '\\');
            assert(w[0] == e0[0]);
            assert(l[i] == s[0]);
            assert(l.skip(i + 1) =~= rest + seq!['"'] + t) by {
                assert(forall|k: int|
                    0 <= k < l.len() - i - 1 ==> #[trigger] l.skip(i + 1)[k] == l[i + 1 + k]);
                assert(forall|k: int|
                    0 <= k < inner.len() ==> w[1 + k] == #[trigger] inner[k]);
                assert(inner =~= rest + seq!['"'] + t);
            }
            lemma_scan_quoted_escape(l, i + 1, s.skip(1), t);
            assert(seq![s[0]] + s.skip(1) =~= s);
            assert(escape(s).len() == 1 + rest.len());
        }
    }
}

/// Reads a double-quoted scalar's remainder: `start` stands just after the
/// opening quote. Returns the decoded content and the index past the closing
/// quote.
pub fn scan_quoted(l: &[char], start: usize) -> (r: Option<(Vec<char>, usize)>)
    ensures
        match r {
            Some(p) => scan_quoted_spec(l@, start as int) == Some((p.0@, p.1 as int)),
            None => scan_quoted_spec(l@, start as int) == None::<(Seq<char>, int)>,
        },
{
    let n = l.len();
    if start > n {
        return None;
    }
    let mut acc: Vec<char> = Vec::new();
    let mut i: usize = start;
    proof {
        assert forall|s: Seq<char>, j: int|
            scan_quoted_spec(l@, start as int) == Some((s, j)) implies acc@ + s == s by {
            assert(acc@ + s =~= s);
        }
    }
    loop
        invariant
            0 <= i <= n,
            n == l@.len(),
            scan_quoted_spec(l@, start as int) == match scan_quoted_spec(l@, i as int) {
                None => None::<(Seq<char>, int)>,
                Some((s, j)) => Some((acc@ + s, j)),
            },
        decreases n - i,
    {
        if i >= n {
            return None;
        }
        let c = l[i];
        if c == '"' {
            proof {
                assert(acc@ + Seq::<char>::empty() =~= acc@);
            }
            return Some((acc, i + 1));
        }
        if c == '\\' {
            if i + 1 >= n {
                return None;
            }
            let e = l[i + 1];
            let d: char = if e == '"' {
                '"'
            } else if e == '\\' {
                '\\'
            } else if e == 'n' {
                '\n'
            } else if e == 'r' {
                '\r'
            } else if e == 't' {
                '\t'
            } else {
                return None;
            };
            let ghost prev = acc@;
            acc.push(d);
            proof {
                assert forall|s: Seq<char>, j: int|
                    scan_quoted_spec(l@, i + 2) == Some((s, j)) implies acc@ + s == prev + (
                seq![d] + s) by {
                    assert(acc@ + s =~= prev + (seq![d] + s));
                }
                assert(scan_quoted_spec(l@, start as int) == match scan_quoted_spec(l@, i + 2) {
                    None => None::<(Seq<char>, int)>,
                    Some((s, j)) => Some((acc@ + s, j)),
                });
            }
            i += 2;
        } else {
            let ghost prev = acc@;
            acc.push(c);
            proof {
                assert forall|s: Seq<char>, j: int|
                    scan_quoted_spec(l@, i + 1) == Some((s, j)) implies acc@ + s == prev + (
                seq![c] + s) by {
                    assert(acc@ + s =~= prev + (seq![c] + s));
                }
                assert(scan_quoted_spec(l@, start as int) == match scan_quoted_spec(l@, i + 1) {
                    None => None::<(Seq<char>, int)>,
                    Some((s, j)) => Some((acc@ + s, j)),
                });
            }
            i += 1;
        }
    }
}


/// A successful scan ends past where it began.
pub proof fn lemma_scan_past(l: Seq<char>, i: int, v: Seq<char>, e: int)
    requires
        scan_quoted_spec(l, i) == Some((v, e)),
    ensures
        e >= i + 1,
        e <= l.len(),
    decreases l.len() - i,
{
    if 0 <= i && i < l.len() {
        if l[i] == '"' {
        } else if l[i] == '\\' {
            if i + 1 < l.len() {
                match scan_quoted_spec(l, i + 2) {
                    Some((v2, e2)) => {
                        lemma_scan_past(l, i + 2, v2, e2);
                    },
                    None => {},
                }
            }
        } else {
            match scan_quoted_spec(l, i + 1) {
                Some((v2, e2)) => {
                    lemma_scan_past(l, i + 1, v2, e2);
                },
                None => {},
            }
        }
    }
}

/// Scanning a suffix sees the same characters: results shift with the
/// base.
pub proof fn lemma_scan_shift(l: Seq<char>, j: int, t: int)
    requires
        0 <= j <= l.len(),
        0 <= t,
    ensures
        scan_quoted_spec(l.skip(j), t) == (match scan_quoted_spec(l, j + t) {
            None => None::<(Seq<char>, int)>,
            Some((v, e)) => Some((v, e - j)),
        }),
    decreases l.len() - j - t,
{
    let w = l.skip(j);
    if j + t >= l.len() {
        assert(t >= w.len());
    } else {
        assert(w[t] == l[j + t]);
        if l[j + t] == '"' {
        } else if l[j + t] == '\\' {
            if j + t + 1 < l.len() {
                assert(w[t + 1] == l[j + t + 1]);
                lemma_scan_shift(l, j, t + 2);
            } else {
                assert(t + 1 >= w.len());
            }
        } else {
            lemma_scan_shift(l, j, t + 1);
        }
    }
}

// ---------------------------------------------------------------------------
// Lines
// ---------------------------------------------------------------------------
/// Index of the first newline at or after `i`, or the length.
pub open spec fn find_nl(s: Seq<char>, i: int) -> int
    decreases s.len() - i,
{
    if i < 0 || i >= s.len() {
        s.len() as int
    } else if s[i] == '\n' {
        i
    } else {
        find_nl(s, i + 1)
    }
}

pub proof fn lemma_find_nl_bounds(s: Seq<char>, i: int)
    requires
        0 <= i <= s.len(),
    ensures
        i <= find_nl(s, i) <= s.len(),
        forall|j: int| i <= j < find_nl(s, i) ==> s[j] != '\n',
        find_nl(s, i) < s.len() ==> s[find_nl(s, i)] == '\n',
    decreases s.len() - i,
{
    if i < s.len() && s[i] != '\n' {
        lemma_find_nl_bounds(s, i + 1);
    }
}

/// The lines of `s`: pieces between newlines, a trailing piece only when it
/// is not empty.
pub open spec fn split_lines_spec(s: Seq<char>) -> Seq<Seq<char>>
    decreases s.len(),
    via split_lines_spec_dec
{
    if s.len() == 0 {
        Seq::empty()
    } else {
        let k = find_nl(s, 0);
        if k == s.len() {
            seq![s]
        } else {
            seq![s.take(k)] + split_lines_spec(s.skip(k + 1))
        }
    }
}

#[via_fn]
proof fn split_lines_spec_dec(s: Seq<char>) {
    if s.len() > 0 {
        lemma_find_nl_bounds(s, 0);
    }
}

/// Every emitted line followed by a newline.
pub open spec fn join_lines(ls: Seq<Seq<char>>) -> Seq<char>
    decreases ls.len(),
{
    if ls.len() == 0 {
        Seq::empty()
    } else {
        ls[0] + seq!['\n'] + join_lines(ls.skip(1))
    }
}

pub proof fn lemma_join_lines_append(a: Seq<Seq<char>>, b: Seq<Seq<char>>)
    ensures
        join_lines(a + b) == join_lines(a) + join_lines(b),
    decreases a.len(),
{
    if a.len() == 0 {
        assert(a + b =~= b);
        assert(join_lines(a) + join_lines(b) =~= join_lines(b));
    } else {
        lemma_join_lines_append(a.skip(1), b);
        assert((a + b).skip(1) =~= a.skip(1) + b);
        assert((a + b)[0] == a[0]);
        assert(a[0] + seq!['\n'] + (join_lines(a.skip(1)) + join_lines(b)) =~= (a[0] + seq!['\n']
            + join_lines(a.skip(1))) + join_lines(b));
    }
}

/// Splitting undoes joining, provided no line holds a newline itself.
pub proof fn lemma_split_join(ls: Seq<Seq<char>>)
    requires
        forall|i: int| 0 <= i < ls.len() ==> !ls[i].contains('\n'),
    ensures
        split_lines_spec(join_lines(ls)) == ls,
    decreases ls.len(),
{
    if ls.len() > 0 {
        let s = join_lines(ls);
        let l0 = ls[0];
        assert(!l0.contains('\n'));
        assert(s == l0 + seq!['\n'] + join_lines(ls.skip(1)));
        assert(s.len() > l0.len());
        assert forall|j: int| 0 <= j < l0.len() implies s[j] != '\n' by {
            assert(s[j] == l0[j]);
            assert(!l0.contains('\n'));
        }
        assert(s[l0.len() as int] == '\n');
        lemma_find_nl_is(s, 0, l0.len() as int);
        assert(s.take(l0.len() as int) =~= l0);
        assert(s.skip(l0.len() as int + 1) =~= join_lines(ls.skip(1)));
        assert(forall|i: int|
            0 <= i < ls.skip(1).len() ==> ls.skip(1)[i] == ls[i + 1]);
        lemma_split_join(ls.skip(1));
        assert(seq![l0] + ls.skip(1) =~= ls);
    }
}

proof fn lemma_find_nl_is(s: Seq<char>, i: int, k: int)
    requires
        0 <= i <= k <= s.len(),
        forall|j: int| i <= j < k ==> s[j] != '\n',
        k == s.len() || s[k] == '\n',
    ensures
        find_nl(s, i) == k,
    decreases s.len() - i,
{
    if i < k {
        lemma_find_nl_is(s, i + 1, k);
    }
}

/// Splits `s` into its newline-separated lines.
pub fn split_lines(s: &[char]) -> (r: Vec<Vec<char>>)
    ensures
        r@.map_values(|l: Vec<char>| l@) == split_lines_spec(s@),
{
    let n = s.len();
    let mut r: Vec<Vec<char>> = Vec::new();
    let mut start: usize = 0;
    proof {
        assert(s@.skip(0) =~= s@);
        assert(r@.map_values(|l: Vec<char>| l@) + split_lines_spec(s@) =~= split_lines_spec(s@));
    }
    while start < n
        invariant
            0 <= start <= n,
            n == s@.len(),
            split_lines_spec(s@) == r@.map_values(|l: Vec<char>| l@) + split_lines_spec(
                s@.skip(start as int),
            ),
        decreases n - start,
    {
        let mut i: usize = start;
        let mut line: Vec<char> = Vec::new();
        while i < n && s[i] != '\n'
            invariant
                start <= i <= n,
                n == s@.len(),
                line@ == s@.subrange(start as int, i as int),
                forall|j: int| start <= j < i ==> s@[j] != '\n',
            decreases n - i,
        {
            line.push(s[i]);
            proof {
                assert(s@.subrange(start as int, i + 1) =~= s@.subrange(
                    start as int,
                    i as int,
                ).push(s@[i as int]));
            }
            i += 1;
        }
        let ghost tail = s@.skip(start as int);
        proof {
            assert(forall|j: int| 0 <= j < tail.len() ==> tail[j] == s@[j + start]);
            if i < n {
                lemma_find_nl_is(tail, 0, i - start);
            } else {
                lemma_find_nl_is(tail, 0, tail.len() as int);
            }
            assert(tail.take(i - start) =~= s@.subrange(start as int, i as int));
        }
        let ghost prev = r@;
        r.push(line);
        proof {
            assert(r@.map_values(|l: Vec<char>| l@) =~= prev.map_values(|l: Vec<char>| l@).push(
                s@.subrange(start as int, i as int),
            ));
        }
        if i < n {
            proof {
                assert(split_lines_spec(tail) == seq![tail.take(i - start)] + split_lines_spec(
                    tail.skip(i - start + 1),
                ));
                assert(tail.skip(i - start + 1) =~= s@.skip(i + 1));
                assert(prev.map_values(|l: Vec<char>| l@) + split_lines_spec(tail) =~= r@.map_values(
                    |l: Vec<char>| l@,
                ) + split_lines_spec(s@.skip(i + 1)));
            }
            start = i + 1;
        } else {
            proof {
                assert(split_lines_spec(tail) == seq![tail]);
                assert(tail =~= tail.take(i - start));
                assert(prev.map_values(|l: Vec<char>| l@) + split_lines_spec(tail) =~= r@.map_values(
                    |l: Vec<char>| l@,
                ) + split_lines_spec(s@.skip(n as int)));
                assert(s@.skip(n as int) =~= Seq::<char>::empty());
            }
            start = n;
        }
    }
    proof {
        assert(s@.skip(start as int) =~= Seq::<char>::empty());
        assert(r@.map_values(|l: Vec<char>| l@) + split_lines_spec(Seq::<char>::empty())
            =~= r@.map_values(|l: Vec<char>| l@));
    }
    r
}

} // verus!
