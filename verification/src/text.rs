//! Character-level vocabulary shared by the URL grammar and the landing
//! page grammar: ASCII classes, Unicode classes, case-insensitive literal
//! matching, runs, decimal numbers, and `String` building.
use vstd::prelude::*;

verus! {

/// Appends one character to a `String` (std: "Appends the given char to the
/// end of this String").
pub assume_specification[ String::push ](s: &mut String, ch: char)
    ensures
        final(s)@ == old(s)@.push(ch),
;

// ── Strings and char vectors ────────────────────────────────────────────────

/// The characters of `s`, in order.
pub fn str_chars(s: &str) -> (v: Vec<char>)
    ensures
        v@ == s@,
{
    let mut v: Vec<char> = Vec::new();
    for c in it: s.chars()
        invariant
            v@ == it.seq().take(it.index() as int),
            it.seq() == s@,
    {
        v.push(c);
    }
    v
}

/// A `String` holding `v[from..to]`.
pub fn string_from_range(v: &[char], from: usize, to: usize) -> (s: String)
    requires
        from <= to <= v@.len(),
    ensures
        s@ == v@.subrange(from as int, to as int),
{
    let mut s = String::new();
    let mut i = from;
    while i < to
        invariant
            from <= i <= to <= v@.len(),
            s@ == v@.subrange(from as int, i as int),
        decreases to - i,
    {
        s.push(v[i]);
        i = i + 1;
        assert(s@ =~= v@.subrange(from as int, i as int));
    }
    s
}

/// A `String` holding the characters of `v`.
pub fn string_from_chars(v: &[char]) -> (s: String)
    ensures
        s@ == v@,
{
    let s = string_from_range(v, 0, v.len());
    assert(v@.subrange(0, v@.len() as int) =~= v@);
    s
}

/// An owned copy of `s`.
pub fn string_from_str(s: &str) -> (r: String)
    ensures
        r@ == s@,
{
    let v = str_chars(s);
    string_from_chars(&v)
}

/// `s` followed by the characters of `v`.
pub fn push_chars(s: &mut String, v: &[char])
    ensures
        final(s)@ == old(s)@ + v@,
{
    let mut i: usize = 0;
    while i < v.len()
        invariant
            i <= v@.len(),
            s@ == old(s)@ + v@.take(i as int),
        decreases v.len() - i,
    {
        s.push(v[i]);
        i = i + 1;
        assert(s@ =~= old(s)@ + v@.take(i as int));
    }
    assert(v@.take(v@.len() as int) =~= v@);
}

// ── ASCII classes ───────────────────────────────────────────────────────────

pub open spec fn is_ascii_digit(c: char) -> bool {
    '0' <= c && c <= '9'
}

pub open spec fn is_ascii_alnum(c: char) -> bool {
    is_ascii_digit(c) || ('a' <= c && c <= 'z') || ('A' <= c && c <= 'Z')
}

/// `c.to_ascii_lowercase() == l`, for a pattern character `l` that is not an
/// upper-case ASCII letter.
pub open spec fn ascii_ci_eq(c: char, l: char) -> bool {
    c == l || ('a' <= l && l <= 'z' && (c as u32) + 32 == (l as u32))
}

/// `c` matches the pattern character `p` (not an upper-case ASCII letter)
/// under Unicode simple case folding, as a case-insensitive regular
/// expression does: besides the ASCII upper case, U+212A KELVIN SIGN folds to
/// `k` and U+017F LATIN SMALL LETTER LONG S folds to `s`.
pub open spec fn fold_eq(c: char, p: char) -> bool {
    ||| ascii_ci_eq(c, p)
    ||| (p == 'k' && c == '\u{212A}')
    ||| (p == 's' && c == '\u{17F}')
}

/// The literal `lit` occurs at position `i` of `t`, compared with `fold_eq`.
pub open spec fn fold_lit_at(t: Seq<char>, i: int, lit: Seq<char>) -> bool {
    &&& 0 <= i
    &&& i + lit.len() <= t.len()
    &&& forall|j: int| 0 <= j < lit.len() ==> fold_eq(#[trigger] t[i + j], lit[j])
}

/// The literal `lit` occurs at position `i` of `t`, compared with `ascii_ci_eq`.
pub open spec fn ascii_ci_lit_at(t: Seq<char>, i: int, lit: Seq<char>) -> bool {
    &&& 0 <= i
    &&& i + lit.len() <= t.len()
    &&& forall|j: int| 0 <= j < lit.len() ==> ascii_ci_eq(#[trigger] t[i + j], lit[j])
}

/// `t.to_ascii_lowercase()` contains `lit` (a lower-case literal).
pub open spec fn contains_ascii_ci(t: Seq<char>, lit: Seq<char>) -> bool {
    exists|i: int| ascii_ci_lit_at(t, i, lit)
}

/// `t.eq_ignore_ascii_case(lit)` for a lower-case literal `lit`.
pub open spec fn eq_ascii_ci(t: Seq<char>, lit: Seq<char>) -> bool {
    t.len() == lit.len() && ascii_ci_lit_at(t, 0, lit)
}

pub fn ascii_ci_char_eq(c: char, l: char) -> (b: bool)
    ensures
        b == ascii_ci_eq(c, l),
{
    c == l || ('a' <= l && l <= 'z' && (c as u32) + 32 == (l as u32))
}

pub fn fold_char_eq(c: char, p: char) -> (b: bool)
    ensures
        b == fold_eq(c, p),
{
    ascii_ci_char_eq(c, p) || (p == 'k' && c == '\u{212A}') || (p == 's' && c == '\u{17F}')
}

/// Whether `lit` occurs at position `i` of `t` under case folding.
pub fn fold_lit_at_exec(t: &[char], i: usize, lit: &[char]) -> (b: bool)
    ensures
        b == fold_lit_at(t@, i as int, lit@),
{
    if i > t.len() || lit.len() > t.len() - i {
        return false;
    }
    let mut j: usize = 0;
    while j < lit.len()
        invariant
            i + lit@.len() <= t@.len(),
            t@.len() == t.len(),
            j <= lit@.len(),
            forall|k: int| 0 <= k < j ==> fold_eq(#[trigger] t@[i + k], lit@[k]),
        decreases lit.len() - j,
    {
        if !fold_char_eq(t[i + j], lit[j]) {
            return false;
        }
        j = j + 1;
    }
    true
}

/// Whether `lit` occurs at position `i` of `t` ignoring ASCII case.
pub fn ascii_ci_lit_at_exec(t: &[char], i: usize, lit: &[char]) -> (b: bool)
    ensures
        b == ascii_ci_lit_at(t@, i as int, lit@),
{
    if i > t.len() || lit.len() > t.len() - i {
        return false;
    }
    let mut j: usize = 0;
    while j < lit.len()
        invariant
            i + lit@.len() <= t@.len(),
            t@.len() == t.len(),
            j <= lit@.len(),
            forall|k: int| 0 <= k < j ==> ascii_ci_eq(#[trigger] t@[i + k], lit@[k]),
        decreases lit.len() - j,
    {
        if !ascii_ci_char_eq(t[i + j], lit[j]) {
            return false;
        }
        j = j + 1;
    }
    true
}

/// Whether `t`, lowered to ASCII lower case, contains `lit`.
pub fn contains_ascii_ci_exec(t: &[char], lit: &[char]) -> (b: bool)
    ensures
        b == contains_ascii_ci(t@, lit@),
{
    let mut i: usize = 0;
    while i < t.len()
        invariant
            i <= t@.len(),
            forall|k: int| 0 <= k < i ==> !ascii_ci_lit_at(t@, k, lit@),
        decreases t.len() - i,
    {
        if ascii_ci_lit_at_exec(t, i, lit) {
            return true;
        }
        i = i + 1;
    }
    if ascii_ci_lit_at_exec(t, i, lit) {
        return true;
    }
    assert forall|k: int| !ascii_ci_lit_at(t@, k, lit@) by {
        if 0 <= k <= i {
        }
    }
    false
}

/// Whether `t` equals `lit` ignoring ASCII case.
pub fn eq_ascii_ci_exec(t: &[char], lit: &[char]) -> (b: bool)
    ensures
        b == eq_ascii_ci(t@, lit@),
{
    t.len() == lit.len() && ascii_ci_lit_at_exec(t, 0, lit)
}

// ── Unicode classes ─────────────────────────────────────────────────────────

/// The Unicode `White_Space` property: what `char::is_whitespace` and `str::trim`
/// use, and what `\s` matches in a regular expression.
pub open spec fn is_white_space(c: char) -> bool {
    let u = c as u32;
    ||| (0x9 <= u && u <= 0xd)
    ||| u == 0x20
    ||| u == 0x85
    ||| u == 0xa0
    ||| u == 0x1680
    ||| (0x2000 <= u && u <= 0x200a)
    ||| u == 0x2028
    ||| u == 0x2029
    ||| u == 0x202f
    ||| u == 0x205f
    ||| u == 0x3000
}

pub fn is_white_space_exec(c: char) -> (b: bool)
    ensures
        b == is_white_space(c),
{
    let u = c as u32;
    (0x9 <= u && u <= 0xd) || u == 0x20 || u == 0x85 || u == 0xa0 || u == 0x1680 || (0x2000
        <= u && u <= 0x200a) || u == 0x2028 || u == 0x2029 || u == 0x202f || u == 0x205f || u
        == 0x3000
}

/// The Unicode general category `Decimal_Number` (Unicode 16.0): what `\d`
/// matches in a regular expression.
pub open spec fn is_decimal_digit(c: char) -> bool {
    let u = c as u32;
        (0x30 <= u && u <= 0x39) ||
        (0x660 <= u && u <= 0x669) ||
        (0x6f0 <= u && u <= 0x6f9) ||
        (0x7c0 <= u && u <= 0x7c9) ||
        (0x966 <= u && u <= 0x96f) ||
        (0x9e6 <= u && u <= 0x9ef) ||
        (0xa66 <= u && u <= 0xa6f) ||
        (0xae6 <= u && u <= 0xaef) ||
        (0xb66 <= u && u <= 0xb6f) ||
        (0xbe6 <= u && u <= 0xbef) ||
        (0xc66 <= u && u <= 0xc6f) ||
        (0xce6 <= u && u <= 0xcef) ||
        (0xd66 <= u && u <= 0xd6f) ||
        (0xde6 <= u && u <= 0xdef) ||
        (0xe50 <= u && u <= 0xe59) ||
        (0xed0 <= u && u <= 0xed9) ||
        (0xf20 <= u && u <= 0xf29) ||
        (0x1040 <= u && u <= 0x1049) ||
        (0x1090 <= u && u <= 0x1099) ||
        (0x17e0 <= u && u <= 0x17e9) ||
        (0x1810 <= u && u <= 0x1819) ||
        (0x1946 <= u && u <= 0x194f) ||
        (0x19d0 <= u && u <= 0x19d9) ||
        (0x1a80 <= u && u <= 0x1a89) ||
        (0x1a90 <= u && u <= 0x1a99) ||
        (0x1b50 <= u && u <= 0x1b59) ||
        (0x1bb0 <= u && u <= 0x1bb9) ||
        (0x1c40 <= u && u <= 0x1c49) ||
        (0x1c50 <= u && u <= 0x1c59) ||
        (0xa620 <= u && u <= 0xa629) ||
        (0xa8d0 <= u && u <= 0xa8d9) ||
        (0xa900 <= u && u <= 0xa909) ||
        (0xa9d0 <= u && u <= 0xa9d9) ||
        (0xa9f0 <= u && u <= 0xa9f9) ||
        (0xaa50 <= u && u <= 0xaa59) ||
        (0xabf0 <= u && u <= 0xabf9) ||
        (0xff10 <= u && u <= 0xff19) ||
        (0x104a0 <= u && u <= 0x104a9) ||
        (0x10d30 <= u && u <= 0x10d39) ||
        (0x10d40 <= u && u <= 0x10d49) ||
        (0x11066 <= u && u <= 0x1106f) ||
        (0x110f0 <= u && u <= 0x110f9) ||
        (0x11136 <= u && u <= 0x1113f) ||
        (0x111d0 <= u && u <= 0x111d9) ||
        (0x112f0 <= u && u <= 0x112f9) ||
        (0x11450 <= u && u <= 0x11459) ||
        (0x114d0 <= u && u <= 0x114d9) ||
        (0x11650 <= u && u <= 0x11659) ||
        (0x116c0 <= u && u <= 0x116c9) ||
        (0x116d0 <= u && u <= 0x116e3) ||
        (0x11730 <= u && u <= 0x11739) ||
        (0x118e0 <= u && u <= 0x118e9) ||
        (0x11950 <= u && u <= 0x11959) ||
        (0x11bf0 <= u && u <= 0x11bf9) ||
        (0x11c50 <= u && u <= 0x11c59) ||
        (0x11d50 <= u && u <= 0x11d59) ||
        (0x11da0 <= u && u <= 0x11da9) ||
        (0x11f50 <= u && u <= 0x11f59) ||
        (0x16130 <= u && u <= 0x16139) ||
        (0x16a60 <= u && u <= 0x16a69) ||
        (0x16ac0 <= u && u <= 0x16ac9) ||
        (0x16b50 <= u && u <= 0x16b59) ||
        (0x16d70 <= u && u <= 0x16d79) ||
        (0x1ccf0 <= u && u <= 0x1ccf9) ||
        (0x1d7ce <= u && u <= 0x1d7ff) ||
        (0x1e140 <= u && u <= 0x1e149) ||
        (0x1e2f0 <= u && u <= 0x1e2f9) ||
        (0x1e4f0 <= u && u <= 0x1e4f9) ||
        (0x1e5f1 <= u && u <= 0x1e5fa) ||
        (0x1e950 <= u && u <= 0x1e959) ||
        (0x1fbf0 <= u && u <= 0x1fbf9)
}

pub fn is_decimal_digit_exec(c: char) -> (b: bool)
    ensures
        b == is_decimal_digit(c),
{
    let u = c as u32;
        (0x30 <= u && u <= 0x39) ||
        (0x660 <= u && u <= 0x669) ||
        (0x6f0 <= u && u <= 0x6f9) ||
        (0x7c0 <= u && u <= 0x7c9) ||
        (0x966 <= u && u <= 0x96f) ||
        (0x9e6 <= u && u <= 0x9ef) ||
        (0xa66 <= u && u <= 0xa6f) ||
        (0xae6 <= u && u <= 0xaef) ||
        (0xb66 <= u && u <= 0xb6f) ||
        (0xbe6 <= u && u <= 0xbef) ||
        (0xc66 <= u && u <= 0xc6f) ||
        (0xce6 <= u && u <= 0xcef) ||
        (0xd66 <= u && u <= 0xd6f) ||
        (0xde6 <= u && u <= 0xdef) ||
        (0xe50 <= u && u <= 0xe59) ||
        (0xed0 <= u && u <= 0xed9) ||
        (0xf20 <= u && u <= 0xf29) ||
        (0x1040 <= u && u <= 0x1049) ||
        (0x1090 <= u && u <= 0x1099) ||
        (0x17e0 <= u && u <= 0x17e9) ||
        (0x1810 <= u && u <= 0x1819) ||
        (0x1946 <= u && u <= 0x194f) ||
        (0x19d0 <= u && u <= 0x19d9) ||
        (0x1a80 <= u && u <= 0x1a89) ||
        (0x1a90 <= u && u <= 0x1a99) ||
        (0x1b50 <= u && u <= 0x1b59) ||
        (0x1bb0 <= u && u <= 0x1bb9) ||
        (0x1c40 <= u && u <= 0x1c49) ||
        (0x1c50 <= u && u <= 0x1c59) ||
        (0xa620 <= u && u <= 0xa629) ||
        (0xa8d0 <= u && u <= 0xa8d9) ||
        (0xa900 <= u && u <= 0xa909) ||
        (0xa9d0 <= u && u <= 0xa9d9) ||
        (0xa9f0 <= u && u <= 0xa9f9) ||
        (0xaa50 <= u && u <= 0xaa59) ||
        (0xabf0 <= u && u <= 0xabf9) ||
        (0xff10 <= u && u <= 0xff19) ||
        (0x104a0 <= u && u <= 0x104a9) ||
        (0x10d30 <= u && u <= 0x10d39) ||
        (0x10d40 <= u && u <= 0x10d49) ||
        (0x11066 <= u && u <= 0x1106f) ||
        (0x110f0 <= u && u <= 0x110f9) ||
        (0x11136 <= u && u <= 0x1113f) ||
        (0x111d0 <= u && u <= 0x111d9) ||
        (0x112f0 <= u && u <= 0x112f9) ||
        (0x11450 <= u && u <= 0x11459) ||
        (0x114d0 <= u && u <= 0x114d9) ||
        (0x11650 <= u && u <= 0x11659) ||
        (0x116c0 <= u && u <= 0x116c9) ||
        (0x116d0 <= u && u <= 0x116e3) ||
        (0x11730 <= u && u <= 0x11739) ||
        (0x118e0 <= u && u <= 0x118e9) ||
        (0x11950 <= u && u <= 0x11959) ||
        (0x11bf0 <= u && u <= 0x11bf9) ||
        (0x11c50 <= u && u <= 0x11c59) ||
        (0x11d50 <= u && u <= 0x11d59) ||
        (0x11da0 <= u && u <= 0x11da9) ||
        (0x11f50 <= u && u <= 0x11f59) ||
        (0x16130 <= u && u <= 0x16139) ||
        (0x16a60 <= u && u <= 0x16a69) ||
        (0x16ac0 <= u && u <= 0x16ac9) ||
        (0x16b50 <= u && u <= 0x16b59) ||
        (0x16d70 <= u && u <= 0x16d79) ||
        (0x1ccf0 <= u && u <= 0x1ccf9) ||
        (0x1d7ce <= u && u <= 0x1d7ff) ||
        (0x1e140 <= u && u <= 0x1e149) ||
        (0x1e2f0 <= u && u <= 0x1e2f9) ||
        (0x1e4f0 <= u && u <= 0x1e4f9) ||
        (0x1e5f1 <= u && u <= 0x1e5fa) ||
        (0x1e950 <= u && u <= 0x1e959) ||
        (0x1fbf0 <= u && u <= 0x1fbf9)
}

// ── Runs ────────────────────────────────────────────────────────────────────

/// The end of the run of white space that starts at `i`.
pub open spec fn skip_ws(t: Seq<char>, i: int) -> int
    decreases t.len() - i,
{
    if 0 <= i < t.len() && is_white_space(t[i]) {
        skip_ws(t, i + 1)
    } else {
        i
    }
}

/// The end of the run of `Decimal_Number` characters that starts at `i`.
pub open spec fn decimal_run_end(t: Seq<char>, i: int) -> int
    decreases t.len() - i,
{
    if 0 <= i < t.len() && is_decimal_digit(t[i]) {
        decimal_run_end(t, i + 1)
    } else {
        i
    }
}

/// The end of the run of ASCII digits that starts at `i`.
pub open spec fn ascii_digit_run_end(t: Seq<char>, i: int) -> int
    decreases t.len() - i,
{
    if 0 <= i < t.len() && is_ascii_digit(t[i]) {
        ascii_digit_run_end(t, i + 1)
    } else {
        i
    }
}

/// The first position at or after `i` that holds `c`, or the length of `t`.
pub open spec fn next_index_of(t: Seq<char>, i: int, c: char) -> int
    decreases t.len() - i,
{
    if 0 <= i < t.len() && t[i] != c {
        next_index_of(t, i + 1, c)
    } else {
        i
    }
}

pub proof fn lemma_skip_ws(t: Seq<char>, i: int)
    requires
        0 <= i <= t.len(),
    ensures
        i <= skip_ws(t, i) <= t.len(),
        skip_ws(t, i) < t.len() ==> !is_white_space(t[skip_ws(t, i)]),
        forall|k: int| i <= k < skip_ws(t, i) ==> is_white_space(#[trigger] t[k]),
    decreases t.len() - i,
{
    if i < t.len() && is_white_space(t[i]) {
        lemma_skip_ws(t, i + 1);
    }
}

/// A run of white space, possibly empty.
pub open spec fn is_ws_run(w: Seq<char>) -> bool {
    forall|i: int| 0 <= i < w.len() ==> is_white_space(#[trigger] w[i])
}

pub proof fn lemma_skip_ws_intro(t: Seq<char>, i: int, e: int)
    requires
        0 <= i <= e <= t.len(),
        forall|j: int| i <= j < e ==> is_white_space(#[trigger] t[j]),
        e == t.len() || !is_white_space(t[e]),
    ensures
        skip_ws(t, i) == e,
    decreases e - i,
{
    if i < e {
        lemma_skip_ws_intro(t, i + 1, e);
    }
}

/// The scans look only forward: on `p + s`, from a position in `s`, they
/// stop where they stop on `s`.
pub proof fn lemma_scans_shift(p: Seq<char>, s: Seq<char>, i: int, c: char)
    requires
        0 <= i <= s.len(),
    ensures
        skip_ws(p + s, p.len() + i) == p.len() + skip_ws(s, i),
        decimal_run_end(p + s, p.len() + i) == p.len() + decimal_run_end(s, i),
        next_index_of(p + s, p.len() + i, c) == p.len() + next_index_of(s, i, c),
    decreases s.len() - i,
{
    let t = p + s;
    if i < s.len() {
        assert(t[p.len() + i] == s[i]);
        lemma_scans_shift(p, s, i + 1, c);
    }
}

/// A literal occurs at a position of `s` exactly when it occurs at the same
/// position of `s` within `p + s`.
pub proof fn lemma_fold_lit_at_shift(p: Seq<char>, s: Seq<char>, i: int, lit: Seq<char>)
    requires
        0 <= i,
    ensures
        fold_lit_at(p + s, p.len() + i, lit) == fold_lit_at(s, i, lit),
{
    let t = p + s;
    if fold_lit_at(s, i, lit) {
        assert forall|j: int| 0 <= j < lit.len() implies fold_eq(
            #[trigger] t[p.len() + i + j],
            lit[j],
        ) by {
            assert(t[p.len() + i + j] == s[i + j]);
        }
    }
    if fold_lit_at(t, p.len() + i, lit) {
        assert forall|j: int| 0 <= j < lit.len() implies fold_eq(#[trigger] s[i + j], lit[j]) by {
            assert(t[p.len() + i + j] == s[i + j]);
        }
    }
}

pub proof fn lemma_decimal_run_end(t: Seq<char>, i: int)
    requires
        0 <= i <= t.len(),
    ensures
        i <= decimal_run_end(t, i) <= t.len(),
        decimal_run_end(t, i) < t.len() ==> !is_decimal_digit(t[decimal_run_end(t, i)]),
        forall|k: int| i <= k < decimal_run_end(t, i) ==> is_decimal_digit(#[trigger] t[k]),
    decreases t.len() - i,
{
    if i < t.len() && is_decimal_digit(t[i]) {
        lemma_decimal_run_end(t, i + 1);
    }
}

pub proof fn lemma_ascii_digit_run_end(t: Seq<char>, i: int)
    requires
        0 <= i <= t.len(),
    ensures
        i <= ascii_digit_run_end(t, i) <= t.len(),
        ascii_digit_run_end(t, i) < t.len() ==> !is_ascii_digit(t[ascii_digit_run_end(t, i)]),
        forall|k: int| i <= k < ascii_digit_run_end(t, i) ==> is_ascii_digit(#[trigger] t[k]),
    decreases t.len() - i,
{
    if i < t.len() && is_ascii_digit(t[i]) {
        lemma_ascii_digit_run_end(t, i + 1);
    }
}

pub proof fn lemma_next_index_of(t: Seq<char>, i: int, c: char)
    requires
        0 <= i <= t.len(),
    ensures
        i <= next_index_of(t, i, c) <= t.len(),
        next_index_of(t, i, c) < t.len() ==> t[next_index_of(t, i, c)] == c,
        forall|k: int| i <= k < next_index_of(t, i, c) ==> #[trigger] t[k] != c,
    decreases t.len() - i,
{
    if i < t.len() && t[i] != c {
        lemma_next_index_of(t, i + 1, c);
    }
}

pub fn skip_ws_exec(t: &[char], i: usize) -> (r: usize)
    requires
        i <= t@.len(),
    ensures
        r == skip_ws(t@, i as int),
        i <= r <= t@.len(),
{
    let mut k = i;
    while k < t.len() && is_white_space_exec(t[k])
        invariant
            i <= k <= t@.len(),
            skip_ws(t@, k as int) == skip_ws(t@, i as int),
        decreases t.len() - k,
    {
        k = k + 1;
    }
    k
}

pub fn decimal_run_end_exec(t: &[char], i: usize) -> (r: usize)
    requires
        i <= t@.len(),
    ensures
        r == decimal_run_end(t@, i as int),
        i <= r <= t@.len(),
{
    let mut k = i;
    while k < t.len() && is_decimal_digit_exec(t[k])
        invariant
            i <= k <= t@.len(),
            decimal_run_end(t@, k as int) == decimal_run_end(t@, i as int),
        decreases t.len() - k,
    {
        k = k + 1;
    }
    k
}

pub fn ascii_digit_run_end_exec(t: &[char], i: usize) -> (r: usize)
    requires
        i <= t@.len(),
    ensures
        r == ascii_digit_run_end(t@, i as int),
        i <= r <= t@.len(),
{
    let mut k = i;
    while k < t.len() && '0' <= t[k] && t[k] <= '9'
        invariant
            i <= k <= t@.len(),
            ascii_digit_run_end(t@, k as int) == ascii_digit_run_end(t@, i as int),
        decreases t.len() - k,
    {
        k = k + 1;
    }
    k
}

pub fn next_index_of_exec(t: &[char], i: usize, c: char) -> (r: usize)
    requires
        i <= t@.len(),
    ensures
        r == next_index_of(t@, i as int, c),
        i <= r <= t@.len(),
{
    let mut k = i;
    while k < t.len() && t[k] != c
        invariant
            i <= k <= t@.len(),
            next_index_of(t@, k as int, c) == next_index_of(t@, i as int, c),
        decreases t.len() - k,
    {
        k = k + 1;
    }
    k
}


// ── Searching ───────────────────────────────────────────────────────────────

/// The first index of `c` in `s` (`str::find` with a `char`).
pub open spec fn index_of(s: Seq<char>, c: char) -> Option<int> {
    if next_index_of(s, 0, c) < s.len() {
        Some(next_index_of(s, 0, c))
    } else {
        None
    }
}

/// The last index of `c` among the first `n` characters of `s`.
pub open spec fn last_index_before(s: Seq<char>, c: char, n: int) -> Option<int>
    decreases n,
{
    if n <= 0 {
        None
    } else if s[n - 1] == c {
        Some(n - 1)
    } else {
        last_index_before(s, c, n - 1)
    }
}

/// The last index of `c` in `s` (`str::rfind` with a `char`).
pub open spec fn last_index_of(s: Seq<char>, c: char) -> Option<int> {
    last_index_before(s, c, s.len() as int)
}

/// The first index at or after `i` where `pat` occurs in `s`.
pub open spec fn index_of_seq_from(s: Seq<char>, pat: Seq<char>, i: int) -> Option<int>
    decreases s.len() + 1 - i,
{
    if i < 0 || i + pat.len() > s.len() {
        None
    } else if s.subrange(i, i + pat.len()) == pat {
        Some(i)
    } else {
        index_of_seq_from(s, pat, i + 1)
    }
}

/// The first index where `pat` occurs in `s` (`str::find` with a `&str`).
pub open spec fn index_of_seq(s: Seq<char>, pat: Seq<char>) -> Option<int> {
    index_of_seq_from(s, pat, 0)
}

pub open spec fn opt_int(o: Option<usize>) -> Option<int> {
    match o {
        Some(k) => Some(k as int),
        None => None,
    }
}

pub proof fn lemma_index_of(s: Seq<char>, c: char)
    ensures
        index_of(s, c) matches Some(k) ==> 0 <= k < s.len() && s[k] == c && forall|j: int|
            0 <= j < k ==> #[trigger] s[j] != c,
        index_of(s, c) is None ==> forall|j: int| 0 <= j < s.len() ==> #[trigger] s[j] != c,
{
    lemma_next_index_of(s, 0, c);
}

/// `index_of` is the unique first occurrence.
pub proof fn lemma_index_of_intro(s: Seq<char>, c: char, k: int)
    requires
        0 <= k <= s.len(),
        k < s.len() ==> s[k] == c,
        forall|j: int| 0 <= j < k ==> #[trigger] s[j] != c,
    ensures
        index_of(s, c) == (if k < s.len() { Some(k) } else { None::<int> }),
{
    lemma_next_index_of(s, 0, c);
    let n = next_index_of(s, 0, c);
    if n < k {
        assert(s[n] != c);
    } else if k < n {
        assert(s[k] != c);
    }
}

pub proof fn lemma_last_index_before(s: Seq<char>, c: char, n: int)
    requires
        0 <= n <= s.len(),
    ensures
        last_index_before(s, c, n) matches Some(k) ==> 0 <= k < n && s[k] == c && forall|j: int|
            k < j < n ==> #[trigger] s[j] != c,
        last_index_before(s, c, n) is None ==> forall|j: int| 0 <= j < n ==> #[trigger] s[j] != c,
    decreases n,
{
    if n > 0 && s[n - 1] != c {
        lemma_last_index_before(s, c, n - 1);
    }
}

pub fn index_of_exec(s: &[char], c: char) -> (r: Option<usize>)
    ensures
        opt_int(r) == index_of(s@, c),
{
    let k = next_index_of_exec(s, 0, c);
    if k < s.len() {
        Some(k)
    } else {
        None
    }
}

pub fn last_index_of_exec(s: &[char], c: char) -> (r: Option<usize>)
    ensures
        opt_int(r) == last_index_of(s@, c),
{
    let mut n = s.len();
    while n > 0 && s[n - 1] != c
        invariant
            n <= s@.len(),
            last_index_before(s@, c, n as int) == last_index_of(s@, c),
        decreases n,
    {
        n = n - 1;
    }
    if n == 0 {
        None
    } else {
        Some(n - 1)
    }
}

/// Whether `pat` occurs at position `i` of `s`, exactly.
pub fn seq_at_exec(s: &[char], i: usize, pat: &[char]) -> (b: bool)
    requires
        i + pat@.len() <= s@.len(),
    ensures
        b == (s@.subrange(i as int, i + pat@.len()) == pat@),
{
    let mut j: usize = 0;
    while j < pat.len()
        invariant
            i + pat@.len() <= s@.len(),
            s@.len() == s.len(),
            j <= pat@.len(),
            forall|k: int| 0 <= k < j ==> #[trigger] s@[i + k] == pat@[k],
        decreases pat.len() - j,
    {
        if s[i + j] != pat[j] {
            assert(s@.subrange(i as int, i + pat@.len())[j as int] != pat@[j as int]);
            return false;
        }
        j = j + 1;
    }
    assert forall|k: int| 0 <= k < pat@.len() implies s@.subrange(i as int, i + pat@.len())[k]
        == pat@[k] by {
        assert(s@[i + k] == pat@[k]);
    }
    assert(s@.subrange(i as int, i + pat@.len()) =~= pat@);
    true
}

pub fn index_of_seq_exec(s: &[char], pat: &[char]) -> (r: Option<usize>)
    ensures
        opt_int(r) == index_of_seq(s@, pat@),
{
    if pat.len() > s.len() {
        return None;
    }
    let last = s.len() - pat.len();
    let mut i: usize = 0;
    while i <= last
        invariant
            last + pat@.len() == s@.len(),
            i <= last + 1,
            index_of_seq_from(s@, pat@, i as int) == index_of_seq(s@, pat@),
        decreases last + 1 - i,
    {
        if seq_at_exec(s, i, pat) {
            return Some(i);
        }
        if i == last {
            assert(index_of_seq_from(s@, pat@, (i + 1) as int) is None);
            return None;
        }
        i = i + 1;
    }
    None
}

/// `s[from..to]` as a new vector.
pub fn sub_vec(s: &[char], from: usize, to: usize) -> (r: Vec<char>)
    requires
        from <= to <= s@.len(),
    ensures
        r@ == s@.subrange(from as int, to as int),
{
    let mut r: Vec<char> = Vec::new();
    let mut i = from;
    while i < to
        invariant
            from <= i <= to <= s@.len(),
            r@ == s@.subrange(from as int, i as int),
        decreases to - i,
    {
        r.push(s[i]);
        i = i + 1;
        assert(r@ =~= s@.subrange(from as int, i as int));
    }
    r
}

// ── Decimal numbers ─────────────────────────────────────────────────────────

/// The value of an ASCII digit.
pub open spec fn digit_value(c: char) -> nat {
    ((c as u32) - ('0' as u32)) as nat
}

/// The value of a string of ASCII digits, most significant first.
pub open spec fn digits_value(s: Seq<char>) -> nat
    decreases s.len(),
{
    if s.len() == 0 {
        0
    } else {
        digits_value(s.drop_last()) * 10 + digit_value(s.last())
    }
}

pub open spec fn all_ascii_digits(s: Seq<char>) -> bool {
    forall|i: int| 0 <= i < s.len() ==> is_ascii_digit(#[trigger] s[i])
}

/// `u32::from_str` applied to a run of decimal digits: it succeeds when every
/// digit is an ASCII digit and the value fits in a `u32`.
pub open spec fn parse_u32_digits(s: Seq<char>) -> Option<u32> {
    if s.len() > 0 && all_ascii_digits(s) && digits_value(s) <= u32::MAX {
        Some(digits_value(s) as u32)
    } else {
        None
    }
}

/// The ASCII digit for `d < 10`.
pub open spec fn digit_char(d: nat) -> char {
    if d == 0 {
        '0'
    } else if d == 1 {
        '1'
    } else if d == 2 {
        '2'
    } else if d == 3 {
        '3'
    } else if d == 4 {
        '4'
    } else if d == 5 {
        '5'
    } else if d == 6 {
        '6'
    } else if d == 7 {
        '7'
    } else if d == 8 {
        '8'
    } else {
        '9'
    }
}

/// The decimal representation of `n`, as `Display` writes an unsigned integer.
pub open spec fn decimal(n: nat) -> Seq<char>
    decreases n,
{
    if n < 10 {
        seq![digit_char(n)]
    } else {
        decimal(n / 10).push(digit_char(n % 10))
    }
}

pub proof fn lemma_digits_value_monotone(s: Seq<char>, k: int)
    requires
        0 <= k <= s.len(),
    ensures
        digits_value(s.take(k)) <= digits_value(s),
    decreases s.len(),
{
    if k < s.len() {
        assert(s.drop_last().take(k) =~= s.take(k));
        lemma_digits_value_monotone(s.drop_last(), k);
    } else {
        assert(s.take(k) =~= s);
    }
}

pub proof fn lemma_digits_value_step(s: Seq<char>, k: int)
    requires
        0 <= k < s.len(),
    ensures
        digits_value(s.take(k + 1)) == digits_value(s.take(k)) * 10 + digit_value(s[k]),
{
    assert(s.take(k + 1).drop_last() =~= s.take(k));
}

fn digit_of(c: char) -> (d: u64)
    requires
        is_ascii_digit(c),
    ensures
        d == digit_value(c),
        d < 10,
{
    ((c as u32) - ('0' as u32)) as u64
}

/// `u32::from_str` on a run of decimal digits.
pub fn parse_u32_digits_exec(s: &[char]) -> (r: Option<u32>)
    ensures
        r == parse_u32_digits(s@),
{
    if s.len() == 0 {
        return None;
    }
    let mut i: usize = 0;
    while i < s.len()
        invariant
            i <= s@.len(),
            forall|k: int| 0 <= k < i ==> is_ascii_digit(#[trigger] s@[k]),
        decreases s.len() - i,
    {
        if !('0' <= s[i] && s[i] <= '9') {
            return None;
        }
        i = i + 1;
    }
    let mut acc: u64 = 0;
    let mut j: usize = 0;
    while j < s.len()
        invariant
            j <= s@.len(),
            all_ascii_digits(s@),
            acc == digits_value(s@.take(j as int)),
            acc <= u32::MAX,
        decreases s.len() - j,
    {
        proof {
            lemma_digits_value_step(s@, j as int);
        }
        let d = digit_of(s[j]);
        acc = acc * 10 + d;
        j = j + 1;
        if acc > 0xffff_ffff {
            proof {
                lemma_digits_value_monotone(s@, j as int);
            }
            return None;
        }
    }
    assert(s@.take(s@.len() as int) =~= s@);
    Some(acc as u32)
}

fn digit_char_exec(d: u64) -> (c: char)
    requires
        d < 10,
    ensures
        c == digit_char(d as nat),
{
    if d == 0 {
        '0'
    } else if d == 1 {
        '1'
    } else if d == 2 {
        '2'
    } else if d == 3 {
        '3'
    } else if d == 4 {
        '4'
    } else if d == 5 {
        '5'
    } else if d == 6 {
        '6'
    } else if d == 7 {
        '7'
    } else if d == 8 {
        '8'
    } else {
        '9'
    }
}

/// Appends the decimal representation of `n` to `s`.
pub fn push_decimal(s: &mut String, n: u64)
    ensures
        final(s)@ == old(s)@ + decimal(n as nat),
    decreases n,
{
    if n >= 10 {
        push_decimal(s, n / 10);
    }
    s.push(digit_char_exec(n % 10));
    assert(final(s)@ =~= old(s)@ + decimal(n as nat));
}


// ── UTF-8 ───────────────────────────────────────────────────────────────────

/// The UTF-8 encoding of a concatenation is the concatenation of encodings.
pub proof fn lemma_encode_utf8_concat(a: Seq<char>, b: Seq<char>)
    ensures
        vstd::utf8::encode_utf8(a + b) == vstd::utf8::encode_utf8(a) + vstd::utf8::encode_utf8(b),
    decreases a.len(),
{
    if a.len() == 0 {
        assert(a + b =~= b);
        assert(vstd::utf8::encode_utf8(a) =~= Seq::<u8>::empty());
        assert(vstd::utf8::encode_utf8(a) + vstd::utf8::encode_utf8(b) =~= vstd::utf8::encode_utf8(b));
    } else {
        assert((a + b).drop_first() =~= a.drop_first() + b);
        assert((a + b)[0] == a[0]);
        lemma_encode_utf8_concat(a.drop_first(), b);
        assert(vstd::utf8::encode_utf8(a + b) =~= vstd::utf8::encode_utf8(a) + vstd::utf8::encode_utf8(b));
    }
}


/// `s` followed by the characters of `t`.
pub fn push_str(s: &mut String, t: &str)
    ensures
        final(s)@ == old(s)@ + t@,
{
    let v = str_chars(t);
    push_chars(s, &v);
}

/// The end of `s` once trailing white space is removed from its first `n`
/// characters.
pub open spec fn trim_end_from(s: Seq<char>, n: int) -> int
    decreases n,
{
    if n > 0 && is_white_space(s[n - 1]) {
        trim_end_from(s, n - 1)
    } else {
        n
    }
}

/// `str::trim`: `s` without leading and trailing Unicode white space.
pub open spec fn trim(s: Seq<char>) -> Seq<char> {
    let a = skip_ws(s, 0);
    let b = trim_end_from(s, s.len() as int);
    if a < b {
        s.subrange(a, b)
    } else {
        Seq::empty()
    }
}

/// `s.trim()`, owned.
pub fn trim_exec(s: &str) -> (r: String)
    ensures
        r@ == trim(s@),
{
    let v = str_chars(s);
    let a = skip_ws_exec(&v, 0);
    let mut b = v.len();
    while b > 0 && is_white_space_exec(v[b - 1])
        invariant
            b <= v@.len(),
            trim_end_from(v@, b as int) == trim_end_from(v@, v@.len() as int),
        decreases b,
    {
        b = b - 1;
    }
    if a < b {
        string_from_range(&v, a, b)
    } else {
        String::new()
    }
}

proof fn lemma_trim_end_from_intro(s: Seq<char>, k: int, n: int)
    requires
        0 <= k <= n <= s.len(),
        forall|j: int| k <= j < n ==> is_white_space(#[trigger] s[j]),
        k == 0 || !is_white_space(s[k - 1]),
    ensures
        trim_end_from(s, n) == k,
    decreases n - k,
{
    if k < n {
        lemma_trim_end_from_intro(s, k, n - 1);
    }
}

/// `trim` removes exactly the white space around a text: for white-space
/// runs `w1` and `w2` and a text `x` that neither begins nor ends with white
/// space, `trim(w1 + x + w2)` is `x`.
pub proof fn law_trim_strips_surrounding_space(w1: Seq<char>, x: Seq<char>, w2: Seq<char>)
    requires
        is_ws_run(w1),
        is_ws_run(w2),
        x.len() > 0 ==> !is_white_space(x[0]) && !is_white_space(x[x.len() - 1]),
    ensures
        trim(w1 + x + w2) == x,
{
    let s = w1 + x + w2;
    let a = w1.len() as int;
    let b = a + x.len();
    if x.len() > 0 {
        assert forall|j: int| 0 <= j < a implies is_white_space(#[trigger] s[j]) by {
            assert(s[j] == w1[j]);
        }
        assert(s[a] == x[0]);
        lemma_skip_ws_intro(s, 0, a);
        assert forall|j: int| b <= j < s.len() implies is_white_space(#[trigger] s[j]) by {
            assert(s[j] == w2[j - b]);
        }
        assert(s[b - 1] == x[x.len() - 1]);
        lemma_trim_end_from_intro(s, b, s.len() as int);
        assert(s.subrange(a, b) =~= x);
    } else {
        assert forall|j: int| 0 <= j < s.len() implies is_white_space(#[trigger] s[j]) by {
            if j < a {
                assert(s[j] == w1[j]);
            } else {
                assert(s[j] == w2[j - a]);
            }
        }
        lemma_skip_ws_intro(s, 0, s.len() as int);
        lemma_trim_end_from_intro(s, 0, s.len() as int);
    }
}

/// `decimal` writes a number so that it reads back: a non-empty run of ASCII
/// digits, without a leading zero, whose value is the number.
pub proof fn law_decimal_reads_back(n: nat)
    ensures
        decimal(n).len() > 0,
        all_ascii_digits(decimal(n)),
        digits_value(decimal(n)) == n,
        n > 0 ==> decimal(n)[0] != '0',
    decreases n,
{
    let s = decimal(n);
    if n < 10 {
        assert(s.drop_last() =~= Seq::<char>::empty());
        assert(s.last() == digit_char(n));
        assert(digit_value(digit_char(n)) == n);
        assert(digits_value(s.drop_last()) == 0);
        assert(digits_value(s) == digits_value(s.drop_last()) * 10 + digit_value(s.last()));
    } else {
        law_decimal_reads_back(n / 10);
        let r = decimal(n / 10);
        assert(s.drop_last() =~= r);
        assert(s.last() == digit_char(n % 10));
        assert(digit_value(digit_char(n % 10)) == n % 10);
        assert(is_ascii_digit(digit_char(n % 10)));
        assert(s[0] == r[0]);
        assert forall|i: int| 0 <= i < s.len() implies is_ascii_digit(#[trigger] s[i]) by {
            if i < r.len() {
                assert(s[i] == r[i]);
            }
        }
        assert(digits_value(s) == digits_value(r) * 10 + digit_value(s.last()));
        assert(n == (n / 10) * 10 + n % 10);
    }
}

} // verus!
