//! Human-readable sizes: `([0-9]+(?:\.[0-9]+)?)\s*(B|KB|MB|GB|TB)\b`, matched
//! case-insensitively, read as a decimal number of bytes, KiB, MiB, GiB or
//! TiB and rounded to the nearest byte (halves away from zero).
use vstd::prelude::*;
use crate::text::{
    all_ascii_digits, ascii_digit_run_end, ascii_digit_run_end_exec, digit_value, digits_value,
    eq_ascii_ci, eq_ascii_ci_exec, fold_lit_at, fold_lit_at_exec, is_ascii_alnum, is_ascii_digit,
    lemma_ascii_digit_run_end, lemma_digits_value_monotone, lemma_digits_value_step,
    lemma_skip_ws, lemma_skip_ws_intro, is_ws_run, skip_ws, skip_ws_exec, str_chars, sub_vec,
};

verus! {

/// Whether a character is a word character in the sense of `\w` and `\b` of
/// the `regex` crate (Unicode: `Alphabetic`, `Join_Control`, `Decimal_Number`,
/// `Mark` or `Connector_Punctuation`).
pub uninterp spec fn is_word_character(c: char) -> bool;

/// Calls `regex_syntax::is_word_character`, the Unicode word-character test
/// behind `\b`. The contract names its result, and states what its source
/// shows for ASCII: the word characters there are `[_0-9a-zA-Z]`. The
/// function panics only when the crate's `unicode-perl` feature is off, and
/// it is on by default.
#[verifier::external_body]
fn word_character(c: char) -> (b: bool)
    ensures
        b == is_word_character(c),
        (c as u32) < 128 ==> (b <==> (is_ascii_alnum(c) || c == '_')),
{
    regex_syntax::is_word_character(c)
}

// ── The size grammar ────────────────────────────────────────────────────────

pub open spec fn b_lit() -> Seq<char> {
    seq!['b']
}

pub open spec fn kb_lit() -> Seq<char> {
    seq!['k', 'b']
}

pub open spec fn mb_lit() -> Seq<char> {
    seq!['m', 'b']
}

pub open spec fn gb_lit() -> Seq<char> {
    seq!['g', 'b']
}

pub open spec fn tb_lit() -> Seq<char> {
    seq!['t', 'b']
}

/// The length of the unit `B|KB|MB|GB|TB` at `u` (0 when there is none).
pub open spec fn unit_len_at(t: Seq<char>, u: int) -> int {
    if fold_lit_at(t, u, b_lit()) {
        1
    } else if fold_lit_at(t, u, kb_lit()) || fold_lit_at(t, u, mb_lit()) || fold_lit_at(
        t,
        u,
        gb_lit(),
    ) || fold_lit_at(t, u, tb_lit()) {
        2
    } else {
        0
    }
}

/// The end of the number that starts with the ASCII digits `t[i..a]`: after
/// its fraction when a `.` and at least one digit follow.
pub open spec fn number_end(t: Seq<char>, a: int) -> int {
    if 0 <= a < t.len() && t[a] == '.' && ascii_digit_run_end(t, a + 1) > a + 1 {
        ascii_digit_run_end(t, a + 1)
    } else {
        a
    }
}

/// A match of the size pattern at `i`: `(i, a, n, u, e)` where `t[i..a]` are
/// the integer digits, `t[i..n]` the number and `t[u..e]` the unit.
pub open spec fn size_value_at(t: Seq<char>, i: int) -> Option<(int, int, int, int, int)> {
    let a = ascii_digit_run_end(t, i);
    let n = number_end(t, a);
    let u = skip_ws(t, n);
    let l = unit_len_at(t, u);
    if 0 <= i && a > i && l > 0 && (u + l == t.len() || !is_word_character(t[u + l])) {
        Some((i, a, n, u, u + l))
    } else {
        None
    }
}

/// The leftmost match of the size pattern at or after `i`.
pub open spec fn first_size_value_from(t: Seq<char>, i: int) -> Option<(int, int, int, int, int)>
    decreases t.len() + 1 - i,
{
    if i < 0 || i > t.len() {
        None
    } else if size_value_at(t, i) is Some {
        size_value_at(t, i)
    } else {
        first_size_value_from(t, i + 1)
    }
}

// ── The value ───────────────────────────────────────────────────────────────

pub open spec fn pow10(d: nat) -> nat
    decreases d,
{
    if d == 0 {
        1
    } else {
        10 * pow10((d - 1) as nat)
    }
}

/// The number of bytes in one unit, for a unit equal (ignoring ASCII case) to
/// `B`, `KB`, `MB`, `GB` or `TB`.
pub open spec fn unit_multiplier(unit: Seq<char>) -> Option<nat> {
    if eq_ascii_ci(unit, b_lit()) {
        Some(1)
    } else if eq_ascii_ci(unit, kb_lit()) {
        Some(1024)
    } else if eq_ascii_ci(unit, mb_lit()) {
        Some(1048576)
    } else if eq_ascii_ci(unit, gb_lit()) {
        Some(1073741824)
    } else if eq_ascii_ci(unit, tb_lit()) {
        Some(1099511627776)
    } else {
        None
    }
}

/// `(I + F / 10^d) * m` rounded to the nearest integer, halves up, for the
/// integer digits `I` and the `d` fraction digits `F`.
pub open spec fn scaled_rounded(int_digits: Seq<char>, frac_digits: Seq<char>, m: nat) -> nat {
    let den = pow10(frac_digits.len());
    let f = digits_value(frac_digits) * m;
    digits_value(int_digits) * m + f / den + (if 2 * (f % den) >= den {
        1nat
    } else {
        0nat
    })
}

pub open spec fn saturate_u64(n: nat) -> u64 {
    if n > u64::MAX {
        u64::MAX
    } else {
        n as u64
    }
}

/// The fraction digits of a number whose integer digits end at `a` and which
/// ends at `n`.
pub open spec fn fraction_digits(t: Seq<char>, a: int, n: int) -> Seq<char> {
    if n > a {
        t.subrange(a + 1, n)
    } else {
        Seq::empty()
    }
}

/// The number of bytes that the leftmost size in `t` denotes, saturated at
/// `u64::MAX`; `None` when there is no size or its unit, compared ignoring
/// ASCII case only, is not one of the five units.
pub open spec fn spec_parse_size_bytes(t: Seq<char>) -> Option<u64> {
    match first_size_value_from(t, 0) {
        None => None,
        Some((i, a, n, u, e)) => match unit_multiplier(t.subrange(u, e)) {
            None => None,
            Some(m) => Some(
                saturate_u64(scaled_rounded(t.subrange(i, a), fraction_digits(t, a, n), m)),
            ),
        },
    }
}


// ── Matching ────────────────────────────────────────────────────────────────

proof fn lemma_size_value_at_bounds(t: Seq<char>, i: int)
    ensures
        size_value_at(t, i) matches Some((i0, a, n, u, e)) ==> {
            &&& i0 == i
            &&& 0 <= i < a <= n <= u < e <= t.len()
            &&& all_ascii_digits(t.subrange(i, a))
            &&& n > a ==> n > a + 1 && t[a] == '.' && all_ascii_digits(t.subrange(a + 1, n))
        },
{
    if 0 <= i <= t.len() {
        let a = ascii_digit_run_end(t, i);
        lemma_ascii_digit_run_end(t, i);
        let n = number_end(t, a);
        if 0 <= a < t.len() && t[a] == '.' {
            lemma_ascii_digit_run_end(t, a + 1);
        }
        let u = skip_ws(t, n);
        lemma_skip_ws(t, n);
        assert forall|k: int| 0 <= k < a - i implies is_ascii_digit(
            #[trigger] t.subrange(i, a)[k],
        ) by {
            assert(t.subrange(i, a)[k] == t[i + k]);
        }
        if n > a {
            assert forall|k: int| 0 <= k < n - (a + 1) implies is_ascii_digit(
                #[trigger] t.subrange(a + 1, n)[k],
            ) by {
                assert(t.subrange(a + 1, n)[k] == t[a + 1 + k]);
            }
        }
    }
}

proof fn lemma_first_size_value_bounds(t: Seq<char>, i: int)
    ensures
        first_size_value_from(t, i) matches Some((i0, a, n, u, e)) ==> {
            &&& 0 <= i0 < a <= n <= u < e <= t.len()
            &&& all_ascii_digits(t.subrange(i0, a))
            &&& n > a ==> n > a + 1 && t[a] == '.' && all_ascii_digits(t.subrange(a + 1, n))
        },
    decreases t.len() + 1 - i,
{
    if !(i < 0 || i > t.len()) {
        lemma_size_value_at_bounds(t, i);
        if size_value_at(t, i) is None {
            lemma_first_size_value_bounds(t, i + 1);
        }
    }
}

pub open spec fn opt_match(o: Option<(usize, usize, usize, usize, usize)>) -> Option<
    (int, int, int, int, int),
> {
    match o {
        Some((i, a, n, u, e)) => Some((i as int, a as int, n as int, u as int, e as int)),
        None => None,
    }
}

/// Literals of the unit alternatives.
struct UnitLits {
    b: Vec<char>,
    kb: Vec<char>,
    mb: Vec<char>,
    gb: Vec<char>,
    tb: Vec<char>,
}

impl UnitLits {
    spec fn wf(&self) -> bool {
        &&& self.b@ == b_lit()
        &&& self.kb@ == kb_lit()
        &&& self.mb@ == mb_lit()
        &&& self.gb@ == gb_lit()
        &&& self.tb@ == tb_lit()
    }

    fn new() -> (r: UnitLits)
        ensures
            r.wf(),
    {
        let r = UnitLits {
            b: vec!['b'],
            kb: vec!['k', 'b'],
            mb: vec!['m', 'b'],
            gb: vec!['g', 'b'],
            tb: vec!['t', 'b'],
        };
        assert(r.b@ =~= b_lit());
        assert(r.kb@ =~= kb_lit());
        assert(r.mb@ =~= mb_lit());
        assert(r.gb@ =~= gb_lit());
        assert(r.tb@ =~= tb_lit());
        r
    }
}

fn unit_len_at_exec(t: &[char], u: usize, lits: &UnitLits) -> (l: usize)
    requires
        lits.wf(),
    ensures
        l == unit_len_at(t@, u as int),
{
    if fold_lit_at_exec(t, u, &lits.b) {
        1
    } else if fold_lit_at_exec(t, u, &lits.kb) || fold_lit_at_exec(t, u, &lits.mb)
        || fold_lit_at_exec(t, u, &lits.gb) || fold_lit_at_exec(t, u, &lits.tb) {
        2
    } else {
        0
    }
}

fn size_value_at_exec(t: &[char], i: usize, lits: &UnitLits) -> (r: Option<
    (usize, usize, usize, usize, usize),
>)
    requires
        lits.wf(),
        i <= t@.len(),
    ensures
        opt_match(r) == size_value_at(t@, i as int),
{
    assert(t@.len() == t.len());
    let a = ascii_digit_run_end_exec(t, i);
    let mut n = a;
    if a < t.len() && t[a] == '.' {
        let f = ascii_digit_run_end_exec(t, a + 1);
        if f > a + 1 {
            n = f;
        }
    }
    let u = skip_ws_exec(t, n);
    let l = unit_len_at_exec(t, u, lits);
    if a > i && l > 0 && (u + l == t.len() || !word_character(t[u + l])) {
        Some((i, a, n, u, u + l))
    } else {
        None
    }
}

fn first_size_value(t: &[char]) -> (r: Option<(usize, usize, usize, usize, usize)>)
    ensures
        opt_match(r) == first_size_value_from(t@, 0),
{
    let lits = UnitLits::new();
    let mut i: usize = 0;
    loop
        invariant
            i <= t@.len(),
            lits.wf(),
            first_size_value_from(t@, i as int) == first_size_value_from(t@, 0),
        decreases t@.len() - i,
    {
        if let Some(r) = size_value_at_exec(t, i, &lits) {
            return Some(r);
        }
        if i == t.len() {
            assert(first_size_value_from(t@, i + 1) is None);
            return None;
        }
        i = i + 1;
    }
}


// ── Arithmetic ──────────────────────────────────────────────────────────────

proof fn lemma_digits_value_prepend(f: char, s: Seq<char>)
    ensures
        digits_value(seq![f] + s) == digit_value(f) * pow10(s.len()) + digits_value(s),
    decreases s.len(),
{
    let fs = seq![f] + s;
    if s.len() == 0 {
        assert(fs.drop_last() =~= Seq::<char>::empty());
        assert(fs.last() == f);
        assert(digits_value(Seq::<char>::empty()) == 0);
        assert(digits_value(fs) == digits_value(fs.drop_last()) * 10 + digit_value(f));
        assert(s =~= Seq::<char>::empty());
        assert(pow10(s.len()) == 1);
        assert(digits_value(fs) == digit_value(f) * pow10(s.len()) + digits_value(s));
    } else {
        assert(fs.drop_last() =~= seq![f] + s.drop_last());
        assert(fs.last() == s.last());
        lemma_digits_value_prepend(f, s.drop_last());
        let a = digit_value(f);
        let p = pow10((s.len() - 1) as nat);
        let b = digits_value(s.drop_last());
        let l = digit_value(s.last());
        assert((a * p + b) * 10 + l == a * (10 * p) + (b * 10 + l)) by (nonlinear_arith);
        assert(digits_value(fs) == digits_value(fs.drop_last()) * 10 + digit_value(fs.last()));
        assert(digits_value(s) == b * 10 + l);
        assert(pow10(s.len()) == 10 * p);
        assert(digits_value(fs.drop_last()) == a * p + b);
        assert(digits_value(fs) == digit_value(f) * pow10(s.len()) + digits_value(s));
    }
}

proof fn lemma_pow10_positive(d: nat)
    ensures
        pow10(d) >= 1,
    decreases d,
{
    if d > 0 {
        lemma_pow10_positive((d - 1) as nat);
    }
}

proof fn lemma_carry_step(
    c: int,
    g: int,
    dvs: int,
    m: int,
    p: int,
    d: int,
    x: int,
    c2: int,
    lead2: int,
)
    requires
        c * p + g == dvs * m,
        x == d * m + c,
        x == 10 * c2 + lead2,
        0 <= g < p,
        0 <= lead2 < 10,
    ensures
        c2 * (10 * p) + (lead2 * p + g) == (d * p + dvs) * m,
        lead2 * p <= lead2 * p + g < (lead2 + 1) * p,
        lead2 * p + g < 10 * p,
{
    assert(c2 * (10 * p) + (lead2 * p + g) == (10 * c2 + lead2) * p + g) by (nonlinear_arith);
    assert((d * m + c) * p + g == (d * p + dvs) * m) by (nonlinear_arith)
        requires
            c * p + g == dvs * m,
    ;
    assert(lead2 * p + g < (lead2 + 1) * p) by (nonlinear_arith)
        requires
            g < p,
    ;
    assert((lead2 + 1) * p <= 10 * p) by (nonlinear_arith)
        requires
            lead2 < 10,
            p > 0,
    ;
}

proof fn lemma_round_digit(g: int, lead: int, p: int)
    requires
        p >= 1,
        0 <= lead < 10,
        lead * p <= g < (lead + 1) * p,
    ensures
        (2 * g >= 10 * p) <==> lead >= 5,
{
    if lead >= 5 {
        assert(lead * p >= 5 * p) by (nonlinear_arith)
            requires
                lead >= 5,
                p >= 1,
        ;
    } else {
        assert((lead + 1) * p <= 5 * p) by (nonlinear_arith)
            requires
                lead <= 4,
                p >= 1,
        ;
    }
}

/// The quotient and remainder of `F * m / 10^d` as a carry `c` and the first
/// digit of the remainder, computed from the last digit to the first.
fn fraction_scaled(frac: &[char], m: u64) -> (r: (u64, bool))
    requires
        all_ascii_digits(frac@),
        1 <= m <= 1099511627776,
    ensures
        r.0 as nat == (digits_value(frac@) * (m as nat)) / pow10(frac@.len()),
        r.1 <==> 2 * ((digits_value(frac@) * (m as nat)) % pow10(frac@.len())) >= pow10(
            frac@.len(),
        ),
        r.0 <= m,
{
    let d = frac.len();
    let mut c: u64 = 0;
    let mut lead: u64 = 0;
    let ghost mut g: nat = 0;
    let mut k: usize = d;
    assert(frac@.subrange(d as int, d as int) =~= Seq::<char>::empty());
    while k > 0
        invariant
            k <= d,
            d == frac@.len(),
            all_ascii_digits(frac@),
            1 <= m <= 1099511627776,
            c <= m,
            c as nat * pow10((d - k) as nat) + g == digits_value(frac@.subrange(k as int, d as int))
                * m,
            g < pow10((d - k) as nat),
            k < d ==> lead < 10 && lead * pow10((d - k - 1) as nat) <= g < (lead + 1) * pow10(
                (d - k - 1) as nat,
            ),
        decreases k,
    {
        let ghost s_old = frac@.subrange(k as int, d as int);
        let ghost p = pow10((d - k) as nat);
        proof {
            lemma_pow10_positive((d - k) as nat);
        }
        let ch = frac[k - 1];
        assert(is_ascii_digit(frac@[k - 1]));
        let dg = ((ch as u32) - ('0' as u32)) as u64;
        assert(dg <= 9);
        assert(dg * m <= 9 * m) by (nonlinear_arith)
            requires
                dg <= 9,
                m >= 1,
        ;
        let x = dg * m + c;
        let c2 = x / 10;
        let lead2 = x % 10;
        proof {
            lemma_carry_step(
                c as int,
                g as int,
                digits_value(s_old) as int,
                m as int,
                p as int,
                dg as int,
                x as int,
                c2 as int,
                lead2 as int,
            );
            let s_new = frac@.subrange(k - 1, d as int);
            assert(s_new =~= seq![frac@[k - 1]] + s_old);
            lemma_digits_value_prepend(frac@[k - 1], s_old);
            assert(pow10((d - (k - 1)) as nat) == 10 * p);
            assert(((d - (k - 1)) - 1) as nat == (d - k) as nat);
            g = (lead2 * p + g) as nat;
        }
        c = c2;
        lead = lead2;
        k = k - 1;
    }
    assert(frac@.subrange(0, d as int) =~= frac@);
    proof {
        lemma_pow10_positive(d as nat);
        vstd::arithmetic::div_mod::lemma_fundamental_div_mod_converse(
            (digits_value(frac@) * m) as int,
            pow10(d as nat) as int,
            c as int,
            g as int,
        );
        if d > 0 {
            lemma_pow10_positive((d - 1) as nat);
            lemma_round_digit(g as int, lead as int, pow10((d - 1) as nat) as int);
        }
    }
    (c, d > 0 && lead >= 5)
}


/// `saturate_u64(scaled_rounded(int_digits, frac, m))`.
fn scaled_rounded_exec(int_digits: &[char], frac: &[char], m: u64) -> (r: u64)
    requires
        all_ascii_digits(int_digits@),
        all_ascii_digits(frac@),
        1 <= m <= 1099511627776,
    ensures
        r == saturate_u64(scaled_rounded(int_digits@, frac@, m as nat)),
{
    let mut acc: u128 = 0;
    let mut j: usize = 0;
    while j < int_digits.len()
        invariant
            j <= int_digits@.len(),
            all_ascii_digits(int_digits@),
            1 <= m <= 1099511627776,
            all_ascii_digits(frac@),
            acc == digits_value(int_digits@.take(j as int)),
            acc <= u64::MAX,
        decreases int_digits.len() - j,
    {
        proof {
            lemma_digits_value_step(int_digits@, j as int);
        }
        assert(is_ascii_digit(int_digits@[j as int]));
        let dg = ((int_digits[j] as u32) - ('0' as u32)) as u128;
        acc = acc * 10 + dg;
        j = j + 1;
        if acc > 0xffff_ffff_ffff_ffff {
            proof {
                lemma_digits_value_monotone(int_digits@, j as int);
                let iv = digits_value(int_digits@);
                assert(iv * (m as nat) >= iv) by (nonlinear_arith)
                    requires
                        m >= 1,
                ;
                assert(iv >= acc);
                let den = pow10(frac@.len());
                let f = digits_value(frac@) * (m as nat);
                lemma_pow10_positive(frac@.len());
                let q: nat = f / den;
                assert(scaled_rounded(int_digits@, frac@, m as nat) >= iv * (m as nat) + q);
                assert(q >= 0);
                assert(acc > u64::MAX);
                assert(scaled_rounded(int_digits@, frac@, m as nat) > u64::MAX);
            }
            return 0xffff_ffff_ffff_ffff;
        }
    }
    assert(int_digits@.take(int_digits@.len() as int) =~= int_digits@);
    let (q, up) = fraction_scaled(frac, m);
    assert(acc * (m as u128) <= 0xffff_ffff_ffff_ffff * 1099511627776) by (nonlinear_arith)
        requires
            acc <= 0xffff_ffff_ffff_ffff,
            m <= 1099511627776,
    ;
    let total: u128 = acc * (m as u128) + (q as u128) + (if up {
        1
    } else {
        0
    });
    if total > 0xffff_ffff_ffff_ffff {
        0xffff_ffff_ffff_ffff
    } else {
        total as u64
    }
}

fn unit_multiplier_exec(unit: &[char], lits: &UnitLits) -> (m: Option<u64>)
    requires
        lits.wf(),
    ensures
        match m {
            Some(v) => unit_multiplier(unit@) == Some(v as nat),
            None => unit_multiplier(unit@) is None,
        },
{
    if eq_ascii_ci_exec(unit, &lits.b) {
        Some(1)
    } else if eq_ascii_ci_exec(unit, &lits.kb) {
        Some(1024)
    } else if eq_ascii_ci_exec(unit, &lits.mb) {
        Some(1048576)
    } else if eq_ascii_ci_exec(unit, &lits.gb) {
        Some(1073741824)
    } else if eq_ascii_ci_exec(unit, &lits.tb) {
        Some(1099511627776)
    } else {
        None
    }
}

/// The number of bytes that the leftmost size in `t` denotes.
pub fn parse_size_chars(t: &[char]) -> (r: Option<u64>)
    ensures
        r == spec_parse_size_bytes(t@),
{
    let (i, a, n, u, e) = match first_size_value(t) {
        Some(found) => found,
        None => return None,
    };
    proof {
        lemma_first_size_value_bounds(t@, 0);
    }
    let lits = UnitLits::new();
    let unit = sub_vec(t, u, e);
    let m = match unit_multiplier_exec(&unit, &lits) {
        Some(m) => m,
        None => return None,
    };
    let int_digits = sub_vec(t, i, a);
    let frac = if n > a {
        sub_vec(t, a + 1, n)
    } else {
        Vec::new()
    };
    assert(frac@ =~= fraction_digits(t@, a as int, n as int));
    Some(scaled_rounded_exec(&int_digits, &frac, m))
}


// ── Laws ────────────────────────────────────────────────────────────────────

/// A plain size: the integer digits, then `.` and the fraction digits when
/// there are any, a space and the unit.
pub open spec fn plain_size(int_digits: Seq<char>, frac_digits: Seq<char>, unit: Seq<char>) -> Seq<
    char,
> {
    if frac_digits.len() == 0 {
        int_digits + seq![' '] + unit
    } else {
        int_digits + seq!['.'] + frac_digits + seq![' '] + unit
    }
}

proof fn lemma_ascii_digit_run_end_intro(t: Seq<char>, i: int, e: int)
    requires
        0 <= i <= e <= t.len(),
        forall|j: int| i <= j < e ==> is_ascii_digit(#[trigger] t[j]),
        e == t.len() || !is_ascii_digit(t[e]),
    ensures
        ascii_digit_run_end(t, i) == e,
    decreases e - i,
{
    if i < e {
        lemma_ascii_digit_run_end_intro(t, i + 1, e);
    }
}

/// The unit at `u` of `t` when `t` ends with a unit `unit`.
proof fn lemma_unit_at_end(t: Seq<char>, u: int, unit: Seq<char>)
    requires
        0 <= u,
        u + unit.len() == t.len(),
        t.subrange(u, t.len() as int) == unit,
        unit_multiplier(unit) is Some,
    ensures
        unit_len_at(t, u) == unit.len(),
{
    assert forall|j: int| 0 <= j < unit.len() implies t[u + j] == #[trigger] unit[j] by {
        assert(t.subrange(u, t.len() as int)[j] == t[u + j]);
    }
    if eq_ascii_ci(unit, b_lit()) {
        assert(crate::text::ascii_ci_eq(unit[0int + 0int], b_lit()[0]));
        assert(fold_lit_at(t, u, b_lit()));
    } else {
        let lit = if eq_ascii_ci(unit, kb_lit()) {
            kb_lit()
        } else if eq_ascii_ci(unit, mb_lit()) {
            mb_lit()
        } else if eq_ascii_ci(unit, gb_lit()) {
            gb_lit()
        } else {
            tb_lit()
        };
        assert(eq_ascii_ci(unit, lit));
        assert(crate::text::ascii_ci_eq(unit[0int + 0int], lit[0]));
        assert(crate::text::ascii_ci_eq(unit[0int + 1int], lit[1]));
        assert(!fold_lit_at(t, u, b_lit())) by {
            assert(!crate::text::fold_eq(t[u + 0], b_lit()[0]));
        }
        assert(fold_lit_at(t, u, lit));
    }
}

/// A size written as digits, an optional fraction, a space and one of the
/// units `B`, `KB`, `MB`, `GB` or `TB` (any ASCII case) is the decimal value
/// times the unit's power of 1024, rounded to the nearest byte with halves
/// rounded up, saturated at `u64::MAX`.
pub proof fn law_plain_size_value(int_digits: Seq<char>, frac_digits: Seq<char>, unit: Seq<char>)
    requires
        int_digits.len() > 0,
        all_ascii_digits(int_digits),
        all_ascii_digits(frac_digits),
        unit_multiplier(unit) is Some,
    ensures
        spec_parse_size_bytes(plain_size(int_digits, frac_digits, unit)) == Some(
            saturate_u64(scaled_rounded(int_digits, frac_digits, unit_multiplier(unit)->0)),
        ),
{
    let t = plain_size(int_digits, frac_digits, unit);
    let a = int_digits.len() as int;
    let n = if frac_digits.len() == 0 {
        a
    } else {
        a + 1 + frac_digits.len()
    };
    let u = n + 1;
    assert(t.len() == u + unit.len());
    assert forall|j: int| 0 <= j < a implies is_ascii_digit(#[trigger] t[j]) by {
        assert(t[j] == int_digits[j]);
    }
    lemma_ascii_digit_run_end_intro(t, 0, a);
    if frac_digits.len() > 0 {
        assert(t[a] == '.');
        assert forall|j: int| a + 1 <= j < n implies is_ascii_digit(#[trigger] t[j]) by {
            assert(t[j] == frac_digits[j - a - 1]);
        }
        assert(t[n] == ' ');
        lemma_ascii_digit_run_end_intro(t, a + 1, n);
        assert(t.subrange(a + 1, n) =~= frac_digits);
        assert(n == a + 1 + frac_digits.len());
        assert(number_end(t, a) == n);
    } else {
        assert(t[a] == ' ');
    }
    assert(number_end(t, a) == n);
    assert(t[n] == ' ');
    assert(crate::text::is_white_space(t[n]));
    assert(!crate::text::is_white_space(t[u])) by {
        assert(t[u] == unit[0]);
        if eq_ascii_ci(unit, b_lit()) {
            assert(crate::text::ascii_ci_eq(unit[0int + 0int], b_lit()[0]));
        } else if eq_ascii_ci(unit, kb_lit()) {
            assert(crate::text::ascii_ci_eq(unit[0int + 0int], kb_lit()[0]));
        } else if eq_ascii_ci(unit, mb_lit()) {
            assert(crate::text::ascii_ci_eq(unit[0int + 0int], mb_lit()[0]));
        } else if eq_ascii_ci(unit, gb_lit()) {
            assert(crate::text::ascii_ci_eq(unit[0int + 0int], gb_lit()[0]));
        } else {
            assert(crate::text::ascii_ci_eq(unit[0int + 0int], tb_lit()[0]));
        }
    }
    assert(skip_ws(t, u) == u);
    assert(skip_ws(t, n) == u);
    assert(t.subrange(u, t.len() as int) =~= unit);
    lemma_unit_at_end(t, u, unit);
    assert(size_value_at(t, 0) == Some((0int, a, n, u, u + unit.len())));
    assert(t.subrange(0, a) =~= int_digits);
    if frac_digits.len() == 0 {
        assert(fraction_digits(t, a, n) =~= frac_digits);
    }
}

/// The unit at `u` of `t` when `t` holds a unit `unit` there.
proof fn lemma_unit_at(t: Seq<char>, u: int, unit: Seq<char>)
    requires
        0 <= u,
        u + unit.len() <= t.len(),
        t.subrange(u, u + unit.len()) == unit,
        unit_multiplier(unit) is Some,
    ensures
        unit_len_at(t, u) == unit.len(),
{
    assert forall|j: int| 0 <= j < unit.len() implies t[u + j] == #[trigger] unit[j] by {
        assert(t.subrange(u, u + unit.len())[j] == t[u + j]);
    }
    if eq_ascii_ci(unit, b_lit()) {
        assert(crate::text::ascii_ci_eq(unit[0int + 0int], b_lit()[0]));
        assert(fold_lit_at(t, u, b_lit()));
    } else {
        let lit = if eq_ascii_ci(unit, kb_lit()) {
            kb_lit()
        } else if eq_ascii_ci(unit, mb_lit()) {
            mb_lit()
        } else if eq_ascii_ci(unit, gb_lit()) {
            gb_lit()
        } else {
            tb_lit()
        };
        assert(eq_ascii_ci(unit, lit));
        assert(crate::text::ascii_ci_eq(unit[0int + 0int], lit[0]));
        assert(crate::text::ascii_ci_eq(unit[0int + 1int], lit[1]));
        assert(!fold_lit_at(t, u, b_lit())) by {
            assert(!crate::text::fold_eq(t[u + 0], b_lit()[0]));
        }
        assert(fold_lit_at(t, u, lit));
    }
}

proof fn lemma_first_size_skip(t: Seq<char>, k: int, n: int)
    requires
        0 <= k <= n <= t.len(),
        forall|i: int| k <= i < n ==> #[trigger] size_value_at(t, i) is None,
    ensures
        first_size_value_from(t, k) == first_size_value_from(t, n),
    decreases n - k,
{
    if k < n {
        lemma_first_size_skip(t, k + 1, n);
    }
}

/// A number: the integer digits, then `.` and the fraction digits when there
/// are any.
pub open spec fn number_text(int_digits: Seq<char>, frac_digits: Seq<char>) -> Seq<char> {
    if frac_digits.len() == 0 {
        int_digits
    } else {
        int_digits + seq!['.'] + frac_digits
    }
}

/// `<p><number><w><unit><b>`.
pub open spec fn size_in_text(
    p: Seq<char>,
    int_digits: Seq<char>,
    frac_digits: Seq<char>,
    w: Seq<char>,
    unit: Seq<char>,
    b: Seq<char>,
) -> Seq<char> {
    p + number_text(int_digits, frac_digits) + w + unit + b
}

/// A size anywhere in a text is read the same way: after text without ASCII
/// digits, a number, any white space and one of the five units (in any ASCII
/// case), ending the word, give the number times the unit's power of 1024,
/// rounded and saturated, whatever follows.
#[verifier::rlimit(60)]
#[verifier::spinoff_prover]
pub proof fn law_size_in_text(
    p: Seq<char>,
    int_digits: Seq<char>,
    frac_digits: Seq<char>,
    w: Seq<char>,
    unit: Seq<char>,
    b: Seq<char>,
)
    requires
        forall|i: int| 0 <= i < p.len() ==> !is_ascii_digit(#[trigger] p[i]),
        int_digits.len() > 0,
        all_ascii_digits(int_digits),
        all_ascii_digits(frac_digits),
        is_ws_run(w),
        unit_multiplier(unit) is Some,
        b.len() == 0 || !is_word_character(b[0]),
    ensures
        spec_parse_size_bytes(size_in_text(p, int_digits, frac_digits, w, unit, b)) == Some(
            saturate_u64(scaled_rounded(int_digits, frac_digits, unit_multiplier(unit)->0)),
        ),
{
    let num = number_text(int_digits, frac_digits);
    let t = size_in_text(p, int_digits, frac_digits, w, unit, b);
    let pl = p.len() as int;
    let a = pl + int_digits.len();
    let n = pl + num.len();
    let u = n + w.len();
    let e = u + unit.len();
    assert(t.len() == e + b.len());
    assert forall|i: int| 0 <= i < pl implies #[trigger] size_value_at(t, i) is None by {
        assert(t[i] == p[i]);
        assert(ascii_digit_run_end(t, i) == i);
    }
    lemma_first_size_skip(t, 0, pl);
    assert(!is_ascii_digit(unit[0]) && !crate::text::is_white_space(unit[0]) && unit[0] != '.') by {
        if eq_ascii_ci(unit, b_lit()) {
            assert(crate::text::ascii_ci_eq(unit[0int + 0int], b_lit()[0]));
        } else if eq_ascii_ci(unit, kb_lit()) {
            assert(crate::text::ascii_ci_eq(unit[0int + 0int], kb_lit()[0]));
        } else if eq_ascii_ci(unit, mb_lit()) {
            assert(crate::text::ascii_ci_eq(unit[0int + 0int], mb_lit()[0]));
        } else if eq_ascii_ci(unit, gb_lit()) {
            assert(crate::text::ascii_ci_eq(unit[0int + 0int], gb_lit()[0]));
        } else {
            assert(crate::text::ascii_ci_eq(unit[0int + 0int], tb_lit()[0]));
        }
    }
    if w.len() > 0 {
        assert(crate::text::is_white_space(w[0]));
        assert(w[0] != '.');
    }
    assert forall|j: int| pl <= j < a implies is_ascii_digit(#[trigger] t[j]) by {
        assert(t[j] == num[j - pl]);
        assert(num[j - pl] == int_digits[j - pl]);
    }
    if frac_digits.len() > 0 {
        assert(t[a] == '.');
        assert forall|j: int| a + 1 <= j < n implies is_ascii_digit(#[trigger] t[j]) by {
            assert(t[j] == num[j - pl]);
            assert(num[j - pl] == frac_digits[j - a - 1]);
        }
        if w.len() > 0 {
            assert(t[n] == w[0]);
        } else {
            assert(t[n] == unit[0]);
        }
        lemma_ascii_digit_run_end_intro(t, pl, a);
        lemma_ascii_digit_run_end_intro(t, a + 1, n);
        assert(t.subrange(a + 1, n) =~= frac_digits);
    } else {
        if w.len() > 0 {
            assert(t[a] == w[0]);
        } else {
            assert(t[a] == unit[0]);
        }
        lemma_ascii_digit_run_end_intro(t, pl, a);
        assert(t[a] != '.');
        assert(n == a);
    }
    assert(number_end(t, a) == n);
    assert forall|j: int| n <= j < u implies crate::text::is_white_space(#[trigger] t[j]) by {
        assert(t[j] == w[j - n]);
    }
    assert(t[u] == unit[0]);
    lemma_skip_ws_intro(t, n, u);
    assert(t.subrange(u, e) =~= unit);
    lemma_unit_at(t, u, unit);
    if b.len() > 0 {
        assert(t[e] == b[0]);
    }
    assert(size_value_at(t, pl) == Some((pl, a, n, u, e)));
    lemma_first_size_skip(t, pl, pl);
    assert(t.subrange(pl, a) =~= int_digits);
    if frac_digits.len() == 0 {
        assert(fraction_digits(t, a, n) =~= frac_digits);
    }
}

/// The size is the nearest whole number of bytes, halves rounded up: for the
/// number `I.F` (with `d` fraction digits) times `m`, that is `x / 10^d`
/// with `x = (I * 10^d + F) * m`, the result `r` satisfies
/// `x - 10^d / 2 < r * 10^d <= x + 10^d / 2`.
pub proof fn law_scaled_rounded_nearest(int_digits: Seq<char>, frac_digits: Seq<char>, m: nat)
    ensures
        ({
            let den = pow10(frac_digits.len()) as int;
            let x = (digits_value(int_digits) * den + digits_value(frac_digits)) * m;
            let r = scaled_rounded(int_digits, frac_digits, m) as int;
            2 * x - den < 2 * r * den <= 2 * x + den
        }),
{
    lemma_pow10_positive(frac_digits.len());
    let dn = pow10(frac_digits.len()) as int;
    let iv = digits_value(int_digits) as int;
    let fv = digits_value(frac_digits) as int;
    let mm = m as int;
    let f = fv * mm;
    let q = f / dn;
    let rem = f % dn;
    assert(f == dn * q + rem && 0 <= rem < dn) by (nonlinear_arith)
        requires
            dn > 0,
            f >= 0,
            q == f / dn,
            rem == f % dn,
    ;
    let c: int = if 2 * rem >= dn {
        1
    } else {
        0
    };
    let r = iv * mm + q + c;
    assert(scaled_rounded(int_digits, frac_digits, m) as int == r);
    let x = (iv * dn + fv) * mm;
    assert(2 * r * dn == 2 * (iv * mm) * dn + 2 * q * dn + 2 * c * dn) by (nonlinear_arith)
        requires
            r == iv * mm + q + c,
    ;
    assert(2 * x == 2 * (iv * mm) * dn + 2 * (dn * q + rem)) by (nonlinear_arith)
        requires
            x == (iv * dn + fv) * mm,
            fv * mm == dn * q + rem,
    ;
    assert(2 * q * dn == 2 * (dn * q)) by (nonlinear_arith);
    assert(2 * c * dn == if c == 1 { 2 * dn } else { 0 });
}

} // verus!
