//! The landing page grammar: what the free landing page shows, read the way
//! the page's patterns read it.
//!
//! Each pattern is matched case-insensitively (Unicode simple case folding)
//! and, where it captures, the capture of the leftmost match is taken:
//! - offline: `the file you are trying to access is no longer available`,
//!   `the requested file could not be found`, `file not found` or
//!   `fichier introuvable`;
//! - captcha: `g-recaptcha`, `h-captcha` or `class\s*=\s*"captcha"`;
//! - a labelled cell: `<label>\s*:\s*</th>\s*<td>([^<]+)</td>`, for the
//!   labels `Filename` and `Size`;
//! - the wait: `data-wait\s*=\s*"(\d+)"`, `class="countdown"[^>]*>(\d+)</span>`
//!   or `var\s+c\s*=\s*(\d+)`.
//!
//! `\s` is Unicode white space and `\d` a Unicode decimal digit.
use vstd::prelude::*;
use crate::text::{
    decimal_run_end, decimal_run_end_exec, fold_char_eq, fold_eq, fold_lit_at, fold_lit_at_exec,
    lemma_decimal_run_end, lemma_next_index_of, lemma_skip_ws, next_index_of, next_index_of_exec,
    parse_u32_digits, parse_u32_digits_exec, skip_ws, skip_ws_exec, str_chars, sub_vec,
    is_decimal_digit, is_white_space, is_ws_run, lemma_skip_ws_intro, lemma_scans_shift,
    lemma_fold_lit_at_shift,
};

verus! {

pub open spec fn opt_range(o: Option<(usize, usize)>) -> Option<(int, int)> {
    match o {
        Some((s, e)) => Some((s as int, e as int)),
        None => None,
    }
}

// ── Offline ─────────────────────────────────────────────────────────────────

pub open spec fn offline_lit_1() -> Seq<char> {
    "the file you are trying to access is no longer available"@
}

pub open spec fn offline_lit_2() -> Seq<char> {
    "the requested file could not be found"@
}

pub open spec fn offline_lit_3() -> Seq<char> {
    "file not found"@
}

pub open spec fn offline_lit_4() -> Seq<char> {
    "fichier introuvable"@
}

pub open spec fn offline_at(t: Seq<char>, i: int) -> bool {
    ||| fold_lit_at(t, i, offline_lit_1())
    ||| fold_lit_at(t, i, offline_lit_2())
    ||| fold_lit_at(t, i, offline_lit_3())
    ||| fold_lit_at(t, i, offline_lit_4())
}

/// The page says the file is offline.
pub open spec fn spec_is_offline_page(t: Seq<char>) -> bool {
    exists|i: int| offline_at(t, i)
}

pub fn is_offline_page(t: &[char]) -> (b: bool)
    ensures
        b == spec_is_offline_page(t@),
{
    let l1 = str_chars("the file you are trying to access is no longer available");
    let l2 = str_chars("the requested file could not be found");
    let l3 = str_chars("file not found");
    let l4 = str_chars("fichier introuvable");
    let mut i: usize = 0;
    loop
        invariant
            i <= t@.len(),
            l1@ == offline_lit_1(),
            l2@ == offline_lit_2(),
            l3@ == offline_lit_3(),
            l4@ == offline_lit_4(),
            forall|k: int| 0 <= k < i ==> !offline_at(t@, k),
        decreases t@.len() - i,
    {
        if fold_lit_at_exec(t, i, &l1) || fold_lit_at_exec(t, i, &l2) || fold_lit_at_exec(t, i, &l3)
            || fold_lit_at_exec(t, i, &l4) {
            assert(offline_at(t@, i as int));
            return true;
        }
        if i == t.len() {
            assert forall|k: int| !offline_at(t@, k) by {
                if k > t@.len() {
                    assert(!fold_lit_at(t@, k, offline_lit_1()));
                }
            }
            return false;
        }
        i = i + 1;
    }
}

// ── Captcha ─────────────────────────────────────────────────────────────────

pub open spec fn recaptcha_lit() -> Seq<char> {
    "g-recaptcha"@
}

pub open spec fn hcaptcha_lit() -> Seq<char> {
    "h-captcha"@
}

pub open spec fn class_lit() -> Seq<char> {
    "class"@
}

pub open spec fn quoted_captcha_lit() -> Seq<char> {
    "\"captcha\""@
}

/// `class\s*=\s*"captcha"` at `i`.
pub open spec fn class_captcha_at(t: Seq<char>, i: int) -> bool {
    &&& fold_lit_at(t, i, class_lit())
    &&& skip_ws(t, i + class_lit().len()) < t.len()
    &&& t[skip_ws(t, i + class_lit().len())] == '='
    &&& fold_lit_at(t, skip_ws(t, skip_ws(t, i + class_lit().len()) + 1), quoted_captcha_lit())
}

pub open spec fn captcha_at(t: Seq<char>, i: int) -> bool {
    ||| fold_lit_at(t, i, recaptcha_lit())
    ||| fold_lit_at(t, i, hcaptcha_lit())
    ||| class_captcha_at(t, i)
}

/// The page ships a captcha challenge.
pub open spec fn spec_detect_captcha(t: Seq<char>) -> bool {
    exists|i: int| captcha_at(t, i)
}

fn class_captcha_at_exec(t: &[char], i: usize, class: &[char], quoted: &[char]) -> (b: bool)
    requires
        class@ == class_lit(),
        quoted@ == quoted_captcha_lit(),
    ensures
        b == class_captcha_at(t@, i as int),
{
    if !fold_lit_at_exec(t, i, class) {
        return false;
    }
    assert(t@.len() == t.len());
    let j = skip_ws_exec(t, i + class.len());
    if j >= t.len() || t[j] != '=' {
        return false;
    }
    let k = skip_ws_exec(t, j + 1);
    fold_lit_at_exec(t, k, quoted)
}

pub fn detect_captcha(t: &[char]) -> (b: bool)
    ensures
        b == spec_detect_captcha(t@),
{
    let re = str_chars("g-recaptcha");
    let hc = str_chars("h-captcha");
    let class = str_chars("class");
    let quoted = str_chars("\"captcha\"");
    let mut i: usize = 0;
    loop
        invariant
            i <= t@.len(),
            re@ == recaptcha_lit(),
            hc@ == hcaptcha_lit(),
            class@ == class_lit(),
            quoted@ == quoted_captcha_lit(),
            forall|k: int| 0 <= k < i ==> !captcha_at(t@, k),
        decreases t@.len() - i,
    {
        if fold_lit_at_exec(t, i, &re) || fold_lit_at_exec(t, i, &hc) || class_captcha_at_exec(
            t,
            i,
            &class,
            &quoted,
        ) {
            assert(captcha_at(t@, i as int));
            return true;
        }
        if i == t.len() {
            assert forall|k: int| !captcha_at(t@, k) by {
                if k > t@.len() {
                    assert(!fold_lit_at(t@, k, recaptcha_lit()));
                    assert(!fold_lit_at(t@, k, hcaptcha_lit()));
                    assert(!fold_lit_at(t@, k, class_lit()));
                }
            }
            return false;
        }
        i = i + 1;
    }
}


// ── Labelled cells ──────────────────────────────────────────────────────────

pub open spec fn filename_lit() -> Seq<char> {
    "filename"@
}

pub open spec fn size_lit() -> Seq<char> {
    "size"@
}

pub open spec fn th_close_lit() -> Seq<char> {
    "</th>"@
}

pub open spec fn td_open_lit() -> Seq<char> {
    "<td>"@
}

pub open spec fn td_close_lit() -> Seq<char> {
    "</td>"@
}

/// `<label>\s*:\s*</th>\s*<td>([^<]+)</td>` at `i`: the range of the capture.
pub open spec fn cell_at(t: Seq<char>, i: int, label: Seq<char>) -> Option<(int, int)> {
    if !fold_lit_at(t, i, label) {
        None
    } else {
        let j = skip_ws(t, i + label.len());
        if !(j < t.len() && t[j] == ':') {
            None
        } else {
            let k = skip_ws(t, j + 1);
            if !fold_lit_at(t, k, th_close_lit()) {
                None
            } else {
                let m = skip_ws(t, k + th_close_lit().len());
                if !fold_lit_at(t, m, td_open_lit()) {
                    None
                } else {
                    let s = m + td_open_lit().len();
                    let e = next_index_of(t, s, '<');
                    if e > s && fold_lit_at(t, e, td_close_lit()) {
                        Some((s, e))
                    } else {
                        None
                    }
                }
            }
        }
    }
}

/// The leftmost labelled cell at or after `i`.
pub open spec fn first_cell_from(t: Seq<char>, label: Seq<char>, i: int) -> Option<(int, int)>
    decreases t.len() + 1 - i,
{
    if i < 0 || i > t.len() {
        None
    } else if cell_at(t, i, label) is Some {
        cell_at(t, i, label)
    } else {
        first_cell_from(t, label, i + 1)
    }
}

/// The text of the leftmost cell labelled `label`.
pub open spec fn spec_cell_text(t: Seq<char>, label: Seq<char>) -> Option<Seq<char>> {
    match first_cell_from(t, label, 0) {
        Some((s, e)) => Some(t.subrange(s, e)),
        None => None,
    }
}

proof fn lemma_cell_at_bounds(t: Seq<char>, i: int, label: Seq<char>)
    ensures
        cell_at(t, i, label) matches Some((s, e)) ==> 0 <= s < e <= t.len(),
{
    if fold_lit_at(t, i, label) {
        let j = skip_ws(t, i + label.len());
        lemma_skip_ws(t, i + label.len());
        if j < t.len() && t[j] == ':' {
            let k = skip_ws(t, j + 1);
            lemma_skip_ws(t, j + 1);
            if fold_lit_at(t, k, th_close_lit()) {
                let m = skip_ws(t, k + th_close_lit().len());
                lemma_skip_ws(t, k + th_close_lit().len());
                if fold_lit_at(t, m, td_open_lit()) {
                    lemma_next_index_of(t, m + td_open_lit().len(), '<');
                }
            }
        }
    }
}

/// Literals of the cell pattern.
struct CellLits {
    th_close: Vec<char>,
    td_open: Vec<char>,
    td_close: Vec<char>,
}

impl CellLits {
    spec fn wf(&self) -> bool {
        &&& self.th_close@ == th_close_lit()
        &&& self.td_open@ == td_open_lit()
        &&& self.td_close@ == td_close_lit()
    }

    fn new() -> (r: CellLits)
        ensures
            r.wf(),
    {
        CellLits {
            th_close: str_chars("</th>"),
            td_open: str_chars("<td>"),
            td_close: str_chars("</td>"),
        }
    }
}

fn cell_at_exec(t: &[char], i: usize, label: &[char], lits: &CellLits) -> (r: Option<(usize, usize)>)
    requires
        lits.wf(),
    ensures
        opt_range(r) == cell_at(t@, i as int, label@),
{
    assert(t@.len() == t.len());
    if !fold_lit_at_exec(t, i, label) {
        return None;
    }
    let j = skip_ws_exec(t, i + label.len());
    if !(j < t.len() && t[j] == ':') {
        return None;
    }
    let k = skip_ws_exec(t, j + 1);
    if !fold_lit_at_exec(t, k, &lits.th_close) {
        return None;
    }
    let m = skip_ws_exec(t, k + lits.th_close.len());
    if !fold_lit_at_exec(t, m, &lits.td_open) {
        return None;
    }
    let s = m + lits.td_open.len();
    let e = next_index_of_exec(t, s, '<');
    if e > s && fold_lit_at_exec(t, e, &lits.td_close) {
        Some((s, e))
    } else {
        None
    }
}

/// The text of the leftmost cell labelled `label` (a lower-case literal).
fn cell_text(t: &[char], label: &[char]) -> (r: Option<Vec<char>>)
    ensures
        match r {
            Some(v) => spec_cell_text(t@, label@) == Some(v@),
            None => spec_cell_text(t@, label@) is None,
        },
{
    let lits = CellLits::new();
    let mut i: usize = 0;
    loop
        invariant
            i <= t@.len(),
            lits.wf(),
            first_cell_from(t@, label@, i as int) == first_cell_from(t@, label@, 0),
        decreases t@.len() - i,
    {
        if let Some((s, e)) = cell_at_exec(t, i, label, &lits) {
            proof {
                lemma_cell_at_bounds(t@, i as int, label@);
            }
            return Some(sub_vec(t, s, e));
        }
        if i == t.len() {
            assert(first_cell_from(t@, label@, i + 1) is None);
            return None;
        }
        i = i + 1;
    }
}

/// The file name shown on the landing page.
pub fn locate_filename(t: &[char]) -> (r: Option<Vec<char>>)
    ensures
        match r {
            Some(v) => spec_cell_text(t@, filename_lit()) == Some(v@),
            None => spec_cell_text(t@, filename_lit()) is None,
        },
{
    let label = str_chars("filename");
    cell_text(t, &label)
}

/// The human-readable size shown on the landing page.
pub fn locate_size_text(t: &[char]) -> (r: Option<Vec<char>>)
    ensures
        match r {
            Some(v) => spec_cell_text(t@, size_lit()) == Some(v@),
            None => spec_cell_text(t@, size_lit()) is None,
        },
{
    let label = str_chars("size");
    cell_text(t, &label)
}


// ── Wait countdown ──────────────────────────────────────────────────────────

pub open spec fn data_wait_lit() -> Seq<char> {
    "data-wait"@
}

pub open spec fn countdown_lit() -> Seq<char> {
    "class=\"countdown\""@
}

pub open spec fn span_close_lit() -> Seq<char> {
    "</span>"@
}

pub open spec fn var_lit() -> Seq<char> {
    "var"@
}

/// `data-wait\s*=\s*"(\d+)"` at `i`.
pub open spec fn data_wait_at(t: Seq<char>, i: int) -> Option<(int, int)> {
    if !fold_lit_at(t, i, data_wait_lit()) {
        None
    } else {
        let j = skip_ws(t, i + data_wait_lit().len());
        if !(j < t.len() && t[j] == '=') {
            None
        } else {
            let k = skip_ws(t, j + 1);
            if !(k < t.len() && t[k] == '"') {
                None
            } else {
                let e = decimal_run_end(t, k + 1);
                if e > k + 1 && e < t.len() && t[e] == '"' {
                    Some((k + 1, e))
                } else {
                    None
                }
            }
        }
    }
}

/// `class="countdown"[^>]*>(\d+)</span>` at `i`.
pub open spec fn countdown_at(t: Seq<char>, i: int) -> Option<(int, int)> {
    if !fold_lit_at(t, i, countdown_lit()) {
        None
    } else {
        let j = next_index_of(t, i + countdown_lit().len(), '>');
        if !(j < t.len()) {
            None
        } else {
            let e = decimal_run_end(t, j + 1);
            if e > j + 1 && fold_lit_at(t, e, span_close_lit()) {
                Some((j + 1, e))
            } else {
                None
            }
        }
    }
}

/// `var\s+c\s*=\s*(\d+)` at `i`.
pub open spec fn var_c_at(t: Seq<char>, i: int) -> Option<(int, int)> {
    if !fold_lit_at(t, i, var_lit()) {
        None
    } else {
        let j = skip_ws(t, i + var_lit().len());
        if !(j > i + var_lit().len() && j < t.len() && fold_eq(t[j], 'c')) {
            None
        } else {
            let k = skip_ws(t, j + 1);
            if !(k < t.len() && t[k] == '=') {
                None
            } else {
                let m = skip_ws(t, k + 1);
                let e = decimal_run_end(t, m);
                if e > m {
                    Some((m, e))
                } else {
                    None
                }
            }
        }
    }
}

/// The wait pattern at `i`: its alternatives in order.
pub open spec fn wait_at(t: Seq<char>, i: int) -> Option<(int, int)> {
    if data_wait_at(t, i) is Some {
        data_wait_at(t, i)
    } else if countdown_at(t, i) is Some {
        countdown_at(t, i)
    } else {
        var_c_at(t, i)
    }
}

/// The leftmost wait match at or after `i`.
pub open spec fn first_wait_from(t: Seq<char>, i: int) -> Option<(int, int)>
    decreases t.len() + 1 - i,
{
    if i < 0 || i > t.len() {
        None
    } else if wait_at(t, i) is Some {
        wait_at(t, i)
    } else {
        first_wait_from(t, i + 1)
    }
}

/// The wait in seconds: the digits of the leftmost wait match, read as a
/// `u32`; `None` when there is no match or the digits do not make a `u32`.
pub open spec fn spec_wait_seconds(t: Seq<char>) -> Option<u32> {
    match first_wait_from(t, 0) {
        Some((s, e)) => parse_u32_digits(t.subrange(s, e)),
        None => None,
    }
}

proof fn lemma_wait_at_bounds(t: Seq<char>, i: int)
    ensures
        wait_at(t, i) matches Some((s, e)) ==> 0 <= s < e <= t.len(),
{
    if fold_lit_at(t, i, data_wait_lit()) {
        let j = skip_ws(t, i + data_wait_lit().len());
        lemma_skip_ws(t, i + data_wait_lit().len());
        if j < t.len() && t[j] == '=' {
            let k = skip_ws(t, j + 1);
            lemma_skip_ws(t, j + 1);
            if k < t.len() && t[k] == '"' {
                lemma_decimal_run_end(t, k + 1);
            }
        }
    }
    if fold_lit_at(t, i, countdown_lit()) {
        let j = next_index_of(t, i + countdown_lit().len(), '>');
        lemma_next_index_of(t, i + countdown_lit().len(), '>');
        if j < t.len() {
            lemma_decimal_run_end(t, j + 1);
        }
    }
    if fold_lit_at(t, i, var_lit()) {
        let j = skip_ws(t, i + var_lit().len());
        lemma_skip_ws(t, i + var_lit().len());
        if j > i + var_lit().len() && j < t.len() && fold_eq(t[j], 'c') {
            let k = skip_ws(t, j + 1);
            lemma_skip_ws(t, j + 1);
            if k < t.len() && t[k] == '=' {
                let m = skip_ws(t, k + 1);
                lemma_skip_ws(t, k + 1);
                lemma_decimal_run_end(t, m);
            }
        }
    }
}

/// Literals of the wait pattern.
struct WaitLits {
    data_wait: Vec<char>,
    countdown: Vec<char>,
    span_close: Vec<char>,
    var: Vec<char>,
}

impl WaitLits {
    spec fn wf(&self) -> bool {
        &&& self.data_wait@ == data_wait_lit()
        &&& self.countdown@ == countdown_lit()
        &&& self.span_close@ == span_close_lit()
        &&& self.var@ == var_lit()
    }

    fn new() -> (r: WaitLits)
        ensures
            r.wf(),
    {
        WaitLits {
            data_wait: str_chars("data-wait"),
            countdown: str_chars("class=\"countdown\""),
            span_close: str_chars("</span>"),
            var: str_chars("var"),
        }
    }
}

fn data_wait_at_exec(t: &[char], i: usize, lits: &WaitLits) -> (r: Option<(usize, usize)>)
    requires
        lits.wf(),
    ensures
        opt_range(r) == data_wait_at(t@, i as int),
{
    assert(t@.len() == t.len());
    if !fold_lit_at_exec(t, i, &lits.data_wait) {
        return None;
    }
    let j = skip_ws_exec(t, i + lits.data_wait.len());
    if !(j < t.len() && t[j] == '=') {
        return None;
    }
    let k = skip_ws_exec(t, j + 1);
    if !(k < t.len() && t[k] == '"') {
        return None;
    }
    let e = decimal_run_end_exec(t, k + 1);
    if e > k + 1 && e < t.len() && t[e] == '"' {
        Some((k + 1, e))
    } else {
        None
    }
}

fn countdown_at_exec(t: &[char], i: usize, lits: &WaitLits) -> (r: Option<(usize, usize)>)
    requires
        lits.wf(),
    ensures
        opt_range(r) == countdown_at(t@, i as int),
{
    assert(t@.len() == t.len());
    if !fold_lit_at_exec(t, i, &lits.countdown) {
        return None;
    }
    let j = next_index_of_exec(t, i + lits.countdown.len(), '>');
    if !(j < t.len()) {
        return None;
    }
    let e = decimal_run_end_exec(t, j + 1);
    if e > j + 1 && fold_lit_at_exec(t, e, &lits.span_close) {
        Some((j + 1, e))
    } else {
        None
    }
}

fn var_c_at_exec(t: &[char], i: usize, lits: &WaitLits) -> (r: Option<(usize, usize)>)
    requires
        lits.wf(),
    ensures
        opt_range(r) == var_c_at(t@, i as int),
{
    assert(t@.len() == t.len());
    if !fold_lit_at_exec(t, i, &lits.var) {
        return None;
    }
    let j = skip_ws_exec(t, i + lits.var.len());
    if !(j > i + lits.var.len() && j < t.len() && fold_char_eq(t[j], 'c')) {
        return None;
    }
    let k = skip_ws_exec(t, j + 1);
    if !(k < t.len() && t[k] == '=') {
        return None;
    }
    let m = skip_ws_exec(t, k + 1);
    let e = decimal_run_end_exec(t, m);
    if e > m {
        Some((m, e))
    } else {
        None
    }
}

fn wait_at_exec(t: &[char], i: usize, lits: &WaitLits) -> (r: Option<(usize, usize)>)
    requires
        lits.wf(),
    ensures
        opt_range(r) == wait_at(t@, i as int),
{
    if let Some(r) = data_wait_at_exec(t, i, lits) {
        return Some(r);
    }
    if let Some(r) = countdown_at_exec(t, i, lits) {
        return Some(r);
    }
    var_c_at_exec(t, i, lits)
}

/// The wait countdown advertised by the landing page, in seconds.
pub fn locate_wait_seconds(t: &[char]) -> (r: Option<u32>)
    ensures
        r == spec_wait_seconds(t@),
{
    let lits = WaitLits::new();
    let mut i: usize = 0;
    loop
        invariant
            i <= t@.len(),
            lits.wf(),
            first_wait_from(t@, i as int) == first_wait_from(t@, 0),
        decreases t@.len() - i,
    {
        if let Some((s, e)) = wait_at_exec(t, i, &lits) {
            proof {
                lemma_wait_at_bounds(t@, i as int);
            }
            let digits = sub_vec(t, s, e);
            return parse_u32_digits_exec(&digits);
        }
        if i == t.len() {
            assert(first_wait_from(t@, i + 1) is None);
            return None;
        }
        i = i + 1;
    }
}


// ── Laws ────────────────────────────────────────────────────────────────────

proof fn lemma_lit_in_middle(a: Seq<char>, lit: Seq<char>, b: Seq<char>)
    ensures
        fold_lit_at(a + lit + b, a.len() as int, lit),
{
    let t = a + lit + b;
    assert forall|j: int| 0 <= j < lit.len() implies fold_eq(
        #[trigger] t[a.len() + j],
        lit[j],
    ) by {
        assert(t[a.len() + j] == lit[j]);
    }
}

/// A page that mentions `g-recaptcha` or `h-captcha` anywhere ships a captcha.
pub proof fn law_captcha_markers_detected(before: Seq<char>, after: Seq<char>)
    ensures
        spec_detect_captcha(before + recaptcha_lit() + after),
        spec_detect_captcha(before + hcaptcha_lit() + after),
{
    lemma_lit_in_middle(before, recaptcha_lit(), after);
    lemma_lit_in_middle(before, hcaptcha_lit(), after);
    assert(captcha_at(before + recaptcha_lit() + after, before.len() as int));
    assert(captcha_at(before + hcaptcha_lit() + after, before.len() as int));
}

/// A page that says anywhere that the file could not be found, is no longer
/// available, was not found or is "introuvable" is an offline page.
pub proof fn law_offline_phrases_detected(before: Seq<char>, after: Seq<char>)
    ensures
        spec_is_offline_page(before + offline_lit_1() + after),
        spec_is_offline_page(before + offline_lit_2() + after),
        spec_is_offline_page(before + offline_lit_3() + after),
        spec_is_offline_page(before + offline_lit_4() + after),
{
    lemma_lit_in_middle(before, offline_lit_1(), after);
    lemma_lit_in_middle(before, offline_lit_2(), after);
    lemma_lit_in_middle(before, offline_lit_3(), after);
    lemma_lit_in_middle(before, offline_lit_4(), after);
    assert(offline_at(before + offline_lit_1() + after, before.len() as int));
    assert(offline_at(before + offline_lit_2() + after, before.len() as int));
    assert(offline_at(before + offline_lit_3() + after, before.len() as int));
    assert(offline_at(before + offline_lit_4() + after, before.len() as int));
}

/// A non-empty run of decimal digits.
pub open spec fn is_digit_run(d: Seq<char>) -> bool {
    d.len() > 0 && forall|i: int| 0 <= i < d.len() ==> is_decimal_digit(#[trigger] d[i])
}

proof fn lemma_decimal_run_end_intro(t: Seq<char>, i: int, e: int)
    requires
        0 <= i <= e <= t.len(),
        forall|j: int| i <= j < e ==> is_decimal_digit(#[trigger] t[j]),
        e == t.len() || !is_decimal_digit(t[e]),
    ensures
        decimal_run_end(t, i) == e,
    decreases e - i,
{
    if i < e {
        lemma_decimal_run_end_intro(t, i + 1, e);
    }
}

/// `data-wait="<digits>"`: the wait is the digits read as a `u32`.
pub open spec fn data_wait_page(d: Seq<char>) -> Seq<char> {
    data_wait_lit() + seq!['=', '"'] + d + seq!['"']
}

/// `class="countdown"><digits></span>`.
pub open spec fn countdown_page(d: Seq<char>) -> Seq<char> {
    countdown_lit() + seq!['>'] + d + span_close_lit()
}

/// `var c = <digits>`.
pub open spec fn var_c_page(d: Seq<char>) -> Seq<char> {
    var_lit() + seq![' ', 'c', ' ', '=', ' '] + d
}

/// The wait is read from each of its three forms: the `data-wait` attribute,
/// the countdown span and the `var c` script variable.
pub proof fn law_wait_forms(d: Seq<char>)
    requires
        is_digit_run(d),
    ensures
        spec_wait_seconds(data_wait_page(d)) == parse_u32_digits(d),
        spec_wait_seconds(countdown_page(d)) == parse_u32_digits(d),
        spec_wait_seconds(var_c_page(d)) == parse_u32_digits(d),
{
    reveal_strlit("data-wait");
    reveal_strlit("class=\"countdown\"");
    reveal_strlit("</span>");
    reveal_strlit("var");
    let dl = d.len() as int;
    // data-wait="<d>"
    let t = data_wait_page(d);
    let l = data_wait_lit().len() as int;
    lemma_lit_in_middle(Seq::empty(), data_wait_lit(), seq!['=', '"'] + d + seq!['"']);
    assert(Seq::<char>::empty() + data_wait_lit() + (seq!['=', '"'] + d + seq!['"']) =~= t);
    assert(t[l] == '=');
    assert(t[l + 1] == '"');
    assert forall|j: int| l + 2 <= j < l + 2 + dl implies is_decimal_digit(#[trigger] t[j]) by {
        assert(t[j] == d[j - l - 2]);
    }
    assert(t[l + 2 + dl] == '"');
    lemma_decimal_run_end_intro(t, l + 2, l + 2 + dl);
    assert(data_wait_at(t, 0) == Some((l + 2, l + 2 + dl)));
    assert(t.subrange(l + 2, l + 2 + dl) =~= d);
    // class="countdown">d</span>
    let t = countdown_page(d);
    let l = countdown_lit().len() as int;
    lemma_lit_in_middle(Seq::empty(), countdown_lit(), seq!['>'] + d + span_close_lit());
    assert(Seq::<char>::empty() + countdown_lit() + (seq!['>'] + d + span_close_lit()) =~= t);
    assert(!fold_lit_at(t, 0, data_wait_lit())) by {
        assert(!fold_eq(t[0int + 0int], data_wait_lit()[0]));
    }
    assert(t[l] == '>');
    assert(next_index_of(t, l, '>') == l);
    assert forall|j: int| l + 1 <= j < l + 1 + dl implies is_decimal_digit(#[trigger] t[j]) by {
        assert(t[j] == d[j - l - 1]);
    }
    assert(t[l + 1 + dl] == '<');
    lemma_decimal_run_end_intro(t, l + 1, l + 1 + dl);
    lemma_lit_in_middle(countdown_lit() + seq!['>'] + d, span_close_lit(), Seq::empty());
    assert(countdown_lit() + seq!['>'] + d + span_close_lit() + Seq::<char>::empty() =~= t);
    assert(countdown_at(t, 0) == Some((l + 1, l + 1 + dl)));
    assert(t.subrange(l + 1, l + 1 + dl) =~= d);
    // var c = d
    let t = var_c_page(d);
    let l = var_lit().len() as int;
    lemma_lit_in_middle(Seq::empty(), var_lit(), seq![' ', 'c', ' ', '=', ' '] + d);
    assert(Seq::<char>::empty() + var_lit() + (seq![' ', 'c', ' ', '=', ' '] + d) =~= t);
    assert(!fold_lit_at(t, 0, data_wait_lit())) by {
        assert(!fold_eq(t[0int + 0int], data_wait_lit()[0]));
    }
    assert(!fold_lit_at(t, 0, countdown_lit())) by {
        assert(!fold_eq(t[0int + 0int], countdown_lit()[0]));
    }
    assert(t[l] == ' ' && t[l + 1] == 'c' && t[l + 2] == ' ' && t[l + 3] == '=' && t[l + 4]
        == ' ');
    assert(skip_ws(t, l + 1) == l + 1);
    assert(skip_ws(t, l) == l + 1);
    assert(skip_ws(t, l + 3) == l + 3);
    assert(skip_ws(t, l + 2) == l + 3);
    assert(!is_white_space(t[l + 5])) by {
        assert(t[l + 5] == d[0]);
    }
    assert(skip_ws(t, l + 5) == l + 5);
    assert(skip_ws(t, l + 4) == l + 5);
    assert forall|j: int| l + 5 <= j < l + 5 + dl implies is_decimal_digit(#[trigger] t[j]) by {
        assert(t[j] == d[j - l - 5]);
    }
    lemma_decimal_run_end_intro(t, l + 5, l + 5 + dl);
    assert(var_c_at(t, 0) == Some((l + 5, l + 5 + dl)));
    assert(t.subrange(l + 5, l + 5 + dl) =~= d);
}


/// Text in which no wait match can begin: it holds no `d`, `c` or `v`, in
/// any case.
pub open spec fn no_wait_start(p: Seq<char>) -> bool {
    forall|i: int|
        0 <= i < p.len() ==> !fold_eq(#[trigger] p[i], 'd') && !fold_eq(p[i], 'c') && !fold_eq(
            p[i],
            'v',
        )
}

proof fn lemma_first_wait_skip(t: Seq<char>, k: int, n: int)
    requires
        0 <= k <= n <= t.len(),
        forall|i: int| k <= i < n ==> #[trigger] wait_at(t, i) is None,
    ensures
        first_wait_from(t, k) == first_wait_from(t, n),
    decreases n - k,
{
    if k < n {
        lemma_first_wait_skip(t, k + 1, n);
    }
}

proof fn lemma_no_wait_in_prefix(p: Seq<char>, s: Seq<char>)
    requires
        no_wait_start(p),
    ensures
        first_wait_from(p + s, 0) == first_wait_from(p + s, p.len() as int),
{
    reveal_strlit("data-wait");
    reveal_strlit("class=\"countdown\"");
    reveal_strlit("var");
    let t = p + s;
    assert forall|i: int| 0 <= i < p.len() implies #[trigger] wait_at(t, i) is None by {
        assert(t[i + 0] == p[i]);
        assert(!fold_lit_at(t, i, data_wait_lit())) by {
            assert(!fold_eq(t[i + 0], data_wait_lit()[0]));
        }
        assert(!fold_lit_at(t, i, countdown_lit())) by {
            assert(!fold_eq(t[i + 0], countdown_lit()[0]));
        }
        assert(!fold_lit_at(t, i, var_lit())) by {
            assert(!fold_eq(t[i + 0], var_lit()[0]));
        }
    }
    lemma_first_wait_skip(t, 0, p.len() as int);
}

/// `<p>class="countdown"<a>><digits></span><b>`.
pub open spec fn countdown_span_page(p: Seq<char>, a: Seq<char>, d: Seq<char>, b: Seq<char>) -> Seq<
    char,
> {
    p + countdown_lit() + a + seq!['>'] + d + span_close_lit() + b
}

/// The countdown span gives the wait whatever other attributes `a` (without
/// `>`) follow its class, after any text that cannot begin a wait match and
/// before anything.
pub proof fn law_countdown_span(p: Seq<char>, a: Seq<char>, d: Seq<char>, b: Seq<char>)
    requires
        no_wait_start(p),
        forall|i: int| 0 <= i < a.len() ==> #[trigger] a[i] != '>',
        is_digit_run(d),
    ensures
        spec_wait_seconds(countdown_span_page(p, a, d, b)) == parse_u32_digits(d),
{
    reveal_strlit("data-wait");
    reveal_strlit("class=\"countdown\"");
    reveal_strlit("</span>");
    let t = countdown_span_page(p, a, d, b);
    let pl = p.len() as int;
    let l = countdown_lit().len() as int;
    let al = a.len() as int;
    let dl = d.len() as int;
    let rest = a + seq!['>'] + d + span_close_lit() + b;
    assert(p + (countdown_lit() + rest) =~= t);
    lemma_no_wait_in_prefix(p, countdown_lit() + rest);
    assert(p + countdown_lit() + rest =~= t);
    lemma_lit_in_middle(p, countdown_lit(), rest);
    assert(t[pl + 0] == 'c');
    assert(!fold_lit_at(t, pl, data_wait_lit())) by {
        assert(!fold_eq(t[pl + 0], data_wait_lit()[0]));
    }
    let j = pl + l + al;
    assert forall|k: int| pl + l <= k < j implies #[trigger] t[k] != '>' by {
        assert(t[k] == a[k - pl - l]);
    }
    assert(t[j] == '>');
    lemma_next_index_of_intro(t, pl + l, j, '>');
    assert forall|k: int| j + 1 <= k < j + 1 + dl implies is_decimal_digit(#[trigger] t[k]) by {
        assert(t[k] == d[k - j - 1]);
    }
    assert(t[j + 1 + dl] == '<');
    lemma_decimal_run_end_intro(t, j + 1, j + 1 + dl);
    lemma_lit_in_middle(p + countdown_lit() + a + seq!['>'] + d, span_close_lit(), b);
    assert(countdown_at(t, pl) == Some((j + 1, j + 1 + dl)));
    lemma_first_wait_skip(t, pl, pl);
    assert(t.subrange(j + 1, j + 1 + dl) =~= d);
}

/// `<p>data-wait<w1>=<w2>"<digits>"<b>`.
pub open spec fn data_wait_spaced_page(
    p: Seq<char>,
    w1: Seq<char>,
    w2: Seq<char>,
    d: Seq<char>,
    b: Seq<char>,
) -> Seq<char> {
    p + data_wait_lit() + w1 + seq!['='] + w2 + seq!['"'] + d + seq!['"'] + b
}

/// The `data-wait` attribute gives the wait with any white space around its
/// `=`, after any text that cannot begin a wait match and before anything.
pub proof fn law_data_wait_spaced(
    p: Seq<char>,
    w1: Seq<char>,
    w2: Seq<char>,
    d: Seq<char>,
    b: Seq<char>,
)
    requires
        no_wait_start(p),
        is_ws_run(w1),
        is_ws_run(w2),
        is_digit_run(d),
    ensures
        spec_wait_seconds(data_wait_spaced_page(p, w1, w2, d, b)) == parse_u32_digits(d),
{
    reveal_strlit("data-wait");
    let t = data_wait_spaced_page(p, w1, w2, d, b);
    let pl = p.len() as int;
    let l = data_wait_lit().len() as int;
    let dl = d.len() as int;
    let rest = w1 + seq!['='] + w2 + seq!['"'] + d + seq!['"'] + b;
    assert(p + (data_wait_lit() + rest) =~= t);
    lemma_no_wait_in_prefix(p, data_wait_lit() + rest);
    assert(p + data_wait_lit() + rest =~= t);
    lemma_lit_in_middle(p, data_wait_lit(), rest);
    let j = pl + l + w1.len();
    assert forall|k: int| pl + l <= k < j implies is_white_space(#[trigger] t[k]) by {
        assert(t[k] == w1[k - pl - l]);
    }
    assert(t[j] == '=');
    lemma_skip_ws_intro(t, pl + l, j);
    let k = j + 1 + w2.len();
    assert forall|x: int| j + 1 <= x < k implies is_white_space(#[trigger] t[x]) by {
        assert(t[x] == w2[x - j - 1]);
    }
    assert(t[k] == '"');
    lemma_skip_ws_intro(t, j + 1, k);
    assert forall|x: int| k + 1 <= x < k + 1 + dl implies is_decimal_digit(#[trigger] t[x]) by {
        assert(t[x] == d[x - k - 1]);
    }
    assert(t[k + 1 + dl] == '"');
    lemma_decimal_run_end_intro(t, k + 1, k + 1 + dl);
    assert(data_wait_at(t, pl) == Some((k + 1, k + 1 + dl)));
    assert(t.subrange(k + 1, k + 1 + dl) =~= d);
}

/// `<p>var<w1>c<w2>=<w3><digits><b>`.
pub open spec fn var_c_spaced_page(
    p: Seq<char>,
    w1: Seq<char>,
    w2: Seq<char>,
    w3: Seq<char>,
    d: Seq<char>,
    b: Seq<char>,
) -> Seq<char> {
    p + var_lit() + w1 + seq!['c'] + w2 + seq!['='] + w3 + d + b
}

/// The `var c` script variable gives the wait with white space (at least one
/// character of it after `var`) between its parts, after any text that
/// cannot begin a wait match, when what follows the digits is not a digit.
#[verifier::rlimit(60)]
#[verifier::spinoff_prover]
pub proof fn law_var_c_spaced(
    p: Seq<char>,
    w1: Seq<char>,
    w2: Seq<char>,
    w3: Seq<char>,
    d: Seq<char>,
    b: Seq<char>,
)
    requires
        no_wait_start(p),
        w1.len() > 0,
        is_ws_run(w1),
        is_ws_run(w2),
        is_ws_run(w3),
        is_digit_run(d),
        b.len() == 0 || !is_decimal_digit(b[0]),
    ensures
        spec_wait_seconds(var_c_spaced_page(p, w1, w2, w3, d, b)) == parse_u32_digits(d),
{
    reveal_strlit("data-wait");
    reveal_strlit("class=\"countdown\"");
    reveal_strlit("var");
    let t = var_c_spaced_page(p, w1, w2, w3, d, b);
    let pl = p.len() as int;
    let l = var_lit().len() as int;
    let dl = d.len() as int;
    let rest = w1 + seq!['c'] + w2 + seq!['='] + w3 + d + b;
    assert(p + (var_lit() + rest) =~= t);
    lemma_no_wait_in_prefix(p, var_lit() + rest);
    assert(p + var_lit() + rest =~= t);
    lemma_lit_in_middle(p, var_lit(), rest);
    assert(t[pl + 0] == 'v');
    assert(!fold_lit_at(t, pl, data_wait_lit())) by {
        assert(!fold_eq(t[pl + 0], data_wait_lit()[0]));
    }
    assert(!fold_lit_at(t, pl, countdown_lit())) by {
        assert(!fold_eq(t[pl + 0], countdown_lit()[0]));
    }
    let j = pl + l + w1.len();
    assert forall|x: int| pl + l <= x < j implies is_white_space(#[trigger] t[x]) by {
        assert(t[x] == w1[x - pl - l]);
    }
    assert(t[j] == 'c');
    lemma_skip_ws_intro(t, pl + l, j);
    let k = j + 1 + w2.len();
    assert forall|x: int| j + 1 <= x < k implies is_white_space(#[trigger] t[x]) by {
        assert(t[x] == w2[x - j - 1]);
    }
    assert(t[k] == '=');
    lemma_skip_ws_intro(t, j + 1, k);
    let m = k + 1 + w3.len();
    assert forall|x: int| k + 1 <= x < m implies is_white_space(#[trigger] t[x]) by {
        assert(t[x] == w3[x - k - 1]);
    }
    assert(t[m] == d[0]);
    lemma_skip_ws_intro(t, k + 1, m);
    assert forall|x: int| m <= x < m + dl implies is_decimal_digit(#[trigger] t[x]) by {
        assert(t[x] == d[x - m]);
    }
    if b.len() > 0 {
        assert(t[m + dl] == b[0]);
    }
    lemma_decimal_run_end_intro(t, m, m + dl);
    assert(var_c_at(t, pl) == Some((m, m + dl)));
    assert(t.subrange(m, m + dl) =~= d);
}

/// `<label> :</th><td><text></td>`.
pub open spec fn cell_page(label: Seq<char>, text: Seq<char>) -> Seq<char> {
    label + seq![' ', ':'] + th_close_lit() + td_open_lit() + text + td_close_lit()
}

proof fn lemma_next_index_of_intro(t: Seq<char>, i: int, e: int, c: char)
    requires
        0 <= i <= e <= t.len(),
        forall|j: int| i <= j < e ==> #[trigger] t[j] != c,
        e == t.len() || t[e] == c,
    ensures
        next_index_of(t, i, c) == e,
    decreases e - i,
{
    if i < e {
        lemma_next_index_of_intro(t, i + 1, e, c);
    }
}

/// A labelled cell is read whole: a `Filename` or `Size` label (in any ASCII
/// case), ` :`, `</th>`, `<td>`, a non-empty text without `<`, and `</td>`
/// give that text.
pub proof fn law_labelled_cell(lit: Seq<char>, label: Seq<char>, text: Seq<char>)
    requires
        lit == filename_lit() || lit == size_lit(),
        crate::text::eq_ascii_ci(label, lit),
        text.len() > 0,
        forall|i: int| 0 <= i < text.len() ==> #[trigger] text[i] != '<',
    ensures
        spec_cell_text(cell_page(label, text), lit) == Some(text),
{
    reveal_strlit("filename");
    reveal_strlit("size");
    reveal_strlit("</th>");
    reveal_strlit("<td>");
    reveal_strlit("</td>");
    let t = cell_page(label, text);
    let ll = label.len() as int;
    let tl = text.len() as int;
    assert forall|j: int| 0 <= j < lit.len() implies fold_eq(#[trigger] t[0 + j], lit[j]) by {
        assert(t[0 + j] == label[j]);
        assert(crate::text::ascii_ci_eq(label[0 + j], lit[j]));
    }
    assert(fold_lit_at(t, 0, lit));
    assert(t[ll] == ' ' && t[ll + 1] == ':');
    assert(skip_ws(t, ll + 1) == ll + 1);
    assert(skip_ws(t, ll) == ll + 1);
    let k = ll + 2;
    assert(t[k] == '<');
    assert(skip_ws(t, k) == k);
    lemma_lit_in_middle(label + seq![' ', ':'], th_close_lit(), td_open_lit() + text + td_close_lit());
    assert(label + seq![' ', ':'] + th_close_lit() + (td_open_lit() + text + td_close_lit()) =~= t);
    let m = k + 5;
    assert(t[m] == '<');
    assert(skip_ws(t, m) == m);
    lemma_lit_in_middle(label + seq![' ', ':'] + th_close_lit(), td_open_lit(), text + td_close_lit());
    assert(label + seq![' ', ':'] + th_close_lit() + td_open_lit() + (text + td_close_lit()) =~= t);
    let s = m + 4;
    assert forall|j: int| s <= j < s + tl implies #[trigger] t[j] != '<' by {
        assert(t[j] == text[j - s]);
    }
    assert(t[s + tl] == '<');
    lemma_next_index_of_intro(t, s, s + tl, '<');
    lemma_lit_in_middle(label + seq![' ', ':'] + th_close_lit() + td_open_lit() + text, td_close_lit(), Seq::empty());
    assert(label + seq![' ', ':'] + th_close_lit() + td_open_lit() + text + td_close_lit()
        + Seq::<char>::empty() =~= t);
    assert(cell_at(t, 0, lit) == Some((s, s + tl)));
    assert(t.subrange(s, s + tl) =~= text);
}

proof fn lemma_first_cell_skip(t: Seq<char>, label: Seq<char>, k: int, n: int)
    requires
        0 <= k <= n <= t.len(),
        forall|i: int| k <= i < n ==> #[trigger] cell_at(t, i, label) is None,
    ensures
        first_cell_from(t, label, k) == first_cell_from(t, label, n),
    decreases n - k,
{
    if k < n {
        lemma_first_cell_skip(t, label, k + 1, n);
    }
}

/// `<p><label><w1>:<w2></th><w3><td><text></td><b>`.
pub open spec fn cell_spaced_page(
    p: Seq<char>,
    label: Seq<char>,
    w1: Seq<char>,
    w2: Seq<char>,
    w3: Seq<char>,
    text: Seq<char>,
    b: Seq<char>,
) -> Seq<char> {
    p + label + w1 + seq![':'] + w2 + th_close_lit() + w3 + td_open_lit() + text + td_close_lit()
        + b
}

/// A labelled cell is read whole with any white space around its colon and
/// between `</th>` and `<td>`: a `Filename` or `Size` label (in any ASCII
/// case) and a non-empty text without `<` give that text, after any text
/// that holds no character that could begin the label and before anything.
#[verifier::rlimit(60)]
#[verifier::spinoff_prover]
pub proof fn law_labelled_cell_spaced(
    lit: Seq<char>,
    p: Seq<char>,
    label: Seq<char>,
    w1: Seq<char>,
    w2: Seq<char>,
    w3: Seq<char>,
    text: Seq<char>,
    b: Seq<char>,
)
    requires
        lit == filename_lit() || lit == size_lit(),
        forall|i: int| 0 <= i < p.len() ==> !fold_eq(#[trigger] p[i], lit[0]),
        crate::text::eq_ascii_ci(label, lit),
        is_ws_run(w1),
        is_ws_run(w2),
        is_ws_run(w3),
        text.len() > 0,
        forall|i: int| 0 <= i < text.len() ==> #[trigger] text[i] != '<',
    ensures
        spec_cell_text(cell_spaced_page(p, label, w1, w2, w3, text, b), lit) == Some(text),
{
    reveal_strlit("filename");
    reveal_strlit("size");
    reveal_strlit("</th>");
    reveal_strlit("<td>");
    reveal_strlit("</td>");
    let t = cell_spaced_page(p, label, w1, w2, w3, text, b);
    let pl = p.len() as int;
    let ll = label.len() as int;
    let tl = text.len() as int;
    assert forall|i: int| 0 <= i < pl implies #[trigger] cell_at(t, i, lit) is None by {
        assert(t[i + 0] == p[i]);
        assert(!fold_eq(t[i + 0], lit[0]));
    }
    lemma_first_cell_skip(t, lit, 0, pl);
    assert forall|j: int| 0 <= j < lit.len() implies fold_eq(#[trigger] t[pl + j], lit[j]) by {
        assert(t[pl + j] == label[j]);
        assert(crate::text::ascii_ci_eq(label[0 + j], lit[j]));
    }
    assert(fold_lit_at(t, pl, lit));
    let j = pl + ll + w1.len();
    assert forall|x: int| pl + ll <= x < j implies is_white_space(#[trigger] t[x]) by {
        assert(t[x] == w1[x - pl - ll]);
    }
    assert(t[j] == ':');
    lemma_skip_ws_intro(t, pl + ll, j);
    let k = j + 1 + w2.len();
    assert forall|x: int| j + 1 <= x < k implies is_white_space(#[trigger] t[x]) by {
        assert(t[x] == w2[x - j - 1]);
    }
    let pre_th = p + label + w1 + seq![':'] + w2;
    let post_th = w3 + td_open_lit() + text + td_close_lit() + b;
    assert(pre_th + th_close_lit() + post_th =~= t);
    lemma_lit_in_middle(pre_th, th_close_lit(), post_th);
    assert(t[k] == '<');
    lemma_skip_ws_intro(t, j + 1, k);
    let k2 = k + 5;
    let m = k2 + w3.len();
    assert forall|x: int| k2 <= x < m implies is_white_space(#[trigger] t[x]) by {
        assert(t[x] == w3[x - k2]);
    }
    let pre_td = pre_th + th_close_lit() + w3;
    let post_td = text + td_close_lit() + b;
    assert(pre_td + td_open_lit() + post_td =~= t);
    lemma_lit_in_middle(pre_td, td_open_lit(), post_td);
    assert(t[m] == '<');
    lemma_skip_ws_intro(t, k2, m);
    let s = m + 4;
    assert forall|x: int| s <= x < s + tl implies #[trigger] t[x] != '<' by {
        assert(t[x] == text[x - s]);
    }
    let pre_end = pre_td + td_open_lit() + text;
    assert(pre_end + td_close_lit() + b =~= t);
    lemma_lit_in_middle(pre_end, td_close_lit(), b);
    assert(t[s + tl] == '<');
    lemma_next_index_of_intro(t, s, s + tl, '<');
    assert(cell_at(t, pl, lit) == Some((s, s + tl)));
    lemma_first_cell_skip(t, lit, pl, pl);
    assert(t.subrange(s, s + tl) =~= text);
}

proof fn lemma_word_in_middle(a: Seq<char>, w: Seq<char>, lit: Seq<char>, b: Seq<char>)
    requires
        crate::text::eq_ascii_ci(w, lit),
    ensures
        fold_lit_at(a + w + b, a.len() as int, lit),
{
    let t = a + w + b;
    assert forall|j: int| 0 <= j < lit.len() implies fold_eq(#[trigger] t[a.len() + j], lit[j]) by {
        assert(t[a.len() + j] == w[j]);
        assert(crate::text::ascii_ci_eq(w[0 + j], lit[j]));
    }
}

/// A page that says anywhere, in any ASCII case, that the file is no longer
/// available, could not be found, was not found or is "introuvable" is an
/// offline page.
pub proof fn law_offline_phrase_any_case(before: Seq<char>, w: Seq<char>, after: Seq<char>)
    requires
        crate::text::eq_ascii_ci(w, offline_lit_1()) || crate::text::eq_ascii_ci(w, offline_lit_2())
            || crate::text::eq_ascii_ci(w, offline_lit_3()) || crate::text::eq_ascii_ci(
            w,
            offline_lit_4(),
        ),
    ensures
        spec_is_offline_page(before + w + after),
{
    let t = before + w + after;
    let i = before.len() as int;
    if crate::text::eq_ascii_ci(w, offline_lit_1()) {
        lemma_word_in_middle(before, w, offline_lit_1(), after);
    } else if crate::text::eq_ascii_ci(w, offline_lit_2()) {
        lemma_word_in_middle(before, w, offline_lit_2(), after);
    } else if crate::text::eq_ascii_ci(w, offline_lit_3()) {
        lemma_word_in_middle(before, w, offline_lit_3(), after);
    } else {
        lemma_word_in_middle(before, w, offline_lit_4(), after);
    }
    assert(offline_at(t, i));
}

/// A page that mentions `g-recaptcha` or `h-captcha` anywhere, in any ASCII
/// case, ships a captcha.
pub proof fn law_captcha_marker_any_case(before: Seq<char>, w: Seq<char>, after: Seq<char>)
    requires
        crate::text::eq_ascii_ci(w, recaptcha_lit()) || crate::text::eq_ascii_ci(w, hcaptcha_lit()),
    ensures
        spec_detect_captcha(before + w + after),
{
    let t = before + w + after;
    let i = before.len() as int;
    if crate::text::eq_ascii_ci(w, recaptcha_lit()) {
        lemma_word_in_middle(before, w, recaptcha_lit(), after);
    } else {
        lemma_word_in_middle(before, w, hcaptcha_lit(), after);
    }
    assert(captcha_at(t, i));
}

/// `<before><cls><w1>=<w2>"captcha"<after>`.
pub open spec fn captcha_class_page(
    before: Seq<char>,
    cls: Seq<char>,
    w1: Seq<char>,
    w2: Seq<char>,
    after: Seq<char>,
) -> Seq<char> {
    before + cls + w1 + seq!['='] + w2 + quoted_captcha_lit() + after
}

/// A page with an element of class `"captcha"` ships a captcha, with `class`
/// in any ASCII case and any white space around the `=`.
pub proof fn law_captcha_class_spaced(
    before: Seq<char>,
    cls: Seq<char>,
    w1: Seq<char>,
    w2: Seq<char>,
    after: Seq<char>,
)
    requires
        crate::text::eq_ascii_ci(cls, class_lit()),
        is_ws_run(w1),
        is_ws_run(w2),
    ensures
        spec_detect_captcha(captcha_class_page(before, cls, w1, w2, after)),
{
    reveal_strlit("class");
    reveal_strlit("\"captcha\"");
    let t = captcha_class_page(before, cls, w1, w2, after);
    let i = before.len() as int;
    let rest = w1 + seq!['='] + w2 + quoted_captcha_lit() + after;
    assert(before + cls + rest =~= t);
    lemma_word_in_middle(before, cls, class_lit(), rest);
    let j = i + cls.len() + w1.len();
    assert forall|x: int| i + cls.len() <= x < j implies is_white_space(#[trigger] t[x]) by {
        assert(t[x] == w1[x - i - cls.len()]);
    }
    assert(t[j] == '=');
    lemma_skip_ws_intro(t, i + cls.len(), j);
    let k = j + 1 + w2.len();
    assert forall|x: int| j + 1 <= x < k implies is_white_space(#[trigger] t[x]) by {
        assert(t[x] == w2[x - j - 1]);
    }
    let pre = before + cls + w1 + seq!['='] + w2;
    assert(pre + quoted_captcha_lit() + after =~= t);
    lemma_lit_in_middle(pre, quoted_captcha_lit(), after);
    assert(t[k] == '"');
    lemma_skip_ws_intro(t, j + 1, k);
    assert(class_captcha_at(t, i));
    assert(captcha_at(t, i));
}

/// A range moved `n` positions to the right.
pub open spec fn shift_range(o: Option<(int, int)>, n: int) -> Option<(int, int)> {
    match o {
        Some((a, b)) => Some((a + n, b + n)),
        None => None,
    }
}

proof fn lemma_wait_at_shift(p: Seq<char>, s: Seq<char>, i: int)
    requires
        0 <= i <= s.len(),
    ensures
        wait_at(p + s, p.len() + i) == shift_range(wait_at(s, i), p.len() as int),
{
    let t = p + s;
    let n = p.len() as int;
    lemma_fold_lit_at_shift(p, s, i, data_wait_lit());
    lemma_fold_lit_at_shift(p, s, i, countdown_lit());
    lemma_fold_lit_at_shift(p, s, i, var_lit());
    if fold_lit_at(s, i, data_wait_lit()) {
        let l = data_wait_lit().len() as int;
        lemma_scans_shift(p, s, i + l, '"');
        lemma_skip_ws(s, i + l);
        let j = skip_ws(s, i + l);
        if j < s.len() {
            assert(t[n + j] == s[j]);
            lemma_scans_shift(p, s, j + 1, '"');
            lemma_skip_ws(s, j + 1);
            let k = skip_ws(s, j + 1);
            if k < s.len() {
                assert(t[n + k] == s[k]);
                lemma_scans_shift(p, s, k + 1, '"');
                lemma_decimal_run_end(s, k + 1);
                let e = decimal_run_end(s, k + 1);
                if e < s.len() {
                    assert(t[n + e] == s[e]);
                }
            }
        }
    }
    if fold_lit_at(s, i, countdown_lit()) {
        let l = countdown_lit().len() as int;
        lemma_scans_shift(p, s, i + l, '>');
        lemma_next_index_of(s, i + l, '>');
        let j = next_index_of(s, i + l, '>');
        if j < s.len() {
            lemma_scans_shift(p, s, j + 1, '>');
            lemma_decimal_run_end(s, j + 1);
            let e = decimal_run_end(s, j + 1);
            lemma_fold_lit_at_shift(p, s, e, span_close_lit());
        }
    }
    if fold_lit_at(s, i, var_lit()) {
        let l = var_lit().len() as int;
        lemma_scans_shift(p, s, i + l, '=');
        lemma_skip_ws(s, i + l);
        let j = skip_ws(s, i + l);
        if j < s.len() {
            assert(t[n + j] == s[j]);
            lemma_scans_shift(p, s, j + 1, '=');
            lemma_skip_ws(s, j + 1);
            let k = skip_ws(s, j + 1);
            if k < s.len() {
                assert(t[n + k] == s[k]);
                lemma_scans_shift(p, s, k + 1, '=');
                lemma_skip_ws(s, k + 1);
                let m = skip_ws(s, k + 1);
                lemma_scans_shift(p, s, m, '=');
            }
        }
    }
}

proof fn lemma_first_wait_shift(p: Seq<char>, s: Seq<char>, i: int)
    requires
        0 <= i <= s.len() + 1,
    ensures
        first_wait_from(p + s, p.len() + i) == shift_range(first_wait_from(s, i), p.len() as int),
    decreases s.len() + 1 - i,
{
    if i <= s.len() {
        lemma_wait_at_shift(p, s, i);
        if wait_at(s, i) is None {
            lemma_first_wait_shift(p, s, i + 1);
        }
    }
}

proof fn lemma_first_wait_bounds(t: Seq<char>, i: int)
    ensures
        first_wait_from(t, i) matches Some((a, b)) ==> 0 <= a < b <= t.len(),
    decreases t.len() + 1 - i,
{
    if !(i < 0 || i > t.len()) {
        lemma_wait_at_bounds(t, i);
        if wait_at(t, i) is None {
            lemma_first_wait_bounds(t, i + 1);
        }
    }
}

/// The wait is that of the leftmost match: text put before a page, in which
/// no wait match begins, leaves the page's wait as it is.
pub proof fn law_wait_after_text(p: Seq<char>, s: Seq<char>)
    requires
        forall|i: int| 0 <= i < p.len() ==> #[trigger] wait_at(p + s, i) is None,
    ensures
        spec_wait_seconds(p + s) == spec_wait_seconds(s),
{
    let t = p + s;
    let n = p.len() as int;
    lemma_first_wait_skip(t, 0, n);
    lemma_first_wait_shift(p, s, 0);
    lemma_first_wait_bounds(s, 0);
    if let Some((a, b)) = first_wait_from(s, 0) {
        assert(t.subrange(n + a, n + b) =~= s.subrange(a, b));
    }
}

proof fn lemma_cell_at_shift(p: Seq<char>, s: Seq<char>, i: int, label: Seq<char>)
    requires
        0 <= i <= s.len(),
    ensures
        cell_at(p + s, p.len() + i, label) == shift_range(cell_at(s, i, label), p.len() as int),
{
    let t = p + s;
    let n = p.len() as int;
    lemma_fold_lit_at_shift(p, s, i, label);
    if fold_lit_at(s, i, label) {
        lemma_scans_shift(p, s, i + label.len(), '<');
        lemma_skip_ws(s, i + label.len());
        let j = skip_ws(s, i + label.len());
        if j < s.len() {
            assert(t[n + j] == s[j]);
            lemma_scans_shift(p, s, j + 1, '<');
            lemma_skip_ws(s, j + 1);
            let k = skip_ws(s, j + 1);
            lemma_fold_lit_at_shift(p, s, k, th_close_lit());
            if fold_lit_at(s, k, th_close_lit()) {
                lemma_scans_shift(p, s, k + th_close_lit().len(), '<');
                lemma_skip_ws(s, k + th_close_lit().len());
                let m = skip_ws(s, k + th_close_lit().len());
                lemma_fold_lit_at_shift(p, s, m, td_open_lit());
                if fold_lit_at(s, m, td_open_lit()) {
                    lemma_scans_shift(p, s, m + td_open_lit().len(), '<');
                    lemma_next_index_of(s, m + td_open_lit().len(), '<');
                    let e = next_index_of(s, m + td_open_lit().len(), '<');
                    lemma_fold_lit_at_shift(p, s, e, td_close_lit());
                }
            }
        }
    }
}

proof fn lemma_first_cell_shift(p: Seq<char>, s: Seq<char>, label: Seq<char>, i: int)
    requires
        0 <= i <= s.len() + 1,
    ensures
        first_cell_from(p + s, label, p.len() + i) == shift_range(
            first_cell_from(s, label, i),
            p.len() as int,
        ),
    decreases s.len() + 1 - i,
{
    if i <= s.len() {
        lemma_cell_at_shift(p, s, i, label);
        if cell_at(s, i, label) is None {
            lemma_first_cell_shift(p, s, label, i + 1);
        }
    }
}

proof fn lemma_first_cell_bounds(t: Seq<char>, label: Seq<char>, i: int)
    ensures
        first_cell_from(t, label, i) matches Some((a, b)) ==> 0 <= a < b <= t.len(),
    decreases t.len() + 1 - i,
{
    if !(i < 0 || i > t.len()) {
        lemma_cell_at_bounds(t, i, label);
        if cell_at(t, i, label) is None {
            lemma_first_cell_bounds(t, label, i + 1);
        }
    }
}

/// A labelled cell is that of the leftmost match: text put before a page, in
/// which no cell with that label begins, leaves the page's cell as it is.
pub proof fn law_cell_after_text(p: Seq<char>, s: Seq<char>, label: Seq<char>)
    requires
        forall|i: int| 0 <= i < p.len() ==> #[trigger] cell_at(p + s, i, label) is None,
    ensures
        spec_cell_text(p + s, label) == spec_cell_text(s, label),
{
    let t = p + s;
    let n = p.len() as int;
    lemma_first_cell_skip(t, label, 0, n);
    lemma_first_cell_shift(p, s, label, 0);
    lemma_first_cell_bounds(s, label, 0);
    if let Some((a, b)) = first_cell_from(s, label, 0) {
        assert(t.subrange(n + a, n + b) =~= s.subrange(a, b));
    }
}

} // verus!
