//! 1fichier URL detection and parsing.
//!
//! Recognised shapes:
//! - File: `https://1fichier.com/?<id>`, where the id is at least six ASCII
//!   letters or digits;
//! - File: `https://www.1fichier.com/?<id>`, the alias host.
//!
//! The scheme is `http` or `https` and the host is compared ignoring ASCII
//! case. Trailing `&` query parameters and fragments are tolerated and
//! stripped. Anything else is [`UrlKind::Unknown`].
use vstd::prelude::*;
use crate::text::{
    eq_ascii_ci, eq_ascii_ci_exec, index_of, index_of_exec, index_of_seq, index_of_seq_exec,
    index_of_seq_from, is_ascii_alnum, last_index_before, last_index_of, last_index_of_exec,
    lemma_index_of, lemma_index_of_intro, lemma_last_index_before, str_chars, ascii_ci_eq, string_from_chars, sub_vec,
};

verus! {

#[derive(Debug, Clone, Copy, PartialEq, Eq, Structural)]
pub enum UrlKind {
    /// Single file link: `1fichier.com/?<id>`
    File,
    /// Anything else.
    Unknown,
}

// ── The URL grammar ─────────────────────────────────────────────────────────

pub open spec fn scheme_separator() -> Seq<char> {
    seq![':', '/', '/']
}

pub open spec fn http_lit() -> Seq<char> {
    seq!['h', 't', 't', 'p']
}

pub open spec fn https_lit() -> Seq<char> {
    seq!['h', 't', 't', 'p', 's']
}

pub open spec fn host_lit() -> Seq<char> {
    seq!['1', 'f', 'i', 'c', 'h', 'i', 'e', 'r', '.', 'c', 'o', 'm']
}

pub open spec fn www_host_lit() -> Seq<char> {
    seq!['w', 'w', 'w', '.', '1', 'f', 'i', 'c', 'h', 'i', 'e', 'r', '.', 'c', 'o', 'm']
}

/// The host of an authority (user info already removed): a bracketed IPv6
/// literal up to and including its `]`, or everything before the first `:`.
pub open spec fn spec_extract_host(a: Seq<char>) -> Option<Seq<char>> {
    if a.len() == 0 {
        None
    } else if a[0] == '[' {
        match index_of(a.skip(1), ']') {
            Some(c) => Some(a.take(c + 2)),
            None => None,
        }
    } else {
        let h = match index_of(a, ':') {
            Some(c) => a.take(c),
            None => a,
        };
        if h.len() == 0 {
            None
        } else {
            Some(h)
        }
    }
}

/// Splits an `http`/`https` URL into its host and the rest (path, query and
/// fragment; `/` when the URL has none).
pub open spec fn spec_validate_and_split(url: Seq<char>) -> Option<(Seq<char>, Seq<char>)> {
    match index_of_seq(url, scheme_separator()) {
        None => None,
        Some(i) => {
            let scheme = url.take(i);
            let rest = url.skip(i + 3);
            if !eq_ascii_ci(scheme, http_lit()) && !eq_ascii_ci(scheme, https_lit()) {
                None
            } else {
                let authority = match index_of(rest, '/') {
                    Some(j) => rest.take(j),
                    None => rest,
                };
                let path_and_query = match index_of(rest, '/') {
                    Some(j) => rest.skip(j),
                    None => seq!['/'],
                };
                let no_user = match last_index_of(authority, '@') {
                    Some(k) => authority.skip(k + 1),
                    None => authority,
                };
                match spec_extract_host(no_user) {
                    None => None,
                    Some(host) => if host.len() == 0 {
                        None
                    } else {
                        Some((host, path_and_query))
                    },
                }
            }
        },
    }
}

pub open spec fn spec_is_1fichier_host(host: Seq<char>) -> bool {
    eq_ascii_ci(host, host_lit()) || eq_ascii_ci(host, www_host_lit())
}

/// The query of a path-and-query whose fragment is dropped and whose path is
/// empty or `/`.
pub open spec fn spec_path_query_to_query(pq: Seq<char>) -> Option<Seq<char>> {
    let no_frag = match index_of(pq, '#') {
        Some(i) => pq.take(i),
        None => pq,
    };
    match index_of(no_frag, '?') {
        None => None,
        Some(q) => {
            let path = no_frag.take(q);
            if path.len() == 0 || path == seq!['/'] {
                Some(no_frag.skip(q + 1))
            } else {
                None
            }
        },
    }
}

/// The end of the run of ASCII letters and digits that starts at `i`.
pub open spec fn alnum_run_end(s: Seq<char>, i: int) -> int
    decreases s.len() - i,
{
    if 0 <= i < s.len() && is_ascii_alnum(s[i]) {
        alnum_run_end(s, i + 1)
    } else {
        i
    }
}

/// The file id at the start of a query: `^([A-Za-z0-9]{6,})(?:&|$)`.
pub open spec fn spec_file_id_token(q: Seq<char>) -> Option<Seq<char>> {
    let e = alnum_run_end(q, 0);
    if e >= 6 && (e == q.len() || q[e] == '&') {
        Some(q.take(e))
    } else {
        None
    }
}

/// The file id of a recognised 1fichier file URL.
pub open spec fn spec_extract_file_id(url: Seq<char>) -> Option<Seq<char>> {
    match spec_validate_and_split(url) {
        None => None,
        Some((host, pq)) => if !spec_is_1fichier_host(host) {
            None
        } else {
            match spec_path_query_to_query(pq) {
                None => None,
                Some(q) => spec_file_id_token(q),
            }
        },
    }
}

pub open spec fn spec_classify_url(url: Seq<char>) -> UrlKind {
    if spec_extract_file_id(url) is Some {
        UrlKind::File
    } else {
        UrlKind::Unknown
    }
}

pub open spec fn opt_string_view(o: Option<String>) -> Option<Seq<char>> {
    match o {
        Some(s) => Some(s@),
        None => None,
    }
}

// ── Implementation ──────────────────────────────────────────────────────────

pub fn classify_url(url: &str) -> (kind: UrlKind)
    ensures
        kind == spec_classify_url(url@),
        kind == UrlKind::File <==> spec_extract_file_id(url@) is Some,
{
    if extract_file_id(url).is_some() {
        UrlKind::File
    } else {
        UrlKind::Unknown
    }
}

/// Extract the file id from a recognised file URL.
pub fn extract_file_id(url: &str) -> (id: Option<String>)
    ensures
        opt_string_view(id) == spec_extract_file_id(url@),
{
    let u = str_chars(url);
    match extract_file_id_chars(&u) {
        Some(v) => Some(string_from_chars(&v)),
        None => None,
    }
}

fn extract_file_id_chars(url: &[char]) -> (id: Option<Vec<char>>)
    ensures
        match id {
            Some(v) => spec_extract_file_id(url@) == Some(v@),
            None => spec_extract_file_id(url@) is None,
        },
{
    let (host, path_and_query) = match validate_and_split(url) {
        Some(parts) => parts,
        None => return None,
    };
    if !is_1fichier_host(&host) {
        return None;
    }
    let query = match path_query_to_query(&path_and_query) {
        Some(q) => q,
        None => return None,
    };
    file_id_token(&query)
}

fn is_1fichier_host(host: &[char]) -> (b: bool)
    ensures
        b == spec_is_1fichier_host(host@),
{
    let plain = ['1', 'f', 'i', 'c', 'h', 'i', 'e', 'r', '.', 'c', 'o', 'm'];
    let www = ['w', 'w', 'w', '.', '1', 'f', 'i', 'c', 'h', 'i', 'e', 'r', '.', 'c', 'o', 'm'];
    assert(plain@ =~= host_lit());
    assert(www@ =~= www_host_lit());
    eq_ascii_ci_exec(host, &plain) || eq_ascii_ci_exec(host, &www)
}

fn path_query_to_query(pq: &[char]) -> (q: Option<Vec<char>>)
    ensures
        match q {
            Some(v) => spec_path_query_to_query(pq@) == Some(v@),
            None => spec_path_query_to_query(pq@) is None,
        },
{
    let no_frag = match index_of_exec(pq, '#') {
        Some(i) => sub_vec(pq, 0, i),
        None => sub_vec(pq, 0, pq.len()),
    };
    assert(pq@.subrange(0, pq@.len() as int) =~= pq@);
    let q = match index_of_exec(&no_frag, '?') {
        Some(q) => q,
        None => return None,
    };
    let path_ok = q == 0 || (q == 1 && no_frag[0] == '/');
    proof {
        let path = no_frag@.take(q as int);
        if q == 1 && no_frag@[0] == '/' {
            assert(path =~= seq!['/']);
        }
        if path == seq!['/'] {
            assert(path.len() == 1 && path[0] == '/');
        }
    }
    if !path_ok {
        return None;
    }
    Some(sub_vec(&no_frag, q + 1, no_frag.len()))
}

fn alnum_run_end_exec(s: &[char], i: usize) -> (r: usize)
    requires
        i <= s@.len(),
    ensures
        r == alnum_run_end(s@, i as int),
        i <= r <= s@.len(),
{
    let mut k = i;
    while k < s.len() && (('0' <= s[k] && s[k] <= '9') || ('a' <= s[k] && s[k] <= 'z') || ('A'
        <= s[k] && s[k] <= 'Z'))
        invariant
            i <= k <= s@.len(),
            alnum_run_end(s@, k as int) == alnum_run_end(s@, i as int),
        decreases s.len() - k,
    {
        k = k + 1;
    }
    k
}

fn file_id_token(q: &[char]) -> (id: Option<Vec<char>>)
    ensures
        match id {
            Some(v) => spec_file_id_token(q@) == Some(v@),
            None => spec_file_id_token(q@) is None,
        },
{
    let e = alnum_run_end_exec(q, 0);
    if e >= 6 && (e == q.len() || q[e] == '&') {
        let v = sub_vec(q, 0, e);
        Some(v)
    } else {
        None
    }
}

fn extract_host(a: &[char]) -> (h: Option<Vec<char>>)
    ensures
        match h {
            Some(v) => spec_extract_host(a@) == Some(v@),
            None => spec_extract_host(a@) is None,
        },
{
    if a.len() == 0 {
        return None;
    }
    if a[0] == '[' {
        let rest = sub_vec(a, 1, a.len());
        assert(rest@ =~= a@.skip(1));
        match index_of_exec(&rest, ']') {
            Some(c) => {
                proof {
                    lemma_index_of(rest@, ']');
                }
                return Some(sub_vec(a, 0, c + 2));
            },
            None => return None,
        }
    }
    let h = match index_of_exec(a, ':') {
        Some(c) => sub_vec(a, 0, c),
        None => sub_vec(a, 0, a.len()),
    };
    assert(a@.subrange(0, a@.len() as int) =~= a@);
    if h.len() == 0 {
        None
    } else {
        Some(h)
    }
}

fn validate_and_split(url: &[char]) -> (parts: Option<(Vec<char>, Vec<char>)>)
    ensures
        match parts {
            Some((h, pq)) => spec_validate_and_split(url@) == Some((h@, pq@)),
            None => spec_validate_and_split(url@) is None,
        },
{
    let sep = [':', '/', '/'];
    assert(sep@ =~= scheme_separator());
    let i = match index_of_seq_exec(url, &sep) {
        Some(i) => i,
        None => return None,
    };
    proof {
        lemma_index_of_seq_bounds(url@, scheme_separator(), 0);
        assert(index_of_seq(url@, scheme_separator()) == Some(i as int));
        assert(i + 3 <= url@.len());
    }
    let n = url.len();
    let scheme = sub_vec(url, 0, i);
    let rest = sub_vec(url, i + 3, n);
    assert(scheme@ =~= url@.take(i as int));
    assert(rest@ =~= url@.skip(i + 3));
    let http = ['h', 't', 't', 'p'];
    let https = ['h', 't', 't', 'p', 's'];
    assert(http@ =~= http_lit());
    assert(https@ =~= https_lit());
    if !eq_ascii_ci_exec(&scheme, &http) && !eq_ascii_ci_exec(&scheme, &https) {
        return None;
    }
    let slash = index_of_exec(&rest, '/');
    proof {
        lemma_index_of(rest@, '/');
    }
    let (authority, path_and_query) = match slash {
        Some(j) => (sub_vec(&rest, 0, j), sub_vec(&rest, j, rest.len())),
        None => (sub_vec(&rest, 0, rest.len()), vec!['/']),
    };
    assert(rest@.subrange(0, rest@.len() as int) =~= rest@);
    let no_user = match last_index_of_exec(&authority, '@') {
        Some(k) => {
            proof {
                lemma_last_index_before(authority@, '@', authority@.len() as int);
            }
            sub_vec(&authority, k + 1, authority.len())
        },
        None => sub_vec(&authority, 0, authority.len()),
    };
    assert(authority@.subrange(0, authority@.len() as int) =~= authority@);
    let host = match extract_host(&no_user) {
        Some(h) => h,
        None => return None,
    };
    if host.len() == 0 {
        return None;
    }
    Some((host, path_and_query))
}

pub proof fn lemma_index_of_seq_bounds(s: Seq<char>, pat: Seq<char>, i: int)
    ensures
        index_of_seq_from(s, pat, i) matches Some(k) ==> i <= k && k + pat.len() <= s.len()
            && s.subrange(k, k + pat.len()) == pat,
    decreases s.len() + 1 - i,
{
    if !(i < 0 || i + pat.len() > s.len()) && s.subrange(i, i + pat.len()) != pat {
        lemma_index_of_seq_bounds(s, pat, i + 1);
    }
}


// ── Laws ────────────────────────────────────────────────────────────────────

proof fn lemma_index_of_seq_from_intro(s: Seq<char>, pat: Seq<char>, i: int, k: int)
    requires
        0 <= i <= k,
        k + pat.len() <= s.len(),
        s.subrange(k, k + pat.len()) == pat,
        forall|j: int| i <= j < k ==> #[trigger] s.subrange(j, j + pat.len()) != pat,
    ensures
        index_of_seq_from(s, pat, i) == Some(k),
    decreases k - i,
{
    if i < k {
        assert(s.subrange(i, i + pat.len()) != pat);
        lemma_index_of_seq_from_intro(s, pat, i + 1, k);
    }
}

proof fn lemma_alnum_run_end_intro(s: Seq<char>, i: int, e: int)
    requires
        0 <= i <= e <= s.len(),
        forall|j: int| i <= j < e ==> is_ascii_alnum(#[trigger] s[j]),
        e == s.len() || !is_ascii_alnum(s[e]),
    ensures
        alnum_run_end(s, i) == e,
    decreases e - i,
{
    if i < e {
        lemma_alnum_run_end_intro(s, i + 1, e);
    }
}

proof fn lemma_alnum_run_end_bounds(s: Seq<char>, i: int)
    requires
        0 <= i <= s.len(),
    ensures
        i <= alnum_run_end(s, i) <= s.len(),
        forall|j: int| i <= j < alnum_run_end(s, i) ==> is_ascii_alnum(#[trigger] s[j]),
    decreases s.len() - i,
{
    if i < s.len() && is_ascii_alnum(s[i]) {
        lemma_alnum_run_end_bounds(s, i + 1);
    }
}

/// The documented file URL shape: `<scheme>://<authority>/?<id><tail>`.
pub open spec fn file_url(
    scheme: Seq<char>,
    authority: Seq<char>,
    id: Seq<char>,
    tail: Seq<char>,
) -> Seq<char> {
    scheme + scheme_separator() + authority + seq!['/', '?'] + id + tail
}

/// `s` after the last `c`, or all of `s`.
pub open spec fn after_last(s: Seq<char>, c: char) -> Seq<char> {
    match last_index_of(s, c) {
        Some(k) => s.skip(k + 1),
        None => s,
    }
}

/// `s` before the first `c`, or all of `s`.
pub open spec fn before_first(s: Seq<char>, c: char) -> Seq<char> {
    match index_of(s, c) {
        Some(k) => s.take(k),
        None => s,
    }
}

/// The host named by an authority: after its user information (up to the
/// last `@`) and before its port (from the first `:` after that).
pub open spec fn authority_host(authority: Seq<char>) -> Seq<char> {
    before_first(after_last(authority, '@'), ':')
}

/// `url` is `<scheme>://<authority>/?<id><tail>` where the scheme is `http`
/// or `https` in any ASCII case, the authority holds no `/` and names the
/// host `1fichier.com` or `www.1fichier.com` in any ASCII case (with any user
/// information and port), the id is a file id, and the tail is empty or
/// starts with `&` or `#`.
pub open spec fn is_file_url_of(
    url: Seq<char>,
    scheme: Seq<char>,
    authority: Seq<char>,
    id: Seq<char>,
    tail: Seq<char>,
) -> bool {
    &&& url == file_url(scheme, authority, id, tail)
    &&& eq_ascii_ci(scheme, http_lit()) || eq_ascii_ci(scheme, https_lit())
    &&& forall|i: int| 0 <= i < authority.len() ==> #[trigger] authority[i] != '/'
    &&& spec_is_1fichier_host(authority_host(authority))
    &&& is_file_id(id)
    &&& tail.len() == 0 || tail[0] == '&' || tail[0] == '#'
}

/// A file id: at least six ASCII letters or digits.
pub open spec fn is_file_id(id: Seq<char>) -> bool {
    id.len() >= 6 && forall|i: int| 0 <= i < id.len() ==> is_ascii_alnum(#[trigger] id[i])
}

/// Every extracted id is a file id.
pub proof fn law_extracted_id_is_file_id(url: Seq<char>)
    ensures
        spec_extract_file_id(url) matches Some(id) ==> is_file_id(id),
{
    if let Some((host, pq)) = spec_validate_and_split(url) {
        if let Some(q) = spec_path_query_to_query(pq) {
            lemma_alnum_run_end_bounds(q, 0);
        }
    }
}

/// The part of `tail` before its first `#`.
pub open spec fn before_fragment(tail: Seq<char>) -> Seq<char> {
    match index_of(tail, '#') {
        Some(t) => tail.take(t),
        None => tail,
    }
}

proof fn lemma_scheme_split(scheme: Seq<char>, rest: Seq<char>)
    requires
        eq_ascii_ci(scheme, http_lit()) || eq_ascii_ci(scheme, https_lit()),
    ensures
        index_of_seq(scheme + scheme_separator() + rest, scheme_separator()) == Some(
            scheme.len() as int,
        ),
{
    let url = scheme + scheme_separator() + rest;
    let sl = scheme.len() as int;
    let sep = scheme_separator();
    assert forall|j: int| 0 <= j < sl implies #[trigger] url.subrange(j, j + 3) != sep by {
        assert(url[j] == scheme[j]);
        assert(url.subrange(j, j + 3)[0] == url[j]);
        if eq_ascii_ci(scheme, http_lit()) {
            assert(ascii_ci_eq(scheme[0 + j], http_lit()[j]));
        } else {
            assert(ascii_ci_eq(scheme[0 + j], https_lit()[j]));
        }
    }
    assert(url.subrange(sl, sl + 3) =~= sep);
    lemma_index_of_seq_from_intro(url, sep, 0, sl);
}

proof fn lemma_host_chars(host: Seq<char>)
    requires
        spec_is_1fichier_host(host),
    ensures
        host.len() > 0,
        forall|j: int|
            0 <= j < host.len() ==> {
                let c = #[trigger] host[j];
                c != '/' && c != '@' && c != '[' && c != ':'
            },
{
    assert forall|j: int| 0 <= j < host.len() implies {
        let c = #[trigger] host[j];
        c != '/' && c != '@' && c != '[' && c != ':'
    } by {
        if eq_ascii_ci(host, host_lit()) {
            assert(ascii_ci_eq(host[0 + j], host_lit()[j]));
        } else {
            assert(ascii_ci_eq(host[0 + j], www_host_lit()[j]));
        }
    }
}

proof fn lemma_authority_split(authority: Seq<char>, pq: Seq<char>)
    requires
        forall|i: int| 0 <= i < authority.len() ==> #[trigger] authority[i] != '/',
        spec_is_1fichier_host(authority_host(authority)),
        pq.len() > 0,
        pq[0] == '/',
    ensures
        index_of(authority + pq, '/') == Some(authority.len() as int),
        spec_extract_host(after_last(authority, '@')) == Some(authority_host(authority)),
{
    let rest = authority + pq;
    let al = authority.len() as int;
    assert forall|j: int| 0 <= j < al implies #[trigger] rest[j] != '/' by {
        assert(rest[j] == authority[j]);
    }
    lemma_index_of_intro(rest, '/', al);
    let no_user = after_last(authority, '@');
    let host = authority_host(authority);
    lemma_host_chars(host);
    lemma_index_of(no_user, ':');
    if let Some(k) = index_of(no_user, ':') {
        assert(host =~= no_user.take(k));
    }
    assert(no_user.len() > 0);
    assert(no_user[0] == host[0]);
}

proof fn lemma_split_file_url(scheme: Seq<char>, authority: Seq<char>, pq: Seq<char>)
    requires
        eq_ascii_ci(scheme, http_lit()) || eq_ascii_ci(scheme, https_lit()),
        forall|i: int| 0 <= i < authority.len() ==> #[trigger] authority[i] != '/',
        spec_is_1fichier_host(authority_host(authority)),
        pq.len() > 0,
        pq[0] == '/',
    ensures
        spec_validate_and_split(scheme + scheme_separator() + authority + pq) == Some(
            (authority_host(authority), pq),
        ),
{
    let url = scheme + scheme_separator() + authority + pq;
    let sl = scheme.len() as int;
    let al = authority.len() as int;
    assert(url =~= scheme + scheme_separator() + (authority + pq));
    lemma_scheme_split(scheme, authority + pq);
    assert(url.take(sl) =~= scheme);
    let rest = url.skip(sl + 3);
    assert(rest =~= authority + pq);
    lemma_authority_split(authority, pq);
    assert(rest.take(al) =~= authority);
    assert(rest.skip(al) =~= pq);
    lemma_host_chars(authority_host(authority));
}

proof fn lemma_query_of_file_path(id: Seq<char>, tail: Seq<char>)
    requires
        is_file_id(id),
    ensures
        spec_path_query_to_query(seq!['/', '?'] + id + tail) == Some(id + before_fragment(tail)),
{
    let pq = seq!['/', '?'] + id + tail;
    let il = id.len() as int;
    lemma_index_of(tail, '#');
    match index_of(tail, '#') {
        Some(t) => {
            assert forall|j: int| 0 <= j < 2 + il + t implies #[trigger] pq[j] != '#' by {
                if j >= 2 + il {
                    assert(pq[j] == tail[j - 2 - il]);
                } else if j >= 2 {
                    assert(pq[j] == id[j - 2]);
                    assert(is_ascii_alnum(id[j - 2]));
                }
            }
            assert(pq[2 + il + t] == tail[t]);
            lemma_index_of_intro(pq, '#', 2 + il + t);
            assert(pq.take(2 + il + t) =~= seq!['/', '?'] + id + before_fragment(tail));
        },
        None => {
            assert forall|j: int| 0 <= j < pq.len() implies #[trigger] pq[j] != '#' by {
                if j >= 2 + il {
                    assert(pq[j] == tail[j - 2 - il]);
                } else if j >= 2 {
                    assert(pq[j] == id[j - 2]);
                    assert(is_ascii_alnum(id[j - 2]));
                }
            }
            lemma_index_of_intro(pq, '#', pq.len() as int);
        },
    }
    let no_frag = seq!['/', '?'] + id + before_fragment(tail);
    assert(no_frag[0] == '/');
    assert(no_frag[1] == '?');
    lemma_index_of_intro(no_frag, '?', 1);
    assert(no_frag.take(1) =~= seq!['/']);
    assert(no_frag.skip(2) =~= id + before_fragment(tail));
}

proof fn lemma_token_of_id(id: Seq<char>, rest: Seq<char>)
    requires
        is_file_id(id),
        rest.len() == 0 || rest[0] == '&',
    ensures
        spec_file_id_token(id + rest) == Some(id),
{
    let q = id + rest;
    let il = id.len() as int;
    assert forall|j: int| 0 <= j < il implies is_ascii_alnum(#[trigger] q[j]) by {
        assert(q[j] == id[j]);
    }
    if rest.len() > 0 {
        assert(q[il] == rest[0]);
    }
    lemma_alnum_run_end_intro(q, 0, il);
    assert(q.take(il) =~= id);
}

/// The recognised shapes yield their id.
pub proof fn law_file_url_yields_id(
    url: Seq<char>,
    scheme: Seq<char>,
    authority: Seq<char>,
    id: Seq<char>,
    tail: Seq<char>,
)
    requires
        is_file_url_of(url, scheme, authority, id, tail),
    ensures
        spec_extract_file_id(url) == Some(id),
{
    let pq = seq!['/', '?'] + id + tail;
    assert(file_url(scheme, authority, id, tail) =~= scheme + scheme_separator() + authority + pq);
    lemma_split_file_url(scheme, authority, pq);
    lemma_query_of_file_path(id, tail);
    let tn = before_fragment(tail);
    if tn.len() > 0 {
        lemma_index_of(tail, '#');
        if tail[0] == '#' {
            lemma_index_of_intro(tail, '#', 0);
        }
        assert(tn[0] == tail[0]);
    }
    lemma_token_of_id(id, tn);
}

/// The host that `spec_validate_and_split` finds in `url`.
pub open spec fn split_host(url: Seq<char>) -> Seq<char> {
    match spec_validate_and_split(url) {
        Some((h, _)) => h,
        None => Seq::empty(),
    }
}

/// The path and query that `spec_validate_and_split` finds in `url`.
pub open spec fn split_rest(url: Seq<char>) -> Seq<char> {
    match spec_validate_and_split(url) {
        Some((_, pq)) => pq,
        None => Seq::empty(),
    }
}

/// A URL that `spec_validate_and_split` accepts, with a 1fichier host and a
/// query, splits into scheme, authority and path-and-query.
proof fn lemma_split_of_accepted(url: Seq<char>) -> (r: (Seq<char>, Seq<char>))
    requires
        spec_validate_and_split(url) is Some,
        spec_is_1fichier_host(split_host(url)),
        spec_path_query_to_query(split_rest(url)) is Some,
    ensures
        ({
            let (scheme, authority) = r;
            let pq = split_rest(url);
            &&& url == scheme + scheme_separator() + authority + pq
            &&& eq_ascii_ci(scheme, http_lit()) || eq_ascii_ci(scheme, https_lit())
            &&& forall|i: int| 0 <= i < authority.len() ==> #[trigger] authority[i] != '/'
            &&& split_host(url) == authority_host(authority)
            &&& pq.len() > 0 && pq[0] == '/'
        }),
{
    let sep = scheme_separator();
    let i = index_of_seq(url, sep)->0;
    lemma_index_of_seq_bounds(url, sep, 0);
    let scheme = url.take(i);
    let rest = url.skip(i + 3);
    lemma_index_of(rest, '/');
    let pq = split_rest(url);
    if index_of(rest, '/') is None {
        assert(pq == seq!['/']);
        lemma_index_of(pq, '#');
        if let Some(k) = index_of(pq, '#') {
            assert(pq[k] == '#');
        }
        assert(pq.take(1) =~= pq);
        lemma_index_of(pq, '?');
        if let Some(k) = index_of(pq, '?') {
            assert(pq[k] == '?');
        }
        assert(false);
    }
    let j = index_of(rest, '/')->0;
    let authority = rest.take(j);
    assert(pq == rest.skip(j));
    assert forall|k: int| 0 <= k < authority.len() implies #[trigger] authority[k] != '/' by {
        assert(authority[k] == rest[k]);
    }
    let no_user = after_last(authority, '@');
    let h = split_host(url);
    assert(spec_extract_host(no_user) == Some(h));
    lemma_host_chars(h);
    if no_user.len() > 0 && no_user[0] == '[' {
        lemma_index_of(no_user.skip(1), ']');
        let c = index_of(no_user.skip(1), ']')->0;
        assert(h == no_user.take(c + 2));
        assert(h[0] == no_user[0]);
        assert(false);
    }
    assert(url =~= scheme + url.subrange(i, i + 3) + rest);
    assert(rest =~= authority + pq);
    (scheme, authority)
}

/// A path-and-query starting with `/` whose query holds a file id is `/?`,
/// the id, and a tail that is empty or starts with `&` or `#`.
proof fn lemma_query_of_accepted(pq: Seq<char>, id: Seq<char>) -> (tail: Seq<char>)
    requires
        pq.len() > 0,
        pq[0] == '/',
        spec_path_query_to_query(pq) matches Some(q) && spec_file_id_token(q) == Some(id),
    ensures
        pq == seq!['/', '?'] + id + tail,
        tail.len() == 0 || tail[0] == '&' || tail[0] == '#',
        is_file_id(id),
{
    let no_frag = before_fragment(pq);
    lemma_index_of(pq, '#');
    lemma_index_of(no_frag, '?');
    let q = index_of(no_frag, '?')->0;
    assert(no_frag[0] == pq[0]);
    if q == 0 {
        assert(false);
    }
    let path = no_frag.take(q);
    assert(path == seq!['/']);
    assert(path.len() == 1);
    assert(no_frag[1] == '?');
    let query = no_frag.skip(2);
    let e = alnum_run_end(query, 0);
    lemma_alnum_run_end_bounds(query, 0);
    assert(id == query.take(e));
    let tail = pq.skip(2 + e);
    assert forall|k: int| 0 <= k < e implies #[trigger] id[k] == pq[2 + k] by {
        assert(id[k] == query[k]);
        assert(query[k] == no_frag[2 + k]);
    }
    assert(pq =~= seq!['/', '?'] + id + tail);
    if tail.len() > 0 {
        if e < query.len() {
            assert(tail[0] == query[e]);
        } else {
            let k = index_of(pq, '#')->0;
            assert(no_frag.len() == k);
            assert(tail[0] == pq[k]);
        }
    }
    tail
}

/// Every extracted id comes from a URL of the recognised shape.
pub proof fn law_id_comes_from_file_url(url: Seq<char>)
    ensures
        spec_extract_file_id(url) matches Some(id) ==> exists|
            scheme: Seq<char>,
            authority: Seq<char>,
            tail: Seq<char>,
        | #[trigger] is_file_url_of(url, scheme, authority, id, tail),
{
    if let Some(id) = spec_extract_file_id(url) {
        let (scheme, authority) = lemma_split_of_accepted(url);
        let pq = split_rest(url);
        let tail = lemma_query_of_accepted(pq, id);
        assert(url =~= file_url(scheme, authority, id, tail));
        assert(is_file_url_of(url, scheme, authority, id, tail));
    }
}

/// The file ids of URLs are exactly those of the documented shapes: `url`
/// yields `id` if and only if `url` is `<scheme>://<authority>/?<id><tail>`
/// with an `http`/`https` scheme in any ASCII case, an authority without `/`
/// naming `1fichier.com` or `www.1fichier.com` in any ASCII case (user
/// information and port allowed), an id of at least six ASCII letters or
/// digits, and a tail that is empty or starts with `&` or `#`; every other
/// URL yields nothing.
pub proof fn law_file_url_shapes(url: Seq<char>, id: Seq<char>)
    ensures
        spec_extract_file_id(url) == Some(id) <==> exists|
            scheme: Seq<char>,
            authority: Seq<char>,
            tail: Seq<char>,
        | #[trigger] is_file_url_of(url, scheme, authority, id, tail),
        spec_extract_file_id(url) is None <==> !exists|
            scheme: Seq<char>,
            authority: Seq<char>,
            id2: Seq<char>,
            tail: Seq<char>,
        | #[trigger] is_file_url_of(url, scheme, authority, id2, tail),
{
    law_id_comes_from_file_url(url);
    if exists|scheme: Seq<char>, authority: Seq<char>, tail: Seq<char>| #[trigger]
        is_file_url_of(url, scheme, authority, id, tail) {
        let (scheme, authority, tail) = choose|
            scheme: Seq<char>,
            authority: Seq<char>,
            tail: Seq<char>,
        | #[trigger] is_file_url_of(url, scheme, authority, id, tail);
        law_file_url_yields_id(url, scheme, authority, id, tail);
    }
    if exists|scheme: Seq<char>, authority: Seq<char>, id2: Seq<char>, tail: Seq<char>| #[trigger]
        is_file_url_of(url, scheme, authority, id2, tail) {
        let (scheme, authority, id2, tail) = choose|
            scheme: Seq<char>,
            authority: Seq<char>,
            id2: Seq<char>,
            tail: Seq<char>,
        | #[trigger] is_file_url_of(url, scheme, authority, id2, tail);
        law_file_url_yields_id(url, scheme, authority, id2, tail);
    }
    if let Some(id3) = spec_extract_file_id(url) {
        let (scheme, authority, tail) = choose|
            scheme: Seq<char>,
            authority: Seq<char>,
            tail: Seq<char>,
        | #[trigger] is_file_url_of(url, scheme, authority, id3, tail);
        assert(is_file_url_of(url, scheme, authority, id3, tail));
    }
}

} // verus!
