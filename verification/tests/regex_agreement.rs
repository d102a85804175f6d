//! The landing page, size and URL grammars read text as the page's regular
//! expressions do: these tests run both on many generated texts.
use regex::Regex;

use vortex_mod_1fichier::free_mode::parse_size_bytes;
use vortex_mod_1fichier::landing::{
    detect_captcha, is_offline_page, locate_filename, locate_size_text, locate_wait_seconds,
};
use vortex_mod_1fichier::url_matcher::extract_file_id;

const PIECES: &[&str] = &[
    "Filename", "filename", "FILENAME", "Size", "SIZE", "\u{17F}ize", " ", "  ", "\n", "\t",
    "\u{a0}", ":", "</th>", "</TH>", "<td>", "<TD>", "</td>", "</span>", "<", ">", "a.zip",
    "x", "1", "42", "007", "1.5", "3.25", ".", " MB", "KB", "kb", "\u{212A}B", "B", "b", "GB",
    "TB", "Bytes", "é", "_", "data-wait", "=", "\"", "class=\"countdown\"", "var", " c ", "c",
    "\u{663}", "99999999999", "g-recaptcha", "h-captcha", "class", "\"captcha\"", "File not found",
    "fichier introuvable", "the requested file could not be found", "Fichier Introuvable",
];

struct Lcg(u64);

impl Lcg {
    fn next(&mut self) -> usize {
        self.0 = self.0.wrapping_mul(6364136223846793005).wrapping_add(1442695040888963407);
        (self.0 >> 33) as usize
    }
}

fn corpus() -> Vec<String> {
    let mut rng = Lcg(0x1f1c_41e5);
    let mut out = Vec::new();
    for _ in 0..3000 {
        let n = 1 + rng.next() % 12;
        let mut s = String::new();
        for _ in 0..n {
            s.push_str(PIECES[rng.next() % PIECES.len()]);
        }
        out.push(s);
    }
    out
}

fn chars(s: &str) -> Vec<char> {
    s.chars().collect()
}

fn capture(re: &Regex, s: &str) -> Option<String> {
    re.captures(s).and_then(|c| c.get(1).map(|m| m.as_str().to_string()))
}

fn reference_size(text: &str) -> Option<u64> {
    let re = Regex::new(r"(?i)([0-9]+(?:\.[0-9]+)?)\s*(B|KB|MB|GB|TB)\b").unwrap();
    let caps = re.captures(text)?;
    let value: f64 = caps.get(1)?.as_str().parse().ok()?;
    let unit = caps.get(2)?.as_str();
    let multiplier: f64 = if unit.eq_ignore_ascii_case("B") {
        1.0
    } else if unit.eq_ignore_ascii_case("KB") {
        1024.0
    } else if unit.eq_ignore_ascii_case("MB") {
        1024.0 * 1024.0
    } else if unit.eq_ignore_ascii_case("GB") {
        1024.0 * 1024.0 * 1024.0
    } else if unit.eq_ignore_ascii_case("TB") {
        1024.0 * 1024.0 * 1024.0 * 1024.0
    } else {
        return None;
    };
    let bytes = (value * multiplier).round();
    if bytes.is_finite() && bytes >= 0.0 {
        Some(bytes as u64)
    } else {
        None
    }
}

#[test]
fn offline_and_captcha_agree_with_regex() {
    let offline = Regex::new(
        r"(?i)the file you are trying to access is no longer available|the requested file could not be found|file not found|fichier introuvable",
    )
    .unwrap();
    let captcha = Regex::new(r#"(?i)g-recaptcha|h-captcha|class\s*=\s*"captcha""#).unwrap();
    for s in corpus() {
        let t = chars(&s);
        assert_eq!(is_offline_page(&t), offline.is_match(&s), "{s:?}");
        assert_eq!(detect_captcha(&t), captcha.is_match(&s), "{s:?}");
    }
}

#[test]
fn cells_agree_with_regex() {
    let filename = Regex::new(r#"(?is)Filename\s*:\s*</th>\s*<td>([^<]+)</td>"#).unwrap();
    let size = Regex::new(r#"(?is)Size\s*:\s*</th>\s*<td>([^<]+)</td>"#).unwrap();
    for s in corpus() {
        let t = chars(&s);
        let mine = locate_filename(&t).map(|v| v.into_iter().collect::<String>());
        let theirs = capture(&filename, &s);
        assert_eq!(mine, theirs, "{s:?}");
        let mine = locate_size_text(&t).map(|v| v.into_iter().collect::<String>());
        assert_eq!(mine, capture(&size, &s), "{s:?}");
    }
}

#[test]
fn wait_agrees_with_regex() {
    let wait = Regex::new(
        r#"(?is)(?:data-wait\s*=\s*"(\d+)"|class="countdown"[^>]*>(\d+)</span>|var\s+c\s*=\s*(\d+))"#,
    )
    .unwrap();
    for s in corpus() {
        let t = chars(&s);
        let theirs: Option<u32> = wait
            .captures(&s)
            .and_then(|c| c.iter().skip(1).flatten().find_map(|m| m.as_str().parse().ok()));
        assert_eq!(locate_wait_seconds(&t), theirs, "{s:?}");
    }
}

#[test]
fn size_agrees_with_floating_point_reference() {
    for s in corpus() {
        assert_eq!(parse_size_bytes(&s), reference_size(&s), "{s:?}");
    }
    for s in ["1.50 MB", "823.45 KB", "4.20 GB", "0.5 B", "12 tb", "7.0001 KB", "1 b_", "2 B."] {
        assert_eq!(parse_size_bytes(s), reference_size(s), "{s:?}");
    }
}

#[test]
fn file_id_agrees_with_regex_on_queries() {
    let id = Regex::new(r"^([A-Za-z0-9]{6,})(?:&|$)").unwrap();
    let mut rng = Lcg(7);
    let parts = ["a", "Z", "9", "abc123", "&", "#", "/", "?", "é", "x=1", "_"];
    for _ in 0..2000 {
        let n = rng.next() % 6;
        let mut q = String::new();
        for _ in 0..n {
            q.push_str(parts[rng.next() % parts.len()]);
        }
        let url = format!("https://1fichier.com/?{q}");
        let no_frag = q.split('#').next().unwrap_or("");
        let expected = capture(&id, no_frag);
        assert_eq!(extract_file_id(&url), expected, "{url:?}");
    }
}
