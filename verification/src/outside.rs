//! The crate's only trust boundary: small wrappers around the URL parser,
//! the percent-coding primitives, the regular-expression engine, and the
//! two std string conversions that have no specification in vstd. Every
//! other function of the crate is verified against the contracts stated
//! here.

use vstd::prelude::*;

use crate::normalizer::ParsedUrl;

verus! {

// ---------------------------------------------------------------------------
// Named results: deterministic functions of their text arguments alone
// ---------------------------------------------------------------------------

/// What `str::trim` returns for the characters of `s`.
pub uninterp spec fn trim_of(s: Seq<char>) -> Seq<char>;

/// Whether `url::Url::parse` accepts the characters of `s`.
pub uninterp spec fn url_ok(s: Seq<char>) -> bool;

/// The scheme that `url::Url::parse` reads out of `s`.
pub uninterp spec fn url_scheme_of(s: Seq<char>) -> Seq<char>;

/// The host that `url::Url::parse` reads out of `s`, if any.
pub uninterp spec fn url_host_of(s: Seq<char>) -> Option<Seq<char>>;

/// The port that `url::Url::parse` reads out of `s`, if any; a port that
/// is the scheme's known default reads as absent.
pub uninterp spec fn url_port_of(s: Seq<char>) -> Option<u16>;

/// The path, percent-encoded, that `url::Url::parse` reads out of `s`.
pub uninterp spec fn url_path_of(s: Seq<char>) -> Seq<char>;

/// The raw query that `url::Url::parse` reads out of `s`, if any.
pub uninterp spec fn url_query_of(s: Seq<char>) -> Option<Seq<char>>;

/// What `urlencoding::encode` returns for the characters of `s`.
pub uninterp spec fn enc_of(s: Seq<char>) -> Seq<char>;

/// What `urlencoding::decode` returns for the characters of `s`:
/// `None` when the decoded bytes are not valid text.
pub uninterp spec fn dec_of(s: Seq<char>) -> Option<Seq<char>>;

/// Whether `regex::Regex::new` accepts the pattern text `p`.
pub uninterp spec fn regex_ok(p: Seq<char>) -> bool;

/// Whether the compiled form of pattern `p` matches anywhere in `t`,
/// as `regex::Regex::is_match` decides it.
pub uninterp spec fn regex_match_of(p: Seq<char>, t: Seq<char>) -> bool;

// ---------------------------------------------------------------------------
// Wrappers
// ---------------------------------------------------------------------------

/// Relies on `str::trim`: strips leading and trailing whitespace; the
/// result depends on the characters alone.
#[verifier::external_body]
pub(crate) fn trim_str(s: &str) -> (r: Vec<char>)
    ensures
        r@ == trim_of(s@),
{
    s.trim().chars().collect()
}

/// Relies on `url::Url::parse` to split a raw string into scheme, host,
/// port, path and query; acceptance depends on the characters alone. The
/// component accessors (`scheme`, `host_str`, `port`, `path`, `query`)
/// only convert the parsed value into the plain fields of [`ParsedUrl`].
#[verifier::external_body]
pub(crate) fn parse_url(s: &Vec<char>) -> (r: Option<ParsedUrl>)
    ensures
        r is Some <==> url_ok(s@),
        r matches Some(u) ==> {
            &&& u.scheme@ == url_scheme_of(s@)
            &&& u.host_view() == url_host_of(s@)
            &&& u.port == url_port_of(s@)
            &&& u.path@ == url_path_of(s@)
            &&& u.query_view() == url_query_of(s@)
        },
{
    let text: String = s.iter().collect();
    match url::Url::parse(&text) {
        Ok(u) => Some(ParsedUrl {
            scheme: u.scheme().chars().collect(),
            host: u.host_str().map(|h| h.chars().collect()),
            port: u.port(),
            path: u.path().chars().collect(),
            query: u.query().map(|q| q.chars().collect()),
        }),
        Err(_) => None,
    }
}

/// Relies on `urlencoding::encode`: percent-encodes every byte outside
/// `A`-`Z`, `a`-`z`, `0`-`9`, `-`, `.`, `_`, `~`; the result depends on
/// the characters alone.
#[verifier::external_body]
pub(crate) fn encode_seg(s: &Vec<char>) -> (r: Vec<char>)
    ensures
        r@ == enc_of(s@),
{
    let text: String = s.iter().collect();
    urlencoding::encode(&text).chars().collect()
}

/// Relies on `urlencoding::decode`: reverses percent-encoding, failing
/// exactly when the decoded bytes are not valid text; the result depends
/// on the characters alone.
#[verifier::external_body]
pub(crate) fn decode_comp(s: &Vec<char>) -> (r: Option<Vec<char>>)
    ensures
        r is Some <==> dec_of(s@) is Some,
        r matches Some(v) ==> dec_of(s@) == Some(v@),
{
    let text: String = s.iter().collect();
    match urlencoding::decode(&text) {
        Ok(d) => Some(d.chars().collect()),
        Err(_) => None,
    }
}

#[verifier::external_type_specification]
#[verifier::external_body]
pub struct ExRegex(regex::Regex);

/// One removal rule: a compiled pattern together with its source text.
/// Values exist only through [`compile_rule`], so the compiled engine
/// always stems from the stored pattern text.
pub struct Rule {
    pattern: Vec<char>,
    engine: regex::Regex,
}

impl Rule {
    /// The pattern text the rule was compiled from.
    pub closed spec fn pattern_view(&self) -> Seq<char> {
        self.pattern@
    }
}

/// Relies on `regex::Regex::new`: compiles the pattern, failing exactly
/// on invalid pattern syntax; acceptance depends on the pattern text
/// alone.
#[verifier::external_body]
pub(crate) fn compile_rule(p: &Vec<char>) -> (r: Option<Rule>)
    ensures
        r is Some <==> regex_ok(p@),
        r matches Some(rule) ==> rule.pattern_view() == p@,
{
    let text: String = p.iter().collect();
    match regex::Regex::new(&text) {
        Ok(engine) => Some(Rule { pattern: p.clone(), engine }),
        Err(_) => None,
    }
}

/// Relies on `regex::Regex::is_match`: true exactly when the pattern the
/// rule was compiled from matches somewhere in `text`; the result depends
/// on the pattern and the text alone.
#[verifier::external_body]
pub(crate) fn rule_matches(rule: &Rule, text: &Vec<char>) -> (r: bool)
    ensures
        r == regex_match_of(rule.pattern_view(), text@),
{
    let t: String = text.iter().collect();
    rule.engine.is_match(&t)
}

/// Relies on `String::from_iter`: collects the characters in order.
#[verifier::external_body]
pub(crate) fn chars_to_string(v: &Vec<char>) -> (r: String)
    ensures
        r@ == v@,
{
    v.iter().collect()
}

} // verus!
