//! The orchestrator: owns one parsed URL and derives its canonical string
//! form by percent-encoding the path fields, normalizing the path,
//! canonicalizing the query, and reassembling
//! `scheme://host[:port]path[?query]`.

use vstd::prelude::*;

use crate::error::NormalizeError;
use crate::outside::{
    chars_to_string, enc_of, encode_seg, parse_url, regex_ok, trim_of, trim_str, url_host_of,
    url_ok, url_path_of, url_port_of, url_query_of, url_scheme_of,
};
use crate::path::{normalize_path, normalize_path_spec};
use crate::query::{
    canonicalize_query, map_of, pats_view, query_map_opt, render_params, sorted_entries,
    ParameterMap,
};
use crate::text::{copy_range, join_segs, join_segs_vec, split_all, split_all_vec};

verus! {

/// The structured fields of a parsed URL. If the path is empty the URL is
/// opaque: path and query rewriting are skipped entirely.
#[derive(Debug)]
pub struct ParsedUrl {
    pub scheme: Vec<char>,
    pub host: Option<Vec<char>>,
    pub port: Option<u16>,
    pub path: Vec<char>,
    pub query: Option<Vec<char>>,
}

impl ParsedUrl {
    /// The host as a character sequence, if any.
    pub open spec fn host_view(&self) -> Option<Seq<char>> {
        match self.host {
            None => None,
            Some(h) => Some(h@),
        }
    }

    /// The raw query as a character sequence, if any.
    pub open spec fn query_view(&self) -> Option<Seq<char>> {
        match self.query {
            None => None,
            Some(q) => Some(q@),
        }
    }
}

// ---------------------------------------------------------------------------
// Rendering a port number
// ---------------------------------------------------------------------------

/// The character of one decimal digit.
pub open spec fn digit_char(d: nat) -> char {
    if d == 0 {
        '0'
    } else if d == 1 {
        '1'
    } else if d == 2 {
        '2'
    } else if d == 3 {
        '3'
    } else if d == 4 {
        '4'
    } else if d == 5 {
        '5'
    } else if d == 6 {
        '6'
    } else if d == 7 {
        '7'
    } else if d == 8 {
        '8'
    } else {
        '9'
    }
}

/// The decimal digits of `n`, most significant first, no leading zero.
pub open spec fn dec_digits(n: nat) -> Seq<char>
    decreases n,
{
    if n < 10 {
        seq![digit_char(n)]
    } else {
        dec_digits(n / 10).push(digit_char(n % 10))
    }
}

/// The character of one digit below ten.
fn digit_of(d: u16) -> (c: char)
    requires
        d < 10,
    ensures
        c == digit_char(d as nat),
{
    if d == 0 {
        '0'
    } else if d == 1 {
        '1'
    } else if d == 2 {
        '2'
    } else if d == 3 {
        '3'
    } else if d == 4 {
        '4'
    } else if d == 5 {
        '5'
    } else if d == 6 {
        '6'
    } else if d == 7 {
        '7'
    } else if d == 8 {
        '8'
    } else {
        '9'
    }
}

/// Appends the decimal digits of `n` to `out`.
fn push_digits(n: u16, out: &mut Vec<char>)
    ensures
        final(out)@ == old(out)@ + dec_digits(n as nat),
    decreases n,
{
    if n < 10 {
        out.push(digit_of(n));
        proof {
            assert(old(out)@ + seq![digit_char(n as nat)] =~= old(out)@.push(
                digit_char(n as nat),
            ));
        }
    } else {
        push_digits(n / 10, out);
        out.push(digit_of(n % 10));
        proof {
            assert(old(out)@ + dec_digits(n as nat) =~= (old(out)@ + dec_digits(
                (n / 10) as nat,
            )).push(digit_char((n % 10) as nat)));
        }
    }
}

// ---------------------------------------------------------------------------
// The assembled canonical string
// ---------------------------------------------------------------------------

/// The host part: the host text, or nothing.
pub open spec fn host_text(h: Option<Seq<char>>) -> Seq<char> {
    match h {
        None => Seq::empty(),
        Some(s) => s,
    }
}

/// The port part: empty when no port is stored or the port is 80 (the
/// HTTP default, a deliberate simplification that is not scheme-aware);
/// otherwise `:` and the decimal digits.
pub open spec fn port_text(p: Option<u16>) -> Seq<char> {
    match p {
        None => Seq::empty(),
        Some(n) => if n == 80 {
            Seq::empty()
        } else {
            seq![':'] + dec_digits(n as nat)
        },
    }
}

/// The query part: empty when no parameter survived; otherwise `?` and
/// the rendered parameters, decoded and sorted by key.
pub open spec fn query_text(e: Seq<(Seq<char>, Seq<char>)>) -> Seq<char> {
    if e.len() == 0 {
        Seq::empty()
    } else {
        seq!['?'] + render_params(e)
    }
}

/// Every `/`-delimited field of the path percent-encoded independently,
/// separators untouched.
pub open spec fn encoded_fields(p: Seq<char>) -> Seq<Seq<char>> {
    split_all(p, '/').map_values(|s: Seq<char>| enc_of(s))
}

/// The path with each field percent-encoded, rejoined on `/`.
pub open spec fn encoded_path(p: Seq<char>) -> Seq<char> {
    join_segs(encoded_fields(p), '/')
}

/// The canonical string of a non-opaque URL, given the surviving query
/// entries.
pub open spec fn assembled(
    scheme: Seq<char>,
    host: Option<Seq<char>>,
    port: Option<u16>,
    path: Seq<char>,
    entries: Seq<(Seq<char>, Seq<char>)>,
) -> Seq<char> {
    scheme + seq![':', '/', '/'] + host_text(host) + port_text(port) + path + query_text(entries)
}

/// Port omission: a URL whose stored port is 80 assembles to exactly the
/// string of the same URL with no port at all; the definition of
/// `port_text` shows that any other stored port is rendered after `:`.
pub proof fn lemma_port_80_omitted(
    scheme: Seq<char>,
    host: Option<Seq<char>>,
    path: Seq<char>,
    entries: Seq<(Seq<char>, Seq<char>)>,
)
    ensures
        assembled(scheme, host, Some(80u16), path, entries) == assembled(
            scheme,
            host,
            None,
            path,
            entries,
        ),
{
    assert(port_text(Some(80u16)) =~= port_text(None));
}

/// Query order invariance at the URL level: two stored URLs that agree
/// on scheme, host, port and path, and whose queries hold the same
/// `&`-separated pairs in any order with no duplicate decoded keys,
/// assemble to the identical output string — `normalize`'s contract
/// builds the output from exactly such a sorted entry sequence. (An
/// opaque URL never reaches assembly: the passthrough returns its raw
/// text instead.)
pub proof fn lemma_normalize_order_invariance(
    scheme: Seq<char>,
    host: Option<Seq<char>>,
    port: Option<u16>,
    path: Seq<char>,
    q1: Seq<char>,
    q2: Seq<char>,
    pats: Seq<Seq<char>>,
    e1: Seq<(Seq<char>, Seq<char>)>,
    e2: Seq<(Seq<char>, Seq<char>)>,
)
    requires
        crate::query::distinct_keys(crate::text::split_runs(q1, '&')),
        crate::query::distinct_keys(crate::text::split_runs(q2, '&')),
        crate::text::split_runs(q1, '&').to_multiset() == crate::text::split_runs(
            q2,
            '&',
        ).to_multiset(),
        sorted_entries(e1),
        sorted_entries(e2),
        map_of(e1) == crate::query::query_map(q1, pats),
        map_of(e2) == crate::query::query_map(q2, pats),
    ensures
        assembled(scheme, host, port, path, e1) == assembled(scheme, host, port, path, e2),
{
    crate::query::lemma_query_order_invariant_text(q1, q2, pats, e1, e2);
}

/// Percent-encodes each `/`-delimited field of the path.
fn encode_path(p: &Vec<char>) -> (r: Vec<char>)
    ensures
        r@ == encoded_path(p@),
{
    let fields = split_all_vec(p, '/');
    let ghost fv = fields.deep_view();
    let n = fields.len();
    let mut enc: Vec<Vec<char>> = Vec::new();
    let mut i: usize = 0;
    while i < n
        invariant
            0 <= i <= n,
            n == fields@.len(),
            fv == fields.deep_view(),
            fv == split_all(p@, '/'),
            enc.deep_view() =~= encoded_fields(p@).subrange(0, i as int),
        decreases n - i,
    {
        proof {
            assert(fields@[i as int]@ =~= fv[i as int]);
        }
        let e = encode_seg(&fields[i]);
        let ghost e0 = enc.deep_view();
        enc.push(e);
        proof {
            assert(enc.deep_view() =~~= e0.push(e@));
            assert(enc.deep_view() =~~= encoded_fields(p@).subrange(0, i + 1));
        }
        i += 1;
    }
    proof {
        assert(encoded_fields(p@).subrange(0, n as int) =~= encoded_fields(p@));
        assert(enc.deep_view() =~~= encoded_fields(p@));
    }
    join_segs_vec(&enc, '/')
}

// ---------------------------------------------------------------------------
// The public interface
// ---------------------------------------------------------------------------

/// Owns one parsed URL. `normalize` derives a fresh canonical string on
/// every call and never mutates the stored URL, so calls are independent.
#[derive(Debug)]
pub struct UrlNormalizer {
    url: ParsedUrl,
    raw: Vec<char>,
}

impl UrlNormalizer {
    /// The scheme of the stored URL.
    pub closed spec fn spec_scheme(&self) -> Seq<char> {
        self.url.scheme@
    }

    /// The host of the stored URL, if any.
    pub closed spec fn spec_host(&self) -> Option<Seq<char>> {
        self.url.host_view()
    }

    /// The port of the stored URL, if any.
    pub closed spec fn spec_port(&self) -> Option<u16> {
        self.url.port
    }

    /// The path of the stored URL.
    pub closed spec fn spec_path(&self) -> Seq<char> {
        self.url.path@
    }

    /// The raw query of the stored URL, if any.
    pub closed spec fn spec_query(&self) -> Option<Seq<char>> {
        self.url.query_view()
    }

    /// The trimmed text the URL was parsed from.
    pub closed spec fn spec_raw(&self) -> Seq<char> {
        self.raw@
    }

    /// The URL is opaque: its path is empty, so it is passed through.
    pub open spec fn spec_opaque(&self) -> bool {
        self.spec_path().len() == 0
    }

    /// Parses a URL, trimming surrounding whitespace first. Fails with
    /// `UrlParseError` exactly when the parser rejects the trimmed text;
    /// on success every stored field is the parser's own component of
    /// the trimmed text.
    pub fn new(tainted_url: &str) -> (r: Result<Self, NormalizeError>)
        ensures
            r is Ok <==> url_ok(trim_of(tainted_url@)),
            r matches Ok(n) ==> {
                &&& n.spec_raw() == trim_of(tainted_url@)
                &&& n.spec_scheme() == url_scheme_of(trim_of(tainted_url@))
                &&& n.spec_host() == url_host_of(trim_of(tainted_url@))
                &&& n.spec_port() == url_port_of(trim_of(tainted_url@))
                &&& n.spec_path() == url_path_of(trim_of(tainted_url@))
                &&& n.spec_query() == url_query_of(trim_of(tainted_url@))
            },
            r matches Err(e) ==> e matches NormalizeError::UrlParseError,
    {
        let raw = trim_str(tainted_url);
        match parse_url(&raw) {
            Some(url) => Ok(UrlNormalizer { url, raw }),
            None => Err(NormalizeError::UrlParseError),
        }
    }

    /// The URL has an empty path and is exempt from rewriting.
    pub fn is_opaque(&self) -> (r: bool)
        ensures
            r == self.spec_opaque(),
    {
        self.url.path.len() == 0
    }

    /// Normalizes the stored URL.
    ///
    /// An opaque URL is returned unchanged. Otherwise each path field is
    /// percent-encoded, the path is normalized, the query is decoded,
    /// filtered by the removal patterns and sorted by key, and the parts
    /// are reassembled; port 80 is omitted. The call fails exactly when
    /// there is a query and a removal pattern does not compile, and then
    /// carries the first such pattern. The entry sequence in the
    /// contract is determined: by `lemma_sorted_entries_unique` exactly
    /// one sorted sequence represents the canonical mapping, so the
    /// output string is pinned.
    pub fn normalize(&self, remove_param_regex: Option<&[&str]>) -> (r: Result<
        String,
        NormalizeError,
    >)
        ensures
            self.spec_opaque() ==> (r matches Ok(s) && s@ == self.spec_raw()),
            !self.spec_opaque() ==> (r is Ok <==> (self.spec_query() is None || (forall|j: int|
                0 <= j < pats_view(remove_param_regex).len() ==> regex_ok(
                    #[trigger] pats_view(remove_param_regex)[j],
                )))),
            !self.spec_opaque() ==> (r matches Ok(s) ==> exists|entries: Seq<(Seq<char>, Seq<char>)>|
                {
                    &&& sorted_entries(entries)
                    &&& map_of(entries) == query_map_opt(
                        self.spec_query(),
                        pats_view(remove_param_regex),
                    )
                    &&& s@ == assembled(
                        self.spec_scheme(),
                        self.spec_host(),
                        self.spec_port(),
                        normalize_path_spec(encoded_path(self.spec_path())),
                        entries,
                    )
                }),
            r matches Err(e) ==> (e matches NormalizeError::RegexParseError(p) && exists|j: int|
                {
                    &&& 0 <= j < pats_view(remove_param_regex).len()
                    &&& !regex_ok(#[trigger] pats_view(remove_param_regex)[j])
                    &&& p@ == pats_view(remove_param_regex)[j]
                    &&& forall|i: int| 0 <= i < j ==> regex_ok(pats_view(remove_param_regex)[i])
                }),
    {
        if self.is_opaque() {
            return Ok(chars_to_string(&self.raw));
        }
        let pm = match canonicalize_query(self.url.query.as_ref(), remove_param_regex) {
            Ok(pm) => pm,
            Err(e) => {
                return Err(e);
            },
        };
        let encoded = encode_path(&self.url.path);
        let path = match normalize_path(&encoded) {
            Ok(v) => v,
            Err(e) => {
                return Err(e);
            },
        };
        let mut out = copy_range(&self.url.scheme, 0, self.url.scheme.len());
        out.push(':');
        out.push('/');
        out.push('/');
        proof {
            assert(self.url.scheme@.subrange(0, self.url.scheme@.len() as int)
                =~= self.url.scheme@);
            assert(out@ =~= self.spec_scheme() + seq![':', '/', '/']);
        }
        match &self.url.host {
            Some(h) => {
                let mut hc = copy_range(h, 0, h.len());
                out.append(&mut hc);
                proof {
                    assert(h@.subrange(0, h@.len() as int) =~= h@);
                }
            },
            None => {
                proof {
                    assert(out@ + host_text(self.spec_host()) =~= out@);
                }
            },
        }
        proof {
            assert(out@ =~= self.spec_scheme() + seq![':', '/', '/'] + host_text(
                self.spec_host(),
            ));
        }
        let ghost out_host = out@;
        match self.url.port {
            Some(p) => {
                if p != 80 {
                    out.push(':');
                    push_digits(p, &mut out);
                    proof {
                        assert(out@ =~= out_host + (seq![':'] + dec_digits(p as nat)));
                    }
                } else {
                    proof {
                        assert(out@ + port_text(self.spec_port()) =~= out@);
                    }
                }
            },
            None => {
                proof {
                    assert(out@ + port_text(self.spec_port()) =~= out@);
                }
            },
        }
        proof {
            assert(out@ =~= out_host + port_text(self.spec_port()));
        }
        let ghost out_port = out@;
        let mut pathc = path;
        out.append(&mut pathc);
        let ghost norm_path = normalize_path_spec(encoded_path(self.spec_path()));
        let ghost out_path = out@;
        if pm.len() > 0 {
            out.push('?');
            let mut qc = pm.render();
            out.append(&mut qc);
            proof {
                assert(out@ =~= out_path + (seq!['?'] + render_params(pm.entries_view())));
            }
        } else {
            proof {
                assert(pm.entries_view().len() == 0);
                assert(out@ + query_text(pm.entries_view()) =~= out@);
            }
        }
        proof {
            assert(out@ =~= assembled(
                self.spec_scheme(),
                self.spec_host(),
                self.spec_port(),
                norm_path,
                pm.entries_view(),
            ));
        }
        let s = chars_to_string(&out);
        proof {
            let entries = pm.entries_view();
            assert(sorted_entries(entries) && map_of(entries) == query_map_opt(
                self.spec_query(),
                pats_view(remove_param_regex),
            ) && s@ == assembled(
                self.spec_scheme(),
                self.spec_host(),
                self.spec_port(),
                normalize_path_spec(encoded_path(self.spec_path())),
                entries,
            ));
        }
        Ok(s)
    }
}

} // verus!

