//! Query canonicalization: the query string is split on `&`, each pair is
//! split on its first `=` and percent-decoded, pairs whose decoded key
//! matches a removal pattern are dropped, and the survivors are collected
//! into a parameter map ordered by key, a later duplicate key overwriting
//! an earlier one.

use vstd::prelude::*;

use crate::error::NormalizeError;
use crate::outside::{
    compile_rule, dec_of, regex_match_of, regex_ok, rule_matches, decode_comp, Rule,
};
use crate::text::{
    copy_range, find_char, first_idx, join_segs, join_segs_vec, lemma_first_idx,
    lemma_lex_lt_trans, lemma_lex_lt_trichotomy, lex_lt, lex_lt_vec, split_runs, split_runs_vec,
    str_to_chars,
};

verus! {

// ---------------------------------------------------------------------------
// The decoded pair of one token
// ---------------------------------------------------------------------------

/// The decoded key/value pair of one nonempty `&`-delimited token.
///
/// The token is split on its first `=` only, so the value may itself hold
/// `=`. A token without `=` is a bare key with empty value; a token
/// starting with `=` yields the empty key. A pair whose key does not
/// decode is dropped (`None`); a value that does not decode is replaced
/// by the empty value.
pub open spec fn token_pair(t: Seq<char>) -> Option<(Seq<char>, Seq<char>)> {
    let e = first_idx(t, '=');
    if e < t.len() {
        match dec_of(t.subrange(0, e)) {
            Some(key) => Some(
                (
                    key,
                    match dec_of(t.subrange(e + 1, t.len() as int)) {
                        Some(v) => v,
                        None => Seq::empty(),
                    },
                ),
            ),
            None => None,
        }
    } else {
        match dec_of(t) {
            Some(key) => Some((key, Seq::empty())),
            None => None,
        }
    }
}

/// Splits one token on its first `=` and percent-decodes the parts.
fn decode_token(tok: &Vec<char>) -> (r: Option<(Vec<char>, Vec<char>)>)
    ensures
        r is Some <==> token_pair(tok@) is Some,
        r matches Some(kv) ==> token_pair(tok@) == Some((kv.0@, kv.1@)),
{
    let n = tok.len();
    let e = find_char(tok, '=');
    proof {
        lemma_first_idx(tok@, '=');
    }
    if e < n {
        let kraw = copy_range(tok, 0, e);
        match decode_comp(&kraw) {
            Some(key) => {
                let vraw = copy_range(tok, e + 1, n);
                let val = match decode_comp(&vraw) {
                    Some(v) => v,
                    None => Vec::new(),
                };
                Some((key, val))
            },
            None => None,
        }
    } else {
        match decode_comp(tok) {
            Some(key) => Some((key, Vec::new())),
            None => None,
        }
    }
}

// ---------------------------------------------------------------------------
// Removal rules
// ---------------------------------------------------------------------------

/// The pattern texts of a sequence of compiled rules.
pub open spec fn rules_view(rs: Seq<Rule>) -> Seq<Seq<char>> {
    Seq::new(rs.len(), |i: int| rs[i].pattern_view())
}

/// The decoded key matches at least one removal pattern.
pub open spec fn matches_any(pats: Seq<Seq<char>>, key: Seq<char>) -> bool {
    exists|j: int| 0 <= j < pats.len() && regex_match_of(pats[j], key)
}

/// Decides whether any rule matches the decoded key.
fn any_rule_matches(rules: &Vec<Rule>, key: &Vec<char>) -> (r: bool)
    ensures
        r == matches_any(rules_view(rules@), key@),
{
    let n = rules.len();
    let mut i: usize = 0;
    while i < n
        invariant
            0 <= i <= n,
            n == rules@.len(),
            forall|j: int| 0 <= j < i ==> !regex_match_of(rules_view(rules@)[j], key@),
        decreases n - i,
    {
        if rule_matches(&rules[i], key) {
            proof {
                assert(regex_match_of(rules_view(rules@)[i as int], key@));
            }
            return true;
        }
        i += 1;
    }
    false
}

// ---------------------------------------------------------------------------
// The parameter map
// ---------------------------------------------------------------------------

/// Keys strictly ascending in byte order; in particular, keys are unique.
pub open spec fn sorted_entries(e: Seq<(Seq<char>, Seq<char>)>) -> bool {
    forall|i: int, j: int| 0 <= i < j < e.len() ==> lex_lt(#[trigger] e[i].0, #[trigger] e[j].0)
}

/// The mapping a sequence of entries represents, a later entry
/// overwriting an earlier one with the same key.
pub open spec fn map_of(e: Seq<(Seq<char>, Seq<char>)>) -> Map<Seq<char>, Seq<char>>
    decreases e.len(),
{
    if e.len() == 0 {
        Map::empty()
    } else {
        map_of(e.drop_last()).insert(e.last().0, e.last().1)
    }
}

/// Inserting a pair whose key occurs at no position from `i` on acts on
/// the mapping as a plain insert.
proof fn lemma_map_of_insert_at(e: Seq<(Seq<char>, Seq<char>)>, i: int, k: Seq<char>, v: Seq<char>)
    requires
        0 <= i <= e.len(),
        forall|j: int| i <= j < e.len() ==> (#[trigger] e[j]).0 != k,
    ensures
        map_of(e.subrange(0, i) + seq![(k, v)] + e.subrange(i, e.len() as int)) == map_of(
            e,
        ).insert(k, v),
    decreases e.len(),
{
    let f = e.subrange(0, i) + seq![(k, v)] + e.subrange(i, e.len() as int);
    if i == e.len() {
        assert(f.drop_last() =~= e);
        assert(f.last() == (k, v));
    } else {
        let d = e.drop_last();
        assert(f.last() == e.last());
        assert(f.drop_last() =~= d.subrange(0, i) + seq![(k, v)] + d.subrange(i, d.len() as int));
        lemma_map_of_insert_at(d, i, k, v);
        assert(map_of(f) == map_of(d).insert(k, v).insert(e.last().0, e.last().1));
        assert(e.last().0 != k);
        assert(map_of(d).insert(k, v).insert(e.last().0, e.last().1) =~= map_of(d).insert(
            e.last().0,
            e.last().1,
        ).insert(k, v));
    }
}

/// Overwriting the value at position `i`, whose key occurs at no later
/// position, acts on the mapping as a plain insert.
proof fn lemma_map_of_update_at(e: Seq<(Seq<char>, Seq<char>)>, i: int, k: Seq<char>, v: Seq<char>)
    requires
        0 <= i < e.len(),
        e[i].0 == k,
        forall|j: int| i < j < e.len() ==> (#[trigger] e[j]).0 != k,
    ensures
        map_of(e.subrange(0, i) + seq![(k, v)] + e.subrange(i + 1, e.len() as int)) == map_of(
            e,
        ).insert(k, v),
    decreases e.len(),
{
    let f = e.subrange(0, i) + seq![(k, v)] + e.subrange(i + 1, e.len() as int);
    if i == e.len() - 1 {
        assert(f.drop_last() =~= e.drop_last());
        assert(f.last() == (k, v));
        assert(map_of(e.drop_last()).insert(k, e[i].1).insert(k, v) =~= map_of(
            e.drop_last(),
        ).insert(k, v));
    } else {
        let d = e.drop_last();
        assert(f.last() == e.last());
        assert(f.drop_last() =~= d.subrange(0, i) + seq![(k, v)] + d.subrange(
            i + 1,
            d.len() as int,
        ));
        lemma_map_of_update_at(d, i, k, v);
        assert(map_of(f) == map_of(d).insert(k, v).insert(e.last().0, e.last().1));
        assert(e.last().0 != k);
        assert(map_of(d).insert(k, v).insert(e.last().0, e.last().1) =~= map_of(d).insert(
            e.last().0,
            e.last().1,
        ).insert(k, v));
    }
}

/// The position of the first entry whose key is not below `key`.
fn scan_position(entries: &Vec<(Vec<char>, Vec<char>)>, key: &Vec<char>) -> (i: usize)
    ensures
        0 <= i <= entries@.len(),
        forall|j: int| 0 <= j < i ==> lex_lt(#[trigger] entries@[j].0@, key@),
        i < entries@.len() ==> !lex_lt(entries@[i as int].0@, key@),
{
    let n = entries.len();
    let mut i: usize = 0;
    while i < n
        invariant
            0 <= i <= n,
            n == entries@.len(),
            forall|j: int| 0 <= j < i ==> lex_lt(#[trigger] entries@[j].0@, key@),
        decreases n - i,
    {
        if !lex_lt_vec(&entries[i].0, key) {
            return i;
        }
        i += 1;
    }
    i
}

/// Decoded parameters with unique keys, held in ascending byte order of
/// the key; the output order is the key sort order, not insertion order.
pub struct ParameterMap {
    entries: Vec<(Vec<char>, Vec<char>)>,
}

impl ParameterMap {
    /// The entries in output order, as character sequences.
    pub closed spec fn entries_view(&self) -> Seq<(Seq<char>, Seq<char>)> {
        Seq::new(self.entries@.len(), |i: int| (self.entries@[i].0@, self.entries@[i].1@))
    }

    /// The entries are strictly sorted by key.
    pub open spec fn wf(&self) -> bool {
        sorted_entries(self.entries_view())
    }

    /// An empty map.
    pub fn new() -> (r: ParameterMap)
        ensures
            r.wf(),
            r.entries_view() == Seq::<(Seq<char>, Seq<char>)>::empty(),
    {
        let r = ParameterMap { entries: Vec::new() };
        proof {
            assert(r.entries_view() =~= Seq::<(Seq<char>, Seq<char>)>::empty());
        }
        r
    }

    /// How many parameters the map holds.
    pub fn len(&self) -> (r: usize)
        ensures
            r == self.entries_view().len(),
    {
        self.entries.len()
    }

    /// The key of the entry at `i` in output order.
    pub fn key_at(&self, i: usize) -> (r: &Vec<char>)
        requires
            i < self.entries_view().len(),
        ensures
            r@ == self.entries_view()[i as int].0,
    {
        &self.entries[i].0
    }

    /// The value of the entry at `i` in output order.
    pub fn value_at(&self, i: usize) -> (r: &Vec<char>)
        requires
            i < self.entries_view().len(),
        ensures
            r@ == self.entries_view()[i as int].1,
    {
        &self.entries[i].1
    }

    /// Inserts a decoded pair, keeping the entries sorted by key; an
    /// entry with the same key is overwritten.
    fn insert(&mut self, key: Vec<char>, val: Vec<char>)
        requires
            old(self).wf(),
        ensures
            final(self).wf(),
            map_of(final(self).entries_view()) == map_of(old(self).entries_view()).insert(
                key@,
                val@,
            ),
    {
        let ghost ev = self.entries_view();
        let n = self.entries.len();
        let i = scan_position(&self.entries, &key);
        proof {
            assert forall|j: int| 0 <= j < i implies lex_lt((#[trigger] ev[j]).0, key@) by {
                assert(ev[j].0 == self.entries@[j].0@);
            }
            if i < n {
                assert(ev[i as int].0 == self.entries@[i as int].0@);
            }
        }
        let same_key = if i < n {
            !lex_lt_vec(&key, &self.entries[i].0)
        } else {
            false
        };
        proof {
            if i < n {
                lemma_lex_lt_trichotomy(key@, ev[i as int].0);
            }
        }
        if same_key {
            // The keys at `i` and `key` are equal: overwrite the value.
            proof {
                assert(ev[i as int].0 == key@);
                assert forall|j: int| i < j < ev.len() implies (#[trigger] ev[j]).0 != key@ by {
                    assert(lex_lt(ev[i as int].0, ev[j].0));
                    lemma_lex_lt_trichotomy(key@, ev[j].0);
                }
                lemma_map_of_update_at(ev, i as int, key@, val@);
            }
            self.entries.remove(i);
            self.entries.insert(i, (key, val));
            proof {
                let ef = self.entries_view();
                assert(ef =~= ev.subrange(0, i as int) + seq![(key@, val@)] + ev.subrange(
                    i + 1,
                    ev.len() as int,
                ));
                assert forall|a: int, b: int| 0 <= a < b < ef.len() implies lex_lt(
                    (#[trigger] ef[a]).0,
                    (#[trigger] ef[b]).0,
                ) by {
                    assert(ef[a].0 == ev[a].0);
                    assert(ef[b].0 == ev[b].0);
                }
            }
        } else {
            // No entry has this key: insert it at its sorted position.
            proof {
                assert forall|j: int| i <= j < ev.len() implies (#[trigger] ev[j]).0 != key@ by {
                    if j > i {
                        assert(lex_lt(ev[i as int].0, ev[j].0));
                        lemma_lex_lt_trans(key@, ev[i as int].0, ev[j].0);
                    }
                    lemma_lex_lt_trichotomy(key@, ev[j].0);
                }
                lemma_map_of_insert_at(ev, i as int, key@, val@);
            }
            self.entries.insert(i, (key, val));
            proof {
                let ef = self.entries_view();
                assert(ef =~= ev.subrange(0, i as int) + seq![(key@, val@)] + ev.subrange(
                    i as int,
                    ev.len() as int,
                ));
                assert forall|a: int, b: int| 0 <= a < b < ef.len() implies lex_lt(
                    (#[trigger] ef[a]).0,
                    (#[trigger] ef[b]).0,
                ) by {
                    if b < i {
                    } else if a < i && b == i {
                    } else if a < i && b > i {
                        assert(ef[b].0 == ev[b - 1].0);
                    } else if a == i {
                        assert(ef[b].0 == ev[b - 1].0);
                        if b - 1 > i {
                            lemma_lex_lt_trans(key@, ev[i as int].0, ev[b - 1].0);
                        }
                    } else {
                        assert(ef[a].0 == ev[a - 1].0);
                        assert(ef[b].0 == ev[b - 1].0);
                    }
                }
            }
        }
    }

    /// Renders the map as `k1=v1&k2=v2&...` in output order, the parts
    /// already decoded.
    pub fn render(&self) -> (r: Vec<char>)
        ensures
            r@ == render_params(self.entries_view()),
    {
        let n = self.entries.len();
        let mut parts: Vec<Vec<char>> = Vec::new();
        let mut i: usize = 0;
        while i < n
            invariant
                0 <= i <= n,
                n == self.entries@.len(),
                parts.deep_view() =~= Seq::new(i as nat, |j: int| render_pair(self.entries_view()[j])),
            decreases n - i,
        {
            let mut part = copy_range(&self.entries[i].0, 0, self.entries[i].0.len());
            part.push('=');
            let mut tail = copy_range(&self.entries[i].1, 0, self.entries[i].1.len());
            part.append(&mut tail);
            proof {
                assert(self.entries@[i as int].0@.subrange(
                    0,
                    self.entries@[i as int].0@.len() as int,
                ) =~= self.entries@[i as int].0@);
                assert(self.entries@[i as int].1@.subrange(
                    0,
                    self.entries@[i as int].1@.len() as int,
                ) =~= self.entries@[i as int].1@);
                assert(part@ =~= render_pair(self.entries_view()[i as int]));
            }
            let ghost p0 = parts.deep_view();
            parts.push(part);
            proof {
                assert(parts.deep_view() =~~= p0.push(part@));
                assert(parts.deep_view() =~~= Seq::new(
                    (i + 1) as nat,
                    |j: int| render_pair(self.entries_view()[j]),
                ));
            }
            i += 1;
        }
        proof {
            assert(parts.deep_view() =~~= rendered_pairs(self.entries_view()));
        }
        join_segs_vec(&parts, '&')
    }
}

/// One rendered pair: `key=value`.
pub open spec fn render_pair(kv: (Seq<char>, Seq<char>)) -> Seq<char> {
    kv.0 + seq!['='] + kv.1
}

/// Every entry rendered, in order.
pub open spec fn rendered_pairs(e: Seq<(Seq<char>, Seq<char>)>) -> Seq<Seq<char>> {
    Seq::new(e.len(), |i: int| render_pair(e[i]))
}

/// The whole query-string body: rendered pairs joined with `&`.
pub open spec fn render_params(e: Seq<(Seq<char>, Seq<char>)>) -> Seq<char> {
    join_segs(rendered_pairs(e), '&')
}

// ---------------------------------------------------------------------------
// The canonical map of a whole query string
// ---------------------------------------------------------------------------

/// Folds the tokens left to right into the canonical mapping: a token
/// whose pair decodes and whose key matches no removal pattern is
/// inserted, a later duplicate key overwriting an earlier one.
pub open spec fn params_map(tokens: Seq<Seq<char>>, pats: Seq<Seq<char>>) -> Map<
    Seq<char>,
    Seq<char>,
>
    decreases tokens.len(),
{
    if tokens.len() == 0 {
        Map::empty()
    } else {
        let m = params_map(tokens.drop_last(), pats);
        match token_pair(tokens.last()) {
            Some(kv) => if matches_any(pats, kv.0) {
                m
            } else {
                m.insert(kv.0, kv.1)
            },
            None => m,
        }
    }
}

/// The canonical mapping of a query string under removal patterns:
/// zero-length tokens are skipped, each remaining token is decoded and
/// filtered, and a later duplicate key wins.
pub open spec fn query_map(q: Seq<char>, pats: Seq<Seq<char>>) -> Map<Seq<char>, Seq<char>> {
    params_map(split_runs(q, '&'), pats)
}

/// The canonical mapping of an absent query string is empty.
pub open spec fn query_map_opt(q: Option<Seq<char>>, pats: Seq<Seq<char>>) -> Map<
    Seq<char>,
    Seq<char>,
> {
    match q {
        None => Map::empty(),
        Some(s) => query_map(s, pats),
    }
}

// ---------------------------------------------------------------------------
// Laws of the canonical map
// ---------------------------------------------------------------------------

/// The decoded key of a token, when the token decodes at all.
pub open spec fn token_key(t: Seq<char>) -> Option<Seq<char>> {
    match token_pair(t) {
        Some(kv) => Some(kv.0),
        None => None,
    }
}

/// No two tokens decode to the same key.
pub open spec fn distinct_keys(tokens: Seq<Seq<char>>) -> bool {
    forall|i: int, j: int|
        0 <= i < j < tokens.len() && (#[trigger] token_key(tokens[i])) is Some && (
        #[trigger] token_key(tokens[j])) is Some ==> token_key(tokens[i]) != token_key(tokens[j])
}

/// Token `i` decodes to the pair `(k, v)` and survives the filter.
pub open spec fn kept_pair_at(
    tokens: Seq<Seq<char>>,
    pats: Seq<Seq<char>>,
    i: int,
    k: Seq<char>,
    v: Seq<char>,
) -> bool {
    &&& 0 <= i < tokens.len()
    &&& token_pair(tokens[i]) == Some((k, v))
    &&& !matches_any(pats, k)
}

/// Filter correctness, negative half: a key that matches a removal
/// pattern never appears in the canonical map, wherever its token stood.
pub proof fn lemma_filtered_keys_absent(tokens: Seq<Seq<char>>, pats: Seq<Seq<char>>)
    ensures
        forall|k: Seq<char>|
            matches_any(pats, k) ==> !(#[trigger] params_map(tokens, pats).contains_key(k)),
    decreases tokens.len(),
{
    if tokens.len() > 0 {
        let d = tokens.drop_last();
        lemma_filtered_keys_absent(d, pats);
        assert forall|k: Seq<char>| matches_any(pats, k) implies !(#[trigger] params_map(
            tokens,
            pats,
        ).contains_key(k)) by {
            assert(!params_map(d, pats).contains_key(k));
        }
    }
}

/// Filter correctness, positive half, and the shape of the canonical
/// map: with no duplicate decoded keys, the map holds exactly the
/// surviving decoded pairs, each with its own value.
pub proof fn lemma_params_map_characterize(tokens: Seq<Seq<char>>, pats: Seq<Seq<char>>)
    requires
        distinct_keys(tokens),
    ensures
        forall|k: Seq<char>| #[trigger]
            params_map(tokens, pats).contains_key(k) ==> exists|i: int, v: Seq<char>|
                kept_pair_at(tokens, pats, i, k, v),
        forall|i: int, k: Seq<char>, v: Seq<char>|
            #[trigger] kept_pair_at(tokens, pats, i, k, v) ==> params_map(
                tokens,
                pats,
            ).contains_key(k) && params_map(tokens, pats)[k] == v,
    decreases tokens.len(),
{
    if tokens.len() > 0 {
        let d = tokens.drop_last();
        let m = params_map(d, pats);
        assert forall|i: int, j: int|
            0 <= i < j < d.len() && (#[trigger] token_key(d[i])) is Some && (#[trigger] token_key(
                d[j],
            )) is Some implies token_key(d[i]) != token_key(d[j]) by {
            assert(d[i] == tokens[i]);
            assert(d[j] == tokens[j]);
        }
        lemma_params_map_characterize(d, pats);
        let last = tokens.last();
        assert(last == tokens[tokens.len() - 1]);
        assert forall|k: Seq<char>| #[trigger]
            params_map(tokens, pats).contains_key(k) implies exists|i: int, v: Seq<char>|
            kept_pair_at(tokens, pats, i, k, v) by {
            match token_pair(last) {
                Some(kv) => {
                    if !matches_any(pats, kv.0) && k == kv.0 {
                        assert(kept_pair_at(tokens, pats, tokens.len() - 1, kv.0, kv.1));
                    } else {
                        assert(m.contains_key(k));
                        let (i, v) = choose|i: int, v: Seq<char>| kept_pair_at(d, pats, i, k, v);
                        assert(d[i] == tokens[i]);
                        assert(kept_pair_at(tokens, pats, i, k, v));
                    }
                },
                None => {
                    assert(m.contains_key(k));
                    let (i, v) = choose|i: int, v: Seq<char>| kept_pair_at(d, pats, i, k, v);
                    assert(d[i] == tokens[i]);
                    assert(kept_pair_at(tokens, pats, i, k, v));
                },
            }
        }
        assert forall|i: int, k: Seq<char>, v: Seq<char>| #[trigger]
            kept_pair_at(tokens, pats, i, k, v) implies params_map(tokens, pats).contains_key(k)
            && params_map(tokens, pats)[k] == v by {
            if i == tokens.len() - 1 {
                assert(token_pair(last) == Some((k, v)));
            } else {
                assert(d[i] == tokens[i]);
                assert(kept_pair_at(d, pats, i, k, v));
                match token_pair(last) {
                    Some(kv) => {
                        if !matches_any(pats, kv.0) {
                            // The last token's key differs from `k`.
                            assert(token_key(tokens[i]) == Some(k));
                            assert(token_key(tokens[tokens.len() - 1]) == Some(kv.0));
                            assert(kv.0 != k);
                        }
                    },
                    None => {},
                }
            }
        }
    }
}

/// Strictly sorted keys are pairwise distinct.
proof fn lemma_sorted_distinct(e: Seq<(Seq<char>, Seq<char>)>)
    requires
        sorted_entries(e),
    ensures
        forall|i: int, j: int|
            0 <= i < j < e.len() ==> (#[trigger] e[i]).0 != (#[trigger] e[j]).0,
{
    assert forall|i: int, j: int|
        0 <= i < j < e.len() implies (#[trigger] e[i]).0 != (#[trigger] e[j]).0 by {
        lemma_lex_lt_trichotomy(e[i].0, e[j].0);
    }
}

/// With pairwise-distinct keys the entries read back exactly from the
/// mapping they represent.
proof fn lemma_map_of_distinct(e: Seq<(Seq<char>, Seq<char>)>)
    requires
        forall|i: int, j: int|
            0 <= i < j < e.len() ==> (#[trigger] e[i]).0 != (#[trigger] e[j]).0,
    ensures
        forall|k: Seq<char>| #[trigger]
            map_of(e).contains_key(k) ==> exists|i: int|
                0 <= i < e.len() && (#[trigger] e[i]).0 == k,
        forall|i: int|
            0 <= i < e.len() ==> map_of(e).contains_key((#[trigger] e[i]).0) && map_of(e)[e[i].0]
                == e[i].1,
    decreases e.len(),
{
    if e.len() > 0 {
        let d = e.drop_last();
        assert forall|i: int, j: int|
            0 <= i < j < d.len() implies (#[trigger] d[i]).0 != (#[trigger] d[j]).0 by {
            assert(d[i] == e[i]);
            assert(d[j] == e[j]);
        }
        lemma_map_of_distinct(d);
        assert forall|k: Seq<char>| #[trigger] map_of(e).contains_key(k) implies exists|i: int|
            0 <= i < e.len() && (#[trigger] e[i]).0 == k by {
            if k == e.last().0 {
                assert(e[e.len() - 1].0 == k);
            } else {
                assert(map_of(d).contains_key(k));
                let i = choose|i: int| 0 <= i < d.len() && (#[trigger] d[i]).0 == k;
                assert(e[i].0 == k);
            }
        }
        assert forall|i: int| 0 <= i < e.len() implies map_of(e).contains_key(
            (#[trigger] e[i]).0,
        ) && map_of(e)[e[i].0] == e[i].1 by {
            if i < e.len() - 1 {
                assert(d[i] == e[i]);
                assert(e[i].0 != e[e.len() - 1].0);
            }
        }
    }
}

/// Two strictly sorted entry sequences that represent the same mapping
/// are the same sequence: the sorted form is canonical.
pub proof fn lemma_sorted_entries_unique(
    e1: Seq<(Seq<char>, Seq<char>)>,
    e2: Seq<(Seq<char>, Seq<char>)>,
)
    requires
        sorted_entries(e1),
        sorted_entries(e2),
        map_of(e1) == map_of(e2),
    ensures
        e1 == e2,
    decreases e1.len() + e2.len(),
{
    lemma_sorted_distinct(e1);
    lemma_sorted_distinct(e2);
    lemma_map_of_distinct(e1);
    lemma_map_of_distinct(e2);
    if e1.len() == 0 {
        if e2.len() > 0 {
            assert(map_of(e2).contains_key(e2[e2.len() - 1].0));
            assert(false);
        }
        assert(e1 =~= e2);
    } else if e2.len() == 0 {
        assert(map_of(e1).contains_key(e1[e1.len() - 1].0));
        assert(false);
    } else {
        let k1 = e1.last().0;
        let k2 = e2.last().0;
        if k1 != k2 {
            lemma_lex_lt_trichotomy(k1, k2);
            if lex_lt(k1, k2) {
                assert(map_of(e2).contains_key(k2));
                let i = choose|i: int| 0 <= i < e1.len() && (#[trigger] e1[i]).0 == k2;
                assert(i < e1.len() - 1);
                assert(lex_lt(e1[i].0, k1));
                lemma_lex_lt_trans(k1, k2, k1);
                lemma_lex_lt_trichotomy(k1, k1);
                assert(false);
            } else {
                assert(map_of(e1).contains_key(k1));
                let i = choose|i: int| 0 <= i < e2.len() && (#[trigger] e2[i]).0 == k1;
                assert(i < e2.len() - 1);
                assert(lex_lt(e2[i].0, k2));
                lemma_lex_lt_trans(k2, k1, k2);
                lemma_lex_lt_trichotomy(k2, k2);
                assert(false);
            }
        }
        assert(map_of(e1)[k1] == e1.last().1);
        assert(map_of(e2)[k1] == e2.last().1);
        let d1 = e1.drop_last();
        let d2 = e2.drop_last();
        assert forall|i: int, j: int| 0 <= i < j < d1.len() implies lex_lt(
            (#[trigger] d1[i]).0,
            (#[trigger] d1[j]).0,
        ) by {
            assert(d1[i] == e1[i]);
            assert(d1[j] == e1[j]);
        }
        assert forall|i: int, j: int| 0 <= i < j < d2.len() implies lex_lt(
            (#[trigger] d2[i]).0,
            (#[trigger] d2[j]).0,
        ) by {
            assert(d2[i] == e2[i]);
            assert(d2[j] == e2[j]);
        }
        lemma_sorted_distinct(d1);
        lemma_sorted_distinct(d2);
        lemma_map_of_distinct(d1);
        lemma_map_of_distinct(d2);
        assert(!map_of(d1).contains_key(k1)) by {
            if map_of(d1).contains_key(k1) {
                let i = choose|i: int| 0 <= i < d1.len() && (#[trigger] d1[i]).0 == k1;
                assert(e1[i].0 == k1);
                assert(e1[i].0 != e1[e1.len() - 1].0);
            }
        }
        assert(!map_of(d2).contains_key(k1)) by {
            if map_of(d2).contains_key(k1) {
                let i = choose|i: int| 0 <= i < d2.len() && (#[trigger] d2[i]).0 == k1;
                assert(e2[i].0 == k1);
                assert(e2[i].0 != e2[e2.len() - 1].0);
            }
        }
        assert(map_of(d1) =~= map_of(e1).remove(k1));
        assert(map_of(d2) =~= map_of(e2).remove(k1));
        lemma_sorted_entries_unique(d1, d2);
        assert(e1 =~= e2);
    }
}

/// Query order invariance: two queries whose nonempty tokens are the
/// same collection in any order, with no duplicate decoded keys,
/// canonicalize to the same parameter map — and so, the map's sorted
/// rendering being canonical, to the same output text.
pub proof fn lemma_query_order_invariance(q1: Seq<char>, q2: Seq<char>, pats: Seq<Seq<char>>)
    requires
        distinct_keys(split_runs(q1, '&')),
        distinct_keys(split_runs(q2, '&')),
        split_runs(q1, '&').to_multiset() == split_runs(q2, '&').to_multiset(),
    ensures
        query_map(q1, pats) == query_map(q2, pats),
{
    let t1 = split_runs(q1, '&');
    let t2 = split_runs(q2, '&');
    t1.to_multiset_ensures();
    t2.to_multiset_ensures();
    assert forall|t: Seq<char>| t1.contains(t) <==> t2.contains(t) by {
        assert(t1.to_multiset().count(t) == t2.to_multiset().count(t));
    }
    lemma_params_map_characterize(t1, pats);
    lemma_params_map_characterize(t2, pats);
    let m1 = params_map(t1, pats);
    let m2 = params_map(t2, pats);
    assert forall|k: Seq<char>| #[trigger] m1.contains_key(k) implies m2.contains_key(k)
        && m2[k] == m1[k] by {
        assert(params_map(t1, pats).contains_key(k));
        assert(exists|i: int, v: Seq<char>| kept_pair_at(t1, pats, i, k, v));
        let (i, v) = choose|i: int, v: Seq<char>| kept_pair_at(t1, pats, i, k, v);
        assert(kept_pair_at(t1, pats, i, k, v));
        assert(t1.contains(t1[i]));
        assert(t2.contains(t1[i]));
        let j = choose|j: int| 0 <= j < t2.len() && t2[j] == t1[i];
        assert(t2[j] == t1[i]);
        assert(kept_pair_at(t2, pats, j, k, v));
    }
    assert forall|k: Seq<char>| #[trigger] m2.contains_key(k) implies m1.contains_key(k) by {
        assert(params_map(t2, pats).contains_key(k));
        assert(exists|i: int, v: Seq<char>| kept_pair_at(t2, pats, i, k, v));
        let (i, v) = choose|i: int, v: Seq<char>| kept_pair_at(t2, pats, i, k, v);
        assert(kept_pair_at(t2, pats, i, k, v));
        assert(t2.contains(t2[i]));
        assert(t1.contains(t2[i]));
        let j = choose|j: int| 0 <= j < t1.len() && t1[j] == t2[i];
        assert(t1[j] == t2[i]);
        assert(kept_pair_at(t1, pats, j, k, v));
    }
    assert(m1 =~= m2);
}

/// Query order invariance at the output text: whatever order the same
/// parameters arrive in, the sorted entry sequences of the two canonical
/// maps are the same sequence and render to the identical text.
pub proof fn lemma_query_order_invariant_text(
    q1: Seq<char>,
    q2: Seq<char>,
    pats: Seq<Seq<char>>,
    e1: Seq<(Seq<char>, Seq<char>)>,
    e2: Seq<(Seq<char>, Seq<char>)>,
)
    requires
        distinct_keys(split_runs(q1, '&')),
        distinct_keys(split_runs(q2, '&')),
        split_runs(q1, '&').to_multiset() == split_runs(q2, '&').to_multiset(),
        sorted_entries(e1),
        sorted_entries(e2),
        map_of(e1) == query_map(q1, pats),
        map_of(e2) == query_map(q2, pats),
    ensures
        e1 == e2,
        render_params(e1) == render_params(e2),
{
    lemma_query_order_invariance(q1, q2, pats);
    lemma_sorted_entries_unique(e1, e2);
}

/// The pattern texts the caller supplied, in order.
pub open spec fn pats_view(ps: Option<&[&str]>) -> Seq<Seq<char>> {
    match ps {
        None => Seq::empty(),
        Some(s) => Seq::new(s@.len(), |i: int| s@[i]@),
    }
}

/// Compiles the removal patterns in order, reporting the first pattern
/// that does not compile.
fn compile_rules(remove_patterns: Option<&[&str]>) -> (r: Result<Vec<Rule>, NormalizeError>)
    ensures
        r is Ok <==> (forall|j: int|
            0 <= j < pats_view(remove_patterns).len() ==> regex_ok(
                #[trigger] pats_view(remove_patterns)[j],
            )),
        r matches Ok(rules) ==> rules_view(rules@) == pats_view(remove_patterns),
        r matches Err(e) ==> (e matches NormalizeError::RegexParseError(p) && exists|j: int|
            {
                &&& 0 <= j < pats_view(remove_patterns).len()
                &&& !regex_ok(#[trigger] pats_view(remove_patterns)[j])
                &&& p@ == pats_view(remove_patterns)[j]
                &&& forall|i: int| 0 <= i < j ==> regex_ok(pats_view(remove_patterns)[i])
            }),
{
    let ghost pv = pats_view(remove_patterns);
    let mut rules: Vec<Rule> = Vec::new();
    match remove_patterns {
        None => {
            proof {
                assert(rules_view(rules@) =~= pv);
            }
            Ok(rules)
        },
        Some(ps) => {
            let np = ps.len();
            let mut j: usize = 0;
            while j < np
                invariant
                    0 <= j <= np,
                    np == ps@.len(),
                    pv == pats_view(Some(ps)),
                    pv == pats_view(remove_patterns),
                    pv.len() == np,
                    rules@.len() == j,
                    rules_view(rules@) =~= pv.subrange(0, j as int),
                    forall|i: int| 0 <= i < j ==> regex_ok(#[trigger] pv[i]),
                decreases np - j,
            {
                let pat: &str = ps[j];
                let pchars = str_to_chars(pat);
                proof {
                    assert(pchars@ == pv[j as int]);
                }
                match compile_rule(&pchars) {
                    Some(rule) => {
                        let ghost r0 = rules_view(rules@);
                        rules.push(rule);
                        proof {
                            assert(rules_view(rules@) =~= r0.push(rule.pattern_view()));
                            assert(rules_view(rules@) =~= pv.subrange(0, j + 1));
                        }
                    },
                    None => {
                        let text = pat.to_owned();
                        proof {
                            assert(!regex_ok(pats_view(remove_patterns)[j as int]));
                            assert(text@ == pats_view(remove_patterns)[j as int]);
                            assert(forall|i: int|
                                0 <= i < j ==> regex_ok(pats_view(remove_patterns)[i]));
                        }
                        return Err(NormalizeError::RegexParseError(text));
                    },
                }
                j += 1;
            }
            proof {
                assert(pv.subrange(0, np as int) =~= pv);
            }
            Ok(rules)
        },
    }
}

/// Builds the canonical parameter map of `query` under the removal
/// patterns.
///
/// An absent query yields the empty map at once, before any pattern is
/// compiled. Otherwise the call succeeds exactly when every pattern
/// compiles, and a failure carries the first pattern that does not. On
/// success the result is sorted by key and represents exactly the
/// canonical mapping of the query string.
pub fn canonicalize_query(query: Option<&Vec<char>>, remove_patterns: Option<&[&str]>) -> (r:
    Result<ParameterMap, NormalizeError>)
    ensures
        r is Ok <==> (query is None || (forall|j: int|
            0 <= j < pats_view(remove_patterns).len() ==> regex_ok(
                #[trigger] pats_view(remove_patterns)[j],
            ))),
        r matches Ok(m) ==> m.wf() && map_of(m.entries_view()) == query_map_opt(
            match query {
                Some(q) => Some(q@),
                None => None,
            },
            pats_view(remove_patterns),
        ),
        r matches Err(e) ==> (e matches NormalizeError::RegexParseError(p) && exists|j: int|
            {
                &&& 0 <= j < pats_view(remove_patterns).len()
                &&& !regex_ok(#[trigger] pats_view(remove_patterns)[j])
                &&& p@ == pats_view(remove_patterns)[j]
                &&& forall|i: int| 0 <= i < j ==> regex_ok(pats_view(remove_patterns)[i])
            }),
{
    let ghost pv = pats_view(remove_patterns);
    let q = match query {
        None => {
            return Ok(ParameterMap::new());
        },
        Some(q) => q,
    };
    let rules = match compile_rules(remove_patterns) {
        Ok(rules) => rules,
        Err(e) => {
            return Err(e);
        },
    };
    let mut pm = ParameterMap::new();
    let tokens = split_runs_vec(q, '&');
    let nt = tokens.len();
    let ghost tv = tokens.deep_view();
    let mut t: usize = 0;
    proof {
        assert(tv.subrange(0, 0) =~= Seq::<Seq<char>>::empty());
    }
    while t < nt
        invariant
            0 <= t <= nt,
            nt == tokens@.len(),
            tv == tokens.deep_view(),
            tv.len() == nt,
            rules_view(rules@) == pv,
            pm.wf(),
            map_of(pm.entries_view()) == params_map(tv.subrange(0, t as int), pv),
        decreases nt - t,
    {
        let ghost pre = tv.subrange(0, t as int);
        proof {
            assert(tv.subrange(0, t + 1).drop_last() =~= pre);
            assert(tv.subrange(0, t + 1).last() == tv[t as int]);
        }
        let tok = &tokens[t];
        proof {
            assert(tok@ =~= tv[t as int]);
        }
        match decode_token(tok) {
            Some((key, val)) => {
                if !any_rule_matches(&rules, &key) {
                    pm.insert(key, val);
                }
            },
            None => {},
        }
        t += 1;
    }
    proof {
        assert(tv.subrange(0, nt as int) =~= tv);
    }
    Ok(pm)
}

} // verus!
