//! Character-sequence utilities shared by the path and query passes:
//! splitting on a separator, rejoining, and byte-order comparison.

use vstd::prelude::*;
use vstd::string::StrSliceExecFns;

verus! {

/// Reads the characters of `s` into a vector.
pub fn str_to_chars(s: &str) -> (r: Vec<char>)
    ensures
        r@ == s@,
{
    let n = s.unicode_len();
    let mut r: Vec<char> = Vec::new();
    let mut i: usize = 0;
    while i < n
        invariant
            0 <= i <= n,
            n == s@.len(),
            r@ == s@.subrange(0, i as int),
        decreases n - i,
    {
        let c = s.get_char(i);
        r.push(c);
        proof {
            assert(s@.subrange(0, i + 1) =~= s@.subrange(0, i as int).push(s@[i as int]));
        }
        i += 1;
    }
    proof {
        assert(s@.subrange(0, n as int) =~= s@);
    }
    r
}

/// Copies the characters of `v` from `from` (inclusive) to `to` (exclusive).
pub fn copy_range(v: &Vec<char>, from: usize, to: usize) -> (r: Vec<char>)
    requires
        from <= to <= v@.len(),
    ensures
        r@ == v@.subrange(from as int, to as int),
{
    let mut r: Vec<char> = Vec::new();
    let mut i: usize = from;
    proof {
        assert(v@.subrange(from as int, from as int) =~= Seq::<char>::empty());
    }
    while i < to
        invariant
            from <= i <= to <= v@.len(),
            r@ == v@.subrange(from as int, i as int),
        decreases to - i,
    {
        let c = v[i];
        r.push(c);
        proof {
            assert(v@.subrange(from as int, i + 1) =~= v@.subrange(from as int, i as int).push(
                v@[i as int],
            ));
        }
        i += 1;
    }
    r
}

// ---------------------------------------------------------------------------
// Locating a separator
// ---------------------------------------------------------------------------

/// Index of the first occurrence of `c` in `s`, or `s.len()` if absent.
pub open spec fn first_idx(s: Seq<char>, c: char) -> int
    decreases s.len(),
{
    if s.len() == 0 {
        0
    } else if s[0] == c {
        0
    } else {
        1 + first_idx(s.subrange(1, s.len() as int), c)
    }
}

/// `first_idx` is in range, nothing before it is `c`, and it lands on
/// `c` whenever `c` occurs at all.
pub proof fn lemma_first_idx(s: Seq<char>, c: char)
    ensures
        0 <= first_idx(s, c) <= s.len(),
        forall|i: int| 0 <= i < first_idx(s, c) ==> s[i] != c,
        first_idx(s, c) < s.len() ==> s[first_idx(s, c)] == c,
    decreases s.len(),
{
    if s.len() > 0 && s[0] != c {
        let t = s.subrange(1, s.len() as int);
        lemma_first_idx(t, c);
        assert forall|i: int| 0 <= i < first_idx(s, c) implies s[i] != c by {
            if i > 0 {
                assert(t[i - 1] != c);
            }
        }
        if first_idx(s, c) < s.len() {
            assert(s[first_idx(s, c)] == t[first_idx(t, c)]);
        }
    }
}

/// The first index is pinned by its characteristic properties.
pub proof fn lemma_first_idx_is(s: Seq<char>, c: char, i: int)
    requires
        0 <= i <= s.len(),
        forall|j: int| 0 <= j < i ==> s[j] != c,
        i < s.len() ==> s[i] == c,
    ensures
        first_idx(s, c) == i,
{
    lemma_first_idx(s, c);
    let f = first_idx(s, c);
    if f < i {
        assert(s[f] != c);
        assert(false);
    }
    if i < f {
        assert(s[i] != c);
        assert(false);
    }
}

/// Position of the first `c` in `v`, or `v.len()` when `c` does not occur.
pub fn find_char(v: &Vec<char>, c: char) -> (r: usize)
    ensures
        r as int == first_idx(v@, c),
{
    let n = v.len();
    let mut i: usize = 0;
    while i < n
        invariant
            0 <= i <= n,
            n == v@.len(),
            forall|j: int| 0 <= j < i ==> v@[j] != c,
        decreases n - i,
    {
        if v[i] == c {
            proof {
                lemma_first_idx_is(v@, c, i as int);
            }
            return i;
        }
        i += 1;
    }
    proof {
        lemma_first_idx_is(v@, c, n as int);
    }
    n
}

// ---------------------------------------------------------------------------
// Splitting into maximal nonempty runs (doubled separators collapse)
// ---------------------------------------------------------------------------

/// Runs of `s` other than `sep`, with `cur` the run read so far.
pub open spec fn split_runs_acc(s: Seq<char>, sep: char, cur: Seq<char>) -> Seq<Seq<char>>
    decreases s.len(),
{
    if s.len() == 0 {
        if cur.len() == 0 {
            Seq::empty()
        } else {
            seq![cur]
        }
    } else if s[0] == sep {
        if cur.len() == 0 {
            split_runs_acc(s.subrange(1, s.len() as int), sep, Seq::empty())
        } else {
            seq![cur] + split_runs_acc(s.subrange(1, s.len() as int), sep, Seq::empty())
        }
    } else {
        split_runs_acc(s.subrange(1, s.len() as int), sep, cur.push(s[0]))
    }
}

/// The maximal nonempty runs of characters other than `sep`, in order.
/// Consecutive, leading and trailing separators produce no empty entries.
pub open spec fn split_runs(s: Seq<char>, sep: char) -> Seq<Seq<char>> {
    split_runs_acc(s, sep, Seq::empty())
}

/// `s` holds no occurrence of `sep`.
pub open spec fn sep_free(s: Seq<char>, sep: char) -> bool {
    forall|j: int| 0 <= j < s.len() ==> s[j] != sep
}

/// Every entry of `segs` is a nonempty run without the separator.
pub open spec fn segs_wf(segs: Seq<Seq<char>>, sep: char) -> bool {
    forall|i: int|
        0 <= i < segs.len() ==> (#[trigger] segs[i]).len() > 0 && sep_free(segs[i], sep)
}

/// Every run produced is nonempty and free of the separator, provided the
/// run read so far is.
pub proof fn lemma_split_runs_acc_wf(s: Seq<char>, sep: char, cur: Seq<char>)
    requires
        sep_free(cur, sep),
    ensures
        segs_wf(split_runs_acc(s, sep, cur), sep),
    decreases s.len(),
{
    if s.len() == 0 {
    } else if s[0] == sep {
        lemma_split_runs_acc_wf(s.subrange(1, s.len() as int), sep, Seq::empty());
        if cur.len() > 0 {
            let r = seq![cur] + split_runs_acc(s.subrange(1, s.len() as int), sep, Seq::empty());
            assert forall|i: int| 0 <= i < r.len() implies (#[trigger] r[i]).len() > 0
                && sep_free(r[i], sep) by {
                if i > 0 {
                    assert(r[i] == split_runs_acc(s.subrange(1, s.len() as int), sep,
                        Seq::empty())[i - 1]);
                }
            }
        }
    } else {
        assert(sep_free(cur.push(s[0]), sep));
        lemma_split_runs_acc_wf(s.subrange(1, s.len() as int), sep, cur.push(s[0]));
    }
}

/// Every run of `split_runs` is nonempty and free of the separator.
pub proof fn lemma_split_runs_wf(s: Seq<char>, sep: char)
    ensures
        segs_wf(split_runs(s, sep), sep),
{
    lemma_split_runs_acc_wf(s, sep, Seq::empty());
}

/// Splits `v` into its maximal nonempty runs of characters other than `sep`.
pub fn split_runs_vec(v: &Vec<char>, sep: char) -> (r: Vec<Vec<char>>)
    ensures
        r.deep_view() == split_runs(v@, sep),
{
    let n = v.len();
    let mut segs: Vec<Vec<char>> = Vec::new();
    let mut cur: Vec<char> = Vec::new();
    let mut i: usize = 0;
    proof {
        assert(v@.subrange(0, n as int) =~= v@);
        assert(segs.deep_view() + split_runs_acc(v@, sep, cur@) =~= split_runs_acc(
            v@,
            sep,
            cur@,
        ));
    }
    while i < n
        invariant
            0 <= i <= n,
            n == v@.len(),
            split_runs(v@, sep) == segs.deep_view() + split_runs_acc(
                v@.subrange(i as int, n as int),
                sep,
                cur@,
            ),
        decreases n - i,
    {
        let ghost rest = v@.subrange(i as int, n as int);
        proof {
            assert(rest.subrange(1, rest.len() as int) =~= v@.subrange(i + 1, n as int));
        }
        if v[i] == sep {
            if cur.len() > 0 {
                let ghost segs0 = segs.deep_view();
                let ghost tail = split_runs_acc(v@.subrange(i + 1, n as int), sep,
                    Seq::<char>::empty());
                let done = cur;
                cur = Vec::new();
                segs.push(done);
                proof {
                    assert(segs.deep_view() =~~= segs0.push(done@));
                    assert(segs0 + (seq![done@] + tail) =~~= segs0.push(done@) + tail);
                }
            } else {
                proof {
                    assert(cur@ =~= Seq::<char>::empty());
                }
            }
        } else {
            let c = v[i];
            cur.push(c);
        }
        i += 1;
    }
    proof {
        assert(v@.subrange(n as int, n as int) =~= Seq::<char>::empty());
    }
    if cur.len() > 0 {
        let ghost segs0 = segs.deep_view();
        let done = cur;
        segs.push(done);
        proof {
            assert(segs.deep_view() =~~= segs0.push(done@));
            assert(segs0 + seq![done@] =~~= segs0.push(done@));
        }
    }
    proof {
        assert(split_runs(v@, sep) =~~= segs.deep_view());
    }
    segs
}

// ---------------------------------------------------------------------------
// Splitting into all fields (empty fields kept)
// ---------------------------------------------------------------------------

/// Fields of `s` delimited by `sep`, empty fields kept; `cur` is the field
/// read so far.
pub open spec fn split_all_acc(s: Seq<char>, sep: char, cur: Seq<char>) -> Seq<Seq<char>>
    decreases s.len(),
{
    if s.len() == 0 {
        seq![cur]
    } else if s[0] == sep {
        seq![cur] + split_all_acc(s.subrange(1, s.len() as int), sep, Seq::empty())
    } else {
        split_all_acc(s.subrange(1, s.len() as int), sep, cur.push(s[0]))
    }
}

/// All `sep`-delimited fields of `s`, in order, empty fields kept.
/// An empty input yields one empty field.
pub open spec fn split_all(s: Seq<char>, sep: char) -> Seq<Seq<char>> {
    split_all_acc(s, sep, Seq::empty())
}

/// Splits `v` on every `sep`, keeping empty fields.
pub fn split_all_vec(v: &Vec<char>, sep: char) -> (r: Vec<Vec<char>>)
    ensures
        r.deep_view() == split_all(v@, sep),
{
    let n = v.len();
    let mut segs: Vec<Vec<char>> = Vec::new();
    let mut cur: Vec<char> = Vec::new();
    let mut i: usize = 0;
    proof {
        assert(v@.subrange(0, n as int) =~= v@);
        assert(segs.deep_view() + split_all_acc(v@, sep, cur@) =~= split_all_acc(v@, sep, cur@));
    }
    while i < n
        invariant
            0 <= i <= n,
            n == v@.len(),
            split_all(v@, sep) == segs.deep_view() + split_all_acc(
                v@.subrange(i as int, n as int),
                sep,
                cur@,
            ),
        decreases n - i,
    {
        let ghost rest = v@.subrange(i as int, n as int);
        proof {
            assert(rest.subrange(1, rest.len() as int) =~= v@.subrange(i + 1, n as int));
        }
        if v[i] == sep {
            let ghost segs0 = segs.deep_view();
            let ghost tail = split_all_acc(v@.subrange(i + 1, n as int), sep,
                Seq::<char>::empty());
            let done = cur;
            cur = Vec::new();
            segs.push(done);
            proof {
                assert(segs.deep_view() =~~= segs0.push(done@));
                assert(segs0 + (seq![done@] + tail) =~~= segs0.push(done@) + tail);
            }
        } else {
            let c = v[i];
            cur.push(c);
        }
        i += 1;
    }
    proof {
        assert(v@.subrange(n as int, n as int) =~= Seq::<char>::empty());
    }
    let ghost segs0 = segs.deep_view();
    let done = cur;
    segs.push(done);
    proof {
        assert(segs.deep_view() =~~= segs0.push(done@));
        assert(segs0 + seq![done@] =~~= segs0.push(done@));
        assert(split_all(v@, sep) =~~= segs.deep_view());
    }
    segs
}

// ---------------------------------------------------------------------------
// Joining
// ---------------------------------------------------------------------------

/// The entries of `segs` concatenated in order with `sep` between entries.
pub open spec fn join_segs(segs: Seq<Seq<char>>, sep: char) -> Seq<char>
    decreases segs.len(),
{
    if segs.len() == 0 {
        Seq::empty()
    } else if segs.len() == 1 {
        segs[0]
    } else {
        segs[0] + seq![sep] + join_segs(segs.subrange(1, segs.len() as int), sep)
    }
}

/// Joins the entries of `segs` with `sep` between entries.
pub fn join_segs_vec(segs: &Vec<Vec<char>>, sep: char) -> (r: Vec<char>)
    ensures
        r@ == join_segs(segs.deep_view(), sep),
{
    let n = segs.len();
    let mut out: Vec<char> = Vec::new();
    let mut i: usize = 0;
    proof {
        assert(segs.deep_view().subrange(0, n as int) =~= segs.deep_view());
        assert(out@ + join_segs(segs.deep_view(), sep) =~= join_segs(segs.deep_view(), sep));
    }
    while i < n
        invariant
            0 <= i <= n,
            n == segs.deep_view().len(),
            n == segs@.len(),
            join_segs(segs.deep_view(), sep) == out@ + join_segs(
                segs.deep_view().subrange(i as int, n as int),
                sep,
            ),
        decreases n - i,
    {
        let ghost pre = out@;
        let ghost tail = segs.deep_view().subrange(i as int, n as int);
        let seg = &segs[i];
        let m = seg.len();
        let mut j: usize = 0;
        proof {
            assert(pre + seg@.subrange(0, 0) =~= pre);
        }
        while j < m
            invariant
                0 <= j <= m,
                m == seg@.len(),
                out@ == pre + seg@.subrange(0, j as int),
            decreases m - j,
        {
            let c = seg[j];
            out.push(c);
            proof {
                assert(pre + seg@.subrange(0, j + 1) =~= (pre + seg@.subrange(0, j as int)).push(
                    seg@[j as int],
                ));
            }
            j += 1;
        }
        proof {
            assert(seg@.subrange(0, m as int) =~= seg@);
            assert(tail[0] =~= seg@);
        }
        if i + 1 < n {
            out.push(sep);
            proof {
                assert(tail.subrange(1, tail.len() as int) =~= segs.deep_view().subrange(
                    i + 1,
                    n as int,
                ));
                assert(pre + (tail[0] + seq![sep] + join_segs(
                    tail.subrange(1, tail.len() as int),
                    sep,
                )) =~= (pre + seg@).push(sep) + join_segs(
                    segs.deep_view().subrange(i + 1, n as int),
                    sep,
                ));
            }
        } else {
            proof {
                assert(tail.len() == 1);
                assert(pre + tail[0] =~= out@);
                assert(segs.deep_view().subrange(n as int, n as int)
                    =~= Seq::<Seq<char>>::empty());
                assert(out@ + join_segs(segs.deep_view().subrange(i + 1, n as int), sep)
                    =~= out@);
            }
        }
        i += 1;
    }
    proof {
        if n == 0 {
            assert(segs.deep_view().subrange(0, 0) =~= Seq::<Seq<char>>::empty());
        }
        assert(out@ + join_segs(segs.deep_view().subrange(n as int, n as int), sep) =~= out@);
    }
    out
}

// ---------------------------------------------------------------------------
// Byte-order comparison
// ---------------------------------------------------------------------------

/// Strict lexicographic order on character sequences by code point, which
/// for UTF-8 text coincides with byte order.
pub open spec fn lex_lt(a: Seq<char>, b: Seq<char>) -> bool
    decreases a.len(),
{
    if b.len() == 0 {
        false
    } else if a.len() == 0 {
        true
    } else if a[0] != b[0] {
        (a[0] as u32) < (b[0] as u32)
    } else {
        lex_lt(a.subrange(1, a.len() as int), b.subrange(1, b.len() as int))
    }
}

/// `lex_lt` orders totally: exactly one of `a < b`, `a == b`, `b < a`.
pub proof fn lemma_lex_lt_trichotomy(a: Seq<char>, b: Seq<char>)
    ensures
        lex_lt(a, b) || lex_lt(b, a) || a == b,
        lex_lt(a, b) ==> !lex_lt(b, a) && a != b,
        lex_lt(b, a) ==> !lex_lt(a, b) && a != b,
    decreases a.len(),
{
    if a.len() > 0 && b.len() > 0 && a[0] == b[0] {
        let at = a.subrange(1, a.len() as int);
        let bt = b.subrange(1, b.len() as int);
        lemma_lex_lt_trichotomy(at, bt);
        if at == bt {
            assert forall|i: int| 0 <= i < a.len() implies a[i] == b[i] by {
                if i >= 1 {
                    assert(a[i] == at[i - 1]);
                    assert(b[i] == bt[i - 1]);
                }
            }
            assert(a =~= b);
        }
        if a == b {
            assert forall|j: int| 0 <= j < at.len() implies at[j] == bt[j] by {
                assert(at[j] == a[j + 1]);
                assert(bt[j] == b[j + 1]);
            }
            assert(at =~= bt);
        }
    } else if a.len() == 0 && b.len() == 0 {
        assert(a =~= b);
    } else if a.len() > 0 && b.len() > 0 {
        vstd::utf8::char_u32_cast(a[0], a[0] as u32);
        vstd::utf8::char_u32_cast(b[0], b[0] as u32);
    }
}

/// `lex_lt` is transitive.
pub proof fn lemma_lex_lt_trans(a: Seq<char>, b: Seq<char>, c: Seq<char>)
    requires
        lex_lt(a, b),
        lex_lt(b, c),
    ensures
        lex_lt(a, c),
    decreases a.len() + b.len() + c.len(),
{
    if a.len() == 0 {
        assert(c.len() > 0);
    } else {
        assert(b.len() > 0 && c.len() > 0);
        if a[0] == b[0] && b[0] == c[0] {
            lemma_lex_lt_trans(
                a.subrange(1, a.len() as int),
                b.subrange(1, b.len() as int),
                c.subrange(1, c.len() as int),
            );
        }
    }
}

/// Compares `a` and `b` in strict lexicographic code-point order.
pub fn lex_lt_vec(a: &Vec<char>, b: &Vec<char>) -> (r: bool)
    ensures
        r == lex_lt(a@, b@),
{
    let na = a.len();
    let nb = b.len();
    let mut i: usize = 0;
    proof {
        assert(a@.subrange(0, na as int) =~= a@);
        assert(b@.subrange(0, nb as int) =~= b@);
    }
    loop
        invariant
            0 <= i <= na,
            i <= nb,
            na == a@.len(),
            nb == b@.len(),
            lex_lt(a@, b@) == lex_lt(
                a@.subrange(i as int, na as int),
                b@.subrange(i as int, nb as int),
            ),
        decreases na - i,
    {
        let ghost ar = a@.subrange(i as int, na as int);
        let ghost br = b@.subrange(i as int, nb as int);
        if i >= nb {
            return false;
        }
        if i >= na {
            return true;
        }
        let ca = a[i];
        let cb = b[i];
        if ca != cb {
            return (ca as u32) < (cb as u32);
        }
        proof {
            assert(ar.subrange(1, ar.len() as int) =~= a@.subrange(i + 1, na as int));
            assert(br.subrange(1, br.len() as int) =~= b@.subrange(i + 1, nb as int));
        }
        i += 1;
    }
}

} // verus!
