//! Path normalization: detects already-normal paths, splits a path into a
//! segment table, removes `.` and `..` segments in a single left-to-right
//! pass, and rejoins the survivors.

use vstd::prelude::*;

use crate::error::NormalizeError;
use crate::text::{
    find_char, first_idx, join_segs, join_segs_vec, lemma_first_idx, split_runs, split_runs_vec,
};

verus! {

// ---------------------------------------------------------------------------
// Dot segments
// ---------------------------------------------------------------------------

/// The self segment `.`.
pub open spec fn is_dot(s: Seq<char>) -> bool {
    s == seq!['.']
}

/// The parent segment `..`.
pub open spec fn is_dotdot(s: Seq<char>) -> bool {
    s == seq!['.', '.']
}

/// The segment holds a colon, which could make a leading relative segment
/// read as a URI scheme.
pub open spec fn has_colon(s: Seq<char>) -> bool {
    exists|i: int| 0 <= i < s.len() && s[i] == ':'
}

/// Decides whether `seg` is exactly `.`.
pub fn seg_is_dot(seg: &Vec<char>) -> (b: bool)
    ensures
        b == is_dot(seg@),
{
    if seg.len() == 1 && seg[0] == '.' {
        proof {
            assert(seg@ =~= seq!['.']);
        }
        true
    } else {
        proof {
            if is_dot(seg@) {
                assert(seg@.len() == 1 && seg@[0] == '.');
            }
        }
        false
    }
}

/// Decides whether `seg` is exactly `..`.
pub fn seg_is_dotdot(seg: &Vec<char>) -> (b: bool)
    ensures
        b == is_dotdot(seg@),
{
    if seg.len() == 2 && seg[0] == '.' && seg[1] == '.' {
        proof {
            assert(seg@ =~= seq!['.', '.']);
        }
        true
    } else {
        proof {
            if is_dotdot(seg@) {
                assert(seg@.len() == 2 && seg@[0] == '.' && seg@[1] == '.');
            }
        }
        false
    }
}

/// Decides whether `seg` holds a colon.
pub fn seg_has_colon(seg: &Vec<char>) -> (b: bool)
    ensures
        b == has_colon(seg@),
{
    let k = find_char(seg, ':');
    proof {
        lemma_first_idx(seg@, ':');
    }
    k < seg.len()
}

// ---------------------------------------------------------------------------
// The fast-path check: is the path already normal?
// ---------------------------------------------------------------------------

/// Position `i` starts a segment: it is not a separator and is either the
/// first position or preceded by a separator.
pub open spec fn seg_starts_at(p: Seq<char>, i: int) -> bool {
    0 <= i < p.len() && p[i] != '/' && (i == 0 || p[i - 1] == '/')
}

/// A segment that is exactly `.` or exactly `..` starts at position `i`.
pub open spec fn dot_seg_at(p: Seq<char>, i: int) -> bool {
    seg_starts_at(p, i) && p[i] == '.' && (i + 1 == p.len() || p[i + 1] == '/' || (p[i + 1]
        == '.' && (i + 2 == p.len() || p[i + 2] == '/')))
}

/// Two consecutive separators stand at positions `i`, `i + 1`.
pub open spec fn double_slash_at(p: Seq<char>, i: int) -> bool {
    0 <= i && i + 1 < p.len() && p[i] == '/' && p[i + 1] == '/'
}

/// A path is already normal when it has no doubled separator (which also
/// rules out more than one leading slash) and no `.` or `..` segment.
/// Such a path is returned unchanged.
pub open spec fn path_is_normal(p: Seq<char>) -> bool {
    (forall|i: int| !double_slash_at(p, i)) && (forall|i: int| !dot_seg_at(p, i))
}

/// Scans the path once and decides whether normalization is a no-op.
pub fn check_normal(p: &Vec<char>) -> (r: bool)
    ensures
        r == path_is_normal(p@),
{
    let n = p.len();
    let mut i: usize = 0;
    while i < n
        invariant
            0 <= i <= n,
            n == p@.len(),
            forall|j: int| 0 <= j < i ==> !double_slash_at(p@, j),
            forall|j: int| 0 <= j < i ==> !dot_seg_at(p@, j),
        decreases n - i,
    {
        if i + 1 < n && p[i] == '/' && p[i + 1] == '/' {
            proof {
                assert(double_slash_at(p@, i as int));
            }
            return false;
        }
        let starts = p[i] != '/' && (i == 0 || p[i - 1] == '/');
        if starts && p[i] == '.' {
            if i + 1 == n || p[i + 1] == '/' {
                proof {
                    assert(dot_seg_at(p@, i as int));
                }
                return false;
            }
            if p[i + 1] == '.' && (i + 2 == n || p[i + 2] == '/') {
                proof {
                    assert(dot_seg_at(p@, i as int));
                }
                return false;
            }
        }
        i += 1;
    }
    proof {
        assert forall|j: int| !double_slash_at(p@, j) by {}
        assert forall|j: int| !dot_seg_at(p@, j) by {}
    }
    true
}

// ---------------------------------------------------------------------------
// Dot-segment removal: one pass over the segment table with a stack
// ---------------------------------------------------------------------------

/// One step of removal. A `.` is dropped; a `..` cancels the nearest kept
/// ancestor unless that ancestor is itself an unresolved `..` (or there is
/// none), in which case the `..` is kept verbatim; anything else is kept.
pub open spec fn dots_step(stack: Seq<Seq<char>>, seg: Seq<char>) -> Seq<Seq<char>> {
    if is_dot(seg) {
        stack
    } else if is_dotdot(seg) {
        if stack.len() > 0 && !is_dotdot(stack.last()) {
            stack.drop_last()
        } else {
            stack.push(seg)
        }
    } else {
        stack.push(seg)
    }
}

/// The surviving segments after dot-segment removal, in original order.
pub open spec fn remove_dots_spec(segs: Seq<Seq<char>>) -> Seq<Seq<char>>
    decreases segs.len(),
{
    if segs.len() == 0 {
        Seq::empty()
    } else {
        dots_step(remove_dots_spec(segs.drop_last()), segs.last())
    }
}

/// Removes `.` and `..` segments in one left-to-right pass, also
/// reporting whether the first segment was among the removed — that is,
/// whether the survivor stack was ever empty after a step.
pub fn remove_dots(segs: Vec<Vec<char>>) -> (r: (Vec<Vec<char>>, bool))
    ensures
        r.0.deep_view() == remove_dots_spec(segs.deep_view()),
        r.1 == first_seg_removed(segs.deep_view()),
{
    let n = segs.len();
    let mut stack: Vec<Vec<char>> = Vec::new();
    let mut emptied = false;
    let mut i: usize = 0;
    let mut it = segs;
    proof {
        assert(it.deep_view().subrange(0, 0) =~= Seq::<Seq<char>>::empty());
    }
    // Segments are taken in order; `it` is only read from index `i` on.
    while i < n
        invariant
            0 <= i <= n,
            n == it.deep_view().len(),
            n == it@.len(),
            stack.deep_view() == remove_dots_spec(it.deep_view().subrange(0, i as int)),
            emptied <==> (exists|k: int|
                1 <= k <= i && remove_dots_spec(
                    #[trigger] it.deep_view().subrange(0, k),
                ).len() == 0),
        decreases n - i,
    {
        let ghost pre = it.deep_view().subrange(0, i as int);
        let ghost cur = it.deep_view()[i as int];
        proof {
            assert(it.deep_view().subrange(0, i + 1).drop_last() =~= pre);
            assert(it.deep_view().subrange(0, i + 1).last() == cur);
        }
        let seg = &it[i];
        proof {
            assert(seg@ =~= cur);
        }
        if seg_is_dot(seg) {
        } else if seg_is_dotdot(seg) {
            let can_cancel = if stack.len() > 0 {
                let top = &stack[stack.len() - 1];
                proof {
                    assert(top@ =~= stack.deep_view().last());
                }
                !seg_is_dotdot(top)
            } else {
                false
            };
            if can_cancel {
                let ghost st0 = stack.deep_view();
                let _ = stack.pop();
                proof {
                    assert(stack.deep_view() =~~= st0.drop_last());
                }
            } else {
                let ghost st0 = stack.deep_view();
                let own = copy_seg(seg);
                stack.push(own);
                proof {
                    assert(stack.deep_view() =~~= st0.push(cur));
                }
            }
        } else {
            let ghost st0 = stack.deep_view();
            let own = copy_seg(seg);
            stack.push(own);
            proof {
                assert(stack.deep_view() =~~= st0.push(cur));
            }
        }
        proof {
            assert(stack.deep_view() == remove_dots_spec(it.deep_view().subrange(0, i + 1)));
        }
        if stack.len() == 0 {
            emptied = true;
            proof {
                assert(remove_dots_spec(it.deep_view().subrange(0, i + 1)).len() == 0);
            }
        } else {
            proof {
                if !emptied {
                    assert forall|k: int|
                        1 <= k <= i + 1 implies remove_dots_spec(
                        #[trigger] it.deep_view().subrange(0, k),
                    ).len() != 0 by {
                        if k == i + 1 {
                            assert(remove_dots_spec(it.deep_view().subrange(0, k)).len()
                                == stack.deep_view().len());
                        }
                    }
                }
            }
        }
        i += 1;
    }
    proof {
        assert(it.deep_view().subrange(0, n as int) =~= it.deep_view());
    }
    (stack, emptied)
}

/// Copies one segment.
fn copy_seg(seg: &Vec<char>) -> (r: Vec<char>)
    ensures
        r@ == seg@,
{
    let mut out: Vec<char> = Vec::new();
    let m = seg.len();
    let mut j: usize = 0;
    while j < m
        invariant
            0 <= j <= m,
            m == seg@.len(),
            out@ == seg@.subrange(0, j as int),
        decreases m - j,
    {
        let c = seg[j];
        out.push(c);
        proof {
            assert(seg@.subrange(0, j + 1) =~= seg@.subrange(0, j as int).push(seg@[j as int]));
        }
        j += 1;
    }
    proof {
        assert(seg@.subrange(0, m as int) =~= seg@);
    }
    out
}

/// A run of nothing but `..` segments is left as it is: with no ancestor
/// to cancel, leading parent segments are preserved verbatim rather than
/// silently discarded.
pub proof fn lemma_all_dotdot_preserved(segs: Seq<Seq<char>>)
    requires
        forall|i: int| 0 <= i < segs.len() ==> is_dotdot(#[trigger] segs[i]),
    ensures
        remove_dots_spec(segs) == segs,
    decreases segs.len(),
{
    if segs.len() > 0 {
        let d = segs.drop_last();
        assert forall|i: int| 0 <= i < d.len() implies is_dotdot(#[trigger] d[i]) by {
            assert(d[i] == segs[i]);
        }
        lemma_all_dotdot_preserved(d);
        assert(is_dotdot(segs.last()));
        assert(segs.last().len() == 2);
        assert(!is_dot(segs.last()));
        if d.len() > 0 {
            assert(is_dotdot(d.last()));
        }
        assert(d.push(segs.last()) =~= segs);
    }
}

// ---------------------------------------------------------------------------
// The whole pass
// ---------------------------------------------------------------------------

/// The table's first segment does not survive dot removal. The first
/// segment sits at the bottom of the survivor stack, and the bottom
/// leaves exactly when the stack empties; so it was removed exactly when
/// the survivors of some prefix of the table are none.
pub open spec fn first_seg_removed(segs: Seq<Seq<char>>) -> bool {
    exists|i: int|
        1 <= i <= segs.len() && remove_dots_spec(#[trigger] segs.subrange(0, i)).len() == 0
}

/// The guard fires when the path was relative, the first surviving
/// segment holds a colon — which could otherwise be misread as a URI
/// scheme by a downstream consumer — and a segment before that survivor
/// was removed. When the colon segment already began the path the text
/// was no less ambiguous before normalization, no `.` is added, and the
/// output never outgrows the input. Never fires for absolute paths.
pub open spec fn lead_dot_needed(abs: bool, segs: Seq<Seq<char>>) -> bool {
    &&& !abs
    &&& remove_dots_spec(segs).len() > 0
    &&& has_colon(remove_dots_spec(segs)[0])
    &&& first_seg_removed(segs)
}

/// The output's segment table: the survivors of `segs`, with a guarding
/// `.` prepended where `lead_dot_needed` says so.
pub open spec fn add_lead_dot(abs: bool, segs: Seq<Seq<char>>) -> Seq<Seq<char>> {
    if lead_dot_needed(abs, segs) {
        seq![seq!['.']] + remove_dots_spec(segs)
    } else {
        remove_dots_spec(segs)
    }
}

/// What `normalize_path` returns: the path itself when it is already
/// normal; otherwise the path is split into segments (doubled separators
/// collapse), dot segments are removed, a guarding `.` is prepended where
/// needed, and the survivors are rejoined, keeping the leading slash of an
/// absolute path.
pub open spec fn normalize_path_spec(p: Seq<char>) -> Seq<char> {
    if path_is_normal(p) {
        p
    } else {
        let abs = p.len() > 0 && p[0] == '/';
        let segs = add_lead_dot(abs, split_runs(p, '/'));
        if abs {
            seq!['/'] + join_segs(segs, '/')
        } else {
            join_segs(segs, '/')
        }
    }
}

// ---------------------------------------------------------------------------
// Idempotence: the canonical form is a fixed point
// ---------------------------------------------------------------------------

/// The shape of a segment table after dot removal: no `.` segment, and
/// every `..` segment stands in an unbroken leading run.
pub open spec fn rd_normal(segs: Seq<Seq<char>>) -> bool {
    &&& forall|i: int| 0 <= i < segs.len() ==> !is_dot(#[trigger] segs[i])
    &&& forall|i: int, j: int|
        0 <= i < j < segs.len() && is_dotdot(#[trigger] segs[j]) ==> is_dotdot(#[trigger] segs[i])
}

/// Dot removal keeps every surviving segment nonempty and separator-free.
proof fn lemma_rd_wf(segs: Seq<Seq<char>>, sep: char)
    requires
        crate::text::segs_wf(segs, sep),
    ensures
        crate::text::segs_wf(remove_dots_spec(segs), sep),
    decreases segs.len(),
{
    if segs.len() > 0 {
        let d = segs.drop_last();
        assert forall|i: int|
            0 <= i < d.len() implies (#[trigger] d[i]).len() > 0 && crate::text::sep_free(
            d[i],
            sep,
        ) by {
            assert(d[i] == segs[i]);
        }
        lemma_rd_wf(d, sep);
        let st = remove_dots_spec(d);
        let r = remove_dots_spec(segs);
        assert(segs.last() == segs[segs.len() - 1]);
        assert forall|i: int|
            0 <= i < r.len() implies (#[trigger] r[i]).len() > 0 && crate::text::sep_free(
            r[i],
            sep,
        ) by {
            if r == st.push(segs.last()) {
                if i < st.len() {
                    assert(r[i] == st[i]);
                } else {
                    assert(r[i] == segs.last());
                }
            } else if r == st.drop_last() {
                assert(r[i] == st[i]);
            } else {
                assert(r[i] == st[i]);
            }
        }
    }
}

/// What dot removal produces is in removal normal form.
proof fn lemma_rd_normal(segs: Seq<Seq<char>>)
    ensures
        rd_normal(remove_dots_spec(segs)),
    decreases segs.len(),
{
    if segs.len() > 0 {
        let d = segs.drop_last();
        lemma_rd_normal(d);
        let st = remove_dots_spec(d);
        let r = remove_dots_spec(segs);
        let last = segs.last();
        if is_dot(last) {
        } else if is_dotdot(last) {
            assert(last.len() == 2);
            assert(!is_dot(last));
            if st.len() > 0 && !is_dotdot(st.last()) {
                assert forall|i: int| 0 <= i < r.len() implies !is_dot(#[trigger] r[i]) by {
                    assert(r[i] == st[i]);
                }
                assert forall|i: int, j: int|
                    0 <= i < j < r.len() && is_dotdot(#[trigger] r[j]) implies is_dotdot(
                    #[trigger] r[i],
                ) by {
                    assert(r[i] == st[i]);
                    assert(r[j] == st[j]);
                }
            } else {
                assert(r == st.push(last));
                assert forall|i: int| 0 <= i < r.len() implies !is_dot(#[trigger] r[i]) by {
                    if i < st.len() {
                        assert(r[i] == st[i]);
                    } else {
                        assert(r[i] == last);
                    }
                }
                assert forall|i: int, j: int|
                    0 <= i < j < r.len() && is_dotdot(#[trigger] r[j]) implies is_dotdot(
                    #[trigger] r[i],
                ) by {
                    if st.len() > 0 {
                        assert(is_dotdot(st.last()));
                        assert(st.last() == st[st.len() - 1]);
                    }
                    if j < st.len() {
                        assert(r[i] == st[i]);
                        assert(r[j] == st[j]);
                    } else {
                        // `j` is the pushed `..`; everything below is `..`.
                        assert(r[i] == st[i]);
                        if i < st.len() - 1 {
                            assert(is_dotdot(st[st.len() - 1]));
                        }
                    }
                }
            }
        } else {
            assert(r == st.push(last));
            assert forall|i: int| 0 <= i < r.len() implies !is_dot(#[trigger] r[i]) by {
                if i < st.len() {
                    assert(r[i] == st[i]);
                } else {
                    assert(r[i] == last);
                }
            }
            assert forall|i: int, j: int|
                0 <= i < j < r.len() && is_dotdot(#[trigger] r[j]) implies is_dotdot(
                #[trigger] r[i],
            ) by {
                assert(r[i] == st[i]);
                if j < st.len() {
                    assert(r[j] == st[j]);
                } else {
                    assert(r[j] == last);
                }
            }
        }
    }
}

/// Dot removal is the identity on a table already in normal form.
proof fn lemma_rd_identity(segs: Seq<Seq<char>>)
    requires
        rd_normal(segs),
    ensures
        remove_dots_spec(segs) == segs,
    decreases segs.len(),
{
    if segs.len() > 0 {
        let d = segs.drop_last();
        assert forall|i: int| 0 <= i < d.len() implies !is_dot(#[trigger] d[i]) by {
            assert(d[i] == segs[i]);
        }
        assert forall|i: int, j: int|
            0 <= i < j < d.len() && is_dotdot(#[trigger] d[j]) implies is_dotdot(
            #[trigger] d[i],
        ) by {
            assert(d[i] == segs[i]);
            assert(d[j] == segs[j]);
        }
        lemma_rd_identity(d);
        let last = segs.last();
        assert(last == segs[segs.len() - 1]);
        assert(!is_dot(last));
        if is_dotdot(last) && d.len() > 0 {
            assert(is_dotdot(segs[segs.len() - 1]));
            assert(is_dotdot(segs[d.len() - 1]));
            assert(d.last() == segs[d.len() - 1]);
        }
        assert(d.push(last) =~= segs);
    }
}

/// A `.` segment prepended to a table removes to the same survivors.
proof fn lemma_rd_skip_leading_dot(segs: Seq<Seq<char>>)
    ensures
        remove_dots_spec(seq![seq!['.']] + segs) == remove_dots_spec(segs),
    decreases segs.len(),
{
    let f = seq![seq!['.']] + segs;
    assert(f.len() == segs.len() + 1);
    if segs.len() == 0 {
        assert(f.last() == seq!['.']);
        assert(is_dot(f.last()));
        assert(f.drop_last() =~= Seq::<Seq<char>>::empty());
        assert(remove_dots_spec(Seq::<Seq<char>>::empty()) == Seq::<Seq<char>>::empty());
        assert(remove_dots_spec(f) == dots_step(remove_dots_spec(f.drop_last()), f.last()));
        assert(remove_dots_spec(f) == Seq::<Seq<char>>::empty());
        assert(remove_dots_spec(segs) == Seq::<Seq<char>>::empty());
    } else {
        assert(f.drop_last() =~= seq![seq!['.']] + segs.drop_last());
        assert(f.last() == segs.last());
        lemma_rd_skip_leading_dot(segs.drop_last());
        assert(remove_dots_spec(f) == dots_step(remove_dots_spec(f.drop_last()), f.last()));
        assert(remove_dots_spec(f.drop_last()) == remove_dots_spec(segs.drop_last()));
        assert(remove_dots_spec(segs) == dots_step(
            remove_dots_spec(segs.drop_last()),
            segs.last(),
        ));
        assert(remove_dots_spec(f) == remove_dots_spec(segs));
    }
}

/// Reading a separator-free prefix accumulates it into the current run.
proof fn lemma_acc_consumes(s: Seq<char>, rest: Seq<char>, sep: char, cur: Seq<char>)
    requires
        crate::text::sep_free(s, sep),
    ensures
        crate::text::split_runs_acc(s + rest, sep, cur) == crate::text::split_runs_acc(
            rest,
            sep,
            cur + s,
        ),
    decreases s.len(),
{
    if s.len() == 0 {
        assert(s + rest =~= rest);
        assert(cur + s =~= cur);
    } else {
        let c = s[0];
        let t = s.subrange(1, s.len() as int);
        assert((s + rest)[0] == c);
        assert(c != sep);
        assert((s + rest).subrange(1, (s + rest).len() as int) =~= t + rest);
        assert forall|j: int| 0 <= j < t.len() implies t[j] != sep by {
            assert(t[j] == s[j + 1]);
        }
        lemma_acc_consumes(t, rest, sep, cur.push(c));
        assert(cur.push(c) + t =~= cur + s);
    }
}

/// Splitting the join of a well-formed table gives the table back.
proof fn lemma_split_of_join(segs: Seq<Seq<char>>, sep: char)
    requires
        crate::text::segs_wf(segs, sep),
    ensures
        split_runs(join_segs(segs, sep), sep) == segs,
    decreases segs.len(),
{
    if segs.len() == 0 {
    } else if segs.len() == 1 {
        let s = segs[0];
        assert(s.len() > 0 && crate::text::sep_free(s, sep));
        assert(s + Seq::<char>::empty() =~= s);
        lemma_acc_consumes(s, Seq::empty(), sep, Seq::empty());
        assert(Seq::<char>::empty() + s =~= s);
        assert(crate::text::split_runs_acc(Seq::<char>::empty(), sep, s) == seq![s]);
        assert(seq![s] =~= segs);
    } else {
        let s = segs[0];
        let rest = segs.subrange(1, segs.len() as int);
        assert(s.len() > 0 && crate::text::sep_free(s, sep));
        let tail = seq![sep] + join_segs(rest, sep);
        assert(s + tail =~= join_segs(segs, sep));
        lemma_acc_consumes(s, tail, sep, Seq::empty());
        assert(Seq::<char>::empty() + s =~= s);
        assert(tail[0] == sep);
        assert(tail.subrange(1, tail.len() as int) =~= join_segs(rest, sep));
        assert forall|i: int|
            0 <= i < rest.len() implies (#[trigger] rest[i]).len() > 0 && crate::text::sep_free(
            rest[i],
            sep,
        ) by {
            assert(rest[i] == segs[i + 1]);
        }
        lemma_split_of_join(rest, sep);
        assert(crate::text::split_runs_acc(tail, sep, s) == seq![s] + split_runs(
            join_segs(rest, sep),
            sep,
        ));
        assert(seq![s] + rest =~= segs);
    }
}

/// A prefix of a table in removal normal form is itself in normal form.
proof fn lemma_rd_normal_prefix(segs: Seq<Seq<char>>, n: int)
    requires
        rd_normal(segs),
        0 <= n <= segs.len(),
    ensures
        rd_normal(segs.subrange(0, n)),
{
    let pre = segs.subrange(0, n);
    assert forall|i: int| 0 <= i < pre.len() implies !is_dot(#[trigger] pre[i]) by {
        assert(pre[i] == segs[i]);
    }
    assert forall|i: int, j: int|
        0 <= i < j < pre.len() && is_dotdot(#[trigger] pre[j]) implies is_dotdot(
        #[trigger] pre[i],
    ) by {
        assert(pre[i] == segs[i]);
        assert(pre[j] == segs[j]);
    }
}

/// Idempotence: the canonical form is a fixed point, so re-normalizing
/// the output of `normalize_path` changes nothing.
pub proof fn lemma_normalize_path_idempotent(p: Seq<char>)
    ensures
        normalize_path_spec(normalize_path_spec(p)) == normalize_path_spec(p),
{
    if !path_is_normal(p) {
        let out = normalize_path_spec(p);
        if !path_is_normal(out) {
            let abs = p.len() > 0 && p[0] == '/';
            let segs0 = split_runs(p, '/');
            let segs1 = remove_dots_spec(segs0);
            let segs2 = add_lead_dot(abs, segs0);
            let j = join_segs(segs2, '/');
            crate::text::lemma_split_runs_wf(p, '/');
            lemma_rd_wf(segs0, '/');
            lemma_rd_normal(segs0);
            let dotted = lead_dot_needed(abs, segs0);
            assert forall|i: int|
                0 <= i < segs2.len() implies (#[trigger] segs2[i]).len() > 0
                && crate::text::sep_free(segs2[i], '/') by {
                if dotted {
                    if i == 0 {
                        assert(segs2[0] == seq!['.']);
                    } else {
                        assert(segs2[i] == segs1[i - 1]);
                    }
                } else {
                    assert(segs2[i] == segs1[i]);
                }
            }
            // In this branch the output is not empty and not just `/`,
            // else it would already be normal.
            if segs2.len() == 0 {
                if abs {
                    assert(out == seq!['/'] + j);
                    assert(out.len() == 1);
                    assert(forall|i: int| !double_slash_at(out, i));
                    assert(forall|i: int| !dot_seg_at(out, i));
                    assert(false);
                } else {
                    assert(out.len() == 0);
                    assert(false);
                }
            }
            // The output is absolute exactly when the input was.
            if !abs {
                if segs2.len() == 1 {
                    assert(j == segs2[0]);
                } else {
                    assert(j == segs2[0] + seq!['/'] + join_segs(
                        segs2.subrange(1, segs2.len() as int),
                        '/',
                    ));
                    assert(j[0] == segs2[0][0]);
                }
                assert(out == j);
                assert(out[0] != '/');
            } else {
                assert(out == seq!['/'] + j);
                assert(out[0] == '/');
            }
            // Splitting the output recovers the segment table.
            lemma_split_of_join(segs2, '/');
            if abs {
                assert(out[0] == '/');
                assert(out.subrange(1, out.len() as int) =~= j);
                assert(split_runs(out, '/') == split_runs(j, '/'));
            }
            assert(split_runs(out, '/') == segs2);
            // Removing dots again changes nothing.
            lemma_rd_identity(segs1);
            if dotted {
                lemma_rd_skip_leading_dot(segs1);
                assert(seq![seq!['.']] + segs1 =~= segs2);
                assert(remove_dots_spec(segs2) == segs1);
            } else {
                assert(segs2 == segs1);
            }
            assert(remove_dots_spec(split_runs(out, '/')) == segs1);
            // The guard fires on the second pass exactly when it fired
            // on the first.
            if dotted {
                assert(segs2[0] == seq!['.']);
                assert(segs2.subrange(0, 1) =~= seq![seq!['.']]);
                assert(seq![seq!['.']].drop_last() =~= Seq::<Seq<char>>::empty());
                assert(remove_dots_spec(Seq::<Seq<char>>::empty())
                    == Seq::<Seq<char>>::empty());
                assert(is_dot(seq!['.']));
                assert(remove_dots_spec(seq![seq!['.']]).len() == 0);
                assert(remove_dots_spec(segs2.subrange(0, 1)).len() == 0);
                assert(first_seg_removed(segs2));
                assert(lead_dot_needed(false, segs2));
            } else {
                assert(!first_seg_removed(segs1)) by {
                    assert forall|i: int|
                        1 <= i <= segs1.len() implies remove_dots_spec(
                        #[trigger] segs1.subrange(0, i),
                    ).len() != 0 by {
                        lemma_rd_normal_prefix(segs1, i);
                        lemma_rd_identity(segs1.subrange(0, i));
                    }
                }
                assert(!lead_dot_needed(abs, segs2));
            }
            assert(add_lead_dot(out.len() > 0 && out[0] == '/', segs2) == segs2);
            assert(normalize_path_spec(out) == out);
        }
    }
}

/// Normalizes one path.
///
/// The result is always `Ok`: the segment bookkeeping that the error
/// variants `InternalError` and `UrlEncodeError` guard against is proved
/// consistent here, so neither can arise.
pub fn normalize_path(path: &Vec<char>) -> (r: Result<Vec<char>, NormalizeError>)
    ensures
        r matches Ok(v) && v@ == normalize_path_spec(path@),
{
    if check_normal(path) {
        return Ok(copy_seg(path));
    }
    let abs = path.len() > 0 && path[0] == '/';
    let segs = split_runs_vec(path, '/');
    let (survivors, first_removed) = remove_dots(segs);
    let mut table: Vec<Vec<char>> = Vec::new();
    if !abs && first_removed && survivors.len() > 0 && seg_has_colon(&survivors[0]) {
        proof {
            assert(survivors.deep_view()[0] =~= survivors@[0]@);
        }
        let mut dot: Vec<char> = Vec::new();
        dot.push('.');
        table.push(dot);
        proof {
            assert(table.deep_view() =~~= seq![seq!['.']]);
        }
    } else {
        proof {
            if survivors.deep_view().len() > 0 {
                assert(survivors.deep_view()[0] =~= survivors@[0]@);
            }
            assert(!lead_dot_needed(abs, split_runs(path@, '/')));
        }
    }
    let ghost lead = table.deep_view();
    let mut rest = survivors;
    table.append(&mut rest);
    proof {
        assert(table.deep_view() =~~= lead + remove_dots_spec(split_runs(path@, '/')));
        assert(table.deep_view() =~~= add_lead_dot(abs, split_runs(path@, '/')));
    }
    let joined = join_segs_vec(&table, '/');
    if abs {
        let mut out: Vec<char> = Vec::new();
        out.push('/');
        let mut tail = joined;
        out.append(&mut tail);
        proof {
            assert(out@ =~= seq!['/'] + join_segs(table.deep_view(), '/'));
        }
        Ok(out)
    } else {
        Ok(joined)
    }
}

} // verus!
