//! The line diff engine: longest-common-subsequence alignment of two
//! documents followed by a similarity-based modification pass.

use crate::text::{
    lemma_deep_view_drop_last, lemma_deep_view_push, lemma_reverse_push, lines_of, split_lines,
    split_words, str_eq, words_of,
};
use vstd::prelude::*;

verus! {

/// One entry of a line diff.
#[derive(Debug, Clone, PartialEq)]
pub enum DiffLine {
    /// The line is present, identically, in both documents.
    Unchanged(String),
    /// The line is present only in the second document.
    Added(String),
    /// The line is present only in the first document.
    Removed(String),
    /// A removed line directly followed by an added line judged similar
    /// enough to be one edit.
    Modified { old: String, new: String },
}

/// The mathematical form of a diff entry.
pub enum DiffOp {
    Unchanged(Seq<char>),
    Added(Seq<char>),
    Removed(Seq<char>),
    Modified { old: Seq<char>, new: Seq<char> },
}

impl View for DiffLine {
    type V = DiffOp;

    open spec fn view(&self) -> DiffOp {
        match self {
            DiffLine::Unchanged(l) => DiffOp::Unchanged(l@),
            DiffLine::Added(l) => DiffOp::Added(l@),
            DiffLine::Removed(l) => DiffOp::Removed(l@),
            DiffLine::Modified { old, new } => DiffOp::Modified { old: old@, new: new@ },
        }
    }
}

impl DeepView for DiffLine {
    type V = DiffOp;

    open spec fn deep_view(&self) -> DiffOp {
        self.view()
    }
}

/// Length of the longest common subsequence of two line sequences.
pub open spec fn lcs(a: Seq<Seq<char>>, b: Seq<Seq<char>>) -> nat
    decreases a.len() + b.len(),
{
    if a.len() == 0 || b.len() == 0 {
        0
    } else if a.last() == b.last() {
        lcs(a.drop_last(), b.drop_last()) + 1
    } else {
        let d1 = lcs(a.drop_last(), b);
        let d2 = lcs(a, b.drop_last());
        if d1 >= d2 {
            d1
        } else {
            d2
        }
    }
}

/// A common subsequence is no longer than either sequence.
pub proof fn lemma_lcs_bound(a: Seq<Seq<char>>, b: Seq<Seq<char>>)
    ensures
        lcs(a, b) <= a.len(),
        lcs(a, b) <= b.len(),
    decreases a.len() + b.len(),
{
    if a.len() == 0 || b.len() == 0 {
    } else if a.last() == b.last() {
        lemma_lcs_bound(a.drop_last(), b.drop_last());
    } else {
        lemma_lcs_bound(a.drop_last(), b);
        lemma_lcs_bound(a, b.drop_last());
    }
}

/// The full dynamic-programming table of LCS lengths over the prefixes of
/// the two line sequences: entry `[i][j]` is the LCS length of the first
/// `i` lines of `text1` and the first `j` lines of `text2`.
pub fn lcs_length(text1: &Vec<String>, text2: &Vec<String>) -> (dp: Vec<Vec<usize>>)
    ensures
        dp@.len() == text1@.len() + 1,
        forall|i: int| 0 <= i < dp@.len() ==> (#[trigger] dp@[i])@.len() == text2@.len() + 1,
        forall|i: int, j: int|
            0 <= i <= text1@.len() && 0 <= j <= text2@.len() ==> (#[trigger] dp@[i]@[j]) as nat
                == lcs(text1.deep_view().take(i), text2.deep_view().take(j)),
{
    let m = text1.len();
    let n = text2.len();
    let ghost ta = text1.deep_view();
    let ghost tb = text2.deep_view();
    proof {
        assert(ta.len() == m && tb.len() == n);
    }
    let mut dp: Vec<Vec<usize>> = Vec::new();

    let mut row0: Vec<usize> = Vec::new();
    row0.push(0);
    let mut j: usize = 0;
    while j < n
        invariant
            j <= n,
            row0@.len() == j + 1,
            forall|k: int| 0 <= k <= j ==> #[trigger] row0@[k] == 0,
        decreases n - j,
    {
        row0.push(0);
        j = j + 1;
    }
    dp.push(row0);

    let mut i: usize = 0;
    while i < m
        invariant
            i <= m,
            m == ta.len(),
            n == tb.len(),
            ta == text1.deep_view(),
            tb == text2.deep_view(),
            m == text1@.len(),
            n == text2@.len(),
            dp@.len() == i + 1,
            forall|p: int| 0 <= p <= i ==> (#[trigger] dp@[p])@.len() == n + 1,
            forall|p: int, q: int|
                0 <= p <= i && 0 <= q <= n ==> (#[trigger] dp@[p]@[q]) as nat == lcs(
                    ta.take(p),
                    tb.take(q),
                ),
        decreases m - i,
    {
        let mut row: Vec<usize> = Vec::new();
        row.push(0);
        proof {
            assert(lcs(ta.take(i + 1), tb.take(0)) == 0);
        }
        let mut j: usize = 0;
        while j < n
            invariant
                j <= n,
                i < m,
                m == ta.len(),
                n == tb.len(),
                ta == text1.deep_view(),
                tb == text2.deep_view(),
                m == text1@.len(),
                n == text2@.len(),
                dp@.len() == i + 1,
                forall|p: int| 0 <= p <= i ==> (#[trigger] dp@[p])@.len() == n + 1,
                forall|p: int, q: int|
                    0 <= p <= i && 0 <= q <= n ==> (#[trigger] dp@[p]@[q]) as nat == lcs(
                        ta.take(p),
                        tb.take(q),
                    ),
                row@.len() == j + 1,
                forall|q: int|
                    0 <= q <= j ==> (#[trigger] row@[q]) as nat == lcs(
                        ta.take(i + 1),
                        tb.take(q),
                    ),
            decreases n - j,
        {
            let ghost ai = ta.take(i + 1);
            let ghost bj = tb.take(j + 1);
            proof {
                assert(ai.len() == i + 1 && bj.len() == j + 1);
                assert(ai.last() == ta[i as int]);
                assert(bj.last() == tb[j as int]);
                assert(ai.drop_last() =~= ta.take(i as int));
                assert(bj.drop_last() =~= tb.take(j as int));
                lemma_lcs_bound(ta.take(i as int), tb.take(j as int));
            }
            let v: usize;
            if str_eq(&text1[i], &text2[j]) {
                proof {
                    assert(ta[i as int] == text1@[i as int]@);
                    assert(tb[j as int] == text2@[j as int]@);
                }
                v = dp[i][j] + 1;
            } else {
                let up = dp[i][j + 1];
                let left = row[j];
                v = if left >= up {
                    left
                } else {
                    up
                };
            }
            row.push(v);
            j = j + 1;
        }
        dp.push(row);
        i = i + 1;
    }
    dp
}

/// The diff operations for the first `i` lines of `a` and the first `j`
/// lines of `b`, in forward document order, as the LCS back-track emits
/// them: a diagonal move on equal lines, otherwise an `Added` whenever
/// dropping the last line of `b` preserves the LCS length at least as well
/// as dropping the last line of `a`.
pub open spec fn backtrack(a: Seq<Seq<char>>, b: Seq<Seq<char>>, i: nat, j: nat) -> Seq<DiffOp>
    decreases i + j,
{
    if i == 0 && j == 0 {
        Seq::empty()
    } else if i > 0 && j > 0 && a[i - 1] == b[j - 1] {
        backtrack(a, b, (i - 1) as nat, (j - 1) as nat).push(DiffOp::Unchanged(a[i - 1]))
    } else if j > 0 && (i == 0 || lcs(a.take(i as int), b.take(j - 1)) >= lcs(
        a.take(i - 1),
        b.take(j as int),
    )) {
        backtrack(a, b, i, (j - 1) as nat).push(DiffOp::Added(b[j - 1]))
    } else {
        backtrack(a, b, (i - 1) as nat, j).push(DiffOp::Removed(a[i - 1]))
    }
}

/// The raw alignment of two line sequences: only `Unchanged`, `Added` and
/// `Removed` operations, covering each line of both inputs exactly once.
pub open spec fn spec_align(a: Seq<Seq<char>>, b: Seq<Seq<char>>) -> Seq<DiffOp> {
    backtrack(a, b, a.len(), b.len())
}

/// Aligns two documents line by line with the LCS algorithm, reporting
/// every line as kept, inserted or deleted; when both a deletion and an
/// insertion would preserve the common subsequence, the insertion is
/// reported first.
pub fn align(text1: &str, text2: &str) -> (r: Vec<DiffLine>)
    ensures
        r.deep_view() == spec_align(lines_of(text1@), lines_of(text2@)),
{
    let lines1 = split_lines(text1);
    let lines2 = split_lines(text2);
    let ghost la = lines1.deep_view();
    let ghost lb = lines2.deep_view();
    let dp = lcs_length(&lines1, &lines2);
    let mut rev: Vec<DiffLine> = Vec::new();
    let mut i = lines1.len();
    let mut j = lines2.len();
    while i > 0 || j > 0
        invariant
            i <= la.len(),
            j <= lb.len(),
            la == lines1.deep_view(),
            lb == lines2.deep_view(),
            la.len() == lines1@.len(),
            lb.len() == lines2@.len(),
            dp@.len() == la.len() + 1,
            forall|p: int| 0 <= p < dp@.len() ==> (#[trigger] dp@[p])@.len() == lb.len() + 1,
            forall|p: int, q: int|
                0 <= p <= la.len() && 0 <= q <= lb.len() ==> (#[trigger] dp@[p]@[q]) as nat == lcs(
                    la.take(p),
                    lb.take(q),
                ),
            backtrack(la, lb, la.len(), lb.len()) == backtrack(la, lb, i as nat, j as nat)
                + rev.deep_view().reverse(),
        decreases i + j,
    {
        let ghost pre = rev;
        let ghost i0 = i as nat;
        let ghost j0 = j as nat;
        if i > 0 && j > 0 && str_eq(&lines1[i - 1], &lines2[j - 1]) {
            let op = DiffLine::Unchanged(lines1[i - 1].clone());
            proof {
                assert(la[i0 - 1] == lines1@[i0 - 1]@);
                assert(lb[j0 - 1] == lines2@[j0 - 1]@);
                assert(backtrack(la, lb, i0, j0) == backtrack(la, lb, (i0 - 1) as nat, (j0
                    - 1) as nat).push(op@));
            }
            rev.push(op);
            i = i - 1;
            j = j - 1;
            proof {
                lemma_deep_view_push(pre, rev, op);
                lemma_reverse_push(pre.deep_view(), op@);
                assert(backtrack(la, lb, i0, j0) + pre.deep_view().reverse() =~= backtrack(
                    la,
                    lb,
                    i as nat,
                    j as nat,
                ) + rev.deep_view().reverse());
            }
        } else if j > 0 && (i == 0 || dp[i][j - 1] >= dp[i - 1][j]) {
            let op = DiffLine::Added(lines2[j - 1].clone());
            proof {
                assert(lb[j0 - 1] == lines2@[j0 - 1]@);
                assert((dp@[i as int]@[j - 1]) as nat == lcs(la.take(i as int), lb.take(j - 1)));
                if i > 0 {
                    assert((dp@[i - 1]@[j as int]) as nat == lcs(la.take(i - 1), lb.take(j as int)));
                }
                assert(backtrack(la, lb, i0, j0) == backtrack(la, lb, i0, (j0 - 1) as nat).push(
                    op@,
                ));
            }
            rev.push(op);
            j = j - 1;
            proof {
                lemma_deep_view_push(pre, rev, op);
                lemma_reverse_push(pre.deep_view(), op@);
                assert(backtrack(la, lb, i0, j0) + pre.deep_view().reverse() =~= backtrack(
                    la,
                    lb,
                    i as nat,
                    j as nat,
                ) + rev.deep_view().reverse());
            }
        } else {
            proof {
                assert(i > 0);
            }
            let op = DiffLine::Removed(lines1[i - 1].clone());
            proof {
                assert(la[i0 - 1] == lines1@[i0 - 1]@);
                if j > 0 {
                    assert((dp@[i - 1]@[j as int]) as nat == lcs(la.take(i - 1), lb.take(j as int)));
                    assert(!(lcs(la.take(i as int), lb.take(j - 1)) >= lcs(
                        la.take(i - 1),
                        lb.take(j as int),
                    )));
                }
                assert(backtrack(la, lb, i0, j0) == backtrack(la, lb, (i0 - 1) as nat, j0).push(
                    op@,
                ));
            }
            rev.push(op);
            i = i - 1;
            proof {
                lemma_deep_view_push(pre, rev, op);
                lemma_reverse_push(pre.deep_view(), op@);
                assert(backtrack(la, lb, i0, j0) + pre.deep_view().reverse() =~= backtrack(
                    la,
                    lb,
                    i as nat,
                    j as nat,
                ) + rev.deep_view().reverse());
            }
        }
    }
    proof {
        assert(backtrack(la, lb, 0nat, 0nat) == Seq::<DiffOp>::empty());
        assert(Seq::<DiffOp>::empty() + rev.deep_view().reverse() =~= rev.deep_view().reverse());
    }
    let ghost target = rev.deep_view().reverse();
    let mut out: Vec<DiffLine> = Vec::new();
    while rev.len() > 0
        invariant
            out.deep_view() + rev.deep_view().reverse() == target,
        decreases rev.len(),
    {
        let ghost rev_pre = rev;
        let ghost out_pre = out;
        let x = rev.pop().unwrap();
        out.push(x);
        proof {
            lemma_deep_view_drop_last(rev_pre, rev);
            lemma_deep_view_push(out_pre, out, x);
            assert(rev_pre.deep_view() =~= rev.deep_view().push(x.deep_view()));
            lemma_reverse_push(rev.deep_view(), x.deep_view());
            assert(out.deep_view() + rev.deep_view().reverse() =~= out_pre.deep_view()
                + rev_pre.deep_view().reverse());
        }
    }
    proof {
        assert(rev.deep_view().reverse() =~= Seq::<DiffOp>::empty());
        assert(out.deep_view() + Seq::<DiffOp>::empty() =~= out.deep_view());
    }
    out
}

/// How many words of `ws` appear anywhere in `others`; every occurrence in
/// `ws` counts, but membership in `others` is a plain set-style test.
pub open spec fn count_matches(ws: Seq<Seq<char>>, others: Seq<Seq<char>>) -> int
    decreases ws.len(),
{
    if ws.len() == 0 {
        0
    } else {
        count_matches(ws.drop_last(), others) + if others.contains(ws.last()) {
            1int
        } else {
            0int
        }
    }
}

/// The word-overlap similarity of two lines, as an exact ratio
/// `(numerator, denominator)`: `(1, 1)` when neither line has a word,
/// `(0, 1)` when exactly one has none, and otherwise the number of words
/// of the first line found in the second over the larger word count.
pub open spec fn spec_similarity(a: Seq<char>, b: Seq<char>) -> (int, int) {
    let wa = words_of(a);
    let wb = words_of(b);
    if wa.len() == 0 && wb.len() == 0 {
        (1int, 1int)
    } else if wa.len() == 0 || wb.len() == 0 {
        (0int, 1int)
    } else {
        (
            count_matches(wa, wb),
            if wa.len() >= wb.len() {
                wa.len() as int
            } else {
                wb.len() as int
            },
        )
    }
}

/// Whether two lines are similar enough to count as one edit: the
/// similarity ratio strictly exceeds three tenths.
pub open spec fn similar(a: Seq<char>, b: Seq<char>) -> bool {
    let r = spec_similarity(a, b);
    10 * r.0 > 3 * r.1
}

/// Whether `w` occurs in `ws`.
fn contains_word(ws: &Vec<String>, w: &String) -> (r: bool)
    ensures
        r == ws.deep_view().contains(w@),
{
    let n = ws.len();
    let mut i: usize = 0;
    while i < n
        invariant
            i <= n,
            n == ws@.len(),
            forall|k: int| 0 <= k < i ==> ws.deep_view()[k] != w@,
        decreases n - i,
    {
        if str_eq(&ws[i], w) {
            proof {
                assert(ws.deep_view()[i as int] == w@);
            }
            return true;
        }
        i = i + 1;
    }
    proof {
        assert(forall|k: int| 0 <= k < ws.deep_view().len() ==> ws.deep_view()[k] != w@);
    }
    false
}

/// The word-overlap similarity of two lines as an exact ratio; the
/// denominator is always positive and the ratio never exceeds one.
pub fn line_similarity(s1: &str, s2: &str) -> (r: (usize, usize))
    ensures
        r.0 == spec_similarity(s1@, s2@).0,
        r.1 == spec_similarity(s1@, s2@).1,
        0 < r.1,
        r.0 <= r.1,
{
    let w1 = split_words(s1);
    let w2 = split_words(s2);
    proof {
        assert(w1.deep_view().len() == w1@.len());
        assert(w2.deep_view().len() == w2@.len());
    }
    if w1.len() == 0 && w2.len() == 0 {
        (1, 1)
    } else if w1.len() == 0 || w2.len() == 0 {
        (0, 1)
    } else {
        let n = w1.len();
        let mut count: usize = 0;
        let mut i: usize = 0;
        while i < n
            invariant
                i <= n,
                n == w1@.len(),
                w1.deep_view() == words_of(s1@),
                w2.deep_view() == words_of(s2@),
                count <= i,
                count as int == count_matches(w1.deep_view().take(i as int), w2.deep_view()),
            decreases n - i,
        {
            proof {
                assert(w1.deep_view().take(i + 1).drop_last() =~= w1.deep_view().take(i as int));
                assert(w1.deep_view().take(i + 1).last() == w1.deep_view()[i as int]);
                assert(w1.deep_view()[i as int] == w1@[i as int]@);
            }
            if contains_word(&w2, &w1[i]) {
                count = count + 1;
            }
            i = i + 1;
        }
        proof {
            assert(w1.deep_view().take(n as int) =~= w1.deep_view());
        }
        let max = if w1.len() >= w2.len() {
            w1.len()
        } else {
            w2.len()
        };
        (count, max)
    }
}

/// Whether the similarity of two lines strictly exceeds the modification
/// threshold of three tenths.
pub fn similar_lines(s1: &str, s2: &str) -> (r: bool)
    ensures
        r == similar(s1@, s2@),
{
    let (num, den) = line_similarity(s1, s2);
    10 * (num as u128) > 3 * (den as u128)
}

/// The modification pass over a raw operation sequence: a `Removed`
/// directly followed by a similar `Added` becomes one `Modified`; every
/// other operation passes through unchanged. The scan is greedy,
/// single-pass and non-overlapping.
pub open spec fn spec_detect(ops: Seq<DiffOp>) -> Seq<DiffOp>
    decreases ops.len(),
{
    if ops.len() == 0 {
        Seq::empty()
    } else if ops.len() >= 2 && ops[0] is Removed && ops[1] is Added && similar(
        ops[0]->Removed_0,
        ops[1]->Added_0,
    ) {
        seq![DiffOp::Modified { old: ops[0]->Removed_0, new: ops[1]->Added_0 }] + spec_detect(
            ops.skip(2),
        )
    } else {
        seq![ops[0]] + spec_detect(ops.skip(1))
    }
}

/// A copy of one diff entry.
fn clone_diff_line(a: &DiffLine) -> (r: DiffLine)
    ensures
        r == *a,
{
    match a {
        DiffLine::Unchanged(l) => DiffLine::Unchanged(l.clone()),
        DiffLine::Added(l) => DiffLine::Added(l.clone()),
        DiffLine::Removed(l) => DiffLine::Removed(l.clone()),
        DiffLine::Modified { old: o, new: nw } => DiffLine::Modified {
            old: o.clone(),
            new: nw.clone(),
        },
    }
}

/// Whether two adjacent entries form a removed/added pair similar enough
/// to merge.
fn removed_added_pair(a: &DiffLine, b: &DiffLine) -> (r: bool)
    ensures
        r == (a@ is Removed && b@ is Added && similar(a@->Removed_0, b@->Added_0)),
{
    match (a, b) {
        (DiffLine::Removed(o), DiffLine::Added(nw)) => similar_lines(o.as_str(), nw.as_str()),
        _ => false,
    }
}

/// Rewrites a raw diff into its final form, merging each removed line that
/// is directly followed by a sufficiently similar added line into a single
/// modified entry.
pub fn detect_modifications(ops: &Vec<DiffLine>) -> (r: Vec<DiffLine>)
    ensures
        r.deep_view() == spec_detect(ops.deep_view()),
{
    let n = ops.len();
    let mut out: Vec<DiffLine> = Vec::new();
    let mut i: usize = 0;
    proof {
        assert(ops.deep_view().skip(0) =~= ops.deep_view());
        assert(Seq::<DiffOp>::empty() + spec_detect(ops.deep_view()) =~= spec_detect(
            ops.deep_view(),
        ));
    }
    while i < n
        invariant
            i <= n,
            n == ops@.len(),
            spec_detect(ops.deep_view()) == out.deep_view() + spec_detect(
                ops.deep_view().skip(i as int),
            ),
        decreases n - i,
    {
        let ghost pre = out;
        let ghost rest = ops.deep_view().skip(i as int);
        proof {
            assert(rest.len() == n - i);
            assert(rest[0] == ops.deep_view()[i as int]);
            assert(ops.deep_view()[i as int] == ops@[i as int]@);
        }
        if i + 1 < n && removed_added_pair(&ops[i], &ops[i + 1]) {
            proof {
                assert(rest[1] == ops.deep_view()[i + 1]);
                assert(ops.deep_view()[i + 1] == ops@[i + 1]@);
            }
            let (o, nw) = match (&ops[i], &ops[i + 1]) {
                (DiffLine::Removed(o), DiffLine::Added(nw)) => (o.clone(), nw.clone()),
                _ => {
                    proof {
                        assert(false);
                    }
                    (String::new(), String::new())
                },
            };
            let m = DiffLine::Modified { old: o, new: nw };
            proof {
                assert(spec_detect(rest) == seq![m@] + spec_detect(rest.skip(2)));
                assert(rest.skip(2) =~= ops.deep_view().skip(i + 2));
            }
            out.push(m);
            proof {
                lemma_deep_view_push(pre, out, m);
                assert(pre.deep_view().push(m@) + spec_detect(ops.deep_view().skip(i + 2))
                    =~= pre.deep_view() + spec_detect(rest));
            }
            i = i + 2;
        } else {
            let c = clone_diff_line(&ops[i]);
            proof {
                assert(spec_detect(rest) == seq![c@] + spec_detect(rest.skip(1)));
                assert(rest.skip(1) =~= ops.deep_view().skip(i + 1));
            }
            out.push(c);
            proof {
                lemma_deep_view_push(pre, out, c);
                assert(pre.deep_view().push(c@) + spec_detect(ops.deep_view().skip(i + 1))
                    =~= pre.deep_view() + spec_detect(rest));
            }
            i = i + 1;
        }
    }
    proof {
        assert(ops.deep_view().skip(n as int) =~= Seq::<DiffOp>::empty());
        assert(out.deep_view() + spec_detect(Seq::<DiffOp>::empty()) =~= out.deep_view());
    }
    out
}

/// The full line diff of two documents: the LCS alignment of their lines,
/// rewritten by the modification pass.
pub fn compute_diff(text1: &str, text2: &str) -> (r: Vec<DiffLine>)
    ensures
        r.deep_view() == spec_detect(spec_align(lines_of(text1@), lines_of(text2@))),
{
    let raw = align(text1, text2);
    detect_modifications(&raw)
}

} // verus!
