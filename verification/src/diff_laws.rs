//! Global laws of the diff engine: identity, totality and idempotence of
//! the modification pass.

use crate::diff::{backtrack, lcs, similar, spec_align, spec_detect, DiffOp};
use vstd::prelude::*;

verus! {

proof fn lemma_backtrack_diagonal(a: Seq<Seq<char>>, i: nat)
    requires
        i <= a.len(),
    ensures
        backtrack(a, a, i, i) == Seq::new(i, |k: int| DiffOp::Unchanged(a[k])),
    decreases i,
{
    if i == 0 {
        assert(backtrack(a, a, 0, 0) =~= Seq::new(0, |k: int| DiffOp::Unchanged(a[k])));
    } else {
        lemma_backtrack_diagonal(a, (i - 1) as nat);
        assert(backtrack(a, a, i, i) == backtrack(a, a, (i - 1) as nat, (i - 1) as nat).push(
            DiffOp::Unchanged(a[i - 1]),
        ));
        assert(Seq::new((i - 1) as nat, |k: int| DiffOp::Unchanged(a[k])).push(
            DiffOp::Unchanged(a[i - 1]),
        ) =~= Seq::new(i, |k: int| DiffOp::Unchanged(a[k])));
    }
}

/// Law: aligning a document with itself yields only `Unchanged`
/// operations, one per line, in the original order.
pub proof fn lemma_align_identity(a: Seq<Seq<char>>)
    ensures
        spec_align(a, a) == Seq::new(a.len(), |k: int| DiffOp::Unchanged(a[k])),
{
    lemma_backtrack_diagonal(a, a.len());
}

proof fn lemma_backtrack_no_modified(a: Seq<Seq<char>>, b: Seq<Seq<char>>, i: nat, j: nat)
    ensures
        forall|k: int|
            0 <= k < backtrack(a, b, i, j).len() ==> !((#[trigger] backtrack(a, b, i, j)[k])
                is Modified),
    decreases i + j,
{
    if i == 0 && j == 0 {
    } else if i > 0 && j > 0 && a[i - 1] == b[j - 1] {
        lemma_backtrack_no_modified(a, b, (i - 1) as nat, (j - 1) as nat);
    } else if j > 0 && (i == 0 || lcs(a.take(i as int), b.take(j - 1)) >= lcs(
        a.take(i - 1),
        b.take(j as int),
    )) {
        lemma_backtrack_no_modified(a, b, i, (j - 1) as nat);
    } else {
        lemma_backtrack_no_modified(a, b, (i - 1) as nat, j);
    }
}

/// Law: the raw alignment is in pre-merge form — only `Unchanged`, `Added`
/// and `Removed` operations appear in it.
pub proof fn lemma_align_raw_form(a: Seq<Seq<char>>, b: Seq<Seq<char>>)
    ensures
        forall|k: int|
            0 <= k < spec_align(a, b).len() ==> !((#[trigger] spec_align(a, b)[k]) is Modified),
{
    lemma_backtrack_no_modified(a, b, a.len(), b.len());
}

/// The modification pass does not touch a sequence without removed lines.
proof fn lemma_detect_no_removed(ops: Seq<DiffOp>)
    requires
        forall|k: int| 0 <= k < ops.len() ==> !((#[trigger] ops[k]) is Removed),
    ensures
        spec_detect(ops) == ops,
    decreases ops.len(),
{
    if ops.len() == 0 {
        assert(spec_detect(ops) =~= ops);
    } else {
        assert(!(ops[0] is Removed));
        assert(forall|k: int|
            0 <= k < ops.skip(1).len() ==> !((#[trigger] ops.skip(1)[k]) is Removed));
        lemma_detect_no_removed(ops.skip(1));
        assert(seq![ops[0]] + ops.skip(1) =~= ops);
    }
}

/// Law: the full diff of a document with itself is one `Unchanged` entry
/// per line, in the original order.
pub proof fn lemma_diff_identity(a: Seq<Seq<char>>)
    ensures
        spec_detect(spec_align(a, a)) == Seq::new(a.len(), |k: int| DiffOp::Unchanged(a[k])),
{
    lemma_align_identity(a);
    let u = Seq::new(a.len(), |k: int| DiffOp::Unchanged(a[k]));
    assert(forall|k: int| 0 <= k < u.len() ==> !((#[trigger] u[k]) is Removed));
    lemma_detect_no_removed(u);
}

/// How many lines of the first document one operation accounts for.
pub open spec fn from_a(op: DiffOp) -> int {
    match op {
        DiffOp::Unchanged(_) => 1,
        DiffOp::Added(_) => 0,
        DiffOp::Removed(_) => 1,
        DiffOp::Modified { .. } => 1,
    }
}

/// How many lines of the second document one operation accounts for.
pub open spec fn from_b(op: DiffOp) -> int {
    match op {
        DiffOp::Unchanged(_) => 1,
        DiffOp::Added(_) => 1,
        DiffOp::Removed(_) => 0,
        DiffOp::Modified { .. } => 1,
    }
}

/// Lines of the first document accounted for by a whole diff.
pub open spec fn count_a(ops: Seq<DiffOp>) -> int
    decreases ops.len(),
{
    if ops.len() == 0 {
        0
    } else {
        from_a(ops[0]) + count_a(ops.skip(1))
    }
}

/// Lines of the second document accounted for by a whole diff.
pub open spec fn count_b(ops: Seq<DiffOp>) -> int
    decreases ops.len(),
{
    if ops.len() == 0 {
        0
    } else {
        from_b(ops[0]) + count_b(ops.skip(1))
    }
}

proof fn lemma_counts_push(ops: Seq<DiffOp>, op: DiffOp)
    ensures
        count_a(ops.push(op)) == count_a(ops) + from_a(op),
        count_b(ops.push(op)) == count_b(ops) + from_b(op),
    decreases ops.len(),
{
    let p = ops.push(op);
    assert(count_a(p) == from_a(p[0]) + count_a(p.skip(1)));
    assert(count_b(p) == from_b(p[0]) + count_b(p.skip(1)));
    if ops.len() == 0 {
        assert(p[0] == op);
        assert(p.skip(1) =~= Seq::<DiffOp>::empty());
        assert(count_a(p.skip(1)) == 0);
        assert(count_b(p.skip(1)) == 0);
    } else {
        assert(p[0] == ops[0]);
        assert(p.skip(1) =~= ops.skip(1).push(op));
        lemma_counts_push(ops.skip(1), op);
        assert(count_a(p.skip(1)) == count_a(ops.skip(1)) + from_a(op));
        assert(count_b(p.skip(1)) == count_b(ops.skip(1)) + from_b(op));
        assert(count_a(ops) == from_a(ops[0]) + count_a(ops.skip(1)));
        assert(count_b(ops) == from_b(ops[0]) + count_b(ops.skip(1)));
    }
}

proof fn lemma_backtrack_counts(a: Seq<Seq<char>>, b: Seq<Seq<char>>, i: nat, j: nat)
    ensures
        count_a(backtrack(a, b, i, j)) == i,
        count_b(backtrack(a, b, i, j)) == j,
    decreases i + j,
{
    if i == 0 && j == 0 {
    } else if i > 0 && j > 0 && a[i - 1] == b[j - 1] {
        lemma_backtrack_counts(a, b, (i - 1) as nat, (j - 1) as nat);
        lemma_counts_push(
            backtrack(a, b, (i - 1) as nat, (j - 1) as nat),
            DiffOp::Unchanged(a[i - 1]),
        );
    } else if j > 0 && (i == 0 || lcs(a.take(i as int), b.take(j - 1)) >= lcs(
        a.take(i - 1),
        b.take(j as int),
    )) {
        lemma_backtrack_counts(a, b, i, (j - 1) as nat);
        lemma_counts_push(backtrack(a, b, i, (j - 1) as nat), DiffOp::Added(b[j - 1]));
    } else {
        lemma_backtrack_counts(a, b, (i - 1) as nat, j);
        lemma_counts_push(backtrack(a, b, (i - 1) as nat, j), DiffOp::Removed(a[i - 1]));
    }
}

/// Law: the raw alignment accounts for every line of both documents
/// exactly once.
pub proof fn lemma_align_totality(a: Seq<Seq<char>>, b: Seq<Seq<char>>)
    ensures
        count_a(spec_align(a, b)) == a.len(),
        count_b(spec_align(a, b)) == b.len(),
{
    lemma_backtrack_counts(a, b, a.len(), b.len());
}

/// The modification pass preserves how many lines of each document a diff
/// accounts for.
pub proof fn lemma_detect_counts(ops: Seq<DiffOp>)
    ensures
        count_a(spec_detect(ops)) == count_a(ops),
        count_b(spec_detect(ops)) == count_b(ops),
    decreases ops.len(),
{
    if ops.len() == 0 {
    } else if ops.len() >= 2 && ops[0] is Removed && ops[1] is Added && similar(
        ops[0]->Removed_0,
        ops[1]->Added_0,
    ) {
        lemma_detect_counts(ops.skip(2));
        let m = DiffOp::Modified { old: ops[0]->Removed_0, new: ops[1]->Added_0 };
        let d = seq![m] + spec_detect(ops.skip(2));
        assert(spec_detect(ops) == d);
        assert(d[0] == m);
        assert(d.skip(1) =~= spec_detect(ops.skip(2)));
        assert(count_a(d) == from_a(m) + count_a(spec_detect(ops.skip(2))));
        assert(count_b(d) == from_b(m) + count_b(spec_detect(ops.skip(2))));
        assert(ops.skip(1)[0] == ops[1]);
        assert(ops.skip(1).skip(1) =~= ops.skip(2));
        assert(count_a(ops) == from_a(ops[0]) + count_a(ops.skip(1)));
        assert(count_a(ops.skip(1)) == from_a(ops[1]) + count_a(ops.skip(2)));
        assert(count_b(ops) == from_b(ops[0]) + count_b(ops.skip(1)));
        assert(count_b(ops.skip(1)) == from_b(ops[1]) + count_b(ops.skip(2)));
    } else {
        lemma_detect_counts(ops.skip(1));
        let d = seq![ops[0]] + spec_detect(ops.skip(1));
        assert(spec_detect(ops) == d);
        assert(d[0] == ops[0]);
        assert(d.skip(1) =~= spec_detect(ops.skip(1)));
        assert(count_a(d) == from_a(ops[0]) + count_a(spec_detect(ops.skip(1))));
        assert(count_b(d) == from_b(ops[0]) + count_b(spec_detect(ops.skip(1))));
        assert(count_a(ops) == from_a(ops[0]) + count_a(ops.skip(1)));
        assert(count_b(ops) == from_b(ops[0]) + count_b(ops.skip(1)));
    }
}

/// Law: the finished diff accounts for every line of the first document
/// exactly once among `Unchanged`, `Removed` and `Modified` entries, and
/// for every line of the second exactly once among `Unchanged`, `Added`
/// and `Modified` entries.
pub proof fn lemma_diff_totality(a: Seq<Seq<char>>, b: Seq<Seq<char>>)
    ensures
        count_a(spec_detect(spec_align(a, b))) == a.len(),
        count_b(spec_detect(spec_align(a, b))) == b.len(),
{
    lemma_align_totality(a, b);
    lemma_detect_counts(spec_align(a, b));
}

/// The first entry the modification pass emits: the first input entry
/// itself, unless that was a removed line merged into a modification.
proof fn lemma_detect_head(ops: Seq<DiffOp>)
    requires
        ops.len() > 0,
    ensures
        spec_detect(ops).len() > 0,
        spec_detect(ops)[0] == ops[0] || (ops[0] is Removed && spec_detect(ops)[0] is Modified),
{
    if ops.len() >= 2 && ops[0] is Removed && ops[1] is Added && similar(
        ops[0]->Removed_0,
        ops[1]->Added_0,
    ) {
        let m = DiffOp::Modified { old: ops[0]->Removed_0, new: ops[1]->Added_0 };
        assert((seq![m] + spec_detect(ops.skip(2)))[0] == m);
    } else {
        assert((seq![ops[0]] + spec_detect(ops.skip(1)))[0] == ops[0]);
    }
}

/// Law: the modification pass is idempotent — running it on its own
/// output changes nothing, for every operation sequence.
pub proof fn lemma_detect_idempotent(ops: Seq<DiffOp>)
    ensures
        spec_detect(spec_detect(ops)) == spec_detect(ops),
    decreases ops.len(),
{
    let d = spec_detect(ops);
    if ops.len() == 0 {
        assert(d =~= Seq::<DiffOp>::empty());
    } else if ops.len() >= 2 && ops[0] is Removed && ops[1] is Added && similar(
        ops[0]->Removed_0,
        ops[1]->Added_0,
    ) {
        lemma_detect_idempotent(ops.skip(2));
        let m = DiffOp::Modified { old: ops[0]->Removed_0, new: ops[1]->Added_0 };
        assert(d == seq![m] + spec_detect(ops.skip(2)));
        assert(d[0] == m);
        assert(!(d[0] is Removed));
        assert(spec_detect(d) == seq![d[0]] + spec_detect(d.skip(1)));
        assert(d.skip(1) =~= spec_detect(ops.skip(2)));
        assert(spec_detect(d) =~= d);
    } else {
        lemma_detect_idempotent(ops.skip(1));
        let d1 = spec_detect(ops.skip(1));
        assert(d == seq![ops[0]] + d1);
        assert(d[0] == ops[0]);
        if d.len() >= 2 && d[0] is Removed && d[1] is Added && similar(
            d[0]->Removed_0,
            d[1]->Added_0,
        ) {
            assert(d[1] == d1[0]);
            assert(ops.skip(1).len() > 0);
            lemma_detect_head(ops.skip(1));
            assert(d1[0] == ops.skip(1)[0] || (ops.skip(1)[0] is Removed && d1[0] is Modified));
            assert(d1[0] == ops[1]);
            assert(ops[1] is Added);
            assert(!similar(ops[0]->Removed_0, ops[1]->Added_0));
            assert(false);
        }
        assert(spec_detect(d) == seq![d[0]] + spec_detect(d.skip(1)));
        assert(d.skip(1) =~= d1);
        assert(spec_detect(d) =~= d);
    }
}

} // verus!
