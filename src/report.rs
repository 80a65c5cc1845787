use vstd::prelude::*;
use vstd::multiset::Multiset;
use crate::listing::key_of;
use crate::model::{Action, Outcome, RepoDescriptor, Status};
use crate::scheduler::{any_failed, spec_exit_code};
use crate::text::{chars_lt, lemma_chars_lt_irreflexive, lemma_chars_lt_total, lemma_chars_lt_transitive, str_less};

verus! {

/// Strict lexicographic order on namespace paths, segment by segment.
pub open spec fn path_lt(a: Seq<Seq<char>>, b: Seq<Seq<char>>) -> bool
    decreases a.len(),
{
    if a.len() == 0 {
        b.len() > 0
    } else if b.len() == 0 {
        false
    } else if a[0] != b[0] {
        chars_lt(a[0], b[0])
    } else {
        path_lt(a.drop_first(), b.drop_first())
    }
}

/// Report order of repository identities: by namespace path, then by name.
pub open spec fn key_lt(a: (Seq<Seq<char>>, Seq<char>), b: (Seq<Seq<char>>, Seq<char>)) -> bool {
    path_lt(a.0, b.0) || (a.0 == b.0 && chars_lt(a.1, b.1))
}

pub proof fn lemma_path_lt_irreflexive(a: Seq<Seq<char>>)
    ensures
        !path_lt(a, a),
    decreases a.len(),
{
    if a.len() > 0 {
        lemma_path_lt_irreflexive(a.drop_first());
    }
}

pub proof fn lemma_path_lt_transitive(a: Seq<Seq<char>>, b: Seq<Seq<char>>, c: Seq<Seq<char>>)
    requires
        path_lt(a, b),
        path_lt(b, c),
    ensures
        path_lt(a, c),
    decreases a.len(),
{
    if a.len() > 0 && b.len() > 0 && c.len() > 0 {
        if a[0] == b[0] && b[0] == c[0] {
            lemma_path_lt_transitive(a.drop_first(), b.drop_first(), c.drop_first());
        } else if a[0] != b[0] && b[0] != c[0] {
            lemma_chars_lt_transitive(a[0], b[0], c[0]);
            if a[0] == c[0] {
                lemma_chars_lt_irreflexive(a[0]);
            }
        }
    }
}

pub proof fn lemma_path_lt_total(a: Seq<Seq<char>>, b: Seq<Seq<char>>)
    requires
        a != b,
    ensures
        path_lt(a, b) || path_lt(b, a),
    decreases a.len(),
{
    if a.len() > 0 && b.len() > 0 {
        if a[0] == b[0] {
            if a.drop_first() == b.drop_first() {
                assert(a =~= seq![a[0]] + a.drop_first());
                assert(b =~= seq![b[0]] + b.drop_first());
            }
            lemma_path_lt_total(a.drop_first(), b.drop_first());
        } else {
            lemma_chars_lt_total(a[0], b[0]);
        }
    } else if a.len() == 0 && b.len() == 0 {
        assert(a =~= b);
    }
}

pub proof fn lemma_key_lt_irreflexive(a: (Seq<Seq<char>>, Seq<char>))
    ensures
        !key_lt(a, a),
{
    lemma_path_lt_irreflexive(a.0);
    lemma_chars_lt_irreflexive(a.1);
}

pub proof fn lemma_key_lt_transitive(a: (Seq<Seq<char>>, Seq<char>), b: (Seq<Seq<char>>, Seq<char>), c: (Seq<Seq<char>>, Seq<char>))
    requires
        key_lt(a, b),
        key_lt(b, c),
    ensures
        key_lt(a, c),
{
    if path_lt(a.0, b.0) && path_lt(b.0, c.0) {
        lemma_path_lt_transitive(a.0, b.0, c.0);
    } else if a.0 == b.0 && b.0 == c.0 {
        lemma_chars_lt_transitive(a.1, b.1, c.1);
    }
}

pub proof fn lemma_key_lt_total(a: (Seq<Seq<char>>, Seq<char>), b: (Seq<Seq<char>>, Seq<char>))
    requires
        a != b,
    ensures
        key_lt(a, b) || key_lt(b, a),
{
    if a.0 != b.0 {
        lemma_path_lt_total(a.0, b.0);
    } else {
        assert(a.1 != b.1);
        lemma_chars_lt_total(a.1, b.1);
    }
}

pub fn path_less(a: &Vec<String>, b: &Vec<String>) -> (r: bool)
    ensures
        r == path_lt(a@.map_values(|s: String| s@), b@.map_values(|s: String| s@)),
{
    let ghost va = a@.map_values(|s: String| s@);
    let ghost vb = b@.map_values(|s: String| s@);
    let mut i: usize = 0;
    assert(va.skip(0) =~= va);
    assert(vb.skip(0) =~= vb);
    while i < a.len() && i < b.len()
        invariant
            va == a@.map_values(|s: String| s@),
            vb == b@.map_values(|s: String| s@),
            i <= a@.len(),
            i <= b@.len(),
            path_lt(va, vb) == path_lt(va.skip(i as int), vb.skip(i as int)),
        decreases a@.len() - i,
    {
        if !(a[i] == b[i]) {
            assert(va[i as int] != vb[i as int]);
            return str_less(a[i].as_str(), b[i].as_str());
        }
        assert(va.skip(i as int).drop_first() =~= va.skip(i + 1));
        assert(vb.skip(i as int).drop_first() =~= vb.skip(i + 1));
        i = i + 1;
    }
    i == a.len() && i < b.len()
}

/// Whether `a` comes strictly before `b` in report order.
pub fn descriptor_less(a: &RepoDescriptor, b: &RepoDescriptor) -> (r: bool)
    ensures
        r == key_lt(key_of(*a), key_of(*b)),
{
    if path_less(&a.namespace_path, &b.namespace_path) {
        return true;
    }
    if path_less(&b.namespace_path, &a.namespace_path) {
        proof {
            lemma_path_lt_irreflexive(a.path_view());
        }
        return false;
    }
    proof {
        if a.path_view() != b.path_view() {
            lemma_path_lt_total(a.path_view(), b.path_view());
        }
    }
    str_less(a.name.as_str(), b.name.as_str())
}

/// Identity of an outcome's repository.
pub open spec fn outcome_key(o: Outcome) -> (Seq<Seq<char>>, Seq<char>) {
    key_of(o.descriptor)
}

/// In report order: no entry comes strictly before an earlier one.
pub open spec fn sorted_by_key(s: Seq<Outcome>) -> bool {
    forall|i: int, j: int| 0 <= i < j < s.len() ==> !key_lt(outcome_key(#[trigger] s[j]), outcome_key(#[trigger] s[i]))
}

/// Puts outcomes in report order (namespace path, then name), whatever
/// order they were collected in.
pub fn sort_outcomes(outs: Vec<Outcome>) -> (r: Vec<Outcome>)
    ensures
        sorted_by_key(r@),
        r@.to_multiset() == outs@.to_multiset(),
        r@.len() == outs@.len(),
{
    let ghost orig = outs@;
    let mut work = outs;
    let mut out: Vec<Outcome> = Vec::new();
    proof {
        out@.to_multiset_ensures();
        assert(out@.to_multiset() =~= Multiset::empty());
        assert(out@.to_multiset().add(work@.to_multiset()) =~= orig.to_multiset());
    }
    while work.len() > 0
        invariant
            out@.to_multiset().add(work@.to_multiset()) == orig.to_multiset(),
            sorted_by_key(out@),
            forall|i: int, j: int| 0 <= i < out@.len() && 0 <= j < work@.len()
                ==> !key_lt(outcome_key(#[trigger] work@[j]), outcome_key(#[trigger] out@[i])),
        decreases work@.len(),
    {
        let mut m: usize = 0;
        let mut j: usize = 1;
        proof {
            lemma_key_lt_irreflexive(outcome_key(work@[0]));
        }
        while j < work.len()
            invariant
                0 < work@.len(),
                m < j <= work@.len(),
                forall|k: int| 0 <= k < j ==> !key_lt(outcome_key(#[trigger] work@[k]), outcome_key(work@[m as int])),
            decreases work@.len() - j,
        {
            if descriptor_less(&work[j].descriptor, &work[m].descriptor) {
                proof {
                    assert forall|k: int| 0 <= k < j + 1 implies !key_lt(outcome_key(#[trigger] work@[k]), outcome_key(work@[j as int])) by {
                        if k == j {
                            lemma_key_lt_irreflexive(outcome_key(work@[k]));
                        } else if key_lt(outcome_key(work@[k]), outcome_key(work@[j as int])) {
                            lemma_key_lt_transitive(outcome_key(work@[k]), outcome_key(work@[j as int]), outcome_key(work@[m as int]));
                        }
                    }
                }
                m = j;
            }
            j = j + 1;
        }
        let ghost w0 = work@;
        let ghost o0 = out@;
        let x = work.remove(m);
        out.push(x);
        proof {
            o0.to_multiset_ensures();
            w0.to_multiset_ensures();
            assert(x == w0[m as int]);
            assert(work@ == w0.remove(m as int));
            assert(out@.to_multiset() == o0.to_multiset().insert(x));
            assert(work@.to_multiset() == w0.to_multiset().remove(x));
            assert(w0.contains(x));
            assert(w0.to_multiset().count(x) > 0);
            assert(out@.to_multiset().add(work@.to_multiset()) =~= o0.to_multiset().add(w0.to_multiset()));
            assert forall|a: int, b: int| 0 <= a < b < out@.len()
                implies !key_lt(outcome_key(#[trigger] out@[b]), outcome_key(#[trigger] out@[a])) by {
                if b == out@.len() - 1 {
                    assert(out@[b] == w0[m as int]);
                    assert(out@[a] == o0[a]);
                } else {
                    assert(out@[b] == o0[b]);
                    assert(out@[a] == o0[a]);
                }
            }
            assert forall|a: int, b: int| 0 <= a < out@.len() && 0 <= b < work@.len()
                implies !key_lt(outcome_key(#[trigger] work@[b]), outcome_key(#[trigger] out@[a])) by {
                let wb = if b < m { b } else { b + 1 };
                assert(work@[b] == w0[wb]);
                if a == out@.len() - 1 {
                    assert(out@[a] == w0[m as int]);
                } else {
                    assert(out@[a] == o0[a]);
                }
            }
        }
    }
    proof {
        work@.to_multiset_ensures();
        out@.to_multiset_ensures();
        orig.to_multiset_ensures();
        assert(work@.to_multiset() =~= Multiset::empty());
        assert(out@.to_multiset().add(Multiset::empty()) =~= out@.to_multiset());
    }
    out
}

/// Strictly increasing under the report order.
pub open spec fn strictly_sorted(k: Seq<(Seq<Seq<char>>, Seq<char>)>) -> bool {
    forall|i: int, j: int| 0 <= i < j < k.len() ==> key_lt(#[trigger] k[i], #[trigger] k[j])
}

/// The identities of a report, in order.
pub open spec fn report_keys(s: Seq<Outcome>) -> Seq<(Seq<Seq<char>>, Seq<char>)> {
    s.map_values(|o: Outcome| outcome_key(o))
}

pub proof fn lemma_strictly_sorted_unique(a: Seq<(Seq<Seq<char>>, Seq<char>)>, b: Seq<(Seq<Seq<char>>, Seq<char>)>)
    requires
        strictly_sorted(a),
        strictly_sorted(b),
        a.to_set() == b.to_set(),
    ensures
        a == b,
    decreases a.len(),
{
    if a.len() == 0 {
        if b.len() > 0 {
            assert(b.to_set().contains(b[0]));
        }
        assert(a =~= b);
    } else if b.len() == 0 {
        assert(a.to_set().contains(a[0]));
    } else {
        assert(b.to_set().contains(a[0]));
        assert(a.to_set().contains(b[0]));
        let i = choose|i: int| 0 <= i < a.len() && a[i] == b[0];
        let j = choose|j: int| 0 <= j < b.len() && b[j] == a[0];
        if a[0] != b[0] {
            assert(i > 0 && j > 0);
            assert(key_lt(a[0], a[i]));
            assert(key_lt(b[0], b[j]));
            lemma_key_lt_transitive(a[0], b[0], a[0]);
            lemma_key_lt_irreflexive(a[0]);
        }
        let ra = a.drop_first();
        let rb = b.drop_first();
        assert forall|x| ra.to_set().contains(x) <==> rb.to_set().contains(x) by {
            if ra.to_set().contains(x) {
                let p = choose|p: int| 0 <= p < ra.len() && ra[p] == x;
                assert(a[p + 1] == x);
                assert(a.to_set().contains(x));
                let q = choose|q: int| 0 <= q < b.len() && b[q] == x;
                if q == 0 {
                    assert(key_lt(a[0], a[p + 1]));
                    lemma_key_lt_irreflexive(x);
                }
                assert(rb[q - 1] == x);
            }
            if rb.to_set().contains(x) {
                let p = choose|p: int| 0 <= p < rb.len() && rb[p] == x;
                assert(b[p + 1] == x);
                assert(b.to_set().contains(x));
                let q = choose|q: int| 0 <= q < a.len() && a[q] == x;
                if q == 0 {
                    assert(key_lt(b[0], b[p + 1]));
                    lemma_key_lt_irreflexive(x);
                }
                assert(ra[q - 1] == x);
            }
        }
        assert(ra.to_set() =~= rb.to_set());
        lemma_strictly_sorted_unique(ra, rb);
        assert(a =~= seq![a[0]] + ra);
        assert(b =~= seq![b[0]] + rb);
    }
}

/// Two reports, each in report order and naming each repository once, that
/// cover the same repositories list them in the same order: the order does
/// not depend on how the work was dispatched or finished.
pub proof fn lemma_report_order_deterministic(r1: Seq<Outcome>, r2: Seq<Outcome>)
    requires
        sorted_by_key(r1),
        sorted_by_key(r2),
        report_keys(r1).no_duplicates(),
        report_keys(r2).no_duplicates(),
        report_keys(r1).to_set() == report_keys(r2).to_set(),
    ensures
        report_keys(r1) == report_keys(r2),
{
    lemma_sorted_distinct_strict(r1);
    lemma_sorted_distinct_strict(r2);
    lemma_strictly_sorted_unique(report_keys(r1), report_keys(r2));
}

proof fn lemma_contains_transfer(a: Seq<Outcome>, b: Seq<Outcome>, y: Outcome)
    requires
        a.to_multiset() == b.to_multiset(),
        a.contains(y),
    ensures
        b.contains(y),
{
    a.to_multiset_ensures();
    b.to_multiset_ensures();
    assert(a.to_multiset().count(y) > 0);
    assert(b.to_multiset().count(y) > 0);
}

/// A reordering of outcomes keeps their set of identities, and keeps them
/// distinct where they were.
pub proof fn lemma_reorder_keeps_keys(input: Seq<Outcome>, output: Seq<Outcome>)
    requires
        output.to_multiset() == input.to_multiset(),
    ensures
        report_keys(output).to_set() == report_keys(input).to_set(),
        report_keys(input).no_duplicates() ==> report_keys(output).no_duplicates(),
{
    input.to_multiset_ensures();
    output.to_multiset_ensures();
    let ki = report_keys(input);
    let ko = report_keys(output);
    assert forall|x| ko.to_set().contains(x) <==> ki.to_set().contains(x) by {
        if ko.to_set().contains(x) {
            let w = choose|w: int| 0 <= w < ko.len() && ko[w] == x;
            assert(output.contains(output[w]));
            lemma_contains_transfer(output, input, output[w]);
            let v = choose|v: int| 0 <= v < input.len() && input[v] == output[w];
            assert(ki[v] == x);
        }
        if ki.to_set().contains(x) {
            let w = choose|w: int| 0 <= w < ki.len() && ki[w] == x;
            assert(input.contains(input[w]));
            lemma_contains_transfer(input, output, input[w]);
            let v = choose|v: int| 0 <= v < output.len() && output[v] == input[w];
            assert(ko[v] == x);
        }
    }
    assert(ko.to_set() =~= ki.to_set());
    if ki.no_duplicates() {
        assert(input.no_duplicates()) by {
            assert forall|i: int, j: int| 0 <= i < input.len() && 0 <= j < input.len() && i != j
                implies input[i] != input[j] by {
                assert(ki[i] != ki[j]);
            }
        }
        input.lemma_multiset_has_no_duplicates();
        output.lemma_multiset_has_no_duplicates_conv();
        assert forall|i: int, j: int| 0 <= i < ko.len() && 0 <= j < ko.len() && i != j implies ko[i] != ko[j] by {
            assert(output[i] != output[j]);
            assert(output.contains(output[i]));
            assert(output.contains(output[j]));
            lemma_contains_transfer(output, input, output[i]);
            lemma_contains_transfer(output, input, output[j]);
            let p = choose|p: int| 0 <= p < input.len() && input[p] == output[i];
            let q = choose|q: int| 0 <= q < input.len() && input[q] == output[j];
            assert(p != q);
            assert(ki[p] != ki[q]);
            assert(ko[i] == ki[p]);
            assert(ko[j] == ki[q]);
        }
    }
}

/// Two runs over the same repositories, each naming every repository once,
/// give reports in the same order once their outcomes are put in report
/// order, whatever order they were collected in.
pub proof fn lemma_runs_report_in_same_order(
    collected1: Seq<Outcome>,
    collected2: Seq<Outcome>,
    report1: Seq<Outcome>,
    report2: Seq<Outcome>,
)
    requires
        report_keys(collected1).no_duplicates(),
        report_keys(collected2).no_duplicates(),
        report_keys(collected1).to_set() == report_keys(collected2).to_set(),
        sorted_by_key(report1),
        sorted_by_key(report2),
        report1.to_multiset() == collected1.to_multiset(),
        report2.to_multiset() == collected2.to_multiset(),
    ensures
        report_keys(report1) == report_keys(report2),
{
    lemma_reorder_keeps_keys(collected1, report1);
    lemma_reorder_keeps_keys(collected2, report2);
    lemma_report_order_deterministic(report1, report2);
}

pub proof fn lemma_sorted_distinct_strict(r: Seq<Outcome>)
    requires
        sorted_by_key(r),
        report_keys(r).no_duplicates(),
    ensures
        strictly_sorted(report_keys(r)),
{
    let k = report_keys(r);
    assert forall|i: int, j: int| 0 <= i < j < k.len() implies key_lt(#[trigger] k[i], #[trigger] k[j]) by {
        assert(k[i] == outcome_key(r[i]));
        assert(k[j] == outcome_key(r[j]));
        assert(!key_lt(outcome_key(r[j]), outcome_key(r[i])));
        assert(k[i] != k[j]);
        lemma_key_lt_total(k[i], k[j]);
    }
}

/// Number of outcomes with status `st`.
pub open spec fn count_status(s: Seq<Outcome>, st: Status) -> nat
    decreases s.len(),
{
    if s.len() == 0 {
        0
    } else {
        count_status(s.drop_last(), st) + if s.last().status == st { 1nat } else { 0nat }
    }
}

/// Number of outcomes skipped by a dry run.
pub open spec fn count_skipped(s: Seq<Outcome>) -> nat
    decreases s.len(),
{
    if s.len() == 0 {
        0
    } else {
        count_skipped(s.drop_last()) + if s.last().action is Skipped { 1nat } else { 0nat }
    }
}

/// Run-level totals of a set of outcomes.
pub struct Summary {
    pub total: usize,
    pub succeeded: usize,
    pub failed: usize,
    pub skipped: usize,
}

pub proof fn lemma_counts_bounded(s: Seq<Outcome>)
    ensures
        count_status(s, Status::Success) + count_status(s, Status::Failed) == s.len(),
        count_skipped(s) <= s.len(),
    decreases s.len(),
{
    if s.len() > 0 {
        lemma_counts_bounded(s.drop_last());
    }
}

pub fn summarize(outs: &Vec<Outcome>) -> (r: Summary)
    ensures
        r.total == outs@.len(),
        r.succeeded == count_status(outs@, Status::Success),
        r.failed == count_status(outs@, Status::Failed),
        r.skipped == count_skipped(outs@),
{
    let mut succeeded: usize = 0;
    let mut failed: usize = 0;
    let mut skipped: usize = 0;
    let mut i: usize = 0;
    while i < outs.len()
        invariant
            i <= outs@.len(),
            succeeded == count_status(outs@.take(i as int), Status::Success),
            failed == count_status(outs@.take(i as int), Status::Failed),
            skipped == count_skipped(outs@.take(i as int)),
        decreases outs@.len() - i,
    {
        proof {
            lemma_counts_bounded(outs@.take(i as int));
            assert(outs@.take(i + 1).drop_last() =~= outs@.take(i as int));
        }
        match outs[i].status {
            Status::Success => succeeded = succeeded + 1,
            Status::Failed => failed = failed + 1,
        }
        if matches!(outs[i].action, Action::Skipped(_)) {
            skipped = skipped + 1;
        }
        i = i + 1;
    }
    assert(outs@.take(i as int) =~= outs@);
    Summary { total: outs.len(), succeeded, failed, skipped }
}

proof fn lemma_count_all_but_one(s: Seq<Outcome>, k: int)
    requires
        0 <= k < s.len(),
        s[k].status == Status::Failed,
        forall|i: int| 0 <= i < s.len() && i != k ==> #[trigger] s[i].status == Status::Success,
    ensures
        count_status(s, Status::Failed) == 1,
        count_status(s, Status::Success) == s.len() - 1,
    decreases s.len(),
{
    if k < s.len() - 1 {
        let t = s.drop_last();
        assert(t[k] == s[k]);
        assert forall|i: int| 0 <= i < t.len() && i != k implies #[trigger] t[i].status == Status::Success by {
            assert(t[i] == s[i]);
        }
        lemma_count_all_but_one(t, k);
    } else {
        lemma_count_none_failed(s.drop_last());
    }
}

proof fn lemma_count_none_failed(s: Seq<Outcome>)
    requires
        forall|i: int| 0 <= i < s.len() ==> #[trigger] s[i].status == Status::Success,
    ensures
        count_status(s, Status::Failed) == 0,
        count_status(s, Status::Success) == s.len(),
    decreases s.len(),
{
    if s.len() > 0 {
        let t = s.drop_last();
        assert forall|i: int| 0 <= i < t.len() implies #[trigger] t[i].status == Status::Success by {
            assert(t[i] == s[i]);
        }
        lemma_count_none_failed(t);
    }
}

/// Where exactly one of a run's outcomes failed, the run still reports one
/// outcome per repository, counts one failure and every other outcome as a
/// success, and exits with a non-zero status.
pub proof fn lemma_single_failure_isolated(outs: Seq<Outcome>, k: int)
    requires
        0 <= k < outs.len(),
        outs[k].status == Status::Failed,
        forall|i: int| 0 <= i < outs.len() && i != k ==> #[trigger] outs[i].status == Status::Success,
    ensures
        count_status(outs, Status::Failed) == 1,
        count_status(outs, Status::Success) == outs.len() - 1,
        any_failed(outs),
        spec_exit_code(true, outs) != 0,
{
    lemma_count_all_but_one(outs, k);
}

} // verus!
