use vstd::prelude::*;
use vstd::string::*;
use crate::model::{Outcome, RepoDescriptor, Status};
use crate::report::{count_status, count_skipped, sort_outcomes, sorted_by_key, summarize};
use crate::scheduler::{exit_code, spec_exit_code};
use crate::text::{dec_chars, digit, digit_str, label_escaped, push_decimal, push_label_escaped, push_xml_escaped, xml_escaped};

verus! {

/// Segments separated by `/`.
pub open spec fn slash_joined(segs: Seq<Seq<char>>) -> Seq<char>
    decreases segs.len(),
{
    if segs.len() == 0 {
        Seq::empty()
    } else if segs.len() == 1 {
        segs[0]
    } else {
        slash_joined(segs.drop_last()) + seq!['/'] + segs.last()
    }
}

/// Full name of a repository: its namespace path and name, separated by `/`.
pub open spec fn spec_full_name(d: RepoDescriptor) -> Seq<char> {
    slash_joined(d.path_view().push(d.name@))
}

pub fn full_name(d: &RepoDescriptor) -> (r: String)
    ensures
        r@ == spec_full_name(*d),
{
    let ghost segs = d.path_view().push(d.name@);
    let mut out = String::new();
    let mut i: usize = 0;
    let n = d.namespace_path.len();
    while i < n
        invariant
            n == d.namespace_path@.len(),
            segs == d.path_view().push(d.name@),
            i <= n,
            out@ == slash_joined(segs.take(i as int)),
        decreases n - i,
    {
        let ghost prev = out@;
        if i > 0 {
            proof {
                reveal_strlit("/");
            }
            out.append("/");
        }
        out.append(d.namespace_path[i].as_str());
        proof {
            let t = segs.take(i + 1);
            assert(t.drop_last() =~= segs.take(i as int));
            assert(t.last() == d.namespace_path@[i as int]@);
            if i == 0 {
                assert(out@ =~= t[0]);
            }
        }
        i = i + 1;
    }
    if i > 0 {
        proof {
            reveal_strlit("/");
        }
        out.append("/");
    }
    out.append(d.name.as_str());
    proof {
        assert(segs.take(n + 1) =~= segs);
        assert(segs.take(n + 1).drop_last() =~= segs.take(n as int));
        if n == 0 {
            assert(out@ =~= segs[0]);
        }
    }
    out
}

pub open spec fn metrics_header(total: nat, succeeded: nat, failed: nat, skipped: nat) -> Seq<char> {
    "git_mirror_total "@ + dec_chars(total) + "\n"@
        + "git_mirror_succeeded "@ + dec_chars(succeeded) + "\n"@
        + "git_mirror_failed "@ + dec_chars(failed) + "\n"@
        + "git_mirror_skipped "@ + dec_chars(skipped) + "\n"@
}

/// The two samples of one repository: its status (1 for success, 0 for
/// failure) and its sync duration.
pub open spec fn metrics_entry(o: Outcome) -> Seq<char> {
    let label = label_escaped(spec_full_name(o.descriptor));
    "git_mirror_status{project=\""@ + label + "\"} "@
        + (if o.status == Status::Success { "1"@ } else { "0"@ }) + "\n"@
        + "git_mirror_duration_ms{project=\""@ + label + "\"} "@ + dec_chars(o.duration_ms as nat) + "\n"@
}

pub open spec fn metrics_entries(s: Seq<Outcome>) -> Seq<char>
    decreases s.len(),
{
    if s.len() == 0 {
        Seq::empty()
    } else {
        metrics_entries(s.drop_last()) + metrics_entry(s.last())
    }
}

/// The metrics snapshot of a run, in the line format of a text-file
/// metrics collector.
pub open spec fn spec_metrics(s: Seq<Outcome>) -> Seq<char> {
    metrics_header(s.len(), count_status(s, Status::Success), count_status(s, Status::Failed), count_skipped(s))
        + metrics_entries(s)
}

pub fn metrics_text(outs: &Vec<Outcome>) -> (r: String)
    ensures
        r@ == spec_metrics(outs@),
{
    let sum = summarize(outs);
    let mut out = String::from_str("git_mirror_total ");
    push_decimal(&mut out, sum.total as u128);
    out.append("\n");
    out.append("git_mirror_succeeded ");
    push_decimal(&mut out, sum.succeeded as u128);
    out.append("\n");
    out.append("git_mirror_failed ");
    push_decimal(&mut out, sum.failed as u128);
    out.append("\n");
    out.append("git_mirror_skipped ");
    push_decimal(&mut out, sum.skipped as u128);
    out.append("\n");
    let ghost head = out@;
    assert(head =~= metrics_header(outs@.len(), count_status(outs@, Status::Success), count_status(outs@, Status::Failed), count_skipped(outs@)));
    let mut i: usize = 0;
    assert(outs@.take(0) =~= Seq::<Outcome>::empty());
    assert(head + metrics_entries(Seq::<Outcome>::empty()) =~= head);
    while i < outs.len()
        invariant
            i <= outs@.len(),
            out@ == head + metrics_entries(outs@.take(i as int)),
        decreases outs@.len() - i,
    {
        let o = &outs[i];
        let name = full_name(&o.descriptor);
        let ghost prev = out@;
        out.append("git_mirror_status{project=\"");
        push_label_escaped(&mut out, name.as_str());
        out.append("\"} ");
        if o.status == Status::Success {
            out.append("1");
        } else {
            out.append("0");
        }
        out.append("\n");
        out.append("git_mirror_duration_ms{project=\"");
        push_label_escaped(&mut out, name.as_str());
        out.append("\"} ");
        push_decimal(&mut out, o.duration_ms as u128);
        out.append("\n");
        proof {
            assert(out@ =~= prev + metrics_entry(outs@[i as int]));
            assert(outs@.take(i + 1).drop_last() =~= outs@.take(i as int));
            assert(out@ =~= head + metrics_entries(outs@.take(i + 1)));
        }
        i = i + 1;
    }
    assert(outs@.take(i as int) =~= outs@);
    out
}

/// Sum of the outcomes' durations, in milliseconds.
pub open spec fn total_duration(s: Seq<Outcome>) -> nat
    decreases s.len(),
{
    if s.len() == 0 {
        0
    } else {
        total_duration(s.drop_last()) + s.last().duration_ms as nat
    }
}

proof fn lemma_total_duration_bounded(s: Seq<Outcome>)
    ensures
        total_duration(s) <= s.len() * 0xffff_ffff_ffff_ffffnat,
    decreases s.len(),
{
    if s.len() > 0 {
        lemma_total_duration_bounded(s.drop_last());
        let n = (s.len() - 1) as nat;
        assert(n * 0xffff_ffff_ffff_ffffnat + 0xffff_ffff_ffff_ffffnat == (n + 1) * 0xffff_ffff_ffff_ffffnat) by (nonlinear_arith);
    }
}

/// Milliseconds as seconds with three decimals.
pub open spec fn seconds(ms: nat) -> Seq<char> {
    dec_chars(ms / 1000) + "."@ + seq![digit((ms % 1000) / 100), digit((ms % 100) / 10), digit(ms % 10)]
}

fn push_seconds(out: &mut String, ms: u128)
    ensures
        final(out)@ == old(out)@ + seconds(ms as nat),
{
    push_decimal(out, ms / 1000);
    out.append(".");
    out.append(digit_str((ms % 1000) / 100));
    out.append(digit_str((ms % 100) / 10));
    out.append(digit_str(ms % 10));
    assert(final(out)@ =~= old(out)@ + seconds(ms as nat));
}

pub open spec fn xml_declaration() -> Seq<char> {
    "<?xml version=\"1.0\" encoding=\"UTF-8\"?>\n"@
}

/// The test case of one repository, with a failure element carrying the
/// captured diagnostic when its sync failed.
pub open spec fn junit_case(o: Outcome) -> Seq<char> {
    "  <testcase name=\""@ + xml_escaped(spec_full_name(o.descriptor)) + "\" time=\""@
        + seconds(o.duration_ms as nat)
        + if o.status == Status::Failed {
            "\">\n    <failure message=\"sync failed\">"@
                + (match o.error {
                    Some(e) => xml_escaped(e@),
                    None => Seq::empty(),
                })
                + "</failure>\n  </testcase>\n"@
        } else {
            "\"/>\n"@
        }
}

pub open spec fn junit_cases(s: Seq<Outcome>) -> Seq<char>
    decreases s.len(),
{
    if s.len() == 0 {
        Seq::empty()
    } else {
        junit_cases(s.drop_last()) + junit_case(s.last())
    }
}

/// The test report of a run: one suite, one case per repository, the suite's
/// time the sum of the cases' times.
pub open spec fn spec_junit(s: Seq<Outcome>) -> Seq<char> {
    xml_declaration() + "<testsuite name=\"git-mirror\" tests=\""@ + dec_chars(s.len()) + "\" failures=\""@
        + dec_chars(count_status(s, Status::Failed)) + "\" time=\""@ + seconds(total_duration(s)) + "\">\n"@
        + junit_cases(s) + "</testsuite>\n"@
}

pub fn junit_text(outs: &Vec<Outcome>) -> (r: String)
    ensures
        r@ == spec_junit(outs@),
{
    let sum = summarize(outs);
    let mut total: u128 = 0;
    let mut i: usize = 0;
    while i < outs.len()
        invariant
            i <= outs@.len(),
            total == total_duration(outs@.take(i as int)),
        decreases outs@.len() - i,
    {
        proof {
            lemma_total_duration_bounded(outs@.take(i as int));
            assert(outs@.take(i + 1).drop_last() =~= outs@.take(i as int));
            assert(i * 0xffff_ffff_ffff_ffffnat <= 0xffff_ffff_ffff_ffffnat * 0xffff_ffff_ffff_ffffnat) by (nonlinear_arith)
                requires i <= 0xffff_ffff_ffff_ffffnat;
        }
        total = total + outs[i].duration_ms as u128;
        i = i + 1;
    }
    assert(outs@.take(i as int) =~= outs@);
    let mut out = String::from_str("<?xml version=\"1.0\" encoding=\"UTF-8\"?>\n");
    out.append("<testsuite name=\"git-mirror\" tests=\"");
    push_decimal(&mut out, sum.total as u128);
    out.append("\" failures=\"");
    push_decimal(&mut out, sum.failed as u128);
    out.append("\" time=\"");
    push_seconds(&mut out, total);
    out.append("\">\n");
    let ghost head = out@;
    let mut i: usize = 0;
    assert(outs@.take(0) =~= Seq::<Outcome>::empty());
    assert(head + junit_cases(Seq::<Outcome>::empty()) =~= head);
    while i < outs.len()
        invariant
            i <= outs@.len(),
            out@ == head + junit_cases(outs@.take(i as int)),
        decreases outs@.len() - i,
    {
        let o = &outs[i];
        let name = full_name(&o.descriptor);
        let ghost prev = out@;
        out.append("  <testcase name=\"");
        push_xml_escaped(&mut out, name.as_str());
        out.append("\" time=\"");
        push_seconds(&mut out, o.duration_ms as u128);
        if o.status == Status::Failed {
            out.append("\">\n    <failure message=\"sync failed\">");
            match &o.error {
                Some(e) => push_xml_escaped(&mut out, e.as_str()),
                None => {},
            }
            out.append("</failure>\n  </testcase>\n");
        } else {
            out.append("\"/>\n");
        }
        proof {
            assert(out@ =~= prev + junit_case(outs@[i as int]));
            assert(outs@.take(i + 1).drop_last() =~= outs@.take(i as int));
            assert(out@ =~= head + junit_cases(outs@.take(i + 1)));
        }
        i = i + 1;
    }
    assert(outs@.take(i as int) =~= outs@);
    out.append("</testsuite>\n");
    out
}

/// The test report of a run whose listing failed: no test case, and a
/// top-level failure carrying the listing error.
pub open spec fn spec_junit_listing_failed(message: Seq<char>) -> Seq<char> {
    xml_declaration() + "<testsuite name=\"git-mirror\" tests=\"0\" failures=\"1\" time=\"0.000\">\n"@
        + "  <failure message=\"listing failed\">"@ + xml_escaped(message) + "</failure>\n</testsuite>\n"@
}

pub fn junit_listing_failed(message: &str) -> (r: String)
    ensures
        r@ == spec_junit_listing_failed(message@),
{
    let mut out = String::from_str("<?xml version=\"1.0\" encoding=\"UTF-8\"?>\n");
    out.append("<testsuite name=\"git-mirror\" tests=\"0\" failures=\"1\" time=\"0.000\">\n");
    out.append("  <failure message=\"listing failed\">");
    push_xml_escaped(&mut out, message);
    out.append("</failure>\n</testsuite>\n");
    assert(out@ =~= spec_junit_listing_failed(message@));
    out
}

/// Everything a finished run reports.
pub struct RunReport {
    /// The outcomes in report order.
    pub outcomes: Vec<Outcome>,
    pub metrics: String,
    pub junit: String,
    pub exit_code: i32,
}

/// Puts a run's outcomes in report order and renders the metrics snapshot,
/// the test report and the exit status from them.
pub fn finish_run(outs: Vec<Outcome>) -> (r: RunReport)
    ensures
        sorted_by_key(r.outcomes@),
        r.outcomes@.to_multiset() == outs@.to_multiset(),
        r.metrics@ == spec_metrics(r.outcomes@),
        r.junit@ == spec_junit(r.outcomes@),
        r.exit_code == spec_exit_code(true, r.outcomes@),
{
    let sorted = sort_outcomes(outs);
    let metrics = metrics_text(&sorted);
    let junit = junit_text(&sorted);
    let code = exit_code(true, &sorted);
    RunReport { outcomes: sorted, metrics, junit, exit_code: code }
}

} // verus!
