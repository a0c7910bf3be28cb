//! Ranking of findings and the summaries of an audit report.
use vstd::prelude::*;
use crate::grouping::{first_keys, lemma_first_keys_contains, lemma_first_keys_distinct};
use crate::models::{
    AuditFinding, AuditRule, FindingView, RiskSeverity, RuleSummary, SeveritySummary, finding_views,
};

verus! {

/// Whether finding `a` ranks strictly ahead of finding `b`: a higher
/// severity, or the same severity and a larger exposure.
pub open spec fn outranks(a: FindingView, b: FindingView) -> bool {
    a.severity.rank() > b.severity.rank() || (a.severity.rank() == b.severity.rank()
        && a.exposure_cents > b.exposure_cents)
}

/// Whether two findings tie: the same severity and the same exposure.
pub open spec fn ties(a: FindingView, b: FindingView) -> bool {
    a.severity.rank() == b.severity.rank() && a.exposure_cents == b.exposure_cents
}

/// `output` is `input` reordered by `perm` (position `i` of the output
/// holds position `perm[i]` of the input), ranked from the most serious
/// down, with tied findings kept in their input order.
pub open spec fn is_ranked_reordering(
    input: Seq<FindingView>,
    output: Seq<FindingView>,
    perm: Seq<int>,
) -> bool {
    &&& output.len() == input.len()
    &&& perm.len() == input.len()
    &&& forall|i: int| 0 <= i < perm.len() ==> 0 <= #[trigger] perm[i] < input.len()
    &&& forall|i: int| 0 <= i < perm.len() ==> output[i] == input[#[trigger] perm[i]]
    &&& forall|i: int, j: int| 0 <= i < j < perm.len() ==> #[trigger] perm[i] != #[trigger] perm[j]
    &&& forall|i: int, j: int|
        0 <= i < j < output.len() ==> !outranks(#[trigger] output[j], #[trigger] output[i])
    &&& forall|i: int, j: int|
        0 <= i < j < output.len() && ties(output[i], output[j]) ==> #[trigger] perm[i]
            < #[trigger] perm[j]
}

/// The first position of `out` whose finding `x` outranks, or the length
/// of `out`.
pub open spec fn insertion_point(out: Seq<FindingView>, x: FindingView) -> int
    decreases out.len(),
{
    if out.len() == 0 || outranks(x, out[0]) {
        0
    } else {
        1 + insertion_point(out.drop_first(), x)
    }
}

/// The findings ranked: each, in input order, goes before the first
/// finding already placed that it outranks.
pub open spec fn ranked(fs: Seq<FindingView>) -> Seq<FindingView>
    decreases fs.len(),
{
    if fs.len() == 0 {
        Seq::empty()
    } else {
        let r = ranked(fs.drop_last());
        r.insert(insertion_point(r, fs.last()), fs.last())
    }
}

proof fn lemma_insertion_point(out: Seq<FindingView>, x: FindingView, pos: int)
    requires
        0 <= pos <= out.len(),
        forall|i: int| 0 <= i < pos ==> !outranks(x, #[trigger] out[i]),
        pos == out.len() || outranks(x, out[pos]),
    ensures
        insertion_point(out, x) == pos,
    decreases pos,
{
    if pos > 0 {
        assert(!outranks(x, out[0]));
        assert forall|i: int| 0 <= i < pos - 1 implies !outranks(x, #[trigger] out.drop_first()[i]) by {
            assert(out.drop_first()[i] == out[i + 1]);
        }
        if pos < out.len() {
            assert(out.drop_first()[pos - 1] == out[pos]);
        }
        lemma_insertion_point(out.drop_first(), x, pos - 1);
    }
}

fn outranks_exec(a: &AuditFinding, b: &AuditFinding) -> (r: bool)
    ensures
        r == outranks(a@, b@),
{
    let ra = a.severity.level();
    let rb = b.severity.level();
    ra > rb || (ra == rb && a.exposure_cents > b.exposure_cents)
}

/// Orders findings from the most serious down: by severity, then by
/// exposure, keeping the input order among ties.
pub fn rank_findings(input: Vec<AuditFinding>) -> (r: Vec<AuditFinding>)
    ensures
        exists|perm: Seq<int>| is_ranked_reordering(finding_views(input@), finding_views(r@), perm),
        finding_views(r@) == ranked(finding_views(input@)),
{
    let ghost inp = finding_views(input@);
    let n = input.len();
    let mut rest = input;
    let mut out: Vec<AuditFinding> = Vec::new();
    let ghost mut perm: Seq<int> = Seq::empty();
    let mut k: usize = 0;
    while k < n
        invariant
            k <= n,
            n == inp.len(),
            finding_views(rest@) == inp.skip(k as int),
            finding_views(out@) == ranked(inp.take(k as int)),
            out@.len() == k,
            perm.len() == k,
            forall|i: int| 0 <= i < k ==> 0 <= #[trigger] perm[i] < k,
            forall|i: int| 0 <= i < k ==> (#[trigger] out@[i])@ == inp[perm[i]],
            forall|i: int, j: int| 0 <= i < j < k ==> #[trigger] perm[i] != #[trigger] perm[j],
            forall|i: int, j: int|
                0 <= i < j < k ==> !outranks((#[trigger] out@[j])@, (#[trigger] out@[i])@),
            forall|i: int, j: int|
                0 <= i < j < k && ties(out@[i]@, out@[j]@) ==> #[trigger] perm[i] < #[trigger] perm[j],
        decreases n - k,
    {
        proof {
            assert(finding_views(rest@).len() == rest@.len());
            assert(finding_views(rest@)[0] == inp[k as int]);
        }
        let ghost old_rest = rest@;
        let x = rest.remove(0);
        proof {
            assert(finding_views(rest@) =~= inp.skip(k + 1)) by {
                assert(finding_views(rest@) =~= finding_views(old_rest).drop_first());
            }
        }
        // The first position whose finding x outranks.
        let mut pos: usize = 0;
        while pos < out.len() && !outranks_exec(&x, &out[pos])
            invariant
                pos <= out@.len(),
                forall|i: int| 0 <= i < pos ==> !outranks(x@, (#[trigger] out@[i])@),
            decreases out@.len() - pos,
        {
            pos = pos + 1;
        }
        let ghost old_out = out@;
        let ghost old_perm = perm;
        proof {
            let vs = finding_views(old_out);
            assert forall|i: int| 0 <= i < pos implies !outranks(x@, #[trigger] vs[i]) by {}
            lemma_insertion_point(vs, x@, pos as int);
            assert(inp.take(k + 1).drop_last() =~= inp.take(k as int));
            assert(inp.take(k + 1).last() == x@);
        }
        out.insert(pos, x);
        proof {
            assert(finding_views(out@) =~= finding_views(old_out).insert(pos as int, x@));
            perm = old_perm.insert(pos as int, k as int);
            assert forall|i: int| 0 <= i < k + 1 implies 0 <= #[trigger] perm[i] < k + 1 by {
                if i < pos {
                    assert(perm[i] == old_perm[i]);
                } else if i > pos {
                    assert(perm[i] == old_perm[i - 1]);
                }
            }
            assert forall|i: int| 0 <= i < k + 1 implies (#[trigger] out@[i])@ == inp[perm[i]] by {
                if i < pos {
                    assert(out@[i] == old_out[i]);
                    assert(perm[i] == old_perm[i]);
                } else if i > pos {
                    assert(out@[i] == old_out[i - 1]);
                    assert(perm[i] == old_perm[i - 1]);
                }
            }
            assert forall|i: int, j: int| 0 <= i < j < k + 1 implies #[trigger] perm[i] != #[trigger] perm[j] by {
                let oi = if i < pos { i } else { i - 1 };
                let oj = if j < pos { j } else { j - 1 };
                if i != pos && j != pos {
                    assert(perm[i] == old_perm[oi]);
                    assert(perm[j] == old_perm[oj]);
                } else if i == pos {
                    assert(perm[j] == old_perm[oj]);
                } else {
                    assert(perm[i] == old_perm[oi]);
                }
            }
            assert forall|i: int, j: int| 0 <= i < j < k + 1 implies !outranks(
                (#[trigger] out@[j])@,
                (#[trigger] out@[i])@,
            ) by {
                let oi = if i < pos { i } else { i - 1 };
                let oj = if j < pos { j } else { j - 1 };
                if i != pos && j != pos {
                    assert(out@[i] == old_out[oi]);
                    assert(out@[j] == old_out[oj]);
                } else if j == pos {
                    assert(out@[i] == old_out[i]);
                } else {
                    assert(out@[j] == old_out[oj]);
                    assert(outranks(x@, old_out[pos as int]@));
                    if oj > pos {
                        assert(!outranks(old_out[oj]@, old_out[pos as int]@));
                    }
                }
            }
            assert forall|i: int, j: int|
                0 <= i < j < k + 1 && ties(out@[i]@, out@[j]@) implies #[trigger] perm[i]
                < #[trigger] perm[j] by {
                let oi = if i < pos { i } else { i - 1 };
                let oj = if j < pos { j } else { j - 1 };
                if i != pos && j != pos {
                    assert(out@[i] == old_out[oi]);
                    assert(out@[j] == old_out[oj]);
                    assert(perm[i] == old_perm[oi]);
                    assert(perm[j] == old_perm[oj]);
                } else if j == pos {
                    assert(perm[i] == old_perm[i]);
                } else {
                    assert(out@[j] == old_out[oj]);
                    assert(outranks(x@, old_out[pos as int]@));
                    if oj > pos {
                        assert(!outranks(old_out[oj]@, old_out[pos as int]@));
                    }
                }
            }
        }
        k = k + 1;
    }
    proof {
        assert(is_ranked_reordering(inp, finding_views(out@), perm));
        assert(inp.take(n as int) =~= inp);
    }
    out
}

/// `x` held to the range of `i128`.
pub open spec fn clamp_i128(x: int) -> i128 {
    if x > i128::MAX {
        i128::MAX
    } else if x < i128::MIN {
        i128::MIN
    } else {
        x as i128
    }
}

/// The running total of the exposures, held to the range of `i128` at
/// each step.
pub open spec fn capped_total(fs: Seq<FindingView>) -> i128
    decreases fs.len(),
{
    if fs.len() == 0 {
        0
    } else {
        clamp_i128(capped_total(fs.drop_last()) + fs.last().exposure_cents)
    }
}

/// `a + b`, held to the range of `i128`.
pub fn add_capped(a: i128, b: i128) -> (r: i128)
    ensures
        r == clamp_i128(a + b),
{
    match a.checked_add(b) {
        Some(s) => s,
        None => if b > 0 {
            i128::MAX
        } else {
            i128::MIN
        },
    }
}

/// How many findings have severity `sev`.
pub open spec fn severity_count(fs: Seq<FindingView>, sev: RiskSeverity) -> nat
    decreases fs.len(),
{
    if fs.len() == 0 {
        0
    } else {
        severity_count(fs.drop_last(), sev) + if fs.last().severity == sev {
            1nat
        } else {
            0nat
        }
    }
}

/// The rules of the findings, in order.
pub open spec fn finding_rules(fs: Seq<FindingView>) -> Seq<AuditRule> {
    fs.map_values(|f: FindingView| f.rule)
}

/// How many findings come from `rule`.
pub open spec fn rule_count(fs: Seq<FindingView>, rule: AuditRule) -> nat
    decreases fs.len(),
{
    if fs.len() == 0 {
        0
    } else {
        rule_count(fs.drop_last(), rule) + if fs.last().rule == rule {
            1nat
        } else {
            0nat
        }
    }
}

/// The running total of the exposures of the findings from `rule`, held
/// to the range of `i128` at each step.
pub open spec fn rule_total(fs: Seq<FindingView>, rule: AuditRule) -> i128
    decreases fs.len(),
{
    if fs.len() == 0 {
        0
    } else if fs.last().rule == rule {
        clamp_i128(rule_total(fs.drop_last(), rule) + fs.last().exposure_cents)
    } else {
        rule_total(fs.drop_last(), rule)
    }
}

/// The highest severity among the findings from `rule` (Low when there
/// are none).
pub open spec fn rule_highest(fs: Seq<FindingView>, rule: AuditRule) -> RiskSeverity
    decreases fs.len(),
{
    if fs.len() == 0 {
        RiskSeverity::Low
    } else if fs.last().rule != rule {
        rule_highest(fs.drop_last(), rule)
    } else if rule_count(fs.drop_last(), rule) == 0 || fs.last().severity.rank() > rule_highest(
        fs.drop_last(),
        rule,
    ).rank() {
        fs.last().severity
    } else {
        rule_highest(fs.drop_last(), rule)
    }
}

/// The summary of the findings from `rule`.
pub open spec fn rule_summary(fs: Seq<FindingView>, rule: AuditRule) -> RuleSummary {
    RuleSummary {
        rule,
        count: rule_count(fs, rule) as usize,
        total_exposure_cents: rule_total(fs, rule),
        highest_severity: rule_highest(fs, rule),
    }
}

/// One summary per rule that has findings, in the order of each rule's
/// first finding.
pub open spec fn rule_summaries(fs: Seq<FindingView>) -> Seq<RuleSummary> {
    first_keys(finding_rules(fs)).map_values(|r: AuditRule| rule_summary(fs, r))
}

/// The severity counts of a list of findings.
pub open spec fn severity_summary(fs: Seq<FindingView>) -> SeveritySummary {
    SeveritySummary {
        critical_count: severity_count(fs, RiskSeverity::Critical) as usize,
        high_count: severity_count(fs, RiskSeverity::High) as usize,
        medium_count: severity_count(fs, RiskSeverity::Medium) as usize,
        low_count: severity_count(fs, RiskSeverity::Low) as usize,
    }
}

proof fn lemma_absent_rule(fs: Seq<FindingView>, rule: AuditRule)
    requires
        !finding_rules(fs).contains(rule),
    ensures
        rule_count(fs, rule) == 0,
        rule_total(fs, rule) == 0,
    decreases fs.len(),
{
    if fs.len() > 0 {
        assert(finding_rules(fs)[fs.len() - 1] == fs.last().rule);
        assert(finding_rules(fs.drop_last()) =~= finding_rules(fs).drop_last());
        if finding_rules(fs.drop_last()).contains(rule) {
            let i = choose|i: int| 0 <= i < finding_rules(fs.drop_last()).len() && finding_rules(fs.drop_last())[i] == rule;
            assert(finding_rules(fs)[i] == rule);
        }
        lemma_absent_rule(fs.drop_last(), rule);
    }
}

/// Counts the findings of each severity.
pub fn summarize_severities(findings: &Vec<AuditFinding>) -> (r: SeveritySummary)
    ensures
        r == severity_summary(finding_views(findings@)),
{
    let ghost fs = finding_views(findings@);
    let mut s = SeveritySummary { critical_count: 0, high_count: 0, medium_count: 0, low_count: 0 };
    let mut i: usize = 0;
    while i < findings.len()
        invariant
            i <= findings@.len(),
            fs == finding_views(findings@),
            s.critical_count == severity_count(fs.take(i as int), RiskSeverity::Critical),
            s.high_count == severity_count(fs.take(i as int), RiskSeverity::High),
            s.medium_count == severity_count(fs.take(i as int), RiskSeverity::Medium),
            s.low_count == severity_count(fs.take(i as int), RiskSeverity::Low),
            s.critical_count + s.high_count + s.medium_count + s.low_count == i,
        decreases findings@.len() - i,
    {
        proof {
            assert(fs.take(i + 1).drop_last() =~= fs.take(i as int));
            assert(fs.take(i + 1).last() == findings@[i as int]@);
        }
        match findings[i].severity {
            RiskSeverity::Critical => s.critical_count = s.critical_count + 1,
            RiskSeverity::High => s.high_count = s.high_count + 1,
            RiskSeverity::Medium => s.medium_count = s.medium_count + 1,
            RiskSeverity::Low => s.low_count = s.low_count + 1,
        }
        i = i + 1;
    }
    proof {
        assert(fs.take(findings@.len() as int) =~= fs);
    }
    s
}

/// Sums up the findings per rule, in the order of each rule's first
/// finding.
pub fn summarize_rules(findings: &Vec<AuditFinding>) -> (r: Vec<RuleSummary>)
    ensures
        r@ == rule_summaries(finding_views(findings@)),
{
    let ghost fs = finding_views(findings@);
    let mut sums: Vec<RuleSummary> = Vec::new();
    let mut i: usize = 0;
    while i < findings.len()
        invariant
            i <= findings@.len(),
            fs == finding_views(findings@),
            sums@ == rule_summaries(fs.take(i as int)),
            forall|g: int| 0 <= g < sums@.len() ==> (#[trigger] sums@[g]).count <= i,
        decreases findings@.len() - i,
    {
        let ghost pre = fs.take(i as int);
        let ghost pre1 = fs.take(i + 1);
        let f = &findings[i];
        let ghost rules = finding_rules(pre);
        let ghost rules1 = finding_rules(pre1);
        proof {
            assert(pre1.drop_last() =~= pre);
            assert(pre1.last() == f@);
            assert(rules1 =~= rules.push(f.rule));
            assert(rules1.drop_last() =~= rules);
            lemma_first_keys_contains(rules, f.rule);
            lemma_first_keys_distinct(rules);
        }
        let mut g: usize = 0;
        while g < sums.len() && sums[g].rule != f.rule
            invariant
                g <= sums@.len(),
                sums@ == rule_summaries(pre),
                forall|h: int| 0 <= h < g ==> (#[trigger] sums@[h]).rule != f.rule,
            decreases sums@.len() - g,
        {
            g = g + 1;
        }
        let ghost old_sums = sums@;
        if g < sums.len() {
            let entry = sums[g];
            let highest = if f.severity.level() > entry.highest_severity.level() {
                f.severity
            } else {
                entry.highest_severity
            };
            let updated = RuleSummary {
                rule: entry.rule,
                count: entry.count + 1,
                total_exposure_cents: add_capped(entry.total_exposure_cents, f.exposure_cents),
                highest_severity: highest,
            };
            sums.set(g, updated);
            proof {
                assert(first_keys(rules)[g as int] == f.rule);
                assert(first_keys(rules).contains(f.rule));
                assert(first_keys(rules1) == first_keys(rules));
                assert(rules.contains(f.rule));
                if rule_count(pre, f.rule) == 0 {
                    let t = choose|t: int| 0 <= t < rules.len() && rules[t] == f.rule;
                    assert(pre[t].rule == rules[t]);
                    lemma_rule_count_positive(pre, t);
                }
                lemma_rule_count_bounded(pre, f.rule);
                assert(entry == rule_summary(pre, f.rule));
                assert(updated == rule_summary(pre1, f.rule));
                assert forall|h: int| 0 <= h < sums@.len() implies #[trigger] sums@[h] == rule_summary(
                    pre1,
                    first_keys(rules1)[h],
                ) by {
                    if h != g {
                        assert(first_keys(rules)[h] != f.rule);
                    }
                }
                assert(sums@ =~= rule_summaries(pre1));
            }
        } else {
            proof {
                assert(sums@.len() == first_keys(rules).len());
                if first_keys(rules).contains(f.rule) {
                    let h = choose|h: int| 0 <= h < first_keys(rules).len() && first_keys(rules)[h] == f.rule;
                    assert(sums@[h].rule == first_keys(rules)[h]);
                }
                assert(!first_keys(rules).contains(f.rule));
                assert(!rules.contains(f.rule));
                lemma_absent_rule(pre, f.rule);
                assert(first_keys(rules1) == first_keys(rules).push(f.rule));
            }
            sums.push(
                RuleSummary {
                    rule: f.rule,
                    count: 1,
                    total_exposure_cents: f.exposure_cents,
                    highest_severity: f.severity,
                },
            );
            proof {
                assert forall|h: int| 0 <= h < sums@.len() implies #[trigger] sums@[h] == rule_summary(
                    pre1,
                    first_keys(rules1)[h],
                ) by {
                    if h < old_sums.len() {
                        assert(first_keys(rules)[h] != f.rule);
                    }
                }
                assert(sums@ =~= rule_summaries(pre1));
            }
        }
        i = i + 1;
    }
    proof {
        assert(fs.take(findings@.len() as int) =~= fs);
    }
    sums
}

proof fn lemma_rule_count_bounded(fs: Seq<FindingView>, rule: AuditRule)
    ensures
        rule_count(fs, rule) <= fs.len(),
    decreases fs.len(),
{
    if fs.len() > 0 {
        lemma_rule_count_bounded(fs.drop_last(), rule);
    }
}

proof fn lemma_rule_count_positive(fs: Seq<FindingView>, t: int)
    requires
        0 <= t < fs.len(),
    ensures
        rule_count(fs, fs[t].rule) > 0,
    decreases fs.len(),
{
    if t < fs.len() - 1 {
        assert(fs.drop_last()[t] == fs[t]);
        lemma_rule_count_positive(fs.drop_last(), t);
    }
}

/// `output` is `input` reordered by `perm`, by total exposure from the
/// largest down, with equal totals kept in their input order.
pub open spec fn is_reordering_by_total(
    input: Seq<RuleSummary>,
    output: Seq<RuleSummary>,
    perm: Seq<int>,
) -> bool {
    &&& output.len() == input.len()
    &&& perm.len() == input.len()
    &&& forall|i: int| 0 <= i < perm.len() ==> 0 <= #[trigger] perm[i] < input.len()
    &&& forall|i: int| 0 <= i < perm.len() ==> output[i] == input[#[trigger] perm[i]]
    &&& forall|i: int, j: int| 0 <= i < j < perm.len() ==> #[trigger] perm[i] != #[trigger] perm[j]
    &&& forall|i: int, j: int|
        0 <= i < j < output.len() ==> (#[trigger] output[i]).total_exposure_cents
            >= (#[trigger] output[j]).total_exposure_cents
    &&& forall|i: int, j: int|
        0 <= i < j < output.len() && output[i].total_exposure_cents
            == output[j].total_exposure_cents ==> #[trigger] perm[i] < #[trigger] perm[j]
}

/// The first position of `out` whose total is smaller than that of `x`,
/// or the length of `out`.
pub open spec fn total_insertion_point(out: Seq<RuleSummary>, x: RuleSummary) -> int
    decreases out.len(),
{
    if out.len() == 0 || x.total_exposure_cents > out[0].total_exposure_cents {
        0
    } else {
        1 + total_insertion_point(out.drop_first(), x)
    }
}

/// The rule summaries ordered by total: each, in input order, goes before
/// the first summary already placed with a smaller total.
pub open spec fn ranked_by_total(ss: Seq<RuleSummary>) -> Seq<RuleSummary>
    decreases ss.len(),
{
    if ss.len() == 0 {
        Seq::empty()
    } else {
        let r = ranked_by_total(ss.drop_last());
        r.insert(total_insertion_point(r, ss.last()), ss.last())
    }
}

proof fn lemma_total_insertion_point(out: Seq<RuleSummary>, x: RuleSummary, pos: int)
    requires
        0 <= pos <= out.len(),
        forall|i: int|
            0 <= i < pos ==> (#[trigger] out[i]).total_exposure_cents >= x.total_exposure_cents,
        pos == out.len() || x.total_exposure_cents > out[pos].total_exposure_cents,
    ensures
        total_insertion_point(out, x) == pos,
    decreases pos,
{
    if pos > 0 {
        assert(out[0].total_exposure_cents >= x.total_exposure_cents);
        assert forall|i: int| 0 <= i < pos - 1 implies (#[trigger] out.drop_first()[i]).total_exposure_cents
            >= x.total_exposure_cents by {
            assert(out.drop_first()[i] == out[i + 1]);
        }
        if pos < out.len() {
            assert(out.drop_first()[pos - 1] == out[pos]);
        }
        lemma_total_insertion_point(out.drop_first(), x, pos - 1);
    }
}

/// Orders rule summaries by total exposure, largest first, keeping the
/// input order among equal totals.
pub fn rank_rule_summaries(input: Vec<RuleSummary>) -> (r: Vec<RuleSummary>)
    ensures
        exists|perm: Seq<int>| is_reordering_by_total(input@, r@, perm),
        r@ == ranked_by_total(input@),
{
    let ghost inp = input@;
    let n = input.len();
    let mut out: Vec<RuleSummary> = Vec::new();
    let ghost mut perm: Seq<int> = Seq::empty();
    let mut k: usize = 0;
    while k < n
        invariant
            k <= n,
            n == inp.len(),
            inp == input@,
            out@ == ranked_by_total(inp.take(k as int)),
            out@.len() == k,
            perm.len() == k,
            forall|i: int| 0 <= i < k ==> 0 <= #[trigger] perm[i] < k,
            forall|i: int| 0 <= i < k ==> #[trigger] out@[i] == inp[perm[i]],
            forall|i: int, j: int| 0 <= i < j < k ==> #[trigger] perm[i] != #[trigger] perm[j],
            forall|i: int, j: int|
                0 <= i < j < k ==> (#[trigger] out@[i]).total_exposure_cents
                    >= (#[trigger] out@[j]).total_exposure_cents,
            forall|i: int, j: int|
                0 <= i < j < k && out@[i].total_exposure_cents == out@[j].total_exposure_cents
                    ==> #[trigger] perm[i] < #[trigger] perm[j],
        decreases n - k,
    {
        let x = input[k];
        let mut pos: usize = 0;
        while pos < out.len() && out[pos].total_exposure_cents >= x.total_exposure_cents
            invariant
                pos <= out@.len(),
                forall|i: int|
                    0 <= i < pos ==> (#[trigger] out@[i]).total_exposure_cents >= x.total_exposure_cents,
            decreases out@.len() - pos,
        {
            pos = pos + 1;
        }
        let ghost old_out = out@;
        let ghost old_perm = perm;
        proof {
            lemma_total_insertion_point(old_out, x, pos as int);
            assert(inp.take(k + 1).drop_last() =~= inp.take(k as int));
            assert(inp.take(k + 1).last() == x);
        }
        out.insert(pos, x);
        proof {
            perm = old_perm.insert(pos as int, k as int);
            assert forall|i: int| 0 <= i < k + 1 implies 0 <= #[trigger] perm[i] < k + 1 by {
                if i < pos {
                    assert(perm[i] == old_perm[i]);
                } else if i > pos {
                    assert(perm[i] == old_perm[i - 1]);
                }
            }
            assert forall|i: int| 0 <= i < k + 1 implies #[trigger] out@[i] == inp[perm[i]] by {
                if i < pos {
                    assert(out@[i] == old_out[i]);
                    assert(perm[i] == old_perm[i]);
                } else if i > pos {
                    assert(out@[i] == old_out[i - 1]);
                    assert(perm[i] == old_perm[i - 1]);
                }
            }
            assert forall|i: int, j: int| 0 <= i < j < k + 1 implies #[trigger] perm[i] != #[trigger] perm[j] by {
                let oi = if i < pos { i } else { i - 1 };
                let oj = if j < pos { j } else { j - 1 };
                if i != pos && j != pos {
                    assert(perm[i] == old_perm[oi]);
                    assert(perm[j] == old_perm[oj]);
                } else if i == pos {
                    assert(perm[j] == old_perm[oj]);
                } else {
                    assert(perm[i] == old_perm[oi]);
                }
            }
            assert forall|i: int, j: int| 0 <= i < j < k + 1 implies (#[trigger] out@[i]).total_exposure_cents
                >= (#[trigger] out@[j]).total_exposure_cents by {
                let oi = if i < pos { i } else { i - 1 };
                let oj = if j < pos { j } else { j - 1 };
                if i != pos && j != pos {
                    assert(out@[i] == old_out[oi]);
                    assert(out@[j] == old_out[oj]);
                } else if j == pos {
                    assert(out@[i] == old_out[i]);
                } else {
                    assert(out@[j] == old_out[oj]);
                    assert(old_out[pos as int].total_exposure_cents < x.total_exposure_cents);
                    if oj > pos {
                        assert(old_out[pos as int].total_exposure_cents >= old_out[oj].total_exposure_cents);
                    }
                }
            }
            assert forall|i: int, j: int|
                0 <= i < j < k + 1 && out@[i].total_exposure_cents == out@[j].total_exposure_cents
                implies #[trigger] perm[i] < #[trigger] perm[j] by {
                let oi = if i < pos { i } else { i - 1 };
                let oj = if j < pos { j } else { j - 1 };
                if i != pos && j != pos {
                    assert(out@[i] == old_out[oi]);
                    assert(out@[j] == old_out[oj]);
                    assert(perm[i] == old_perm[oi]);
                    assert(perm[j] == old_perm[oj]);
                } else if j == pos {
                    assert(perm[i] == old_perm[i]);
                } else {
                    assert(out@[j] == old_out[oj]);
                    assert(old_out[pos as int].total_exposure_cents < x.total_exposure_cents);
                    if oj > pos {
                        assert(old_out[pos as int].total_exposure_cents >= old_out[oj].total_exposure_cents);
                    }
                }
            }
        }
        k = k + 1;
    }
    proof {
        assert(is_reordering_by_total(inp, out@, perm));
        assert(inp.take(n as int) =~= inp);
    }
    out
}

/// Every finding has exactly one of the four severities: the severity
/// counts add up to the number of findings.
pub proof fn lemma_severity_counts_cover_findings(fs: Seq<FindingView>)
    ensures
        severity_count(fs, RiskSeverity::Critical) + severity_count(fs, RiskSeverity::High)
            + severity_count(fs, RiskSeverity::Medium) + severity_count(fs, RiskSeverity::Low)
            == fs.len(),
    decreases fs.len(),
{
    if fs.len() > 0 {
        lemma_severity_counts_cover_findings(fs.drop_last());
    }
}

/// A severity is counted exactly when some finding has it: in particular
/// the critical count is positive exactly when there is a critical
/// finding.
pub proof fn lemma_severity_count_positive_iff_present(fs: Seq<FindingView>, sev: RiskSeverity)
    ensures
        severity_count(fs, sev) > 0 <==> exists|i: int|
            0 <= i < fs.len() && (#[trigger] fs[i]).severity == sev,
    decreases fs.len(),
{
    if fs.len() > 0 {
        let prev = fs.drop_last();
        lemma_severity_count_positive_iff_present(prev, sev);
        if severity_count(prev, sev) > 0 {
            let i = choose|i: int| 0 <= i < prev.len() && (#[trigger] prev[i]).severity == sev;
            assert(fs[i] == prev[i]);
        }
        if exists|i: int| 0 <= i < fs.len() && (#[trigger] fs[i]).severity == sev {
            let i = choose|i: int| 0 <= i < fs.len() && (#[trigger] fs[i]).severity == sev;
            if i < fs.len() - 1 {
                assert(prev[i] == fs[i]);
            }
        }
    }
}

/// The sum of the exposures of the findings, without any cap.
pub open spec fn exposure_sum(fs: Seq<FindingView>) -> int
    decreases fs.len(),
{
    if fs.len() == 0 {
        0
    } else {
        exposure_sum(fs.drop_last()) + fs.last().exposure_cents
    }
}

/// When no running total leaves the range of `i128`, the reported total
/// is the exact sum of the exposures.
pub proof fn lemma_capped_total_is_exact(fs: Seq<FindingView>)
    requires
        forall|i: int|
            0 <= i <= fs.len() ==> i128::MIN <= #[trigger] exposure_sum(fs.take(i)) <= i128::MAX,
    ensures
        capped_total(fs) == exposure_sum(fs),
    decreases fs.len(),
{
    if fs.len() > 0 {
        let prev = fs.drop_last();
        assert forall|i: int| 0 <= i <= prev.len() implies i128::MIN <= #[trigger] exposure_sum(
            prev.take(i),
        ) <= i128::MAX by {
            assert(prev.take(i) =~= fs.take(i));
        }
        lemma_capped_total_is_exact(prev);
        assert(fs.take(fs.len() as int) =~= fs);
        assert(i128::MIN <= exposure_sum(fs.take(fs.len() as int)) <= i128::MAX);
    }
}

/// The number of findings of the rules in `keys`, added up.
pub open spec fn rule_count_sum(fs: Seq<FindingView>, keys: Seq<AuditRule>) -> nat
    decreases keys.len(),
{
    if keys.len() == 0 {
        0
    } else {
        rule_count_sum(fs, keys.drop_last()) + rule_count(fs, keys.last())
    }
}

proof fn lemma_rule_count_sum_push(fs: Seq<FindingView>, f: FindingView, keys: Seq<AuditRule>)
    requires
        keys.no_duplicates(),
    ensures
        rule_count_sum(fs.push(f), keys) == rule_count_sum(fs, keys) + if keys.contains(f.rule) {
            1nat
        } else {
            0nat
        },
    decreases keys.len(),
{
    if keys.len() > 0 {
        let prev = keys.drop_last();
        assert(fs.push(f).drop_last() =~= fs);
        assert(prev.no_duplicates());
        lemma_rule_count_sum_push(fs, f, prev);
        if prev.contains(f.rule) {
            let i = choose|i: int| 0 <= i < prev.len() && prev[i] == f.rule;
            assert(keys[i] == f.rule);
            assert(keys.last() != f.rule);
        }
        if keys.contains(f.rule) && keys.last() != f.rule {
            let i = choose|i: int| 0 <= i < keys.len() && keys[i] == f.rule;
            assert(prev[i] == f.rule);
        }
        assert(keys.last() == keys[keys.len() - 1]);
    }
}

/// Each finding is counted under exactly one rule: the counts of the rule
/// summaries add up to the number of findings.
pub proof fn lemma_rule_counts_cover_findings(fs: Seq<FindingView>)
    ensures
        rule_count_sum(fs, first_keys(finding_rules(fs))) == fs.len(),
    decreases fs.len(),
{
    if fs.len() > 0 {
        let prev = fs.drop_last();
        let f = fs.last();
        lemma_rule_counts_cover_findings(prev);
        let rules = finding_rules(prev);
        assert(fs =~= prev.push(f));
        assert(finding_rules(fs) =~= rules.push(f.rule));
        assert(finding_rules(fs).drop_last() =~= rules);
        lemma_first_keys_distinct(rules);
        lemma_first_keys_contains(rules, f.rule);
        lemma_rule_count_sum_push(prev, f, first_keys(rules));
        if !first_keys(rules).contains(f.rule) {
            lemma_absent_rule(prev, f.rule);
            assert(first_keys(finding_rules(fs)).drop_last() =~= first_keys(rules));
        }
    }
}

/// The exact sum of the exposures of the findings from `rule`.
pub open spec fn rule_exposure(fs: Seq<FindingView>, rule: AuditRule) -> int
    decreases fs.len(),
{
    if fs.len() == 0 {
        0
    } else if fs.last().rule == rule {
        rule_exposure(fs.drop_last(), rule) + fs.last().exposure_cents
    } else {
        rule_exposure(fs.drop_last(), rule)
    }
}

/// The exact exposures of the rules in `keys`, added up.
pub open spec fn rule_exposure_sum(fs: Seq<FindingView>, keys: Seq<AuditRule>) -> int
    decreases keys.len(),
{
    if keys.len() == 0 {
        0
    } else {
        rule_exposure_sum(fs, keys.drop_last()) + rule_exposure(fs, keys.last())
    }
}

/// The total exposures of a list of rule summaries, added up.
pub open spec fn summaries_total(ss: Seq<RuleSummary>) -> int
    decreases ss.len(),
{
    if ss.len() == 0 {
        0
    } else {
        summaries_total(ss.drop_last()) + ss.last().total_exposure_cents
    }
}

/// Every exposure lies within `bound`, and `bound` times the number of
/// findings still fits in an `i128`: no running total can be capped.
pub open spec fn exposures_bounded(fs: Seq<FindingView>, bound: int) -> bool {
    &&& 0 <= bound
    &&& bound * fs.len() <= i128::MAX
    &&& forall|i: int| 0 <= i < fs.len() ==> -bound <= (#[trigger] fs[i]).exposure_cents <= bound
}

proof fn lemma_bounded_totals_exact(fs: Seq<FindingView>, bound: int, rule: AuditRule)
    requires
        exposures_bounded(fs, bound),
    ensures
        rule_total(fs, rule) == rule_exposure(fs, rule),
        capped_total(fs) == exposure_sum(fs),
        -(bound * fs.len()) <= rule_exposure(fs, rule) <= bound * fs.len(),
        -(bound * fs.len()) <= exposure_sum(fs) <= bound * fs.len(),
    decreases fs.len(),
{
    if fs.len() > 0 {
        let prev = fs.drop_last();
        let n = fs.len();
        assert(bound * (n - 1) + bound == bound * n) by (nonlinear_arith);
        assert(bound * (n - 1) <= bound * n) by (nonlinear_arith)
            requires
                0 <= bound,
        ;
        assert forall|i: int| 0 <= i < prev.len() implies -bound <= (#[trigger] prev[i]).exposure_cents
            <= bound by {
            assert(prev[i] == fs[i]);
        }
        lemma_bounded_totals_exact(prev, bound, rule);
        assert(fs.last() == fs[n - 1]);
    }
}

proof fn lemma_absent_rule_exposure(fs: Seq<FindingView>, rule: AuditRule)
    requires
        !finding_rules(fs).contains(rule),
    ensures
        rule_exposure(fs, rule) == 0,
    decreases fs.len(),
{
    if fs.len() > 0 {
        assert(finding_rules(fs)[fs.len() - 1] == fs.last().rule);
        if finding_rules(fs.drop_last()).contains(rule) {
            let i = choose|i: int| 0 <= i < finding_rules(fs.drop_last()).len() && finding_rules(fs.drop_last())[i] == rule;
            assert(finding_rules(fs)[i] == rule);
        }
        lemma_absent_rule_exposure(fs.drop_last(), rule);
    }
}

proof fn lemma_rule_exposure_sum_push(fs: Seq<FindingView>, f: FindingView, keys: Seq<AuditRule>)
    requires
        keys.no_duplicates(),
    ensures
        rule_exposure_sum(fs.push(f), keys) == rule_exposure_sum(fs, keys) + if keys.contains(f.rule) {
            f.exposure_cents as int
        } else {
            0int
        },
    decreases keys.len(),
{
    if keys.len() > 0 {
        let prev = keys.drop_last();
        assert(fs.push(f).drop_last() =~= fs);
        assert(prev.no_duplicates());
        lemma_rule_exposure_sum_push(fs, f, prev);
        if prev.contains(f.rule) {
            let i = choose|i: int| 0 <= i < prev.len() && prev[i] == f.rule;
            assert(keys[i] == f.rule);
            assert(keys.last() != f.rule);
        }
        if keys.contains(f.rule) && keys.last() != f.rule {
            let i = choose|i: int| 0 <= i < keys.len() && keys[i] == f.rule;
            assert(prev[i] == f.rule);
        }
        assert(keys.last() == keys[keys.len() - 1]);
    }
}

proof fn lemma_rule_exposures_cover_total(fs: Seq<FindingView>)
    ensures
        rule_exposure_sum(fs, first_keys(finding_rules(fs))) == exposure_sum(fs),
    decreases fs.len(),
{
    if fs.len() > 0 {
        let prev = fs.drop_last();
        let f = fs.last();
        lemma_rule_exposures_cover_total(prev);
        let rules = finding_rules(prev);
        assert(fs =~= prev.push(f));
        assert(finding_rules(fs) =~= rules.push(f.rule));
        assert(finding_rules(fs).drop_last() =~= rules);
        lemma_first_keys_distinct(rules);
        lemma_first_keys_contains(rules, f.rule);
        lemma_rule_exposure_sum_push(prev, f, first_keys(rules));
        if !first_keys(rules).contains(f.rule) {
            lemma_absent_rule_exposure(prev, f.rule);
            assert(first_keys(finding_rules(fs)).drop_last() =~= first_keys(rules));
        }
    }
}

proof fn lemma_summaries_total_of_keys(fs: Seq<FindingView>, bound: int, keys: Seq<AuditRule>)
    requires
        exposures_bounded(fs, bound),
    ensures
        summaries_total(keys.map_values(|r: AuditRule| rule_summary(fs, r)))
            == rule_exposure_sum(fs, keys),
    decreases keys.len(),
{
    if keys.len() > 0 {
        let prev = keys.drop_last();
        assert(keys.map_values(|r: AuditRule| rule_summary(fs, r)).drop_last() =~= prev.map_values(
            |r: AuditRule| rule_summary(fs, r),
        ));
        lemma_summaries_total_of_keys(fs, bound, prev);
        lemma_bounded_totals_exact(fs, bound, keys.last());
    }
}

/// When no sum of exposures can leave the range of `i128`, the totals of
/// the rule summaries add up to the total exposure of the report.
pub proof fn lemma_rule_totals_add_up(fs: Seq<FindingView>, bound: int)
    requires
        exposures_bounded(fs, bound),
    ensures
        summaries_total(rule_summaries(fs)) == capped_total(fs),
{
    lemma_summaries_total_of_keys(fs, bound, first_keys(finding_rules(fs)));
    lemma_rule_exposures_cover_total(fs);
    lemma_bounded_totals_exact(fs, bound, AuditRule::RoundSumOverride);
}

} // verus!
