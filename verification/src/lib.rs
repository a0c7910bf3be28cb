//! Forensic ledger audit rules: segregation-of-duties collisions, split
//! purchases below approval limits, fuzzy duplicate payments, round-sum
//! overrides and Benford digit tallies, together with the report that
//! ranks and summarises what they find.
//!
//! Amounts are held in cents (hundredths of the currency unit) as integers.
use vstd::prelude::*;

pub mod models;
pub mod text;
pub mod grouping;
pub mod schema;
pub mod benford;
pub mod structuring;
pub mod sod;
pub mod duplicates;
pub mod round_sums;
pub mod report;

use crate::duplicates::{detect_fuzzy_duplicates, dup_findings};
use crate::models::{AuditFinding, AuditReport, FindingView, Transaction, finding_views, tx_views};
use crate::report::{
    add_capped, capped_total, is_ranked_reordering, is_reordering_by_total, rank_findings,
    rank_rule_summaries, ranked, ranked_by_total, rule_summaries, severity_summary,
    summarize_rules, summarize_severities,
};
use crate::round_sums::{detect_round_sums, round_sum_findings};
use crate::sod::{detect_sod_breaches, sod_findings};
use crate::structuring::{detect_structuring, structuring_findings, StructuringConfig};

verus! {

/// The settings used when none are given: a limit of 5,000.00, a margin of
/// 10% and at least two payments.
pub open spec fn default_structuring() -> StructuringConfig {
    StructuringConfig { threshold_cents: 500_000, margin_ppm: 100_000, min_repetitions: 2 }
}

/// The given settings, or the defaults.
pub open spec fn chosen_structuring(c: Option<StructuringConfig>) -> StructuringConfig {
    match c {
        Some(c) => c,
        None => default_structuring(),
    }
}

/// All findings of a run before ranking: the Benford findings, then split
/// purchases, self-approvals, duplicate payments and round sums.
pub open spec fn raw_findings(
    txs: Seq<crate::models::TransactionView>,
    cfg: StructuringConfig,
    benford: Seq<FindingView>,
) -> Seq<FindingView> {
    benford + structuring_findings(cfg, txs) + sod_findings(txs) + dup_findings(txs)
        + round_sum_findings(txs)
}

/// The ranked findings of a run with structuring settings `cfg` (the
/// defaults when none are given) and Benford findings `benford`.
pub open spec fn audit_findings(
    txs: Seq<crate::models::TransactionView>,
    cfg: Option<StructuringConfig>,
    benford: Seq<FindingView>,
) -> Seq<FindingView> {
    ranked(raw_findings(txs, chosen_structuring(cfg), benford))
}

/// A run without structuring settings is a run with the default ones: it
/// finds the same findings in the same order, so the report's total and
/// summaries are the same too.
pub proof fn lemma_no_settings_means_defaults(
    txs: Seq<crate::models::TransactionView>,
    benford: Seq<FindingView>,
    cfg: StructuringConfig,
)
    requires
        cfg.threshold_cents == 500_000,
        cfg.margin_ppm == 100_000,
        cfg.min_repetitions == 2,
    ensures
        audit_findings(txs, None, benford) == audit_findings(txs, Some(cfg), benford),
        capped_total(audit_findings(txs, None, benford)) == capped_total(
            audit_findings(txs, Some(cfg), benford),
        ),
        severity_summary(audit_findings(txs, None, benford)) == severity_summary(
            audit_findings(txs, Some(cfg), benford),
        ),
        ranked_by_total(rule_summaries(audit_findings(txs, None, benford))) == ranked_by_total(
            rule_summaries(audit_findings(txs, Some(cfg), benford)),
        ),
{
    assert(chosen_structuring(None) == chosen_structuring(Some(cfg)));
}

fn total_exposure(findings: &Vec<AuditFinding>) -> (r: i128)
    ensures
        r == capped_total(finding_views(findings@)),
{
    let ghost fs = finding_views(findings@);
    let mut total: i128 = 0;
    let mut i: usize = 0;
    while i < findings.len()
        invariant
            i <= findings@.len(),
            fs == finding_views(findings@),
            total == capped_total(fs.take(i as int)),
        decreases findings@.len() - i,
    {
        proof {
            assert(fs.take(i + 1).drop_last() =~= fs.take(i as int));
            assert(fs.take(i + 1).last() == findings@[i as int]@);
        }
        total = add_capped(total, findings[i].exposure_cents);
        i = i + 1;
    }
    proof {
        assert(fs.take(findings@.len() as int) =~= fs);
    }
    total
}

/// Runs every rule over the transactions and assembles the report.
///
/// The Benford findings rest on floating-point statistics and are handed
/// in by the caller. The findings are ranked from the most serious down
/// (severity, then exposure; ties keep the order in which the rules ran),
/// totalled, and summarised by severity and by rule; rule summaries are
/// ranked by their total exposure.
pub fn run_full_audit(
    transactions: &[Transaction],
    structuring_cfg: Option<StructuringConfig>,
    benford_findings: Vec<AuditFinding>,
) -> (r: AuditReport)
    ensures
        r.total_rows_scanned == transactions@.len(),
        exists|perm: Seq<int>|
            #[trigger] is_ranked_reordering(
                raw_findings(
                    tx_views(transactions@),
                    chosen_structuring(structuring_cfg),
                    finding_views(benford_findings@),
                ),
                finding_views(r.findings@),
                perm,
            ),
        finding_views(r.findings@) == audit_findings(
            tx_views(transactions@),
            structuring_cfg,
            finding_views(benford_findings@),
        ),
        r.total_exposure_cents == capped_total(finding_views(r.findings@)),
        r.summary_by_severity == severity_summary(finding_views(r.findings@)),
        exists|perm: Seq<int>|
            #[trigger] is_reordering_by_total(
                rule_summaries(finding_views(r.findings@)),
                r.summary_by_rule@,
                perm,
            ),
        r.summary_by_rule@ == ranked_by_total(rule_summaries(finding_views(r.findings@))),
{
    let cfg = match structuring_cfg {
        Some(c) => c,
        None => StructuringConfig::default(),
    };
    let ghost txs = tx_views(transactions@);
    let ghost bf = finding_views(benford_findings@);
    let mut findings = benford_findings;
    let mut structuring = detect_structuring(transactions, &cfg);
    let mut sod = detect_sod_breaches(transactions);
    let mut dups = detect_fuzzy_duplicates(transactions);
    let mut rounds = detect_round_sums(transactions);
    let ghost s1 = finding_views(structuring@);
    let ghost s2 = finding_views(sod@);
    let ghost s3 = finding_views(dups@);
    let ghost s4 = finding_views(rounds@);
    findings.append(&mut structuring);
    findings.append(&mut sod);
    findings.append(&mut dups);
    findings.append(&mut rounds);
    proof {
        assert(finding_views(findings@) =~= bf + s1 + s2 + s3 + s4);
    }
    let ghost all = finding_views(findings@);
    assert(cfg == chosen_structuring(structuring_cfg));
    assert(all == raw_findings(txs, cfg, bf));
    let ranked = rank_findings(findings);
    let total = total_exposure(&ranked);
    let by_severity = summarize_severities(&ranked);
    let unranked_rules = summarize_rules(&ranked);
    let ghost rs = unranked_rules@;
    let by_rule = rank_rule_summaries(unranked_rules);
    let report = AuditReport {
        total_rows_scanned: transactions.len(),
        total_exposure_cents: total,
        findings: ranked,
        summary_by_rule: by_rule,
        summary_by_severity: by_severity,
    };
    proof {
        let p1 = choose|p: Seq<int>| is_ranked_reordering(all, finding_views(ranked@), p);
        assert(report.findings@ == ranked@);
        assert(is_ranked_reordering(
            raw_findings(txs, chosen_structuring(structuring_cfg), bf),
            finding_views(report.findings@),
            p1,
        ));
        let p2 = choose|p: Seq<int>| is_reordering_by_total(rs, by_rule@, p);
        assert(is_reordering_by_total(rule_summaries(finding_views(report.findings@)), report.summary_by_rule@, p2));
    }
    report
}

} // verus!
