//! Round-sum overrides: large entries in exact thousands.
use vstd::prelude::*;
use crate::models::{
    AuditFinding, AuditRule, DetailView, FindingDetail, FindingView, RiskSeverity, Transaction,
    TransactionView, finding_views, tx_views,
};
use crate::text::clone_opt;

verus! {

/// An amount of at least 10,000.00 that is an exact multiple of 1,000.00.
pub open spec fn is_round_sum(amount_cents: i64) -> bool {
    amount_cents >= 1_000_000 && amount_cents % 100_000 == 0
}

/// Severity of a round-sum entry: High from 50,000.00, Medium from
/// 25,000.00, Low below.
pub open spec fn round_sum_severity(amount_cents: i64) -> RiskSeverity {
    if amount_cents >= 5_000_000 {
        RiskSeverity::High
    } else if amount_cents >= 2_500_000 {
        RiskSeverity::Medium
    } else {
        RiskSeverity::Low
    }
}

/// The finding raised for a round-sum transaction.
pub open spec fn round_sum_finding(t: TransactionView) -> FindingView {
    FindingView {
        rule: AuditRule::RoundSumOverride,
        severity: round_sum_severity(t.amount_cents),
        transaction_id: Some(t.id),
        exposure_cents: t.amount_cents as i128,
        raw_line: Some(t.raw_line),
        detail: DetailView::RoundSum {
            account: t.account,
            vendor: t.vendor,
            maker: t.created_by,
            description: t.description,
        },
    }
}

/// The round-sum findings for a sequence of transactions, in their order.
pub open spec fn round_sum_findings(txs: Seq<TransactionView>) -> Seq<FindingView>
    decreases txs.len(),
{
    if txs.len() == 0 {
        Seq::empty()
    } else if is_round_sum(txs.last().amount_cents) {
        round_sum_findings(txs.drop_last()).push(round_sum_finding(txs.last()))
    } else {
        round_sum_findings(txs.drop_last())
    }
}

/// The round-sum findings are exactly the findings of the transactions
/// whose amount is a round sum, one each, in ledger order.
pub proof fn lemma_round_sum_findings_are_round_sums(txs: Seq<TransactionView>)
    ensures
        round_sum_findings(txs) == txs.filter(|t: TransactionView| is_round_sum(t.amount_cents)).map_values(
            |t: TransactionView| round_sum_finding(t),
        ),
    decreases txs.len(),
{
    reveal(Seq::filter);
    if txs.len() > 0 {
        lemma_round_sum_findings_are_round_sums(txs.drop_last());
        let f = txs.drop_last().filter(|t: TransactionView| is_round_sum(t.amount_cents));
        if is_round_sum(txs.last().amount_cents) {
            assert(f.push(txs.last()).map_values(|t: TransactionView| round_sum_finding(t))
                =~= f.map_values(|t: TransactionView| round_sum_finding(t)).push(
                round_sum_finding(txs.last()),
            ));
        }
    }
}

/// The round-sum findings are one per transaction of 10,000.00 or more in
/// exact thousands, whatever its size, in ledger order: each carries the
/// transaction's id, line and amount, and is High from 50,000.00, Medium
/// from 25,000.00 and Low below.
pub proof fn lemma_round_sums_flag_every_large_round_amount(txs: Seq<TransactionView>)
    ensures
        round_sum_findings(txs).len() == txs.filter(
            |t: TransactionView| t.amount_cents >= 1_000_000 && t.amount_cents % 100_000 == 0,
        ).len(),
        forall|k: int|
            0 <= k < round_sum_findings(txs).len() ==> {
                let t = txs.filter(
                    |t: TransactionView| t.amount_cents >= 1_000_000 && t.amount_cents % 100_000 == 0,
                )[k];
                let f = #[trigger] round_sum_findings(txs)[k];
                &&& f.rule == AuditRule::RoundSumOverride
                &&& f.transaction_id == Some(t.id)
                &&& f.raw_line == Some(t.raw_line)
                &&& f.exposure_cents == t.amount_cents
                &&& f.severity == if t.amount_cents >= 5_000_000 {
                    RiskSeverity::High
                } else if t.amount_cents >= 2_500_000 {
                    RiskSeverity::Medium
                } else {
                    RiskSeverity::Low
                }
            },
    decreases txs.len(),
{
    reveal(Seq::filter);
    if txs.len() > 0 {
        lemma_round_sums_flag_every_large_round_amount(txs.drop_last());
    }
}

/// Severity never falls as the amount rises.
pub proof fn lemma_round_sum_severity_monotone(a: i64, b: i64)
    requires
        a <= b,
    ensures
        round_sum_severity(a).rank() <= round_sum_severity(b).rank(),
{
}

/// Flags entries of 10,000.00 or more in exact thousands, a common mark of
/// manual overrides and unsupported accruals.
pub fn detect_round_sums(transactions: &[Transaction]) -> (r: Vec<AuditFinding>)
    ensures
        finding_views(r@) == round_sum_findings(tx_views(transactions@)),
{
    let ghost txs = tx_views(transactions@);
    let mut findings: Vec<AuditFinding> = Vec::new();
    let mut i: usize = 0;
    while i < transactions.len()
        invariant
            i <= transactions@.len(),
            txs == tx_views(transactions@),
            finding_views(findings@) == round_sum_findings(txs.take(i as int)),
        decreases transactions@.len() - i,
    {
        let tx = &transactions[i];
        proof {
            assert(txs.take(i + 1).drop_last() =~= txs.take(i as int));
            assert(txs.take(i + 1).last() == tx@);
        }
        let ghost before = findings@;
        let amount = tx.amount_cents;
        if amount >= 1_000_000 && amount % 100_000 == 0 {
            let severity = if amount >= 5_000_000 {
                RiskSeverity::High
            } else if amount >= 2_500_000 {
                RiskSeverity::Medium
            } else {
                RiskSeverity::Low
            };
            let f = AuditFinding {
                rule: AuditRule::RoundSumOverride,
                severity,
                transaction_id: Some(tx.id.clone()),
                exposure_cents: amount as i128,
                raw_line: Some(tx.raw_line),
                detail: FindingDetail::RoundSum {
                    account: clone_opt(&tx.account),
                    vendor: clone_opt(&tx.vendor),
                    maker: clone_opt(&tx.created_by),
                    description: clone_opt(&tx.description),
                },
            };
            findings.push(f);
            proof {
                assert(f@ == round_sum_finding(tx@));
                assert(finding_views(findings@) =~= finding_views(before).push(f@));
            }
        }
        i = i + 1;
    }
    proof {
        assert(txs.take(transactions@.len() as int) =~= txs);
    }
    findings
}

} // verus!
