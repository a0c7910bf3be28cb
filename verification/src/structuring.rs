//! Split purchases: several payments to one vendor just below the
//! approval limit, which together circumvent it.
use vstd::prelude::*;
use crate::grouping::{
    first_keys, group_positions, lemma_first_key_has_positions, lemma_first_keys_contains,
    lemma_positions_of_absent, key_views, lemma_positions_of_valid, positions_of,
};
use crate::models::{
    AuditFinding, AuditRule, DetailView, FindingDetail, FindingView, RiskSeverity, Transaction,
    TransactionView, finding_views, string_views, tx_views,
};
use crate::text::{join_strings, seq_join};

verus! {

/// Settings of the split-purchase test. The bracket that is watched runs
/// from `threshold_cents * (1 - margin_ppm / 1_000_000)` up to, but not
/// including, `threshold_cents`; a vendor is flagged once it has
/// `min_repetitions` payments in that bracket.
#[derive(Debug, Clone, Copy)]
pub struct StructuringConfig {
    pub threshold_cents: i64,
    pub margin_ppm: i64,
    pub min_repetitions: usize,
}

impl Default for StructuringConfig {
    /// A limit of 5,000.00, a margin of 10% and at least two payments.
    fn default() -> (r: Self)
        ensures
            r.threshold_cents == 500_000,
            r.margin_ppm == 100_000,
            r.min_repetitions == 2,
    {
        StructuringConfig { threshold_cents: 500_000, margin_ppm: 100_000, min_repetitions: 2 }
    }
}

/// An amount inside the watched bracket just below the threshold.
pub open spec fn in_bracket(cfg: StructuringConfig, amount_cents: i64) -> bool {
    &&& amount_cents < cfg.threshold_cents
    &&& amount_cents * 1_000_000 >= cfg.threshold_cents * (1_000_000 - cfg.margin_ppm)
}

/// The transactions whose amount lies in the bracket, in their order.
pub open spec fn candidates(cfg: StructuringConfig, txs: Seq<TransactionView>) -> Seq<
    TransactionView,
>
    decreases txs.len(),
{
    if txs.len() == 0 {
        Seq::empty()
    } else if in_bracket(cfg, txs.last().amount_cents) {
        candidates(cfg, txs.drop_last()).push(txs.last())
    } else {
        candidates(cfg, txs.drop_last())
    }
}

/// The vendor a transaction is grouped under; transactions without one
/// are grouped together as UNKNOWN_VENDOR.
pub open spec fn vendor_key(t: TransactionView) -> Seq<char> {
    match t.vendor {
        Some(v) => v,
        None => "UNKNOWN_VENDOR"@,
    }
}

/// The grouping keys of the candidates.
pub open spec fn candidate_keys(cfg: StructuringConfig, txs: Seq<TransactionView>) -> Seq<
    (Seq<char>, i64),
> {
    candidates(cfg, txs).map_values(|t: TransactionView| (vendor_key(t), 0i64))
}

/// The vendors with candidates, in the order of their first candidate.
pub open spec fn candidate_vendors(cfg: StructuringConfig, txs: Seq<TransactionView>) -> Seq<
    (Seq<char>, i64),
> {
    first_keys(candidate_keys(cfg, txs))
}

/// The candidates of the `g`-th vendor, in their order.
pub open spec fn vendor_candidates(cfg: StructuringConfig, txs: Seq<TransactionView>, g: int) -> Seq<
    TransactionView,
> {
    positions_of(candidate_keys(cfg, txs), candidate_vendors(cfg, txs)[g]).map_values(
        |p: int| candidates(cfg, txs)[p],
    )
}

/// The sum of the amounts of `ts`, in cents.
pub open spec fn sum_cents(ts: Seq<TransactionView>) -> int
    decreases ts.len(),
{
    if ts.len() == 0 {
        0
    } else {
        sum_cents(ts.drop_last()) + ts.last().amount_cents
    }
}

/// Critical from four payments or three times the limit, High from three
/// payments or twice the limit, Medium otherwise.
pub open spec fn structuring_severity(cfg: StructuringConfig, count: int, total: int) -> RiskSeverity {
    if count >= 4 || total >= cfg.threshold_cents * 3 {
        RiskSeverity::Critical
    } else if count >= 3 || total >= cfg.threshold_cents * 2 {
        RiskSeverity::High
    } else {
        RiskSeverity::Medium
    }
}

/// The finding raised for vendor `vendor` with bracket payments `ms`.
pub open spec fn structuring_finding(
    cfg: StructuringConfig,
    vendor: Seq<char>,
    ms: Seq<TransactionView>,
) -> FindingView {
    FindingView {
        rule: AuditRule::SplitApprovalStructuring,
        severity: structuring_severity(cfg, ms.len() as int, sum_cents(ms)),
        transaction_id: Some(
            seq_join(ms.map_values(|t: TransactionView| t.id), ", "@),
        ),
        exposure_cents: sum_cents(ms) as i128,
        raw_line: Some(ms[0].raw_line),
        detail: DetailView::Structuring {
            vendor,
            count: ms.len() as usize,
            threshold_cents: cfg.threshold_cents,
            transaction_ids: ms.map_values(|t: TransactionView| t.id),
            raw_lines: ms.map_values(|t: TransactionView| t.raw_line),
        },
    }
}

/// The findings for the first `n` vendors with candidates.
pub open spec fn structuring_findings_upto(
    cfg: StructuringConfig,
    txs: Seq<TransactionView>,
    n: int,
) -> Seq<FindingView>
    decreases n,
{
    if n <= 0 {
        Seq::empty()
    } else if vendor_candidates(cfg, txs, n - 1).len() >= cfg.min_repetitions {
        structuring_findings_upto(cfg, txs, n - 1).push(
            structuring_finding(
                cfg,
                candidate_vendors(cfg, txs)[n - 1].0,
                vendor_candidates(cfg, txs, n - 1),
            ),
        )
    } else {
        structuring_findings_upto(cfg, txs, n - 1)
    }
}

/// One finding per vendor with at least `min_repetitions` payments in the
/// bracket, in the order of each vendor's first such payment.
pub open spec fn structuring_findings(cfg: StructuringConfig, txs: Seq<TransactionView>) -> Seq<
    FindingView,
> {
    structuring_findings_upto(cfg, txs, candidate_vendors(cfg, txs).len() as int)
}

proof fn lemma_candidates_in_bracket(cfg: StructuringConfig, txs: Seq<TransactionView>)
    ensures
        forall|p: int|
            0 <= p < candidates(cfg, txs).len() ==> in_bracket(
                cfg,
                (#[trigger] candidates(cfg, txs)[p]).amount_cents,
            ),
    decreases txs.len(),
{
    if txs.len() > 0 {
        lemma_candidates_in_bracket(cfg, txs.drop_last());
    }
}

/// Every payment listed under a vendor lies in the bracket and belongs to
/// that vendor.
pub proof fn lemma_vendor_candidates_sound(cfg: StructuringConfig, txs: Seq<TransactionView>, g: int)
    requires
        0 <= g < candidate_vendors(cfg, txs).len(),
    ensures
        forall|j: int|
            0 <= j < vendor_candidates(cfg, txs, g).len() ==> in_bracket(
                cfg,
                (#[trigger] vendor_candidates(cfg, txs, g)[j]).amount_cents,
            ) && vendor_key(vendor_candidates(cfg, txs, g)[j]) == candidate_vendors(cfg, txs)[g].0,
{
    let ks = candidate_keys(cfg, txs);
    let k = candidate_vendors(cfg, txs)[g];
    lemma_positions_of_valid(ks, k);
    lemma_candidates_in_bracket(cfg, txs);
    assert forall|j: int| 0 <= j < vendor_candidates(cfg, txs, g).len() implies in_bracket(
        cfg,
        (#[trigger] vendor_candidates(cfg, txs, g)[j]).amount_cents,
    ) && vendor_key(vendor_candidates(cfg, txs, g)[j]) == k.0 by {
        let p = positions_of(ks, k)[j];
        assert(ks[p] == k);
        assert(vendor_candidates(cfg, txs, g)[j] == candidates(cfg, txs)[p]);
    }
}

/// Every split-purchase finding is the finding of one vendor with at least
/// `min_repetitions` payments in the bracket, and every such vendor has a
/// finding.
pub proof fn lemma_structuring_findings_exact(cfg: StructuringConfig, txs: Seq<TransactionView>)
    ensures
        forall|k: int|
            0 <= k < structuring_findings(cfg, txs).len() ==> exists|g: int|
                0 <= g < candidate_vendors(cfg, txs).len() && vendor_candidates(cfg, txs, g).len()
                    >= cfg.min_repetitions && #[trigger] structuring_findings(cfg, txs)[k]
                    == structuring_finding(
                    cfg,
                    candidate_vendors(cfg, txs)[g].0,
                    vendor_candidates(cfg, txs, g),
                ),
        forall|g: int|
            0 <= g < candidate_vendors(cfg, txs).len() && vendor_candidates(cfg, txs, g).len()
                >= cfg.min_repetitions ==> structuring_findings(cfg, txs).contains(
                structuring_finding(
                    cfg,
                    candidate_vendors(cfg, txs)[g].0,
                    #[trigger] vendor_candidates(cfg, txs, g),
                ),
            ),
{
    lemma_structuring_upto(cfg, txs, candidate_vendors(cfg, txs).len() as int);
}

proof fn lemma_structuring_upto(cfg: StructuringConfig, txs: Seq<TransactionView>, n: int)
    requires
        0 <= n <= candidate_vendors(cfg, txs).len(),
    ensures
        forall|k: int|
            0 <= k < structuring_findings_upto(cfg, txs, n).len() ==> exists|g: int|
                0 <= g < n && vendor_candidates(cfg, txs, g).len() >= cfg.min_repetitions
                    && #[trigger] structuring_findings_upto(cfg, txs, n)[k] == structuring_finding(
                    cfg,
                    candidate_vendors(cfg, txs)[g].0,
                    vendor_candidates(cfg, txs, g),
                ),
        forall|g: int|
            0 <= g < n && vendor_candidates(cfg, txs, g).len() >= cfg.min_repetitions
                ==> structuring_findings_upto(cfg, txs, n).contains(
                structuring_finding(
                    cfg,
                    candidate_vendors(cfg, txs)[g].0,
                    #[trigger] vendor_candidates(cfg, txs, g),
                ),
            ),
    decreases n,
{
    if n > 0 {
        lemma_structuring_upto(cfg, txs, n - 1);
        let prev = structuring_findings_upto(cfg, txs, n - 1);
        let cur = structuring_findings_upto(cfg, txs, n);
        assert forall|k: int| 0 <= k < cur.len() implies exists|g: int|
            0 <= g < n && vendor_candidates(cfg, txs, g).len() >= cfg.min_repetitions
                && #[trigger] cur[k] == structuring_finding(
                cfg,
                candidate_vendors(cfg, txs)[g].0,
                vendor_candidates(cfg, txs, g),
            ) by {
            if k < prev.len() {
                assert(cur[k] == prev[k]);
                let g = choose|g: int|
                    0 <= g < n - 1 && vendor_candidates(cfg, txs, g).len() >= cfg.min_repetitions
                        && #[trigger] prev[k] == structuring_finding(
                        cfg,
                        candidate_vendors(cfg, txs)[g].0,
                        vendor_candidates(cfg, txs, g),
                    );
                assert(cur[k] == structuring_finding(
                    cfg,
                    candidate_vendors(cfg, txs)[g].0,
                    vendor_candidates(cfg, txs, g),
                ));
            } else {
                assert(cur[k] == structuring_finding(
                    cfg,
                    candidate_vendors(cfg, txs)[n - 1].0,
                    vendor_candidates(cfg, txs, n - 1),
                ));
            }
        }
        assert forall|g: int|
            0 <= g < n && vendor_candidates(cfg, txs, g).len() >= cfg.min_repetitions implies cur.contains(
            structuring_finding(
                cfg,
                candidate_vendors(cfg, txs)[g].0,
                #[trigger] vendor_candidates(cfg, txs, g),
            ),
        ) by {
            let f = structuring_finding(cfg, candidate_vendors(cfg, txs)[g].0, vendor_candidates(cfg, txs, g));
            if g < n - 1 {
                assert(prev.contains(f));
                let k = choose|k: int| 0 <= k < prev.len() && prev[k] == f;
                assert(cur[k] == f);
            } else {
                assert(cur[cur.len() - 1] == f);
            }
        }
    }
}

/// Whether some finding of `fs` flags split purchases to vendor `v`.
pub open spec fn flags_vendor(fs: Seq<FindingView>, v: Seq<char>) -> bool {
    exists|k: int|
        0 <= k < fs.len() && ((#[trigger] fs[k]).detail matches DetailView::Structuring {
            vendor,
            ..
        } && vendor == v)
}

/// How many transactions to vendor `v` lie in the bracket.
pub open spec fn bracket_count(cfg: StructuringConfig, txs: Seq<TransactionView>, v: Seq<char>) -> nat
    decreases txs.len(),
{
    if txs.len() == 0 {
        0
    } else {
        bracket_count(cfg, txs.drop_last(), v) + if in_bracket(cfg, txs.last().amount_cents)
            && vendor_key(txs.last()) == v {
            1nat
        } else {
            0nat
        }
    }
}

proof fn lemma_bracket_count_is_group_size(cfg: StructuringConfig, txs: Seq<TransactionView>, v: Seq<char>)
    ensures
        positions_of(candidate_keys(cfg, txs), (v, 0i64)).len() == bracket_count(cfg, txs, v),
    decreases txs.len(),
{
    if txs.len() > 0 {
        let prev = txs.drop_last();
        lemma_bracket_count_is_group_size(cfg, prev, v);
        if in_bracket(cfg, txs.last().amount_cents) {
            assert(candidate_keys(cfg, txs) =~= candidate_keys(cfg, prev).push(
                (vendor_key(txs.last()), 0i64),
            ));
            assert(candidate_keys(cfg, txs).drop_last() =~= candidate_keys(cfg, prev));
        } else {
            assert(candidate_keys(cfg, txs) =~= candidate_keys(cfg, prev));
        }
    }
}

proof fn lemma_bracket_count_grows(
    cfg1: StructuringConfig,
    cfg2: StructuringConfig,
    txs: Seq<TransactionView>,
    v: Seq<char>,
)
    requires
        cfg1.threshold_cents == cfg2.threshold_cents,
        cfg1.threshold_cents > 0,
        cfg1.margin_ppm <= cfg2.margin_ppm,
    ensures
        bracket_count(cfg1, txs, v) <= bracket_count(cfg2, txs, v),
    decreases txs.len(),
{
    if txs.len() > 0 {
        lemma_bracket_count_grows(cfg1, cfg2, txs.drop_last(), v);
        let t = cfg1.threshold_cents;
        assert(t * (1_000_000 - cfg2.margin_ppm) <= t * (1_000_000 - cfg1.margin_ppm)) by (nonlinear_arith)
            requires
                t > 0,
                cfg1.margin_ppm <= cfg2.margin_ppm,
        ;
    }
}

/// Widening the bracket (a larger margin under the same positive limit)
/// or asking for fewer repetitions never stops a vendor from being
/// flagged.
pub proof fn lemma_wider_settings_keep_flags(
    cfg1: StructuringConfig,
    cfg2: StructuringConfig,
    txs: Seq<TransactionView>,
    v: Seq<char>,
)
    requires
        cfg1.threshold_cents == cfg2.threshold_cents,
        cfg1.threshold_cents > 0,
        cfg1.margin_ppm <= cfg2.margin_ppm,
        cfg1.min_repetitions >= cfg2.min_repetitions,
        flags_vendor(structuring_findings(cfg1, txs), v),
    ensures
        flags_vendor(structuring_findings(cfg2, txs), v),
{
    let fs1 = structuring_findings(cfg1, txs);
    lemma_structuring_findings_exact(cfg1, txs);
    lemma_structuring_findings_exact(cfg2, txs);
    let k = choose|k: int|
        0 <= k < fs1.len() && ((#[trigger] fs1[k]).detail matches DetailView::Structuring {
            vendor,
            ..
        } && vendor == v);
    let g1 = choose|g: int|
        0 <= g < candidate_vendors(cfg1, txs).len() && vendor_candidates(cfg1, txs, g).len()
            >= cfg1.min_repetitions && #[trigger] fs1[k] == structuring_finding(
            cfg1,
            candidate_vendors(cfg1, txs)[g].0,
            vendor_candidates(cfg1, txs, g),
        );
    let ks1 = candidate_keys(cfg1, txs);
    let ks2 = candidate_keys(cfg2, txs);
    let key = candidate_vendors(cfg1, txs)[g1];
    assert(key.0 == v);
    lemma_first_keys_contains(ks1, key);
    assert(first_keys(ks1).contains(key));
    let i = choose|i: int| 0 <= i < ks1.len() && ks1[i] == key;
    assert(key.1 == 0i64);
    assert(key == (v, 0i64));
    lemma_first_key_has_positions(ks1, g1);
    lemma_bracket_count_is_group_size(cfg1, txs, v);
    lemma_bracket_count_is_group_size(cfg2, txs, v);
    lemma_bracket_count_grows(cfg1, cfg2, txs, v);
    if !ks2.contains(key) {
        lemma_positions_of_absent(ks2, key);
    }
    lemma_first_keys_contains(ks2, key);
    let g2 = choose|g: int| 0 <= g < first_keys(ks2).len() && first_keys(ks2)[g] == key;
    assert(vendor_candidates(cfg2, txs, g2).len() >= cfg2.min_repetitions);
    let f = structuring_finding(cfg2, candidate_vendors(cfg2, txs)[g2].0, vendor_candidates(cfg2, txs, g2));
    assert(structuring_findings(cfg2, txs).contains(f));
    let k2 = choose|k2: int| 0 <= k2 < structuring_findings(cfg2, txs).len() && structuring_findings(cfg2, txs)[k2] == f;
    assert(structuring_findings(cfg2, txs)[k2].detail matches DetailView::Structuring { vendor, .. } && vendor == v);
}

/// Every payment counted for a vendor lies below the limit and at or
/// above the limit less the margin.
pub proof fn lemma_structuring_bracket(cfg: StructuringConfig, txs: Seq<TransactionView>)
    ensures
        forall|g: int, j: int|
            0 <= g < candidate_vendors(cfg, txs).len() && 0 <= j < vendor_candidates(cfg, txs, g).len()
                ==> {
                let a = (#[trigger] vendor_candidates(cfg, txs, g)[j]).amount_cents;
                a < cfg.threshold_cents && a * 1_000_000 >= cfg.threshold_cents * (1_000_000
                    - cfg.margin_ppm)
            },
{
    assert forall|g: int, j: int|
        0 <= g < candidate_vendors(cfg, txs).len() && 0 <= j < vendor_candidates(cfg, txs, g).len()
            implies {
            let a = (#[trigger] vendor_candidates(cfg, txs, g)[j]).amount_cents;
            a < cfg.threshold_cents && a * 1_000_000 >= cfg.threshold_cents * (1_000_000
                - cfg.margin_ppm)
        } by {
        lemma_vendor_candidates_sound(cfg, txs, g);
    }
}

proof fn lemma_structuring_group_flagged(cfg: StructuringConfig, txs: Seq<TransactionView>, g: int)
    requires
        0 <= g < candidate_vendors(cfg, txs).len(),
        vendor_candidates(cfg, txs, g).len() >= cfg.min_repetitions,
    ensures
        exists|k: int|
            0 <= k < structuring_findings(cfg, txs).len() && {
                let ms = vendor_candidates(cfg, txs, g);
                let f = #[trigger] structuring_findings(cfg, txs)[k];
                &&& f.rule == AuditRule::SplitApprovalStructuring
                &&& f.detail matches DetailView::Structuring { vendor, count, .. } && vendor
                    == candidate_vendors(cfg, txs)[g].0 && count == ms.len() as usize
                &&& f.severity == if ms.len() >= 4 || sum_cents(ms) >= cfg.threshold_cents * 3 {
                        RiskSeverity::Critical
                    } else if ms.len() >= 3 || sum_cents(ms) >= cfg.threshold_cents * 2 {
                        RiskSeverity::High
                    } else {
                        RiskSeverity::Medium
                    }
            },
{
    lemma_structuring_findings_exact(cfg, txs);
    let ms = vendor_candidates(cfg, txs, g);
    let f = structuring_finding(cfg, candidate_vendors(cfg, txs)[g].0, ms);
    assert(structuring_findings(cfg, txs).contains(f));
    let k = choose|k: int| 0 <= k < structuring_findings(cfg, txs).len() && structuring_findings(cfg, txs)[k] == f;
    assert(structuring_findings(cfg, txs)[k] == f);
}

/// Every vendor with at least `min_repetitions` payments in the bracket is
/// flagged by a finding that counts them and is Critical from four
/// payments or three times the limit in total, High from three payments
/// or twice the limit, Medium otherwise.
pub proof fn lemma_structuring_severity(cfg: StructuringConfig, txs: Seq<TransactionView>)
    ensures
        forall|g: int|
            0 <= g < candidate_vendors(cfg, txs).len() && (#[trigger] vendor_candidates(cfg, txs, g)).len()
                >= cfg.min_repetitions ==> exists|k: int|
                0 <= k < structuring_findings(cfg, txs).len() && {
                    let ms = vendor_candidates(cfg, txs, g);
                    let f = #[trigger] structuring_findings(cfg, txs)[k];
                    &&& f.rule == AuditRule::SplitApprovalStructuring
                    &&& f.detail matches DetailView::Structuring { vendor, count, .. } && vendor
                        == candidate_vendors(cfg, txs)[g].0 && count == ms.len() as usize
                    &&& f.severity == if ms.len() >= 4 || sum_cents(ms) >= cfg.threshold_cents * 3 {
                        RiskSeverity::Critical
                    } else if ms.len() >= 3 || sum_cents(ms) >= cfg.threshold_cents * 2 {
                        RiskSeverity::High
                    } else {
                        RiskSeverity::Medium
                    }
                },
{
    assert forall|g: int|
        0 <= g < candidate_vendors(cfg, txs).len() && (#[trigger] vendor_candidates(cfg, txs, g)).len()
            >= cfg.min_repetitions implies exists|k: int|
            0 <= k < structuring_findings(cfg, txs).len() && {
                let ms = vendor_candidates(cfg, txs, g);
                let f = #[trigger] structuring_findings(cfg, txs)[k];
                &&& f.rule == AuditRule::SplitApprovalStructuring
                &&& f.detail matches DetailView::Structuring { vendor, count, .. } && vendor
                    == candidate_vendors(cfg, txs)[g].0 && count == ms.len() as usize
                &&& f.severity == if ms.len() >= 4 || sum_cents(ms) >= cfg.threshold_cents * 3 {
                        RiskSeverity::Critical
                    } else if ms.len() >= 3 || sum_cents(ms) >= cfg.threshold_cents * 2 {
                        RiskSeverity::High
                    } else {
                        RiskSeverity::Medium
                    }
            } by {
        lemma_structuring_group_flagged(cfg, txs, g);
    }
}

fn is_in_bracket(cfg: &StructuringConfig, amount_cents: i64) -> (r: bool)
    ensures
        r == in_bracket(*cfg, amount_cents),
{
    let t = cfg.threshold_cents as i128;
    let m = cfg.margin_ppm as i128;
    let a = amount_cents as i128;
    proof {
        assert(-0x8000_0000_0000_0000 <= t <= 0x7fff_ffff_ffff_ffff);
        assert(-0x8000_0000_0000_0000 + 1_000_000 <= 1_000_000 - m <= 0x8000_0000_0000_0000 + 1_000_000);
        assert(t * (1_000_000 - m) <= 0x8000_0000_0000_0000 * (0x8000_0000_0000_0000 + 1_000_000)) by (nonlinear_arith)
            requires
                -0x8000_0000_0000_0000 <= t <= 0x7fff_ffff_ffff_ffff,
                -0x8000_0000_0000_0000 + 1_000_000 <= 1_000_000 - m <= 0x8000_0000_0000_0000 + 1_000_000,
        ;
        assert(t * (1_000_000 - m) >= -0x8000_0000_0000_0000 * (0x8000_0000_0000_0000 + 1_000_000)) by (nonlinear_arith)
            requires
                -0x8000_0000_0000_0000 <= t <= 0x7fff_ffff_ffff_ffff,
                -0x8000_0000_0000_0000 + 1_000_000 <= 1_000_000 - m <= 0x8000_0000_0000_0000 + 1_000_000,
        ;
    }
    a < t && a * 1_000_000 >= t * (1_000_000 - m)
}

/// Flags vendors with repeated payments just below the approval limit.
pub fn detect_structuring(transactions: &[Transaction], config: &StructuringConfig) -> (r: Vec<
    AuditFinding,
>)
    ensures
        finding_views(r@) == structuring_findings(*config, tx_views(transactions@)),
{
    let ghost txs = tx_views(transactions@);
    let ghost cfg = *config;
    // Positions of the bracket transactions, and the key of each.
    let mut cand_idx: Vec<usize> = Vec::new();
    let mut keys: Vec<(String, i64)> = Vec::new();
    let mut i: usize = 0;
    while i < transactions.len()
        invariant
            i <= transactions@.len(),
            txs == tx_views(transactions@),
            cfg == *config,
            cand_idx@.len() == keys@.len(),
            cand_idx@.len() == candidates(cfg, txs.take(i as int)).len(),
            forall|p: int|
                0 <= p < cand_idx@.len() ==> #[trigger] cand_idx@[p] < transactions@.len()
                    && txs[cand_idx@[p] as int] == candidates(cfg, txs.take(i as int))[p],
            key_views(keys@) == candidates(cfg, txs.take(i as int)).map_values(
                |t: TransactionView| (vendor_key(t), 0i64),
            ),
        decreases transactions@.len() - i,
    {
        let ghost pre = txs.take(i as int);
        let ghost old_keys = keys@;
        proof {
            assert(txs.take(i + 1).drop_last() =~= pre);
            assert(txs.take(i + 1).last() == txs[i as int]);
        }
        let tx = &transactions[i];
        if is_in_bracket(config, tx.amount_cents) {
            let key = match &tx.vendor {
                Some(v) => v.clone(),
                None => String::from_str("UNKNOWN_VENDOR"),
            };
            cand_idx.push(i);
            keys.push((key, 0i64));
            proof {
                assert(key_views(keys@) =~= key_views(old_keys).push((vendor_key(tx@), 0i64)));
                assert(candidates(cfg, txs.take(i + 1)) == candidates(cfg, pre).push(tx@));
                assert(candidates(cfg, txs.take(i + 1)).map_values(
                    |t: TransactionView| (vendor_key(t), 0i64),
                ) =~= candidates(cfg, pre).map_values(
                    |t: TransactionView| (vendor_key(t), 0i64),
                ).push((vendor_key(tx@), 0i64)));
            }
        }
        i = i + 1;
    }
    proof {
        assert(txs.take(transactions@.len() as int) =~= txs);
    }
    let ghost cands = candidates(cfg, txs);
    let ghost ks = candidate_keys(cfg, txs);
    assert(key_views(keys@) == ks);
    let groups = group_positions(&keys);
    let mut findings: Vec<AuditFinding> = Vec::new();
    let mut g: usize = 0;
    while g < groups.len()
        invariant
            g <= groups@.len(),
            txs == tx_views(transactions@),
            cfg == *config,
            cands == candidates(cfg, txs),
            ks == candidate_keys(cfg, txs),
            ks == key_views(keys@),
            cand_idx@.len() == cands.len(),
            forall|p: int|
                0 <= p < cand_idx@.len() ==> #[trigger] cand_idx@[p] < transactions@.len()
                    && txs[cand_idx@[p] as int] == cands[p],
            groups@.len() == first_keys(ks).len(),
            forall|h: int|
                0 <= h < groups@.len() ==> (#[trigger] groups@[h])@.map_values(|q: usize| q as int)
                    == positions_of(ks, first_keys(ks)[h]),
            finding_views(findings@) == structuring_findings_upto(cfg, txs, g as int),
        decreases groups@.len() - g,
    {
        let members = &groups[g];
        let ghost ms = vendor_candidates(cfg, txs, g as int);
        let ghost pos = positions_of(ks, first_keys(ks)[g as int]);
        proof {
            lemma_positions_of_valid(ks, first_keys(ks)[g as int]);
            lemma_first_key_has_positions(ks, g as int);
            assert(members@.len() == pos.len());
            assert forall|j: int| 0 <= j < members@.len() implies #[trigger] members@[j] < cand_idx@.len()
                && ms[j] == txs[cand_idx@[members@[j] as int] as int] by {
                assert(members@.map_values(|q: usize| q as int)[j] == pos[j]);
            }
        }
        let ghost before = findings@;
        if members.len() >= config.min_repetitions && members.len() > 0 {
            let mut ids: Vec<String> = Vec::new();
            let mut lines: Vec<usize> = Vec::new();
            let mut total: i128 = 0;
            let mut j: usize = 0;
            while j < members.len()
                invariant
                    j <= members@.len(),
                    members@.len() == ms.len(),
                    txs == tx_views(transactions@),
                    forall|q: int| 0 <= q < members@.len() ==> #[trigger] members@[q] < cand_idx@.len()
                        && ms[q] == txs[cand_idx@[members@[q] as int] as int],
                    forall|p: int|
                        0 <= p < cand_idx@.len() ==> #[trigger] cand_idx@[p] < transactions@.len(),
                    string_views(ids@) == ms.take(j as int).map_values(|t: TransactionView| t.id),
                    lines@ == ms.take(j as int).map_values(|t: TransactionView| t.raw_line),
                    total == sum_cents(ms.take(j as int)),
                    -0x8000_0000_0000_0000 * j <= total <= 0x7fff_ffff_ffff_ffff * j,
                decreases members@.len() - j,
            {
                let tx = &transactions[cand_idx[members[j]]];
                proof {
                    assert(ms.take(j + 1).drop_last() =~= ms.take(j as int));
                    assert(ms.take(j + 1).last() == tx@);
                    assert(j < 0x1_0000_0000_0000_0000);
                }
                let ghost old_ids = ids@;
                let ghost old_lines = lines@;
                ids.push(tx.id.clone());
                lines.push(tx.raw_line);
                total = total + tx.amount_cents as i128;
                proof {
                    assert(string_views(ids@) =~= string_views(old_ids).push(tx@.id));
                    assert(ms.take(j + 1).map_values(|t: TransactionView| t.id) =~= ms.take(
                        j as int,
                    ).map_values(|t: TransactionView| t.id).push(tx@.id));
                    assert(ms.take(j + 1).map_values(|t: TransactionView| t.raw_line) =~= ms.take(
                        j as int,
                    ).map_values(|t: TransactionView| t.raw_line).push(tx@.raw_line));
                }
                j = j + 1;
            }
            proof {
                assert(ms.take(ms.len() as int) =~= ms);
            }
            let count = members.len();
            let threshold = config.threshold_cents as i128;
            let severity = if count >= 4 || total >= threshold * 3 {
                RiskSeverity::Critical
            } else if count >= 3 || total >= threshold * 2 {
                RiskSeverity::High
            } else {
                RiskSeverity::Medium
            };
            let joined = join_strings(&ids, ", ");
            let first_line = lines[0];
            let vendor = keys[cand_idx_first(members)].0.clone();
            proof {
                assert(ks[members@[0] as int] == first_keys(ks)[g as int]) by {
                    assert(members@.map_values(|q: usize| q as int)[0] == pos[0]);
                }
                assert(ks[members@[0] as int] == (keys@[members@[0] as int].0@, keys@[members@[0] as int].1));
            }
            let f = AuditFinding {
                rule: AuditRule::SplitApprovalStructuring,
                severity,
                transaction_id: Some(joined),
                exposure_cents: total,
                raw_line: Some(first_line),
                detail: FindingDetail::Structuring {
                    vendor,
                    count,
                    threshold_cents: config.threshold_cents,
                    transaction_ids: ids,
                    raw_lines: lines,
                },
            };
            findings.push(f);
            proof {
                assert(f@ == structuring_finding(cfg, first_keys(ks)[g as int].0, ms));
                assert(finding_views(findings@) =~= finding_views(before).push(f@));
            }
        } else {
            proof {
                lemma_positions_of_valid(ks, first_keys(ks)[g as int]);
            }
        }
        g = g + 1;
    }
    findings
}

/// The first member of a non-empty group.
fn cand_idx_first(members: &Vec<usize>) -> (r: usize)
    requires
        members@.len() > 0,
    ensures
        r == members@[0],
{
    members[0]
}

} // verus!
