//! Segregation of duties: entries created and approved by the same person.
use vstd::prelude::*;
use crate::models::{opt_view, AuditFinding, AuditRule, FindingDetail, FindingView, DetailView, RiskSeverity, Transaction, TransactionView, tx_views, finding_views};
use crate::text::{chars_eq_ignore_ascii_case, eq_ignore_ascii_case, chars_of, clone_opt, occurs_at, trim, trimmed, to_upper, uppercased};

verus! {

/// Markers that identify service and batch credentials.
pub open spec fn system_markers() -> Seq<Seq<char>> {
    seq![
        "SYSTEM"@,
        "SYS"@,
        "AUTO"@,
        "CRON"@,
        "BATCH"@,
        "INTERFACE"@,
        "INTEGRATION"@,
        "MIGRATION"@,
        "DAEMON"@,
        "SVC"@,
        "BOT"@,
        "SCHEDULED"@,
    ]
}

/// A character that separates the words of a user name: anything but an
/// ASCII letter or digit.
pub open spec fn is_name_separator(c: char) -> bool {
    !(('A' <= c && c <= 'Z') || ('a' <= c && c <= 'z') || ('0' <= c && c <= '9'))
}

/// `marker` starts a word at position `i` of `s`: it stands there at the
/// start of `s` or after a separator, whatever follows it (BATCH01,
/// BATCHJOB, AUTO_DEPR, svc-payables, ap_bot), but not inside a word
/// (ABBOTT, ROBOT).
pub open spec fn marker_word_at(s: Seq<char>, marker: Seq<char>, i: int) -> bool {
    &&& 0 <= i && i + marker.len() <= s.len()
    &&& s.subrange(i, i + marker.len()) == marker
    &&& (i == 0 || is_name_separator(s[i - 1]))
}

/// A user name that belongs to an automated account: one of the words of
/// its trimmed, upper-cased form starts with a system marker.
pub open spec fn is_system_name(name: Seq<char>) -> bool {
    exists|k: int, i: int|
        0 <= k < system_markers().len() && #[trigger] marker_word_at(
            uppercased(trimmed(name)),
            system_markers()[k],
            i,
        )
}

/// A name is an automated account exactly when one of the words of its
/// trimmed, upper-cased form starts with SYSTEM, SYS, AUTO, CRON, BATCH,
/// INTERFACE, INTEGRATION, MIGRATION, DAEMON, SVC, BOT or SCHEDULED; no
/// other name (ADMIN, for one) is filtered out.
pub proof fn lemma_system_names_are_the_listed_markers(name: Seq<char>)
    ensures
        is_system_name(name) <==> {
            let u = uppercased(trimmed(name));
            ||| (exists|i: int| #[trigger] marker_word_at(u, "SYSTEM"@, i))
            ||| (exists|i: int| #[trigger] marker_word_at(u, "SYS"@, i))
            ||| (exists|i: int| #[trigger] marker_word_at(u, "AUTO"@, i))
            ||| (exists|i: int| #[trigger] marker_word_at(u, "CRON"@, i))
            ||| (exists|i: int| #[trigger] marker_word_at(u, "BATCH"@, i))
            ||| (exists|i: int| #[trigger] marker_word_at(u, "INTERFACE"@, i))
            ||| (exists|i: int| #[trigger] marker_word_at(u, "INTEGRATION"@, i))
            ||| (exists|i: int| #[trigger] marker_word_at(u, "MIGRATION"@, i))
            ||| (exists|i: int| #[trigger] marker_word_at(u, "DAEMON"@, i))
            ||| (exists|i: int| #[trigger] marker_word_at(u, "SVC"@, i))
            ||| (exists|i: int| #[trigger] marker_word_at(u, "BOT"@, i))
            ||| (exists|i: int| #[trigger] marker_word_at(u, "SCHEDULED"@, i))
        },
{
    let u = uppercased(trimmed(name));
    if is_system_name(name) {
        let (k, i) = choose|k: int, i: int|
            0 <= k < system_markers().len() && #[trigger] marker_word_at(u, system_markers()[k], i);
        if k == 0 {
            assert(marker_word_at(u, "SYSTEM"@, i));
        } else if k == 1 {
            assert(marker_word_at(u, "SYS"@, i));
        } else if k == 2 {
            assert(marker_word_at(u, "AUTO"@, i));
        } else if k == 3 {
            assert(marker_word_at(u, "CRON"@, i));
        } else if k == 4 {
            assert(marker_word_at(u, "BATCH"@, i));
        } else if k == 5 {
            assert(marker_word_at(u, "INTERFACE"@, i));
        } else if k == 6 {
            assert(marker_word_at(u, "INTEGRATION"@, i));
        } else if k == 7 {
            assert(marker_word_at(u, "MIGRATION"@, i));
        } else if k == 8 {
            assert(marker_word_at(u, "DAEMON"@, i));
        } else if k == 9 {
            assert(marker_word_at(u, "SVC"@, i));
        } else if k == 10 {
            assert(marker_word_at(u, "BOT"@, i));
        } else if k == 11 {
            assert(marker_word_at(u, "SCHEDULED"@, i));
        }
    }
    if exists|i: int| #[trigger] marker_word_at(u, "SYSTEM"@, i) {
        let i = choose|i: int| #[trigger] marker_word_at(u, "SYSTEM"@, i);
        assert(marker_word_at(u, system_markers()[0], i));
    }
    if exists|i: int| #[trigger] marker_word_at(u, "SYS"@, i) {
        let i = choose|i: int| #[trigger] marker_word_at(u, "SYS"@, i);
        assert(marker_word_at(u, system_markers()[1], i));
    }
    if exists|i: int| #[trigger] marker_word_at(u, "AUTO"@, i) {
        let i = choose|i: int| #[trigger] marker_word_at(u, "AUTO"@, i);
        assert(marker_word_at(u, system_markers()[2], i));
    }
    if exists|i: int| #[trigger] marker_word_at(u, "CRON"@, i) {
        let i = choose|i: int| #[trigger] marker_word_at(u, "CRON"@, i);
        assert(marker_word_at(u, system_markers()[3], i));
    }
    if exists|i: int| #[trigger] marker_word_at(u, "BATCH"@, i) {
        let i = choose|i: int| #[trigger] marker_word_at(u, "BATCH"@, i);
        assert(marker_word_at(u, system_markers()[4], i));
    }
    if exists|i: int| #[trigger] marker_word_at(u, "INTERFACE"@, i) {
        let i = choose|i: int| #[trigger] marker_word_at(u, "INTERFACE"@, i);
        assert(marker_word_at(u, system_markers()[5], i));
    }
    if exists|i: int| #[trigger] marker_word_at(u, "INTEGRATION"@, i) {
        let i = choose|i: int| #[trigger] marker_word_at(u, "INTEGRATION"@, i);
        assert(marker_word_at(u, system_markers()[6], i));
    }
    if exists|i: int| #[trigger] marker_word_at(u, "MIGRATION"@, i) {
        let i = choose|i: int| #[trigger] marker_word_at(u, "MIGRATION"@, i);
        assert(marker_word_at(u, system_markers()[7], i));
    }
    if exists|i: int| #[trigger] marker_word_at(u, "DAEMON"@, i) {
        let i = choose|i: int| #[trigger] marker_word_at(u, "DAEMON"@, i);
        assert(marker_word_at(u, system_markers()[8], i));
    }
    if exists|i: int| #[trigger] marker_word_at(u, "SVC"@, i) {
        let i = choose|i: int| #[trigger] marker_word_at(u, "SVC"@, i);
        assert(marker_word_at(u, system_markers()[9], i));
    }
    if exists|i: int| #[trigger] marker_word_at(u, "BOT"@, i) {
        let i = choose|i: int| #[trigger] marker_word_at(u, "BOT"@, i);
        assert(marker_word_at(u, system_markers()[10], i));
    }
    if exists|i: int| #[trigger] marker_word_at(u, "SCHEDULED"@, i) {
        let i = choose|i: int| #[trigger] marker_word_at(u, "SCHEDULED"@, i);
        assert(marker_word_at(u, system_markers()[11], i));
    }
}

fn is_name_separator_exec(c: char) -> (r: bool)
    ensures
        r == is_name_separator(c),
{
    !(('A' <= c && c <= 'Z') || ('a' <= c && c <= 'z') || ('0' <= c && c <= '9'))
}

/// Whether `marker` starts some word of `s`.
fn has_marker_word(s: &Vec<char>, marker: &Vec<char>) -> (r: bool)
    ensures
        r == exists|i: int| #[trigger] marker_word_at(s@, marker@, i),
{
    if marker.len() > s.len() {
        return false;
    }
    let s_len = s.len();
    let last = s_len - marker.len();
    let mut i: usize = 0;
    while i <= last
        invariant
            s_len == s@.len(),
            last == s@.len() - marker@.len(),
            marker@.len() <= s@.len(),
            forall|t: int| 0 <= t < i ==> !#[trigger] marker_word_at(s@, marker@, t),
        decreases last + 1 - i,
    {
        if occurs_at(s, marker, i) && (i == 0 || is_name_separator_exec(s[i - 1])) {
            assert(marker_word_at(s@, marker@, i as int));
            return true;
        }
        if i == last {
            return false;
        }
        i = i + 1;
    }
    false
}

/// Whether `name` is a service or batch credential: one of its words
/// starts with SYSTEM, SYS, AUTO, CRON, BATCH, INTERFACE, INTEGRATION,
/// MIGRATION, DAEMON, SVC, BOT or SCHEDULED, in any case.
pub fn is_system_account(name: &str) -> (r: bool)
    ensures
        r == is_system_name(name@),
{
    let upper = to_upper(trim(name).as_str());
    let upper_chars = chars_of(upper.as_str());
    let markers: [&str; 12] = [
        "SYSTEM",
        "SYS",
        "AUTO",
        "CRON",
        "BATCH",
        "INTERFACE",
        "INTEGRATION",
        "MIGRATION",
        "DAEMON",
        "SVC",
        "BOT",
        "SCHEDULED",
    ];
    let ghost spec_markers = system_markers();
    assert(forall|k: int| 0 <= k < 12 ==> (#[trigger] markers@[k])@ == spec_markers[k]);
    let mut k: usize = 0;
    while k < 12
        invariant
            k <= 12,
            spec_markers == system_markers(),
            upper_chars@ == uppercased(trimmed(name@)),
            forall|t: int| 0 <= t < 12 ==> (#[trigger] markers@[t])@ == spec_markers[t],
            forall|t: int, i: int|
                0 <= t < k ==> !#[trigger] marker_word_at(upper_chars@, spec_markers[t], i),
        decreases 12 - k,
    {
        let marker = chars_of(markers[k]);
        if has_marker_word(&upper_chars, &marker) {
            return true;
        }
        k = k + 1;
    }
    false
}

/// Severity of a self-approved entry: Critical from 10,000.00, High from
/// 2,500.00, Medium below.
pub open spec fn sod_severity(amount_cents: i64) -> RiskSeverity {
    if amount_cents >= 1_000_000 {
        RiskSeverity::Critical
    } else if amount_cents >= 250_000 {
        RiskSeverity::High
    } else {
        RiskSeverity::Medium
    }
}

/// A transaction whose trimmed maker and checker are present, non-empty,
/// equal up to ASCII case, and not an automated account.
pub open spec fn is_sod_breach(t: TransactionView) -> bool {
    match (t.created_by, t.approved_by) {
        (Some(maker), Some(checker)) => {
            &&& trimmed(maker).len() > 0
            &&& trimmed(checker).len() > 0
            &&& eq_ignore_ascii_case(trimmed(maker), trimmed(checker))
            &&& !is_system_name(trimmed(maker))
        },
        _ => false,
    }
}

/// The finding raised for a self-approved transaction.
pub open spec fn sod_finding(t: TransactionView) -> FindingView {
    FindingView {
        rule: AuditRule::MakerCheckerSodCollision,
        severity: sod_severity(t.amount_cents),
        transaction_id: Some(t.id),
        exposure_cents: t.amount_cents as i128,
        raw_line: Some(t.raw_line),
        detail: DetailView::SegregationOfDuties {
            user_id: trimmed(t.created_by.unwrap()),
            account: t.account,
            vendor: t.vendor,
        },
    }
}

/// The findings for a sequence of transactions, in their order.
pub open spec fn sod_findings(txs: Seq<TransactionView>) -> Seq<FindingView>
    decreases txs.len(),
{
    if txs.len() == 0 {
        Seq::empty()
    } else if is_sod_breach(txs.last()) {
        sod_findings(txs.drop_last()).push(sod_finding(txs.last()))
    } else {
        sod_findings(txs.drop_last())
    }
}

/// The self-approval findings are exactly the findings of the breaching
/// transactions, one each, in ledger order.
pub proof fn lemma_sod_findings_are_breaches(txs: Seq<TransactionView>)
    ensures
        sod_findings(txs) == txs.filter(|t: TransactionView| is_sod_breach(t)).map_values(
            |t: TransactionView| sod_finding(t),
        ),
    decreases txs.len(),
{
    reveal(Seq::filter);
    if txs.len() > 0 {
        lemma_sod_findings_are_breaches(txs.drop_last());
        let f = txs.drop_last().filter(|t: TransactionView| is_sod_breach(t));
        if is_sod_breach(txs.last()) {
            assert(f.push(txs.last()).map_values(|t: TransactionView| sod_finding(t)) =~= f.map_values(
                |t: TransactionView| sod_finding(t),
            ).push(sod_finding(txs.last())));
        }
    }
}

/// No self-approval finding names an automated account or a blank user:
/// every finding's user is a non-empty name that is not a system name.
pub proof fn lemma_system_accounts_never_flagged(txs: Seq<TransactionView>)
    ensures
        forall|k: int|
            0 <= k < sod_findings(txs).len() ==> ((#[trigger] sod_findings(txs)[k]).detail matches DetailView::SegregationOfDuties {
                user_id,
                ..
            } && user_id.len() > 0 && !is_system_name(user_id)),
    decreases txs.len(),
{
    if txs.len() > 0 {
        let prev = txs.drop_last();
        lemma_system_accounts_never_flagged(prev);
        assert forall|k: int| 0 <= k < sod_findings(txs).len() implies ((#[trigger] sod_findings(
            txs,
        )[k]).detail matches DetailView::SegregationOfDuties { user_id, .. } && user_id.len() > 0
            && !is_system_name(user_id)) by {
            if k < sod_findings(prev).len() {
                assert(sod_findings(txs)[k] == sod_findings(prev)[k]);
            }
        }
    }
}

/// Each self-approval finding carries its transaction's id, line and
/// amount, and is Critical from 10,000.00, High from 2,500.00 and Medium
/// below; there is one per breaching transaction, in ledger order.
pub proof fn lemma_sod_findings_severity(txs: Seq<TransactionView>)
    ensures
        sod_findings(txs).len() == txs.filter(|t: TransactionView| is_sod_breach(t)).len(),
        forall|k: int|
            0 <= k < sod_findings(txs).len() ==> {
                let t = txs.filter(|t: TransactionView| is_sod_breach(t))[k];
                let f = #[trigger] sod_findings(txs)[k];
                &&& f.rule == AuditRule::MakerCheckerSodCollision
                &&& f.transaction_id == Some(t.id)
                &&& f.raw_line == Some(t.raw_line)
                &&& f.exposure_cents == t.amount_cents
                &&& f.severity == if t.amount_cents >= 1_000_000 {
                    RiskSeverity::Critical
                } else if t.amount_cents >= 250_000 {
                    RiskSeverity::High
                } else {
                    RiskSeverity::Medium
                }
            },
    decreases txs.len(),
{
    reveal(Seq::filter);
    if txs.len() > 0 {
        lemma_sod_findings_severity(txs.drop_last());
    }
}

/// Severity never falls as the amount rises.
pub proof fn lemma_sod_severity_monotone(a: i64, b: i64)
    requires
        a <= b,
    ensures
        sod_severity(a).rank() <= sod_severity(b).rank(),
{
}

fn sod_severity_of(amount_cents: i64) -> (r: RiskSeverity)
    ensures
        r == sod_severity(amount_cents),
{
    if amount_cents >= 1_000_000 {
        RiskSeverity::Critical
    } else if amount_cents >= 250_000 {
        RiskSeverity::High
    } else {
        RiskSeverity::Medium
    }
}

/// Flags entries that were created and approved by the same user, leaving
/// out automated system accounts.
pub fn detect_sod_breaches(transactions: &[Transaction]) -> (r: Vec<AuditFinding>)
    ensures
        finding_views(r@) == sod_findings(tx_views(transactions@)),
{
    let ghost txs = tx_views(transactions@);
    let mut findings: Vec<AuditFinding> = Vec::new();
    let mut i: usize = 0;
    while i < transactions.len()
        invariant
            i <= transactions@.len(),
            txs == tx_views(transactions@),
            finding_views(findings@) == sod_findings(txs.take(i as int)),
        decreases transactions@.len() - i,
    {
        let tx = &transactions[i];
        proof {
            assert(txs.take(i + 1).drop_last() =~= txs.take(i as int));
            assert(txs.take(i + 1).last() == tx@);
        }
        let ghost before = findings@;
        match (&tx.created_by, &tx.approved_by) {
            (Some(maker), Some(checker)) => {
                let clean_maker = trim(maker.as_str());
                let clean_checker = trim(checker.as_str());
                let mc = chars_of(clean_maker.as_str());
                let cc = chars_of(clean_checker.as_str());
                if mc.len() > 0 && cc.len() > 0 && chars_eq_ignore_ascii_case(&mc, &cc)
                    && !is_system_account(clean_maker.as_str()) {
                    let f = AuditFinding {
                        rule: AuditRule::MakerCheckerSodCollision,
                        severity: sod_severity_of(tx.amount_cents),
                        transaction_id: Some(tx.id.clone()),
                        exposure_cents: tx.amount_cents as i128,
                        raw_line: Some(tx.raw_line),
                        detail: FindingDetail::SegregationOfDuties {
                            user_id: clean_maker,
                            account: clone_opt(&tx.account),
                            vendor: clone_opt(&tx.vendor),
                        },
                    };
                    findings.push(f);
                    proof {
                        assert(f@ == sod_finding(tx@));
                        assert(finding_views(findings@) =~= finding_views(before).push(f@));
                    }
                }
            },
            _ => {},
        }
        i = i + 1;
    }
    proof {
        assert(txs.take(transactions@.len() as int) =~= txs);
    }
    findings
}

} // verus!
