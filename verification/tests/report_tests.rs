use audit_core::benford::{
    digit_spike_finding, population_nonconformity_finding, tally_benford, BenfordEligibility,
};
use audit_core::models::{
    AuditFinding, AuditRule, FindingDetail, RiskSeverity, RuleSummary, SeveritySummary, Transaction,
};
use audit_core::report::{
    add_capped, rank_findings, rank_rule_summaries, summarize_rules, summarize_severities,
};
use audit_core::run_full_audit;
use audit_core::schema::{parse_amount_cents, ColumnMapping};
use audit_core::structuring::StructuringConfig;

fn finding(rule: AuditRule, severity: RiskSeverity, exposure_cents: i128, tag: &str) -> AuditFinding {
    AuditFinding {
        rule,
        severity,
        transaction_id: Some(tag.to_string()),
        exposure_cents,
        raw_line: None,
        detail: FindingDetail::RoundSum { account: None, vendor: None, maker: None, description: None },
    }
}

fn tags(fs: &[AuditFinding]) -> Vec<String> {
    fs.iter().map(|f| f.transaction_id.clone().unwrap()).collect()
}

fn parse(s: &str) -> Option<i64> {
    let chars: Vec<char> = s.chars().collect();
    parse_amount_cents(&chars)
}

// ---- amounts ----

#[test]
fn amounts_parse_to_cents() {
    assert_eq!(parse("1234.56"), Some(123_456));
    assert_eq!(parse("0"), Some(0));
    assert_eq!(parse("-5"), Some(-500));
    assert_eq!(parse("+7.5"), Some(750));
    assert_eq!(parse(".5"), Some(50));
    assert_eq!(parse("5."), Some(500));
    assert_eq!(parse("0.125"), Some(13));
    assert_eq!(parse("0.124"), Some(12));
    assert_eq!(parse("007"), Some(700));
    assert_eq!(parse("92233720368547758.07"), Some(i64::MAX));
    assert_eq!(parse("-92233720368547758.08"), Some(i64::MIN));
}

#[test]
fn amounts_in_exponent_notation() {
    assert_eq!(parse("1e3"), Some(100_000));
    assert_eq!(parse("1E3"), Some(100_000));
    assert_eq!(parse("1.5e2"), Some(15_000));
    assert_eq!(parse("-1.25e1"), Some(-1_250));
    assert_eq!(parse("1e+2"), Some(10_000));
    assert_eq!(parse("2e-2"), Some(2));
    assert_eq!(parse("5e-3"), Some(1));
    assert_eq!(parse("4e-3"), Some(0));
    assert_eq!(parse("12345e-4"), Some(123));
    assert_eq!(parse("1.e1"), Some(1_000));
    assert_eq!(parse(".5e1"), Some(500));
    assert_eq!(parse("0e999999999999999999999999"), Some(0));
    assert_eq!(parse("1e-999999999999999999999999"), Some(0));
    assert_eq!(parse("1e999999999999999999999999"), None);
    assert_eq!(parse("1e17"), None);
    assert_eq!(parse("9.2233720368547758e16"), Some(9_223_372_036_854_775_800));
    assert_eq!(parse("1e"), None);
    assert_eq!(parse("e5"), None);
    assert_eq!(parse(".e1"), None);
    assert_eq!(parse("1e5.2"), None);
    assert_eq!(parse("1e--2"), None);
}

#[test]
fn amounts_that_are_not_numbers_are_refused() {
    assert_eq!(parse(""), None);
    assert_eq!(parse("."), None);
    assert_eq!(parse("-"), None);
    assert_eq!(parse("+."), None);
    assert_eq!(parse("12a"), None);
    assert_eq!(parse("1.2.3"), None);
    assert_eq!(parse("inf"), None);
    assert_eq!(parse("NaN"), None);
    assert_eq!(parse("--1"), None);
    assert_eq!(parse("92233720368547758.08"), None);
    assert_eq!(parse("99999999999999999999"), None);
}

// ---- column mapping and rows ----

#[test]
fn empty_mapping_by_default() {
    let m = ColumnMapping::default();
    assert_eq!(m.id_col, None);
    assert_eq!(m.amount_col, None);
    assert_eq!(m.description_col, None);
}

#[test]
fn headers_map_to_fields() {
    let m = ColumnMapping::detect_from_headers(&[
        "Trans ID",
        " AMOUNT ",
        "Posting-Date",
        "Vendor Name",
        "GL.Account",
        "Created By",
        "Approved By",
        "Journal Type",
        "Narration",
    ]);
    assert_eq!(m.id_col, Some(0));
    assert_eq!(m.amount_col, Some(1));
    assert_eq!(m.date_col, Some(2));
    assert_eq!(m.vendor_col, Some(3));
    assert_eq!(m.account_col, Some(4));
    assert_eq!(m.created_by_col, Some(5));
    assert_eq!(m.approved_by_col, Some(6));
    assert_eq!(m.entry_type_col, Some(7));
    assert_eq!(m.description_col, Some(8));
}

#[test]
fn header_matching_prefers_exact_aliases() {
    // "user_id" is a maker alias, though it contains "id".
    let m = ColumnMapping::detect_from_headers(&["user_id", "amount", "total"]);
    assert_eq!(m.created_by_col, Some(0));
    assert_eq!(m.id_col, None);
    // Only the first amount column is used; the second is left unassigned.
    assert_eq!(m.amount_col, Some(1));
    let none = ColumnMapping::detect_from_headers(&["foo", "bar"]);
    assert_eq!(none, ColumnMapping::default());
    // A header that only contains an alias still maps by containment.
    let c = ColumnMapping::detect_from_headers(&["customer_id", "amount"]);
    assert_eq!(c.id_col, Some(0));
}

#[test]
fn vendor_id_and_invoice_number() {
    let m = ColumnMapping::detect_from_headers(&["vendor_id", "invoice_no", "amount"]);
    assert_eq!(m.vendor_col, Some(0));
    assert_eq!(m.id_col, Some(1));
    assert_eq!(m.amount_col, Some(2));
}

#[test]
fn user_id_is_the_maker() {
    let m = ColumnMapping::detect_from_headers(&["user_id", "approved_by", "amount"]);
    assert_eq!(m.created_by_col, Some(0));
    assert_eq!(m.approved_by_col, Some(1));
    assert_eq!(m.amount_col, Some(2));
    assert_eq!(m.id_col, None);
}

#[test]
fn every_listed_alias_maps_to_its_field() {
    let fields = |m: &ColumnMapping| {
        vec![
            m.id_col,
            m.amount_col,
            m.date_col,
            m.vendor_col,
            m.account_col,
            m.created_by_col,
            m.approved_by_col,
            m.entry_type_col,
            m.description_col,
        ]
    };
    let table: Vec<(usize, Vec<&str>)> = vec![
        (1, vec!["amount", "amt", "total", "net_amount", "debit", "line_amount", "payment_amount", "invoice_total"]),
        (0, vec!["id", "trans_id", "doc_num", "voucher", "voucher_no", "inv_num", "invoice_no", "reference"]),
        (2, vec!["date", "posting_date", "doc_date", "trans_date", "gl_date", "effective_date", "entry_date"]),
        (3, vec!["vendor", "vendor_id", "vendor_name", "supplier", "payee", "creditor", "beneficiary"]),
        (4, vec!["account", "acct", "gl_account", "cost_center", "account_code", "account_num"]),
        (5, vec!["created_by", "maker", "entered_by", "user", "user_id", "operator", "prepared_by"]),
        (6, vec!["approved_by", "checker", "posted_by", "authorizer", "signed_by"]),
        (7, vec!["type", "entry_type", "source", "journal_type", "doc_type", "category"]),
    ];
    for (field, aliases) in table {
        for a in aliases {
            let got = fields(&ColumnMapping::detect_from_headers(&[a]));
            for (k, col) in got.iter().enumerate() {
                let want = if k == field { Some(0) } else { None };
                assert_eq!(*col, want, "alias {} field {}", a, k);
            }
        }
    }
}

#[test]
fn rows_are_trimmed_and_amounts_cleaned() {
    let m = ColumnMapping::detect_from_headers(&["id", "amount", "vendor", "maker", "checker"]);
    let t = m.parse_row(&["  TX-9 ", " $1,250.50 ", " Acme ", "joe", "JOE"], 7).unwrap();
    assert_eq!(t.id, "TX-9");
    assert_eq!(t.amount_cents, 125_050);
    assert_eq!(t.vendor.as_deref(), Some("Acme"));
    assert_eq!(t.created_by.as_deref(), Some("joe"));
    assert_eq!(t.approved_by.as_deref(), Some("JOE"));
    assert_eq!(t.date, None);
    assert_eq!(t.raw_line, 7);
    let euro = m.parse_row(&["E", "€ 2 000", "V", "a", "b"], 8).unwrap();
    assert_eq!(euro.amount_cents, 200_000);
    let exp = m.parse_row(&["X", "1e3", "V", "a", "b"], 9).unwrap();
    assert_eq!(exp.amount_cents, 100_000);
}

#[test]
fn rows_without_identifier_are_named_by_line() {
    let m = ColumnMapping::detect_from_headers(&["amount", "vendor"]);
    let t = m.parse_row(&["10", "V"], 3).unwrap();
    assert_eq!(t.id, "ROW-3");
    assert_eq!(t.amount_cents, 1_000);
    let short = m.parse_row(&["10"], 42).unwrap();
    assert_eq!(short.id, "ROW-42");
    assert_eq!(short.vendor, None);
}

#[test]
fn rows_without_readable_amount_are_skipped() {
    let m = ColumnMapping::detect_from_headers(&["id", "amount"]);
    assert!(m.parse_row(&["A", "n/a"], 2).is_none());
    assert!(m.parse_row(&["A"], 2).is_none());
    assert!(m.parse_row(&["A", ""], 2).is_none());
    let no_amount = ColumnMapping::detect_from_headers(&["id", "vendor"]);
    assert!(no_amount.parse_row(&["A", "V"], 2).is_none());
}

// ---- Benford tallies ----

#[test]
fn benford_too_few_amounts() {
    let empty = tally_benford(&[]);
    assert_eq!(empty.population, 0);
    assert_eq!(empty.eligibility, BenfordEligibility::TooFewAmounts);
    assert_eq!(empty.min_cents, 0);
    assert_eq!(empty.max_cents, 0);

    let mut few: Vec<i64> = vec![50, -500, 0];
    for i in 0..99 {
        few.push(1_000 + i);
    }
    let t = tally_benford(&few);
    assert_eq!(t.population, 99);
    assert_eq!(t.eligibility, BenfordEligibility::TooFewAmounts);
    assert_eq!(t.min_cents, 1_000);
    assert_eq!(t.max_cents, 1_098);
}

#[test]
fn benford_narrow_and_eligible_ranges() {
    let mut narrow: Vec<i64> = vec![101];
    narrow.extend(std::iter::repeat(100_000).take(99));
    let t = tally_benford(&narrow);
    assert_eq!(t.population, 100);
    assert_eq!(t.min_cents, 101);
    assert_eq!(t.max_cents, 100_000);
    assert_eq!(t.eligibility, BenfordEligibility::NarrowRange);

    let mut wide: Vec<i64> = vec![100];
    wide.extend(std::iter::repeat(100_000).take(99));
    let t = tally_benford(&wide);
    assert_eq!(t.eligibility, BenfordEligibility::Eligible);
    assert_eq!(t.first_digit_counts[1], 100);
    assert_eq!(t.first_digit_counts.iter().sum::<usize>(), 100);
    // 1.00 has no second digit; 1,000.00 has second digit 0.
    assert_eq!(t.second_digit_counts[0], 99);
    assert_eq!(t.second_digit_counts.iter().sum::<usize>(), 99);
}

#[test]
fn benford_digits_of_amounts() {
    let t = tally_benford(&[12_345, 550, 500, 505, 9_999_999, 99]);
    assert_eq!(t.population, 5);
    assert_eq!(t.first_digit_counts, vec![0, 1, 0, 0, 0, 3, 0, 0, 0, 1]);
    assert_eq!(t.second_digit_counts, vec![1, 0, 1, 0, 0, 1, 0, 0, 0, 1]);
}

#[test]
fn benford_findings_built_from_tallies() {
    let f = digit_spike_finding(1, 40, 100, 100_000, true);
    assert_eq!(f.rule, AuditRule::BenfordDigitSpike);
    assert_eq!(f.severity, RiskSeverity::High);
    assert_eq!(f.exposure_cents, 1_001_000);
    assert_eq!(f.transaction_id, None);
    assert!(matches!(f.detail, FindingDetail::BenfordDigit { digit: 1, count: 40 }));

    let g = digit_spike_finding(7, 3, 101, 200, false);
    assert_eq!(g.severity, RiskSeverity::Medium);
    assert_eq!(g.exposure_cents, 226);
    assert_eq!(digit_spike_finding(2, 1, -3, -2, false).exposure_cents, -1);
    assert_eq!(digit_spike_finding(2, 0, 500, 900, false).exposure_cents, 0);

    let p = population_nonconformity_finding(250);
    assert_eq!(p.rule, AuditRule::BenfordPopulationNonconformity);
    assert_eq!(p.severity, RiskSeverity::Medium);
    assert_eq!(p.exposure_cents, 0);
    assert!(matches!(p.detail, FindingDetail::BenfordPopulation { population: 250 }));
}

#[test]
fn benford_tallies_ignore_order() {
    let a: Vec<i64> = (0..150).map(|i| 100 + i * 7_919 % 1_000_000).collect();
    let mut b = a.clone();
    b.reverse();
    b.rotate_left(37);
    let ta = tally_benford(&a);
    let tb = tally_benford(&b);
    assert_eq!(ta.population, tb.population);
    assert_eq!(ta.first_digit_counts, tb.first_digit_counts);
    assert_eq!(ta.second_digit_counts, tb.second_digit_counts);
    assert_eq!(ta.min_cents, tb.min_cents);
    assert_eq!(ta.max_cents, tb.max_cents);
    assert_eq!(ta.eligibility, tb.eligibility);
}

#[test]
fn cells_are_trimmed_of_unicode_white_space() {
    let m = ColumnMapping::detect_from_headers(&["id", "amount"]);
    let t = m.parse_row(&["\u{3000}TX-1\u{A0}", "\t12.50\n"], 2).unwrap();
    assert_eq!(t.id, "TX-1");
    assert_eq!(t.amount_cents, 1_250);
}

// ---- ranking and summaries ----

#[test]
fn ranking_by_severity_then_exposure_keeps_ties_in_order() {
    let fs = vec![
        finding(AuditRule::RoundSumOverride, RiskSeverity::Low, 900, "a"),
        finding(AuditRule::RoundSumOverride, RiskSeverity::High, 100, "b"),
        finding(AuditRule::RoundSumOverride, RiskSeverity::Critical, 5, "c"),
        finding(AuditRule::RoundSumOverride, RiskSeverity::High, 300, "d"),
        finding(AuditRule::RoundSumOverride, RiskSeverity::High, 100, "e"),
        finding(AuditRule::RoundSumOverride, RiskSeverity::Low, 900, "f"),
    ];
    let ranked = rank_findings(fs);
    assert_eq!(tags(&ranked), vec!["c", "d", "b", "e", "a", "f"]);
    assert!(rank_findings(Vec::new()).is_empty());
}

#[test]
fn severity_summary_counts() {
    let fs = vec![
        finding(AuditRule::RoundSumOverride, RiskSeverity::Low, 1, "a"),
        finding(AuditRule::RoundSumOverride, RiskSeverity::High, 1, "b"),
        finding(AuditRule::RoundSumOverride, RiskSeverity::High, 1, "c"),
        finding(AuditRule::RoundSumOverride, RiskSeverity::Critical, 1, "d"),
    ];
    let s = summarize_severities(&fs);
    assert_eq!(s, SeveritySummary { critical_count: 1, high_count: 2, medium_count: 0, low_count: 1 });
    assert_eq!(summarize_severities(&Vec::new()), SeveritySummary::default());
    assert_eq!(s.critical_count + s.high_count + s.medium_count + s.low_count, fs.len());
}

#[test]
fn rule_summaries_in_order_of_first_finding() {
    let fs = vec![
        finding(AuditRule::MakerCheckerSodCollision, RiskSeverity::Medium, 100, "a"),
        finding(AuditRule::RoundSumOverride, RiskSeverity::Low, 1_000, "b"),
        finding(AuditRule::MakerCheckerSodCollision, RiskSeverity::Critical, 50, "c"),
        finding(AuditRule::MakerCheckerSodCollision, RiskSeverity::High, 7, "d"),
    ];
    let rs = summarize_rules(&fs);
    assert_eq!(
        rs,
        vec![
            RuleSummary {
                rule: AuditRule::MakerCheckerSodCollision,
                count: 3,
                total_exposure_cents: 157,
                highest_severity: RiskSeverity::Critical,
            },
            RuleSummary {
                rule: AuditRule::RoundSumOverride,
                count: 1,
                total_exposure_cents: 1_000,
                highest_severity: RiskSeverity::Low,
            },
        ]
    );
    let ranked = rank_rule_summaries(rs);
    assert_eq!(ranked[0].rule, AuditRule::RoundSumOverride);
    assert_eq!(ranked[1].rule, AuditRule::MakerCheckerSodCollision);
    assert_eq!(ranked.iter().map(|r| r.count).sum::<usize>(), fs.len());
}

#[test]
fn rule_ranking_keeps_equal_totals_in_order() {
    let s = |rule, total| RuleSummary { rule, count: 1, total_exposure_cents: total, highest_severity: RiskSeverity::Low };
    let ranked = rank_rule_summaries(vec![
        s(AuditRule::RoundSumOverride, 5),
        s(AuditRule::PotentialDuplicatePayment, 9),
        s(AuditRule::MakerCheckerSodCollision, 5),
    ]);
    let order: Vec<AuditRule> = ranked.iter().map(|r| r.rule).collect();
    assert_eq!(
        order,
        vec![
            AuditRule::PotentialDuplicatePayment,
            AuditRule::RoundSumOverride,
            AuditRule::MakerCheckerSodCollision
        ]
    );
}

#[test]
fn capped_addition() {
    assert_eq!(add_capped(2, 3), 5);
    assert_eq!(add_capped(-2, 3), 1);
    assert_eq!(add_capped(i128::MAX, 1), i128::MAX);
    assert_eq!(add_capped(i128::MIN, -1), i128::MIN);
    assert_eq!(add_capped(i128::MAX, i128::MIN), -1);
}

// ---- full audit ----

fn tx(id: &str, amount_cents: i64, vendor: &str, maker: &str, checker: &str, line: usize) -> Transaction {
    Transaction {
        id: id.to_string(),
        amount_cents,
        date: None,
        vendor: Some(vendor.to_string()),
        account: None,
        created_by: Some(maker.to_string()),
        approved_by: Some(checker.to_string()),
        entry_type: None,
        description: Some(format!("entry {}", id)),
        raw_line: line,
    }
}

#[test]
fn full_audit_ranks_totals_and_summarises() {
    let txs = vec![
        tx("JV-1", 5_000_000, "Delta", "ann", "ann", 2),
        tx("APX-1", 480_000, "Apex", "a", "b", 3),
        tx("APX-2", 470_000, "Apex", "a", "b", 4),
        tx("INV-77", 20_000, "Zed", "a", "b", 5),
        tx("INV77", 20_000, "Zed", "a", "b", 6),
    ];
    let benford = vec![AuditFinding {
        rule: AuditRule::BenfordDigitSpike,
        severity: RiskSeverity::Medium,
        transaction_id: None,
        exposure_cents: 1_000,
        raw_line: None,
        detail: FindingDetail::BenfordDigit { digit: 1, count: 40 },
    }];
    let report = run_full_audit(&txs, None, benford);
    assert_eq!(report.total_rows_scanned, 5);
    let rules: Vec<AuditRule> = report.findings.iter().map(|f| f.rule).collect();
    assert_eq!(
        rules,
        vec![
            AuditRule::MakerCheckerSodCollision,
            AuditRule::RoundSumOverride,
            AuditRule::SplitApprovalStructuring,
            AuditRule::PotentialDuplicatePayment,
            AuditRule::BenfordDigitSpike,
        ]
    );
    let total: i128 = report.findings.iter().map(|f| f.exposure_cents).sum();
    assert_eq!(total, 5_000_000 + 5_000_000 + 950_000 + 20_000 + 1_000);
    assert_eq!(report.total_exposure_cents, total);
    assert_eq!(
        report.summary_by_severity,
        SeveritySummary { critical_count: 1, high_count: 1, medium_count: 3, low_count: 0 }
    );
    assert_eq!(report.summary_by_rule.len(), 5);
    assert_eq!(report.summary_by_rule.iter().map(|r| r.count).sum::<usize>(), 5);
    let totals: Vec<i128> = report.summary_by_rule.iter().map(|r| r.total_exposure_cents).collect();
    assert_eq!(totals, vec![5_000_000, 5_000_000, 950_000, 20_000, 1_000]);
    assert_eq!(report.summary_by_rule[0].rule, AuditRule::MakerCheckerSodCollision);
    // The rule totals add up to the total exposure.
    assert_eq!(report.summary_by_rule.iter().map(|r| r.total_exposure_cents).sum::<i128>(), report.total_exposure_cents);
    // A critical count is reported exactly when a critical finding exists.
    assert!(report.summary_by_severity.critical_count > 0);
    assert!(report.findings.iter().any(|f| f.severity == RiskSeverity::Critical));
    assert_eq!(report.summary_by_severity.low_count, 0);
    assert!(!report.findings.iter().any(|f| f.severity == RiskSeverity::Low));
}

#[test]
fn no_settings_is_the_default_settings() {
    let txs = vec![
        tx("A1", 480_000, "Apex", "a", "b", 2),
        tx("A2", 470_000, "Apex", "a", "b", 3),
        tx("J1", 2_000_000, "Delta", "ann", "ann", 4),
    ];
    let none = run_full_audit(&txs, None, Vec::new());
    let dflt = run_full_audit(&txs, Some(StructuringConfig::default()), Vec::new());
    let key = |r: &audit_core::models::AuditReport| -> Vec<(AuditRule, RiskSeverity, i128, Option<String>)> {
        r.findings
            .iter()
            .map(|f| (f.rule, f.severity, f.exposure_cents, f.transaction_id.clone()))
            .collect()
    };
    assert_eq!(key(&none), key(&dflt));
    assert_eq!(none.total_exposure_cents, dflt.total_exposure_cents);
    assert_eq!(none.summary_by_severity, dflt.summary_by_severity);
    assert_eq!(none.summary_by_rule, dflt.summary_by_rule);
}

#[test]
fn full_audit_of_an_empty_ledger() {
    let report = run_full_audit(&[], None, Vec::new());
    assert_eq!(report.total_rows_scanned, 0);
    assert!(report.findings.is_empty());
    assert!(report.summary_by_rule.is_empty());
    assert_eq!(report.total_exposure_cents, 0);
    assert_eq!(report.summary_by_severity, SeveritySummary::default());
}
