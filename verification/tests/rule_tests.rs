use audit_core::duplicates::{detect_fuzzy_duplicates, levenshtein, normalize_ref};
use audit_core::models::{AuditRule, FindingDetail, RiskSeverity, Transaction};
use audit_core::round_sums::detect_round_sums;
use audit_core::sod::{detect_sod_breaches, is_system_account};
use audit_core::structuring::{detect_structuring, StructuringConfig};

fn tx(id: &str, amount_cents: i64, vendor: Option<&str>, maker: &str, checker: &str, line: usize) -> Transaction {
    Transaction {
        id: id.to_string(),
        amount_cents,
        date: None,
        vendor: vendor.map(|v| v.to_string()),
        account: Some("6010".to_string()),
        created_by: Some(maker.to_string()),
        approved_by: Some(checker.to_string()),
        entry_type: None,
        description: None,
        raw_line: line,
    }
}

// ---- segregation of duties ----

#[test]
fn system_accounts_are_recognised_by_marker() {
    assert!(is_system_account("system"));
    assert!(is_system_account("  cron_nightly "));
    assert!(is_system_account("AUTO_DEPR"));
    assert!(is_system_account("svc-payables"));
    assert!(is_system_account("ap_bot"));
    assert!(is_system_account("BATCH01"));
    assert!(is_system_account("sys"));
    assert!(!is_system_account("robot"));
    assert!(!is_system_account("abbott"));
    assert!(is_system_account("CRONJOB"));
    assert!(is_system_account("systemuser"));
    assert!(is_system_account("AutoPost"));
    assert!(is_system_account("batchjob"));
    assert!(is_system_account("ap.svcaccount"));
    assert!(is_system_account("jsmith_sys"));
    assert!(!is_system_account("john.doe"));
    assert!(!is_system_account("alice"));
    assert!(!is_system_account(""));
}

#[test]
fn sod_flags_self_approval_ignoring_case_and_spaces() {
    let txs = vec![tx("T1", 300_000, Some("V"), " Alice ", "ALICE", 4)];
    let f = detect_sod_breaches(&txs);
    assert_eq!(f.len(), 1);
    assert_eq!(f[0].rule, AuditRule::MakerCheckerSodCollision);
    assert_eq!(f[0].severity, RiskSeverity::High);
    assert_eq!(f[0].exposure_cents, 300_000);
    assert_eq!(f[0].transaction_id.as_deref(), Some("T1"));
    assert_eq!(f[0].raw_line, Some(4));
    match &f[0].detail {
        FindingDetail::SegregationOfDuties { user_id, account, vendor } => {
            assert_eq!(user_id, "Alice");
            assert_eq!(account.as_deref(), Some("6010"));
            assert_eq!(vendor.as_deref(), Some("V"));
        }
        other => panic!("unexpected detail {:?}", other),
    }
}

#[test]
fn sod_severity_tiers() {
    let txs = vec![
        tx("A", 1_000_000, None, "bob", "bob", 1),
        tx("B", 999_999, None, "bob", "bob", 2),
        tx("C", 250_000, None, "bob", "bob", 3),
        tx("D", 249_999, None, "bob", "bob", 4),
    ];
    let f = detect_sod_breaches(&txs);
    let sev: Vec<RiskSeverity> = f.iter().map(|x| x.severity).collect();
    assert_eq!(
        sev,
        vec![RiskSeverity::Critical, RiskSeverity::High, RiskSeverity::High, RiskSeverity::Medium]
    );
}

#[test]
fn sod_skips_system_accounts_blank_and_missing_users() {
    let mut missing = tx("E", 2_000_000, None, "x", "x", 5);
    missing.approved_by = None;
    let txs = vec![
        tx("A", 2_000_000, None, "SYSTEM", "system", 1),
        tx("B", 2_000_000, None, "batch_job", "BATCH_JOB", 2),
        tx("C", 2_000_000, None, "  ", "  ", 3),
        tx("D", 2_000_000, None, "alice", "bob", 4),
        missing,
    ];
    assert!(detect_sod_breaches(&txs).is_empty());
}

#[test]
fn sod_flags_human_names_that_contain_a_marker() {
    let mut t = tx("JV-9", 50_000, None, "abbott", "abbott", 1);
    t.account = None;
    let f = detect_sod_breaches(&[t]);
    assert_eq!(f.len(), 1);
    assert_eq!(f[0].severity, RiskSeverity::Medium);
    assert_eq!(f[0].transaction_id.as_deref(), Some("JV-9"));
}

// ---- split purchases ----

fn default_cfg() -> StructuringConfig {
    StructuringConfig::default()
}

#[test]
fn structuring_default_settings() {
    let c = default_cfg();
    assert_eq!(c.threshold_cents, 500_000);
    assert_eq!(c.margin_ppm, 100_000);
    assert_eq!(c.min_repetitions, 2);
}

#[test]
fn structuring_bracket_edges() {
    // 4,500.00 is the lowest amount in the bracket; 5,000.00 is outside it.
    let txs = vec![
        tx("L1", 450_000, Some("Edge"), "a", "b", 1),
        tx("L2", 449_999, Some("Edge"), "a", "b", 2),
        tx("L3", 500_000, Some("Edge"), "a", "b", 3),
        tx("L4", 499_999, Some("Edge"), "a", "b", 4),
    ];
    let f = detect_structuring(&txs, &default_cfg());
    assert_eq!(f.len(), 1);
    assert_eq!(f[0].exposure_cents, 450_000 + 499_999);
    assert_eq!(f[0].transaction_id.as_deref(), Some("L1, L4"));
    assert_eq!(f[0].raw_line, Some(1));
    assert_eq!(f[0].severity, RiskSeverity::Medium);
    match &f[0].detail {
        FindingDetail::Structuring { vendor, count, threshold_cents, transaction_ids, raw_lines } => {
            assert_eq!(vendor, "Edge");
            assert_eq!(*count, 2);
            assert_eq!(*threshold_cents, 500_000);
            assert_eq!(transaction_ids, &vec!["L1".to_string(), "L4".to_string()]);
            assert_eq!(raw_lines, &vec![1, 4]);
        }
        other => panic!("unexpected detail {:?}", other),
    }
}

#[test]
fn structuring_severity_by_count() {
    let mut txs = Vec::new();
    for i in 0..4 {
        txs.push(tx(&format!("F{}", i), 460_000, Some("Four"), "a", "b", i));
    }
    for i in 0..3 {
        txs.push(tx(&format!("T{}", i), 460_000, Some("Three"), "a", "b", 10 + i));
    }
    txs.push(tx("S0", 460_000, Some("Single"), "a", "b", 20));
    let f = detect_structuring(&txs, &default_cfg());
    assert_eq!(f.len(), 2);
    assert_eq!(f[0].severity, RiskSeverity::Critical);
    assert_eq!(f[0].exposure_cents, 4 * 460_000);
    assert_eq!(f[1].severity, RiskSeverity::High);
    assert_eq!(f[1].exposure_cents, 3 * 460_000);
}

#[test]
fn structuring_groups_missing_vendors_together() {
    let txs = vec![tx("U1", 470_000, None, "a", "b", 1), tx("U2", 480_000, None, "a", "b", 2)];
    let f = detect_structuring(&txs, &default_cfg());
    assert_eq!(f.len(), 1);
    match &f[0].detail {
        FindingDetail::Structuring { vendor, .. } => assert_eq!(vendor, "UNKNOWN_VENDOR"),
        other => panic!("unexpected detail {:?}", other),
    }
}

#[test]
fn structuring_honours_custom_settings() {
    let cfg = StructuringConfig { threshold_cents: 1_000_000, margin_ppm: 50_000, min_repetitions: 3 };
    let txs = vec![
        tx("A", 950_000, Some("V"), "a", "b", 1),
        tx("B", 960_000, Some("V"), "a", "b", 2),
        tx("C", 949_999, Some("V"), "a", "b", 3),
    ];
    assert!(detect_structuring(&txs, &cfg).is_empty());
    let mut more = txs;
    more.push(tx("D", 999_999, Some("V"), "a", "b", 4));
    let f = detect_structuring(&more, &cfg);
    assert_eq!(f.len(), 1);
    assert_eq!(f[0].exposure_cents, 950_000 + 960_000 + 999_999);
    assert_eq!(f[0].severity, RiskSeverity::High);
}

// ---- duplicate payments ----

#[test]
fn levenshtein_known_values() {
    assert_eq!(levenshtein("kitten", "sitting"), 3);
    assert_eq!(levenshtein("", "abc"), 3);
    assert_eq!(levenshtein("abc", ""), 3);
    assert_eq!(levenshtein("abc", "abc"), 0);
    assert_eq!(levenshtein("INV1092", "INV1093"), 1);
    assert_eq!(levenshtein("flaw", "lawn"), 2);
    assert_eq!(levenshtein("lawn", "flaw"), 2);
}

#[test]
fn normalize_ref_strips_punctuation_case_and_leading_zeros() {
    assert_eq!(normalize_ref("inv-1092"), "INV1092");
    assert_eq!(normalize_ref("INV 1092"), "INV1092");
    assert_eq!(normalize_ref("00-0123"), "123");
    assert_eq!(normalize_ref("  po.1 "), "PO1");
    assert_eq!(normalize_ref("000"), "");
    assert_eq!(normalize_ref("a0b"), "A0B");
}

#[test]
fn duplicates_exact_after_normalisation() {
    let txs = vec![
        tx("INV-1092", 50_000, Some(" acme "), "a", "b", 2),
        tx("inv1092", 50_000, Some("ACME"), "a", "b", 3),
    ];
    let f = detect_fuzzy_duplicates(&txs);
    assert_eq!(f.len(), 1);
    assert_eq!(f[0].severity, RiskSeverity::Medium);
    assert_eq!(f[0].exposure_cents, 50_000);
    assert_eq!(f[0].transaction_id.as_deref(), Some("INV-1092, inv1092"));
    assert_eq!(f[0].raw_line, Some(2));
    match &f[0].detail {
        FindingDetail::Duplicate { vendor, first_id, second_id, first_line, second_line, distance, normalized_ref } => {
            assert_eq!(vendor, "ACME");
            assert_eq!(first_id, "INV-1092");
            assert_eq!(second_id, "inv1092");
            assert_eq!(*first_line, 2);
            assert_eq!(*second_line, 3);
            assert_eq!(*distance, 0);
            assert_eq!(normalized_ref, "INV1092");
        }
        other => panic!("unexpected detail {:?}", other),
    }
}

#[test]
fn duplicates_single_character_variation() {
    let txs = vec![
        tx("INV-1092", 150_000, Some("Acme"), "a", "b", 2),
        tx("INV-1093", 150_000, Some("Acme"), "a", "b", 3),
    ];
    let f = detect_fuzzy_duplicates(&txs);
    assert_eq!(f.len(), 1);
    assert_eq!(f[0].severity, RiskSeverity::High);
    match &f[0].detail {
        FindingDetail::Duplicate { distance, .. } => assert_eq!(*distance, 1),
        other => panic!("unexpected detail {:?}", other),
    }
}

#[test]
fn duplicates_short_sequences_are_not_flagged() {
    let txs = vec![
        tx("PO-1", 150_000, Some("Acme"), "a", "b", 2),
        tx("PO-2", 150_000, Some("Acme"), "a", "b", 3),
    ];
    assert!(detect_fuzzy_duplicates(&txs).is_empty());
}

#[test]
fn duplicates_need_same_vendor_and_amount() {
    let txs = vec![
        tx("INV-7", 150_000, Some("Acme"), "a", "b", 2),
        tx("INV-7", 150_001, Some("Acme"), "a", "b", 3),
        tx("INV-7", 150_000, Some("Other"), "a", "b", 4),
        tx("INV-7", 150_000, None, "a", "b", 5),
        tx("INV-8", 0, Some("Zero"), "a", "b", 6),
        tx("INV-8", 0, Some("Zero"), "a", "b", 7),
        tx("INV-9", -500, Some("Neg"), "a", "b", 8),
        tx("INV-9", -500, Some("Neg"), "a", "b", 9),
    ];
    assert!(detect_fuzzy_duplicates(&txs).is_empty());
}

#[test]
fn duplicates_every_pair_of_a_group() {
    let txs = vec![
        tx("X-100", 1_000_000, Some("V"), "a", "b", 1),
        tx("X100", 1_000_000, Some("V"), "a", "b", 2),
        tx("x 100", 1_000_000, Some("V"), "a", "b", 3),
    ];
    let f = detect_fuzzy_duplicates(&txs);
    assert_eq!(f.len(), 3);
    let pairs: Vec<(usize, usize)> = f
        .iter()
        .map(|x| match &x.detail {
            FindingDetail::Duplicate { first_line, second_line, .. } => (*first_line, *second_line),
            other => panic!("unexpected detail {:?}", other),
        })
        .collect();
    assert_eq!(pairs, vec![(1, 2), (1, 3), (2, 3)]);
    assert!(f.iter().all(|x| x.severity == RiskSeverity::Critical));
}

// ---- round sums ----

#[test]
fn round_sum_tiers() {
    let txs = vec![
        tx("R1", 1_000_000, None, "a", "b", 1),
        tx("R2", 2_500_000, None, "a", "b", 2),
        tx("R3", 5_000_000, None, "a", "b", 3),
        tx("R4", 1_100_000, None, "a", "b", 4),
        tx("N1", 900_000, None, "a", "b", 5),
        tx("N2", 1_234_500, None, "a", "b", 6),
        tx("N3", 1_000_050, None, "a", "b", 7),
        tx("N4", -2_000_000, None, "a", "b", 8),
    ];
    let f = detect_round_sums(&txs);
    let got: Vec<(String, RiskSeverity)> =
        f.iter().map(|x| (x.transaction_id.clone().unwrap(), x.severity)).collect();
    assert_eq!(
        got,
        vec![
            ("R1".to_string(), RiskSeverity::Low),
            ("R2".to_string(), RiskSeverity::Medium),
            ("R3".to_string(), RiskSeverity::High),
            ("R4".to_string(), RiskSeverity::Low),
        ]
    );
    assert_eq!(f[2].exposure_cents, 5_000_000);
    assert_eq!(f[2].rule, AuditRule::RoundSumOverride);
}

// ---- names ----

#[test]
fn rule_codes_and_severity_labels() {
    assert_eq!(AuditRule::BenfordDigitSpike.code(), "BENFORD_DIGIT_SPIKE");
    assert_eq!(AuditRule::BenfordPopulationNonconformity.code(), "BENFORD_POPULATION_NONCONFORMITY");
    assert_eq!(AuditRule::SplitApprovalStructuring.code(), "SPLIT_APPROVAL_STRUCTURING");
    assert_eq!(AuditRule::MakerCheckerSodCollision.code(), "MAKER_CHECKER_SOD_COLLISION");
    assert_eq!(AuditRule::PotentialDuplicatePayment.code(), "POTENTIAL_DUPLICATE_PAYMENT");
    assert_eq!(AuditRule::RoundSumOverride.code(), "ROUND_SUM_OVERRIDE");
    assert_eq!(RiskSeverity::Low.label(), "LOW");
    assert_eq!(RiskSeverity::Medium.label(), "MEDIUM");
    assert_eq!(RiskSeverity::High.label(), "HIGH");
    assert_eq!(RiskSeverity::Critical.label(), "CRITICAL");
    assert_eq!(RiskSeverity::Low.level(), 0);
    assert_eq!(RiskSeverity::Critical.level(), 3);
    assert!(RiskSeverity::Critical > RiskSeverity::High);
    assert!(RiskSeverity::Medium > RiskSeverity::Low);
}

#[test]
fn levenshtein_triangle_and_zero() {
    let words = ["kitten", "sitting", "mitten", "", "sit", "INV1092"];
    for a in words.iter() {
        for b in words.iter() {
            assert_eq!(levenshtein(a, b) == 0, a == b);
            for c in words.iter() {
                assert!(levenshtein(a, c) <= levenshtein(a, b) + levenshtein(b, c));
            }
        }
    }
}

#[test]
fn wider_bracket_keeps_flagged_vendors() {
    let txs = vec![
        tx("A", 470_000, Some("V"), "a", "b", 1),
        tx("B", 480_000, Some("V"), "a", "b", 2),
        tx("C", 430_000, Some("W"), "a", "b", 3),
        tx("D", 440_000, Some("W"), "a", "b", 4),
    ];
    let narrow = StructuringConfig { threshold_cents: 500_000, margin_ppm: 100_000, min_repetitions: 2 };
    let wide = StructuringConfig { threshold_cents: 500_000, margin_ppm: 150_000, min_repetitions: 2 };
    let vendors = |cfg: &StructuringConfig| -> Vec<String> {
        detect_structuring(&txs, cfg)
            .iter()
            .map(|f| match &f.detail {
                FindingDetail::Structuring { vendor, .. } => vendor.clone(),
                other => panic!("unexpected detail {:?}", other),
            })
            .collect()
    };
    assert_eq!(vendors(&narrow), vec!["V".to_string()]);
    assert_eq!(vendors(&wide), vec!["V".to_string(), "W".to_string()]);
}
