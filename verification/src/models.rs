use vstd::prelude::*;

verus! {

/// How serious a finding is. The variants are declared from the least to
/// the most serious, and the derived order follows that declaration.
#[derive(Clone, Copy, Debug, PartialEq, Eq, Structural, PartialOrd, Ord, Hash)]
pub enum RiskSeverity {
    Low,
    Medium,
    High,
    Critical,
}

impl RiskSeverity {
    /// Position of the severity in the order Low < Medium < High < Critical.
    pub open spec fn rank(self) -> nat {
        match self {
            RiskSeverity::Low => 0,
            RiskSeverity::Medium => 1,
            RiskSeverity::High => 2,
            RiskSeverity::Critical => 3,
        }
    }

    /// The rank as a number: 0 for Low up to 3 for Critical.
    pub fn level(&self) -> (r: u8)
        ensures
            r == self.rank(),
    {
        match self {
            RiskSeverity::Low => 0,
            RiskSeverity::Medium => 1,
            RiskSeverity::High => 2,
            RiskSeverity::Critical => 3,
        }
    }
}

} // verus!

verus! {

/// The view of an optional string: the characters it holds, if any.
pub open spec fn opt_view(o: Option<String>) -> Option<Seq<char>> {
    match o {
        Some(s) => Some(s@),
        None => None,
    }
}

/// One ledger line: a journal entry, disbursement or purchase order.
/// The amount is in cents (hundredths of the currency unit).
#[derive(Debug)]
pub struct Transaction {
    pub id: String,
    pub amount_cents: i64,
    pub date: Option<String>,
    pub vendor: Option<String>,
    pub account: Option<String>,
    pub created_by: Option<String>,
    pub approved_by: Option<String>,
    pub entry_type: Option<String>,
    pub description: Option<String>,
    pub raw_line: usize,
}

/// What a transaction holds, with its strings taken as character sequences.
pub struct TransactionView {
    pub id: Seq<char>,
    pub amount_cents: i64,
    pub date: Option<Seq<char>>,
    pub vendor: Option<Seq<char>>,
    pub account: Option<Seq<char>>,
    pub created_by: Option<Seq<char>>,
    pub approved_by: Option<Seq<char>>,
    pub entry_type: Option<Seq<char>>,
    pub description: Option<Seq<char>>,
    pub raw_line: usize,
}

impl View for Transaction {
    type V = TransactionView;

    open spec fn view(&self) -> TransactionView {
        TransactionView {
            id: self.id@,
            amount_cents: self.amount_cents,
            date: opt_view(self.date),
            vendor: opt_view(self.vendor),
            account: opt_view(self.account),
            created_by: opt_view(self.created_by),
            approved_by: opt_view(self.approved_by),
            entry_type: opt_view(self.entry_type),
            description: opt_view(self.description),
            raw_line: self.raw_line,
        }
    }
}

/// The views of a sequence of transactions.
pub open spec fn tx_views(txs: Seq<Transaction>) -> Seq<TransactionView> {
    txs.map_values(|t: Transaction| t@)
}

/// The control or forensic test that raised a finding.
#[derive(Clone, Copy, Debug, PartialEq, Eq, Structural, Hash)]
pub enum AuditRule {
    BenfordDigitSpike,
    BenfordPopulationNonconformity,
    SplitApprovalStructuring,
    MakerCheckerSodCollision,
    PotentialDuplicatePayment,
    RoundSumOverride,
}

impl AuditRule {
    /// The rule's identifier as it appears in reports.
    pub open spec fn spec_code(self) -> Seq<char> {
        match self {
            AuditRule::BenfordDigitSpike => "BENFORD_DIGIT_SPIKE"@,
            AuditRule::BenfordPopulationNonconformity => "BENFORD_POPULATION_NONCONFORMITY"@,
            AuditRule::SplitApprovalStructuring => "SPLIT_APPROVAL_STRUCTURING"@,
            AuditRule::MakerCheckerSodCollision => "MAKER_CHECKER_SOD_COLLISION"@,
            AuditRule::PotentialDuplicatePayment => "POTENTIAL_DUPLICATE_PAYMENT"@,
            AuditRule::RoundSumOverride => "ROUND_SUM_OVERRIDE"@,
        }
    }

    /// The rule's identifier, such as `MAKER_CHECKER_SOD_COLLISION`.
    pub fn code(&self) -> (r: &'static str)
        ensures
            r@ == self.spec_code(),
    {
        match self {
            AuditRule::BenfordDigitSpike => "BENFORD_DIGIT_SPIKE",
            AuditRule::BenfordPopulationNonconformity => "BENFORD_POPULATION_NONCONFORMITY",
            AuditRule::SplitApprovalStructuring => "SPLIT_APPROVAL_STRUCTURING",
            AuditRule::MakerCheckerSodCollision => "MAKER_CHECKER_SOD_COLLISION",
            AuditRule::PotentialDuplicatePayment => "POTENTIAL_DUPLICATE_PAYMENT",
            AuditRule::RoundSumOverride => "ROUND_SUM_OVERRIDE",
        }
    }
}

impl RiskSeverity {
    /// The severity's name as it appears in reports.
    pub open spec fn spec_label(self) -> Seq<char> {
        match self {
            RiskSeverity::Low => "LOW"@,
            RiskSeverity::Medium => "MEDIUM"@,
            RiskSeverity::High => "HIGH"@,
            RiskSeverity::Critical => "CRITICAL"@,
        }
    }

    /// The severity's name: LOW, MEDIUM, HIGH or CRITICAL.
    pub fn label(&self) -> (r: &'static str)
        ensures
            r@ == self.spec_label(),
    {
        match self {
            RiskSeverity::Low => "LOW",
            RiskSeverity::Medium => "MEDIUM",
            RiskSeverity::High => "HIGH",
            RiskSeverity::Critical => "CRITICAL",
        }
    }
}

/// What a finding is about, beyond its rule, severity and exposure.
#[derive(Debug)]
pub enum FindingDetail {
    /// A first digit seen far more often than Benford's law expects.
    BenfordDigit { digit: u32, count: usize },
    /// The population as a whole departs from Benford's law.
    BenfordPopulation { population: usize },
    /// Several payments to one vendor just below the approval limit.
    Structuring {
        vendor: String,
        count: usize,
        threshold_cents: i64,
        transaction_ids: Vec<String>,
        raw_lines: Vec<usize>,
    },
    /// An entry created and approved by the same user.
    SegregationOfDuties { user_id: String, account: Option<String>, vendor: Option<String> },
    /// Two payments that look like the same invoice paid twice.
    Duplicate {
        vendor: String,
        first_id: String,
        second_id: String,
        first_line: usize,
        second_line: usize,
        distance: usize,
        normalized_ref: String,
    },
    /// A large entry in exact thousands.
    RoundSum {
        account: Option<String>,
        vendor: Option<String>,
        maker: Option<String>,
        description: Option<String>,
    },
}

/// The view of a finding's detail.
pub enum DetailView {
    BenfordDigit { digit: u32, count: usize },
    BenfordPopulation { population: usize },
    Structuring {
        vendor: Seq<char>,
        count: usize,
        threshold_cents: i64,
        transaction_ids: Seq<Seq<char>>,
        raw_lines: Seq<usize>,
    },
    SegregationOfDuties {
        user_id: Seq<char>,
        account: Option<Seq<char>>,
        vendor: Option<Seq<char>>,
    },
    Duplicate {
        vendor: Seq<char>,
        first_id: Seq<char>,
        second_id: Seq<char>,
        first_line: usize,
        second_line: usize,
        distance: usize,
        normalized_ref: Seq<char>,
    },
    RoundSum {
        account: Option<Seq<char>>,
        vendor: Option<Seq<char>>,
        maker: Option<Seq<char>>,
        description: Option<Seq<char>>,
    },
}

/// The views of a sequence of strings.
pub open spec fn string_views(v: Seq<String>) -> Seq<Seq<char>> {
    v.map_values(|s: String| s@)
}

impl View for FindingDetail {
    type V = DetailView;

    open spec fn view(&self) -> DetailView {
        match self {
            FindingDetail::BenfordDigit { digit, count } => DetailView::BenfordDigit {
                digit: *digit,
                count: *count,
            },
            FindingDetail::BenfordPopulation { population } => DetailView::BenfordPopulation {
                population: *population,
            },
            FindingDetail::Structuring {
                vendor,
                count,
                threshold_cents,
                transaction_ids,
                raw_lines,
            } => DetailView::Structuring {
                vendor: vendor@,
                count: *count,
                threshold_cents: *threshold_cents,
                transaction_ids: string_views(transaction_ids@),
                raw_lines: raw_lines@,
            },
            FindingDetail::SegregationOfDuties { user_id, account, vendor } =>
                DetailView::SegregationOfDuties {
                user_id: user_id@,
                account: opt_view(*account),
                vendor: opt_view(*vendor),
            },
            FindingDetail::Duplicate {
                vendor,
                first_id,
                second_id,
                first_line,
                second_line,
                distance,
                normalized_ref,
            } => DetailView::Duplicate {
                vendor: vendor@,
                first_id: first_id@,
                second_id: second_id@,
                first_line: *first_line,
                second_line: *second_line,
                distance: *distance,
                normalized_ref: normalized_ref@,
            },
            FindingDetail::RoundSum { account, vendor, maker, description } =>
                DetailView::RoundSum {
                account: opt_view(*account),
                vendor: opt_view(*vendor),
                maker: opt_view(*maker),
                description: opt_view(*description),
            },
        }
    }
}

/// One anomaly raised by an audit rule. The exposure is in cents.
#[derive(Debug)]
pub struct AuditFinding {
    pub rule: AuditRule,
    pub severity: RiskSeverity,
    pub transaction_id: Option<String>,
    pub exposure_cents: i128,
    pub raw_line: Option<usize>,
    pub detail: FindingDetail,
}

/// The view of a finding.
pub struct FindingView {
    pub rule: AuditRule,
    pub severity: RiskSeverity,
    pub transaction_id: Option<Seq<char>>,
    pub exposure_cents: i128,
    pub raw_line: Option<usize>,
    pub detail: DetailView,
}

impl View for AuditFinding {
    type V = FindingView;

    open spec fn view(&self) -> FindingView {
        FindingView {
            rule: self.rule,
            severity: self.severity,
            transaction_id: opt_view(self.transaction_id),
            exposure_cents: self.exposure_cents,
            raw_line: self.raw_line,
            detail: self.detail@,
        }
    }
}

/// The views of a sequence of findings.
pub open spec fn finding_views(fs: Seq<AuditFinding>) -> Seq<FindingView> {
    fs.map_values(|f: AuditFinding| f@)
}

/// Findings of one rule, counted and totalled.
#[derive(Debug, Clone, Copy, PartialEq, Eq, Structural)]
pub struct RuleSummary {
    pub rule: AuditRule,
    pub count: usize,
    pub total_exposure_cents: i128,
    pub highest_severity: RiskSeverity,
}

/// Number of findings at each severity.
#[derive(Debug, Clone, Copy, PartialEq, Eq, Structural)]
pub struct SeveritySummary {
    pub critical_count: usize,
    pub high_count: usize,
    pub medium_count: usize,
    pub low_count: usize,
}

impl Default for SeveritySummary {
    fn default() -> (r: Self)
        ensures
            r.critical_count == 0,
            r.high_count == 0,
            r.medium_count == 0,
            r.low_count == 0,
    {
        SeveritySummary { critical_count: 0, high_count: 0, medium_count: 0, low_count: 0 }
    }
}

/// The result of a full audit run.
#[derive(Debug)]
pub struct AuditReport {
    pub total_rows_scanned: usize,
    pub total_exposure_cents: i128,
    pub findings: Vec<AuditFinding>,
    pub summary_by_rule: Vec<RuleSummary>,
    pub summary_by_severity: SeveritySummary,
}

} // verus!
