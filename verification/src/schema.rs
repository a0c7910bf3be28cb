//! Mapping of ledger columns to transaction fields, and parsing of rows.
use vstd::prelude::*;
use crate::models::{opt_view, Transaction, TransactionView};
use crate::text::{
    chars_of, contains_chars, occurs_at, contains_sub, decimal, decimal_string, lowercased, to_lower, trim,
    trimmed, trimmed_end, trimmed_start, is_white_space,
};

verus! {

/// Where each transaction field is found in a row, if anywhere.
#[derive(Debug, Clone, Copy, PartialEq, Eq, Structural)]
pub struct ColumnMapping {
    pub id_col: Option<usize>,
    pub amount_col: Option<usize>,
    pub date_col: Option<usize>,
    pub vendor_col: Option<usize>,
    pub account_col: Option<usize>,
    pub created_by_col: Option<usize>,
    pub approved_by_col: Option<usize>,
    pub entry_type_col: Option<usize>,
    pub description_col: Option<usize>,
}

/// The mapping with no column assigned.
pub open spec fn empty_mapping() -> ColumnMapping {
    ColumnMapping {
        id_col: None,
        amount_col: None,
        date_col: None,
        vendor_col: None,
        account_col: None,
        created_by_col: None,
        approved_by_col: None,
        entry_type_col: None,
        description_col: None,
    }
}

impl Default for ColumnMapping {
    fn default() -> (r: Self)
        ensures
            r == empty_mapping(),
    {
        ColumnMapping {
            id_col: None,
            amount_col: None,
            date_col: None,
            vendor_col: None,
            account_col: None,
            created_by_col: None,
            approved_by_col: None,
            entry_type_col: None,
            description_col: None,
        }
    }
}

/// Header names that mark the column of the transaction or invoice identifier.
pub open spec fn id_aliases() -> Seq<Seq<char>> {
    seq![
        "id"@,
        "trans_id"@,
        "doc_num"@,
        "voucher"@,
        "voucher_no"@,
        "inv_num"@,
        "invoice_no"@,
        "ref"@,
        "reference"@,
        "doc_number"@,
        "trans_num"@,
    ]
}

/// Header names that mark the column of the amount.
pub open spec fn amount_aliases() -> Seq<Seq<char>> {
    seq![
        "amount"@,
        "amt"@,
        "total"@,
        "net_amount"@,
        "debit"@,
        "line_amount"@,
        "val"@,
        "value"@,
        "payment_amount"@,
        "invoice_total"@,
    ]
}

/// Header names that mark the column of the posting date.
pub open spec fn date_aliases() -> Seq<Seq<char>> {
    seq![
        "date"@,
        "posting_date"@,
        "doc_date"@,
        "trans_date"@,
        "gl_date"@,
        "effective_date"@,
        "entry_date"@,
    ]
}

/// Header names that mark the column of the vendor or payee.
pub open spec fn vendor_aliases() -> Seq<Seq<char>> {
    seq![
        "vendor"@,
        "vendor_id"@,
        "vendor_name"@,
        "supplier"@,
        "payee"@,
        "creditor"@,
        "party"@,
        "beneficiary"@,
    ]
}

/// Header names that mark the column of the ledger account.
pub open spec fn account_aliases() -> Seq<Seq<char>> {
    seq!["account"@, "acct"@, "gl_account"@, "cost_center"@, "account_code"@, "account_num"@]
}

/// Header names that mark the column of the user who created the entry.
pub open spec fn created_by_aliases() -> Seq<Seq<char>> {
    seq!["created_by"@, "maker"@, "entered_by"@, "user"@, "user_id"@, "operator"@, "prepared_by"@]
}

/// Header names that mark the column of the user who approved the entry.
pub open spec fn approved_by_aliases() -> Seq<Seq<char>> {
    seq!["approved_by"@, "checker"@, "posted_by"@, "authorizer"@, "signed_by"@, "authorized_by"@]
}

/// Header names that mark the column of the entry type or journal source.
pub open spec fn entry_type_aliases() -> Seq<Seq<char>> {
    seq![
        "type"@,
        "entry_type"@,
        "source"@,
        "journal_type"@,
        "doc_type"@,
        "category"@,
        "journal_source"@,
    ]
}

/// Header names that mark the column of the narration.
pub open spec fn description_aliases() -> Seq<Seq<char>> {
    seq!["description"@, "desc"@, "narration"@, "line_item"@, "memo"@, "details"@]
}

/// `s` with spaces, hyphens and dots turned into underscores.
pub open spec fn replace_separators(s: Seq<char>) -> Seq<char> {
    s.map_values(|c: char| if c == ' ' || c == '-' || c == '.' { '_' } else { c })
}

/// A header as it is compared with the aliases: trimmed, lower case, with
/// separators turned into underscores.
pub open spec fn clean_header(h: Seq<char>) -> Seq<char> {
    replace_separators(lowercased(trimmed(h)))
}

/// Whether a cleaned header equals or contains one of `aliases`.
pub open spec fn matches_alias(clean: Seq<char>, aliases: Seq<Seq<char>>) -> bool {
    exists|k: int|
        0 <= k < aliases.len() && (clean == #[trigger] aliases[k] || contains_sub(clean, aliases[k]))
}

/// Whether a cleaned header is exactly one of `aliases`.
pub open spec fn is_exact_alias(clean: Seq<char>, aliases: Seq<Seq<char>>) -> bool {
    exists|k: int| 0 <= k < aliases.len() && clean == #[trigger] aliases[k]
}

/// The mapping after column `idx`, with cleaned header `clean`, has been
/// offered to the fields. The amount column is recognised first, by an
/// amount alias that the header equals or contains. Otherwise the column
/// goes to the first unassigned field, in the order id, date, vendor,
/// maker, checker, account, entry type, description, that has the header
/// as an alias; failing that, to the first unassigned field in the same
/// order with an alias that the header contains. So `vendor_id` goes to
/// the vendor and `user_id` to the maker, though both contain `id`.
pub open spec fn assign_column(m: ColumnMapping, idx: usize, clean: Seq<char>) -> ColumnMapping {
    if m.amount_col is None && matches_alias(clean, amount_aliases()) {
        ColumnMapping { amount_col: Some(idx), ..m }
    } else if m.id_col is None && is_exact_alias(clean, id_aliases()) {
        ColumnMapping { id_col: Some(idx), ..m }
    } else if m.date_col is None && is_exact_alias(clean, date_aliases()) {
        ColumnMapping { date_col: Some(idx), ..m }
    } else if m.vendor_col is None && is_exact_alias(clean, vendor_aliases()) {
        ColumnMapping { vendor_col: Some(idx), ..m }
    } else if m.created_by_col is None && is_exact_alias(clean, created_by_aliases()) {
        ColumnMapping { created_by_col: Some(idx), ..m }
    } else if m.approved_by_col is None && is_exact_alias(clean, approved_by_aliases()) {
        ColumnMapping { approved_by_col: Some(idx), ..m }
    } else if m.account_col is None && is_exact_alias(clean, account_aliases()) {
        ColumnMapping { account_col: Some(idx), ..m }
    } else if m.entry_type_col is None && is_exact_alias(clean, entry_type_aliases()) {
        ColumnMapping { entry_type_col: Some(idx), ..m }
    } else if m.description_col is None && is_exact_alias(clean, description_aliases()) {
        ColumnMapping { description_col: Some(idx), ..m }
    } else if m.id_col is None && matches_alias(clean, id_aliases()) {
        ColumnMapping { id_col: Some(idx), ..m }
    } else if m.date_col is None && matches_alias(clean, date_aliases()) {
        ColumnMapping { date_col: Some(idx), ..m }
    } else if m.vendor_col is None && matches_alias(clean, vendor_aliases()) {
        ColumnMapping { vendor_col: Some(idx), ..m }
    } else if m.created_by_col is None && matches_alias(clean, created_by_aliases()) {
        ColumnMapping { created_by_col: Some(idx), ..m }
    } else if m.approved_by_col is None && matches_alias(clean, approved_by_aliases()) {
        ColumnMapping { approved_by_col: Some(idx), ..m }
    } else if m.account_col is None && matches_alias(clean, account_aliases()) {
        ColumnMapping { account_col: Some(idx), ..m }
    } else if m.entry_type_col is None && matches_alias(clean, entry_type_aliases()) {
        ColumnMapping { entry_type_col: Some(idx), ..m }
    } else if m.description_col is None && matches_alias(clean, description_aliases()) {
        ColumnMapping { description_col: Some(idx), ..m }
    } else {
        m
    }
}

/// The mapping that the cleaned headers `cleans` give, columns offered
/// from left to right.
pub open spec fn mapping_of(cleans: Seq<Seq<char>>) -> ColumnMapping
    decreases cleans.len(),
{
    if cleans.len() == 0 {
        empty_mapping()
    } else {
        assign_column(mapping_of(cleans.drop_last()), (cleans.len() - 1) as usize, cleans.last())
    }
}

/// The cleaned forms of a row of headers.
pub open spec fn clean_headers(headers: Seq<&str>) -> Seq<Seq<char>> {
    headers.map_values(|h: &str| clean_header(h@))
}

/// Turns spaces, hyphens and dots into underscores.
fn replace_separator_chars(s: &Vec<char>) -> (r: Vec<char>)
    ensures
        r@ == replace_separators(s@),
{
    let mut r: Vec<char> = Vec::new();
    let mut i: usize = 0;
    while i < s.len()
        invariant
            i <= s@.len(),
            r@ == replace_separators(s@.take(i as int)),
        decreases s@.len() - i,
    {
        let c = s[i];
        let d = if c == ' ' || c == '-' || c == '.' { '_' } else { c };
        r.push(d);
        proof {
            assert(replace_separators(s@.take(i + 1)) =~= replace_separators(s@.take(i as int)).push(d));
        }
        i = i + 1;
    }
    proof {
        assert(s@.take(s@.len() as int) =~= s@);
    }
    r
}

/// Whether `clean` equals or contains one of `aliases`.
fn matches_any(clean: &Vec<char>, aliases: &[&str]) -> (r: bool)
    ensures
        r == matches_alias(clean@, aliases@.map_values(|a: &str| a@)),
{
    let ghost al = aliases@.map_values(|a: &str| a@);
    let mut k: usize = 0;
    while k < aliases.len()
        invariant
            k <= aliases@.len(),
            al == aliases@.map_values(|a: &str| a@),
            forall|t: int| 0 <= t < k ==> !(clean@ == #[trigger] al[t] || contains_sub(clean@, al[t])),
        decreases aliases@.len() - k,
    {
        let alias = chars_of(aliases[k]);
        if contains_chars(clean, &alias) {
            assert(clean@ == al[k as int] || contains_sub(clean@, al[k as int]));
            return true;
        }
        proof {
            assert(al[k as int] == alias@);
            if clean@ == alias@ {
                assert(clean@.subrange(0int, 0int + alias@.len()) =~= alias@);
                assert(contains_sub(clean@, alias@));
            }
        }
        k = k + 1;
    }
    false
}

/// Whether `clean` is exactly one of `aliases`.
fn equals_any(clean: &Vec<char>, aliases: &[&str]) -> (r: bool)
    ensures
        r == is_exact_alias(clean@, aliases@.map_values(|a: &str| a@)),
{
    let ghost al = aliases@.map_values(|a: &str| a@);
    let mut k: usize = 0;
    while k < aliases.len()
        invariant
            k <= aliases@.len(),
            al == aliases@.map_values(|a: &str| a@),
            forall|t: int| 0 <= t < k ==> clean@ != #[trigger] al[t],
        decreases aliases@.len() - k,
    {
        let alias = chars_of(aliases[k]);
        assert(al[k as int] == alias@);
        if alias.len() == clean.len() && occurs_at(clean, &alias, 0) {
            assert(clean@ =~= clean@.subrange(0, alias@.len() as int));
            return true;
        }
        proof {
            if clean@ == alias@ {
                assert(clean@.subrange(0, alias@.len() as int) =~= alias@);
            }
        }
        k = k + 1;
    }
    false
}

impl ColumnMapping {
    /// Works out from a row of headers which column holds which field.
    /// Each header is trimmed, lower-cased and has spaces, hyphens and dots
    /// turned into underscores (see `clean_header`). The first header that
    /// equals or contains an amount alias is the amount column; any other
    /// header goes to the first still unassigned field, in the order id,
    /// date, vendor, maker, checker, account, entry type, description,
    /// that lists it as an alias, and failing that to the first such field
    /// with an alias it contains (see `assign_column`). With the headers
    /// `vendor_id`, `invoice_no`, `amount`, the vendor is column 0, the id
    /// column 1 and the amount column 2.
    pub fn detect_from_headers(headers: &[&str]) -> (r: Self)
        ensures
            r == mapping_of(clean_headers(headers@)),
    {
        let amount_list: [&str; 10] = [
            "amount",
            "amt",
            "total",
            "net_amount",
            "debit",
            "line_amount",
            "val",
            "value",
            "payment_amount",
            "invoice_total",
        ];
        let id_list: [&str; 11] = [
            "id",
            "trans_id",
            "doc_num",
            "voucher",
            "voucher_no",
            "inv_num",
            "invoice_no",
            "ref",
            "reference",
            "doc_number",
            "trans_num",
        ];
        let date_list: [&str; 7] = [
            "date",
            "posting_date",
            "doc_date",
            "trans_date",
            "gl_date",
            "effective_date",
            "entry_date",
        ];
        let vendor_list: [&str; 8] = [
            "vendor",
            "vendor_id",
            "vendor_name",
            "supplier",
            "payee",
            "creditor",
            "party",
            "beneficiary",
        ];
        let account_list: [&str; 6] = [
            "account",
            "acct",
            "gl_account",
            "cost_center",
            "account_code",
            "account_num",
        ];
        let created_by_list: [&str; 7] = [
            "created_by",
            "maker",
            "entered_by",
            "user",
            "user_id",
            "operator",
            "prepared_by",
        ];
        let approved_by_list: [&str; 6] = [
            "approved_by",
            "checker",
            "posted_by",
            "authorizer",
            "signed_by",
            "authorized_by",
        ];
        let entry_type_list: [&str; 7] = [
            "type",
            "entry_type",
            "source",
            "journal_type",
            "doc_type",
            "category",
            "journal_source",
        ];
        let description_list: [&str; 6] = [
            "description",
            "desc",
            "narration",
            "line_item",
            "memo",
            "details",
        ];
        assert(amount_list@.map_values(|a: &str| a@) =~= amount_aliases());
        assert(id_list@.map_values(|a: &str| a@) =~= id_aliases());
        assert(date_list@.map_values(|a: &str| a@) =~= date_aliases());
        assert(vendor_list@.map_values(|a: &str| a@) =~= vendor_aliases());
        assert(account_list@.map_values(|a: &str| a@) =~= account_aliases());
        assert(created_by_list@.map_values(|a: &str| a@) =~= created_by_aliases());
        assert(approved_by_list@.map_values(|a: &str| a@) =~= approved_by_aliases());
        assert(entry_type_list@.map_values(|a: &str| a@) =~= entry_type_aliases());
        assert(description_list@.map_values(|a: &str| a@) =~= description_aliases());
        let ghost cleans = clean_headers(headers@);
        let mut m = ColumnMapping::default();
        let mut i: usize = 0;
        while i < headers.len()
            invariant
                i <= headers@.len(),
                cleans == clean_headers(headers@),
                m == mapping_of(cleans.take(i as int)),
                amount_list@.map_values(|a: &str| a@) == amount_aliases(),
                id_list@.map_values(|a: &str| a@) == id_aliases(),
                date_list@.map_values(|a: &str| a@) == date_aliases(),
                vendor_list@.map_values(|a: &str| a@) == vendor_aliases(),
                account_list@.map_values(|a: &str| a@) == account_aliases(),
                created_by_list@.map_values(|a: &str| a@) == created_by_aliases(),
                approved_by_list@.map_values(|a: &str| a@) == approved_by_aliases(),
                entry_type_list@.map_values(|a: &str| a@) == entry_type_aliases(),
                description_list@.map_values(|a: &str| a@) == description_aliases(),
            decreases headers@.len() - i,
        {
            proof {
                assert(cleans.take(i + 1).drop_last() =~= cleans.take(i as int));
                assert(cleans.take(i + 1).last() == clean_header(headers@[i as int]@));
            }
            let lower = to_lower(trim(headers[i]).as_str());
            let clean = replace_separator_chars(&chars_of(lower.as_str()));
            if m.amount_col.is_none() && matches_any(&clean, amount_list.as_slice()) {
                m.amount_col = Some(i);
            } else if m.id_col.is_none() && equals_any(&clean, id_list.as_slice()) {
                m.id_col = Some(i);
            } else if m.date_col.is_none() && equals_any(&clean, date_list.as_slice()) {
                m.date_col = Some(i);
            } else if m.vendor_col.is_none() && equals_any(&clean, vendor_list.as_slice()) {
                m.vendor_col = Some(i);
            } else if m.created_by_col.is_none() && equals_any(&clean, created_by_list.as_slice()) {
                m.created_by_col = Some(i);
            } else if m.approved_by_col.is_none() && equals_any(&clean, approved_by_list.as_slice()) {
                m.approved_by_col = Some(i);
            } else if m.account_col.is_none() && equals_any(&clean, account_list.as_slice()) {
                m.account_col = Some(i);
            } else if m.entry_type_col.is_none() && equals_any(&clean, entry_type_list.as_slice()) {
                m.entry_type_col = Some(i);
            } else if m.description_col.is_none() && equals_any(&clean, description_list.as_slice()) {
                m.description_col = Some(i);
            } else if m.id_col.is_none() && matches_any(&clean, id_list.as_slice()) {
                m.id_col = Some(i);
            } else if m.date_col.is_none() && matches_any(&clean, date_list.as_slice()) {
                m.date_col = Some(i);
            } else if m.vendor_col.is_none() && matches_any(&clean, vendor_list.as_slice()) {
                m.vendor_col = Some(i);
            } else if m.created_by_col.is_none() && matches_any(&clean, created_by_list.as_slice()) {
                m.created_by_col = Some(i);
            } else if m.approved_by_col.is_none() && matches_any(&clean, approved_by_list.as_slice()) {
                m.approved_by_col = Some(i);
            } else if m.account_col.is_none() && matches_any(&clean, account_list.as_slice()) {
                m.account_col = Some(i);
            } else if m.entry_type_col.is_none() && matches_any(&clean, entry_type_list.as_slice()) {
                m.entry_type_col = Some(i);
            } else if m.description_col.is_none() && matches_any(&clean, description_list.as_slice()) {
                m.description_col = Some(i);
            }
            i = i + 1;
        }
        proof {
            assert(cleans.take(headers@.len() as int) =~= cleans);
        }
        m
    }
}

/// The columns assigned to the nine fields, in the order id, amount,
/// date, vendor, account, maker, checker, entry type, description.
pub open spec fn assigned_columns(m: ColumnMapping) -> Seq<Option<usize>> {
    seq![
        m.id_col,
        m.amount_col,
        m.date_col,
        m.vendor_col,
        m.account_col,
        m.created_by_col,
        m.approved_by_col,
        m.entry_type_col,
        m.description_col,
    ]
}

/// The amount column is the first column whose cleaned header matches an
/// amount alias; it is unassigned when no header does.
pub proof fn lemma_amount_column_is_first_match(cleans: Seq<Seq<char>>)
    requires
        cleans.len() <= usize::MAX,
    ensures
        match mapping_of(cleans).amount_col {
            Some(i) => i < cleans.len() && matches_alias(cleans[i as int], amount_aliases())
                && forall|j: int| 0 <= j < i ==> !matches_alias(#[trigger] cleans[j], amount_aliases()),
            None => forall|j: int|
                0 <= j < cleans.len() ==> !matches_alias(#[trigger] cleans[j], amount_aliases()),
        },
    decreases cleans.len(),
{
    if cleans.len() > 0 {
        let prev = cleans.drop_last();
        lemma_amount_column_is_first_match(prev);
        assert(cleans.last() == cleans[cleans.len() - 1]);
        let m0 = mapping_of(prev);
        let m1 = mapping_of(cleans);
        assert(m1 == assign_column(m0, (cleans.len() - 1) as usize, cleans.last()));
        match m0.amount_col {
            Some(i) => {
                assert(m1.amount_col == Some(i));
                assert(cleans[i as int] == prev[i as int]);
                assert forall|j: int| 0 <= j < i implies !matches_alias(#[trigger] cleans[j], amount_aliases()) by {
                    assert(cleans[j] == prev[j]);
                }
            },
            None => {
                assert forall|j: int| 0 <= j < prev.len() implies !matches_alias(#[trigger] cleans[j], amount_aliases()) by {
                    assert(cleans[j] == prev[j]);
                }
            },
        }
    }
}

/// No column is assigned to two fields, and every assigned column exists.
pub proof fn lemma_columns_distinct(cleans: Seq<Seq<char>>)
    requires
        cleans.len() <= usize::MAX,
    ensures
        forall|a: int|
            0 <= a < 9 ==> match #[trigger] assigned_columns(mapping_of(cleans))[a] {
                Some(c) => c < cleans.len(),
                None => true,
            },
        forall|a: int, b: int|
            0 <= a < 9 && 0 <= b < 9 && a != b && (#[trigger] assigned_columns(
                mapping_of(cleans),
            )[a]) is Some ==> assigned_columns(mapping_of(cleans))[a] != #[trigger] assigned_columns(
                mapping_of(cleans),
            )[b],
    decreases cleans.len(),
{
    if cleans.len() > 0 {
        let prev = cleans.drop_last();
        lemma_columns_distinct(prev);
        let m0 = mapping_of(prev);
        let m1 = mapping_of(cleans);
        let c0 = assigned_columns(m0);
        let c1 = assigned_columns(m1);
        let idx = (cleans.len() - 1) as usize;
        assert(m1 == assign_column(m0, idx, cleans.last()));
        assert forall|a: int| 0 <= a < 9 implies c1[a] == c0[a] || (c0[a] is None && c1[a] == Some(idx)) by {}
        assert forall|a: int, b: int| 0 <= a < 9 && 0 <= b < 9 && a != b && c1[a] == Some(idx) implies c1[b] != Some(idx) by {}
        assert forall|a: int|
            0 <= a < 9 implies match #[trigger] assigned_columns(mapping_of(cleans))[a] {
                Some(c) => c < cleans.len(),
                None => true,
            } by {
            assert(c1[a] == c0[a] || (c0[a] is None && c1[a] == Some(idx)));
        }
        assert forall|a: int, b: int|
            0 <= a < 9 && 0 <= b < 9 && a != b && (#[trigger] assigned_columns(
                mapping_of(cleans),
            )[a]) is Some implies assigned_columns(mapping_of(cleans))[a] != #[trigger] assigned_columns(
                mapping_of(cleans),
            )[b] by {
            assert(c1[a] == c0[a] || (c0[a] is None && c1[a] == Some(idx)));
            assert(c1[b] == c0[b] || (c0[b] is None && c1[b] == Some(idx)));
        }
    }
}

/// A decimal digit.
pub open spec fn is_digit(c: char) -> bool {
    '0' <= c && c <= '9'
}

/// The value of a decimal digit.
pub open spec fn digit_value(c: char) -> nat {
    (c as u32 - '0' as u32) as nat
}

/// Every character of `s` is a decimal digit.
pub open spec fn all_digits(s: Seq<char>) -> bool {
    forall|i: int| 0 <= i < s.len() ==> is_digit(#[trigger] s[i])
}

/// The number written by the decimal digits `s`.
pub open spec fn digits_value(s: Seq<char>) -> nat
    decreases s.len(),
{
    if s.len() == 0 {
        0
    } else {
        digits_value(s.drop_last()) * 10 + digit_value(s.last())
    }
}

/// Position of the first character of `s` that is `a` or `b`, or the
/// length of `s` if there is none.
pub open spec fn first_of(s: Seq<char>, a: char, b: char) -> int
    decreases s.len(),
{
    if s.len() == 0 {
        0
    } else if s[0] == a || s[0] == b {
        0
    } else {
        1 + first_of(s.drop_first(), a, b)
    }
}

/// 10 to the power `n`.
pub open spec fn pow10(n: nat) -> nat
    decreases n,
{
    if n == 0 {
        1
    } else {
        10 * pow10((n - 1) as nat)
    }
}

/// The digits `d` read as a number of cents whose first `keep` digits are
/// whole cents. Digits past those are dropped, rounding half up on the
/// first dropped digit; when `d` is shorter, zeros are appended.
pub open spec fn shifted_cents(d: Seq<char>, keep: int) -> nat {
    if keep >= d.len() {
        digits_value(d) * pow10((keep - d.len()) as nat)
    } else if keep >= 0 {
        digits_value(d.take(keep)) + if digit_value(d[keep]) >= 5 {
            1nat
        } else {
            0nat
        }
    } else {
        0
    }
}

/// An exponent: an optional sign and at least one digit.
pub open spec fn exponent_value(x: Seq<char>) -> Option<int> {
    let negative = x.len() > 0 && x[0] == '-';
    let digits = if x.len() > 0 && (x[0] == '-' || x[0] == '+') {
        x.drop_first()
    } else {
        x
    };
    if digits.len() > 0 && all_digits(digits) {
        Some(
            if negative {
                -(digits_value(digits) as int)
            } else {
                digits_value(digits) as int
            },
        )
    } else {
        None
    }
}

/// An unsigned decimal number in cents: a mantissa `digits`, `digits.`,
/// `.digits` or `digits.digits`, optionally followed by `e` or `E` and an
/// exponent, rounded half up to the cent.
pub open spec fn unsigned_cents(body: Seq<char>) -> Option<nat> {
    let ei = first_of(body, 'e', 'E');
    let mantissa = body.take(ei);
    let exponent = if ei < body.len() {
        exponent_value(body.skip(ei + 1))
    } else {
        Some(0int)
    };
    let p = first_of(mantissa, '.', '.');
    let int_part = mantissa.take(p);
    let frac = if p < mantissa.len() {
        mantissa.skip(p + 1)
    } else {
        Seq::<char>::empty()
    };
    match exponent {
        Some(e) => if all_digits(int_part) && all_digits(frac) && int_part.len() + frac.len() > 0 {
            Some(shifted_cents(int_part + frac, int_part.len() + e + 2))
        } else {
            None
        },
        None => None,
    }
}

/// A decimal amount with an optional sign, in cents, when it fits in an
/// `i64`.
pub open spec fn parse_cents(s: Seq<char>) -> Option<i64> {
    let negative = s.len() > 0 && s[0] == '-';
    let body = if s.len() > 0 && (s[0] == '-' || s[0] == '+') {
        s.drop_first()
    } else {
        s
    };
    match unsigned_cents(body) {
        Some(v) => {
            let signed: int = if negative {
                -v
            } else {
                v as int
            };
            if i64::MIN <= signed <= i64::MAX {
                Some(signed as i64)
            } else {
                None
            }
        },
        None => None,
    }
}

/// Characters dropped from amounts before they are read: currency signs,
/// thousands separators and spaces.
pub open spec fn is_amount_noise(c: char) -> bool {
    c == '$' || c == '€' || c == '£' || c == ',' || c == ' '
}

/// `s` without the characters that `is_amount_noise` picks.
pub open spec fn strip_amount_noise(s: Seq<char>) -> Seq<char>
    decreases s.len(),
{
    if s.len() == 0 {
        s
    } else if is_amount_noise(s.last()) {
        strip_amount_noise(s.drop_last())
    } else {
        strip_amount_noise(s.drop_last()).push(s.last())
    }
}

/// The amount a cell holds, in cents.
pub open spec fn amount_of_cell(cell: Seq<char>) -> Option<i64> {
    parse_cents(strip_amount_noise(trimmed(cell)))
}

proof fn lemma_trimmed_end_after(c: char, s: Seq<char>)
    requires
        !is_white_space(c),
    ensures
        trimmed_end(seq![c] + s) == seq![c] + trimmed_end(s),
    decreases s.len(),
{
    if s.len() > 0 {
        assert((seq![c] + s).last() == s.last());
        if is_white_space(s.last()) {
            assert((seq![c] + s).drop_last() =~= seq![c] + s.drop_last());
            lemma_trimmed_end_after(c, s.drop_last());
        }
    } else {
        assert(seq![c] + s =~= seq![c]);
    }
}

proof fn lemma_strip_after(c: char, t: Seq<char>)
    requires
        c == '$' || c == '€' || c == '£' || c == ',',
    ensures
        strip_amount_noise(seq![c] + t) == strip_amount_noise(t),
    decreases t.len(),
{
    if t.len() > 0 {
        assert((seq![c] + t).drop_last() =~= seq![c] + t.drop_last());
        assert((seq![c] + t).last() == t.last());
        lemma_strip_after(c, t.drop_last());
    } else {
        assert(seq![c] + t =~= seq![c]);
        assert(seq![c].last() == c);
        assert(is_amount_noise(c));
        assert(seq![c].drop_last() =~= Seq::<char>::empty());
        assert(strip_amount_noise(seq![c]) == strip_amount_noise(Seq::<char>::empty()));
    }
}

/// A currency sign ($, € or £) or a thousands separator in front of an
/// amount does not change what the cell is read as: `£1,200.00` reads as
/// `1,200.00`, that is 120000 cents.
pub proof fn lemma_currency_sign_ignored(c: char, s: Seq<char>)
    requires
        c == '$' || c == '€' || c == '£' || c == ',',
        s.len() == 0 || !is_white_space(s[0]),
    ensures
        amount_of_cell(seq![c] + s) == amount_of_cell(s),
{
    assert(!is_white_space(c));
    let cs = seq![c] + s;
    assert(cs[0] == c);
    assert(trimmed_start(cs) == cs);
    assert(trimmed_start(s) == s);
    lemma_trimmed_end_after(c, s);
    lemma_strip_after(c, trimmed_end(s));
}

proof fn lemma_digits_value_prefix(s: Seq<char>, k: int)
    requires
        0 <= k <= s.len(),
    ensures
        digits_value(s.take(k)) <= digits_value(s),
    decreases s.len() - k,
{
    if k < s.len() {
        lemma_digits_value_prefix(s, k + 1);
        assert(s.take(k + 1).drop_last() =~= s.take(k));
    } else {
        assert(s.take(k) =~= s);
    }
}

proof fn lemma_first_of(s: Seq<char>, a: char, b: char)
    ensures
        0 <= first_of(s, a, b) <= s.len(),
        first_of(s, a, b) < s.len() ==> (s[first_of(s, a, b)] == a || s[first_of(s, a, b)] == b),
        forall|i: int| 0 <= i < first_of(s, a, b) ==> s[i] != a && s[i] != b,
    decreases s.len(),
{
    if s.len() > 0 && s[0] != a && s[0] != b {
        lemma_first_of(s.drop_first(), a, b);
        assert forall|i: int| 0 <= i < first_of(s, a, b) implies s[i] != a && s[i] != b by {
            if i > 0 {
                assert(s[i] == s.drop_first()[i - 1]);
            }
        }
    }
}

proof fn lemma_pow10_grows(n: nat)
    ensures
        pow10(n) >= 1,
        n >= 20 ==> pow10(n) >= 100_000_000_000_000_000_000,
    decreases n,
{
    if n > 0 {
        lemma_pow10_grows((n - 1) as nat);
        if n == 20 {
            assert(pow10(20) == 100_000_000_000_000_000_000) by {
                reveal_with_fuel(pow10, 21);
            }
        }
    }
}

fn is_digit_char(c: char) -> (r: bool)
    ensures
        r == is_digit(c),
{
    '0' <= c && c <= '9'
}

fn digit_of(c: char) -> (r: u32)
    requires
        is_digit(c),
    ensures
        r == digit_value(c),
        r <= 9,
{
    c as u32 - '0' as u32
}

/// Position of the first `a` or `b` in `s[from..to]`, or `to`.
fn find_either(s: &[char], from: usize, to: usize, a: char, b: char) -> (p: usize)
    requires
        from <= to <= s@.len(),
    ensures
        from <= p <= to,
        p - from == first_of(s@.subrange(from as int, to as int), a, b),
{
    let mut p = from;
    while p < to && s[p] != a && s[p] != b
        invariant
            from <= p <= to <= s@.len(),
            forall|i: int| from <= i < p ==> s@[i] != a && s@[i] != b,
        decreases to - p,
    {
        p = p + 1;
    }
    proof {
        let body = s@.subrange(from as int, to as int);
        lemma_first_of(body, a, b);
        let d = first_of(body, a, b);
        if d < p - from {
            assert(body[d] == s@[from + d]);
        }
        if p - from < d {
            assert(body[p - from] == s@[p as int]);
        }
    }
    p
}

/// Whether `s[from..to]` holds only decimal digits.
fn all_digits_in(s: &[char], from: usize, to: usize) -> (r: bool)
    requires
        from <= to <= s@.len(),
    ensures
        r == all_digits(s@.subrange(from as int, to as int)),
{
    let ghost f = s@.subrange(from as int, to as int);
    let mut i = from;
    while i < to
        invariant
            from <= i <= to <= s@.len(),
            f == s@.subrange(from as int, to as int),
            forall|k: int| 0 <= k < i - from ==> is_digit(#[trigger] f[k]),
        decreases to - i,
    {
        assert(f[i - from] == s@[i as int]);
        if !is_digit_char(s[i]) {
            return false;
        }
        i = i + 1;
    }
    true
}

/// Appends `s[from..to]` to `out`.
fn push_range(out: &mut Vec<char>, s: &[char], from: usize, to: usize)
    requires
        from <= to <= s@.len(),
    ensures
        final(out)@ == old(out)@ + s@.subrange(from as int, to as int),
{
    let mut i = from;
    while i < to
        invariant
            from <= i <= to <= s@.len(),
            out@ == old(out)@ + s@.subrange(from as int, i as int),
        decreases to - i,
    {
        out.push(s[i]);
        proof {
            assert(s@.subrange(from as int, i + 1) =~= s@.subrange(from as int, i as int).push(s@[i as int]));
        }
        i = i + 1;
    }
}

/// The number written by the first `to` digits of `d`, when it is at most
/// 2^63; `None` when it is larger.
fn read_capped(d: &Vec<char>, to: usize) -> (r: Option<u64>)
    requires
        to <= d@.len(),
        all_digits(d@),
    ensures
        r matches Some(v) ==> v == digits_value(d@.take(to as int)) && v <= 0x8000_0000_0000_0000,
        r is None ==> digits_value(d@.take(to as int)) > 0x8000_0000_0000_0000,
{
    let mut acc: u64 = 0;
    let mut i: usize = 0;
    while i < to
        invariant
            i <= to <= d@.len(),
            all_digits(d@),
            acc == digits_value(d@.take(i as int)),
            acc <= 0x8000_0000_0000_0000,
        decreases to - i,
    {
        proof {
            assert(d@.take(i + 1).drop_last() =~= d@.take(i as int));
            assert(d@.take(i + 1).last() == d@[i as int]);
            assert(is_digit(d@[i as int]));
        }
        let next: u128 = acc as u128 * 10 + digit_of(d[i]) as u128;
        if next > 0x8000_0000_0000_0000 {
            proof {
                lemma_digits_value_prefix(d@.take(to as int), i + 1);
                assert(d@.take(to as int).take(i + 1) =~= d@.take(i + 1));
            }
            return None;
        }
        acc = next as u64;
        i = i + 1;
    }
    Some(acc)
}

/// Bound above which an exponent is not read exactly.
pub open spec fn exponent_cap() -> int {
    100_000_000_000_000_000_000
}

/// The exponent written by `s[from..to]`; beyond `exponent_cap` in size it
/// is held at one more than the cap, with its sign.
fn read_exponent(s: &[char], from: usize, to: usize) -> (r: Option<i128>)
    requires
        from <= to <= s@.len(),
    ensures
        r is Some <==> exponent_value(s@.subrange(from as int, to as int)) is Some,
        r matches Some(e) ==> ({
            let x = exponent_value(s@.subrange(from as int, to as int))->0;
            &&& -exponent_cap() <= x <= exponent_cap() ==> e == x
            &&& x > exponent_cap() ==> e == exponent_cap() + 1
            &&& x < -exponent_cap() ==> e == -(exponent_cap() + 1)
        }),
{
    let ghost x = s@.subrange(from as int, to as int);
    let negative = from < to && s[from] == '-';
    let start = if from < to && (s[from] == '-' || s[from] == '+') { from + 1 } else { from };
    let ghost digits = if x.len() > 0 && (x[0] == '-' || x[0] == '+') {
        x.drop_first()
    } else {
        x
    };
    assert(digits =~= s@.subrange(start as int, to as int));
    if start == to || !all_digits_in(s, start, to) {
        return None;
    }
    let mut acc: u128 = 0;
    let mut i = start;
    while i < to
        invariant
            start <= i <= to <= s@.len(),
            digits == s@.subrange(start as int, to as int),
            all_digits(digits),
            acc == if digits_value(s@.subrange(start as int, i as int)) > exponent_cap() {
                exponent_cap() + 1
            } else {
                digits_value(s@.subrange(start as int, i as int)) as int
            },
        decreases to - i,
    {
        let ghost pre = s@.subrange(start as int, i as int);
        let ghost pre1 = s@.subrange(start as int, i + 1);
        proof {
            assert(pre1.drop_last() =~= pre);
            assert(pre1.last() == s@[i as int]);
            assert(digits[i - start] == s@[i as int]);
        }
        let d = digit_of(s[i]) as u128;
        if acc > 100_000_000_000_000_000_000 {
            acc = 100_000_000_000_000_000_001;
        } else {
            let next = acc * 10 + d;
            acc = if next > 100_000_000_000_000_000_000 { 100_000_000_000_000_000_001 } else { next };
        }
        i = i + 1;
    }
    assert(s@.subrange(start as int, to as int) =~= digits);
    let magnitude = acc as i128;
    Some(if negative { -magnitude } else { magnitude })
}

proof fn lemma_pow10_mono(a: nat, b: nat)
    requires
        a <= b,
    ensures
        pow10(a) <= pow10(b),
    decreases b,
{
    if a < b {
        lemma_pow10_mono(a, (b - 1) as nat);
    }
}

fn pow10_exec(n: u32) -> (r: u128)
    requires
        n <= 19,
    ensures
        r == pow10(n as nat),
        r <= 10_000_000_000_000_000_000,
{
    assert(pow10(19) == 10_000_000_000_000_000_000) by {
        reveal_with_fuel(pow10, 20);
    }
    let mut acc: u128 = 1;
    let mut i: u32 = 0;
    while i < n
        invariant
            i <= n <= 19,
            acc == pow10(i as nat),
            pow10(19) == 10_000_000_000_000_000_000,
        decreases n - i,
    {
        proof {
            lemma_pow10_mono((i + 1) as nat, 19);
        }
        acc = acc * 10;
        i = i + 1;
    }
    proof {
        lemma_pow10_mono(n as nat, 19);
    }
    acc
}

/// `shifted_cents(d, ek)` when it is at most 2^63, `None` when it is
/// larger; `keep` is `ek`, or on the same side of the digits when `ek` is
/// too far out to be held.
fn shifted_capped(d: &Vec<char>, keep: i128, Ghost(ek): Ghost<int>) -> (r: Option<u64>)
    requires
        all_digits(d@),
        keep == ek || (keep < 0 && ek < 0) || (keep >= d@.len() + 20 && ek >= keep),
    ensures
        r matches Some(v) ==> v == shifted_cents(d@, ek) && v <= 0x8000_0000_0000_0000,
        r is None ==> shifted_cents(d@, ek) > 0x8000_0000_0000_0000,
{
    let len = d.len();
    if keep < 0 {
        return Some(0);
    }
    if keep < len as i128 {
        let k = keep as usize;
        assert(is_digit(d@[k as int]));
        match read_capped(d, k) {
            None => {
                return None;
            },
            Some(v) => {
                let up: u64 = if digit_of(d[k]) >= 5 { 1 } else { 0 };
                if v as u128 + up as u128 > 0x8000_0000_0000_0000 {
                    return None;
                }
                return Some(v + up);
            },
        }
    }
    assert(d@.take(len as int) =~= d@);
    assert(ek >= d@.len());
    match read_capped(d, len) {
        None => {
            proof {
                lemma_pow10_grows((ek - d@.len()) as nat);
                let p = pow10((ek - d@.len()) as nat);
                assert(digits_value(d@) * p >= digits_value(d@)) by (nonlinear_arith)
                    requires
                        p >= 1,
                ;
            }
            None
        },
        Some(v) => {
            if v == 0 {
                assert(digits_value(d@) == 0);
                assert(shifted_cents(d@, ek) == 0 * pow10((ek - d@.len()) as nat));
                return Some(0);
            }
            let shift = keep - len as i128;
            if shift > 19 {
                proof {
                    lemma_pow10_grows((ek - d@.len()) as nat);
                    let p = pow10((ek - d@.len()) as nat);
                    assert(v * p >= p) by (nonlinear_arith)
                        requires
                            v >= 1,
                    ;
                }
                return None;
            }
            let p10 = pow10_exec(shift as u32);
            assert(v as u128 * p10 <= 0x8000_0000_0000_0000 * 10_000_000_000_000_000_000) by (nonlinear_arith)
                requires
                    v <= 0x8000_0000_0000_0000,
                    p10 <= 10_000_000_000_000_000_000,
            ;
            let product: u128 = v as u128 * p10;
            if product > 0x8000_0000_0000_0000 {
                return None;
            }
            Some(product as u64)
        },
    }
}

/// The cents of the unsigned number `s[start..]` (see `unsigned_cents`)
/// when it is a number of at most 2^63 cents; `None` otherwise.
#[verifier::rlimit(40)]
fn read_unsigned(s: &[char], start: usize) -> (r: Option<u64>)
    requires
        start <= s@.len(),
    ensures
        r matches Some(v) ==> unsigned_cents(s@.skip(start as int)) == Some(v as nat) && v
            <= 0x8000_0000_0000_0000,
        r is None ==> unsigned_cents(s@.skip(start as int)) is None || unsigned_cents(
            s@.skip(start as int),
        )->0 > 0x8000_0000_0000_0000,
{
    let n = s.len();
    let ghost body = s@.skip(start as int);
    assert(body =~= s@.subrange(start as int, n as int));
    let ei = find_either(s, start, n, 'e', 'E');
    let ghost mantissa = body.take(ei - start);
    assert(mantissa =~= s@.subrange(start as int, ei as int));
    let p = find_either(s, start, ei, '.', '.');
    let ghost int_part = mantissa.take(p - start);
    assert(int_part =~= s@.subrange(start as int, p as int));
    let frac_from: usize = if p < ei { p + 1 } else { ei };
    let ghost frac = if p < ei { mantissa.skip(p - start + 1) } else { Seq::<char>::empty() };
    assert(frac =~= s@.subrange(frac_from as int, ei as int));
    let ghost exponent = if ei - start < body.len() {
        exponent_value(body.skip(ei - start + 1))
    } else {
        Some(0int)
    };
    let ghost mantissa_ok = all_digits(int_part) && all_digits(frac) && int_part.len() + frac.len() > 0;
    assert(unsigned_cents(body) == match exponent {
        Some(e) => if mantissa_ok {
            Some(shifted_cents(int_part + frac, int_part.len() + e + 2))
        } else {
            None
        },
        None => None::<nat>,
    });
    if !all_digits_in(s, start, p) || !all_digits_in(s, frac_from, ei) {
        return None;
    }
    if p == start && frac_from == ei {
        return None;
    }
    let e: i128 = if ei < n {
        assert(body.skip(ei - start + 1) =~= s@.subrange(ei + 1, n as int));
        match read_exponent(s, ei + 1, n) {
            Some(e) => e,
            None => {
                return None;
            },
        }
    } else {
        0
    };
    let ghost ex: int = exponent->0;
    let mut ds: Vec<char> = Vec::new();
    push_range(&mut ds, s, start, p);
    push_range(&mut ds, s, frac_from, ei);
    assert(ds@ =~= int_part + frac);
    let keep: i128 = (p - start) as i128 + e + 2;
    let ghost ek = int_part.len() + ex + 2;
    shifted_capped(&ds, keep, Ghost(ek))
}

/// Reads a decimal amount as cents: an optional sign, a mantissa with an
/// optional fraction, and an optional exponent (`1.5e3`). Digits past the
/// cent round half up.
pub fn parse_amount_cents(s: &[char]) -> (r: Option<i64>)
    ensures
        r == parse_cents(s@),
{
    let n = s.len();
    let negative = n > 0 && s[0] == '-';
    let start: usize = if n > 0 && (s[0] == '-' || s[0] == '+') { 1 } else { 0 };
    assert(s@.skip(start as int) =~= if s@.len() > 0 && (s@[0] == '-' || s@[0] == '+') {
        s@.drop_first()
    } else {
        s@
    });
    let magnitude = match read_unsigned(s, start) {
        Some(v) => v,
        None => {
            return None;
        },
    };
    if negative {
        Some((-(magnitude as i128)) as i64)
    } else if magnitude > 0x7fff_ffff_ffff_ffff {
        None
    } else {
        Some(magnitude as i64)
    }
}

/// The cell of `row` in column `col`, if the column is mapped and the row
/// reaches it.
pub open spec fn cell_of(row: Seq<Seq<char>>, col: Option<usize>) -> Option<Seq<char>> {
    match col {
        Some(i) => if i < row.len() {
            Some(row[i as int])
        } else {
            None
        },
        None => None,
    }
}

/// The trimmed cell of `row` in column `col`.
pub open spec fn trimmed_cell(row: Seq<Seq<char>>, col: Option<usize>) -> Option<Seq<char>> {
    match cell_of(row, col) {
        Some(c) => Some(trimmed(c)),
        None => None,
    }
}

/// The cells of a row as character sequences.
pub open spec fn row_views(row: Seq<&str>) -> Seq<Seq<char>> {
    row.map_values(|c: &str| c@)
}

/// The transaction that a row at line `line` holds under mapping `m`:
/// none when the amount column is missing or its cell is not an amount.
/// A row without an id column is named `ROW-<line>`.
pub open spec fn parsed_row(m: ColumnMapping, row: Seq<Seq<char>>, line: usize) -> Option<
    TransactionView,
> {
    match cell_of(row, m.amount_col) {
        None => None,
        Some(a) => match amount_of_cell(a) {
            None => None,
            Some(cents) => Some(
                TransactionView {
                    id: match trimmed_cell(row, m.id_col) {
                        Some(s) => s,
                        None => "ROW-"@ + decimal(line as nat),
                    },
                    amount_cents: cents,
                    date: trimmed_cell(row, m.date_col),
                    vendor: trimmed_cell(row, m.vendor_col),
                    account: trimmed_cell(row, m.account_col),
                    created_by: trimmed_cell(row, m.created_by_col),
                    approved_by: trimmed_cell(row, m.approved_by_col),
                    entry_type: trimmed_cell(row, m.entry_type_col),
                    description: trimmed_cell(row, m.description_col),
                    raw_line: line,
                },
            ),
        },
    }
}

fn trimmed_cell_of(row: &[&str], col: Option<usize>) -> (r: Option<String>)
    ensures
        opt_view(r) == trimmed_cell(row_views(row@), col),
{
    match col {
        Some(i) => {
            if i < row.len() {
                Some(trim(row[i]))
            } else {
                None
            }
        },
        None => None,
    }
}

fn strip_noise(s: &Vec<char>) -> (r: Vec<char>)
    ensures
        r@ == strip_amount_noise(s@),
{
    let mut r: Vec<char> = Vec::new();
    let mut i: usize = 0;
    while i < s.len()
        invariant
            i <= s@.len(),
            r@ == strip_amount_noise(s@.take(i as int)),
        decreases s@.len() - i,
    {
        proof {
            assert(s@.take(i + 1).drop_last() =~= s@.take(i as int));
        }
        let c = s[i];
        if !(c == '$' || c == '€' || c == '£' || c == ',' || c == ' ') {
            r.push(c);
        }
        i = i + 1;
    }
    proof {
        assert(s@.take(s@.len() as int) =~= s@);
    }
    r
}

impl ColumnMapping {
    /// Reads one data row into a transaction. Cells are trimmed; the
    /// amount drops currency signs, thousands separators and spaces before
    /// it is read. Rows whose amount is missing or unreadable give `None`.
    pub fn parse_row(&self, row: &[&str], line_number: usize) -> (r: Option<Transaction>)
        ensures
            match r {
                Some(t) => parsed_row(*self, row_views(row@), line_number) == Some(t@),
                None => parsed_row(*self, row_views(row@), line_number) is None,
            },
    {
        let amount_cell = match self.amount_col {
            Some(i) => {
                if i < row.len() {
                    row[i]
                } else {
                    return None;
                }
            },
            None => {
                return None;
            },
        };
        let cleaned = strip_noise(&chars_of(trim(amount_cell).as_str()));
        let amount_cents = match parse_amount_cents(cleaned.as_slice()) {
            Some(c) => c,
            None => {
                return None;
            },
        };
        let id = match trimmed_cell_of(row, self.id_col) {
            Some(s) => s,
            None => {
                let mut s = String::from_str("ROW-");
                s.append(decimal_string(line_number).as_str());
                s
            },
        };
        let t = Transaction {
            id,
            amount_cents,
            date: trimmed_cell_of(row, self.date_col),
            vendor: trimmed_cell_of(row, self.vendor_col),
            account: trimmed_cell_of(row, self.account_col),
            created_by: trimmed_cell_of(row, self.created_by_col),
            approved_by: trimmed_cell_of(row, self.approved_by_col),
            entry_type: trimmed_cell_of(row, self.entry_type_col),
            description: trimmed_cell_of(row, self.description_col),
            raw_line: line_number,
        };
        Some(t)
    }
}

} // verus!
