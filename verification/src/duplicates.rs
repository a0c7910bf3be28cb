//! Fuzzy duplicate payments: the same vendor paid the same amount twice
//! under invoice references that differ only in formatting or by one
//! keystroke.
use vstd::prelude::*;
use crate::grouping::{
    first_keys, group_positions, key_views, lemma_first_key_has_positions,
    lemma_positions_of_valid, positions_of,
};
use crate::models::{
    AuditFinding, AuditRule, DetailView, FindingDetail, FindingView, RiskSeverity, Transaction,
    TransactionView, finding_views, tx_views,
};
use crate::text::{
    alphanumeric, chars_of, is_alphanumeric, string_of, to_upper, trim, trimmed, uppercased,
};
use vstd::utf8::encode_utf8;

verus! {

/// The alphanumeric characters of `s`, in order.
pub open spec fn alphanumeric_only(s: Seq<char>) -> Seq<char>
    decreases s.len(),
{
    if s.len() == 0 {
        s
    } else if alphanumeric(s.last()) {
        alphanumeric_only(s.drop_last()).push(s.last())
    } else {
        alphanumeric_only(s.drop_last())
    }
}

/// `s` without its leading '0' characters.
pub open spec fn strip_leading_zeros(s: Seq<char>) -> Seq<char>
    decreases s.len(),
{
    if s.len() > 0 && s[0] == '0' {
        strip_leading_zeros(s.drop_first())
    } else {
        s
    }
}

/// Stripping leading zeros leaves no leading zero, and doing it twice is
/// the same as doing it once.
pub proof fn lemma_strip_leading_zeros(s: Seq<char>)
    ensures
        strip_leading_zeros(s).len() == 0 || strip_leading_zeros(s)[0] != '0',
        strip_leading_zeros(strip_leading_zeros(s)) == strip_leading_zeros(s),
        strip_leading_zeros(s).len() <= s.len(),
    decreases s.len(),
{
    if s.len() > 0 && s[0] == '0' {
        lemma_strip_leading_zeros(s.drop_first());
    }
}

/// A normalised reference never starts with '0'.
pub proof fn lemma_normalized_ref_has_no_leading_zero(s: Seq<char>)
    ensures
        normalized_ref(s).len() == 0 || normalized_ref(s)[0] != '0',
{
    lemma_strip_leading_zeros(uppercased(alphanumeric_only(s)));
}

/// The form in which invoice references are compared: only letters and
/// digits, upper case, without leading zeros.
pub open spec fn normalized_ref(s: Seq<char>) -> Seq<char> {
    strip_leading_zeros(uppercased(alphanumeric_only(s)))
}

/// Normalises an invoice reference: keeps the alphanumeric characters,
/// turns them to upper case and strips leading zeros.
pub fn normalize_ref(s: &str) -> (r: String)
    ensures
        r@ == normalized_ref(s@),
{
    let cs = chars_of(s);
    let mut kept: Vec<char> = Vec::new();
    let mut i: usize = 0;
    while i < cs.len()
        invariant
            cs@ == s@,
            i <= cs@.len(),
            kept@ == alphanumeric_only(s@.take(i as int)),
        decreases cs@.len() - i,
    {
        proof {
            assert(s@.take(i + 1).drop_last() =~= s@.take(i as int));
        }
        if is_alphanumeric(cs[i]) {
            kept.push(cs[i]);
        }
        i = i + 1;
    }
    proof {
        assert(s@.take(cs@.len() as int) =~= s@);
    }
    let upper_string = string_of(kept.as_slice());
    let upper = to_upper(upper_string.as_str());
    let uc = chars_of(upper.as_str());
    let mut k: usize = 0;
    proof {
        assert(uc@.skip(0) =~= uc@);
    }
    while k < uc.len() && uc[k] == '0'
        invariant
            k <= uc@.len(),
            strip_leading_zeros(uc@.skip(k as int)) == strip_leading_zeros(uc@),
        decreases uc@.len() - k,
    {
        proof {
            assert(uc@.skip(k as int).drop_first() =~= uc@.skip(k + 1));
        }
        k = k + 1;
    }
    let rest = slice_from(&uc, k);
    proof {
        let t = uc@.skip(k as int);
        assert(!(t.len() > 0 && t[0] == '0'));
    }
    string_of(rest.as_slice())
}

/// The elements of `v` from position `k` on.
pub(crate) fn slice_from(v: &Vec<char>, k: usize) -> (r: Vec<char>)
    requires
        k <= v@.len(),
    ensures
        r@ == v@.skip(k as int),
{
    let mut r: Vec<char> = Vec::new();
    let mut i = k;
    while i < v.len()
        invariant
            k <= i <= v@.len(),
            r@ == v@.subrange(k as int, i as int),
        decreases v@.len() - i,
    {
        r.push(v[i]);
        i = i + 1;
    }
    r
}

/// The smallest of three numbers.
pub open spec fn min3(x: nat, y: nat, z: nat) -> nat {
    if x <= y && x <= z {
        x
    } else if y <= z {
        y
    } else {
        z
    }
}

/// Levenshtein distance: the least number of single-character insertions,
/// deletions and substitutions that turn `a` into `b`.
pub open spec fn edit_distance(a: Seq<char>, b: Seq<char>) -> nat
    decreases a.len() + b.len(),
{
    if a.len() == 0 {
        b.len()
    } else if b.len() == 0 {
        a.len()
    } else {
        min3(
            edit_distance(a.drop_last(), b) + 1,
            edit_distance(a, b.drop_last()) + 1,
            edit_distance(a.drop_last(), b.drop_last()) + (if a.last() == b.last() {
                0nat
            } else {
                1nat
            }),
        )
    }
}

/// The distance never exceeds the length of the longer string.
pub proof fn lemma_edit_distance_at_most_longer(a: Seq<char>, b: Seq<char>)
    ensures
        edit_distance(a, b) <= if a.len() >= b.len() {
            a.len()
        } else {
            b.len()
        },
    decreases a.len() + b.len(),
{
    if a.len() > 0 && b.len() > 0 {
        lemma_edit_distance_at_most_longer(a.drop_last(), b.drop_last());
    }
}

/// A string is at distance 0 from itself.
pub proof fn lemma_edit_distance_self(a: Seq<char>)
    ensures
        edit_distance(a, a) == 0,
    decreases a.len(),
{
    if a.len() > 0 {
        lemma_edit_distance_self(a.drop_last());
    }
}

/// The distance does not depend on the order of its arguments.
pub proof fn lemma_edit_distance_symmetric(a: Seq<char>, b: Seq<char>)
    ensures
        edit_distance(a, b) == edit_distance(b, a),
    decreases a.len() + b.len(),
{
    if a.len() > 0 && b.len() > 0 {
        lemma_edit_distance_symmetric(a.drop_last(), b);
        lemma_edit_distance_symmetric(a, b.drop_last());
        lemma_edit_distance_symmetric(a.drop_last(), b.drop_last());
    }
}

/// The distance is at least the difference of the lengths.
pub proof fn lemma_edit_distance_at_least_length_gap(a: Seq<char>, b: Seq<char>)
    ensures
        edit_distance(a, b) >= a.len() - b.len(),
        edit_distance(a, b) >= b.len() - a.len(),
    decreases a.len() + b.len(),
{
    if a.len() > 0 && b.len() > 0 {
        lemma_edit_distance_at_least_length_gap(a.drop_last(), b);
        lemma_edit_distance_at_least_length_gap(a, b.drop_last());
        lemma_edit_distance_at_least_length_gap(a.drop_last(), b.drop_last());
    }
}

/// The distance is 0 exactly when the strings are equal.
pub proof fn lemma_edit_distance_zero_iff_equal(a: Seq<char>, b: Seq<char>)
    ensures
        edit_distance(a, b) == 0 <==> a == b,
    decreases a.len() + b.len(),
{
    if a.len() == 0 && b.len() == 0 {
        assert(a =~= b);
    } else if a == b {
        lemma_edit_distance_self(a);
    } else if a.len() > 0 && b.len() > 0 {
        lemma_edit_distance_zero_iff_equal(a.drop_last(), b.drop_last());
        if edit_distance(a, b) == 0 {
            assert(a.drop_last() == b.drop_last());
            assert(a =~= a.drop_last().push(a.last()));
            assert(b =~= b.drop_last().push(b.last()));
            assert(a =~= b);
        }
    }
}

/// The distance obeys the triangle inequality: going from `a` to `c`
/// never takes more edits than going through `b`.
pub proof fn lemma_edit_distance_triangle(a: Seq<char>, b: Seq<char>, c: Seq<char>)
    ensures
        edit_distance(a, c) <= edit_distance(a, b) + edit_distance(b, c),
    decreases a.len() + b.len() + c.len(),
{
    if a.len() == 0 {
        lemma_edit_distance_at_least_length_gap(b, c);
    } else if c.len() == 0 {
        lemma_edit_distance_at_least_length_gap(a, b);
    } else if b.len() == 0 {
        lemma_edit_distance_at_most_longer(a, c);
    } else {
        let a1 = a.drop_last();
        let b1 = b.drop_last();
        let c1 = c.drop_last();
        lemma_edit_distance_triangle(a1, b, c);
        lemma_edit_distance_triangle(a, b, c1);
        lemma_edit_distance_triangle(a, b1, c);
        lemma_edit_distance_triangle(a, b1, c1);
        lemma_edit_distance_triangle(a1, b1, c);
        lemma_edit_distance_triangle(a1, b1, c1);
    }
}

/// Levenshtein distance between `a` and `b`, counted in characters.
pub fn levenshtein(a: &str, b: &str) -> (d: usize)
    ensures
        d == edit_distance(a@, b@),
{
    let a_chars = chars_of(a);
    let b_chars = chars_of(b);
    let m = a_chars.len();
    let n = b_chars.len();
    let ghost sa = a@;
    let ghost sb = b@;

    // prev[j] is the distance between the first i - 1 characters of `a`
    // and the first j characters of `b`.
    let mut prev: Vec<usize> = Vec::new();
    let mut j: usize = 0;
    while j < n
        invariant
            j <= n,
            n == sb.len(),
            b_chars@ == sb,
            prev@.len() == j,
            forall|k: int| 0 <= k < j ==> prev@[k] == edit_distance(seq![], #[trigger] sb.take(k)),
        decreases n - j,
    {
        proof {
            assert(sb.take(j as int).len() == j);
        }
        prev.push(j);
        j = j + 1;
    }
    proof {
        assert(sb.take(n as int).len() == n);
    }
    prev.push(n);
    assert(forall|k: int| 0 <= k <= n ==> prev@[k] == edit_distance(sa.take(0), #[trigger] sb.take(k)))
        by {
        assert(sa.take(0) =~= Seq::<char>::empty());
    }

    let row_len = prev.len();
    assert(n < row_len);
    let mut i: usize = 0;
    while i < m
        invariant
            n < usize::MAX,
            i <= m,
            m == sa.len(),
            n == sb.len(),
            a_chars@ == sa,
            b_chars@ == sb,
            prev@.len() == n + 1,
            forall|k: int| 0 <= k <= n ==> prev@[k] == edit_distance(sa.take(i as int), #[trigger] sb.take(k)),
        decreases m - i,
    {
        let ghost ai = sa.take(i as int);
        let ghost ai1 = sa.take(i + 1);
        proof {
            assert(ai1.drop_last() =~= ai);
            assert(ai1.last() == sa[i as int]);
            assert(sb.take(0) =~= Seq::<char>::empty());
        }
        let mut cur: Vec<usize> = Vec::new();
        cur.push(i + 1);
        let mut j: usize = 1;
        while j <= n
            invariant
                1 <= j <= n + 1,
                n < usize::MAX,
                i < m,
                m == sa.len(),
                n == sb.len(),
                a_chars@ == sa,
                b_chars@ == sb,
                ai == sa.take(i as int),
                ai1 == sa.take(i + 1),
                ai1.drop_last() == ai,
                ai1.last() == sa[i as int],
                prev@.len() == n + 1,
                forall|k: int| 0 <= k <= n ==> prev@[k] == edit_distance(ai, #[trigger] sb.take(k)),
                cur@.len() == j,
                forall|k: int| 0 <= k < j ==> cur@[k] == edit_distance(ai1, #[trigger] sb.take(k)),
            decreases n + 1 - j,
        {
            let ghost bj = sb.take(j as int);
            proof {
                assert(bj.drop_last() =~= sb.take(j - 1));
                assert(bj.last() == sb[j - 1]);
                lemma_edit_distance_at_most_longer(ai, sb.take(j - 1));
                assert(sb.take(j - 1).len() == j - 1);
            }
            let cost: usize = if a_chars[i] == b_chars[j - 1] { 0 } else { 1 };
            let diag = prev[j - 1] + cost;
            let up = prev[j];
            let left = cur[j - 1];
            let side = if up <= left { up } else { left };
            let best = if side < diag { side + 1 } else { diag };
            proof {
                assert(best == edit_distance(ai1, bj));
            }
            cur.push(best);
            j = j + 1;
        }
        prev = cur;
        i = i + 1;
    }
    proof {
        assert(sa.take(m as int) =~= sa);
        assert(sb.take(n as int) =~= sb);
    }
    prev[n]
}

/// Transactions that take part in duplicate matching: a vendor is named
/// and the amount is positive.
pub open spec fn dup_eligible(t: TransactionView) -> bool {
    t.vendor is Some && t.amount_cents > 0
}

/// The transactions that take part in duplicate matching, in their order.
pub open spec fn dup_candidates(txs: Seq<TransactionView>) -> Seq<TransactionView>
    decreases txs.len(),
{
    if txs.len() == 0 {
        Seq::empty()
    } else if dup_eligible(txs.last()) {
        dup_candidates(txs.drop_last()).push(txs.last())
    } else {
        dup_candidates(txs.drop_last())
    }
}

/// Payments are compared within groups of the same trimmed, upper-cased
/// vendor and the same amount.
pub open spec fn dup_key(t: TransactionView) -> (Seq<char>, i64) {
    (uppercased(trimmed(t.vendor.unwrap())), t.amount_cents)
}

/// The group keys of the candidates.
pub open spec fn dup_keys(txs: Seq<TransactionView>) -> Seq<(Seq<char>, i64)> {
    dup_candidates(txs).map_values(|t: TransactionView| dup_key(t))
}

/// The members of the `g`-th group, in their order.
pub open spec fn dup_group(txs: Seq<TransactionView>, g: int) -> Seq<TransactionView> {
    positions_of(dup_keys(txs), first_keys(dup_keys(txs))[g]).map_values(
        |p: int| dup_candidates(txs)[p],
    )
}

/// Two references that are the same once normalised, or one keystroke
/// apart when the first normalised reference is at least four bytes long.
pub open spec fn refs_collide(a: Seq<char>, b: Seq<char>) -> bool {
    normalized_ref(a) == normalized_ref(b) || (edit_distance(normalized_ref(a), normalized_ref(b))
        <= 1 && byte_len(normalized_ref(a)) >= 4)
}

/// References that differ only in punctuation, spaces or other
/// non-alphanumeric characters (`INV-1092` and `INV 1092`) always collide,
/// whatever their length.
pub proof fn lemma_formatting_variants_collide(a: Seq<char>, b: Seq<char>)
    requires
        alphanumeric_only(a) == alphanumeric_only(b),
    ensures
        refs_collide(a, b),
{
}

/// The length in bytes of the UTF-8 encoding of `s`, as `str::len`
/// reports it.
pub open spec fn byte_len(s: Seq<char>) -> usize {
    encode_utf8(s).len() as usize
}

/// Critical from 10,000.00, High from 1,000.00, Medium below.
pub open spec fn dup_severity(amount_cents: i64) -> RiskSeverity {
    if amount_cents >= 1_000_000 {
        RiskSeverity::Critical
    } else if amount_cents >= 100_000 {
        RiskSeverity::High
    } else {
        RiskSeverity::Medium
    }
}

/// The finding raised for payments `t1` and `t2` to `vendor`.
pub open spec fn dup_finding(vendor: Seq<char>, t1: TransactionView, t2: TransactionView) -> FindingView {
    FindingView {
        rule: AuditRule::PotentialDuplicatePayment,
        severity: dup_severity(t1.amount_cents),
        transaction_id: Some(t1.id + ", "@ + t2.id),
        exposure_cents: t1.amount_cents as i128,
        raw_line: Some(t1.raw_line),
        detail: DetailView::Duplicate {
            vendor,
            first_id: t1.id,
            second_id: t2.id,
            first_line: t1.raw_line,
            second_line: t2.raw_line,
            distance: edit_distance(normalized_ref(t1.id), normalized_ref(t2.id)) as usize,
            normalized_ref: normalized_ref(t1.id),
        },
    }
}

/// Findings for the pairs (i, i + 1), ..., (i, j - 1) of group `ms`.
pub open spec fn pair_row(vendor: Seq<char>, ms: Seq<TransactionView>, i: int, j: int) -> Seq<
    FindingView,
>
    decreases j - i,
{
    if j <= i + 1 {
        Seq::empty()
    } else if refs_collide(ms[i].id, ms[j - 1].id) {
        pair_row(vendor, ms, i, j - 1).push(dup_finding(vendor, ms[i], ms[j - 1]))
    } else {
        pair_row(vendor, ms, i, j - 1)
    }
}

/// Findings for all pairs of group `ms` whose first member is before `i`,
/// ordered by first member, then by second.
pub open spec fn pair_rows(vendor: Seq<char>, ms: Seq<TransactionView>, i: int) -> Seq<FindingView>
    decreases i,
{
    if i <= 0 {
        Seq::empty()
    } else {
        pair_rows(vendor, ms, i - 1) + pair_row(vendor, ms, i - 1, ms.len() as int)
    }
}

/// The duplicate findings for the first `n` groups.
pub open spec fn dup_findings_upto(txs: Seq<TransactionView>, n: int) -> Seq<FindingView>
    decreases n,
{
    if n <= 0 {
        Seq::empty()
    } else {
        dup_findings_upto(txs, n - 1) + pair_rows(
            first_keys(dup_keys(txs))[n - 1].0,
            dup_group(txs, n - 1),
            dup_group(txs, n - 1).len() as int,
        )
    }
}

/// All duplicate findings: groups in the order of their first member, and
/// within a group the colliding pairs in order.
pub open spec fn dup_findings(txs: Seq<TransactionView>) -> Seq<FindingView> {
    dup_findings_upto(txs, first_keys(dup_keys(txs)).len() as int)
}

/// The predicate that the pair (i, jj) of group `ms` collides.
pub open spec fn pair_collides(ms: Seq<TransactionView>, i: int, jj: int) -> bool {
    refs_collide(ms[i].id, ms[jj].id)
}

/// `f` is the finding of a colliding pair (i, jj) of group `ms` with
/// `i < jj < j`.
pub open spec fn row_pair_finding(
    vendor: Seq<char>,
    ms: Seq<TransactionView>,
    i: int,
    j: int,
    f: FindingView,
) -> bool {
    exists|jj: int|
        #![trigger pair_collides(ms, i, jj)]
        i < jj < j && pair_collides(ms, i, jj) && f == dup_finding(vendor, ms[i], ms[jj])
}

/// `f` is the finding of a colliding pair (i, jj) of group `ms` with
/// `i < n` and `i < jj`.
pub open spec fn group_pair_finding(
    vendor: Seq<char>,
    ms: Seq<TransactionView>,
    n: int,
    f: FindingView,
) -> bool {
    exists|i: int, jj: int|
        #![trigger pair_collides(ms, i, jj)]
        0 <= i < n && i < jj < ms.len() && pair_collides(ms, i, jj) && f == dup_finding(
            vendor,
            ms[i],
            ms[jj],
        )
}

/// `f` is the finding of a colliding pair of one of the first `n` groups.
pub open spec fn grouped_pair_finding(txs: Seq<TransactionView>, n: int, f: FindingView) -> bool {
    exists|g: int, i: int, jj: int|
        #![trigger pair_collides(dup_group(txs, g), i, jj)]
        0 <= g < n && 0 <= i < jj < dup_group(txs, g).len() && pair_collides(dup_group(txs, g), i, jj)
            && f == dup_finding(
            first_keys(dup_keys(txs))[g].0,
            dup_group(txs, g)[i],
            dup_group(txs, g)[jj],
        )
}

proof fn lemma_pair_row(vendor: Seq<char>, ms: Seq<TransactionView>, i: int, j: int)
    requires
        0 <= i,
        j <= ms.len(),
    ensures
        forall|k: int|
            0 <= k < pair_row(vendor, ms, i, j).len() ==> #[trigger] row_pair_finding(
                vendor,
                ms,
                i,
                j,
                pair_row(vendor, ms, i, j)[k],
            ),
        forall|jj: int|
            i < jj < j && #[trigger] pair_collides(ms, i, jj) ==> pair_row(vendor, ms, i, j).contains(
                dup_finding(vendor, ms[i], ms[jj]),
            ),
    decreases j - i,
{
    if j > i + 1 {
        lemma_pair_row(vendor, ms, i, j - 1);
        let prev = pair_row(vendor, ms, i, j - 1);
        let cur = pair_row(vendor, ms, i, j);
        assert forall|k: int| 0 <= k < cur.len() implies #[trigger] row_pair_finding(
            vendor,
            ms,
            i,
            j,
            cur[k],
        ) by {
            if k < prev.len() {
                assert(cur[k] == prev[k]);
                assert(row_pair_finding(vendor, ms, i, j - 1, prev[k]));
                let jj = choose|jj: int|
                    #![trigger pair_collides(ms, i, jj)]
                    i < jj < j - 1 && pair_collides(ms, i, jj) && prev[k] == dup_finding(
                        vendor,
                        ms[i],
                        ms[jj],
                    );
                assert(pair_collides(ms, i, jj));
            } else {
                assert(cur[k] == dup_finding(vendor, ms[i], ms[j - 1]));
                assert(pair_collides(ms, i, j - 1));
            }
        }
        assert forall|jj: int| i < jj < j && #[trigger] pair_collides(ms, i, jj) implies cur.contains(
            dup_finding(vendor, ms[i], ms[jj]),
        ) by {
            if jj < j - 1 {
                let k = choose|k: int| 0 <= k < prev.len() && prev[k] == dup_finding(vendor, ms[i], ms[jj]);
                assert(cur[k] == prev[k]);
            } else {
                assert(cur[cur.len() - 1] == dup_finding(vendor, ms[i], ms[jj]));
            }
        }
    }
}

proof fn lemma_pair_rows(vendor: Seq<char>, ms: Seq<TransactionView>, n: int)
    requires
        0 <= n <= ms.len(),
    ensures
        forall|k: int|
            0 <= k < pair_rows(vendor, ms, n).len() ==> #[trigger] group_pair_finding(
                vendor,
                ms,
                n,
                pair_rows(vendor, ms, n)[k],
            ),
        forall|i: int, jj: int|
            0 <= i < n && i < jj < ms.len() && #[trigger] pair_collides(ms, i, jj) ==> pair_rows(
                vendor,
                ms,
                n,
            ).contains(dup_finding(vendor, ms[i], ms[jj])),
    decreases n,
{
    if n > 0 {
        lemma_pair_rows(vendor, ms, n - 1);
        lemma_pair_row(vendor, ms, n - 1, ms.len() as int);
        let prev = pair_rows(vendor, ms, n - 1);
        let row = pair_row(vendor, ms, n - 1, ms.len() as int);
        let cur = pair_rows(vendor, ms, n);
        assert(cur == prev + row);
        assert forall|k: int| 0 <= k < cur.len() implies #[trigger] group_pair_finding(
            vendor,
            ms,
            n,
            cur[k],
        ) by {
            if k < prev.len() {
                assert(cur[k] == prev[k]);
                assert(group_pair_finding(vendor, ms, n - 1, prev[k]));
                let (i, jj) = choose|i: int, jj: int|
                    #![trigger pair_collides(ms, i, jj)]
                    0 <= i < n - 1 && i < jj < ms.len() && pair_collides(ms, i, jj) && prev[k]
                        == dup_finding(vendor, ms[i], ms[jj]);
                assert(pair_collides(ms, i, jj));
            } else {
                assert(cur[k] == row[k - prev.len()]);
                assert(row_pair_finding(vendor, ms, n - 1, ms.len() as int, row[k - prev.len()]));
                let jj = choose|jj: int|
                    #![trigger pair_collides(ms, n - 1, jj)]
                    n - 1 < jj < ms.len() && pair_collides(ms, n - 1, jj) && row[k - prev.len()]
                        == dup_finding(vendor, ms[n - 1], ms[jj]);
                assert(pair_collides(ms, n - 1, jj));
            }
        }
        assert forall|i: int, jj: int|
            0 <= i < n && i < jj < ms.len() && #[trigger] pair_collides(ms, i, jj) implies cur.contains(
            dup_finding(vendor, ms[i], ms[jj]),
        ) by {
            let f = dup_finding(vendor, ms[i], ms[jj]);
            if i < n - 1 {
                let k = choose|k: int| 0 <= k < prev.len() && prev[k] == f;
                assert(cur[k] == f);
            } else {
                assert(row.contains(f));
                let k = choose|k: int| 0 <= k < row.len() && row[k] == f;
                assert(cur[prev.len() + k] == f);
            }
        }
    }
}

proof fn lemma_dup_upto(txs: Seq<TransactionView>, n: int)
    requires
        0 <= n <= first_keys(dup_keys(txs)).len(),
    ensures
        forall|k: int|
            0 <= k < dup_findings_upto(txs, n).len() ==> #[trigger] grouped_pair_finding(
                txs,
                n,
                dup_findings_upto(txs, n)[k],
            ),
        forall|g: int, i: int, jj: int|
            0 <= g < n && 0 <= i < jj < dup_group(txs, g).len() && #[trigger] pair_collides(
                dup_group(txs, g),
                i,
                jj,
            ) ==> dup_findings_upto(txs, n).contains(
                dup_finding(first_keys(dup_keys(txs))[g].0, dup_group(txs, g)[i], dup_group(txs, g)[jj]),
            ),
    decreases n,
{
    if n > 0 {
        lemma_dup_upto(txs, n - 1);
        let ms = dup_group(txs, n - 1);
        let vendor = first_keys(dup_keys(txs))[n - 1].0;
        lemma_pair_rows(vendor, ms, ms.len() as int);
        let prev = dup_findings_upto(txs, n - 1);
        let rows = pair_rows(vendor, ms, ms.len() as int);
        let cur = dup_findings_upto(txs, n);
        assert(cur == prev + rows);
        assert forall|k: int| 0 <= k < cur.len() implies #[trigger] grouped_pair_finding(
            txs,
            n,
            cur[k],
        ) by {
            if k < prev.len() {
                assert(cur[k] == prev[k]);
                assert(grouped_pair_finding(txs, n - 1, prev[k]));
                let (g, i, jj) = choose|g: int, i: int, jj: int|
                    #![trigger pair_collides(dup_group(txs, g), i, jj)]
                    0 <= g < n - 1 && 0 <= i < jj < dup_group(txs, g).len() && pair_collides(
                        dup_group(txs, g),
                        i,
                        jj,
                    ) && prev[k] == dup_finding(
                        first_keys(dup_keys(txs))[g].0,
                        dup_group(txs, g)[i],
                        dup_group(txs, g)[jj],
                    );
                assert(pair_collides(dup_group(txs, g), i, jj));
            } else {
                assert(cur[k] == rows[k - prev.len()]);
                assert(group_pair_finding(vendor, ms, ms.len() as int, rows[k - prev.len()]));
                let (i, jj) = choose|i: int, jj: int|
                    #![trigger pair_collides(ms, i, jj)]
                    0 <= i < ms.len() && i < jj < ms.len() && pair_collides(ms, i, jj)
                        && rows[k - prev.len()] == dup_finding(vendor, ms[i], ms[jj]);
                assert(pair_collides(dup_group(txs, n - 1), i, jj));
            }
        }
        assert forall|g: int, i: int, jj: int|
            0 <= g < n && 0 <= i < jj < dup_group(txs, g).len() && #[trigger] pair_collides(
                dup_group(txs, g),
                i,
                jj,
            ) implies cur.contains(
            dup_finding(first_keys(dup_keys(txs))[g].0, dup_group(txs, g)[i], dup_group(txs, g)[jj]),
        ) by {
            let f = dup_finding(first_keys(dup_keys(txs))[g].0, dup_group(txs, g)[i], dup_group(txs, g)[jj]);
            if g < n - 1 {
                let k = choose|k: int| 0 <= k < prev.len() && prev[k] == f;
                assert(cur[k] == f);
            } else {
                assert(rows.contains(f));
                let k = choose|k: int| 0 <= k < rows.len() && rows[k] == f;
                assert(cur[prev.len() + k] == f);
            }
        }
    }
}

/// Every duplicate finding is the finding of a colliding pair of one
/// group, the pair's first member earlier than its second, and every
/// colliding pair within a group has a finding.
pub proof fn lemma_dup_findings_exact(txs: Seq<TransactionView>)
    ensures
        forall|k: int|
            0 <= k < dup_findings(txs).len() ==> #[trigger] grouped_pair_finding(
                txs,
                first_keys(dup_keys(txs)).len() as int,
                dup_findings(txs)[k],
            ),
        forall|g: int, i: int, jj: int|
            0 <= g < first_keys(dup_keys(txs)).len() && 0 <= i < jj < dup_group(txs, g).len()
                && #[trigger] pair_collides(dup_group(txs, g), i, jj) ==> dup_findings(txs).contains(
                dup_finding(first_keys(dup_keys(txs))[g].0, dup_group(txs, g)[i], dup_group(txs, g)[jj]),
            ),
{
    lemma_dup_upto(txs, first_keys(dup_keys(txs)).len() as int);
}

/// A duplicate finding is raised only for references whose normalised
/// forms are equal, or one edit apart with the first at least four bytes
/// long (as `str::len` counts); references two or more edits apart are distinct invoices and are
/// never flagged. Every pair of a group that meets the test is flagged.
pub proof fn lemma_duplicates_one_edit_apart(txs: Seq<TransactionView>)
    ensures
        forall|k: int|
            0 <= k < dup_findings(txs).len() ==> ((#[trigger] dup_findings(txs)[k]).detail matches DetailView::Duplicate {
                first_id,
                second_id,
                distance,
                ..
            } && (normalized_ref(first_id) == normalized_ref(second_id) || (edit_distance(
                normalized_ref(first_id),
                normalized_ref(second_id),
            ) <= 1 && encode_utf8(normalized_ref(first_id)).len() as usize >= 4)) && distance <= 1),
        forall|g: int, i: int, jj: int|
            0 <= g < first_keys(dup_keys(txs)).len() && 0 <= i < jj < dup_group(txs, g).len() && (
            normalized_ref(dup_group(txs, g)[i].id) == normalized_ref(dup_group(txs, g)[jj].id) || (
            edit_distance(
                normalized_ref(dup_group(txs, g)[i].id),
                normalized_ref(dup_group(txs, g)[jj].id),
            ) <= 1 && encode_utf8(normalized_ref(dup_group(txs, g)[i].id)).len() as usize >= 4))
                ==> dup_findings(txs).contains(
                dup_finding(
                    first_keys(dup_keys(txs))[g].0,
                    #[trigger] dup_group(txs, g)[i],
                    #[trigger] dup_group(txs, g)[jj],
                ),
            ),
{
    lemma_dup_findings_exact(txs);
    let n = first_keys(dup_keys(txs)).len() as int;
    assert forall|k: int| 0 <= k < dup_findings(txs).len() implies ((#[trigger] dup_findings(
        txs,
    )[k]).detail matches DetailView::Duplicate { first_id, second_id, distance, .. } && (
    normalized_ref(first_id) == normalized_ref(second_id) || (edit_distance(
        normalized_ref(first_id),
        normalized_ref(second_id),
    ) <= 1 && encode_utf8(normalized_ref(first_id)).len() as usize >= 4)) && distance <= 1) by {
        assert(grouped_pair_finding(txs, n, dup_findings(txs)[k]));
        let (g, i, jj) = choose|g: int, i: int, jj: int|
            #![trigger pair_collides(dup_group(txs, g), i, jj)]
            0 <= g < n && 0 <= i < jj < dup_group(txs, g).len() && pair_collides(dup_group(txs, g), i, jj)
                && dup_findings(txs)[k] == dup_finding(
                first_keys(dup_keys(txs))[g].0,
                dup_group(txs, g)[i],
                dup_group(txs, g)[jj],
            );
        let a = dup_group(txs, g)[i].id;
        let b = dup_group(txs, g)[jj].id;
        assert(refs_collide(a, b));
        if normalized_ref(a) == normalized_ref(b) {
            lemma_edit_distance_self(normalized_ref(a));
        }
    }
    assert forall|g: int, i: int, jj: int|
        0 <= g < n && 0 <= i < jj < dup_group(txs, g).len() && (normalized_ref(dup_group(txs, g)[i].id)
            == normalized_ref(dup_group(txs, g)[jj].id) || (edit_distance(
            normalized_ref(dup_group(txs, g)[i].id),
            normalized_ref(dup_group(txs, g)[jj].id),
        ) <= 1 && encode_utf8(normalized_ref(dup_group(txs, g)[i].id)).len() as usize >= 4)) implies dup_findings(
        txs,
    ).contains(
        dup_finding(
            first_keys(dup_keys(txs))[g].0,
            #[trigger] dup_group(txs, g)[i],
            #[trigger] dup_group(txs, g)[jj],
        ),
    ) by {
        assert(pair_collides(dup_group(txs, g), i, jj));
    }
}

proof fn lemma_dup_candidates_eligible(txs: Seq<TransactionView>)
    ensures
        forall|p: int| 0 <= p < dup_candidates(txs).len() ==> dup_eligible(#[trigger] dup_candidates(txs)[p]),
    decreases txs.len(),
{
    if txs.len() > 0 {
        let prev = txs.drop_last();
        lemma_dup_candidates_eligible(prev);
        assert forall|p: int| 0 <= p < dup_candidates(txs).len() implies dup_eligible(
            #[trigger] dup_candidates(txs)[p],
        ) by {
            if p < dup_candidates(prev).len() {
                assert(dup_candidates(txs)[p] == dup_candidates(prev)[p]);
            }
        }
    }
}

/// Every duplicate finding is for a positive amount, and is Critical from
/// 10,000.00, High from 1,000.00 and Medium below.
pub proof fn lemma_duplicate_severity(txs: Seq<TransactionView>)
    ensures
        forall|k: int|
            0 <= k < dup_findings(txs).len() ==> {
                let f = #[trigger] dup_findings(txs)[k];
                &&& f.rule == AuditRule::PotentialDuplicatePayment
                &&& f.exposure_cents > 0
                &&& f.severity == if f.exposure_cents >= 1_000_000 {
                    RiskSeverity::Critical
                } else if f.exposure_cents >= 100_000 {
                    RiskSeverity::High
                } else {
                    RiskSeverity::Medium
                }
            },
{
    lemma_dup_findings_exact(txs);
    lemma_dup_candidates_eligible(txs);
    let n = first_keys(dup_keys(txs)).len() as int;
    assert forall|k: int| 0 <= k < dup_findings(txs).len() implies {
        let f = #[trigger] dup_findings(txs)[k];
        &&& f.rule == AuditRule::PotentialDuplicatePayment
        &&& f.exposure_cents > 0
        &&& f.severity == if f.exposure_cents >= 1_000_000 {
            RiskSeverity::Critical
        } else if f.exposure_cents >= 100_000 {
            RiskSeverity::High
        } else {
            RiskSeverity::Medium
        }
    } by {
        assert(grouped_pair_finding(txs, n, dup_findings(txs)[k]));
        let (g, i, jj) = choose|g: int, i: int, jj: int|
            #![trigger pair_collides(dup_group(txs, g), i, jj)]
            0 <= g < n && 0 <= i < jj < dup_group(txs, g).len() && pair_collides(dup_group(txs, g), i, jj)
                && dup_findings(txs)[k] == dup_finding(
                first_keys(dup_keys(txs))[g].0,
                dup_group(txs, g)[i],
                dup_group(txs, g)[jj],
            );
        let ks = dup_keys(txs);
        let key = first_keys(ks)[g];
        lemma_positions_of_valid(ks, key);
        let p = positions_of(ks, key)[i];
        assert(dup_group(txs, g)[i] == dup_candidates(txs)[p]);
        assert(dup_eligible(dup_candidates(txs)[p]));
    }
}

/// All members of a group share its vendor and amount, and no group is
/// empty.
pub proof fn lemma_dup_group_sound(txs: Seq<TransactionView>, g: int)
    requires
        0 <= g < first_keys(dup_keys(txs)).len(),
    ensures
        forall|j: int|
            0 <= j < dup_group(txs, g).len() ==> dup_key(#[trigger] dup_group(txs, g)[j])
                == first_keys(dup_keys(txs))[g],
        dup_group(txs, g).len() > 0,
{
    let ks = dup_keys(txs);
    let k = first_keys(ks)[g];
    lemma_positions_of_valid(ks, k);
    lemma_first_key_has_positions(ks, g);
    assert forall|j: int| 0 <= j < dup_group(txs, g).len() implies dup_key(
        #[trigger] dup_group(txs, g)[j],
    ) == k by {
        let p = positions_of(ks, k)[j];
        assert(ks[p] == k);
        assert(dup_group(txs, g)[j] == dup_candidates(txs)[p]);
    }
}

fn dup_severity_of(amount_cents: i64) -> (r: RiskSeverity)
    ensures
        r == dup_severity(amount_cents),
{
    if amount_cents >= 1_000_000 {
        RiskSeverity::Critical
    } else if amount_cents >= 100_000 {
        RiskSeverity::High
    } else {
        RiskSeverity::Medium
    }
}

/// Flags pairs of payments to the same vendor for the same amount whose
/// invoice references match after normalisation or differ by one edit.
pub fn detect_fuzzy_duplicates(transactions: &[Transaction]) -> (r: Vec<AuditFinding>)
    ensures
        finding_views(r@) == dup_findings(tx_views(transactions@)),
{
    let ghost txs = tx_views(transactions@);
    let mut cand_idx: Vec<usize> = Vec::new();
    let mut keys: Vec<(String, i64)> = Vec::new();
    let mut i: usize = 0;
    while i < transactions.len()
        invariant
            i <= transactions@.len(),
            txs == tx_views(transactions@),
            cand_idx@.len() == keys@.len(),
            cand_idx@.len() == dup_candidates(txs.take(i as int)).len(),
            forall|p: int|
                0 <= p < cand_idx@.len() ==> #[trigger] cand_idx@[p] < transactions@.len()
                    && txs[cand_idx@[p] as int] == dup_candidates(txs.take(i as int))[p],
            key_views(keys@) == dup_candidates(txs.take(i as int)).map_values(
                |t: TransactionView| dup_key(t),
            ),
        decreases transactions@.len() - i,
    {
        let ghost pre = txs.take(i as int);
        let ghost old_keys = keys@;
        proof {
            assert(txs.take(i + 1).drop_last() =~= pre);
            assert(txs.take(i + 1).last() == txs[i as int]);
        }
        let tx = &transactions[i];
        match &tx.vendor {
            Some(v) => {
                if tx.amount_cents > 0 {
                    let key = to_upper(trim(v.as_str()).as_str());
                    cand_idx.push(i);
                    keys.push((key, tx.amount_cents));
                    proof {
                        assert(key_views(keys@) =~= key_views(old_keys).push(dup_key(tx@)));
                        assert(dup_candidates(txs.take(i + 1)) == dup_candidates(pre).push(tx@));
                        assert(dup_candidates(txs.take(i + 1)).map_values(
                            |t: TransactionView| dup_key(t),
                        ) =~= dup_candidates(pre).map_values(|t: TransactionView| dup_key(t)).push(
                            dup_key(tx@),
                        ));
                    }
                }
            },
            None => {},
        }
        i = i + 1;
    }
    proof {
        assert(txs.take(transactions@.len() as int) =~= txs);
    }
    let ghost cands = dup_candidates(txs);
    let ghost ks = dup_keys(txs);
    assert(key_views(keys@) == ks);
    let groups = group_positions(&keys);
    let mut findings: Vec<AuditFinding> = Vec::new();
    let mut g: usize = 0;
    while g < groups.len()
        invariant
            g <= groups@.len(),
            txs == tx_views(transactions@),
            cands == dup_candidates(txs),
            ks == dup_keys(txs),
            ks == key_views(keys@),
            cand_idx@.len() == cands.len(),
            forall|p: int|
                0 <= p < cand_idx@.len() ==> #[trigger] cand_idx@[p] < transactions@.len()
                    && txs[cand_idx@[p] as int] == cands[p],
            groups@.len() == first_keys(ks).len(),
            forall|h: int|
                0 <= h < groups@.len() ==> (#[trigger] groups@[h])@.map_values(|q: usize| q as int)
                    == positions_of(ks, first_keys(ks)[h]),
            finding_views(findings@) == dup_findings_upto(txs, g as int),
        decreases groups@.len() - g,
    {
        let members = &groups[g];
        let ghost ms = dup_group(txs, g as int);
        let ghost pos = positions_of(ks, first_keys(ks)[g as int]);
        let ghost vendor = first_keys(ks)[g as int].0;
        proof {
            lemma_positions_of_valid(ks, first_keys(ks)[g as int]);
            lemma_first_key_has_positions(ks, g as int);
            assert(members@.len() == pos.len());
            assert forall|j: int| 0 <= j < members@.len() implies #[trigger] members@[j] < cand_idx@.len()
                && ms[j] == txs[cand_idx@[members@[j] as int] as int] by {
                assert(members@.map_values(|q: usize| q as int)[j] == pos[j]);
            }
            assert(ks[members@[0] as int] == first_keys(ks)[g as int]) by {
                assert(members@.map_values(|q: usize| q as int)[0] == pos[0]);
            }
            assert(ks[members@[0] as int] == (keys@[members@[0] as int].0@, keys@[members@[0] as int].1));
        }
        let vendor_name = &keys[members[0]].0;
        // Normalised references of the group's members.
        let mut norms: Vec<String> = Vec::new();
        let mut j: usize = 0;
        while j < members.len()
            invariant
                j <= members@.len(),
                members@.len() == ms.len(),
                txs == tx_views(transactions@),
                forall|q: int| 0 <= q < members@.len() ==> #[trigger] members@[q] < cand_idx@.len()
                    && ms[q] == txs[cand_idx@[members@[q] as int] as int],
                forall|p: int|
                    0 <= p < cand_idx@.len() ==> #[trigger] cand_idx@[p] < transactions@.len(),
                norms@.len() == j,
                forall|q: int| 0 <= q < j ==> (#[trigger] norms@[q])@ == normalized_ref(ms[q].id),
            decreases members@.len() - j,
        {
            let tx = &transactions[cand_idx[members[j]]];
            norms.push(normalize_ref(tx.id.as_str()));
            j = j + 1;
        }
        let ghost before = findings@;
        let mut a: usize = 0;
        while a < members.len()
            invariant
                a <= members@.len(),
                members@.len() == ms.len(),
                txs == tx_views(transactions@),
                forall|q: int| 0 <= q < members@.len() ==> #[trigger] members@[q] < cand_idx@.len()
                    && ms[q] == txs[cand_idx@[members@[q] as int] as int],
                forall|p: int|
                    0 <= p < cand_idx@.len() ==> #[trigger] cand_idx@[p] < transactions@.len(),
                norms@.len() == ms.len(),
                forall|q: int| 0 <= q < ms.len() ==> (#[trigger] norms@[q])@ == normalized_ref(ms[q].id),
                vendor_name@ == vendor,
                finding_views(findings@) == finding_views(before) + pair_rows(vendor, ms, a as int),
            decreases members@.len() - a,
        {
            let t1 = &transactions[cand_idx[members[a]]];
            let ghost row_start = findings@;
            let mut b: usize = a + 1;
            while b < members.len()
                invariant
                    a < b <= members@.len(),
                    members@.len() == ms.len(),
                    txs == tx_views(transactions@),
                    forall|q: int| 0 <= q < members@.len() ==> #[trigger] members@[q] < cand_idx@.len()
                        && ms[q] == txs[cand_idx@[members@[q] as int] as int],
                    forall|p: int|
                        0 <= p < cand_idx@.len() ==> #[trigger] cand_idx@[p] < transactions@.len(),
                    norms@.len() == ms.len(),
                    forall|q: int| 0 <= q < ms.len() ==> (#[trigger] norms@[q])@ == normalized_ref(ms[q].id),
                    vendor_name@ == vendor,
                    t1@ == ms[a as int],
                    finding_views(findings@) == finding_views(row_start) + pair_row(vendor, ms, a as int, b as int),
                decreases members@.len() - b,
            {
                let t2 = &transactions[cand_idx[members[b]]];
                let dist = levenshtein(norms[a].as_str(), norms[b].as_str());
                let ghost old = findings@;
                proof {
                    assert(t2@ == ms[b as int]);
                    assert(norms@[a as int]@ == normalized_ref(ms[a as int].id));
                    assert(norms@[b as int]@ == normalized_ref(ms[b as int].id));
                    assert(pair_row(vendor, ms, a as int, b + 1) == if refs_collide(ms[a as int].id, ms[b as int].id) {
                        pair_row(vendor, ms, a as int, b as int).push(dup_finding(vendor, ms[a as int], ms[b as int]))
                    } else {
                        pair_row(vendor, ms, a as int, b as int)
                    });
                }
                if norms[a] == norms[b] || (dist <= 1 && norms[a].as_str().len() >= 4) {
                    let mut ids = t1.id.clone();
                    ids.append(", ");
                    ids.append(t2.id.as_str());
                    let f = AuditFinding {
                        rule: AuditRule::PotentialDuplicatePayment,
                        severity: dup_severity_of(t1.amount_cents),
                        transaction_id: Some(ids),
                        exposure_cents: t1.amount_cents as i128,
                        raw_line: Some(t1.raw_line),
                        detail: FindingDetail::Duplicate {
                            vendor: vendor_name.clone(),
                            first_id: t1.id.clone(),
                            second_id: t2.id.clone(),
                            first_line: t1.raw_line,
                            second_line: t2.raw_line,
                            distance: dist,
                            normalized_ref: norms[a].clone(),
                        },
                    };
                    findings.push(f);
                    proof {
                        assert(f@ == dup_finding(vendor, ms[a as int], ms[b as int]));
                        assert(finding_views(findings@) =~= finding_views(old).push(f@));
                    }
                }
                proof {
                    assert(finding_views(findings@) =~= finding_views(row_start) + pair_row(
                        vendor,
                        ms,
                        a as int,
                        b + 1,
                    ));
                }
                b = b + 1;
            }
            proof {
                assert(finding_views(before) + pair_rows(vendor, ms, a + 1) =~= finding_views(before)
                    + pair_rows(vendor, ms, a as int) + pair_row(vendor, ms, a as int, ms.len() as int));
            }
            a = a + 1;
        }
        proof {
            assert(finding_views(findings@) =~= dup_findings_upto(txs, g + 1));
        }
        g = g + 1;
    }
    findings
}

} // verus!
