use crate::amount::{abs, amount_in_range, round_cents, round_to_cents, sum_limit, AMOUNT_LIMIT};
use crate::records::{gl_in_range, gl_view, tb_in_range, tb_view, GlRecord, GlView, TbRecord, TbView};
use crate::text::{compare_text, lemma_text_order, lemma_text_transitive, text_lt};
use std::cmp::Ordering;
use vstd::prelude::*;

verus! {

/// Which accounts the completeness report covers.
#[derive(Clone, Copy, Debug, PartialEq, Eq, Structural)]
pub enum JoinPolicy {
    /// Every account of the trial balance or of the ledger.
    Outer,
    /// Every account of the trial balance; accounts found only in the ledger
    /// are left out.
    LeftOnTrialBalance,
}

/// The reconciliation key of an account in a period.
pub struct AccountKey {
    pub business_unit_code: String,
    pub fiscal_year: String,
    pub account_number: String,
}

/// An account key with its text as characters.
pub struct KeyView {
    pub business_unit_code: Seq<char>,
    pub fiscal_year: Seq<char>,
    pub account_number: Seq<char>,
}

impl View for AccountKey {
    type V = KeyView;

    open spec fn view(&self) -> KeyView {
        KeyView {
            business_unit_code: self.business_unit_code@,
            fiscal_year: self.fiscal_year@,
            account_number: self.account_number@,
        }
    }
}

/// One account of the completeness report. Amounts are in micro-units.
#[derive(Debug, PartialEq, Eq)]
pub struct CompletenessRow {
    pub business_unit_code: String,
    pub fiscal_year: String,
    pub account_number: String,
    pub opening_balance: i128,
    pub activity: i128,
    pub ending_balance: i128,
    pub difference: i128,
}

/// A report row with its key as characters and its amounts as integers.
pub struct RowView {
    pub key: KeyView,
    pub opening_balance: int,
    pub activity: int,
    pub ending_balance: int,
    pub difference: int,
}

impl View for CompletenessRow {
    type V = RowView;

    open spec fn view(&self) -> RowView {
        RowView {
            key: KeyView {
                business_unit_code: self.business_unit_code@,
                fiscal_year: self.fiscal_year@,
                account_number: self.account_number@,
            },
            opening_balance: self.opening_balance as int,
            activity: self.activity as int,
            ending_balance: self.ending_balance as int,
            difference: self.difference as int,
        }
    }
}

pub open spec fn key_views(s: Seq<AccountKey>) -> Seq<KeyView> {
    s.map_values(|k: AccountKey| k@)
}

pub open spec fn row_views(s: Seq<CompletenessRow>) -> Seq<RowView> {
    s.map_values(|r: CompletenessRow| r@)
}

pub open spec fn tb_key(r: TbView) -> KeyView {
    KeyView {
        business_unit_code: r.business_unit_code,
        fiscal_year: r.fiscal_year,
        account_number: r.account_number,
    }
}

pub open spec fn gl_key(r: GlView) -> KeyView {
    KeyView {
        business_unit_code: r.business_unit_code,
        fiscal_year: r.fiscal_year,
        account_number: r.account_number,
    }
}

/// Some of the first `n` trial-balance rows has key `k`.
pub open spec fn has_tb_key(tb: Seq<TbView>, n: int, k: KeyView) -> bool {
    exists|j: int| 0 <= j < n && #[trigger] tb_key(tb[j]) == k
}

/// Some of the first `n` ledger lines has key `k`.
pub open spec fn has_gl_key(gl: Seq<GlView>, n: int, k: KeyView) -> bool {
    exists|j: int| 0 <= j < n && #[trigger] gl_key(gl[j]) == k
}

/// The accounts that the report covers under `policy`.
pub open spec fn in_report(gl: Seq<GlView>, tb: Seq<TbView>, policy: JoinPolicy, k: KeyView) -> bool {
    has_tb_key(tb, tb.len() as int, k) || (policy == JoinPolicy::Outer && has_gl_key(
        gl,
        gl.len() as int,
        k,
    ))
}

/// The sum of the opening balances of the trial-balance rows of key `k`.
pub open spec fn opening_total(tb: Seq<TbView>, k: KeyView) -> int
    decreases tb.len(),
{
    if tb.len() == 0 {
        0
    } else {
        opening_total(tb.drop_last(), k) + if tb_key(tb.last()) == k {
            tb.last().opening_balance
        } else {
            0
        }
    }
}

/// The sum of the ending balances of the trial-balance rows of key `k`.
pub open spec fn ending_total(tb: Seq<TbView>, k: KeyView) -> int
    decreases tb.len(),
{
    if tb.len() == 0 {
        0
    } else {
        ending_total(tb.drop_last(), k) + if tb_key(tb.last()) == k {
            tb.last().ending_balance
        } else {
            0
        }
    }
}

/// The sum of the amounts of the ledger lines of key `k`.
pub open spec fn activity_total(gl: Seq<GlView>, k: KeyView) -> int
    decreases gl.len(),
{
    if gl.len() == 0 {
        0
    } else {
        activity_total(gl.drop_last(), k) + if gl_key(gl.last()) == k {
            gl.last().local_amount
        } else {
            0
        }
    }
}

/// The report row of account `k`: an account absent from one side has zero
/// balances or zero activity there.
pub open spec fn row_for(gl: Seq<GlView>, tb: Seq<TbView>, k: KeyView) -> RowView {
    let opening = opening_total(tb, k);
    let activity = activity_total(gl, k);
    let ending = ending_total(tb, k);
    RowView {
        key: k,
        opening_balance: opening,
        activity,
        ending_balance: ending,
        difference: round_cents(opening + activity - ending),
    }
}

/// Report order of accounts: by business unit, fiscal year, account number.
pub open spec fn key_lt(a: KeyView, b: KeyView) -> bool {
    ||| text_lt(a.business_unit_code, b.business_unit_code)
    ||| a.business_unit_code == b.business_unit_code && text_lt(a.fiscal_year, b.fiscal_year)
    ||| a.business_unit_code == b.business_unit_code && a.fiscal_year == b.fiscal_year
        && text_lt(a.account_number, b.account_number)
}

pub open spec fn strictly_sorted(s: Seq<KeyView>) -> bool {
    forall|i: int, j: int| 0 <= i < j < s.len() ==> key_lt(#[trigger] s[i], #[trigger] s[j])
}

/// `rows` is the completeness report of the ledger and trial balance: one row
/// per covered account, in strictly ascending account order, each row holding
/// that account's totals and their difference.
pub open spec fn is_completeness_report(
    gl: Seq<GlView>,
    tb: Seq<TbView>,
    policy: JoinPolicy,
    rows: Seq<RowView>,
) -> bool {
    &&& forall|i: int, j: int|
        0 <= i < j < rows.len() ==> key_lt(#[trigger] rows[i].key, #[trigger] rows[j].key)
    &&& forall|i: int|
        0 <= i < rows.len() ==> in_report(gl, tb, policy, #[trigger] rows[i].key) && rows[i]
            == row_for(gl, tb, rows[i].key)
    &&& forall|k: KeyView|
        #[trigger] in_report(gl, tb, policy, k) ==> exists|i: int|
            0 <= i < rows.len() && #[trigger] rows[i].key == k
}

proof fn lemma_key_trichotomy(a: KeyView, b: KeyView)
    ensures
        a == b || key_lt(a, b) || key_lt(b, a),
        !(key_lt(a, b) && key_lt(b, a)),
        !key_lt(a, a),
{
    lemma_text_order(a.business_unit_code, b.business_unit_code);
    lemma_text_order(a.fiscal_year, b.fiscal_year);
    lemma_text_order(a.account_number, b.account_number);
}

proof fn lemma_key_transitive(a: KeyView, b: KeyView, c: KeyView)
    requires
        key_lt(a, b),
        key_lt(b, c),
    ensures
        key_lt(a, c),
{
    lemma_key_trichotomy(a, b);
    lemma_key_trichotomy(b, c);
    if text_lt(a.business_unit_code, b.business_unit_code) && text_lt(
        b.business_unit_code,
        c.business_unit_code,
    ) {
        lemma_text_transitive(a.business_unit_code, b.business_unit_code, c.business_unit_code);
    }
    if text_lt(a.fiscal_year, b.fiscal_year) && text_lt(b.fiscal_year, c.fiscal_year) {
        lemma_text_transitive(a.fiscal_year, b.fiscal_year, c.fiscal_year);
    }
    if text_lt(a.account_number, b.account_number) && text_lt(
        b.account_number,
        c.account_number,
    ) {
        lemma_text_transitive(a.account_number, b.account_number, c.account_number);
    }
}

/// Compares two accounts in report order.
pub fn compare_keys(a: &AccountKey, b: &AccountKey) -> (r: Ordering)
    ensures
        (r == Ordering::Less) == key_lt(a@, b@),
        (r == Ordering::Equal) == (a@ == b@),
        (r == Ordering::Greater) == key_lt(b@, a@),
{
    proof {
        lemma_key_trichotomy(a@, b@);
        lemma_text_order(a.business_unit_code@, b.business_unit_code@);
        lemma_text_order(a.fiscal_year@, b.fiscal_year@);
        lemma_text_order(a.account_number@, b.account_number@);
    }
    match compare_text(&a.business_unit_code, &b.business_unit_code) {
        Ordering::Equal => {},
        c => return c,
    }
    match compare_text(&a.fiscal_year, &b.fiscal_year) {
        Ordering::Equal => {},
        c => return c,
    }
    compare_text(&a.account_number, &b.account_number)
}

fn key_before(a: &AccountKey, b: &AccountKey) -> (r: bool)
    ensures
        r == key_lt(a@, b@),
{
    match compare_keys(a, b) {
        Ordering::Less => true,
        _ => false,
    }
}

fn same_key(a: &AccountKey, b: &AccountKey) -> (r: bool)
    ensures
        r == (a@ == b@),
{
    a.business_unit_code == b.business_unit_code && a.fiscal_year == b.fiscal_year
        && a.account_number == b.account_number
}

/// Finds where `k` stands, or would stand, in a strictly sorted list of
/// accounts, and whether it is there.
fn search_key(keys: &Vec<AccountKey>, k: &AccountKey) -> (r: (usize, bool))
    requires
        strictly_sorted(key_views(keys@)),
    ensures
        r.0 <= keys@.len(),
        forall|i: int| 0 <= i < r.0 ==> key_lt(#[trigger] key_views(keys@)[i], k@),
        r.1 == (r.0 < keys@.len() && key_views(keys@)[r.0 as int] == k@),
        r.0 < keys@.len() && !r.1 ==> key_lt(k@, key_views(keys@)[r.0 as int]),
{
    let ghost kv = key_views(keys@);
    let mut lo: usize = 0;
    let mut hi: usize = keys.len();
    while lo < hi
        invariant
            lo <= hi <= keys@.len(),
            kv == key_views(keys@),
            strictly_sorted(kv),
            forall|i: int| 0 <= i < lo ==> key_lt(#[trigger] kv[i], k@),
            forall|i: int| hi <= i < kv.len() ==> !key_lt(#[trigger] kv[i], k@),
        decreases hi - lo,
    {
        let mid = lo + (hi - lo) / 2;
        if key_before(&keys[mid], k) {
            assert forall|i: int| 0 <= i < mid + 1 implies key_lt(#[trigger] kv[i], k@) by {
                if i < mid {
                    lemma_key_transitive(kv[i], kv[mid as int], k@);
                }
            }
            lo = mid + 1;
        } else {
            assert forall|i: int| mid <= i < kv.len() implies !key_lt(#[trigger] kv[i], k@) by {
                if i > mid && key_lt(kv[i], k@) {
                    lemma_key_transitive(kv[mid as int], kv[i], k@);
                }
            }
            hi = mid;
        }
    }
    if lo < keys.len() {
        let found = same_key(&keys[lo], k);
        proof {
            lemma_key_trichotomy(kv[lo as int], k@);
        }
        (lo, found)
    } else {
        (lo, false)
    }
}

/// The accounts of a strictly sorted list are distinct.
proof fn lemma_distinct_keys(kv: Seq<KeyView>, p: int, q: int)
    requires
        strictly_sorted(kv),
        0 <= p < kv.len(),
        0 <= q < kv.len(),
        p != q,
    ensures
        kv[p] != kv[q],
{
    if p < q {
        assert(key_lt(kv[p], kv[q]));
    } else {
        assert(key_lt(kv[q], kv[p]));
    }
    lemma_key_trichotomy(kv[p], kv[q]);
}

/// Adds `k` to a strictly sorted list of accounts, unless it is there.
fn insert_key(keys: &mut Vec<AccountKey>, k: AccountKey)
    requires
        strictly_sorted(key_views(old(keys)@)),
    ensures
        strictly_sorted(key_views(final(keys)@)),
        forall|x: KeyView|
            #[trigger] key_views(final(keys)@).contains(x) <==> key_views(old(keys)@).contains(x)
                || x == k@,
{
    let ghost old_keys = key_views(keys@);
    let (p, found) = search_key(keys, &k);
    if found {
        assert(old_keys[p as int] == k@);
        return;
    }
    let ghost kv = k@;
    proof {
        if p < keys@.len() {
            lemma_key_trichotomy(old_keys[p as int], kv);
            assert forall|j: int| p <= j < old_keys.len() implies key_lt(
                kv,
                #[trigger] old_keys[j],
            ) by {
                if j > p {
                    lemma_key_transitive(kv, old_keys[p as int], old_keys[j]);
                }
            }
        }
    }
    keys.insert(p, k);
    let ghost new_keys = key_views(keys@);
    assert(new_keys =~= old_keys.insert(p as int, kv));
    assert forall|i: int, j: int| 0 <= i < j < new_keys.len() implies key_lt(
        #[trigger] new_keys[i],
        #[trigger] new_keys[j],
    ) by {
        if j < p {
        } else if j == p {
        } else if i < p {
            lemma_key_transitive(new_keys[i], kv, new_keys[j]);
        } else if i == p {
        } else {
            assert(new_keys[i] == old_keys[i - 1]);
            assert(new_keys[j] == old_keys[j - 1]);
        }
    }
    assert forall|x: KeyView| #[trigger]
        new_keys.contains(x) <==> old_keys.contains(x) || x == kv by {
        if new_keys.contains(x) {
            let i = choose|i: int| 0 <= i < new_keys.len() && new_keys[i] == x;
            if i < p {
                assert(old_keys[i] == x);
            } else if i > p {
                assert(old_keys[i - 1] == x);
            }
        }
        if old_keys.contains(x) {
            let i = choose|i: int| 0 <= i < old_keys.len() && old_keys[i] == x;
            if i < p {
                assert(new_keys[i] == x);
            } else {
                assert(new_keys[i + 1] == x);
            }
        }
        if x == kv {
            assert(new_keys[p as int] == x);
        }
    }
}

proof fn lemma_sorted_keys_unique(a: Seq<KeyView>, b: Seq<KeyView>)
    requires
        strictly_sorted(a),
        strictly_sorted(b),
        forall|x: KeyView| a.contains(x) <==> b.contains(x),
    ensures
        a == b,
    decreases a.len(),
{
    if a.len() == 0 {
        if b.len() > 0 {
            assert(b.contains(b[0]));
        }
        assert(a =~= b);
    } else {
        assert(a.contains(a[0]));
        let j = choose|j: int| 0 <= j < b.len() && b[j] == a[0];
        assert(b.contains(b[0]));
        let i = choose|i: int| 0 <= i < a.len() && a[i] == b[0];
        lemma_key_trichotomy(a[0], b[0]);
        if j > 0 {
            assert(key_lt(b[0], b[j]));
            if i > 0 {
                assert(key_lt(a[0], a[i]));
            }
        }
        assert(a[0] == b[0]);
        let ta = a.drop_first();
        let tb = b.drop_first();
        assert forall|x: KeyView| ta.contains(x) <==> tb.contains(x) by {
            if ta.contains(x) {
                let m = choose|m: int| 0 <= m < ta.len() && ta[m] == x;
                assert(key_lt(a[0], a[m + 1]));
                lemma_key_trichotomy(a[0], x);
                assert(a.contains(x));
                let n = choose|n: int| 0 <= n < b.len() && b[n] == x;
                assert(n != 0);
                assert(tb[n - 1] == x);
            }
            if tb.contains(x) {
                let m = choose|m: int| 0 <= m < tb.len() && tb[m] == x;
                assert(key_lt(b[0], b[m + 1]));
                lemma_key_trichotomy(b[0], x);
                assert(b.contains(x));
                let n = choose|n: int| 0 <= n < a.len() && a[n] == x;
                assert(n != 0);
                assert(ta[n - 1] == x);
            }
        }
        lemma_sorted_keys_unique(ta, tb);
        assert(a =~= b) by {
            assert forall|k: int| 0 <= k < a.len() implies a[k] == b[k] by {
                if k > 0 {
                    assert(a[k] == ta[k - 1]);
                    assert(b[k] == tb[k - 1]);
                }
            }
        }
    }
}

/// Two runs on the same ledger and trial balance under the same policy give
/// the same report.
pub proof fn lemma_report_unique(
    gl: Seq<GlView>,
    tb: Seq<TbView>,
    policy: JoinPolicy,
    a: Seq<RowView>,
    b: Seq<RowView>,
)
    requires
        is_completeness_report(gl, tb, policy, a),
        is_completeness_report(gl, tb, policy, b),
    ensures
        a == b,
{
    let ka = a.map_values(|r: RowView| r.key);
    let kb = b.map_values(|r: RowView| r.key);
    assert forall|i: int, j: int| 0 <= i < j < ka.len() implies key_lt(
        #[trigger] ka[i],
        #[trigger] ka[j],
    ) by {
        assert(key_lt(a[i].key, a[j].key));
    }
    assert forall|i: int, j: int| 0 <= i < j < kb.len() implies key_lt(
        #[trigger] kb[i],
        #[trigger] kb[j],
    ) by {
        assert(key_lt(b[i].key, b[j].key));
    }
    assert forall|x: KeyView| ka.contains(x) <==> kb.contains(x) by {
        if ka.contains(x) {
            let i = choose|i: int| 0 <= i < ka.len() && ka[i] == x;
            assert(in_report(gl, tb, policy, a[i].key));
            let j = choose|j: int| 0 <= j < b.len() && #[trigger] b[j].key == x;
            assert(kb[j] == x);
        }
        if kb.contains(x) {
            let i = choose|i: int| 0 <= i < kb.len() && kb[i] == x;
            assert(in_report(gl, tb, policy, b[i].key));
            let j = choose|j: int| 0 <= j < a.len() && #[trigger] a[j].key == x;
            assert(ka[j] == x);
        }
    }
    lemma_sorted_keys_unique(ka, kb);
    assert forall|i: int| 0 <= i < a.len() implies a[i] == b[i] by {
        assert(ka[i] == kb[i]);
        assert(in_report(gl, tb, policy, a[i].key));
        assert(in_report(gl, tb, policy, b[i].key));
    }
    assert(a =~= b);
}

/// In every row of a completeness report the difference is the opening
/// balance plus the activity minus the ending balance, rounded to cents.
pub proof fn lemma_difference(
    gl: Seq<GlView>,
    tb: Seq<TbView>,
    policy: JoinPolicy,
    rows: Seq<RowView>,
)
    requires
        is_completeness_report(gl, tb, policy, rows),
    ensures
        forall|i: int|
            0 <= i < rows.len() ==> #[trigger] rows[i].difference == round_cents(
                rows[i].opening_balance + rows[i].activity - rows[i].ending_balance,
            ),
{
    assert forall|i: int| 0 <= i < rows.len() implies #[trigger] rows[i].difference == round_cents(
        rows[i].opening_balance + rows[i].activity - rows[i].ending_balance,
    ) by {
        assert(in_report(gl, tb, policy, rows[i].key));
    }
}

proof fn lemma_absent_balances(tb: Seq<TbView>, k: KeyView)
    requires
        !has_tb_key(tb, tb.len() as int, k),
    ensures
        opening_total(tb, k) == 0,
        ending_total(tb, k) == 0,
    decreases tb.len(),
{
    if tb.len() > 0 {
        let rest = tb.drop_last();
        assert forall|j: int| 0 <= j < rest.len() implies #[trigger] tb_key(rest[j]) != k by {
            assert(rest[j] == tb[j]);
        }
        assert(tb_key(tb[tb.len() - 1]) != k);
        lemma_absent_balances(rest, k);
    }
}

/// An account with ledger lines and no trial-balance row is reported under
/// the outer policy, with zero opening and ending balances, and is absent
/// under the trial-balance policy.
pub proof fn lemma_ledger_only_account(
    gl: Seq<GlView>,
    tb: Seq<TbView>,
    k: KeyView,
    outer: Seq<RowView>,
    left: Seq<RowView>,
)
    requires
        has_gl_key(gl, gl.len() as int, k),
        !has_tb_key(tb, tb.len() as int, k),
        is_completeness_report(gl, tb, JoinPolicy::Outer, outer),
        is_completeness_report(gl, tb, JoinPolicy::LeftOnTrialBalance, left),
    ensures
        exists|i: int|
            0 <= i < outer.len() && #[trigger] outer[i].key == k && outer[i].opening_balance == 0
                && outer[i].ending_balance == 0 && outer[i].activity == activity_total(gl, k),
        forall|i: int| 0 <= i < left.len() ==> #[trigger] left[i].key != k,
{
    lemma_absent_balances(tb, k);
    assert(in_report(gl, tb, JoinPolicy::Outer, k));
    let i = choose|i: int| 0 <= i < outer.len() && #[trigger] outer[i].key == k;
    assert(in_report(gl, tb, JoinPolicy::Outer, outer[i].key));
    assert forall|i: int| 0 <= i < left.len() implies #[trigger] left[i].key != k by {
        assert(in_report(gl, tb, JoinPolicy::LeftOnTrialBalance, left[i].key));
    }
}

fn key_of_tb(r: &TbRecord) -> (k: AccountKey)
    ensures
        k@ == tb_key(r@),
{
    AccountKey {
        business_unit_code: r.business_unit_code.clone(),
        fiscal_year: r.fiscal_year.clone(),
        account_number: r.account_number.clone(),
    }
}

fn key_of_gl(r: &GlRecord) -> (k: AccountKey)
    ensures
        k@ == gl_key(r@),
{
    AccountKey {
        business_unit_code: r.business_unit_code.clone(),
        fiscal_year: r.fiscal_year.clone(),
        account_number: r.account_number.clone(),
    }
}

fn zeros(n: usize) -> (v: Vec<i128>)
    ensures
        v@.len() == n,
        forall|q: int| 0 <= q < n ==> #[trigger] v@[q] == 0,
{
    let mut v: Vec<i128> = Vec::new();
    while v.len() < n
        invariant
            v@.len() <= n,
            forall|q: int| 0 <= q < v@.len() ==> #[trigger] v@[q] == 0,
        decreases n - v@.len(),
    {
        v.push(0);
    }
    v
}

/// `opening` and `ending` hold, for each account of `kv`, its totals over
/// the first `n` trial-balance rows.
spec fn balances_upto(
    opening: Seq<i128>,
    ending: Seq<i128>,
    tb: Seq<TbView>,
    kv: Seq<KeyView>,
    n: int,
) -> bool {
    &&& opening.len() == kv.len()
    &&& ending.len() == kv.len()
    &&& forall|q: int|
        0 <= q < kv.len() ==> #[trigger] opening[q] == opening_total(tb.take(n), kv[q])
            && ending[q] == ending_total(tb.take(n), kv[q]) && abs(opening[q] as int) <= n
            * AMOUNT_LIMIT && abs(ending[q] as int) <= n * AMOUNT_LIMIT
}

/// Sums the opening and the ending balances of each listed account.
fn balance_totals(tb: &Vec<TbRecord>, keys: &Vec<AccountKey>) -> (r: (Vec<i128>, Vec<i128>))
    requires
        tb_in_range(tb_view(tb@)),
        strictly_sorted(key_views(keys@)),
    ensures
        r.0@.len() == keys@.len(),
        r.1@.len() == keys@.len(),
        forall|q: int|
            0 <= q < keys@.len() ==> #[trigger] r.0@[q] == opening_total(
                tb_view(tb@),
                key_views(keys@)[q],
            ) && r.1@[q] == ending_total(tb_view(tb@), key_views(keys@)[q])
                && abs(r.0@[q] as int) <= sum_limit() && abs(r.1@[q] as int) <= sum_limit(),
{
    let ghost all = tb_view(tb@);
    let ghost kv = key_views(keys@);
    let mut opening = zeros(keys.len());
    let mut ending = zeros(keys.len());
    let mut i: usize = 0;
    while i < tb.len()
        invariant
            i <= tb@.len(),
            all == tb_view(tb@),
            kv == key_views(keys@),
            tb_in_range(all),
            strictly_sorted(kv),
            balances_upto(opening@, ending@, all, kv, i as int),
        decreases tb@.len() - i,
    {
        let r = &tb[i];
        assert(all.take(i + 1).drop_last() =~= all.take(i as int));
        assert(all.take(i + 1).last() == r@);
        assert(amount_in_range(all[i as int].opening_balance));
        let key = key_of_tb(r);
        let (p, found) = search_key(keys, &key);
        proof {
            if !found {
                assert forall|q: int| 0 <= q < kv.len() implies kv[q] != key@ by {
                    if q >= p {
                        if q > p {
                            lemma_key_transitive(key@, kv[p as int], kv[q]);
                        }
                        lemma_key_trichotomy(key@, kv[q]);
                    } else {
                        lemma_key_trichotomy(kv[q], key@);
                    }
                }
            }
        }
        let ghost prev_o = opening@;
        let ghost prev_e = ending@;
        if found {
            let o = opening[p] + r.amount_opening_balance as i128;
            let e = ending[p] + r.amount_ending_balance as i128;
            opening.set(p, o);
            ending.set(p, e);
        }
        i = i + 1;
        proof {
            let ti = all.take(i - 1);
            let tn = all.take(i as int);
            assert forall|q: int|
                0 <= q < kv.len() implies #[trigger] opening@[q] == opening_total(
                all.take(i as int),
                kv[q],
            ) && ending@[q] == ending_total(all.take(i as int), kv[q]) && abs(
                opening@[q] as int,
            ) <= i as int * AMOUNT_LIMIT && abs(ending@[q] as int) <= i as int * AMOUNT_LIMIT by {
                assert(opening_total(tn, kv[q]) == opening_total(ti, kv[q]) + if tb_key(r@)
                    == kv[q] {
                    r@.opening_balance
                } else {
                    0
                });
                assert(ending_total(tn, kv[q]) == ending_total(ti, kv[q]) + if tb_key(r@)
                    == kv[q] {
                    r@.ending_balance
                } else {
                    0
                });
                assert(prev_o[q] == opening_total(ti, kv[q]));
                assert(prev_e[q] == ending_total(ti, kv[q]));
                if found && q != p {
                    lemma_distinct_keys(kv, p as int, q);
                }
            }
            assert(balances_upto(opening@, ending@, all, kv, i as int));
        }
    }
    assert(all.take(i as int) =~= all);
    assert forall|q: int| 0 <= q < kv.len() implies #[trigger] opening@[q] == opening_total(all, kv[q])
        && ending@[q] == ending_total(all, kv[q]) && abs(opening@[q] as int) <= sum_limit() && abs(
        ending@[q] as int,
    ) <= sum_limit() by {
        assert(opening@[q] == opening_total(all.take(i as int), kv[q]));
        assert(abs(opening@[q] as int) <= i as int * AMOUNT_LIMIT);
        assert(abs(ending@[q] as int) <= i as int * AMOUNT_LIMIT);
    }
    let r = (opening, ending);
    assert forall|q: int| 0 <= q < keys@.len() implies #[trigger] r.0@[q] == opening_total(
        tb_view(tb@),
        key_views(keys@)[q],
    ) && r.1@[q] == ending_total(tb_view(tb@), key_views(keys@)[q]) && abs(r.0@[q] as int)
        <= sum_limit() && abs(r.1@[q] as int) <= sum_limit() by {
        assert(r.0@[q] == opening@[q]);
        assert(r.1@[q] == ending@[q]);
        assert(kv[q] == key_views(keys@)[q]);
    }
    r
}

/// Sums the ledger amounts of each listed account.
fn activity_totals(gl: &Vec<GlRecord>, keys: &Vec<AccountKey>) -> (r: Vec<i128>)
    requires
        gl_in_range(gl_view(gl@)),
        strictly_sorted(key_views(keys@)),
    ensures
        r@.len() == keys@.len(),
        forall|q: int|
            0 <= q < keys@.len() ==> #[trigger] r@[q] == activity_total(
                gl_view(gl@),
                key_views(keys@)[q],
            ) && abs(r@[q] as int) <= sum_limit(),
{
    let ghost all = gl_view(gl@);
    let ghost kv = key_views(keys@);
    let mut activity = zeros(keys.len());
    let mut i: usize = 0;
    while i < gl.len()
        invariant
            i <= gl@.len(),
            all == gl_view(gl@),
            kv == key_views(keys@),
            gl_in_range(all),
            strictly_sorted(kv),
            activity@.len() == kv.len(),
            forall|q: int|
                0 <= q < kv.len() ==> #[trigger] activity@[q] == activity_total(
                    all.take(i as int),
                    kv[q],
                ) && abs(activity@[q] as int) <= i as int * AMOUNT_LIMIT,
        decreases gl@.len() - i,
    {
        let r = &gl[i];
        assert(all.take(i + 1).drop_last() =~= all.take(i as int));
        assert(all.take(i + 1).last() == r@);
        assert(amount_in_range(all[i as int].local_amount));
        let key = key_of_gl(r);
        let (p, found) = search_key(keys, &key);
        proof {
            if !found {
                assert forall|q: int| 0 <= q < kv.len() implies kv[q] != key@ by {
                    if q >= p {
                        if q > p {
                            lemma_key_transitive(key@, kv[p as int], kv[q]);
                        }
                        lemma_key_trichotomy(key@, kv[q]);
                    } else {
                        lemma_key_trichotomy(kv[q], key@);
                    }
                }
            }
        }
        let ghost prev = activity@;
        if found {
            let a = activity[p] + r.local_amount as i128;
            activity.set(p, a);
        }
        proof {
            let ti = all.take(i as int);
            let tn = all.take(i + 1);
            assert forall|q: int| 0 <= q < kv.len() implies #[trigger] activity@[q]
                == activity_total(tn, kv[q]) && abs(activity@[q] as int) <= (i + 1) as int
                * AMOUNT_LIMIT by {
                assert(activity_total(tn, kv[q]) == activity_total(ti, kv[q]) + if gl_key(r@)
                    == kv[q] {
                    r@.local_amount
                } else {
                    0
                });
                assert(prev[q] == activity_total(ti, kv[q]));
                if found && q != p {
                    lemma_distinct_keys(kv, p as int, q);
                }
            }
        }
        i = i + 1;
    }
    assert(all.take(i as int) =~= all);
    activity
}

/// The completeness report: for each covered account, the trial-balance
/// opening and ending balances, the ledger activity, and the difference
/// `opening + activity - ending` rounded to cents, in account order.
pub fn reconcile(gl: &Vec<GlRecord>, tb: &Vec<TbRecord>, policy: JoinPolicy) -> (out: Vec<
    CompletenessRow,
>)
    requires
        gl_in_range(gl_view(gl@)),
        tb_in_range(tb_view(tb@)),
    ensures
        is_completeness_report(gl_view(gl@), tb_view(tb@), policy, row_views(out@)),
{
    let ghost glv = gl_view(gl@);
    let ghost tbv = tb_view(tb@);
    let mut keys: Vec<AccountKey> = Vec::new();
    let mut i: usize = 0;
    while i < tb.len()
        invariant
            i <= tb@.len(),
            tbv == tb_view(tb@),
            strictly_sorted(key_views(keys@)),
            forall|x: KeyView| #[trigger]
                key_views(keys@).contains(x) <==> has_tb_key(tbv, i as int, x),
        decreases tb@.len() - i,
    {
        let k = key_of_tb(&tb[i]);
        insert_key(&mut keys, k);
        assert forall|x: KeyView| #[trigger]
            key_views(keys@).contains(x) <==> has_tb_key(tbv, i + 1, x) by {
            if x == tb_key(tbv[i as int]) {
                assert(has_tb_key(tbv, i + 1, x));
            }
            if has_tb_key(tbv, i + 1, x) && x != tb_key(tbv[i as int]) {
                let j = choose|j: int| 0 <= j < i + 1 && #[trigger] tb_key(tbv[j]) == x;
                assert(has_tb_key(tbv, i as int, x));
            }
        }
        i = i + 1;
    }
    if policy == JoinPolicy::Outer {
        let mut i: usize = 0;
        while i < gl.len()
            invariant
                i <= gl@.len(),
                glv == gl_view(gl@),
                tbv == tb_view(tb@),
                strictly_sorted(key_views(keys@)),
                forall|x: KeyView| #[trigger]
                    key_views(keys@).contains(x) <==> has_tb_key(tbv, tbv.len() as int, x)
                        || has_gl_key(glv, i as int, x),
            decreases gl@.len() - i,
        {
            let k = key_of_gl(&gl[i]);
            insert_key(&mut keys, k);
            assert forall|x: KeyView| #[trigger]
                key_views(keys@).contains(x) <==> has_tb_key(tbv, tbv.len() as int, x)
                    || has_gl_key(glv, i + 1, x) by {
                if x == gl_key(glv[i as int]) {
                    assert(has_gl_key(glv, i + 1, x));
                }
                if has_gl_key(glv, i + 1, x) && x != gl_key(glv[i as int]) {
                    let j = choose|j: int| 0 <= j < i + 1 && #[trigger] gl_key(glv[j]) == x;
                    assert(has_gl_key(glv, i as int, x));
                }
            }
            i = i + 1;
        }
    }
    let ghost kv = key_views(keys@);
    assert forall|x: KeyView| #[trigger] kv.contains(x) <==> in_report(glv, tbv, policy, x) by {}
    let (openings, endings) = balance_totals(tb, &keys);
    let activities = activity_totals(gl, &keys);
    let mut out: Vec<CompletenessRow> = Vec::new();
    let mut i: usize = 0;
    while i < keys.len()
        invariant
            i <= keys@.len(),
            kv == key_views(keys@),
            glv == gl_view(gl@),
            tbv == tb_view(tb@),
            gl_in_range(glv),
            tb_in_range(tbv),
            out@.len() == i,
            openings@.len() == kv.len(),
            endings@.len() == kv.len(),
            activities@.len() == kv.len(),
            forall|q: int|
                0 <= q < kv.len() ==> #[trigger] openings@[q] == opening_total(tbv, kv[q])
                    && endings@[q] == ending_total(tbv, kv[q]) && abs(openings@[q] as int)
                    <= sum_limit() && abs(endings@[q] as int) <= sum_limit(),
            forall|q: int|
                0 <= q < kv.len() ==> #[trigger] activities@[q] == activity_total(glv, kv[q])
                    && abs(activities@[q] as int) <= sum_limit(),
            forall|m: int| 0 <= m < i ==> #[trigger] row_views(out@)[m] == row_for(glv, tbv, kv[m]),
        decreases keys@.len() - i,
    {
        let k = &keys[i];
        let opening = openings[i];
        let ending = endings[i];
        let activity = activities[i];
        let difference = round_to_cents(opening + activity - ending);
        let row = CompletenessRow {
            business_unit_code: k.business_unit_code.clone(),
            fiscal_year: k.fiscal_year.clone(),
            account_number: k.account_number.clone(),
            opening_balance: opening,
            activity,
            ending_balance: ending,
            difference,
        };
        let ghost before = out@;
        out.push(row);
        assert forall|m: int| 0 <= m < i + 1 implies #[trigger] row_views(out@)[m] == row_for(
            glv,
            tbv,
            kv[m],
        ) by {
            assert(row_views(out@)[m] == out@[m]@);
            if m < i {
                assert(out@[m] == before[m]);
                assert(row_views(before)[m] == before[m]@);
            } else {
                assert(kv[m] == k@);
            }
        }
        i = i + 1;
    }
    let ghost rows = row_views(out@);
    assert forall|m: int| 0 <= m < rows.len() implies #[trigger] rows[m].key == kv[m] by {
        assert(rows[m] == row_for(glv, tbv, kv[m]));
    }
    assert forall|k: KeyView| #[trigger] in_report(glv, tbv, policy, k) implies exists|m: int|
        0 <= m < rows.len() && #[trigger] rows[m].key == k by {
        assert(kv.contains(k));
        let m = choose|m: int| 0 <= m < kv.len() && kv[m] == k;
        assert(rows[m].key == k);
    }
    assert forall|m: int| 0 <= m < rows.len() implies in_report(glv, tbv, policy, #[trigger] rows[m].key)
        && rows[m] == row_for(glv, tbv, rows[m].key) by {
        assert(kv.contains(kv[m]));
    }
    out
}

/// The completeness report over the accounts of the trial balance.
pub fn completeness_test(gl: &Vec<GlRecord>, tb: &Vec<TbRecord>) -> (out: Vec<CompletenessRow>)
    requires
        gl_in_range(gl_view(gl@)),
        tb_in_range(tb_view(tb@)),
    ensures
        is_completeness_report(
            gl_view(gl@),
            tb_view(tb@),
            JoinPolicy::LeftOnTrialBalance,
            row_views(out@),
        ),
{
    reconcile(gl, tb, JoinPolicy::LeftOnTrialBalance)
}

} // verus!
