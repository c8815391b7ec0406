use crate::amount::{
    abs, amount_in_range, is_material, material, round_cents, round_to_cents,
    AMOUNT_LIMIT, MICROS_PER_CENT,
};
use crate::records::{gl_in_range, gl_view, GlRecord, GlView};
use crate::text::{compare_text, lemma_text_order, lemma_text_transitive, text_lt};
use std::cmp::Ordering;
use vstd::prelude::*;
use vstd::relations::{sorted_by, total_ordering};

verus! {

/// One reported line of an out-of-balance journal entry.
#[derive(Debug, PartialEq, Eq)]
pub struct UnbalancedLine {
    pub journal_id: String,
    pub line_number: String,
    pub effective_date: String,
    pub account_number: String,
    pub local_amount: i64,
}

/// A reported line with its text as characters and its amount as an integer.
pub struct LineView {
    pub journal_id: Seq<char>,
    pub line_number: Seq<char>,
    pub effective_date: Seq<char>,
    pub account_number: Seq<char>,
    pub local_amount: int,
}

impl View for UnbalancedLine {
    type V = LineView;

    open spec fn view(&self) -> LineView {
        LineView {
            journal_id: self.journal_id@,
            line_number: self.line_number@,
            effective_date: self.effective_date@,
            account_number: self.account_number@,
            local_amount: self.local_amount as int,
        }
    }
}

pub open spec fn line_views(s: Seq<UnbalancedLine>) -> Seq<LineView> {
    s.map_values(|l: UnbalancedLine| l@)
}

/// The report columns of a ledger line.
pub open spec fn line_of(r: GlView) -> LineView {
    LineView {
        journal_id: r.journal_id,
        line_number: r.line_number,
        effective_date: r.effective_date,
        account_number: r.account_number,
        local_amount: r.local_amount,
    }
}

/// Whether a ledger line takes part in the balance check: every line, or,
/// when immaterial lines are pruned, those beyond the tolerance.
pub open spec fn is_counted(r: GlView, prune: bool) -> bool {
    !prune || is_material(r.local_amount)
}

/// The counted lines of a ledger, in ledger order.
pub open spec fn counted_lines(gl: Seq<GlView>, prune: bool) -> Seq<LineView>
    decreases gl.len(),
{
    if gl.len() == 0 {
        Seq::empty()
    } else {
        let rest = counted_lines(gl.drop_last(), prune);
        if is_counted(gl.last(), prune) {
            rest.push(line_of(gl.last()))
        } else {
            rest
        }
    }
}

/// The sum of the amounts of the lines of journal `j`.
pub open spec fn journal_total(lines: Seq<LineView>, j: Seq<char>) -> int
    decreases lines.len(),
{
    if lines.len() == 0 {
        0
    } else {
        journal_total(lines.drop_last(), j) + if lines.last().journal_id == j {
            lines.last().local_amount
        } else {
            0
        }
    }
}

/// A journal total that, rounded to cents, still exceeds the tolerance.
pub open spec fn out_of_balance(total: int) -> bool {
    is_material(round_cents(total))
}

/// The lines of `lines`, in order, whose journal is out of balance in `all`.
pub open spec fn lines_of_unbalanced(lines: Seq<LineView>, all: Seq<LineView>) -> Seq<LineView>
    decreases lines.len(),
{
    if lines.len() == 0 {
        Seq::empty()
    } else {
        let rest = lines_of_unbalanced(lines.drop_last(), all);
        if out_of_balance(journal_total(all, lines.last().journal_id)) {
            rest.push(lines.last())
        } else {
            rest
        }
    }
}

/// Report order: by journal, then line number, then the remaining columns.
pub open spec fn line_lt(a: LineView, b: LineView) -> bool {
    ||| text_lt(a.journal_id, b.journal_id)
    ||| a.journal_id == b.journal_id && text_lt(a.line_number, b.line_number)
    ||| a.journal_id == b.journal_id && a.line_number == b.line_number && text_lt(
        a.effective_date,
        b.effective_date,
    )
    ||| a.journal_id == b.journal_id && a.line_number == b.line_number && a.effective_date
        == b.effective_date && text_lt(a.account_number, b.account_number)
    ||| a.journal_id == b.journal_id && a.line_number == b.line_number && a.effective_date
        == b.effective_date && a.account_number == b.account_number && a.local_amount
        < b.local_amount
}

pub open spec fn line_le(a: LineView, b: LineView) -> bool {
    a == b || line_lt(a, b)
}

pub open spec fn line_order() -> spec_fn(LineView, LineView) -> bool {
    |a: LineView, b: LineView| line_le(a, b)
}

/// The counted lines of a ledger in report order.
pub open spec fn sorted_lines(gl: Seq<GlView>, prune: bool) -> Seq<LineView> {
    counted_lines(gl, prune).sort_by(line_order())
}

/// The unbalanced-journal report of a ledger: every counted line of each
/// out-of-balance journal, in report order.
pub open spec fn unbalanced_report(gl: Seq<GlView>, prune: bool) -> Seq<LineView> {
    let s = sorted_lines(gl, prune);
    lines_of_unbalanced(s, s)
}

proof fn lemma_line_trichotomy(a: LineView, b: LineView)
    ensures
        a == b || line_lt(a, b) || line_lt(b, a),
        !(line_lt(a, b) && line_lt(b, a)),
        !line_lt(a, a),
{
    lemma_text_order(a.journal_id, b.journal_id);
    lemma_text_order(a.line_number, b.line_number);
    lemma_text_order(a.effective_date, b.effective_date);
    lemma_text_order(a.account_number, b.account_number);
}

proof fn lemma_line_transitive(a: LineView, b: LineView, c: LineView)
    requires
        line_lt(a, b),
        line_lt(b, c),
    ensures
        line_lt(a, c),
{
    lemma_line_trichotomy(a, b);
    lemma_line_trichotomy(b, c);
    lemma_line_trichotomy(a, c);
    if text_lt(a.journal_id, b.journal_id) && text_lt(b.journal_id, c.journal_id) {
        lemma_text_transitive(a.journal_id, b.journal_id, c.journal_id);
    }
    if text_lt(a.line_number, b.line_number) && text_lt(b.line_number, c.line_number) {
        lemma_text_transitive(a.line_number, b.line_number, c.line_number);
    }
    if text_lt(a.effective_date, b.effective_date) && text_lt(
        b.effective_date,
        c.effective_date,
    ) {
        lemma_text_transitive(a.effective_date, b.effective_date, c.effective_date);
    }
    if text_lt(a.account_number, b.account_number) && text_lt(
        b.account_number,
        c.account_number,
    ) {
        lemma_text_transitive(a.account_number, b.account_number, c.account_number);
    }
}

/// Report order is a total order on line views.
pub proof fn lemma_line_order_total()
    ensures
        total_ordering(line_order()),
{
    assert forall|a: LineView, b: LineView| #[trigger]
        line_order()(a, b) && #[trigger] line_order()(b, a) implies a == b by {
        lemma_line_trichotomy(a, b);
    }
    assert forall|a: LineView, b: LineView|
        #[trigger] line_order()(a, b) || #[trigger] line_order()(b, a) by {
        lemma_line_trichotomy(a, b);
    }
    assert forall|a: LineView, b: LineView, c: LineView| #[trigger]
        line_order()(a, b) && #[trigger] line_order()(b, c) implies line_order()(a, c) by {
        if a != b && b != c {
            lemma_line_transitive(a, b, c);
        }
    }
}

proof fn lemma_selected_contains(lines: Seq<LineView>, all: Seq<LineView>, x: LineView)
    ensures
        lines_of_unbalanced(lines, all).contains(x) <==> lines.contains(x) && out_of_balance(
            journal_total(all, x.journal_id),
        ),
    decreases lines.len(),
{
    if lines.len() > 0 {
        lemma_selected_contains(lines.drop_last(), all, x);
        assert(lines =~= lines.drop_last().push(lines.last()));
        let rest = lines_of_unbalanced(lines.drop_last(), all);
        assert(rest.push(lines.last()).last() == lines.last());
        assert forall|y: LineView| rest.contains(y) implies #[trigger] rest.push(
            lines.last(),
        ).contains(y) by {
            let k = choose|k: int| 0 <= k < rest.len() && rest[k] == y;
            assert(rest.push(lines.last())[k] == y);
        }
        if rest.push(lines.last()).contains(x) && x != lines.last() {
            let k = choose|k: int| 0 <= k < rest.len() + 1 && rest.push(lines.last())[k] == x;
            assert(rest[k] == x);
        }
        if lines.contains(x) && x != lines.last() {
            let k = choose|k: int| 0 <= k < lines.len() && lines[k] == x;
            assert(lines.drop_last()[k] == x);
        }
    }
}

proof fn lemma_total_split(a: Seq<LineView>, b: Seq<LineView>, j: Seq<char>)
    ensures
        journal_total(a + b, j) == journal_total(a, j) + journal_total(b, j),
    decreases b.len(),
{
    if b.len() == 0 {
        assert(a + b =~= a);
    } else {
        assert((a + b).drop_last() =~= a + b.drop_last());
        assert((a + b).last() == b.last());
        lemma_total_split(a, b.drop_last(), j);
    }
}

proof fn lemma_total_absent(s: Seq<LineView>, j: Seq<char>)
    requires
        forall|m: int| 0 <= m < s.len() ==> #[trigger] s[m].journal_id != j,
    ensures
        journal_total(s, j) == 0,
    decreases s.len(),
{
    if s.len() > 0 {
        let r = s.drop_last();
        assert forall|m: int| 0 <= m < r.len() implies #[trigger] r[m].journal_id != j by {
            assert(r[m] == s[m]);
        }
        assert(s.last() == s[s.len() - 1]);
        lemma_total_absent(r, j);
    }
}

proof fn lemma_total_remove(s: Seq<LineView>, k: int, j: Seq<char>)
    requires
        0 <= k < s.len(),
    ensures
        journal_total(s, j) == journal_total(s.remove(k), j) + if s[k].journal_id == j {
            s[k].local_amount
        } else {
            0
        },
    decreases s.len(),
{
    if k == s.len() - 1 {
        assert(s.remove(k) =~= s.drop_last());
    } else {
        assert(s.remove(k).drop_last() =~= s.drop_last().remove(k));
        assert(s.remove(k).last() == s.last());
        assert(s.drop_last()[k] == s[k]);
        lemma_total_remove(s.drop_last(), k, j);
    }
}

/// Journal totals do not depend on the order of the lines.
pub proof fn lemma_total_permutation(a: Seq<LineView>, b: Seq<LineView>, j: Seq<char>)
    requires
        a.to_multiset() == b.to_multiset(),
    ensures
        journal_total(a, j) == journal_total(b, j),
    decreases a.len(),
{
    broadcast use vstd::seq_lib::group_to_multiset_ensures;

    if a.len() == 0 {
        assert(b.to_multiset().len() == 0);
    } else {
        let x = a.last();
        assert(a =~= a.drop_last().push(x));
        assert(a.to_multiset().count(x) > 0);
        assert(b.contains(x));
        let k = choose|k: int| 0 <= k < b.len() && b[k] == x;
        assert(a.drop_last().to_multiset() =~= b.remove(k).to_multiset());
        lemma_total_permutation(a.drop_last(), b.remove(k), j);
        lemma_total_remove(b, k, j);
    }
}

/// In a sorted sequence, a run `s[i..k]` of the lines of journal `j`,
/// bounded by lines of other journals, holds all of that journal's lines.
proof fn lemma_run_total(s: Seq<LineView>, i: int, k: int, j: Seq<char>)
    requires
        sorted_by(s, line_order()),
        0 <= i < k <= s.len(),
        forall|m: int| i <= m < k ==> #[trigger] s[m].journal_id == j,
        i == 0 || s[i - 1].journal_id != j,
        k == s.len() || s[k].journal_id != j,
    ensures
        journal_total(s, j) == journal_total(s.subrange(i, k), j),
{
    let pre = s.subrange(0, i);
    let run = s.subrange(i, k);
    let post = s.subrange(k, s.len() as int);
    assert(s =~= pre + run + post);
    lemma_total_split(pre + run, post, j);
    lemma_total_split(pre, run, j);
    if i > 0 {
        let p = s[i - 1];
        assert(line_order()(p, s[i]));
        lemma_text_order(p.journal_id, j);
        assert forall|m: int| 0 <= m < pre.len() implies #[trigger] pre[m].journal_id != j by {
            assert(pre[m] == s[m]);
            if m < i - 1 {
                assert(line_order()(s[m], p));
                lemma_text_order(s[m].journal_id, p.journal_id);
                if s[m].journal_id != p.journal_id {
                    lemma_text_transitive(s[m].journal_id, p.journal_id, j);
                }
                lemma_text_order(s[m].journal_id, j);
            }
        }
    }
    lemma_total_absent(pre, j);
    if k < s.len() {
        let q = s[k];
        assert(line_order()(s[k - 1], q));
        lemma_text_order(j, q.journal_id);
        assert forall|m: int| 0 <= m < post.len() implies #[trigger] post[m].journal_id != j by {
            assert(post[m] == s[k + m]);
            if m > 0 {
                assert(line_order()(q, s[k + m]));
                lemma_text_order(q.journal_id, s[k + m].journal_id);
                if q.journal_id != s[k + m].journal_id {
                    lemma_text_transitive(j, q.journal_id, s[k + m].journal_id);
                }
                lemma_text_order(j, s[k + m].journal_id);
            }
        }
    }
    lemma_total_absent(post, j);
}

proof fn lemma_selection_sorted(s: Seq<LineView>, all: Seq<LineView>)
    requires
        sorted_by(s, line_order()),
    ensures
        sorted_by(lines_of_unbalanced(s, all), line_order()),
    decreases s.len(),
{
    if s.len() > 0 {
        let s1 = s.drop_last();
        assert forall|i: int, j: int| 0 <= i < j < s1.len() implies #[trigger] line_order()(
            s1[i],
            s1[j],
        ) by {
            assert(line_order()(s[i], s[j]));
        }
        lemma_selection_sorted(s1, all);
        let r = lines_of_unbalanced(s1, all);
        let x = s.last();
        if out_of_balance(journal_total(all, x.journal_id)) {
            let r2 = r.push(x);
            assert forall|i: int, j: int| 0 <= i < j < r2.len() implies #[trigger] line_order()(
                r2[i],
                r2[j],
            ) by {
                if j == r.len() {
                    lemma_selected_contains(s1, all, r[i]);
                    assert(r.contains(r[i]));
                    let m = choose|m: int| 0 <= m < s1.len() && s1[m] == r[i];
                    assert(line_order()(s[m], s[s.len() - 1]));
                } else {
                    assert(line_order()(r[i], r[j]));
                }
            }
        }
    }
}

/// The report holds its lines in report order.
pub proof fn lemma_report_sorted(gl: Seq<GlView>, prune: bool)
    ensures
        sorted_by(unbalanced_report(gl, prune), line_order()),
{
    lemma_line_order_total();
    counted_lines(gl, prune).lemma_sort_by_ensures(line_order());
    let s = sorted_lines(gl, prune);
    lemma_selection_sorted(s, s);
}

/// No line of a journal whose counted lines total zero, once rounded to
/// cents, is reported; every counted line of a journal whose total is at
/// least half a cent in magnitude is reported; every reported line is a
/// counted line. Without pruning, the counted lines are all the lines of the
/// ledger.
pub proof fn lemma_report_membership(gl: Seq<GlView>, prune: bool, x: LineView)
    ensures
        round_cents(journal_total(counted_lines(gl, prune), x.journal_id)) == 0
            ==> !unbalanced_report(gl, prune).contains(x),
        abs(journal_total(counted_lines(gl, prune), x.journal_id)) >= MICROS_PER_CENT / 2
            && counted_lines(gl, prune).contains(x) ==> unbalanced_report(gl, prune).contains(x),
        unbalanced_report(gl, prune).contains(x) ==> counted_lines(gl, prune).contains(x),
{
    let lines = counted_lines(gl, prune);
    let s = sorted_lines(gl, prune);
    lemma_line_order_total();
    lines.lemma_sort_by_ensures(line_order());
    lemma_total_permutation(lines, s, x.journal_id);
    lemma_selected_contains(s, s, x);
    vstd::seq_lib::to_multiset_contains(lines, x);
    vstd::seq_lib::to_multiset_contains(s, x);
    let t = journal_total(lines, x.journal_id);
    if t >= 5_000 {
        assert((t + 5_000) / 10_000 >= 1) by (nonlinear_arith)
            requires
                t >= 5_000,
        ;
        assert(((t + 5_000) / 10_000) * 10_000 >= 10_000) by (nonlinear_arith)
            requires
                (t + 5_000) / 10_000 >= 1,
        ;
    }
    if t <= -5_000 {
        assert((-t + 5_000) / 10_000 >= 1) by (nonlinear_arith)
            requires
                -t >= 5_000,
        ;
        assert(((-t + 5_000) / 10_000) * 10_000 >= 10_000) by (nonlinear_arith)
            requires
                (-t + 5_000) / 10_000 >= 1,
        ;
    }
}

/// Two runs on ledgers with the same contents give the same report.
pub proof fn lemma_report_deterministic(a: Seq<GlRecord>, b: Seq<GlRecord>, prune: bool)
    requires
        gl_view(a) == gl_view(b),
    ensures
        unbalanced_report(gl_view(a), prune) == unbalanced_report(gl_view(b), prune),
{
}

/// Compares two lines in report order.
pub fn compare_lines(a: &UnbalancedLine, b: &UnbalancedLine) -> (r: Ordering)
    ensures
        (r == Ordering::Less) == line_lt(a@, b@),
        (r == Ordering::Equal) == (a@ == b@),
        (r == Ordering::Greater) == line_lt(b@, a@),
{
    proof {
        lemma_line_trichotomy(a@, b@);
        lemma_text_order(a.journal_id@, b.journal_id@);
        lemma_text_order(a.line_number@, b.line_number@);
        lemma_text_order(a.effective_date@, b.effective_date@);
        lemma_text_order(a.account_number@, b.account_number@);
    }
    match compare_text(&a.journal_id, &b.journal_id) {
        Ordering::Equal => {},
        c => return c,
    }
    match compare_text(&a.line_number, &b.line_number) {
        Ordering::Equal => {},
        c => return c,
    }
    match compare_text(&a.effective_date, &b.effective_date) {
        Ordering::Equal => {},
        c => return c,
    }
    match compare_text(&a.account_number, &b.account_number) {
        Ordering::Equal => {},
        c => return c,
    }
    if a.local_amount < b.local_amount {
        Ordering::Less
    } else if a.local_amount > b.local_amount {
        Ordering::Greater
    } else {
        Ordering::Equal
    }
}

/// Relies on `slice::sort_by`: it sorts by the comparison that it is given,
/// here `compare_lines`, which orders lines as `line_le`, a total order on
/// their views, so the sorted sequence of views is the only one.
#[verifier::external_body]
fn sort_lines(v: &mut Vec<UnbalancedLine>)
    ensures
        line_views(final(v)@) == line_views(old(v)@).sort_by(line_order()),
{
    v.sort_by(|a, b| compare_lines(a, b));
}

fn line_of_record(r: &GlRecord) -> (l: UnbalancedLine)
    ensures
        l@ == line_of(r@),
{
    UnbalancedLine {
        journal_id: r.journal_id.clone(),
        line_number: r.line_number.clone(),
        effective_date: r.effective_date.clone(),
        account_number: r.account_number.clone(),
        local_amount: r.local_amount,
    }
}

fn copy_line(l: &UnbalancedLine) -> (c: UnbalancedLine)
    ensures
        c@ == l@,
{
    UnbalancedLine {
        journal_id: l.journal_id.clone(),
        line_number: l.line_number.clone(),
        effective_date: l.effective_date.clone(),
        account_number: l.account_number.clone(),
        local_amount: l.local_amount,
    }
}

/// The lines of the out-of-balance journal entries of a ledger.
///
/// Lines are first selected: all of them, or, when `prune` holds, those whose
/// amount exceeds the tolerance. The selected lines are summed per journal,
/// and each total is rounded to cents; a journal whose rounded total exceeds
/// the tolerance is out of balance, and all its selected lines are reported,
/// sorted by journal, then line number.
pub fn detect_unbalanced(gl: &Vec<GlRecord>, prune: bool) -> (out: Vec<UnbalancedLine>)
    requires
        gl_in_range(gl_view(gl@)),
    ensures
        line_views(out@) == unbalanced_report(gl_view(gl@), prune),
{
    let ghost glv = gl_view(gl@);
    let mut lines: Vec<UnbalancedLine> = Vec::new();
    let mut i: usize = 0;
    while i < gl.len()
        invariant
            i <= gl@.len(),
            glv == gl_view(gl@),
            gl_in_range(glv),
            line_views(lines@) == counted_lines(glv.take(i as int), prune),
            forall|m: int| 0 <= m < lines@.len() ==> amount_in_range(#[trigger] lines@[m]@.local_amount),
        decreases gl@.len() - i,
    {
        let r = &gl[i];
        assert(glv.take(i + 1).drop_last() =~= glv.take(i as int));
        assert(glv.take(i + 1).last() == r@);
        assert(amount_in_range(glv[i as int].local_amount));
        if !prune || material(r.local_amount as i128) {
            let l = line_of_record(r);
            let ghost before = lines@;
            lines.push(l);
            assert(line_views(lines@) =~= line_views(before).push(l@));
        }
        i = i + 1;
    }
    assert(glv.take(i as int) =~= glv);
    let ghost counted = line_views(lines@);
    sort_lines(&mut lines);
    let ghost s = line_views(lines@);
    proof {
        lemma_line_order_total();
        counted.lemma_sort_by_ensures(line_order());
        assert forall|m: int| 0 <= m < lines@.len() implies amount_in_range(
            #[trigger] lines@[m]@.local_amount,
        ) by {
            assert(s[m] == lines@[m]@);
            assert(s.contains(s[m]));
            let q = choose|q: int| 0 <= q < counted.len() && counted[q] == s[m];
        }
    }
    let n = lines.len();
    let mut out: Vec<UnbalancedLine> = Vec::new();
    let mut i: usize = 0;
    while i < n
        invariant
            n == lines@.len(),
            s == line_views(lines@),
            sorted_by(s, line_order()),
            forall|m: int| 0 <= m < n ==> amount_in_range(#[trigger] lines@[m]@.local_amount),
            i <= n,
            i == 0 || i == n || s[i - 1].journal_id != s[i as int].journal_id,
            line_views(out@) == lines_of_unbalanced(s.take(i as int), s),
        decreases n - i,
    {
        let j = &lines[i].journal_id;
        let mut k: usize = i;
        let mut t: i128 = 0;
        while k < n && lines[k].journal_id == *j
            invariant
                i < n,
                i <= k <= n,
                n == lines@.len(),
                s == line_views(lines@),
                j@ == s[i as int].journal_id,
                forall|m: int| 0 <= m < n ==> amount_in_range(#[trigger] lines@[m]@.local_amount),
                forall|m: int| i <= m < k ==> #[trigger] s[m].journal_id == j@,
                t == journal_total(s.subrange(i as int, k as int), j@),
                abs(t as int) <= (k - i) as int * AMOUNT_LIMIT,
            decreases n - k,
        {
            assert(s.subrange(i as int, k + 1).drop_last() =~= s.subrange(i as int, k as int));
            assert(s.subrange(i as int, k + 1).last() == lines@[k as int]@);
            assert(amount_in_range(lines@[k as int]@.local_amount));
            t = t + lines[k].local_amount as i128;
            k = k + 1;
        }
        proof {
            lemma_run_total(s, i as int, k as int, j@);
        }
        let unbalanced = material(round_to_cents(t));
        let mut m: usize = i;
        while m < k
            invariant
                i <= m <= k <= n,
                n == lines@.len(),
                s == line_views(lines@),
                forall|q: int| i <= q < k ==> #[trigger] s[q].journal_id == j@,
                unbalanced == out_of_balance(journal_total(s, j@)),
                line_views(out@) == lines_of_unbalanced(s.take(m as int), s),
            decreases k - m,
        {
            assert(s.take(m + 1).drop_last() =~= s.take(m as int));
            assert(s.take(m + 1).last() == s[m as int]);
            if unbalanced {
                let l = copy_line(&lines[m]);
                let ghost before = out@;
                out.push(l);
                assert(line_views(out@) =~= line_views(before).push(l@));
            }
            m = m + 1;
        }
        i = k;
    }
    assert(s.take(n as int) =~= s);
    out
}

/// The unbalanced-journal report with immaterial lines pruned before the
/// journals are summed.
pub fn unbalanced_journal_entries_test(gl: &Vec<GlRecord>) -> (out: Vec<UnbalancedLine>)
    requires
        gl_in_range(gl_view(gl@)),
    ensures
        line_views(out@) == unbalanced_report(gl_view(gl@), true),
{
    detect_unbalanced(gl, true)
}

} // verus!
