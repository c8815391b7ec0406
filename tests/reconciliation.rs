use ledger_recon::amount::{material, round_to_cents, MICROS_PER_UNIT};
use ledger_recon::completeness::{
    completeness_test, compare_keys, reconcile, AccountKey, CompletenessRow, JoinPolicy,
};
use ledger_recon::records::{GlRecord, TbRecord};
use ledger_recon::schema::{gl_schema, tb_schema, validate_schema, ColumnType, Field, SchemaMismatch};
use ledger_recon::text::compare_text;
use ledger_recon::unbalanced::{detect_unbalanced, unbalanced_journal_entries_test, UnbalancedLine};
use std::cmp::Ordering;

fn micros(units: f64) -> i64 {
    (units * MICROS_PER_UNIT as f64).round() as i64
}

fn gl_line(journal: &str, line: &str, account: &str, amount: f64) -> GlRecord {
    GlRecord {
        business_unit_code: "01".to_string(),
        doc_number: "D1".to_string(),
        fiscal_year: "2024".to_string(),
        line_number: line.to_string(),
        effective_date: "2024-01-31".to_string(),
        account_number: account.to_string(),
        local_amount: micros(amount),
        journal_id: journal.to_string(),
    }
}

fn tb_row(bu: &str, fy: &str, account: &str, opening: f64, ending: f64) -> TbRecord {
    TbRecord {
        business_unit_code: bu.to_string(),
        fiscal_year: fy.to_string(),
        account_number: account.to_string(),
        amount_opening_balance: micros(opening),
        amount_ending_balance: micros(ending),
    }
}

fn report_line(journal: &str, line: &str, account: &str, amount: f64) -> UnbalancedLine {
    UnbalancedLine {
        journal_id: journal.to_string(),
        line_number: line.to_string(),
        effective_date: "2024-01-31".to_string(),
        account_number: account.to_string(),
        local_amount: micros(amount),
    }
}

fn field(name: &str, dtype: ColumnType) -> Field {
    Field { name: name.to_string(), dtype }
}

#[test]
fn does_unbalanced_run() {
    let gl = vec![gl_line("A", "1", "1000", 10.0), gl_line("A", "2", "2000", -10.0)];
    let out = unbalanced_journal_entries_test(&gl);
    assert!(out.is_empty());
}

#[test]
fn does_completeness_run() {
    let gl = vec![gl_line("A", "1", "1000", 10.0)];
    let tb = vec![tb_row("01", "2024", "1000", 0.0, 10.0)];
    let out = completeness_test(&gl, &tb);
    assert_eq!(out.len(), 1);
}

#[test]
fn balanced_journal_is_not_reported() {
    let gl = vec![gl_line("A", "1", "1000", 100.00), gl_line("A", "2", "2000", -100.00)];
    assert_eq!(unbalanced_journal_entries_test(&gl), vec![]);
}

#[test]
fn unbalanced_journal_reports_both_lines_by_line_number() {
    let gl = vec![gl_line("B", "2", "2000", -49.99), gl_line("B", "1", "1000", 50.00)];
    let out = unbalanced_journal_entries_test(&gl);
    assert_eq!(
        out,
        vec![report_line("B", "1", "1000", 50.00), report_line("B", "2", "2000", -49.99)]
    );
}

#[test]
fn only_unbalanced_journals_are_reported_in_full() {
    let gl = vec![
        gl_line("C", "1", "1000", 5.0),
        gl_line("A", "1", "1000", 1.0),
        gl_line("B", "1", "1000", 7.0),
        gl_line("A", "2", "2000", -1.0),
        gl_line("C", "2", "2000", -2.0),
        gl_line("B", "2", "2000", -7.0),
        gl_line("C", "3", "3000", -1.0),
    ];
    let out = unbalanced_journal_entries_test(&gl);
    assert_eq!(
        out,
        vec![
            report_line("C", "1", "1000", 5.0),
            report_line("C", "2", "2000", -2.0),
            report_line("C", "3", "3000", -1.0),
        ]
    );
}

#[test]
fn single_line_journal_is_unbalanced() {
    let gl = vec![gl_line("S", "1", "1000", 0.02)];
    assert_eq!(unbalanced_journal_entries_test(&gl), vec![report_line("S", "1", "1000", 0.02)]);
}

#[test]
fn empty_ledger_gives_empty_reports() {
    let gl: Vec<GlRecord> = vec![];
    let tb: Vec<TbRecord> = vec![];
    assert!(unbalanced_journal_entries_test(&gl).is_empty());
    assert!(reconcile(&gl, &tb, JoinPolicy::Outer).is_empty());
}

#[test]
fn immaterial_lines_are_pruned_before_summing() {
    let gl = vec![
        gl_line("Z", "1", "1000", 0.0),
        gl_line("Z", "2", "1000", 0.000005),
        gl_line("Y", "1", "1000", 3.0),
        gl_line("Y", "2", "1000", 0.0),
    ];
    assert_eq!(unbalanced_journal_entries_test(&gl), vec![report_line("Y", "1", "1000", 3.0)]);
    assert_eq!(
        detect_unbalanced(&gl, false),
        vec![report_line("Y", "1", "1000", 3.0), report_line("Y", "2", "1000", 0.0)]
    );
}

#[test]
fn journal_totals_are_rounded_to_cents() {
    let gl = vec![gl_line("R", "1", "1000", 10.004), gl_line("R", "2", "1000", -10.0)];
    assert!(unbalanced_journal_entries_test(&gl).is_empty());
    let gl = vec![gl_line("R", "1", "1000", 10.005), gl_line("R", "2", "1000", -10.0)];
    assert_eq!(unbalanced_journal_entries_test(&gl).len(), 2);
}

#[test]
fn detector_is_deterministic() {
    let gl = vec![
        gl_line("B", "1", "1000", 1.0),
        gl_line("A", "1", "1000", 2.0),
        gl_line("B", "1", "0500", 1.0),
    ];
    assert_eq!(unbalanced_journal_entries_test(&gl), unbalanced_journal_entries_test(&gl));
    let out = unbalanced_journal_entries_test(&gl);
    assert_eq!(out[0].journal_id, "A");
    assert_eq!(out[1].account_number, "0500");
    assert_eq!(out[2].account_number, "1000");
}

fn row(bu: &str, fy: &str, acct: &str, o: f64, a: f64, e: f64, d: f64) -> CompletenessRow {
    CompletenessRow {
        business_unit_code: bu.to_string(),
        fiscal_year: fy.to_string(),
        account_number: acct.to_string(),
        opening_balance: micros(o) as i128,
        activity: micros(a) as i128,
        ending_balance: micros(e) as i128,
        difference: micros(d) as i128,
    }
}

#[test]
fn completeness_reconciles_to_zero() {
    let tb = vec![tb_row("01", "2024", "1000", 100.00, 150.00)];
    let gl = vec![gl_line("A", "1", "1000", 30.00), gl_line("A", "2", "1000", 20.00)];
    assert_eq!(
        completeness_test(&gl, &tb),
        vec![row("01", "2024", "1000", 100.0, 50.0, 150.0, 0.0)]
    );
    let gl = vec![gl_line("A", "1", "1000", 40.00)];
    assert_eq!(
        completeness_test(&gl, &tb),
        vec![row("01", "2024", "1000", 100.0, 40.0, 150.0, -10.0)]
    );
}

#[test]
fn difference_is_rounded_to_cents() {
    let tb = vec![
        tb_row("01", "2024", "1000", 1.004, 0.0),
        tb_row("01", "2024", "2000", 0.005, 0.0),
        tb_row("01", "2024", "3000", 0.0, 0.005),
    ];
    let out = completeness_test(&vec![], &tb);
    assert_eq!(out[0].difference, micros(1.00) as i128);
    assert_eq!(out[1].difference, micros(0.01) as i128);
    assert_eq!(out[2].difference, micros(-0.01) as i128);
    assert_eq!(out[0].opening_balance, micros(1.004) as i128);
}

#[test]
fn ledger_only_account_depends_on_policy() {
    let tb = vec![tb_row("01", "2024", "1000", 10.0, 10.0)];
    let gl = vec![gl_line("A", "1", "9000", 25.0)];
    assert_eq!(
        reconcile(&gl, &tb, JoinPolicy::Outer),
        vec![
            row("01", "2024", "1000", 10.0, 0.0, 10.0, 0.0),
            row("01", "2024", "9000", 0.0, 25.0, 0.0, 25.0),
        ]
    );
    assert_eq!(
        reconcile(&gl, &tb, JoinPolicy::LeftOnTrialBalance),
        vec![row("01", "2024", "1000", 10.0, 0.0, 10.0, 0.0)]
    );
}

#[test]
fn completeness_sums_duplicates_and_sorts_keys() {
    let tb = vec![
        tb_row("02", "2023", "1000", 1.0, 2.0),
        tb_row("01", "2024", "1000", 5.0, 5.0),
        tb_row("01", "2023", "2000", 3.0, 4.0),
        tb_row("02", "2023", "1000", 1.0, 2.0),
    ];
    let out = reconcile(&vec![], &tb, JoinPolicy::LeftOnTrialBalance);
    assert_eq!(
        out,
        vec![
            row("01", "2023", "2000", 3.0, 0.0, 4.0, -1.0),
            row("01", "2024", "1000", 5.0, 0.0, 5.0, 0.0),
            row("02", "2023", "1000", 2.0, 0.0, 4.0, -2.0),
        ]
    );
    assert_eq!(out, reconcile(&vec![], &tb, JoinPolicy::LeftOnTrialBalance));
}

#[test]
fn schema_accepts_same_columns_in_any_order() {
    let mut fields = gl_schema();
    fields.reverse();
    assert_eq!(validate_schema(&fields, &gl_schema()), Ok(()));
    assert_eq!(validate_schema(&tb_schema(), &tb_schema()), Ok(()));
}

#[test]
fn schema_rejects_renamed_column() {
    let mut fields = tb_schema();
    fields[0] = field("BU_Code", ColumnType::Str);
    assert_eq!(
        validate_schema(&fields, &tb_schema()),
        Err(SchemaMismatch::UnexpectedColumn { name: "BU_Code".to_string(), dtype: ColumnType::Str })
    );
}

#[test]
fn schema_rejects_wrongly_typed_column() {
    let mut fields = tb_schema();
    fields[3] = field("Amount_Opening_Balance", ColumnType::Str);
    assert_eq!(
        validate_schema(&fields, &tb_schema()),
        Err(SchemaMismatch::WrongType {
            name: "Amount_Opening_Balance".to_string(),
            expected: ColumnType::Float64,
            found: ColumnType::Str,
        })
    );
}

#[test]
fn schema_rejects_extra_column() {
    let mut fields = gl_schema();
    fields.push(field("Comment", ColumnType::Str));
    assert_eq!(
        validate_schema(&fields, &gl_schema()),
        Err(SchemaMismatch::UnexpectedColumn { name: "Comment".to_string(), dtype: ColumnType::Str })
    );
}

#[test]
fn schema_rejects_missing_column() {
    let mut fields = gl_schema();
    fields.pop();
    assert_eq!(
        validate_schema(&fields, &gl_schema()),
        Err(SchemaMismatch::MissingColumn { name: "Journal_ID".to_string(), dtype: ColumnType::Str })
    );
}

#[test]
fn rounding_to_cents_goes_half_away_from_zero() {
    assert_eq!(round_to_cents(14_999), 10_000);
    assert_eq!(round_to_cents(15_000), 20_000);
    assert_eq!(round_to_cents(-15_000), -20_000);
    assert_eq!(round_to_cents(-4_999), 0);
    assert_eq!(round_to_cents(0), 0);
}

#[test]
fn materiality_uses_the_tolerance() {
    assert!(!material(10));
    assert!(!material(-10));
    assert!(material(11));
    assert!(material(-11));
}

#[test]
fn text_order_follows_bytes() {
    assert_eq!(compare_text(&"A".to_string(), &"B".to_string()), Ordering::Less);
    assert_eq!(compare_text(&"AB".to_string(), &"A".to_string()), Ordering::Greater);
    assert_eq!(compare_text(&"a".to_string(), &"Z".to_string()), Ordering::Greater);
    assert_eq!(compare_text(&"é".to_string(), &"z".to_string()), Ordering::Greater);
    assert_eq!(compare_text(&"x".to_string(), &"x".to_string()), Ordering::Equal);
}

#[test]
fn account_order_is_unit_year_account() {
    let k = |b: &str, f: &str, a: &str| AccountKey {
        business_unit_code: b.to_string(),
        fiscal_year: f.to_string(),
        account_number: a.to_string(),
    };
    assert_eq!(compare_keys(&k("01", "2024", "1"), &k("02", "2023", "0")), Ordering::Less);
    assert_eq!(compare_keys(&k("01", "2024", "1"), &k("01", "2023", "9")), Ordering::Greater);
    assert_eq!(compare_keys(&k("01", "2024", "1"), &k("01", "2024", "1")), Ordering::Equal);
}
