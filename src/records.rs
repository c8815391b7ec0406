use crate::amount::amount_in_range;
use vstd::prelude::*;

verus! {

/// One line of the general ledger. `local_amount` is in micro-units.
pub struct GlRecord {
    pub business_unit_code: String,
    pub doc_number: String,
    pub fiscal_year: String,
    pub line_number: String,
    pub effective_date: String,
    pub account_number: String,
    pub local_amount: i64,
    pub journal_id: String,
}

/// One account summary of the trial balance. Balances are in micro-units.
pub struct TbRecord {
    pub business_unit_code: String,
    pub fiscal_year: String,
    pub account_number: String,
    pub amount_opening_balance: i64,
    pub amount_ending_balance: i64,
}

/// A ledger line with its text as characters and its amount as an integer.
pub struct GlView {
    pub business_unit_code: Seq<char>,
    pub doc_number: Seq<char>,
    pub fiscal_year: Seq<char>,
    pub line_number: Seq<char>,
    pub effective_date: Seq<char>,
    pub account_number: Seq<char>,
    pub local_amount: int,
    pub journal_id: Seq<char>,
}

/// A trial-balance row with its text as characters and its balances as integers.
pub struct TbView {
    pub business_unit_code: Seq<char>,
    pub fiscal_year: Seq<char>,
    pub account_number: Seq<char>,
    pub opening_balance: int,
    pub ending_balance: int,
}

impl View for GlRecord {
    type V = GlView;

    open spec fn view(&self) -> GlView {
        GlView {
            business_unit_code: self.business_unit_code@,
            doc_number: self.doc_number@,
            fiscal_year: self.fiscal_year@,
            line_number: self.line_number@,
            effective_date: self.effective_date@,
            account_number: self.account_number@,
            local_amount: self.local_amount as int,
            journal_id: self.journal_id@,
        }
    }
}

impl View for TbRecord {
    type V = TbView;

    open spec fn view(&self) -> TbView {
        TbView {
            business_unit_code: self.business_unit_code@,
            fiscal_year: self.fiscal_year@,
            account_number: self.account_number@,
            opening_balance: self.amount_opening_balance as int,
            ending_balance: self.amount_ending_balance as int,
        }
    }
}

pub open spec fn gl_view(gl: Seq<GlRecord>) -> Seq<GlView> {
    gl.map_values(|r: GlRecord| r@)
}

pub open spec fn tb_view(tb: Seq<TbRecord>) -> Seq<TbView> {
    tb.map_values(|r: TbRecord| r@)
}

/// Every ledger amount lies within the representable range.
pub open spec fn gl_in_range(gl: Seq<GlView>) -> bool {
    forall|i: int| 0 <= i < gl.len() ==> amount_in_range(#[trigger] gl[i].local_amount)
}

/// Every trial-balance amount lies within the representable range.
pub open spec fn tb_in_range(tb: Seq<TbView>) -> bool {
    forall|i: int|
        0 <= i < tb.len() ==> amount_in_range(#[trigger] tb[i].opening_balance)
            && amount_in_range(tb[i].ending_balance)
}

} // verus!
