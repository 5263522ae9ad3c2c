//! The records the program works with.

use vstd::prelude::*;

verus! {

/// One row of the transaction list in an exported WeChat Pay bill, with
/// each column trimmed of surrounding whitespace.
#[derive(Debug, Clone)]
pub struct RawTransaction {
    /// 交易时间, e.g. "2025/5/31 11:02".
    pub timestamp_str: String,
    /// 交易类型.
    pub transaction_type: String,
    /// 交易对方.
    pub counterparty: String,
    /// 商品.
    pub item_name: String,
    /// 收/支.
    pub direction: String,
    /// 金额(元), e.g. "￥16.00".
    pub amount_str: String,
    /// 支付方式.
    pub payment_method: String,
    /// 当前状态.
    pub status: String,
}

/// The columns of a transaction, in the order in which the bill lists them.
pub open spec fn raw_transaction_fields(t: RawTransaction) -> Seq<Seq<char>> {
    seq![
        t.timestamp_str@,
        t.transaction_type@,
        t.counterparty@,
        t.item_name@,
        t.direction@,
        t.amount_str@,
        t.payment_method@,
        t.status@,
    ]
}

/// A category of expense or income with its total, as the pie charts show
/// it. The amount type `A` and the colour type `C` are those of the
/// drawing side (a floating-point total and a display colour).
#[derive(Debug, Clone)]
pub struct ExpenseCategory<A, C> {
    pub name: String,
    pub amount: A,
    pub color: C,
}

/// How a transaction moves money, as far as the charts are concerned.
#[derive(Debug, Clone, Copy, PartialEq, Eq)]
pub enum TransactionDirection {
    Income,
    Expense,
    /// Transfers and the like, which are neither income nor expense.
    Neutral,
}

} // verus!
