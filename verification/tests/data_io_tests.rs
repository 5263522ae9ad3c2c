use expense_visualizer::data_io::{
    is_list_delimiter_line, parse_raw_transactions, parse_transaction_line, BillScanState,
    BILL_LIST_DELIMITER, REQUIRED_COLUMNS,
};
use expense_visualizer::models::RawTransaction;

fn fields(t: &RawTransaction) -> Vec<&str> {
    vec![
        t.timestamp_str.as_str(),
        t.transaction_type.as_str(),
        t.counterparty.as_str(),
        t.item_name.as_str(),
        t.direction.as_str(),
        t.amount_str.as_str(),
        t.payment_method.as_str(),
        t.status.as_str(),
    ]
}

fn sample_export() -> Vec<String> {
    vec![
        "微信支付账单明细".to_string(),
        "微信昵称：[小明]".to_string(),
        "起始时间：[2025-05-01 00:00:00] 终止时间：[2025-05-31 23:59:59]".to_string(),
        "导出类型：[全部]".to_string(),
        "".to_string(),
        "----------------------微信支付账单明细列表--------------------".to_string(),
        "交易时间\t交易类型\t交易对方\t商品\t收/支\t金额(元)\t支付方式\t当前状态\t交易单号\t商户单号\t备注".to_string(),
        "2025/5/31 11:02\t商户消费\t某某餐厅\t午餐\t支出\t￥16.00\t零钱\t支付成功\t420000\t100000\t/".to_string(),
        "2025/5/30 09:15 \t 转账 \t小红\t/\t收入\t ￥200.00 \t/\t已收钱\t420001\t/\t/".to_string(),
        "2025/5/29 20:00\t零钱通\t零钱通\t转入零钱通\t/\t￥50.00\t零钱\t支付成功\t420002\t/\t/".to_string(),
        "".to_string(),
        "注：本明细仅展示当前账单中的交易".to_string(),
    ]
}

#[test]
fn parses_a_full_transaction_line() {
    let line = "2025/5/31 11:02\t商户消费\t某某餐厅\t午餐\t支出\t￥16.00\t零钱\t支付成功\t420000\t100000\t/";
    let t = parse_transaction_line(line).expect("a complete line yields a record");
    assert_eq!(
        fields(&t),
        vec!["2025/5/31 11:02", "商户消费", "某某餐厅", "午餐", "支出", "￥16.00", "零钱", "支付成功"]
    );
}

#[test]
fn trims_every_column() {
    let line = "  2025/5/30 09:15 \t 转账 \t\u{3000}小红\u{3000}\t/\t收入\t ￥200.00 \t/\t已收钱 ";
    let t = parse_transaction_line(line).expect("eight columns are enough");
    assert_eq!(
        fields(&t),
        vec!["2025/5/30 09:15", "转账", "小红", "/", "收入", "￥200.00", "/", "已收钱"]
    );
}

#[test]
fn exactly_eight_columns_suffice() {
    let line = "t\ttype\tparty\titem\tdir\tamt\tpay\tstatus";
    assert_eq!(REQUIRED_COLUMNS, 8);
    let t = parse_transaction_line(line).expect("eight columns");
    assert_eq!(t.status, "status");
}

#[test]
fn seven_columns_are_too_few() {
    assert!(parse_transaction_line("t\ttype\tparty\titem\tdir\tamt\tpay").is_none());
    assert!(parse_transaction_line("").is_none());
    assert!(parse_transaction_line("no tabs at all").is_none());
}

#[test]
fn empty_time_direction_or_amount_rejects_the_line() {
    assert!(parse_transaction_line(" \ttype\tparty\titem\tdir\tamt\tpay\tstatus").is_none());
    assert!(parse_transaction_line("t\ttype\tparty\titem\t \tamt\tpay\tstatus").is_none());
    assert!(parse_transaction_line("t\ttype\tparty\titem\tdir\t\tpay\tstatus").is_none());
    // Other columns may be empty.
    let t = parse_transaction_line("t\t\t\t\tdir\tamt\t\t").expect("only time, direction and amount are required");
    assert_eq!(fields(&t), vec!["t", "", "", "", "dir", "amt", "", ""]);
}

#[test]
fn recognises_the_delimiter_line() {
    assert!(is_list_delimiter_line(BILL_LIST_DELIMITER));
    assert!(is_list_delimiter_line(&format!("  {}  ", BILL_LIST_DELIMITER)));
    assert!(!is_list_delimiter_line("微信支付账单明细列表"));
    assert!(!is_list_delimiter_line(""));
    assert!(!is_list_delimiter_line(&BILL_LIST_DELIMITER[1..]));
}

#[test]
fn reads_the_transactions_of_an_export() {
    let records = parse_raw_transactions(&sample_export());
    assert_eq!(records.len(), 3);
    assert_eq!(fields(&records[0])[0], "2025/5/31 11:02");
    assert_eq!(fields(&records[0])[5], "￥16.00");
    assert_eq!(fields(&records[1]), vec!["2025/5/30 09:15", "转账", "小红", "/", "收入", "￥200.00", "/", "已收钱"]);
    assert_eq!(records[2].direction, "/");
    assert_eq!(records[2].transaction_type, "零钱通");
}

#[test]
fn skips_lines_before_the_delimiter() {
    let lines: Vec<String> = vec![
        "t\ttype\tparty\titem\tdir\tamt\tpay\tstatus".to_string(),
        "t2\ttype\tparty\titem\tdir\tamt\tpay\tstatus".to_string(),
    ];
    assert!(parse_raw_transactions(&lines).is_empty());
}

#[test]
fn skips_the_header_after_the_delimiter() {
    let lines: Vec<String> = vec![
        BILL_LIST_DELIMITER.to_string(),
        "h1\th2\th3\th4\th5\th6\th7\th8".to_string(),
        "t\ttype\tparty\titem\tdir\tamt\tpay\tstatus".to_string(),
    ];
    let records = parse_raw_transactions(&lines);
    assert_eq!(records.len(), 1);
    assert_eq!(records[0].timestamp_str, "t");
}

#[test]
fn a_later_delimiter_line_yields_nothing_itself() {
    let lines: Vec<String> = vec![
        BILL_LIST_DELIMITER.to_string(),
        "header".to_string(),
        "a\ttype\tparty\titem\tdir\tamt\tpay\tstatus".to_string(),
        BILL_LIST_DELIMITER.to_string(),
        "b\ttype\tparty\titem\tdir\tamt\tpay\tstatus".to_string(),
    ];
    let records = parse_raw_transactions(&lines);
    assert_eq!(records.len(), 2);
    assert_eq!(records[1].timestamp_str, "b");
}

#[test]
fn an_empty_export_yields_nothing() {
    assert!(parse_raw_transactions(&Vec::new()).is_empty());
}

#[test]
fn feeding_lines_one_by_one_matches_the_whole_export() {
    let lines = sample_export();
    let mut st = BillScanState::new();
    let mut fed: Vec<RawTransaction> = Vec::new();
    for line in &lines {
        if let Some(t) = st.feed_line(line) {
            fed.push(t);
        }
    }
    let whole = parse_raw_transactions(&lines);
    assert_eq!(fed.len(), whole.len());
    for (a, b) in fed.iter().zip(whole.iter()) {
        assert_eq!(fields(a), fields(b));
    }
    assert!(st.in_list && st.header_skipped);
}

#[test]
fn scan_state_steps() {
    let mut st = BillScanState::new();
    assert!(!st.in_list && !st.header_skipped);
    assert!(st.feed_line("t\ttype\tparty\titem\tdir\tamt\tpay\tstatus").is_none());
    assert!(!st.in_list);
    assert!(st.feed_line(BILL_LIST_DELIMITER).is_none());
    assert!(st.in_list && !st.header_skipped);
    assert!(st.feed_line("t\ttype\tparty\titem\tdir\tamt\tpay\tstatus").is_none());
    assert!(st.header_skipped);
    assert!(st.feed_line("t\ttype\tparty\titem\tdir\tamt\tpay\tstatus").is_some());
}

#[test]
fn every_record_is_well_formed() {
    for t in parse_raw_transactions(&sample_export()) {
        assert!(!t.timestamp_str.is_empty() && !t.direction.is_empty() && !t.amount_str.is_empty());
        for f in fields(&t) {
            assert_eq!(f, f.trim());
            assert!(!f.contains('\t'));
        }
    }
}

#[test]
fn metadata_before_the_delimiter_changes_nothing() {
    let export = sample_export();
    let without_metadata: Vec<String> = export[5..].to_vec();
    let a = parse_raw_transactions(&export);
    let b = parse_raw_transactions(&without_metadata);
    assert_eq!(a.len(), b.len());
    for (x, y) in a.iter().zip(b.iter()) {
        assert_eq!(fields(x), fields(y));
    }
}

#[test]
fn appending_lines_only_appends_records() {
    let export = sample_export();
    let first = parse_raw_transactions(&export[..8].to_vec());
    let whole = parse_raw_transactions(&export);
    assert!(first.len() <= whole.len());
    for (x, y) in first.iter().zip(whole.iter()) {
        assert_eq!(fields(x), fields(y));
    }
}

#[test]
fn columns_after_the_eighth_are_ignored() {
    let line = "t\ttype\tparty\titem\tdir\tamt\tpay\tstatus";
    let longer = format!("{}\textra\t\tmore", line);
    let a = parse_transaction_line(line).unwrap();
    let b = parse_transaction_line(&longer).unwrap();
    assert_eq!(fields(&a), fields(&b));
}
