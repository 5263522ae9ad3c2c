use expense_visualizer::manual_entry::{
    add_to_categories, judge_manual_entry, review_manual_entry, AmountReading, EntryReview, MyApp,
    MANUAL_DATE_FORMAT,
};
use expense_visualizer::models::ExpenseCategory;

fn category(name: &str, amount: f32, color: u8) -> ExpenseCategory<f32, u8> {
    ExpenseCategory { name: name.to_string(), amount, color }
}

#[test]
fn date_format_is_year_month_day() {
    assert_eq!(MANUAL_DATE_FORMAT, "%Y/%m/%d");
}

#[test]
fn accepts_a_valid_record_with_trimmed_category() {
    match review_manual_entry("2025/05/31", "  餐饮  ", &AmountReading::Positive(16.5f32)) {
        EntryReview::Accepted { category, amount } => {
            assert_eq!(category, "餐饮");
            assert_eq!(amount, 16.5f32);
        }
        other => panic!("expected acceptance, got {:?}", other),
    }
}

#[test]
fn single_digit_month_and_day_are_read() {
    assert!(matches!(
        review_manual_entry("2025/5/3", "food", &AmountReading::Positive(1u32)),
        EntryReview::Accepted { .. }
    ));
}

#[test]
fn rejects_a_date_in_another_format() {
    assert!(matches!(
        review_manual_entry("2025-05-31", "food", &AmountReading::Positive(1u32)),
        EntryReview::InvalidDateOrAmount
    ));
    assert!(matches!(
        review_manual_entry("2025/02/30", "food", &AmountReading::Positive(1u32)),
        EntryReview::InvalidDateOrAmount
    ));
    assert!(matches!(
        review_manual_entry("", "food", &AmountReading::Positive(1u32)),
        EntryReview::InvalidDateOrAmount
    ));
}

#[test]
fn rejects_a_malformed_amount() {
    assert!(matches!(
        review_manual_entry::<u32>("2025/05/31", "food", &AmountReading::Malformed),
        EntryReview::InvalidDateOrAmount
    ));
}

#[test]
fn rejects_a_blank_category() {
    assert!(matches!(
        review_manual_entry("2025/05/31", " \t ", &AmountReading::Positive(3u32)),
        EntryReview::InvalidCategoryOrAmount
    ));
}

#[test]
fn rejects_a_non_positive_amount() {
    assert!(matches!(
        review_manual_entry::<u32>("2025/05/31", "food", &AmountReading::NonPositive),
        EntryReview::InvalidCategoryOrAmount
    ));
}

#[test]
fn date_problem_takes_precedence_over_category() {
    assert!(matches!(
        review_manual_entry("31/05/2025", "", &AmountReading::Positive(3u32)),
        EntryReview::InvalidDateOrAmount
    ));
}

#[test]
fn adds_to_an_existing_category() {
    let mut cats = vec![category("餐饮", 10.0, 1), category("交通", 5.0, 2)];
    add_to_categories(&mut cats, category("交通", 2.5, 9), |a: f32, b: f32| a + b);
    assert_eq!(cats.len(), 2);
    assert_eq!(cats[1].name, "交通");
    assert_eq!(cats[1].amount, 7.5);
    assert_eq!(cats[1].color, 2);
    assert_eq!(cats[0].amount, 10.0);
}

#[test]
fn appends_a_new_category() {
    let mut cats = vec![category("餐饮", 10.0, 1)];
    add_to_categories(&mut cats, category("购物", 3.0, 7), |a: f32, b: f32| a + b);
    assert_eq!(cats.len(), 2);
    assert_eq!(cats[1].name, "购物");
    assert_eq!(cats[1].amount, 3.0);
    assert_eq!(cats[1].color, 7);
}

#[test]
fn joins_only_the_first_category_of_a_name() {
    let mut cats = vec![category("a", 1.0, 1), category("a", 2.0, 2)];
    add_to_categories(&mut cats, category("a", 4.0, 3), |a: f32, b: f32| a + b);
    assert_eq!(cats[0].amount, 5.0);
    assert_eq!(cats[1].amount, 2.0);
}

#[test]
fn repeated_entries_keep_names_distinct() {
    let mut cats: Vec<ExpenseCategory<f32, u8>> = Vec::new();
    for (name, amount) in [("a", 1.0f32), ("b", 2.0), ("a", 3.0), ("c", 4.0), ("b", 5.0)] {
        add_to_categories(&mut cats, category(name, amount, 0), |a: f32, b: f32| a + b);
    }
    let names: Vec<&str> = cats.iter().map(|c| c.name.as_str()).collect();
    assert_eq!(names, vec!["a", "b", "c"]);
    let amounts: Vec<f32> = cats.iter().map(|c| c.amount).collect();
    assert_eq!(amounts, vec![4.0, 7.0, 4.0]);
}

#[test]
fn new_window_has_an_empty_expense_form() {
    let app: MyApp<f32, u8, String> = MyApp::with_date("2025/06/01".to_string());
    assert!(app.expenses.is_empty() && app.income_categories.is_empty());
    assert_eq!(app.input_date_str, "2025/06/01");
    assert!(app.input_is_expense);
    assert!(app.input_amount_str.is_empty() && app.input_category_str.is_empty() && app.input_item_str.is_empty());
}

#[test]
fn review_input_reads_the_form() {
    let mut app: MyApp<f32, u8, String> = MyApp::with_date("2025/06/01".to_string());
    app.input_category_str = " 餐饮 ".to_string();
    match app.review_input(&AmountReading::Positive(12.0)) {
        EntryReview::Accepted { category, amount } => {
            assert_eq!(category, "餐饮");
            assert_eq!(amount, 12.0);
        }
        other => panic!("expected acceptance, got {:?}", other),
    }
    app.input_date_str = "June 1st".to_string();
    assert!(matches!(app.review_input(&AmountReading::Positive(12.0)), EntryReview::InvalidDateOrAmount));
}

#[test]
fn recording_an_expense_resets_the_form() {
    let mut app: MyApp<f32, u8, String> = MyApp::with_date("2025/06/01".to_string());
    app.input_item_str = "午餐".to_string();
    app.input_amount_str = "16".to_string();
    app.input_category_str = "餐饮".to_string();
    app.record_entry(category("餐饮", 16.0, 4), "2025/06/02".to_string(), |a: f32, b: f32| a + b);
    assert_eq!(app.expenses.len(), 1);
    assert!(app.income_categories.is_empty());
    assert_eq!(app.input_date_str, "2025/06/02");
    assert!(app.input_item_str.is_empty() && app.input_amount_str.is_empty() && app.input_category_str.is_empty());
    assert!(app.input_is_expense);
    app.record_entry(category("餐饮", 4.0, 5), "2025/06/02".to_string(), |a: f32, b: f32| a + b);
    assert_eq!(app.expenses.len(), 1);
    assert_eq!(app.expenses[0].amount, 20.0);
}

#[test]
fn recording_income_goes_to_the_income_list() {
    let mut app: MyApp<f32, u8, String> = MyApp::with_date("2025/06/01".to_string());
    app.input_is_expense = false;
    app.record_entry(category("工资", 1000.0, 3), "2025/06/01".to_string(), |a: f32, b: f32| a + b);
    assert!(app.expenses.is_empty());
    assert_eq!(app.income_categories.len(), 1);
    assert_eq!(app.income_categories[0].name, "工资");
    assert!(!app.input_is_expense);
}

#[test]
fn judging_follows_the_date_verdict() {
    assert!(matches!(
        judge_manual_entry(false, "food", &AmountReading::Positive(1u32)),
        EntryReview::InvalidDateOrAmount
    ));
    match judge_manual_entry(true, "\u{3000}food ", &AmountReading::Positive(7u32)) {
        EntryReview::Accepted { category, amount } => {
            assert_eq!(category, "food");
            assert_eq!(amount, 7);
        }
        other => panic!("expected acceptance, got {:?}", other),
    }
    assert!(matches!(
        judge_manual_entry::<u32>(true, "food", &AmountReading::Malformed),
        EntryReview::InvalidDateOrAmount
    ));
    assert!(matches!(
        judge_manual_entry::<u32>(true, "food", &AmountReading::NonPositive),
        EntryReview::InvalidCategoryOrAmount
    ));
    assert!(matches!(
        judge_manual_entry(true, "", &AmountReading::Positive(1u32)),
        EntryReview::InvalidCategoryOrAmount
    ));
}

#[test]
fn a_loaded_bill_replaces_the_totals_and_records_the_file() {
    let mut app: MyApp<f32, u8, String> = MyApp::with_date("2025/06/01".to_string());
    assert!(app.current_data_file.is_none());
    app.input_category_str = "keep".to_string();
    app.record_entry(category("old", 1.0, 1), "2025/06/01".to_string(), |a: f32, b: f32| a + b);
    app.input_category_str = "keep".to_string();
    app.apply_load(Some(("bill.txt".to_string(), vec![category("餐饮", 3.0, 2)], vec![category("工资", 9.0, 3)])));
    assert_eq!(app.current_data_file.as_deref(), Some("bill.txt"));
    assert_eq!(app.expenses.len(), 1);
    assert_eq!(app.expenses[0].name, "餐饮");
    assert_eq!(app.income_categories[0].name, "工资");
    assert_eq!(app.input_category_str, "keep");
}

#[test]
fn a_failed_load_empties_the_totals_and_keeps_the_file() {
    let mut app: MyApp<f32, u8, String> = MyApp::with_date("2025/06/01".to_string());
    app.apply_load(Some(("bill.txt".to_string(), vec![category("餐饮", 3.0, 2)], vec![category("工资", 9.0, 3)])));
    app.apply_load(None);
    assert!(app.expenses.is_empty() && app.income_categories.is_empty());
    assert_eq!(app.current_data_file.as_deref(), Some("bill.txt"));
    assert_eq!(app.input_date_str, "2025/06/01");
}

#[test]
fn recording_never_lowers_a_total() {
    let mut app: MyApp<f32, u8, String> = MyApp::with_date("2025/06/01".to_string());
    app.record_entry(category("a", 2.0, 1), "d".to_string(), |a: f32, b: f32| a + b);
    app.record_entry(category("b", 3.0, 2), "d".to_string(), |a: f32, b: f32| a + b);
    let before: Vec<(String, f32, u8)> = app.expenses.iter().map(|c| (c.name.clone(), c.amount, c.color)).collect();
    app.record_entry(category("a", 0.5, 9), "d".to_string(), |a: f32, b: f32| a + b);
    assert_eq!(app.expenses.len(), before.len());
    for (i, (name, amount, color)) in before.iter().enumerate() {
        assert_eq!(&app.expenses[i].name, name);
        assert_eq!(app.expenses[i].color, *color);
        assert!(app.expenses[i].amount >= *amount);
    }
    assert!(app.income_categories.is_empty());
}
