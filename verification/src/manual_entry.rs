//! The form for adding a record by hand, and how an accepted record joins
//! the category totals.
//!
//! A record is accepted when its date reads as `YYYY/MM/DD`, its amount
//! reads as a number greater than zero, and its category is not blank. An
//! accepted record is added to the total of the category of the same name,
//! or starts a new category when there is none.

use vstd::prelude::*;

use crate::models::ExpenseCategory;
use crate::text::{trim, trim_to_string};

verus! {

/// The format in which a hand-entered date is read.
pub const MANUAL_DATE_FORMAT: &'static str = "%Y/%m/%d";

/// Whether `chrono::NaiveDate::parse_from_str(s, fmt)` reads `s` as a date
/// in format `fmt`.
pub uninterp spec fn naive_date_parses(s: Seq<char>, fmt: Seq<char>) -> bool;

/// `c` is an ASCII digit.
pub open spec fn is_ascii_digit(c: char) -> bool {
    '0' <= c <= '9'
}

/// The value of the ASCII digit `c`.
pub open spec fn digit_value(c: char) -> int {
    c as int - '0' as int
}

/// `y` is a leap year of the Gregorian calendar.
pub open spec fn is_leap_year(y: int) -> bool {
    y % 4 == 0 && (y % 100 != 0 || y % 400 == 0)
}

/// The number of days of month `m` (1 to 12) of year `y`.
pub open spec fn days_in_month(y: int, m: int) -> int {
    if m == 2 {
        if is_leap_year(y) {
            29
        } else {
            28
        }
    } else if m == 4 || m == 6 || m == 9 || m == 11 {
        30
    } else {
        31
    }
}

/// `s` is a date written `YYYY/MM/DD` with four year digits and two month
/// and day digits, naming a day that exists in the Gregorian calendar.
pub open spec fn is_calendar_date_text(s: Seq<char>) -> bool {
    &&& s.len() == 10
    &&& s[4] == '/'
    &&& s[7] == '/'
    &&& forall|i: int| 0 <= i < 10 && i != 4 && i != 7 ==> is_ascii_digit(#[trigger] s[i])
    &&& {
        let y = 1000 * digit_value(s[0]) + 100 * digit_value(s[1]) + 10 * digit_value(s[2])
            + digit_value(s[3]);
        let m = 10 * digit_value(s[5]) + digit_value(s[6]);
        let d = 10 * digit_value(s[8]) + digit_value(s[9]);
        &&& 1 <= m <= 12
        &&& 1 <= d <= days_in_month(y, m)
    }
}

/// Calls `chrono::NaiveDate::parse_from_str(s, fmt)` and tells whether it
/// returned a date. Trusted: the answer is taken to depend on `s` and
/// `fmt` alone (chrono reads them without locale or clock), and in format
/// [`MANUAL_DATE_FORMAT`] every zero-padded `YYYY/MM/DD` text naming a real
/// day is read (chrono takes up to four year digits and up to two month and
/// day digits, then builds the date with `NaiveDate::from_ymd_opt`). Which
/// other strings it accepts is not stated.
#[verifier::external_body]
fn parse_date_from_str(s: &str, fmt: &str) -> (ok: bool)
    ensures
        ok == naive_date_parses(s@, fmt@),
        fmt@ == MANUAL_DATE_FORMAT@ && is_calendar_date_text(s@) ==> ok,
{
    chrono::NaiveDate::parse_from_str(s, fmt).is_ok()
}

/// How the amount field read as a number.
#[derive(Debug, Clone, Copy)]
pub enum AmountReading<A> {
    /// It is not a number.
    Malformed,
    /// It is a number, but not greater than zero.
    NonPositive,
    /// It is a number greater than zero.
    Positive(A),
}

/// The verdict on a hand-entered record.
#[derive(Debug, Clone)]
pub enum EntryReview<A> {
    /// The record is valid; `category` is the trimmed category name and
    /// `amount` the amount read.
    Accepted { category: String, amount: A },
    /// The date and amount read, but the category is blank or the amount is
    /// not greater than zero.
    InvalidCategoryOrAmount,
    /// The date or the amount does not read.
    InvalidDateOrAmount,
}

/// The verdict on a record whose date did (`date_ok`) or did not read,
/// with category text `category` and amount reading `amount`.
pub open spec fn spec_judge<A>(
    date_ok: bool,
    category: Seq<char>,
    amount: AmountReading<A>,
) -> EntryReviewModel<A> {
    if !date_ok {
        EntryReviewModel::InvalidDateOrAmount
    } else {
        match amount {
            AmountReading::Malformed => EntryReviewModel::InvalidDateOrAmount,
            AmountReading::NonPositive => EntryReviewModel::InvalidCategoryOrAmount,
            AmountReading::Positive(value) => if trim(category).len() > 0 {
                EntryReviewModel::Accepted { category: trim(category), amount: value }
            } else {
                EntryReviewModel::InvalidCategoryOrAmount
            },
        }
    }
}

/// The verdict on a record with date text `date`, category text `category`
/// and amount reading `amount`.
pub open spec fn spec_review<A>(
    date: Seq<char>,
    category: Seq<char>,
    amount: AmountReading<A>,
) -> EntryReviewModel<A> {
    spec_judge(naive_date_parses(date, MANUAL_DATE_FORMAT@), category, amount)
}

/// An [`EntryReview`] with the category as text.
pub enum EntryReviewModel<A> {
    Accepted { category: Seq<char>, amount: A },
    InvalidCategoryOrAmount,
    InvalidDateOrAmount,
}

impl<A: Copy> View for EntryReview<A> {
    type V = EntryReviewModel<A>;

    open spec fn view(&self) -> EntryReviewModel<A> {
        match self {
            EntryReview::Accepted { category, amount } => EntryReviewModel::Accepted {
                category: category@,
                amount: *amount,
            },
            EntryReview::InvalidCategoryOrAmount => EntryReviewModel::InvalidCategoryOrAmount,
            EntryReview::InvalidDateOrAmount => EntryReviewModel::InvalidDateOrAmount,
        }
    }
}

/// Judges a hand-entered record, given whether its date read, its category
/// text and how its amount read.
pub fn judge_manual_entry<A: Copy>(date_ok: bool, category: &str, amount: &AmountReading<A>) -> (r:
    EntryReview<A>)
    ensures
        r@ == spec_judge(date_ok, category@, *amount),
        !date_ok ==> r is InvalidDateOrAmount,
        date_ok && amount is Malformed ==> r is InvalidDateOrAmount,
        date_ok && amount is NonPositive ==> r is InvalidCategoryOrAmount,
        date_ok && amount is Positive && trim(category@).len() == 0 ==> r is InvalidCategoryOrAmount,
        date_ok && trim(category@).len() > 0 ==> (*amount matches AmountReading::Positive(v) ==> r@
            == EntryReviewModel::Accepted { category: trim(category@), amount: v }),
{
    if !date_ok {
        return EntryReview::InvalidDateOrAmount;
    }
    match amount {
        AmountReading::Malformed => EntryReview::InvalidDateOrAmount,
        AmountReading::NonPositive => EntryReview::InvalidCategoryOrAmount,
        AmountReading::Positive(value) => {
            let name = trim_to_string(category);
            if name.as_str().is_empty() {
                EntryReview::InvalidCategoryOrAmount
            } else {
                EntryReview::Accepted { category: name, amount: *value }
            }
        },
    }
}

/// Judges a hand-entered record: its date text, category text and how its
/// amount read. The date is read by chrono in [`MANUAL_DATE_FORMAT`].
pub fn review_manual_entry<A: Copy>(date: &str, category: &str, amount: &AmountReading<A>) -> (r:
    EntryReview<A>)
    ensures
        r@ == spec_review(date@, category@, *amount),
        r@ == spec_judge(naive_date_parses(date@, MANUAL_DATE_FORMAT@), category@, *amount),
        is_calendar_date_text(date@) && trim(category@).len() > 0 ==> (*amount matches AmountReading::Positive(
            v,
        ) ==> r@ == EntryReviewModel::Accepted { category: trim(category@), amount: v }),
{
    let date_ok = parse_date_from_str(date, MANUAL_DATE_FORMAT);
    judge_manual_entry(date_ok, category, amount)
}

/// With the date read and an amount above zero, every category that is not
/// blank is accepted, whatever its length or the characters inside it, and
/// the accepted category is the trimmed text with the amount unchanged.
pub proof fn lemma_judge_accepts_every_nonblank_category<A>(category: Seq<char>, value: A)
    requires
        trim(category).len() > 0,
    ensures
        spec_judge(true, category, AmountReading::Positive(value)) == (EntryReviewModel::Accepted {
            category: trim(category),
            amount: value,
        }),
{
}

/// A record is accepted only with its date read, an amount above zero and a
/// category that is not blank; the accepted category is the trimmed text
/// and the accepted amount the one read. The date and amount are judged
/// before the category: an unread date or a malformed amount is reported
/// as such whatever the category.
pub proof fn lemma_judge_outcomes<A>(date_ok: bool, category: Seq<char>, amount: AmountReading<A>)
    ensures
        spec_judge(date_ok, category, amount) matches EntryReviewModel::Accepted { category: c, amount: v }
            ==> date_ok && amount == AmountReading::Positive(v) && c == trim(category) && c.len() > 0,
        spec_judge(date_ok, category, amount) is InvalidDateOrAmount <==> (!date_ok || amount is Malformed),
        spec_judge(date_ok, category, amount) is InvalidCategoryOrAmount <==> (date_ok && (
        amount is NonPositive || (amount is Positive && trim(category).len() == 0))),
{
}

/// The verdict depends on the category only through its trimmed text:
/// categories that trim to the same text are judged alike.
pub proof fn lemma_judge_sees_trimmed_category<A>(
    date_ok: bool,
    category1: Seq<char>,
    category2: Seq<char>,
    amount: AmountReading<A>,
)
    requires
        trim(category1) == trim(category2),
    ensures
        spec_judge(date_ok, category1, amount) == spec_judge(date_ok, category2, amount),
{
}

/// The date of a record is judged by chrono in [`MANUAL_DATE_FORMAT`] and by
/// nothing else: the verdict on date text `date` is the verdict for
/// whether chrono reads it.
pub proof fn lemma_review_reads_date_with_chrono<A>(
    date: Seq<char>,
    category: Seq<char>,
    amount: AmountReading<A>,
)
    ensures
        spec_review(date, category, amount) == spec_judge(
            naive_date_parses(date, MANUAL_DATE_FORMAT@),
            category,
            amount,
        ),
{
}

/// Some category in `cats` is named `name`.
pub open spec fn has_category<A, C>(cats: Seq<ExpenseCategory<A, C>>, name: Seq<char>) -> bool {
    exists|i: int| 0 <= i < cats.len() && (#[trigger] cats[i]).name@ == name
}

/// `i` is the first index in `cats` of a category named `name`.
pub open spec fn is_first_named<A, C>(cats: Seq<ExpenseCategory<A, C>>, name: Seq<char>, i: int) -> bool {
    &&& 0 <= i < cats.len()
    &&& cats[i].name@ == name
    &&& forall|j: int| 0 <= j < i ==> (#[trigger] cats[j]).name@ != name
}

/// `new` is `old` with `entry` added, apart from the amount of a category
/// that `entry` joins: where a category of the same name exists, the first
/// such keeps its place, name and colour and every other category stays as
/// it was; otherwise `entry` is appended.
pub open spec fn joined_shape<A, C>(
    old: Seq<ExpenseCategory<A, C>>,
    entry: ExpenseCategory<A, C>,
    new: Seq<ExpenseCategory<A, C>>,
) -> bool {
    if has_category(old, entry.name@) {
        &&& new.len() == old.len()
        &&& forall|i: int|
            #[trigger] is_first_named(old, entry.name@, i) ==> {
                &&& new[i].name == old[i].name
                &&& new[i].color == old[i].color
                &&& forall|j: int| 0 <= j < old.len() && j != i ==> #[trigger] new[j] == old[j]
            }
    } else {
        new == old.push(entry)
    }
}

/// `new` is `old` with `entry` added through `combine`: shaped as
/// [`joined_shape`] says, and the total of the category that `entry` joins,
/// if any, is what `combine` gives for the old total and the entry's
/// amount.
pub open spec fn joined_with<A, C, F: Fn(A, A) -> A>(
    old: Seq<ExpenseCategory<A, C>>,
    entry: ExpenseCategory<A, C>,
    new: Seq<ExpenseCategory<A, C>>,
    combine: F,
) -> bool {
    &&& joined_shape(old, entry, new)
    &&& forall|i: int|
        #[trigger] is_first_named(old, entry.name@, i) ==> call_ensures(
            combine,
            (old[i].amount, entry.amount),
            new[i].amount,
        )
}

/// No two categories in `cats` share a name.
pub open spec fn distinct_names<A, C>(cats: Seq<ExpenseCategory<A, C>>) -> bool {
    forall|i: int, j: int|
        0 <= i < j < cats.len() ==> (#[trigger] cats[i]).name@ != (#[trigger] cats[j]).name@
}

/// Where some category has a name, a first one has it.
pub proof fn lemma_first_named_exists<A, C>(cats: Seq<ExpenseCategory<A, C>>, name: Seq<char>)
    requires
        has_category(cats, name),
    ensures
        exists|i: int| #[trigger] is_first_named(cats, name, i),
    decreases cats.len(),
{
    let prefix = cats.drop_last();
    if has_category(prefix, name) {
        lemma_first_named_exists(prefix, name);
        let i = choose|i: int| #[trigger] is_first_named(prefix, name, i);
        assert forall|j: int| 0 <= j < i implies (#[trigger] cats[j]).name@ != name by {
            assert(cats[j] == prefix[j]);
        }
        assert(is_first_named(cats, name, i));
    } else {
        let last = cats.len() - 1;
        assert forall|j: int| 0 <= j < last implies (#[trigger] cats[j]).name@ != name by {
            assert(cats[j] == prefix[j]);
        }
        let w = choose|w: int| 0 <= w < cats.len() && (#[trigger] cats[w]).name@ == name;
        if w < last {
            assert(prefix[w] == cats[w]);
        }
        assert(is_first_named(cats, name, last));
    }
}

/// Adding a record never creates a second category of a name: when no two
/// categories share a name before, none do after.
pub proof fn lemma_join_keeps_names_distinct<A, C>(
    old: Seq<ExpenseCategory<A, C>>,
    entry: ExpenseCategory<A, C>,
    new: Seq<ExpenseCategory<A, C>>,
)
    requires
        joined_shape(old, entry, new),
        distinct_names(old),
    ensures
        distinct_names(new),
{
    lemma_join_names(old, entry, new);
}

/// After a record is added, the categories are those before and the
/// record's own: a name is present exactly when it was present before or
/// is the record's category. The list grows by one exactly when the
/// category was new, and keeps its length otherwise.
pub proof fn lemma_join_names<A, C>(
    old: Seq<ExpenseCategory<A, C>>,
    entry: ExpenseCategory<A, C>,
    new: Seq<ExpenseCategory<A, C>>,
)
    requires
        joined_shape(old, entry, new),
    ensures
        forall|name: Seq<char>|
            #[trigger] has_category(new, name) <==> has_category(old, name) || name == entry.name@,
        new.len() == if has_category(old, entry.name@) {
            old.len()
        } else {
            old.len() + 1
        },
        distinct_names(old) ==> distinct_names(new),
{
    if has_category(old, entry.name@) {
        lemma_first_named_exists(old, entry.name@);
        let i = choose|i: int| #[trigger] is_first_named(old, entry.name@, i);
        assert forall|k: int| 0 <= k < new.len() implies (#[trigger] new[k]).name@ == old[k].name@ by {
            if k != i {
                assert(new[k] == old[k]);
            }
        }
        assert forall|name: Seq<char>|
            #[trigger] has_category(new, name) <==> has_category(old, name) || name
                == entry.name@ by {
            if has_category(new, name) {
                let k = choose|k: int| 0 <= k < new.len() && (#[trigger] new[k]).name@ == name;
                assert(old[k].name@ == name);
            }
            if has_category(old, name) {
                let k = choose|k: int| 0 <= k < old.len() && (#[trigger] old[k]).name@ == name;
                assert(new[k].name@ == name);
            }
            if name == entry.name@ {
                assert(new[i].name@ == name);
            }
        }
        if distinct_names(old) {
            assert forall|a: int, b: int| 0 <= a < b < new.len() implies (#[trigger] new[a]).name@
                != (#[trigger] new[b]).name@ by {
                assert(new[a].name@ == old[a].name@);
                assert(new[b].name@ == old[b].name@);
                assert(old[a].name@ != old[b].name@);
            }
        }
    } else {
        assert forall|k: int| 0 <= k < old.len() implies (#[trigger] new[k]) == old[k] by {}
        assert(new[old.len() as int] == entry);
        assert forall|name: Seq<char>|
            #[trigger] has_category(new, name) <==> has_category(old, name) || name
                == entry.name@ by {
            if has_category(new, name) {
                let k = choose|k: int| 0 <= k < new.len() && (#[trigger] new[k]).name@ == name;
                if k < old.len() {
                    assert(old[k].name@ == name);
                }
            }
            if has_category(old, name) {
                let k = choose|k: int| 0 <= k < old.len() && (#[trigger] old[k]).name@ == name;
                assert(new[k].name@ == name);
            }
            if name == entry.name@ {
                assert(new[old.len() as int].name@ == name);
            }
        }
        if distinct_names(old) {
            assert forall|a: int, b: int| 0 <= a < b < new.len() implies (#[trigger] new[a]).name@
                != (#[trigger] new[b]).name@ by {
                if b == old.len() {
                    assert(new[a] == old[a]);
                    assert(!has_category(old, entry.name@));
                    assert(old[a].name@ != entry.name@);
                } else {
                    assert(new[a] == old[a]);
                    assert(new[b] == old[b]);
                }
            }
        }
    }
}

/// Under the order `le`, `new` lowers no total of `old`: it has the
/// categories of `old` at the same places, with the same names and colours
/// and totals not below the old ones, and at most one category more.
pub open spec fn never_lowered<A, C>(
    old: Seq<ExpenseCategory<A, C>>,
    new: Seq<ExpenseCategory<A, C>>,
    le: spec_fn(A, A) -> bool,
) -> bool {
    &&& old.len() <= new.len() <= old.len() + 1
    &&& forall|i: int|
        0 <= i < old.len() ==> {
            &&& (#[trigger] new[i]).name == old[i].name
            &&& new[i].color == old[i].color
            &&& le(old[i].amount, new[i].amount)
        }
}

/// Apart from index `k` (at most the old length), every category of `new`
/// is the one of `old` at that index.
pub open spec fn unchanged_except<A, C>(
    old: Seq<ExpenseCategory<A, C>>,
    new: Seq<ExpenseCategory<A, C>>,
    k: int,
) -> bool {
    &&& 0 <= k <= old.len()
    &&& forall|i: int| 0 <= i < new.len() && i != k ==> i < old.len() && #[trigger] new[i] == old[i]
}

/// `new` differs from `old` in at most one place.
pub open spec fn single_change<A, C>(
    old: Seq<ExpenseCategory<A, C>>,
    new: Seq<ExpenseCategory<A, C>>,
) -> bool {
    exists|k: int| #[trigger] unchanged_except(old, new, k)
}

/// Adding a record through a `combine` that never gives less than its first
/// argument never lowers a total: every category keeps its place, name and
/// colour, no total goes down, and the list changes in at most one place
/// (one total, or one new category at the end).
pub proof fn lemma_join_never_lowers<A, C, F: Fn(A, A) -> A>(
    old: Seq<ExpenseCategory<A, C>>,
    entry: ExpenseCategory<A, C>,
    new: Seq<ExpenseCategory<A, C>>,
    combine: F,
    le: spec_fn(A, A) -> bool,
)
    requires
        joined_with(old, entry, new, combine),
        forall|a: A| #[trigger] le(a, a),
        forall|a: A, b: A, r: A| #[trigger] call_ensures(combine, (a, b), r) ==> le(a, r),
    ensures
        never_lowered(old, new, le),
        single_change(old, new),
{
    if has_category(old, entry.name@) {
        lemma_first_named_exists(old, entry.name@);
        let k = choose|k: int| #[trigger] is_first_named(old, entry.name@, k);
        assert forall|i: int| 0 <= i < old.len() implies {
            &&& (#[trigger] new[i]).name == old[i].name
            &&& new[i].color == old[i].color
            &&& le(old[i].amount, new[i].amount)
        } by {
            if i != k {
                assert(new[i] == old[i]);
                assert(le(old[i].amount, old[i].amount));
            } else {
                assert(call_ensures(combine, (old[i].amount, entry.amount), new[i].amount));
            }
        }
        assert(unchanged_except(old, new, k));
    } else {
        let k = old.len() as int;
        assert forall|i: int| 0 <= i < old.len() implies {
            &&& (#[trigger] new[i]).name == old[i].name
            &&& new[i].color == old[i].color
            &&& le(old[i].amount, new[i].amount)
        } by {
            assert(new[i] == old[i]);
            assert(le(old[i].amount, old[i].amount));
        }
        assert(unchanged_except(old, new, k));
    }
}

/// Adds `entry` to `categories`: to the total of the first category of the
/// same name, the new total being `combine(old total, entry amount)`, or as a
/// new category at the end when there is none of that name.
pub fn add_to_categories<A: Copy, C: Copy, F: Fn(A, A) -> A>(
    categories: &mut Vec<ExpenseCategory<A, C>>,
    entry: ExpenseCategory<A, C>,
    combine: F,
)
    requires
        forall|a: A, b: A| call_requires(combine, (a, b)),
    ensures
        joined_with(old(categories)@, entry, final(categories)@, combine),
{
    let n = categories.len();
    let mut i: usize = 0;
    while i < n
        invariant
            n == categories.len(),
            i <= n,
            categories@ == old(categories)@,
            forall|a: A, b: A| call_requires(combine, (a, b)),
            forall|j: int| 0 <= j < i ==> (#[trigger] categories@[j]).name@ != entry.name@,
        decreases n - i,
    {
        if categories[i].name == entry.name {
            let ghost old_cats = categories@;
            assert(is_first_named(old_cats, entry.name@, i as int));
            let total = combine(categories[i].amount, entry.amount);
            let joined = ExpenseCategory {
                name: categories[i].name.clone(),
                amount: total,
                color: categories[i].color,
            };
            categories.set(i, joined);
            assert forall|k: int| #[trigger] is_first_named(old_cats, entry.name@, k) implies k
                == i by {
                if k < i {
                    assert(old_cats[k].name@ != entry.name@);
                } else if k > i {
                    assert(old_cats[i as int].name@ == entry.name@);
                }
            }
            return;
        }
        i = i + 1;
    }
    assert(!has_category(categories@, entry.name@));
    categories.push(entry);
}

/// The state of the program window that its rules act on: the category
/// totals of expenses and of income, the bill file they were loaded from
/// (of path type `P`), and the fields of the form for adding a record by
/// hand.
pub struct MyApp<A, C, P> {
    pub expenses: Vec<ExpenseCategory<A, C>>,
    pub income_categories: Vec<ExpenseCategory<A, C>>,
    pub current_data_file: Option<P>,
    pub input_date_str: String,
    pub input_amount_str: String,
    pub input_category_str: String,
    /// The form adds an expense (`true`) or income (`false`).
    pub input_is_expense: bool,
    pub input_item_str: String,
}

/// `new` has the same form fields as `old`.
pub open spec fn same_form<A, C, P>(old: MyApp<A, C, P>, new: MyApp<A, C, P>) -> bool {
    &&& new.input_date_str@ == old.input_date_str@
    &&& new.input_amount_str@ == old.input_amount_str@
    &&& new.input_category_str@ == old.input_category_str@
    &&& new.input_is_expense == old.input_is_expense
    &&& new.input_item_str@ == old.input_item_str@
}

/// `new` is `old` after the outcome `loaded` of loading a bill: on success
/// (the file, then the expense and income totals read from it) the totals
/// are replaced and the file is recorded; on failure both totals are
/// emptied and the recorded file stays. The form is untouched either way.
pub open spec fn load_applied<A, C, P>(
    old: MyApp<A, C, P>,
    loaded: Option<(P, Vec<ExpenseCategory<A, C>>, Vec<ExpenseCategory<A, C>>)>,
    new: MyApp<A, C, P>,
) -> bool {
    &&& same_form(old, new)
    &&& match loaded {
        Some(t) => {
            &&& new.expenses@ == t.1@
            &&& new.income_categories@ == t.2@
            &&& new.current_data_file == Some(t.0)
        },
        None => {
            &&& new.expenses@.len() == 0
            &&& new.income_categories@.len() == 0
            &&& new.current_data_file == old.current_data_file
        },
    }
}

/// `new` is `old` after recording `entry` through `combine` on `today`:
/// the entry joins the expenses or the income, as the form says, the other
/// list and the recorded file stay, and the form is reset (the date to
/// `today`, the item, amount and category to empty, the kind kept).
pub open spec fn entry_recorded<A, C, P, F: Fn(A, A) -> A>(
    old: MyApp<A, C, P>,
    entry: ExpenseCategory<A, C>,
    today: Seq<char>,
    new: MyApp<A, C, P>,
    combine: F,
) -> bool {
    &&& new.input_is_expense == old.input_is_expense
    &&& if old.input_is_expense {
        &&& joined_with(old.expenses@, entry, new.expenses@, combine)
        &&& new.income_categories@ == old.income_categories@
    } else {
        &&& joined_with(old.income_categories@, entry, new.income_categories@, combine)
        &&& new.expenses@ == old.expenses@
    }
    &&& new.current_data_file == old.current_data_file
    &&& new.input_date_str@ == today
    &&& new.input_item_str@.len() == 0
    &&& new.input_amount_str@.len() == 0
    &&& new.input_category_str@.len() == 0
}

/// Recording a hand-entered record through a `combine` that never gives
/// less than its first argument never lowers a total: both lists keep
/// their categories in place with their names and colours and with totals
/// not below the old ones, each grows by at most one, one of the two lists
/// is unchanged, and the other changes in at most one place.
pub proof fn lemma_record_entry_never_lowers<A, C, P, F: Fn(A, A) -> A>(
    old: MyApp<A, C, P>,
    entry: ExpenseCategory<A, C>,
    today: Seq<char>,
    new: MyApp<A, C, P>,
    combine: F,
    le: spec_fn(A, A) -> bool,
)
    requires
        entry_recorded(old, entry, today, new, combine),
        forall|a: A| #[trigger] le(a, a),
        forall|a: A, b: A, r: A| #[trigger] call_ensures(combine, (a, b), r) ==> le(a, r),
    ensures
        never_lowered(old.expenses@, new.expenses@, le),
        never_lowered(old.income_categories@, new.income_categories@, le),
        new.expenses@ == old.expenses@ || new.income_categories@ == old.income_categories@,
        single_change(old.expenses@, new.expenses@),
        single_change(old.income_categories@, new.income_categories@),
{
    lemma_unchanged_never_lowers(old.expenses@, le);
    lemma_unchanged_never_lowers(old.income_categories@, le);
    if old.input_is_expense {
        lemma_join_never_lowers(old.expenses@, entry, new.expenses@, combine, le);
    } else {
        lemma_join_never_lowers(old.income_categories@, entry, new.income_categories@, combine, le);
    }
}

/// An unchanged list lowers nothing and changes in no place.
proof fn lemma_unchanged_never_lowers<A, C>(cats: Seq<ExpenseCategory<A, C>>, le: spec_fn(A, A) -> bool)
    requires
        forall|a: A| #[trigger] le(a, a),
    ensures
        never_lowered(cats, cats, le),
        single_change(cats, cats),
{
    assert forall|i: int| 0 <= i < cats.len() implies le(cats[i].amount, cats[i].amount) by {}
    assert(unchanged_except(cats, cats, 0));
}

impl<A: Copy, C: Copy, P> MyApp<A, C, P> {
    /// A window with no categories, no bill file and an empty form for an
    /// expense dated `today`.
    pub fn with_date(today: String) -> (app: Self)
        ensures
            app.expenses@.len() == 0,
            app.income_categories@.len() == 0,
            app.current_data_file is None,
            app.input_date_str@ == today@,
            app.input_amount_str@.len() == 0,
            app.input_category_str@.len() == 0,
            app.input_is_expense,
            app.input_item_str@.len() == 0,
    {
        MyApp {
            expenses: Vec::new(),
            income_categories: Vec::new(),
            current_data_file: None,
            input_date_str: today,
            input_amount_str: String::new(),
            input_category_str: String::new(),
            input_is_expense: true,
            input_item_str: String::new(),
        }
    }

    /// Takes in the outcome of loading a bill: `Some` with the file and the
    /// expense and income totals read from it, or `None` where it could not
    /// be read.
    pub fn apply_load(
        &mut self,
        loaded: Option<(P, Vec<ExpenseCategory<A, C>>, Vec<ExpenseCategory<A, C>>)>,
    )
        ensures
            load_applied(*old(self), loaded, *final(self)),
    {
        match loaded {
            Some((file, expenses, income_categories)) => {
                self.expenses = expenses;
                self.income_categories = income_categories;
                self.current_data_file = Some(file);
            },
            None => {
                self.expenses = Vec::new();
                self.income_categories = Vec::new();
            },
        }
    }

    /// Judges the record in the form, given how its amount field read.
    pub fn review_input(&self, amount: &AmountReading<A>) -> (r: EntryReview<A>)
        ensures
            r@ == spec_review(self.input_date_str@, self.input_category_str@, *amount),
            is_calendar_date_text(self.input_date_str@) && trim(self.input_category_str@).len() > 0
                ==> (*amount matches AmountReading::Positive(v) ==> r@ == EntryReviewModel::Accepted {
                category: trim(self.input_category_str@),
                amount: v,
            }),
    {
        review_manual_entry(self.input_date_str.as_str(), self.input_category_str.as_str(), amount)
    }

    /// Adds an accepted record to the expenses or the income, as the form
    /// says, and resets the form: the date to `today`, the item, amount and
    /// category to empty.
    pub fn record_entry<F: Fn(A, A) -> A>(
        &mut self,
        entry: ExpenseCategory<A, C>,
        today: String,
        combine: F,
    )
        requires
            forall|a: A, b: A| call_requires(combine, (a, b)),
        ensures
            entry_recorded(*old(self), entry, today@, *final(self), combine),
    {
        if self.input_is_expense {
            add_to_categories(&mut self.expenses, entry, combine);
        } else {
            add_to_categories(&mut self.income_categories, entry, combine);
        }
        self.input_date_str = today;
        self.input_item_str = String::new();
        self.input_amount_str = String::new();
        self.input_category_str = String::new();
    }
}

} // verus!
