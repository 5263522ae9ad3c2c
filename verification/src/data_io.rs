//! Reading the transaction list out of the lines of an exported WeChat Pay
//! bill.
//!
//! An export starts with metadata lines, then a delimiter line that names
//! the transaction list, then a header line, then one line per transaction
//! with tab-separated columns. Lines before the delimiter are skipped, the
//! header is skipped, and every later line that has at least eight columns
//! and non-empty time, direction and amount columns becomes a
//! [`RawTransaction`].

use vstd::prelude::*;
use vstd::string::StrSliceExecFns;

use crate::models::{raw_transaction_fields, RawTransaction};
use crate::text::{
    chars_of, contains_chars, contains_seq, lemma_split_on_pieces_lack_sep, lemma_trim_idempotent,
    lemma_split_on_concat, lemma_trim_shape, split_on, split_ranges, trim, trimmed_range,
};

verus! {

/// The line that introduces the transaction list of an export; a line that
/// contains it starts the list.
pub const BILL_LIST_DELIMITER: &'static str = "----------------------微信支付账单明细列表--------------------";

/// The number of leading columns a transaction line must have: up to and
/// including 当前状态 (status).
pub const REQUIRED_COLUMNS: usize = 8;

/// The column separator of a transaction line.
pub const COLUMN_SEPARATOR: char = '\t';

/// Where the reader stands in an export.
#[derive(Debug, Clone, Copy, PartialEq, Eq)]
pub struct BillScanState {
    /// A delimiter line has been seen.
    pub in_list: bool,
    /// The header line after the delimiter has been passed over.
    pub header_skipped: bool,
}

/// The state before the first line.
pub open spec fn initial_scan_state() -> BillScanState {
    BillScanState { in_list: false, header_skipped: false }
}

/// The trimmed leading columns of a transaction line, or `None` where the
/// line has fewer than [`REQUIRED_COLUMNS`] columns or an empty time,
/// direction or amount column.
pub open spec fn record_fields(line: Seq<char>) -> Option<Seq<Seq<char>>> {
    let parts = split_on(line, COLUMN_SEPARATOR);
    if parts.len() < REQUIRED_COLUMNS {
        None
    } else {
        let fields = Seq::new(REQUIRED_COLUMNS as nat, |k: int| trim(parts[k]));
        if fields[0].len() == 0 || fields[4].len() == 0 || fields[5].len() == 0 {
            None
        } else {
            Some(fields)
        }
    }
}

/// What one line does: the next state, and the record it yields, if any.
pub open spec fn scan_step(st: BillScanState, line: Seq<char>) -> (BillScanState, Option<
    Seq<Seq<char>>,
>) {
    if contains_seq(line, BILL_LIST_DELIMITER@) {
        (BillScanState { in_list: true, header_skipped: st.header_skipped }, None)
    } else if !st.in_list {
        (st, None)
    } else if !st.header_skipped {
        (BillScanState { in_list: true, header_skipped: true }, None)
    } else {
        (st, record_fields(line))
    }
}

/// The state after `lines`, and the records they yield, in order.
pub open spec fn scan_lines(lines: Seq<Seq<char>>) -> (BillScanState, Seq<Seq<Seq<char>>>)
    decreases lines.len(),
{
    if lines.len() == 0 {
        (initial_scan_state(), Seq::empty())
    } else {
        let prev = scan_lines(lines.drop_last());
        let next = scan_step(prev.0, lines.last());
        (
            next.0,
            match next.1 {
                Some(f) => prev.1.push(f),
                None => prev.1,
            },
        )
    }
}

/// The text of each line.
pub open spec fn lines_view(lines: Seq<String>) -> Seq<Seq<char>> {
    lines.map_values(|l: String| l@)
}

/// The records an export yields.
pub open spec fn bill_records(lines: Seq<Seq<char>>) -> Seq<Seq<Seq<char>>> {
    scan_lines(lines).1
}

/// The records that transaction lines yield, in order, read without any
/// delimiter or header handling.
pub open spec fn transaction_records(data: Seq<Seq<char>>) -> Seq<Seq<Seq<char>>>
    decreases data.len(),
{
    if data.len() == 0 {
        Seq::empty()
    } else {
        let prev = transaction_records(data.drop_last());
        match record_fields(data.last()) {
            Some(f) => prev.push(f),
            None => prev,
        }
    }
}

/// No line of `lines` contains the delimiter.
pub open spec fn lacks_delimiter(lines: Seq<Seq<char>>) -> bool {
    forall|i: int| 0 <= i < lines.len() ==> !contains_seq(#[trigger] lines[i], BILL_LIST_DELIMITER@)
}

/// The fields of a record are the trimmed columns of its line: there are
/// [`REQUIRED_COLUMNS`] of them, the time, direction and amount are not
/// empty, none has whitespace at either end, and none holds the column
/// separator.
pub open spec fn well_formed_record(f: Seq<Seq<char>>) -> bool {
    &&& f.len() == REQUIRED_COLUMNS
    &&& f[0].len() > 0
    &&& f[4].len() > 0
    &&& f[5].len() > 0
    &&& forall|k: int| 0 <= k < f.len() ==> trim(#[trigger] f[k]) == f[k]
    &&& forall|k: int| 0 <= k < f.len() ==> !(#[trigger] f[k]).contains(COLUMN_SEPARATOR)
}

/// A line that yields a record yields a well-formed one.
pub proof fn lemma_record_fields_well_formed(line: Seq<char>)
    ensures
        record_fields(line) matches Some(f) ==> well_formed_record(f),
{
    if let Some(f) = record_fields(line) {
        let parts = split_on(line, COLUMN_SEPARATOR);
        lemma_split_on_pieces_lack_sep(line, COLUMN_SEPARATOR);
        assert forall|k: int| 0 <= k < f.len() implies trim(#[trigger] f[k]) == f[k] by {
            lemma_trim_idempotent(parts[k]);
        }
        assert forall|k: int| 0 <= k < f.len() implies !(#[trigger] f[k]).contains(
            COLUMN_SEPARATOR,
        ) by {
            lemma_trim_shape(parts[k]);
            let (lo, hi) = choose|lo: int, hi: int|
                0 <= lo <= hi <= parts[k].len() && trim(parts[k]) == parts[k].subrange(lo, hi);
            assert(!parts[k].contains(COLUMN_SEPARATOR));
            if f[k].contains(COLUMN_SEPARATOR) {
                let j = choose|j: int| 0 <= j < f[k].len() && f[k][j] == COLUMN_SEPARATOR;
                assert(parts[k][lo + j] == COLUMN_SEPARATOR);
            }
        }
    }
}

/// Every record an export yields is well formed.
pub proof fn lemma_bill_records_well_formed(lines: Seq<Seq<char>>)
    ensures
        forall|i: int|
            0 <= i < bill_records(lines).len() ==> well_formed_record(
                #[trigger] bill_records(lines)[i],
            ),
    decreases lines.len(),
{
    if lines.len() > 0 {
        lemma_bill_records_well_formed(lines.drop_last());
        lemma_record_fields_well_formed(lines.last());
        let prev = scan_lines(lines.drop_last());
        assert forall|i: int|
            0 <= i < bill_records(lines).len() implies well_formed_record(
            #[trigger] bill_records(lines)[i],
        ) by {
            if i < prev.1.len() {
                assert(bill_records(lines)[i] == bill_records(lines.drop_last())[i]);
            }
        }
    }
}

/// Without a delimiter line an export yields no records: everything is
/// metadata.
pub proof fn lemma_no_delimiter_no_records(lines: Seq<Seq<char>>)
    requires
        lacks_delimiter(lines),
    ensures
        scan_lines(lines).0 == initial_scan_state(),
        bill_records(lines).len() == 0,
    decreases lines.len(),
{
    if lines.len() > 0 {
        assert(lacks_delimiter(lines.drop_last())) by {
            assert forall|i: int| 0 <= i < lines.drop_last().len() implies !contains_seq(
                #[trigger] lines.drop_last()[i],
                BILL_LIST_DELIMITER@,
            ) by {
                assert(lines.drop_last()[i] == lines[i]);
            }
        }
        lemma_no_delimiter_no_records(lines.drop_last());
        assert(!contains_seq(lines[lines.len() - 1], BILL_LIST_DELIMITER@));
    }
}

/// Once the header is passed, each further line that is no delimiter line
/// contributes exactly the record it holds.
pub proof fn lemma_scan_after_header(prefix: Seq<Seq<char>>, data: Seq<Seq<char>>)
    requires
        scan_lines(prefix).0 == (BillScanState { in_list: true, header_skipped: true }),
        lacks_delimiter(data),
    ensures
        scan_lines(prefix + data).0 == scan_lines(prefix).0,
        bill_records(prefix + data) == bill_records(prefix) + transaction_records(data),
    decreases data.len(),
{
    if data.len() == 0 {
        assert(prefix + data =~= prefix);
        assert(bill_records(prefix) + transaction_records(data) =~= bill_records(prefix));
    } else {
        assert(lacks_delimiter(data.drop_last())) by {
            assert forall|i: int| 0 <= i < data.drop_last().len() implies !contains_seq(
                #[trigger] data.drop_last()[i],
                BILL_LIST_DELIMITER@,
            ) by {
                assert(data.drop_last()[i] == data[i]);
            }
        }
        lemma_scan_after_header(prefix, data.drop_last());
        assert((prefix + data).drop_last() =~= prefix + data.drop_last());
        assert((prefix + data).last() == data.last());
        assert(!contains_seq(data[data.len() - 1], BILL_LIST_DELIMITER@));
        match record_fields(data.last()) {
            Some(f) => {
                assert(bill_records(prefix) + transaction_records(data) =~= (bill_records(prefix)
                    + transaction_records(data.drop_last())).push(f));
            },
            None => {},
        }
    }
}

/// The records of an export are exactly those of its transaction lines:
/// metadata lines before the delimiter line, the delimiter line itself and
/// the header line after it yield nothing, and each later line yields the
/// record it holds, in order.
pub proof fn lemma_records_are_those_after_header(
    metadata: Seq<Seq<char>>,
    delimiter_line: Seq<char>,
    header: Seq<char>,
    data: Seq<Seq<char>>,
)
    requires
        lacks_delimiter(metadata),
        contains_seq(delimiter_line, BILL_LIST_DELIMITER@),
        !contains_seq(header, BILL_LIST_DELIMITER@),
        lacks_delimiter(data),
    ensures
        bill_records(metadata + seq![delimiter_line, header] + data) == transaction_records(data),
{
    lemma_no_delimiter_no_records(metadata);
    let with_delim = metadata.push(delimiter_line);
    let with_header = with_delim.push(header);
    assert(with_delim.drop_last() =~= metadata);
    assert(with_header.drop_last() =~= with_delim);
    assert(with_delim.last() == delimiter_line);
    assert(with_header.last() == header);
    assert(scan_lines(with_delim).0 == (BillScanState { in_list: true, header_skipped: false }));
    assert(bill_records(with_delim).len() == 0);
    assert(scan_lines(with_header).0 == (BillScanState { in_list: true, header_skipped: true }));
    assert(bill_records(with_header).len() == 0);
    lemma_scan_after_header(with_header, data);
    assert(metadata + seq![delimiter_line, header] + data =~= with_header + data);
    assert(bill_records(with_header) + transaction_records(data) =~= transaction_records(data));
}

/// The state after `lines` read from state `st`, and the records they
/// yield, in order.
pub open spec fn scan_lines_from(st: BillScanState, lines: Seq<Seq<char>>) -> (BillScanState, Seq<
    Seq<Seq<char>>,
>)
    decreases lines.len(),
{
    if lines.len() == 0 {
        (st, Seq::empty())
    } else {
        let prev = scan_lines_from(st, lines.drop_last());
        let next = scan_step(prev.0, lines.last());
        (
            next.0,
            match next.1 {
                Some(f) => prev.1.push(f),
                None => prev.1,
            },
        )
    }
}

/// Reading an export is reading it from the initial state.
pub proof fn lemma_scan_lines_from_initial(lines: Seq<Seq<char>>)
    ensures
        scan_lines(lines) == scan_lines_from(initial_scan_state(), lines),
    decreases lines.len(),
{
    if lines.len() > 0 {
        lemma_scan_lines_from_initial(lines.drop_last());
    }
}

/// Reading `a` then `b` is reading `b` from the state after `a`; the
/// records are those of `a` followed by those of `b`.
pub proof fn lemma_scan_lines_from_concat(
    st: BillScanState,
    a: Seq<Seq<char>>,
    b: Seq<Seq<char>>,
)
    ensures
        scan_lines_from(st, a + b).0 == scan_lines_from(scan_lines_from(st, a).0, b).0,
        scan_lines_from(st, a + b).1 == scan_lines_from(st, a).1 + scan_lines_from(
            scan_lines_from(st, a).0,
            b,
        ).1,
    decreases b.len(),
{
    let mid = scan_lines_from(st, a);
    if b.len() == 0 {
        assert(a + b =~= a);
        assert(mid.1 + scan_lines_from(mid.0, b).1 =~= mid.1);
    } else {
        lemma_scan_lines_from_concat(st, a, b.drop_last());
        assert((a + b).drop_last() =~= a + b.drop_last());
        assert((a + b).last() == b.last());
        let rest = scan_lines_from(mid.0, b.drop_last());
        match scan_step(rest.0, b.last()).1 {
            Some(f) => {
                assert(mid.1 + rest.1.push(f) =~= (mid.1 + rest.1).push(f));
            },
            None => {},
        }
    }
}

/// Adding lines at the end of an export only adds records at the end:
/// the records of `a + b` are those of `a`, then those that `b` yields when
/// read on from where `a` ends.
pub proof fn lemma_appending_lines_appends_records(a: Seq<Seq<char>>, b: Seq<Seq<char>>)
    ensures
        bill_records(a + b) == bill_records(a) + scan_lines_from(scan_lines(a).0, b).1,
        bill_records(a).len() <= bill_records(a + b).len(),
        bill_records(a + b).take(bill_records(a).len() as int) == bill_records(a),
{
    lemma_scan_lines_from_initial(a);
    lemma_scan_lines_from_initial(a + b);
    lemma_scan_lines_from_concat(initial_scan_state(), a, b);
    let r = bill_records(a) + scan_lines_from(scan_lines(a).0, b).1;
    assert(r.take(bill_records(a).len() as int) =~= bill_records(a));
}

/// Metadata lines before the delimiter line change nothing: an export
/// with leading lines that hold no delimiter yields the records of the
/// export without them.
pub proof fn lemma_metadata_changes_nothing(metadata: Seq<Seq<char>>, rest: Seq<Seq<char>>)
    requires
        lacks_delimiter(metadata),
    ensures
        bill_records(metadata + rest) == bill_records(rest),
{
    lemma_no_delimiter_no_records(metadata);
    lemma_scan_lines_from_initial(metadata);
    lemma_scan_lines_from_initial(rest);
    lemma_scan_lines_from_initial(metadata + rest);
    lemma_scan_lines_from_concat(initial_scan_state(), metadata, rest);
    assert(Seq::<Seq<Seq<char>>>::empty() + scan_lines_from(initial_scan_state(), rest).1
        =~= scan_lines_from(initial_scan_state(), rest).1);
}

/// Only the first [`REQUIRED_COLUMNS`] columns of a line decide its record:
/// two lines that both have that many columns, and agree on them, yield
/// the same record or both none.
pub proof fn lemma_record_depends_on_leading_columns(line1: Seq<char>, line2: Seq<char>)
    requires
        split_on(line1, COLUMN_SEPARATOR).len() >= REQUIRED_COLUMNS,
        split_on(line2, COLUMN_SEPARATOR).len() >= REQUIRED_COLUMNS,
        forall|k: int|
            0 <= k < REQUIRED_COLUMNS ==> #[trigger] split_on(line1, COLUMN_SEPARATOR)[k]
                == split_on(line2, COLUMN_SEPARATOR)[k],
    ensures
        record_fields(line1) == record_fields(line2),
{
    let p1 = split_on(line1, COLUMN_SEPARATOR);
    let p2 = split_on(line2, COLUMN_SEPARATOR);
    assert(Seq::new(REQUIRED_COLUMNS as nat, |k: int| trim(p1[k])) =~= Seq::new(
        REQUIRED_COLUMNS as nat,
        |k: int| trim(p2[k]),
    ));
}

/// Columns after the first [`REQUIRED_COLUMNS`] never matter: appending a
/// separator and any text to a line that already has that many columns
/// leaves its record as it was.
pub proof fn lemma_extra_columns_ignored(line: Seq<char>, extra: Seq<char>)
    requires
        split_on(line, COLUMN_SEPARATOR).len() >= REQUIRED_COLUMNS,
    ensures
        record_fields(line + seq![COLUMN_SEPARATOR] + extra) == record_fields(line),
{
    let longer = line + seq![COLUMN_SEPARATOR] + extra;
    lemma_split_on_concat(line, extra, COLUMN_SEPARATOR);
    let p = split_on(line, COLUMN_SEPARATOR);
    assert forall|k: int| 0 <= k < REQUIRED_COLUMNS implies #[trigger] split_on(
        longer,
        COLUMN_SEPARATOR,
    )[k] == p[k] by {}
    lemma_record_depends_on_leading_columns(longer, line);
}

/// A line yields a record exactly when it has at least
/// [`REQUIRED_COLUMNS`] tab-separated columns and its trimmed time (first),
/// direction (fifth) and amount (sixth) columns are not empty, whatever
/// their length or content; the record is then the trimmed leading
/// columns, in order.
pub proof fn lemma_record_fields_characterized(line: Seq<char>)
    ensures
        record_fields(line) is Some <==> {
            &&& split_on(line, COLUMN_SEPARATOR).len() >= REQUIRED_COLUMNS
            &&& trim(split_on(line, COLUMN_SEPARATOR)[0]).len() > 0
            &&& trim(split_on(line, COLUMN_SEPARATOR)[4]).len() > 0
            &&& trim(split_on(line, COLUMN_SEPARATOR)[5]).len() > 0
        },
        record_fields(line) matches Some(f) ==> {
            &&& f.len() == REQUIRED_COLUMNS
            &&& forall|k: int|
                0 <= k < REQUIRED_COLUMNS ==> #[trigger] f[k] == trim(
                    split_on(line, COLUMN_SEPARATOR)[k],
                )
        },
{
}

/// The records of transaction lines include the record of each line that
/// yields one.
pub proof fn lemma_transaction_records_include(data: Seq<Seq<char>>, i: int)
    requires
        0 <= i < data.len(),
        record_fields(data[i]) is Some,
    ensures
        transaction_records(data).contains(record_fields(data[i])->0),
    decreases data.len(),
{
    let f = record_fields(data[i])->0;
    if i == data.len() - 1 {
        let prev = transaction_records(data.drop_last());
        assert(transaction_records(data) == prev.push(f));
        assert(transaction_records(data)[prev.len() as int] == f);
    } else {
        assert(data.drop_last()[i] == data[i]);
        lemma_transaction_records_include(data.drop_last(), i);
        let prev = transaction_records(data.drop_last());
        let j = choose|j: int| 0 <= j < prev.len() && prev[j] == f;
        match record_fields(data.last()) {
            Some(g) => {
                assert(transaction_records(data)[j] == prev.push(g)[j]);
            },
            None => {},
        }
        assert(transaction_records(data)[j] == f);
    }
}

/// Every transaction line after the header of an export is read: where
/// `export` is metadata, a delimiter line, a header and then lines none of
/// which holds the delimiter, and a line after the header has at least [`REQUIRED_COLUMNS`] columns and
/// non-empty trimmed time, direction and amount columns, its trimmed
/// leading columns are among the records of the export, whatever their
/// length or content.
pub proof fn lemma_every_transaction_line_is_read(
    metadata: Seq<Seq<char>>,
    delimiter_line: Seq<char>,
    header: Seq<char>,
    data: Seq<Seq<char>>,
    export: Seq<Seq<char>>,
    i: int,
)
    requires
        export == metadata + seq![delimiter_line, header] + data,
        lacks_delimiter(metadata),
        contains_seq(delimiter_line, BILL_LIST_DELIMITER@),
        !contains_seq(header, BILL_LIST_DELIMITER@),
        lacks_delimiter(data),
        0 <= i < data.len(),
        split_on(data[i], COLUMN_SEPARATOR).len() >= REQUIRED_COLUMNS,
        trim(split_on(data[i], COLUMN_SEPARATOR)[0]).len() > 0,
        trim(split_on(data[i], COLUMN_SEPARATOR)[4]).len() > 0,
        trim(split_on(data[i], COLUMN_SEPARATOR)[5]).len() > 0,
    ensures
        exists|j: int|
            0 <= j < bill_records(export).len() && {
                let f = #[trigger] bill_records(export)[j];
                &&& f.len() == REQUIRED_COLUMNS
                &&& forall|k: int|
                    0 <= k < REQUIRED_COLUMNS ==> #[trigger] f[k] == trim(
                        split_on(data[i], COLUMN_SEPARATOR)[k],
                    )
            },
{
    lemma_record_fields_characterized(data[i]);
    lemma_records_are_those_after_header(metadata, delimiter_line, header, data);
    lemma_transaction_records_include(data, i);
    let f = record_fields(data[i])->0;
    let j = choose|j: int|
        0 <= j < transaction_records(data).len() && transaction_records(data)[j] == f;
    assert(bill_records(export)[j] == f);
}

/// The text of `cs[range]`, trimmed, as a new string.
fn trimmed_field(line: &str, cs: &Vec<char>, range: (usize, usize)) -> (s: String)
    requires
        cs@ == line@,
        range.0 <= range.1 <= cs.len(),
    ensures
        s@ == trim(cs@.subrange(range.0 as int, range.1 as int)),
{
    let (lo, hi) = trimmed_range(cs, range.0, range.1);
    line.substring_char(lo, hi).to_owned()
}

/// Reads one transaction line: its trimmed leading columns, or `None` where
/// it has too few columns or lacks a time, direction or amount.
pub fn parse_transaction_line(line: &str) -> (r: Option<RawTransaction>)
    ensures
        match r {
            Some(t) => record_fields(line@) == Some(raw_transaction_fields(t)),
            None => record_fields(line@) is None,
        },
        r is Some <==> {
            &&& split_on(line@, COLUMN_SEPARATOR).len() >= REQUIRED_COLUMNS
            &&& trim(split_on(line@, COLUMN_SEPARATOR)[0]).len() > 0
            &&& trim(split_on(line@, COLUMN_SEPARATOR)[4]).len() > 0
            &&& trim(split_on(line@, COLUMN_SEPARATOR)[5]).len() > 0
        },
        r matches Some(t) ==> forall|k: int|
            0 <= k < REQUIRED_COLUMNS ==> #[trigger] raw_transaction_fields(t)[k] == trim(
                split_on(line@, COLUMN_SEPARATOR)[k],
            ),
{
    let cs = chars_of(line);
    let parts = split_ranges(&cs, COLUMN_SEPARATOR);
    let ghost split = split_on(line@, COLUMN_SEPARATOR);
    if parts.len() < REQUIRED_COLUMNS {
        return None;
    }
    assert(parts[0] == parts@[0]);
    let timestamp_str = trimmed_field(line, &cs, parts[0]);
    let transaction_type = trimmed_field(line, &cs, parts[1]);
    let counterparty = trimmed_field(line, &cs, parts[2]);
    let item_name = trimmed_field(line, &cs, parts[3]);
    let direction = trimmed_field(line, &cs, parts[4]);
    let amount_str = trimmed_field(line, &cs, parts[5]);
    let payment_method = trimmed_field(line, &cs, parts[6]);
    let status = trimmed_field(line, &cs, parts[7]);
    let ghost fields = Seq::new(REQUIRED_COLUMNS as nat, |k: int| trim(split[k]));
    assert(timestamp_str@ == fields[0]);
    assert(transaction_type@ == fields[1]);
    assert(counterparty@ == fields[2]);
    assert(item_name@ == fields[3]);
    assert(direction@ == fields[4]);
    assert(amount_str@ == fields[5]);
    assert(payment_method@ == fields[6]);
    assert(status@ == fields[7]);
    if timestamp_str.as_str().is_empty() || direction.as_str().is_empty()
        || amount_str.as_str().is_empty() {
        return None;
    }
    let t = RawTransaction {
        timestamp_str,
        transaction_type,
        counterparty,
        item_name,
        direction,
        amount_str,
        payment_method,
        status,
    };
    assert(raw_transaction_fields(t) =~= fields);
    Some(t)
}

/// Tests whether `line` contains [`BILL_LIST_DELIMITER`].
pub fn is_list_delimiter_line(line: &str) -> (r: bool)
    ensures
        r == contains_seq(line@, BILL_LIST_DELIMITER@),
{
    let cs = chars_of(line);
    let pat = chars_of(BILL_LIST_DELIMITER);
    contains_chars(&cs, &pat)
}

impl BillScanState {
    /// The state before the first line of an export.
    pub fn new() -> (st: Self)
        ensures
            st == initial_scan_state(),
    {
        BillScanState { in_list: false, header_skipped: false }
    }

    /// Takes in the next line of an export and returns the transaction it
    /// holds, if any.
    pub fn feed_line(&mut self, line: &str) -> (r: Option<RawTransaction>)
        ensures
            *final(self) == scan_step(*old(self), line@).0,
            match r {
                Some(t) => scan_step(*old(self), line@).1 == Some(raw_transaction_fields(t)),
                None => scan_step(*old(self), line@).1 is None,
            },
    {
        if is_list_delimiter_line(line) {
            self.in_list = true;
            return None;
        }
        if !self.in_list {
            return None;
        }
        if !self.header_skipped {
            self.header_skipped = true;
            return None;
        }
        parse_transaction_line(line)
    }
}

/// Reads the transaction list out of the lines of an export.
pub fn parse_raw_transactions(lines: &Vec<String>) -> (r: Vec<RawTransaction>)
    ensures
        r.len() == bill_records(lines_view(lines@)).len(),
        forall|i: int|
            0 <= i < r.len() ==> raw_transaction_fields(#[trigger] r[i]) == bill_records(
                lines_view(lines@),
            )[i],
{
    let mut st = BillScanState::new();
    let mut out: Vec<RawTransaction> = Vec::new();
    let n = lines.len();
    let mut i: usize = 0;
    while i < n
        invariant
            n == lines.len(),
            i <= n,
            st == scan_lines(lines_view(lines@).take(i as int)).0,
            out.len() == scan_lines(lines_view(lines@).take(i as int)).1.len(),
            forall|j: int|
                0 <= j < out.len() ==> raw_transaction_fields(#[trigger] out[j]) == scan_lines(
                    lines_view(lines@).take(i as int),
                ).1[j],
        decreases n - i,
    {
        let ghost view = lines_view(lines@);
        assert(view.take(i + 1).drop_last() =~= view.take(i as int));
        assert(view.take(i + 1).last() == lines[i as int]@);
        let ghost old_out = out@;
        match st.feed_line(lines[i].as_str()) {
            Some(t) => {
                out.push(t);
                assert forall|j: int| 0 <= j < out.len() implies raw_transaction_fields(
                    #[trigger] out[j],
                ) == scan_lines(view.take(i + 1)).1[j] by {
                    if j < old_out.len() {
                        assert(out[j] == old_out[j]);
                    }
                }
            },
            None => {},
        }
        i = i + 1;
    }
    assert(lines_view(lines@).take(n as int) =~= lines_view(lines@));
    out
}

} // verus!
