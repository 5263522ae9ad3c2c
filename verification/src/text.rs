//! Character-level text handling used by the bill parser: Unicode
//! whitespace, trimming, splitting on a separator and substring search,
//! each with the mathematical definition it is proved against.

use vstd::prelude::*;
use vstd::string::StrSliceExecFns;

verus! {

broadcast use vstd::string::group_string_axioms;

/// The Unicode `White_Space` property, which `char::is_whitespace`
/// (and therefore `str::trim`) tests.
pub open spec fn is_white_space(c: char) -> bool {
    let u = c as int;
    ||| 0x9 <= u <= 0xD
    ||| u == 0x20
    ||| u == 0x85
    ||| u == 0xA0
    ||| u == 0x1680
    ||| 0x2000 <= u <= 0x200A
    ||| u == 0x2028
    ||| u == 0x2029
    ||| u == 0x202F
    ||| u == 0x205F
    ||| u == 0x3000
}

/// `s` without its leading whitespace.
pub open spec fn trim_start(s: Seq<char>) -> Seq<char>
    decreases s.len(),
{
    if s.len() > 0 && is_white_space(s[0]) {
        trim_start(s.drop_first())
    } else {
        s
    }
}

/// `s` without its trailing whitespace.
pub open spec fn trim_end(s: Seq<char>) -> Seq<char>
    decreases s.len(),
{
    if s.len() > 0 && is_white_space(s.last()) {
        trim_end(s.drop_last())
    } else {
        s
    }
}

/// `s` without leading and trailing whitespace, as `str::trim` gives it.
pub open spec fn trim(s: Seq<char>) -> Seq<char> {
    trim_end(trim_start(s))
}

/// The pieces of `s` between occurrences of `sep`, as `str::split` with a
/// `char` pattern yields them: `n` separators give `n + 1` pieces, and the
/// empty text gives one empty piece.
pub open spec fn split_on(s: Seq<char>, sep: char) -> Seq<Seq<char>>
    decreases s.len(),
{
    if s.len() == 0 {
        seq![Seq::<char>::empty()]
    } else {
        let prev = split_on(s.drop_last(), sep);
        if s.last() == sep {
            prev.push(Seq::<char>::empty())
        } else {
            prev.update(prev.len() - 1, prev.last().push(s.last()))
        }
    }
}

/// `pat` occurs in `s` starting at index `i`.
pub open spec fn occurs_at(s: Seq<char>, pat: Seq<char>, i: int) -> bool {
    0 <= i && i + pat.len() <= s.len() && s.subrange(i, i + pat.len()) == pat
}

/// `pat` occurs somewhere in `s`, as `str::contains` with a `&str` pattern
/// tests it.
pub open spec fn contains_seq(s: Seq<char>, pat: Seq<char>) -> bool {
    exists|i: int| occurs_at(s, pat, i)
}

/// Splitting always yields at least one piece.
pub proof fn lemma_split_on_nonempty(s: Seq<char>, sep: char)
    ensures
        split_on(s, sep).len() >= 1,
    decreases s.len(),
{
    if s.len() > 0 {
        lemma_split_on_nonempty(s.drop_last(), sep);
    }
}

/// `trim_start` drops a prefix: what it keeps is a suffix of `s`.
pub proof fn lemma_trim_start_is_suffix(s: Seq<char>)
    ensures
        trim_start(s).len() <= s.len(),
        trim_start(s) == s.skip(s.len() - trim_start(s).len()),
        trim_start(s).len() == 0 || !is_white_space(trim_start(s)[0]),
    decreases s.len(),
{
    if s.len() > 0 && is_white_space(s[0]) {
        lemma_trim_start_is_suffix(s.drop_first());
        let t = trim_start(s.drop_first());
        assert(s.drop_first().skip(s.drop_first().len() - t.len()) =~= s.skip(s.len() - t.len()));
    } else {
        assert(s.skip(0) =~= s);
    }
}

/// `trim_end` drops a suffix: what it keeps is a prefix of `s`.
pub proof fn lemma_trim_end_is_prefix(s: Seq<char>)
    ensures
        trim_end(s).len() <= s.len(),
        trim_end(s) == s.take(trim_end(s).len() as int),
        trim_end(s).len() == 0 || !is_white_space(trim_end(s).last()),
    decreases s.len(),
{
    if s.len() > 0 && is_white_space(s.last()) {
        lemma_trim_end_is_prefix(s.drop_last());
        let t = trim_end(s.drop_last());
        assert(s.drop_last().take(t.len() as int) =~= s.take(t.len() as int));
    } else {
        assert(s.take(s.len() as int) =~= s);
    }
}

/// Trimmed text is a contiguous part of `s`, and has whitespace
/// at neither end.
pub proof fn lemma_trim_shape(s: Seq<char>)
    ensures
        exists|lo: int, hi: int| 0 <= lo <= hi <= s.len() && trim(s) == s.subrange(lo, hi),
        trim(s).len() == 0 || (!is_white_space(trim(s)[0]) && !is_white_space(trim(s).last())),
{
    let a = trim_start(s);
    lemma_trim_start_is_suffix(s);
    lemma_trim_end_is_prefix(a);
    let b = trim_end(a);
    let lo = s.len() - a.len();
    let hi = lo + b.len();
    assert(b =~= s.subrange(lo, hi));
    if b.len() > 0 {
        assert(b[0] == a[0]);
    }
}

/// Trimming trimmed text changes nothing.
pub proof fn lemma_trim_idempotent(s: Seq<char>)
    ensures
        trim(trim(s)) == trim(s),
{
    let t = trim(s);
    lemma_trim_shape(s);
    assert(trim_start(t) == t);
    assert(trim_end(t) == t);
}

/// No piece of a split holds the separator.
pub proof fn lemma_split_on_pieces_lack_sep(s: Seq<char>, sep: char)
    ensures
        forall|k: int|
            0 <= k < split_on(s, sep).len() ==> !(#[trigger] split_on(s, sep)[k]).contains(sep),
    decreases s.len(),
{
    lemma_split_on_nonempty(s, sep);
    if s.len() > 0 {
        lemma_split_on_pieces_lack_sep(s.drop_last(), sep);
        lemma_split_on_nonempty(s.drop_last(), sep);
        let prev = split_on(s.drop_last(), sep);
        if s.last() != sep {
            let piece = prev.last().push(s.last());
            assert(!prev[prev.len() - 1].contains(sep));
            assert forall|j: int| 0 <= j < piece.len() implies piece[j] != sep by {
                if j < piece.len() - 1 {
                    assert(piece[j] == prev.last()[j]);
                }
            }
        }
        assert forall|k: int|
            0 <= k < split_on(s, sep).len() implies !(#[trigger] split_on(s, sep)[k]).contains(
            sep,
        ) by {
            if k < prev.len() - 1 || s.last() == sep && k < prev.len() {
                assert(split_on(s, sep)[k] == prev[k]);
            }
        }
    }
}

/// Splitting text joined at a separator splits each side: the pieces of
/// `a`, then those of `b`.
pub proof fn lemma_split_on_concat(a: Seq<char>, b: Seq<char>, sep: char)
    ensures
        split_on(a + seq![sep] + b, sep) == split_on(a, sep) + split_on(b, sep),
    decreases b.len(),
{
    let joined = a + seq![sep] + b;
    if b.len() == 0 {
        assert(joined.drop_last() =~= a);
        assert(split_on(a, sep) + split_on(b, sep) =~= split_on(a, sep).push(Seq::<char>::empty()));
    } else {
        lemma_split_on_concat(a, b.drop_last(), sep);
        lemma_split_on_nonempty(b.drop_last(), sep);
        assert(joined.drop_last() =~= a + seq![sep] + b.drop_last());
        assert(joined.last() == b.last());
        let x = split_on(a, sep);
        let y = split_on(b.drop_last(), sep);
        if b.last() == sep {
            assert((x + y).push(Seq::<char>::empty()) =~= x + y.push(Seq::<char>::empty()));
        } else {
            assert((x + y).update((x + y).len() - 1, (x + y).last().push(b.last())) =~= x
                + y.update(y.len() - 1, y.last().push(b.last())));
        }
    }
}

/// Tests whether `c` is Unicode whitespace.
pub fn is_white_space_char(c: char) -> (r: bool)
    ensures
        r == is_white_space(c),
{
    let u = c as u32;
    (0x9 <= u && u <= 0xD) || u == 0x20 || u == 0x85 || u == 0xA0 || u == 0x1680 || (0x2000 <= u
        && u <= 0x200A) || u == 0x2028 || u == 0x2029 || u == 0x202F || u == 0x205F || u == 0x3000
}

/// The characters of `s`, in order.
pub fn chars_of(s: &str) -> (r: Vec<char>)
    ensures
        r@ == s@,
{
    let mut v: Vec<char> = Vec::new();
    for c in it: s.chars()
        invariant
            it.seq() == s@,
            v@ == it.seq().take(it.index()),
    {
        v.push(c);
        assert(v@ =~= it.seq().take(it.index() + 1));
    }
    assert(v@ =~= s@);
    v
}

/// Narrows the range `start..end` of `cs` to its trimmed part: the returned
/// range holds exactly `trim` of the characters in `start..end`.
pub fn trimmed_range(cs: &Vec<char>, start: usize, end: usize) -> (r: (usize, usize))
    requires
        start <= end <= cs.len(),
    ensures
        start <= r.0 <= r.1 <= end,
        cs@.subrange(r.0 as int, r.1 as int) == trim(cs@.subrange(start as int, end as int)),
{
    let mut lo = start;
    while lo < end && is_white_space_char(cs[lo])
        invariant
            start <= lo <= end <= cs.len(),
            trim_start(cs@.subrange(start as int, end as int)) == trim_start(
                cs@.subrange(lo as int, end as int),
            ),
        decreases end - lo,
    {
        assert(cs@.subrange(lo as int, end as int).drop_first() =~= cs@.subrange(
            lo + 1,
            end as int,
        ));
        lo = lo + 1;
    }
    assert(trim_start(cs@.subrange(lo as int, end as int)) == cs@.subrange(lo as int, end as int));
    let mut hi = end;
    while hi > lo && is_white_space_char(cs[hi - 1])
        invariant
            start <= lo <= hi <= end <= cs.len(),
            trim_end(cs@.subrange(lo as int, end as int)) == trim_end(
                cs@.subrange(lo as int, hi as int),
            ),
        decreases hi - lo,
    {
        assert(cs@.subrange(lo as int, hi as int).drop_last() =~= cs@.subrange(
            lo as int,
            hi - 1,
        ));
        hi = hi - 1;
    }
    (lo, hi)
}

/// The ranges of `cs` that hold the pieces of `split_on(cs, sep)`, in order.
pub fn split_ranges(cs: &Vec<char>, sep: char) -> (r: Vec<(usize, usize)>)
    ensures
        r.len() == split_on(cs@, sep).len(),
        forall|k: int| 0 <= k < r.len() ==> (#[trigger] r[k]).0 <= r[k].1 <= cs.len(),
        forall|k: int|
            0 <= k < r.len() ==> cs@.subrange(r[k].0 as int, r[k].1 as int) == #[trigger] split_on(
                cs@,
                sep,
            )[k],
{
    let mut ranges: Vec<(usize, usize)> = Vec::new();
    let mut start: usize = 0;
    let n = cs.len();
    let mut i: usize = 0;
    while i < n
        invariant
            n == cs.len(),
            start <= i <= n,
            ranges.len() + 1 == split_on(cs@.take(i as int), sep).len(),
            cs@.subrange(start as int, i as int) == split_on(cs@.take(i as int), sep).last(),
            forall|k: int| 0 <= k < ranges.len() ==> (#[trigger] ranges[k]).0 <= ranges[k].1 <= i,
            forall|k: int|
                0 <= k < ranges.len() ==> cs@.subrange(ranges[k].0 as int, ranges[k].1 as int)
                    == #[trigger] split_on(cs@.take(i as int), sep)[k],
        decreases n - i,
    {
        let ghost prev = split_on(cs@.take(i as int), sep);
        let ghost old_ranges = ranges@;
        assert(cs@.take(i + 1).drop_last() =~= cs@.take(i as int));
        assert(cs@.take(i + 1).last() == cs@[i as int]);
        proof {
            lemma_split_on_nonempty(cs@.take(i as int), sep);
        }
        let ghost next = split_on(cs@.take(i + 1), sep);
        assert forall|k: int| 0 <= k < old_ranges.len() implies #[trigger] next[k] == prev[k] by {}
        if cs[i] == sep {
            assert(next == prev.push(Seq::<char>::empty()));
            ranges.push((start, i));
            start = i + 1;
            assert(cs@.subrange(start as int, i + 1) =~= Seq::<char>::empty());
        } else {
            assert(next == prev.update(prev.len() - 1, prev.last().push(cs@[i as int])));
            assert(cs@.subrange(start as int, i + 1) =~= cs@.subrange(start as int, i as int).push(
                cs@[i as int],
            ));
        }
        assert forall|k: int| 0 <= k < ranges.len() implies cs@.subrange(
            ranges[k].0 as int,
            ranges[k].1 as int,
        ) == #[trigger] next[k] by {
            if k < old_ranges.len() {
                assert(ranges[k] == old_ranges[k]);
            }
        }
        i = i + 1;
    }
    assert(cs@.take(n as int) =~= cs@);
    let ghost old_ranges = ranges@;
    ranges.push((start, n));
    assert forall|k: int| 0 <= k < ranges.len() implies cs@.subrange(
        ranges[k].0 as int,
        ranges[k].1 as int,
    ) == #[trigger] split_on(cs@, sep)[k] by {
        if k < old_ranges.len() {
            assert(ranges[k] == old_ranges[k]);
        }
    }
    ranges
}

/// `s` without leading and trailing whitespace, as a new string.
pub fn trim_to_string(s: &str) -> (r: String)
    ensures
        r@ == trim(s@),
{
    let cs = chars_of(s);
    let (lo, hi) = trimmed_range(&cs, 0, cs.len());
    assert(cs@.subrange(0, cs@.len() as int) =~= s@);
    s.substring_char(lo, hi).to_owned()
}

/// Tests whether `pat` occurs in `s`.
pub fn contains_chars(s: &Vec<char>, pat: &Vec<char>) -> (r: bool)
    ensures
        r == contains_seq(s@, pat@),
{
    if pat.len() > s.len() {
        return false;
    }
    let last = s.len() - pat.len();
    let mut i: usize = 0;
    while i <= last
        invariant
            last == s.len() - pat.len(),
            i <= last,
            forall|j: int| 0 <= j < i ==> !occurs_at(s@, pat@, j),
        decreases last + 1 - i,
    {
        let mut k: usize = 0;
        let mut matched = true;
        while k < pat.len()
            invariant
                i <= last,
                last == s.len() - pat.len(),
                k <= pat.len(),
                matched ==> forall|m: int| 0 <= m < k ==> s@[i + m] == pat@[m],
                !matched ==> !occurs_at(s@, pat@, i as int),
            decreases pat.len() - k,
        {
            if s[i + k] != pat[k] {
                if matched {
                    assert(s@.subrange(i as int, i + pat.len())[k as int] == s@[i + k]);
                }
                matched = false;
            }
            k = k + 1;
        }
        if matched {
            assert(s@.subrange(i as int, i + pat.len()) =~= pat@);
            assert(occurs_at(s@, pat@, i as int));
            return true;
        }
        if i == last {
            return false;
        }
        i = i + 1;
    }
    false
}

} // verus!
