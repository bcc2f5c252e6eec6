//! The tolerant record parser.
//!
//! One input line has the shape `<c>"<timestamp>",<weight>,<rest>`: one
//! leading character (the opening quote), a timestamp under the fixed
//! pattern `YYYY-MM-DD HH:MM:SS` whose field ends one character before the
//! first separator (that character being the closing quote), a comma, a
//! decimal weight field closed by a further comma, and an ignored tail.
//! A line whose timestamp does not parse is dropped; a line whose weight
//! does not parse is kept with the sentinel weight 0.

use vstd::prelude::*;
use crate::model::{Timestamp, WeightLine, all_wf, WEIGHT_MAX_MILLI};
use crate::dates::{days_in_month, days_in_month_x};

verus! {

// ---------------------------------------------------------------------------
// Character-level specifications.
// ---------------------------------------------------------------------------

pub open spec fn is_digit(c: char) -> bool {
    c == '0' || c == '1' || c == '2' || c == '3' || c == '4' || c == '5' || c == '6' || c == '7'
        || c == '8' || c == '9'
}

pub open spec fn digit_val(c: char) -> int {
    if c == '0' {
        0
    } else if c == '1' {
        1
    } else if c == '2' {
        2
    } else if c == '3' {
        3
    } else if c == '4' {
        4
    } else if c == '5' {
        5
    } else if c == '6' {
        6
    } else if c == '7' {
        7
    } else if c == '8' {
        8
    } else {
        9
    }
}

pub open spec fn all_digits(s: Seq<char>) -> bool {
    forall|i: int| 0 <= i < s.len() ==> is_digit(#[trigger] s[i])
}

/// The number denoted by a digit string, most significant digit first.
pub open spec fn dec_val(s: Seq<char>) -> int
    decreases s.len(),
{
    if s.len() == 0 {
        0
    } else {
        dec_val(s.drop_last()) * 10 + digit_val(s.last())
    }
}

pub open spec fn pow10(n: nat) -> int
    decreases n,
{
    if n == 0 {
        1
    } else {
        10 * pow10((n - 1) as nat)
    }
}

proof fn lemma_pow10_up_to_9()
    ensures
        pow10(0) == 1,
        pow10(1) == 10,
        pow10(2) == 100,
        pow10(3) == 1000,
        pow10(4) == 10000,
        pow10(5) == 100000,
        pow10(6) == 1000000,
        pow10(7) == 10000000,
        pow10(8) == 100000000,
        pow10(9) == 1000000000,
{
    assert(pow10(0) == 1);
    assert(pow10(1) == 10);
    assert(pow10(2) == 100);
    assert(pow10(3) == 1000);
    assert(pow10(4) == 10000);
    assert(pow10(5) == 100000);
    assert(pow10(6) == 1000000);
    assert(pow10(7) == 10000000);
    assert(pow10(8) == 100000000);
    assert(pow10(9) == 1000000000);
}

pub proof fn lemma_dec_val_bound(s: Seq<char>)
    ensures
        0 <= dec_val(s) < pow10(s.len()),
    decreases s.len(),
{
    if s.len() == 0 {
    } else {
        lemma_dec_val_bound(s.drop_last());
        assert(digit_val(s.last()) <= 9);
    }
}

/// The position of the first occurrence of `c` in `s`, if any.
pub open spec fn find_char(s: Seq<char>, c: char) -> Option<int>
    decreases s.len(),
{
    if s.len() == 0 {
        None
    } else if s[0] == c {
        Some(0)
    } else {
        match find_char(s.drop_first(), c) {
            None => None,
            Some(i) => Some(i + 1),
        }
    }
}

proof fn lemma_find_char_present(s: Seq<char>, c: char, i: int)
    requires
        0 <= i < s.len(),
        s[i] == c,
        forall|j: int| 0 <= j < i ==> s[j] != c,
    ensures
        find_char(s, c) == Some(i),
    decreases s.len(),
{
    if i == 0 {
    } else {
        assert(s[0] != c);
        let t = s.drop_first();
        assert(t[i - 1] == s[i]);
        assert(forall|j: int| 0 <= j < i - 1 ==> #[trigger] t[j] == s[j + 1] && s[j + 1] != c);
        lemma_find_char_present(t, c, i - 1);
    }
}

proof fn lemma_find_char_absent(s: Seq<char>, c: char)
    requires
        forall|j: int| 0 <= j < s.len() ==> s[j] != c,
    ensures
        find_char(s, c) is None,
    decreases s.len(),
{
    if s.len() == 0 {
    } else {
        let t = s.drop_first();
        assert(forall|j: int| 0 <= j < t.len() ==> #[trigger] t[j] == s[j + 1] && s[j + 1] != c);
        lemma_find_char_absent(t, c);
    }
}

// ---------------------------------------------------------------------------
// What one line means.
// ---------------------------------------------------------------------------

/// The fixed timestamp pattern: `YYYY-MM-DD HH:MM:SS`, all fields decimal
/// digits in exactly those positions.
pub open spec fn ts_shape(s: Seq<char>) -> bool {
    &&& s.len() == 19
    &&& s[4] == '-'
    &&& s[7] == '-'
    &&& s[10] == ' '
    &&& s[13] == ':'
    &&& s[16] == ':'
    &&& all_digits(s.subrange(0, 4))
    &&& all_digits(s.subrange(5, 7))
    &&& all_digits(s.subrange(8, 10))
    &&& all_digits(s.subrange(11, 13))
    &&& all_digits(s.subrange(14, 16))
    &&& all_digits(s.subrange(17, 19))
}

pub open spec fn ts_value(s: Seq<char>) -> Timestamp {
    Timestamp {
        year: dec_val(s.subrange(0, 4)) as u32,
        month: dec_val(s.subrange(5, 7)) as u32,
        day: dec_val(s.subrange(8, 10)) as u32,
        hour: dec_val(s.subrange(11, 13)) as u32,
        minute: dec_val(s.subrange(14, 16)) as u32,
        second: dec_val(s.subrange(17, 19)) as u32,
    }
}

/// A timestamp string parses when it has the fixed shape and names a real
/// calendar date and time of day.
pub open spec fn parse_ts(s: Seq<char>) -> Option<Timestamp> {
    if ts_shape(s) && ts_value(s).wf() {
        Some(ts_value(s))
    } else {
        None
    }
}

/// The timestamp field of a line, read from `start`: one character is
/// skipped (the opening quote), the field runs to one character before the
/// first separator (the closing quote), and the parsed timestamp is
/// returned with the separator's position.
pub open spec fn ts_at(line: Seq<char>, start: int) -> Option<(Timestamp, int)> {
    if start + 1 > line.len() {
        None
    } else {
        let rem = line.skip(start + 1);
        match find_char(rem, ',') {
            None => None,
            Some(j) => if j < 1 {
                None
            } else {
                match parse_ts(rem.take(j - 1)) {
                    None => None,
                    Some(t) => Some((t, start + 1 + j)),
                }
            },
        }
    }
}

pub open spec fn apply_sign(neg: bool, v: int) -> int {
    if neg {
        -v
    } else {
        v
    }
}

/// The weight of a fraction string, in thousandths: the first three
/// fractional digits count, anything beyond them is truncated.
pub open spec fn frac_milli(fp: Seq<char>) -> int {
    if fp.len() == 0 {
        0
    } else if fp.len() == 1 {
        dec_val(fp) * 100
    } else if fp.len() == 2 {
        dec_val(fp) * 10
    } else {
        dec_val(fp.take(3))
    }
}

/// The decimal weight grammar: an optional sign, one to nine integer
/// digits, and an optional fraction after a dot.  The value is returned in
/// thousandths of a unit, the fraction truncated after three digits.
/// Nothing else is a weight: exponent forms, a bare leading dot, infinities
/// and other exotic float spellings fall to the weight-failure case, where
/// the record is kept with the sentinel weight 0.
pub open spec fn weight_of(s: Seq<char>) -> Option<i64> {
    let has_sign = s.len() > 0 && (s[0] == '-' || s[0] == '+');
    let neg = s.len() > 0 && s[0] == '-';
    let t = if has_sign {
        s.skip(1)
    } else {
        s
    };
    match find_char(t, '.') {
        None => if 1 <= t.len() <= 9 && all_digits(t) {
            Some(apply_sign(neg, dec_val(t) * 1000) as i64)
        } else {
            None
        },
        Some(p) => {
            let ip = t.take(p);
            let fp = t.skip(p + 1);
            if 1 <= ip.len() <= 9 && all_digits(ip) && all_digits(fp) {
                Some(apply_sign(neg, dec_val(ip) * 1000 + frac_milli(fp)) as i64)
            } else {
                None
            }
        },
    }
}

/// The weight field of a line, read just past the separator at `pos`: it
/// runs to the next separator, which must exist, and parses under the
/// decimal weight grammar.  On success, the value comes with the position
/// of the separator that closed the field.
pub open spec fn weight_field_at(line: Seq<char>, pos: int) -> Option<(i64, int)> {
    if pos + 1 > line.len() {
        None
    } else {
        let rem = line.skip(pos + 1);
        match find_char(rem, ',') {
            None => None,
            Some(k) => if k < 1 {
                None
            } else {
                match weight_of(rem.take(k)) {
                    None => None,
                    Some(w) => Some((w, pos + 1 + k)),
                }
            },
        }
    }
}

/// The weight field's value alone.
pub open spec fn weight_at(line: Seq<char>, pos: int) -> Option<i64> {
    match weight_field_at(line, pos) {
        Some((w, _)) => Some(w),
        None => None,
    }
}

/// What one line contributes: nothing when its timestamp fails, and
/// otherwise a record with that timestamp and the parsed weight — or the
/// sentinel weight 0 when only the weight fails.
pub open spec fn line_record(line: Seq<char>) -> Option<WeightLine> {
    match ts_at(line, 0) {
        None => None,
        Some((t, pos)) => Some(
            WeightLine {
                timestamp: t,
                weight: match weight_at(line, pos) {
                    Some(w) => w,
                    None => 0,
                },
            },
        ),
    }
}

/// The records of a whole input, in input order, timestamp failures
/// dropped.
pub open spec fn records_of(lines: Seq<Seq<char>>) -> Seq<WeightLine>
    decreases lines.len(),
{
    if lines.len() == 0 {
        Seq::empty()
    } else {
        records_of(lines.drop_last()) + match line_record(lines.last()) {
            Some(r) => seq![r],
            None => Seq::empty(),
        }
    }
}

/// The diagnostics of a whole input: one per line whose timestamp failed,
/// except on the first three lines (a header or metadata row is tolerated
/// without a warning).
pub open spec fn diags_of(lines: Seq<Seq<char>>) -> Seq<(int, Seq<char>)>
    decreases lines.len(),
{
    if lines.len() == 0 {
        Seq::empty()
    } else {
        diags_of(lines.drop_last()) + if line_record(lines.last()) is None && lines.len() - 1
            > 2 {
            seq![((lines.len() - 1) as int, lines.last())]
        } else {
            Seq::empty()
        }
    }
}

// ---------------------------------------------------------------------------
// Laws of the parser.
// ---------------------------------------------------------------------------

pub proof fn lemma_weight_of_bound(s: Seq<char>)
    ensures
        weight_of(s) matches Some(w) ==> -WEIGHT_MAX_MILLI <= w <= WEIGHT_MAX_MILLI,
{
    let has_sign = s.len() > 0 && (s[0] == '-' || s[0] == '+');
    let t = if has_sign {
        s.skip(1)
    } else {
        s
    };
    lemma_pow10_up_to_9();
    match find_char(t, '.') {
        None => {
            if 1 <= t.len() <= 9 && all_digits(t) {
                lemma_dec_val_bound(t);
                assert(pow10(t.len()) <= pow10(9)) by {
                    lemma_pow10_mono(t.len(), 9);
                }
            }
        },
        Some(p) => {
            lemma_find_char_in_range(t, '.');
            let ip = t.take(p);
            let fp = t.skip(p + 1);
            if 1 <= ip.len() <= 9 && all_digits(ip) && all_digits(fp) {
                lemma_dec_val_bound(ip);
                assert(pow10(ip.len()) <= pow10(9)) by {
                    lemma_pow10_mono(ip.len(), 9);
                }
                lemma_frac_milli_bound(fp);
            }
        },
    }
}

proof fn lemma_frac_milli_bound(fp: Seq<char>)
    ensures
        0 <= frac_milli(fp) <= 999,
{
    lemma_pow10_up_to_9();
    if fp.len() == 0 {
    } else if fp.len() == 1 {
        lemma_dec_val_bound(fp);
    } else if fp.len() == 2 {
        lemma_dec_val_bound(fp);
    } else {
        lemma_dec_val_bound(fp.take(3));
    }
}

proof fn lemma_pow10_mono(a: nat, b: nat)
    requires
        a <= b,
    ensures
        pow10(a) <= pow10(b),
    decreases b,
{
    if a < b {
        lemma_pow10_mono(a, (b - 1) as nat);
        assert(pow10((b - 1) as nat) >= 1) by {
            lemma_pow10_pos((b - 1) as nat);
        }
    }
}

proof fn lemma_pow10_pos(n: nat)
    ensures
        pow10(n) >= 1,
    decreases n,
{
    if n > 0 {
        lemma_pow10_pos((n - 1) as nat);
    }
}

proof fn lemma_find_char_in_range(s: Seq<char>, c: char)
    ensures
        find_char(s, c) matches Some(i) ==> 0 <= i < s.len() && s[i] == c,
    decreases s.len(),
{
    if s.len() == 0 {
    } else if s[0] == c {
    } else {
        lemma_find_char_in_range(s.drop_first(), c);
    }
}

/// Every record a parse yields is well formed.
pub proof fn lemma_records_wf(lines: Seq<Seq<char>>)
    ensures
        all_wf(records_of(lines)),
    decreases lines.len(),
{
    if lines.len() == 0 {
    } else {
        lemma_records_wf(lines.drop_last());
        let l = lines.last();
        match line_record(l) {
            None => {},
            Some(r) => {
                let (t, pos) = ts_at(l, 0)->Some_0;
                match weight_at(l, pos) {
                    None => {},
                    Some(w) => {
                        let rem = l.skip(pos + 1);
                        let k = find_char(rem, ',')->Some_0;
                        lemma_weight_of_bound(rem.take(k));
                    },
                }
            },
        }
    }
}

/// A line with an unparseable timestamp contributes nothing to the parse's
/// output, whatever its weight field holds.
pub proof fn lemma_bad_timestamp_dropped(lines: Seq<Seq<char>>, bad: Seq<char>)
    requires
        ts_at(bad, 0) is None,
    ensures
        records_of(lines.push(bad)) == records_of(lines),
{
    assert(lines.push(bad).drop_last() =~= lines);
    assert(records_of(lines.push(bad)) =~= records_of(lines));
}

/// A line with a valid timestamp but an unparseable weight contributes
/// exactly one record, holding that timestamp and the sentinel weight 0.
pub proof fn lemma_bad_weight_kept(lines: Seq<Seq<char>>, l: Seq<char>, t: Timestamp, pos: int)
    requires
        ts_at(l, 0) == Some((t, pos)),
        weight_at(l, pos) is None,
    ensures
        records_of(lines.push(l)) == records_of(lines).push(
            WeightLine { timestamp: t, weight: 0 },
        ),
{
    assert(lines.push(l).drop_last() =~= lines);
    assert(records_of(lines.push(l)) =~= records_of(lines).push(
        WeightLine { timestamp: t, weight: 0 },
    ));
}

// ---------------------------------------------------------------------------
// Executable parser.
// ---------------------------------------------------------------------------

/// A parse failure worth reporting: the line that failed and its position.
#[derive(Clone, Debug, PartialEq)]
pub struct Diagnostic {
    pub index: usize,
    pub line: String,
}

impl Diagnostic {
    /// The reason every reported failure carries: only a timestamp failure
    /// drops a line, so only it is diagnosed.
    pub fn message(&self) -> (r: &'static str)
        ensures
            r@ == "could not parse: timestamp"@,
    {
        "could not parse: timestamp"
    }
}

fn chars_of(s: &str) -> (r: Vec<char>)
    ensures
        r@ == s@,
{
    let n = s.unicode_len();
    let mut r: Vec<char> = Vec::new();
    let mut i: usize = 0;
    while i < n
        invariant
            0 <= i <= n,
            n == s@.len(),
            r@ == s@.take(i as int),
        decreases n - i,
    {
        let c = s.get_char(i);
        r.push(c);
        assert(r@ =~= s@.take(i + 1));
        i = i + 1;
    }
    assert(s@.take(n as int) =~= s@);
    r
}

fn digit_of(c: char) -> (r: Option<u64>)
    ensures
        match r {
            Some(v) => is_digit(c) && v == digit_val(c),
            None => !is_digit(c),
        },
{
    match c {
        '0' => Some(0u64),
        '1' => Some(1u64),
        '2' => Some(2u64),
        '3' => Some(3u64),
        '4' => Some(4u64),
        '5' => Some(5u64),
        '6' => Some(6u64),
        '7' => Some(7u64),
        '8' => Some(8u64),
        '9' => Some(9u64),
        _ => None,
    }
}

/// First position of `c` in `cs[from..to]`, as an absolute index.
fn find_in(cs: &Vec<char>, from: usize, to: usize, c: char) -> (r: Option<usize>)
    requires
        from <= to <= cs.len(),
    ensures
        match r {
            Some(j) => from <= j < to && cs@[j as int] == c && find_char(
                cs@.subrange(from as int, to as int),
                c,
            ) == Some(j - from),
            None => find_char(cs@.subrange(from as int, to as int), c) is None,
        },
{
    let ghost sub = cs@.subrange(from as int, to as int);
    let mut j: usize = from;
    while j < to
        invariant
            from <= j <= to <= cs.len(),
            sub == cs@.subrange(from as int, to as int),
            forall|m: int| from <= m < j ==> cs@[m] != c,
        decreases to - j,
    {
        if cs[j] == c {
            proof {
                assert(sub[j - from] == c);
                assert(forall|m: int| 0 <= m < j - from ==> #[trigger] sub[m] == cs@[from + m]
                    && cs@[from + m] != c);
                lemma_find_char_present(sub, c, j - from);
            }
            return Some(j);
        }
        j = j + 1;
    }
    proof {
        assert(forall|m: int| 0 <= m < sub.len() ==> #[trigger] sub[m] == cs@[from + m]
            && cs@[from + m] != c);
        lemma_find_char_absent(sub, c);
    }
    None
}

/// Whether `cs[from..to]` is all decimal digits; if so, also its value.
fn parse_digits(cs: &Vec<char>, from: usize, to: usize) -> (r: Option<u64>)
    requires
        from <= to <= cs.len(),
        to - from <= 9,
    ensures
        match r {
            Some(v) => all_digits(cs@.subrange(from as int, to as int)) && v == dec_val(
                cs@.subrange(from as int, to as int),
            ) && v < pow10((to - from) as nat),
            None => !all_digits(cs@.subrange(from as int, to as int)),
        },
{
    proof {
        lemma_pow10_up_to_9();
    }
    let mut i: usize = from;
    let mut acc: u64 = 0;
    while i < to
        invariant
            from <= i <= to <= cs.len(),
            to - from <= 9,
            acc == dec_val(cs@.subrange(from as int, i as int)),
            acc < pow10((i - from) as nat),
            pow10(9) == 1000000000,
            all_digits(cs@.subrange(from as int, i as int)),
        decreases to - i,
    {
        match digit_of(cs[i]) {
            None => {
                proof {
                    let sub = cs@.subrange(from as int, to as int);
                    assert(sub[i - from] == cs@[i as int]);
                }
                return None;
            },
            Some(v) => {
                proof {
                    lemma_pow10_mono(((i - from) + 1) as nat, 9);
                    let pre = cs@.subrange(from as int, i as int);
                    let ext = cs@.subrange(from as int, i + 1);
                    assert(ext.drop_last() =~= pre);
                    assert(ext.last() == cs@[i as int]);
                    assert(forall|m: int| 0 <= m < ext.len() ==> #[trigger] ext[m] == cs@[from
                        + m]);
                }
                acc = acc * 10 + v;
                i = i + 1;
            },
        }
    }
    Some(acc)
}

/// Reads the quoted timestamp field that begins at `start_index`, returning
/// the timestamp and the position of the separator that closed the field.
pub fn parse_timestamp(cs: &Vec<char>, start_index: usize) -> (r: Result<
    (Timestamp, usize),
    &'static str,
>)
    ensures
        (match r {
            Ok((t, p)) => ts_at(cs@, start_index as int) == Some((t, p as int)),
            Err(m) => ts_at(cs@, start_index as int) is None && m@ == "could not parse: timestamp"@,
        }),
{
    let err_msg = "could not parse: timestamp";
    if start_index >= cs.len() {
        return Err(err_msg);
    }
    let base = start_index + 1;
    let ghost rem = cs@.skip(base as int);
    assert(forall|m: int| 0 <= m < rem.len() ==> #[trigger] rem[m] == cs@[base + m]);
    let j_abs = match find_in(cs, base, cs.len(), ',') {
        None => {
            proof {
                assert(cs@.subrange(base as int, cs@.len() as int) =~= rem);
            }
            return Err(err_msg);
        },
        Some(j) => j,
    };
    proof {
        assert(cs@.subrange(base as int, cs@.len() as int) =~= rem);
    }
    let j_rel: usize = j_abs - base;
    if j_rel < 1 {
        return Err(err_msg);
    }
    let ghost field = rem.take(j_rel - 1);
    assert(field =~= cs@.subrange(base as int, j_abs - 1));
    if j_rel - 1 != 19 {
        return Err(err_msg);
    }
    // Separator characters of the fixed pattern.
    if !(cs[base + 4] == '-' && cs[base + 7] == '-' && cs[base + 10] == ' ' && cs[base + 13]
        == ':' && cs[base + 16] == ':') {
        return Err(err_msg);
    }
    let year = match parse_digits(cs, base, base + 4) {
        None => {
            proof {
                assert(cs@.subrange(base as int, base + 4) =~= field.subrange(0, 4));
            }
            return Err(err_msg);
        },
        Some(v) => v,
    };
    let month = match parse_digits(cs, base + 5, base + 7) {
        None => {
            proof {
                assert(cs@.subrange(base + 5, base + 7) =~= field.subrange(5, 7));
            }
            return Err(err_msg);
        },
        Some(v) => v,
    };
    let day = match parse_digits(cs, base + 8, base + 10) {
        None => {
            proof {
                assert(cs@.subrange(base + 8, base + 10) =~= field.subrange(8, 10));
            }
            return Err(err_msg);
        },
        Some(v) => v,
    };
    let hour = match parse_digits(cs, base + 11, base + 13) {
        None => {
            proof {
                assert(cs@.subrange(base + 11, base + 13) =~= field.subrange(11, 13));
            }
            return Err(err_msg);
        },
        Some(v) => v,
    };
    let minute = match parse_digits(cs, base + 14, base + 16) {
        None => {
            proof {
                assert(cs@.subrange(base + 14, base + 16) =~= field.subrange(14, 16));
            }
            return Err(err_msg);
        },
        Some(v) => v,
    };
    let second = match parse_digits(cs, base + 17, base + 19) {
        None => {
            proof {
                assert(cs@.subrange(base + 17, base + 19) =~= field.subrange(17, 19));
            }
            return Err(err_msg);
        },
        Some(v) => v,
    };
    proof {
        lemma_pow10_up_to_9();
        assert(cs@.subrange(base as int, base + 4) =~= field.subrange(0, 4));
        assert(cs@.subrange(base + 5, base + 7) =~= field.subrange(5, 7));
        assert(cs@.subrange(base + 8, base + 10) =~= field.subrange(8, 10));
        assert(cs@.subrange(base + 11, base + 13) =~= field.subrange(11, 13));
        assert(cs@.subrange(base + 14, base + 16) =~= field.subrange(14, 16));
        assert(cs@.subrange(base + 17, base + 19) =~= field.subrange(17, 19));
        assert(field[4] == cs@[base + 4]);
        assert(field[7] == cs@[base + 7]);
        assert(field[10] == cs@[base + 10]);
        assert(field[13] == cs@[base + 13]);
        assert(field[16] == cs@[base + 16]);
    }
    let t = Timestamp {
        year: year as u32,
        month: month as u32,
        day: day as u32,
        hour: hour as u32,
        minute: minute as u32,
        second: second as u32,
    };
    assert(ts_shape(field));
    assert(t == ts_value(field));
    // The date and time must really exist on the calendar.
    if !(t.year <= 9999 && 1 <= t.month && t.month <= 12 && t.hour < 24 && t.minute < 60
        && t.second < 60) {
        return Err(err_msg);
    }
    let dim = days_in_month_x(t.year, t.month);
    if !(1 <= t.day && t.day <= dim) {
        return Err(err_msg);
    }
    assert(t.wf());
    Ok((t, j_abs))
}

/// Whether `cs[from..to]` consists of decimal digits only.
fn all_digits_in(cs: &Vec<char>, from: usize, to: usize) -> (b: bool)
    requires
        from <= to <= cs.len(),
    ensures
        b == all_digits(cs@.subrange(from as int, to as int)),
{
    let ghost sub = cs@.subrange(from as int, to as int);
    let mut m: usize = from;
    while m < to
        invariant
            from <= m <= to <= cs.len(),
            sub == cs@.subrange(from as int, to as int),
            forall|q: int| from <= q < m ==> is_digit(#[trigger] cs@[q]),
        decreases to - m,
    {
        if digit_of(cs[m]).is_none() {
            proof {
                assert(sub[m - from] == cs@[m as int]);
            }
            return false;
        }
        m = m + 1;
    }
    proof {
        assert(forall|q: int| 0 <= q < sub.len() ==> #[trigger] sub[q] == cs@[from + q]);
    }
    true
}

/// Reads the weight field that begins just past the separator at
/// `start_index`, returning the weight in thousandths and the position of
/// the separator that closed the field.
#[verifier::rlimit(100)]
pub fn parse_float(cs: &Vec<char>, start_index: usize) -> (r: Result<(i64, usize), &'static str>)
    ensures
        (match r {
            Ok((w, p)) => weight_field_at(cs@, start_index as int) == Some((w, p as int)),
            Err(m) => weight_field_at(cs@, start_index as int) is None && m@
                == "could not parse: weight float"@,
        }),
{
    let err_msg = "could not parse: weight float";
    if start_index >= cs.len() {
        return Err(err_msg);
    }
    let base = start_index + 1;
    let ghost rem = cs@.skip(base as int);
    assert(forall|m: int| 0 <= m < rem.len() ==> #[trigger] rem[m] == cs@[base + m]);
    let k_abs = match find_in(cs, base, cs.len(), ',') {
        None => {
            proof {
                assert(cs@.subrange(base as int, cs@.len() as int) =~= rem);
            }
            return Err(err_msg);
        },
        Some(j) => j,
    };
    proof {
        assert(cs@.subrange(base as int, cs@.len() as int) =~= rem);
    }
    let k_rel: usize = k_abs - base;
    if k_rel < 1 {
        return Err(err_msg);
    }
    let ghost field = rem.take(k_rel as int);
    assert(field =~= cs@.subrange(base as int, k_abs as int));
    // Optional sign.
    let c0 = cs[base];
    assert(c0 == field[0]);
    let neg = c0 == '-';
    let has_sign = neg || c0 == '+';
    let ti: usize = if has_sign {
        base + 1
    } else {
        base
    };
    let ghost t = if has_sign {
        field.skip(1)
    } else {
        field
    };
    assert(t =~= cs@.subrange(ti as int, k_abs as int));
    // Split at a decimal point, if present.
    let dot = find_in(cs, ti, k_abs, '.');
    proof {
        assert(cs@.subrange(ti as int, k_abs as int) =~= t);
    }
    let magnitude: u64 = match dot {
        None => {
            let dlen = k_abs - ti;
            if dlen < 1 || dlen > 9 {
                return Err(err_msg);
            }
            match parse_digits(cs, ti, k_abs) {
                None => {
                    return Err(err_msg);
                },
                Some(v) => {
                    proof {
                        lemma_pow10_up_to_9();
                    }
                    v * 1000
                },
            }
        },
        Some(p_abs) => {
            let ghost p = (p_abs - ti) as int;
            let ghost ip = t.take(p);
            let ghost fp = t.skip(p + 1);
            assert(ip =~= cs@.subrange(ti as int, p_abs as int));
            assert(fp =~= cs@.subrange(p_abs + 1, k_abs as int));
            let iplen = p_abs - ti;
            if iplen < 1 || iplen > 9 {
                return Err(err_msg);
            }
            let ipv = match parse_digits(cs, ti, p_abs) {
                None => {
                    return Err(err_msg);
                },
                Some(v) => v,
            };
            // The whole fraction must be digits, however long.
            let fstart = p_abs + 1;
            if !all_digits_in(cs, fstart, k_abs) {
                proof {
                    assert(cs@.subrange(fstart as int, k_abs as int) =~= fp);
                }
                return Err(err_msg);
            }
            proof {
                assert(cs@.subrange(fstart as int, k_abs as int) =~= fp);
                assert(all_digits(fp));
            }
            // Only the first three fractional digits count.
            let flen = k_abs - fstart;
            let keep: usize = if flen > 3 {
                3
            } else {
                flen
            };
            let fv = match parse_digits(cs, fstart, fstart + keep) {
                None => {
                    proof {
                        assert(forall|q: int| 0 <= q < keep ==> cs@.subrange(
                            fstart as int,
                            fstart + keep,
                        )[q] == #[trigger] fp[q]);
                        assert(all_digits(cs@.subrange(fstart as int, fstart + keep)));
                    }
                    return Err(err_msg);
                },
                Some(v) => v,
            };
            proof {
                lemma_pow10_up_to_9();
            }
            assert(fv < pow10(keep as nat));
            let fmilli: u64 = if flen == 0 {
                0
            } else if flen == 1 {
                fv * 100
            } else if flen == 2 {
                fv * 10
            } else {
                fv
            };
            proof {
                if flen == 0 {
                    assert(frac_milli(fp) == 0);
                } else if flen == 1 {
                    assert(cs@.subrange(fstart as int, fstart + keep) =~= fp);
                } else if flen == 2 {
                    assert(cs@.subrange(fstart as int, fstart + keep) =~= fp);
                } else {
                    assert(cs@.subrange(fstart as int, fstart + keep) =~= fp.take(3));
                }
                lemma_frac_milli_bound(fp);
            }
            ipv * 1000 + fmilli
        },
    };
    let w: i64 = if neg {
        -(magnitude as i64)
    } else {
        magnitude as i64
    };
    Ok((w, k_abs))
}

/// Parses one raw line into a record and a failure flag.  The flag is set
/// exactly when the timestamp failed; such a record is the untouched
/// scratch value and is meant to be discarded.  A weight failure leaves
/// the flag clear and the sentinel weight 0 in place.
pub fn parse_line(line: &String) -> (r: (WeightLine, bool))
    ensures
        (match line_record(line@) {
            Some(rec) => !r.1 && r.0 == rec,
            None => r.1 && r.0 == WeightLine::default_spec(),
        }),
{
    let cs = chars_of(line.as_str());
    let mut weight_line = WeightLine::new();
    match parse_timestamp(&cs, 0) {
        Err(_) => (weight_line, true),
        Ok((t, idx)) => {
            weight_line.timestamp = t;
            match parse_float(&cs, idx) {
                Ok((w, _)) => {
                    weight_line.weight = w;
                },
                Err(_) => {
                    // never mind: the record is kept with the sentinel weight
                },
            }
            (weight_line, false)
        },
    }
}

/// Parses a whole input, one line at a time: the records of the lines
/// whose timestamp parsed, in input order, and one diagnostic per dropped
/// line past the three-line warm-up.
pub fn parse_file(lines: &Vec<String>) -> (r: (Vec<WeightLine>, Vec<Diagnostic>))
    ensures
        r.0@ == records_of(lines.deep_view()),
        r.1@.len() == diags_of(lines.deep_view()).len(),
        forall|i: int| 0 <= i < r.1@.len() ==> #[trigger] r.1@[i].index == diags_of(
            lines.deep_view(),
        )[i].0 && r.1@[i].line@ == diags_of(lines.deep_view())[i].1,
{
    let ghost dv = lines.deep_view();
    let mut result: Vec<WeightLine> = Vec::new();
    let mut diags: Vec<Diagnostic> = Vec::new();
    let mut line_counter: usize = 0;
    while line_counter < lines.len()
        invariant
            0 <= line_counter <= lines.len(),
            dv == lines.deep_view(),
            dv.len() == lines.len(),
            forall|i: int| 0 <= i < lines.len() ==> #[trigger] dv[i] == lines@[i]@,
            result@ == records_of(dv.take(line_counter as int)),
            diags@.len() == diags_of(dv.take(line_counter as int)).len(),
            forall|i: int| 0 <= i < diags@.len() ==> #[trigger] diags@[i].index == diags_of(
                dv.take(line_counter as int),
            )[i].0 && diags@[i].line@ == diags_of(dv.take(line_counter as int))[i].1,
        decreases lines.len() - line_counter,
    {
        let line = &lines[line_counter];
        let (rec, line_error) = parse_line(line);
        let ghost pre = dv.take(line_counter as int);
        let ghost cur = dv.take(line_counter + 1);
        proof {
            assert(cur.drop_last() =~= pre);
            assert(cur.last() == dv[line_counter as int]);
        }
        if !line_error {
            result.push(rec);
        } else if line_counter > 2 {
            diags.push(Diagnostic { index: line_counter, line: line.clone() });
        }
        proof {
            assert(result@ =~= records_of(cur));
            assert(diags@.len() == diags_of(cur).len());
        }
        line_counter = line_counter + 1;
    }
    proof {
        assert(dv.take(lines.len() as int) =~= dv);
    }
    (result, diags)
}

} // verus!
