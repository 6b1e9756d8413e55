//! The bytes of a mesh file: lines, tokens, numerals and indices.

use vstd::prelude::*;
use vstd::slice::slice_subrange;

verus! {

/// Line feed, which ends a line.
pub const LINE_FEED: u8 = 0x0a;

/// The first position at or after `from` that holds the byte `b`, or the
/// length of `s` when no position does.
pub open spec fn find_byte(s: Seq<u8>, from: int, b: u8) -> int
    decreases s.len() - from,
{
    if from >= s.len() {
        s.len() as int
    } else if s[from] == b {
        from
    } else {
        find_byte(s, from + 1, b)
    }
}

/// `find_byte` stops between `from` and the length, on the first `b`.
pub proof fn lemma_find_byte(s: Seq<u8>, from: int, b: u8)
    requires
        0 <= from <= s.len(),
    ensures
        from <= find_byte(s, from, b) <= s.len(),
        find_byte(s, from, b) < s.len() ==> s[find_byte(s, from, b)] == b,
        forall|k: int| from <= k < find_byte(s, from, b) ==> s[k] != b,
    decreases s.len() - from,
{
    if from < s.len() && s[from] != b {
        lemma_find_byte(s, from + 1, b);
    }
}

/// Finds the first `b` in `data` at or after `from`.
pub fn index_of_byte(data: &[u8], from: usize, b: u8) -> (at: usize)
    requires
        from <= data@.len(),
    ensures
        at == find_byte(data@, from as int, b),
        from <= at <= data@.len(),
{
    let mut at: usize = from;
    while at < data.len() && data[at] != b
        invariant
            from <= at <= data@.len(),
            find_byte(data@, at as int, b) == find_byte(data@, from as int, b),
        decreases data@.len() - at,
    {
        at += 1;
    }
    at
}

/// The lines of `data` from position `from` on. A line ends before a line
/// feed or at the end of the data; nothing follows a final line feed.
pub open spec fn lines_from(data: Seq<u8>, from: int) -> Seq<Seq<u8>>
    decreases data.len() + 1 - from,
    via lines_from_decreases
{
    if from < 0 || from >= data.len() {
        Seq::empty()
    } else {
        let end = find_byte(data, from, LINE_FEED);
        seq![data.subrange(from, end)] + lines_from(data, end + 1)
    }
}

#[via_fn]
proof fn lines_from_decreases(data: Seq<u8>, from: int) {
    if 0 <= from < data.len() {
        lemma_find_byte(data, from, LINE_FEED);
    }
}

/// The lines of `data`.
pub open spec fn lines_of(data: Seq<u8>) -> Seq<Seq<u8>> {
    lines_from(data, 0)
}

/// No line holds a line feed.
pub proof fn lemma_lines_hold_no_line_feed(data: Seq<u8>, from: int, k: int)
    requires
        0 <= from,
        0 <= k < lines_from(data, from).len(),
    ensures
        forall|j: int|
            0 <= j < lines_from(data, from)[k].len() ==> lines_from(data, from)[k][j] != LINE_FEED,
    decreases k,
{
    lemma_find_byte(data, from, LINE_FEED);
    let end = find_byte(data, from, LINE_FEED);
    let line = data.subrange(from, end);
    assert(lines_from(data, from) == seq![line] + lines_from(data, end + 1));
    if k == 0 {
        assert(lines_from(data, from)[0] == line);
        assert forall|j: int| 0 <= j < line.len() implies line[j] != LINE_FEED by {
            assert(line[j] == data[from + j]);
        }
    } else {
        assert(lines_from(data, from)[k] == lines_from(data, end + 1)[k - 1]);
        lemma_lines_hold_no_line_feed(data, end + 1, k - 1);
    }
}

/// Blank bytes separate the tokens of a line: the space and the control
/// characters from tab to carriage return.
pub open spec fn is_blank(b: u8) -> bool {
    b == 0x20 || (0x09 <= b <= 0x0d)
}

/// Tells whether `b` is blank.
pub fn blank(b: u8) -> (r: bool)
    ensures
        r == is_blank(b),
{
    b == 0x20 || (0x09 <= b && b <= 0x0d)
}

/// The first position at or after `from` that holds no blank, or the length.
pub open spec fn blanks_end(s: Seq<u8>, from: int) -> int
    decreases s.len() - from,
{
    if from >= s.len() {
        s.len() as int
    } else if !is_blank(s[from]) {
        from
    } else {
        blanks_end(s, from + 1)
    }
}

/// The first position at or after `from` that holds a blank, or the length.
pub open spec fn token_end(s: Seq<u8>, from: int) -> int
    decreases s.len() - from,
{
    if from >= s.len() {
        s.len() as int
    } else if is_blank(s[from]) {
        from
    } else {
        token_end(s, from + 1)
    }
}

/// Both scans stop between `from` and the length; a token that starts on a
/// byte that is not blank is not empty.
pub proof fn lemma_scan_bounds(s: Seq<u8>, from: int)
    requires
        0 <= from <= s.len(),
    ensures
        from <= blanks_end(s, from) <= s.len(),
        from <= token_end(s, from) <= s.len(),
        from < s.len() && !is_blank(s[from]) ==> from < token_end(s, from),
        blanks_end(s, from) < s.len() ==> !is_blank(s[blanks_end(s, from)]),
        forall|k: int| from <= k < token_end(s, from) ==> !is_blank(s[k]),
    decreases s.len() - from,
{
    if from < s.len() {
        lemma_scan_bounds(s, from + 1);
    }
}

/// The tokens of `s` from position `from` on: the maximal runs of bytes that
/// are not blank.
pub open spec fn tokens_from(s: Seq<u8>, from: int) -> Seq<Seq<u8>>
    decreases s.len() - from,
    via tokens_from_decreases
{
    if from < 0 || from >= s.len() {
        Seq::empty()
    } else {
        let start = blanks_end(s, from);
        if start >= s.len() {
            Seq::empty()
        } else {
            seq![s.subrange(start, token_end(s, start))] + tokens_from(s, token_end(s, start))
        }
    }
}

#[via_fn]
proof fn tokens_from_decreases(s: Seq<u8>, from: int) {
    if 0 <= from < s.len() {
        lemma_scan_bounds(s, from);
        lemma_scan_bounds(s, blanks_end(s, from));
    }
}

/// A token is not empty and holds no blank.
pub proof fn lemma_tokens_hold_no_blank(s: Seq<u8>, from: int, k: int)
    requires
        0 <= from,
        0 <= k < tokens_from(s, from).len(),
    ensures
        tokens_from(s, from)[k].len() > 0,
        forall|j: int|
            0 <= j < tokens_from(s, from)[k].len() ==> !is_blank(tokens_from(s, from)[k][j]),
    decreases k,
{
    lemma_scan_bounds(s, from);
    let start = blanks_end(s, from);
    lemma_scan_bounds(s, start);
    let end = token_end(s, start);
    let token = s.subrange(start, end);
    assert(tokens_from(s, from) == seq![token] + tokens_from(s, end));
    if k == 0 {
        assert(tokens_from(s, from)[0] == token);
        assert forall|j: int| 0 <= j < token.len() implies !is_blank(token[j]) by {
            assert(token[j] == s[start + j]);
        }
    } else {
        assert(tokens_from(s, from)[k] == tokens_from(s, end)[k - 1]);
        lemma_tokens_hold_no_blank(s, end, k - 1);
    }
}

/// The tokens of a line.
pub open spec fn tokens(s: Seq<u8>) -> Seq<Seq<u8>> {
    tokens_from(s, 0)
}

/// The first `limit` tokens of a line, or all of them when it has fewer.
pub open spec fn leading_tokens(s: Seq<u8>, limit: int) -> Seq<Seq<u8>> {
    if tokens(s).len() <= limit {
        tokens(s)
    } else {
        tokens(s).subrange(0, limit)
    }
}

/// Finds the first `limit` tokens of `line`: the position where each starts
/// and the position after its last byte.
pub fn split_tokens(line: &[u8], limit: usize) -> (spans: Vec<(usize, usize)>)
    ensures
        spans@.len() == leading_tokens(line@, limit as int).len(),
        forall|k: int|
            0 <= k < spans@.len() ==> {
                &&& (#[trigger] spans@[k]).0 < spans@[k].1 <= line@.len()
                &&& line@.subrange(spans@[k].0 as int, spans@[k].1 as int) == leading_tokens(
                    line@,
                    limit as int,
                )[k]
            },
{
    let n = line.len();
    let mut spans: Vec<(usize, usize)> = Vec::new();
    let mut at: usize = 0;
    let ghost mut found: Seq<Seq<u8>> = Seq::empty();
    while spans.len() < limit && at < n
        invariant
            n == line@.len(),
            0 <= at <= n,
            spans@.len() <= limit,
            found.len() == spans@.len(),
            tokens(line@) == found + tokens_from(line@, at as int),
            forall|k: int|
                0 <= k < spans@.len() ==> {
                    &&& (#[trigger] spans@[k]).0 < spans@[k].1 <= n
                    &&& line@.subrange(spans@[k].0 as int, spans@[k].1 as int) == found[k]
                },
        decreases n - at,
    {
        proof {
            lemma_scan_bounds(line@, at as int);
        }
        let mut start: usize = at;
        while start < n && blank(line[start])
            invariant
                n == line@.len(),
                at <= start <= n,
                blanks_end(line@, start as int) == blanks_end(line@, at as int),
            decreases n - start,
        {
            start += 1;
        }
        if start >= n {
            assert(tokens_from(line@, at as int) == Seq::<Seq<u8>>::empty());
            proof {
                lemma_tokens_done(line@, n as int);
            }
            at = n;
        } else {
            proof {
                lemma_scan_bounds(line@, start as int);
            }
            let mut end: usize = start;
            while end < n && !blank(line[end])
                invariant
                    n == line@.len(),
                    start <= end <= n,
                    token_end(line@, end as int) == token_end(line@, start as int),
                decreases n - end,
            {
                end += 1;
            }
            proof {
                let token = line@.subrange(start as int, end as int);
                assert(tokens_from(line@, at as int) == seq![token] + tokens_from(
                    line@,
                    end as int,
                ));
                assert(found + (seq![token] + tokens_from(line@, end as int)) =~= found.push(token)
                    + tokens_from(line@, end as int));
                found = found.push(token);
            }
            spans.push((start, end));
            at = end;
        }
    }
    proof {
        if at >= n {
            lemma_tokens_done(line@, at as int);
            assert(found + Seq::<Seq<u8>>::empty() =~= found);
        } else {
            assert(tokens(line@).subrange(0, limit as int) =~= found);
        }
    }
    spans
}

/// The decimal digits.
pub open spec fn is_digit(b: u8) -> bool {
    0x30 <= b <= 0x39
}

/// Every byte of `s` is a decimal digit.
pub open spec fn all_digits(s: Seq<u8>) -> bool {
    forall|i: int| 0 <= i < s.len() ==> is_digit(#[trigger] s[i])
}

/// Tells whether every byte of `s` is a decimal digit.
pub fn digits_only(s: &[u8]) -> (r: bool)
    ensures
        r == all_digits(s@),
{
    let mut i: usize = 0;
    while i < s.len()
        invariant
            0 <= i <= s@.len(),
            forall|j: int| 0 <= j < i ==> is_digit(#[trigger] s@[j]),
        decreases s@.len() - i,
    {
        if !(0x30 <= s[i] && s[i] <= 0x39) {
            return false;
        }
        i += 1;
    }
    true
}

/// `s` without the plus or minus sign that it may start with.
pub open spec fn unsigned_part(s: Seq<u8>) -> Seq<u8> {
    if s.len() > 0 && (s[0] == 0x2b || s[0] == 0x2d) {
        s.subrange(1, s.len() as int)
    } else {
        s
    }
}

/// Drops the sign that `s` may start with.
fn drop_sign(s: &[u8]) -> (r: &[u8])
    ensures
        r@ == unsigned_part(s@),
{
    if s.len() > 0 && (s[0] == 0x2b || s[0] == 0x2d) {
        slice_subrange(s, 1, s.len())
    } else {
        s
    }
}

/// The digits before the exponent of a numeral: digits with at most one point
/// among them, before them or after them, and at least one digit.
pub open spec fn is_mantissa(m: Seq<u8>) -> bool {
    let point = find_byte(m, 0, 0x2e);
    let whole = m.subrange(0, point);
    let fraction = if point < m.len() {
        m.subrange(point + 1, m.len() as int)
    } else {
        Seq::empty()
    };
    all_digits(whole) && all_digits(fraction) && whole.len() + fraction.len() > 0
}

/// The exponent of a numeral after its mark: digits, at least one, which a
/// sign may precede.
pub open spec fn is_exponent(e: Seq<u8>) -> bool {
    unsigned_part(e).len() > 0 && all_digits(unsigned_part(e))
}

/// Where the exponent mark of `s` stands, an `e` in either case, or the length
/// when it has none.
pub open spec fn exponent_mark(s: Seq<u8>) -> int {
    if find_byte(s, 0, 0x65) <= find_byte(s, 0, 0x45) {
        find_byte(s, 0, 0x65)
    } else {
        find_byte(s, 0, 0x45)
    }
}

/// A decimal numeral without sign: a mantissa, and an exponent if a mark
/// follows the mantissa.
pub open spec fn is_decimal(s: Seq<u8>) -> bool {
    let mark = exponent_mark(s);
    &&& is_mantissa(s.subrange(0, mark))
    &&& mark < s.len() ==> is_exponent(s.subrange(mark + 1, s.len() as int))
}

/// Whether `b` is the lower-case ASCII letter `w` in either case.
pub open spec fn same_letter(b: u8, w: u8) -> bool {
    b == w || (0x41 <= b <= 0x5a && b + 0x20 == w)
}

/// Whether `s` spells the lower-case `word`, whatever the case of its letters.
pub open spec fn spells(s: Seq<u8>, word: Seq<u8>) -> bool {
    &&& s.len() == word.len()
    &&& forall|i: int| 0 <= i < s.len() ==> same_letter(#[trigger] s[i], word[i])
}

/// The word `inf`.
pub open spec fn word_inf() -> Seq<u8> {
    seq![0x69u8, 0x6eu8, 0x66u8]
}

/// The word `infinity`.
pub open spec fn word_infinity() -> Seq<u8> {
    seq![0x69u8, 0x6eu8, 0x66u8, 0x69u8, 0x6eu8, 0x69u8, 0x74u8, 0x79u8]
}

/// The word `nan`.
pub open spec fn word_nan() -> Seq<u8> {
    seq![0x6eu8, 0x61u8, 0x6eu8]
}

/// A numeral as a coordinate of a mesh file is written: after an optional
/// sign, a decimal numeral or one of the words `inf`, `infinity` and `nan`.
pub open spec fn is_numeral(s: Seq<u8>) -> bool {
    let body = unsigned_part(s);
    ||| spells(body, word_inf())
    ||| spells(body, word_infinity())
    ||| spells(body, word_nan())
    ||| is_decimal(body)
}

/// Tells whether `s` spells `word`.
fn is_word(s: &[u8], word: &[u8]) -> (r: bool)
    ensures
        r == spells(s@, word@),
{
    if s.len() != word.len() {
        return false;
    }
    let mut i: usize = 0;
    while i < s.len()
        invariant
            0 <= i <= s@.len(),
            s@.len() == word@.len(),
            forall|j: int| 0 <= j < i ==> same_letter(#[trigger] s@[j], word@[j]),
        decreases s@.len() - i,
    {
        let b = s[i];
        let w = word[i];
        if !(b == w || (0x41 <= b && b <= 0x5a && b + 0x20 == w)) {
            return false;
        }
        i += 1;
    }
    true
}

/// Tells whether `m` is a mantissa.
fn mantissa(m: &[u8]) -> (r: bool)
    ensures
        r == is_mantissa(m@),
{
    let n = m.len();
    let point = index_of_byte(m, 0, 0x2e);
    let whole = slice_subrange(m, 0, point);
    if !digits_only(whole) {
        return false;
    }
    if point < n {
        let fraction = slice_subrange(m, point + 1, n);
        digits_only(fraction) && whole.len() + fraction.len() > 0
    } else {
        assert(all_digits(Seq::<u8>::empty()));
        whole.len() > 0
    }
}

/// Tells whether `s` is a decimal numeral without sign.
fn decimal(s: &[u8]) -> (r: bool)
    ensures
        r == is_decimal(s@),
{
    let n = s.len();
    let small = index_of_byte(s, 0, 0x65);
    let capital = index_of_byte(s, 0, 0x45);
    let mark = if small <= capital {
        small
    } else {
        capital
    };
    if !mantissa(slice_subrange(s, 0, mark)) {
        return false;
    }
    if mark < n {
        let exponent = drop_sign(slice_subrange(s, mark + 1, n));
        exponent.len() > 0 && digits_only(exponent)
    } else {
        true
    }
}

/// Tells whether `s` is written as a numeral.
pub fn numeral(s: &[u8]) -> (r: bool)
    ensures
        r == is_numeral(s@),
{
    let body = drop_sign(s);
    let inf: [u8; 3] = [0x69, 0x6e, 0x66];
    let infinity: [u8; 8] = [0x69, 0x6e, 0x66, 0x69, 0x6e, 0x69, 0x74, 0x79];
    let nan: [u8; 3] = [0x6e, 0x61, 0x6e];
    assert(inf@ =~= word_inf());
    assert(infinity@ =~= word_infinity());
    assert(nan@ =~= word_nan());
    is_word(body, inf.as_slice()) || is_word(body, infinity.as_slice()) || is_word(
        body,
        nan.as_slice(),
    ) || decimal(body)
}

/// The number that the decimal digits `digits` write.
pub open spec fn decimal_value(digits: Seq<u8>) -> nat
    decreases digits.len(),
{
    if digits.len() == 0 {
        0
    } else {
        decimal_value(digits.drop_last()) * 10 + (digits.last() - 0x30) as nat
    }
}

/// More digits do not write a smaller number.
pub proof fn lemma_decimal_value_grows(digits: Seq<u8>, i: int)
    requires
        0 <= i <= digits.len(),
        all_digits(digits),
    ensures
        decimal_value(digits.subrange(0, i)) <= decimal_value(digits),
    decreases digits.len() - i,
{
    if i < digits.len() {
        let longer = digits.subrange(0, i + 1);
        assert(longer.drop_last() =~= digits.subrange(0, i));
        assert(is_digit(digits[i]));
        lemma_decimal_value_grows(digits, i + 1);
    } else {
        assert(digits.subrange(0, i) =~= digits);
    }
}

/// `s` without the plus sign that it may start with.
pub open spec fn index_digits(s: Seq<u8>) -> Seq<u8> {
    if s.len() > 0 && s[0] == 0x2b {
        s.subrange(1, s.len() as int)
    } else {
        s
    }
}

/// The position that a one-based index names, counted from zero: `s` is a
/// run of digits, which a plus sign may precede, that writes a number from 1
/// to the largest `usize`.
pub open spec fn index_of(s: Seq<u8>) -> Option<usize> {
    let digits = index_digits(s);
    if digits.len() > 0 && all_digits(digits) && 1 <= decimal_value(digits) <= usize::MAX {
        Some((decimal_value(digits) - 1) as usize)
    } else {
        None
    }
}

/// Reads a one-based index and counts it from zero.
pub fn read_index(s: &[u8]) -> (r: Option<usize>)
    ensures
        r == index_of(s@),
{
    let digits = if s.len() > 0 && s[0] == 0x2b {
        slice_subrange(s, 1, s.len())
    } else {
        s
    };
    let n = digits.len();
    if n == 0 {
        return None;
    }
    let mut value: usize = 0;
    let mut i: usize = 0;
    while i < n
        invariant
            0 <= i <= n,
            n == digits@.len(),
            0 < n,
            digits@ == index_digits(s@),
            all_digits(digits@.subrange(0, i as int)),
            value == decimal_value(digits@.subrange(0, i as int)),
        decreases n - i,
    {
        let b = digits[i];
        if !(0x30 <= b && b <= 0x39) {
            assert(!is_digit(digits@[i as int]));
            return None;
        }
        let d: usize = (b - 0x30) as usize;
        proof {
            let longer = digits@.subrange(0, i + 1);
            assert(longer.drop_last() =~= digits@.subrange(0, i as int));
            assert(decimal_value(longer) == value * 10 + d);
            assert forall|j: int| 0 <= j < longer.len() implies is_digit(#[trigger] longer[j]) by {
                if j < i {
                    assert(digits@.subrange(0, i as int)[j] == longer[j]);
                }
            }
        }
        if value > (usize::MAX - d) / 10 {
            proof {
                if all_digits(digits@) {
                    lemma_decimal_value_grows(digits@, i + 1);
                }
            }
            return None;
        }
        value = value * 10 + d;
        i += 1;
    }
    assert(digits@.subrange(0, n as int) =~= digits@);
    if value == 0 {
        None
    } else {
        Some(value - 1)
    }
}

/// The slash, which separates the fields of a corner of a face.
pub const SLASH: u8 = 0x2f;

/// The vertex and the normal that a corner of a face names, both counted from
/// zero. The corner has three fields or more, with a slash after each but the
/// last; its first field is the index of the vertex and its third that of the
/// normal.
pub open spec fn corner_of(token: Seq<u8>) -> Option<(usize, usize)> {
    let first = find_byte(token, 0, SLASH);
    let second = find_byte(token, first + 1, SLASH);
    let third = find_byte(token, second + 1, SLASH);
    if first < token.len() && second < token.len() {
        match (index_of(token.subrange(0, first)), index_of(token.subrange(second + 1, third))) {
            (Some(vertex), Some(normal)) => Some((vertex, normal)),
            _ => None,
        }
    } else {
        None
    }
}

/// Reads a corner of a face.
pub fn read_corner(token: &[u8]) -> (r: Option<(usize, usize)>)
    ensures
        r == corner_of(token@),
{
    let n = token.len();
    let first = index_of_byte(token, 0, SLASH);
    if first >= n {
        return None;
    }
    let second = index_of_byte(token, first + 1, SLASH);
    if second >= n {
        return None;
    }
    let third = index_of_byte(token, second + 1, SLASH);
    match read_index(slice_subrange(token, 0, first)) {
        None => None,
        Some(vertex) => match read_index(slice_subrange(token, second + 1, third)) {
            None => None,
            Some(normal) => Some((vertex, normal)),
        },
    }
}

/// Nothing is left to scan at the end of a line.
proof fn lemma_tokens_done(s: Seq<u8>, from: int)
    requires
        from >= s.len(),
    ensures
        tokens_from(s, from) == Seq::<Seq<u8>>::empty(),
{
}

} // verus!
