//! Reading bytes: lines, words, and the numbers written in them.

use vstd::prelude::*;
use vstd::slice::slice_subrange;

verus! {

/// What a scan stops at.
#[derive(Clone, Copy, Debug, PartialEq, Eq, Structural)]
pub enum Until {
    /// The end of the line.
    Newline,
    /// White space.
    Space,
    /// The byte that separates the fields of a face's corner.
    Slash,
    /// The decimal point.
    Dot,
    /// The letter in front of a power of ten.
    Exponent,
}

/// Whether `b` is a decimal digit.
pub open spec fn is_digit(b: u8) -> bool {
    48 <= b <= 57
}

/// How many bytes the white-space character takes that begins at place `i`
/// of `s`, or zero if none begins there. White space is what Unicode calls
/// so, in UTF-8: the blank, the tab and the bytes that end or feed a line
/// (one byte each); U+0085 and U+00A0 (two bytes); U+1680, U+2000 to U+200A,
/// U+2028, U+2029, U+202F, U+205F and U+3000 (three bytes).
pub open spec fn space_at(s: Seq<u8>, i: int) -> int {
    if !(0 <= i < s.len()) {
        0
    } else if s[i] == 32 || 9 <= s[i] <= 13 {
        1
    } else if i + 1 < s.len() && s[i] == 0xC2 && (s[i + 1] == 0x85 || s[i + 1] == 0xA0) {
        2
    } else if i + 2 < s.len() && ((s[i] == 0xE1 && s[i + 1] == 0x9A && s[i + 2] == 0x80) || (s[i]
        == 0xE2 && s[i + 1] == 0x80 && (0x80 <= s[i + 2] <= 0x8A || s[i + 2] == 0xA8 || s[i + 2]
        == 0xA9 || s[i + 2] == 0xAF)) || (s[i] == 0xE2 && s[i + 1] == 0x81 && s[i + 2] == 0x9F) || (
    s[i] == 0xE3 && s[i + 1] == 0x80 && s[i + 2] == 0x80)) {
        3
    } else {
        0
    }
}

/// How many bytes the white-space character takes that begins at place `i`
/// of `s`, or zero if none begins there.
pub fn space_len(s: &[u8], i: usize) -> (n: usize)
    requires
        i < s@.len(),
    ensures
        n == space_at(s@, i as int),
        i + n <= s@.len(),
{
    let b: u8 = s[i];
    if b == 32 || (9 <= b && b <= 13) {
        return 1;
    }
    if s.len() - i >= 2 {
        let c: u8 = s[i + 1];
        if b == 0xC2 && (c == 0x85 || c == 0xA0) {
            return 2;
        }
        if s.len() - i >= 3 {
            let d: u8 = s[i + 2];
            if (b == 0xE1 && c == 0x9A && d == 0x80) || (b == 0xE2 && c == 0x80 && ((0x80 <= d && d
                <= 0x8A) || d == 0xA8 || d == 0xA9 || d == 0xAF)) || (b == 0xE2 && c == 0x81 && d
                == 0x9F) || (b == 0xE3 && c == 0x80 && d == 0x80) {
                return 3;
            }
        }
    }
    0
}

impl Until {
    /// Whether a scan for `self` stops at place `i` of `s`.
    pub open spec fn hits(self, s: Seq<u8>, i: int) -> bool {
        match self {
            Until::Newline => s[i] == 10,
            Until::Space => space_at(s, i) > 0,
            Until::Slash => s[i] == 47,
            Until::Dot => s[i] == 46,
            Until::Exponent => s[i] == 101 || s[i] == 69,
        }
    }

    fn stops_at(self, s: &[u8], i: usize) -> (r: bool)
        requires
            i < s@.len(),
        ensures
            r == self.hits(s@, i as int),
    {
        match self {
            Until::Newline => s[i] == 10,
            Until::Space => space_len(s, i) > 0,
            Until::Slash => s[i] == 47,
            Until::Dot => s[i] == 46,
            Until::Exponent => s[i] == 101 || s[i] == 69,
        }
    }
}

/// The first position at or after `from` where `s` holds what `stop` stops
/// at, or the length of `s` if there is none.
pub open spec fn scan(s: Seq<u8>, from: int, stop: Until) -> int
    decreases s.len() - from,
{
    if 0 <= from < s.len() && !stop.hits(s, from) {
        scan(s, from + 1, stop)
    } else {
        from
    }
}

/// A scan ends at `end` if it meets nothing to stop at before `end`, and
/// `end` is where it stops or where the bytes end.
pub proof fn lemma_scan_ends(s: Seq<u8>, from: int, end: int, stop: Until)
    requires
        0 <= from <= end <= s.len(),
        forall|i: int| from <= i < end ==> !#[trigger] stop.hits(s, i),
        end == s.len() || stop.hits(s, end),
    ensures
        scan(s, from, stop) == end,
    decreases end - from,
{
    if from < end {
        lemma_scan_ends(s, from + 1, end, stop);
    }
}

/// A scan never goes back, and never beyond the end of the bytes.
pub proof fn lemma_scan_range(s: Seq<u8>, from: int, stop: Until)
    requires
        0 <= from <= s.len(),
    ensures
        from <= scan(s, from, stop) <= s.len(),
        scan(s, from, stop) < s.len() ==> stop.hits(s, scan(s, from, stop)),
        forall|i: int| from <= i < scan(s, from, stop) ==> !#[trigger] stop.hits(s, i),
    decreases s.len() - from,
{
    if from < s.len() && !stop.hits(s, from) {
        lemma_scan_range(s, from + 1, stop);
    }
}

/// Scans `s` from `from` for what `stop` stops at.
pub fn scan_to(s: &[u8], from: usize, stop: Until) -> (end: usize)
    requires
        from <= s@.len(),
    ensures
        end == scan(s@, from as int, stop),
        from <= end <= s@.len(),
{
    let mut i: usize = from;
    while i < s.len() && !stop.stops_at(s, i)
        invariant
            from <= i <= s@.len(),
            forall|j: int| from <= j < i ==> !#[trigger] stop.hits(s@, j),
        decreases s@.len() - i,
    {
        i += 1;
    }
    proof {
        lemma_scan_ends(s@, from as int, i as int, stop);
    }
    i
}

/// The first position at or after `from` where no white-space character
/// begins, each such character passed over whole.
pub open spec fn after_spaces(s: Seq<u8>, from: int) -> int
    decreases s.len() - from,
{
    if space_at(s, from) > 0 {
        after_spaces(s, from + space_at(s, from))
    } else {
        from
    }
}

/// Passing over white space never goes back nor beyond the end of the bytes,
/// and ends where no white space begins.
pub proof fn lemma_after_spaces(s: Seq<u8>, from: int)
    requires
        0 <= from <= s.len(),
    ensures
        from <= after_spaces(s, from) <= s.len(),
        space_at(s, after_spaces(s, from)) == 0,
    decreases s.len() - from,
{
    if space_at(s, from) > 0 {
        lemma_after_spaces(s, from + space_at(s, from));
    }
}

/// Passes over the white space of `s` from `from` on.
pub fn skip_spaces(s: &[u8], from: usize) -> (end: usize)
    requires
        from <= s@.len(),
    ensures
        end == after_spaces(s@, from as int),
        from <= end <= s@.len(),
{
    let mut i: usize = from;
    while i < s.len()
        invariant
            from <= i <= s@.len(),
            after_spaces(s@, from as int) == after_spaces(s@, i as int),
        decreases s@.len() - i,
    {
        let n = space_len(s, i);
        if n == 0 {
            return i;
        }
        i += n;
    }
    i
}

/// The number that a run of digits writes, the first digit counting most.
pub open spec fn decimal(digits: Seq<u8>) -> nat
    decreases digits.len(),
{
    if digits.len() == 0 {
        0
    } else {
        decimal(digits.drop_last()) * 10 + (digits.last() - 48) as nat
    }
}

/// Whether every byte of `s` is a digit.
pub open spec fn all_digits(s: Seq<u8>) -> bool {
    forall|i: int| 0 <= i < s.len() ==> is_digit(#[trigger] s[i])
}

/// One more digit at the end.
pub proof fn lemma_decimal_step(s: Seq<u8>, from: int, end: int)
    requires
        0 <= from <= end < s.len(),
    ensures
        decimal(s.subrange(from, end + 1)) == decimal(s.subrange(from, end)) * 10 + (s[end] - 48) as nat,
{
    assert(s.subrange(from, end + 1).drop_last() =~= s.subrange(from, end));
}

/// Reads the digits of `s` as a number. The result is `None` if `s` holds
/// anything but digits; else the number, or `limit + 1` if it is greater
/// than `limit`.
pub fn read_digits(s: &[u8], limit: u128) -> (r: Option<u128>)
    requires
        limit < 0x1_0000_0000_0000_0000_0000_0000_0000,
    ensures
        r.is_some() <==> all_digits(s@),
        r matches Some(v) ==> v == if decimal(s@) <= limit {
            decimal(s@)
        } else {
            (limit + 1) as nat
        },
{
    let mut acc: u128 = 0;
    let mut i: usize = 0;
    assert(s@.subrange(0, 0) =~= Seq::<u8>::empty());
    while i < s.len()
        invariant
            0 <= i <= s@.len(),
            limit < 0x1_0000_0000_0000_0000_0000_0000_0000,
            forall|j: int| 0 <= j < i ==> is_digit(#[trigger] s@[j]),
            acc == if decimal(s@.subrange(0, i as int)) <= limit {
                decimal(s@.subrange(0, i as int))
            } else {
                (limit + 1) as nat
            },
        decreases s@.len() - i,
    {
        let b: u8 = s[i];
        if b < 48 || b > 57 {
            return None;
        }
        proof {
            lemma_decimal_step(s@, 0, i as int);
        }
        if acc <= limit {
            acc = acc * 10 + (b - 48) as u128;
            if acc > limit {
                acc = limit + 1;
            }
        }
        i += 1;
    }
    assert(s@.subrange(0, i as int) =~= s@);
    Some(acc)
}

/// How many steps of a coordinate make one: coordinates count millionths.
pub const UNIT: i32 = 1_000_000;

/// Ten to the power of `k`.
pub open spec fn pow10(k: nat) -> nat
    decreases k,
{
    if k == 0 {
        1
    } else {
        10 * pow10((k - 1) as nat)
    }
}

/// The number that `digits` write when only the first `places` of them stand
/// before the decimal point, without what stands behind it. Where there are
/// fewer digits than places, zeros take the places left.
pub open spec fn shifted(digits: Seq<u8>, places: int) -> nat {
    if places <= 0 {
        0
    } else if places <= digits.len() {
        decimal(digits.subrange(0, places))
    } else {
        decimal(digits) * pow10((places - digits.len()) as nat)
    }
}

/// The word `t` without its sign, if it has one.
pub open spec fn unsigned(t: Seq<u8>) -> Seq<u8> {
    if t.len() > 0 && (t[0] == 43 || t[0] == 45) {
        t.subrange(1, t.len() as int)
    } else {
        t
    }
}

/// The power of ten that the word `t` writes: digits, with a sign or
/// without.
pub open spec fn exponent(t: Seq<u8>) -> Option<int> {
    let digits = unsigned(t);
    if digits.len() > 0 && all_digits(digits) {
        Some(
            if t[0] == 45 {
                -(decimal(digits) as int)
            } else {
                decimal(digits) as int
            },
        )
    } else {
        None
    }
}

/// The coordinate that the word `t` writes, in millionths, rounded towards
/// zero. The word is a sign or none; digits with or without a decimal point
/// among them, before them or after them; and then, or not, the letter `e` or
/// `E` and a power of ten. Every such word is a coordinate: a number of
/// millionths beyond what an `i32` can hold is held at the nearest that it
/// can, `i32::MAX` or `i32::MIN`. The words `inf`, `infinity` and `nan` are
/// no coordinates, since they name no place.
pub open spec fn coordinate(t: Seq<u8>) -> Option<i32> {
    let body = unsigned(t);
    let mark = scan(body, 0, Until::Exponent);
    let mantissa = body.subrange(0, mark);
    let dot = scan(mantissa, 0, Until::Dot);
    let whole = mantissa.subrange(0, dot);
    let fraction = if dot < mantissa.len() {
        mantissa.subrange(dot + 1, mantissa.len() as int)
    } else {
        Seq::empty()
    };
    let power = if mark < body.len() {
        exponent(body.subrange(mark + 1, body.len() as int))
    } else {
        Some(0int)
    };
    match power {
        None => None,
        Some(e) => {
            let size = shifted(whole + fraction, whole.len() + e + 6);
            if all_digits(whole) && all_digits(fraction) && whole.len() + fraction.len() > 0 {
                Some(
                    if t[0] == 45 {
                        if size > -i32::MIN {
                            i32::MIN
                        } else {
                            (-size) as i32
                        }
                    } else {
                        if size > i32::MAX {
                            i32::MAX
                        } else {
                            size as i32
                        }
                    },
                )
            } else {
                None
            }
        },
    }
}

/// The corner that the word `t` names, counted from zero: the number in
/// front of the first slash, less one. That number is written in digits, with
/// a plus sign or none, and lies between one and the greatest `usize`.
pub open spec fn corner(t: Seq<u8>) -> Option<usize> {
    let field = t.subrange(0, scan(t, 0, Until::Slash));
    let digits = if field.len() > 0 && field[0] == 43 {
        field.subrange(1, field.len() as int)
    } else {
        field
    };
    if digits.len() > 0 && all_digits(digits) && 1 <= decimal(digits) <= usize::MAX {
        Some((decimal(digits) - 1) as usize)
    } else {
        None
    }
}

/// A power of ten is at least one, and no less than a lower power.
pub proof fn lemma_pow10_grows(j: nat, k: nat)
    requires
        j <= k,
    ensures
        1 <= pow10(j) <= pow10(k),
    decreases k,
{
    if k > 0 {
        if j < k {
            lemma_pow10_grows(j, (k - 1) as nat);
        } else {
            lemma_pow10_grows((j - 1) as nat, (k - 1) as nat);
        }
    }
}

/// Ten to the power of ten.
proof fn lemma_pow10_ten()
    ensures
        pow10(10) == 10_000_000_000,
{
    reveal_with_fuel(pow10, 11);
}

/// The number that `digits` write with `places` of them before the point,
/// held to `limit + 1` at most.
spec fn held(digits: Seq<u8>, places: int, limit: int) -> int {
    if shifted(digits, places) <= limit {
        shifted(digits, places) as int
    } else {
        limit + 1
    }
}

/// Beyond ten places after the last digit, a number is nothing or more than
/// an `i32` can hold.
proof fn lemma_far_places(digits: Seq<u8>, places: int)
    requires
        places >= digits.len() + 10,
    ensures
        held(digits, places, i32::MAX as int) == if decimal(digits) == 0 {
            0
        } else {
            i32::MAX + 1
        },
{
    let k = (places - digits.len()) as nat;
    lemma_pow10_grows(10, k);
    lemma_pow10_ten();
    let d = decimal(digits);
    if d == 0 {
        assert(d * pow10(k) == 0) by (nonlinear_arith)
            requires
                d == 0,
        ;
    } else {
        assert(d * pow10(k) >= 10_000_000_000) by (nonlinear_arith)
            requires
                d >= 1,
                pow10(k) >= 10_000_000_000,
        ;
    }
}

/// The digit of `whole` followed by `fraction` at place `i`.
fn digit_of(whole: &[u8], fraction: &[u8], i: usize) -> (d: u8)
    requires
        i < whole@.len() + fraction@.len(),
    ensures
        d == (whole@ + fraction@)[i as int],
{
    if i < whole.len() {
        whole[i]
    } else {
        fraction[i - whole.len()]
    }
}

/// The number that the digits of `whole` and `fraction` write when `places`
/// of them stand before the point, or `i32::MAX + 1` if that is greater than
/// `i32::MAX`.
fn read_shifted(whole: &[u8], fraction: &[u8], places: i128) -> (r: i64)
    requires
        all_digits(whole@),
        all_digits(fraction@),
        whole@.len() + fraction@.len() <= usize::MAX,
    ensures
        r == held(whole@ + fraction@, places as int, i32::MAX as int),
{
    let ghost digits = whole@ + fraction@;
    let count: usize = whole.len() + fraction.len();
    if places <= 0 {
        return 0;
    }
    let cap: i64 = i32::MAX as i64 + 1;
    let mut acc: i64 = 0;
    let mut i: usize = 0;
    assert(digits.subrange(0, 0) =~= Seq::<u8>::empty());
    while i < count && (i as i128) < places
        invariant
            digits == whole@ + fraction@,
            all_digits(whole@),
            all_digits(fraction@),
            count == digits.len(),
            cap == i32::MAX + 1,
            0 <= i <= count,
            i <= places,
            acc == if decimal(digits.subrange(0, i as int)) < cap {
                decimal(digits.subrange(0, i as int)) as int
            } else {
                cap as int
            },
        decreases count - i,
    {
        let d: u8 = digit_of(whole, fraction, i);
        proof {
            lemma_decimal_step(digits, 0, i as int);
        }
        if acc < cap {
            acc = acc * 10 + (d - 48) as i64;
            if acc > cap {
                acc = cap;
            }
        }
        i += 1;
    }
    if places <= count as i128 {
        return acc;
    }
    assert(digits.subrange(0, count as int) =~= digits);
    let ghost whole_number = decimal(digits);
    let extra: i128 = places - count as i128;
    let mut j: i128 = 0;
    assert(whole_number * pow10(0) == whole_number) by (nonlinear_arith)
        requires
            pow10(0) == 1,
    ;
    while j < extra && 0 < acc && acc < cap
        invariant
            0 <= j <= extra,
            cap == i32::MAX + 1,
            whole_number == decimal(digits),
            acc == if whole_number * pow10(j as nat) < cap {
                (whole_number * pow10(j as nat)) as int
            } else {
                cap as int
            },
        decreases extra - j,
    {
        proof {
            assert(whole_number * pow10((j + 1) as nat) == 10 * (whole_number * pow10(j as nat)))
                by (nonlinear_arith)
                requires
                    pow10((j + 1) as nat) == 10 * pow10(j as nat),
            ;
        }
        acc = acc * 10;
        if acc > cap {
            acc = cap;
        }
        j += 1;
    }
    proof {
        lemma_pow10_grows(j as nat, extra as nat);
        let (low, high) = (pow10(j as nat), pow10(extra as nat));
        assert(whole_number * low <= whole_number * high) by (nonlinear_arith)
            requires
                low <= high,
        ;
        if acc == 0 {
            assert(whole_number == 0) by (nonlinear_arith)
                requires
                    whole_number * low == 0,
                    low >= 1,
            ;
            assert(whole_number * high == 0) by (nonlinear_arith)
                requires
                    whole_number == 0,
            ;
        }
    }
    acc
}

/// The power of ten `e`, held to one step beyond two to the power of one
/// hundred, which is further than any word is long.
spec fn capped(e: int) -> int {
    let most = 0x10_0000_0000_0000_0000_0000_0000int;
    if e > most {
        most + 1
    } else if e < -most {
        -most - 1
    } else {
        e
    }
}

/// Reads the word `t` as a power of ten.
fn read_exponent(t: &[u8]) -> (r: Option<i128>)
    ensures
        r.is_some() == exponent(t@).is_some(),
        r matches Some(e) ==> e == capped(exponent(t@).unwrap()),
{
    let signed = t.len() > 0 && (t[0] == 43 || t[0] == 45);
    let negative = t.len() > 0 && t[0] == 45;
    let digits = slice_subrange(
        t,
        if signed {
            1
        } else {
            0
        },
        t.len(),
    );
    assert(t@.subrange(0, t@.len() as int) =~= t@);
    if digits.len() == 0 {
        return None;
    }
    match read_digits(digits, 0x10_0000_0000_0000_0000_0000_0000) {
        None => None,
        Some(v) => if negative {
            Some(-(v as i128))
        } else {
            Some(v as i128)
        },
    }
}

/// The number of millionths that the digits of `whole` and `fraction` write
/// when they are followed by the power of ten of which `power` is what
/// [`capped`] leaves, or `i32::MAX + 1` if that is greater than `i32::MAX`.
fn read_size(whole: &[u8], fraction: &[u8], power: i128) -> (r: i64)
    requires
        all_digits(whole@),
        all_digits(fraction@),
        whole@.len() + fraction@.len() <= usize::MAX,
        power == capped(power as int),
    ensures
        forall|e: int| #[trigger]
            capped(e) == power ==> r == held(
                whole@ + fraction@,
                whole@.len() + e + 6,
                i32::MAX as int,
            ),
{
    let places: i128 = whole.len() as i128 + power + 6;
    let size: i64 = read_shifted(whole, fraction, places);
    proof {
        let digits = whole@ + fraction@;
        assert forall|e: int| #[trigger] capped(e) == power implies size == held(
            digits,
            whole@.len() + e + 6,
            i32::MAX as int,
        ) by {
            if e > power {
                lemma_far_places(digits, whole@.len() + e + 6);
                lemma_far_places(digits, places as int);
            }
        }
    }
    size
}

/// Reads the word `t` as a coordinate.
pub fn read_coordinate(t: &[u8]) -> (r: Option<i32>)
    ensures
        r == coordinate(t@),
{
    let signed = t.len() > 0 && (t[0] == 43 || t[0] == 45);
    let negative = t.len() > 0 && t[0] == 45;
    let body = slice_subrange(
        t,
        if signed {
            1
        } else {
            0
        },
        t.len(),
    );
    let mark = scan_to(body, 0, Until::Exponent);
    let mantissa = slice_subrange(body, 0, mark);
    let dot = scan_to(mantissa, 0, Until::Dot);
    let whole = slice_subrange(mantissa, 0, dot);
    let fraction = if dot < mantissa.len() {
        slice_subrange(mantissa, dot + 1, mantissa.len())
    } else {
        slice_subrange(mantissa, dot, dot)
    };
    assert(t@.subrange(0, t@.len() as int) =~= t@);
    assert(dot == mantissa@.len() ==> fraction@ =~= Seq::<u8>::empty());
    let ghost exact: int = 0;
    let power: i128 = if mark < body.len() {
        match read_exponent(slice_subrange(body, mark + 1, body.len())) {
            None => {
                return None;
            },
            Some(e) => {
                proof {
                    exact = exponent(body@.subrange(mark + 1, body@.len() as int)).unwrap();
                }
                e
            },
        }
    } else {
        0
    };
    if read_digits(whole, 0).is_none() || read_digits(fraction, 0).is_none() {
        return None;
    }
    if whole.len() == 0 && fraction.len() == 0 {
        return None;
    }
    let size: i64 = read_size(whole, fraction, power);
    assert(capped(exact) == power);
    if negative {
        Some((-size) as i32)
    } else if size > i32::MAX as i64 {
        Some(i32::MAX)
    } else {
        Some(size as i32)
    }
}

/// Reads the word `t` as a corner of a face.
pub fn read_corner(t: &[u8]) -> (r: Option<usize>)
    ensures
        r == corner(t@),
{
    let field = slice_subrange(t, 0, scan_to(t, 0, Until::Slash));
    let digits = if field.len() > 0 && field[0] == 43 {
        slice_subrange(field, 1, field.len())
    } else {
        field
    };
    if digits.len() == 0 {
        return None;
    }
    match read_digits(digits, usize::MAX as u128) {
        None => None,
        Some(v) => {
            if v == 0 || v > usize::MAX as u128 {
                None
            } else {
                Some((v - 1) as usize)
            }
        },
    }
}

} // verus!
