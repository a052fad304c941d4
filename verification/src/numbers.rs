//! Numbers as text: decimal digits, sizes and durations.
use vstd::prelude::*;
use vstd::string::*;

use crate::text::{cat2, cat4, chars_of};

verus! {

/// The character of one decimal digit.
pub open spec fn digit_char(d: nat) -> char {
    ((48 + d) as u32) as char
}

/// Whether the character is one of `0` to `9`.
pub open spec fn is_digit(c: char) -> bool {
    '0' <= c && c <= '9'
}

/// What a decimal digit is worth.
pub open spec fn digit_value(c: char) -> nat {
    (c as u32 - 48) as nat
}

/// `n` in decimal, without leading zeros.
pub open spec fn decimal(n: nat) -> Seq<char>
    decreases n,
{
    if n < 10 {
        seq![digit_char(n)]
    } else {
        decimal(n / 10).push(digit_char(n % 10))
    }
}

/// The number that the digits of `s` write in decimal.
pub open spec fn value(s: Seq<char>) -> nat
    decreases s.len(),
{
    if s.len() == 0 {
        0
    } else {
        value(s.drop_last()) * 10 + digit_value(s.last())
    }
}

/// Whether every character of `s` is a decimal digit.
pub open spec fn all_digits(s: Seq<char>) -> bool {
    forall|i: int| 0 <= i < s.len() ==> is_digit(#[trigger] s[i])
}

/// How many decimal digits `s` starts with.
pub open spec fn digit_run(s: Seq<char>) -> int
    decreases s.len(),
{
    if s.len() == 0 || !is_digit(s[0]) {
        0
    } else {
        1 + digit_run(s.drop_first())
    }
}

/// Why a text is not a number.
#[derive(Clone, Copy, PartialEq, Eq, Debug)]
pub enum NumberFault {
    /// There is no character at all.
    Empty,
    /// A character that is no digit comes before the number gets too large.
    InvalidDigit,
    /// The digits write a number that is too large.
    TooLarge,
}

impl NumberFault {
    /// The fault in words.
    pub open spec fn words(self) -> Seq<char> {
        match self {
            NumberFault::Empty => "cannot parse integer from empty string"@,
            NumberFault::InvalidDigit => "invalid digit found in string"@,
            NumberFault::TooLarge => "number too large to fit in target type"@,
        }
    }

    /// The fault in words.
    pub fn message(&self) -> (r: String)
        ensures
            r@ == self.words(),
    {
        match self {
            NumberFault::Empty => "cannot parse integer from empty string".to_owned(),
            NumberFault::InvalidDigit => "invalid digit found in string".to_owned(),
            NumberFault::TooLarge => "number too large to fit in target type".to_owned(),
        }
    }
}

/// `s` without the plus sign that may stand before a number.
pub open spec fn unsigned_digits(s: Seq<char>) -> Seq<char> {
    if s.len() > 1 && s[0] == '+' {
        s.drop_first()
    } else {
        s
    }
}

/// The number that `s` writes, if it is at most `max`: decimal digits after an
/// optional plus sign. Reading goes from left to right and stops at the first
/// fault.
pub open spec fn parsed(s: Seq<char>, max: nat) -> Result<nat, NumberFault> {
    let d = unsigned_digits(s);
    let k = digit_run(d);
    if s.len() == 0 {
        Err(NumberFault::Empty)
    } else if value(d.take(k)) > max {
        Err(NumberFault::TooLarge)
    } else if k < d.len() {
        Err(NumberFault::InvalidDigit)
    } else {
        Ok(value(d))
    }
}

/// `digit_run` is the place up to which there are digits only.
pub proof fn lemma_digit_run(s: Seq<char>, k: int)
    requires
        0 <= k <= s.len(),
        forall|j: int| 0 <= j < k ==> is_digit(#[trigger] s[j]),
        k < s.len() ==> !is_digit(s[k]),
    ensures
        digit_run(s) == k,
    decreases s.len(),
{
    if s.len() > 0 && k > 0 {
        assert(is_digit(s[0]));
        let t = s.drop_first();
        assert forall|j: int| 0 <= j < k - 1 implies is_digit(#[trigger] t[j]) by {
            assert(t[j] == s[j + 1]);
        }
        lemma_digit_run(t, k - 1);
    }
}

/// The run of digits is in bounds and holds digits only.
pub proof fn lemma_digit_run_bounds(s: Seq<char>)
    ensures
        0 <= digit_run(s) <= s.len(),
        forall|j: int| 0 <= j < digit_run(s) ==> is_digit(#[trigger] s[j]),
        digit_run(s) < s.len() ==> !is_digit(s[digit_run(s)]),
    decreases s.len(),
{
    if s.len() > 0 && is_digit(s[0]) {
        let t = s.drop_first();
        lemma_digit_run_bounds(t);
        assert forall|j: int| 0 <= j < digit_run(s) implies is_digit(#[trigger] s[j]) by {
            if j > 0 {
                assert(t[j - 1] == s[j]);
            }
        }
        if digit_run(s) < s.len() {
            assert(t[digit_run(t)] == s[digit_run(s)]);
        }
    }
}

/// More digits write a number that is no smaller.
pub proof fn lemma_value_grows(s: Seq<char>, i: int, j: int)
    requires
        0 <= i <= j <= s.len(),
    ensures
        value(s.take(i)) <= value(s.take(j)),
    decreases j - i,
{
    if i < j {
        lemma_value_grows(s, i, j - 1);
        assert(s.take(j).drop_last() =~= s.take(j - 1));
    }
}

/// The number that the string writes, if it is at most `max`.
pub fn parse_number(s: &str, max: u64) -> (r: Result<u64, NumberFault>)
    ensures
        match r {
            Ok(n) => parsed(s@, max as nat) == Ok::<nat, NumberFault>(n as nat),
            Err(e) => parsed(s@, max as nat) == Err::<nat, NumberFault>(e),
        },
{
    let cs = chars_of(s);
    let n: usize = cs.len();
    if n == 0 {
        return Err(NumberFault::Empty);
    }
    let from: usize = if n > 1 && cs[0] == '+' { 1 } else { 0 };
    let ghost d = unsigned_digits(s@);
    assert(d =~= s@.skip(from as int));
    let mut i: usize = from;
    let mut acc: u64 = 0;
    assert(d.take(0) =~= Seq::<char>::empty());
    proof {
        lemma_digit_run_bounds(d);
    }
    while i < n && '0' <= cs[i] && cs[i] <= '9'
        invariant
            from <= i <= n,
            n == cs@.len(),
            cs@ == s@,
            n > 0,
            d == unsigned_digits(s@),
            d == s@.skip(from as int),
            0 <= digit_run(d) <= d.len(),
            digit_run(d) < d.len() ==> !is_digit(d[digit_run(d)]),
            forall|j: int| 0 <= j < i - from ==> is_digit(#[trigger] d[j]),
            acc == value(d.take(i - from)),
            acc <= max,
        decreases n - i,
    {
        let c = cs[i];
        let u: u8 = c as u8;
        let step: u64 = (u - 48) as u64;
        let next: u128 = (acc as u128) * 10 + step as u128;
        assert(d[i - from] == c);
        assert(d.take(i - from + 1).drop_last() =~= d.take(i - from));
        assert(value(d.take(i - from + 1)) == next);
        if next > max as u128 {
            proof {
                let k = digit_run(d);
                if k < i - from + 1 {
                    assert(is_digit(d[k]));
                }
                lemma_value_grows(d, i - from + 1, k);
            }
            return Err(NumberFault::TooLarge);
        }
        acc = next as u64;
        i = i + 1;
    }
    proof {
        if i < n {
            assert(d[i - from] == cs@[i as int]);
        }
        lemma_digit_run(d, i - from);
    }
    if i < n {
        Err(NumberFault::InvalidDigit)
    } else {
        assert(d.take(i - from) =~= d);
        Ok(acc)
    }
}

/// The number in decimal.
pub fn decimal_text(n: u64) -> (r: String)
    ensures
        r@ == decimal(n as nat),
    decreases n,
{
    let last: u8 = 48 + (n % 10) as u8;
    let mut out = if n < 10 { String::new() } else { decimal_text(n / 10) };
    out.push(last as char);
    assert(n < 10 ==> out@ =~= decimal(n as nat));
    out
}

/// What `decimal` writes is read back as the same number.
pub proof fn law_decimal_reads_back(n: nat)
    ensures
        all_digits(decimal(n)),
        decimal(n).len() > 0,
        value(decimal(n)) == n,
    decreases n,
{
    if n < 10 {
        assert(decimal(n).drop_last() =~= Seq::<char>::empty());
        assert(value(Seq::<char>::empty()) == 0);
    } else {
        law_decimal_reads_back(n / 10);
        assert(decimal(n).drop_last() =~= decimal(n / 10));
    }
}

/// A number that `decimal` wrote is parsed as itself under every limit that it
/// keeps, and refused as too large under every other.
pub proof fn law_decimal_parses(n: nat, max: nat)
    ensures
        parsed(decimal(n), max) == (if n <= max {
            Ok::<nat, NumberFault>(n)
        } else {
            Err::<nat, NumberFault>(NumberFault::TooLarge)
        }),
{
    law_decimal_reads_back(n);
    let s = decimal(n);
    assert(is_digit(s[0]));
    assert(unsigned_digits(s) == s);
    lemma_digit_run(s, s.len() as int);
    assert(s.take(s.len() as int) =~= s);
}

/// `a / b` to the nearest whole number; a tie goes to the even one.
pub open spec fn rounded(a: nat, b: nat) -> nat
    recommends
        b > 0,
{
    let q = a / b;
    let r = a % b;
    if 2 * r < b || (2 * r == b && q % 2 == 0) {
        q
    } else {
        q + 1
    }
}

/// The distance between neighbouring double precision numbers around `n`:
/// whole numbers up to 53 bits are all there, then every second one, and so on.
pub open spec fn double_gap(n: nat) -> nat
    decreases n,
{
    if n < 0x20_0000_0000_0000 {
        1
    } else {
        2 * double_gap(n / 2)
    }
}

/// The double precision number nearest to `n`.
pub open spec fn nearest_double(n: nat) -> nat {
    rounded(n, double_gap(n)) * double_gap(n)
}

/// How many tenths of `unit` the size has, to the nearest tenth.
pub open spec fn size_tenths(size: nat, unit: nat) -> nat {
    rounded(nearest_double(size) * 10, unit)
}

/// The size in units of `unit`, with one digit after the point.
pub open spec fn sized(size: nat, unit: nat, name: Seq<char>) -> Seq<char> {
    let t = size_tenths(size, unit);
    decimal(t / 10) + "."@ + decimal(t % 10) + name
}

/// A size in bytes as a person reads it.
pub open spec fn human_size(size: nat) -> Seq<char> {
    if size < 1024 {
        decimal(size) + " B"@
    } else if size < 1024 * 1024 {
        sized(size, 1024, " KB"@)
    } else if size < 1024 * 1024 * 1024 {
        sized(size, 1024 * 1024, " MB"@)
    } else {
        sized(size, 1024 * 1024 * 1024, " GB"@)
    }
}

/// `a / b` to the nearest whole number; a tie goes to the even one.
fn round_ratio(a: u128, b: u128) -> (r: u128)
    requires
        0 < b < 0x1_0000_0000_0000_0000,
        a < 0x1_0000_0000_0000_0000_0000_0000,
    ensures
        r == rounded(a as nat, b as nat),
        r <= a + 1,
{
    let q: u128 = a / b;
    let rest: u128 = a % b;
    assert(q <= a) by (nonlinear_arith)
        requires
            q == a / b,
            b > 0,
    ;
    if 2 * rest < b || (2 * rest == b && q % 2 == 0) {
        q
    } else {
        q + 1
    }
}

/// The distance between neighbouring double precision numbers around `n`.
fn gap_around(n: u64) -> (r: u64)
    ensures
        r == double_gap(n as nat),
        0 < r,
        r <= 1 || r <= n,
    decreases n,
{
    if n < 0x20_0000_0000_0000 {
        1
    } else {
        let half: u64 = gap_around(n / 2);
        2 * half
    }
}

/// The size in units of `unit`, with one digit after the point.
fn size_in(size: u64, unit: u64, name: &str) -> (r: String)
    requires
        1024 <= unit <= 1024 * 1024 * 1024,
    ensures
        r@ == sized(size as nat, unit as nat, name@),
{
    let gap: u64 = gap_around(size);
    let steps: u128 = round_ratio(size as u128, gap as u128);
    proof {
        lemma_rounded_near(size as nat, gap as nat);
    }
    let double: u128 = steps * gap as u128;
    let tenths: u128 = round_ratio(double * 10, unit as u128);
    proof {
        lemma_rounded_small(double as nat * 10, unit as nat);
    }
    let whole: u64 = (tenths / 10) as u64;
    let tenth: u64 = (tenths % 10) as u64;
    let a = decimal_text(whole);
    let b = decimal_text(tenth);
    cat4(a.as_str(), ".", b.as_str(), name)
}

/// Rounding moves a number by at most one step.
proof fn lemma_rounded_near(a: nat, b: nat)
    requires
        b > 0,
    ensures
        rounded(a, b) * b <= a + b,
        a <= rounded(a, b) * b + b,
{
    let q = a / b;
    let r = a % b;
    assert(a == q * b + r && r < b) by (nonlinear_arith)
        requires
            q == a / b,
            r == a % b,
            b > 0,
    ;
    assert((q + 1) * b == q * b + b) by (nonlinear_arith);
}

/// A ratio with a divisor of at least 1024 is that much smaller.
proof fn lemma_rounded_small(a: nat, b: nat)
    requires
        b >= 1024,
    ensures
        rounded(a, b) <= a / 1024 + 1,
{
    assert(a / b <= a / 1024) by (nonlinear_arith)
        requires
            b >= 1024,
    ;
}

/// A size in bytes as a person reads it: bytes below one KB, then KB, MB and GB
/// with one digit after the point.
pub fn format_bytes(size: u64) -> (r: String)
    ensures
        r@ == human_size(size as nat),
{
    if size < 1024 {
        let d = decimal_text(size);
        cat2(d.as_str(), " B")
    } else if size < 1024 * 1024 {
        size_in(size, 1024, " KB")
    } else if size < 1024 * 1024 * 1024 {
        size_in(size, 1024 * 1024, " MB")
    } else {
        size_in(size, 1024 * 1024 * 1024, " GB")
    }
}

/// A number is written digit by digit: ten times a number and a digit more is that number
/// with the digit behind it. No number but zero begins with a zero.
pub proof fn law_decimal_digits(n: nat, d: nat)
    requires
        d < 10,
    ensures
        decimal(d) == seq![("0123456789"@)[d as int]],
        n > 0 ==> decimal(10 * n + d) == decimal(n) + decimal(d),
        n > 0 ==> decimal(n)[0] != '0',
    decreases n,
{
    reveal_strlit("0123456789");
    let digits = "0123456789"@;
    assert(digits[0] == '0' && digits[1] == '1' && digits[2] == '2' && digits[3] == '3'
        && digits[4] == '4' && digits[5] == '5' && digits[6] == '6' && digits[7] == '7'
        && digits[8] == '8' && digits[9] == '9');
    if n > 0 {
        assert((10 * n + d) / 10 == n && (10 * n + d) % 10 == d);
        assert(decimal(10 * n + d) =~= decimal(n) + decimal(d));
        if n >= 10 {
            law_decimal_digits(n / 10, 0);
            law_decimal_reads_back(n / 10);
            assert(decimal(n)[0] == decimal(n / 10)[0]);
        }
    }
}

/// Digits are worth what they are worth in decimal, and only they are digits.
pub proof fn law_digits_are_worth(s: Seq<char>, c: char)
    ensures
        value(Seq::empty()) == 0,
        is_digit(c) <==> ("0123456789"@).contains(c),
        forall|d: int|
            0 <= d < 10 ==> value(s.push(#[trigger] ("0123456789"@)[d])) == 10 * value(s) + d,
        all_digits(s) <==> forall|i: int|
            0 <= i < s.len() ==> ("0123456789"@).contains(#[trigger] s[i]),
{
    reveal_strlit("0123456789");
    let digits = "0123456789"@;
    assert(digits[0] == '0' && digits[1] == '1' && digits[2] == '2' && digits[3] == '3'
        && digits[4] == '4' && digits[5] == '5' && digits[6] == '6' && digits[7] == '7'
        && digits[8] == '8' && digits[9] == '9');
    assert forall|c: char| #[trigger] is_digit(c) <==> digits.contains(c) by {
        if is_digit(c) {
            assert(digits[c as int - '0' as int] == c);
        }
    }
    assert forall|d: int| 0 <= d < 10 implies value(s.push(#[trigger] digits[d])) == 10 * value(s)
        + d by {
        assert(s.push(digits[d]).drop_last() =~= s);
    }
    if all_digits(s) {
        assert forall|i: int| 0 <= i < s.len() implies digits.contains(#[trigger] s[i]) by {
            assert(is_digit(s[i]));
        }
    }
    if forall|i: int| 0 <= i < s.len() ==> digits.contains(#[trigger] s[i]) {
        assert forall|i: int| 0 <= i < s.len() implies is_digit(#[trigger] s[i]) by {
            assert(digits.contains(s[i]));
        }
    }
}

/// Whether the first `k` characters are digits of a number above `max`.
pub open spec fn begins_above(d: Seq<char>, k: int, max: nat) -> bool {
    all_digits(d.take(k)) && value(d.take(k)) > max
}

/// A text is read as a number where it is digits alone, with or without a plus before
/// them, and the number is not too large. It is told apart whether there is no text, a
/// number that is too large, or a character that is no digit before that.
pub proof fn law_what_is_read_as_a_number(s: Seq<char>, d: Seq<char>, max: nat)
    requires
        s.len() > 1 && s[0] == '+' ==> s == seq!['+'] + d,
        !(s.len() > 1 && s[0] == '+') ==> s == d,
    ensures
        match parsed(s, max) {
            Ok(n) => s.len() > 0 && all_digits(d) && n == value(d) && n <= max,
            Err(NumberFault::Empty) => s.len() == 0,
            Err(NumberFault::TooLarge) => s.len() > 0 && exists|k: int|
                0 <= k <= d.len() && #[trigger] begins_above(d, k, max),
            Err(NumberFault::InvalidDigit) => s.len() > 0 && !all_digits(d) && forall|k: int|
                0 <= k <= d.len() ==> !#[trigger] begins_above(d, k, max),
        },
        NumberFault::Empty.words() == "cannot parse integer from empty string"@,
        NumberFault::InvalidDigit.words() == "invalid digit found in string"@,
        NumberFault::TooLarge.words() == "number too large to fit in target type"@,
{
    assert(unsigned_digits(s) =~= d);
    let run = digit_run(d);
    lemma_digit_run_bounds(d);
    assert(all_digits(d.take(run))) by {
        assert forall|i: int| 0 <= i < run implies is_digit(#[trigger] d.take(run)[i]) by {
            assert(d.take(run)[i] == d[i]);
        }
    }
    if value(d.take(run)) > max {
        assert(begins_above(d, run, max));
    } else {
        assert forall|k: int| 0 <= k <= d.len() implies !#[trigger] begins_above(d, k, max) by {
            if k <= run {
                lemma_value_grows(d, k, run);
            } else {
                assert(d.take(k)[run] == d[run]);
            }
        }
        if run == d.len() {
            assert(d.take(run) =~= d);
        }
    }
}

/// Rounding gives a whole number next to the quotient, and of two that are as near the
/// even one.
pub proof fn law_rounded_to_the_nearest(a: nat, b: nat)
    requires
        b > 0,
    ensures
        ({
            let q = rounded(a, b);
            &&& 2 * (q * b) <= 2 * a + b
            &&& 2 * a <= 2 * (q * b) + b
            &&& 2 * (q * b) == 2 * a + b || 2 * a == 2 * (q * b) + b ==> q % 2 == 0
        }),
{
    let q = a / b;
    let r = a % b;
    assert(a == q * b + r && r < b) by (nonlinear_arith)
        requires
            q == a / b,
            r == a % b,
            b > 0,
    ;
    assert((q + 1) * b == q * b + b) by (nonlinear_arith);
}

/// Whole numbers below two to the fifty-third are held exactly; from there on the gap
/// between those that are held doubles with the number, and a number is held as the
/// nearest of them.
pub proof fn law_held_as_a_double(n: nat)
    ensures
        n < 0x20_0000_0000_0000 ==> double_gap(n) == 1 && nearest_double(n) == n,
        n >= 0x10_0000_0000_0000 ==> double_gap(2 * n) == 2 * double_gap(n) && double_gap(2 * n + 1)
            == 2 * double_gap(n),
        double_gap(n) > 0,
        nearest_double(n) == rounded(n, double_gap(n)) * double_gap(n),
    decreases n,
{
    if n >= 0x20_0000_0000_0000 {
        law_held_as_a_double(n / 2);
    } else {
        assert(n / 1 == n && n % 1 == 0);
    }
    assert(2 * n / 2 == n && (2 * n + 1) / 2 == n);
}

/// A size is told in bytes below a thousand and twenty-four, and above that in the
/// largest of KB, MB and GB that it reaches, with one digit behind the point: the number
/// of tenths that is nearest.
pub proof fn law_size_is_told(size: nat, tenths: nat)
    ensures
        ({
            let told = |name: Seq<char>|
                decimal(tenths / 10) + "."@ + decimal(tenths % 10) + name;
            let exact = nearest_double(size) * 10;
            let k: nat = 1024;
            let m: nat = 1_048_576;
            let g: nat = 1_073_741_824;
            &&& size < k ==> human_size(size) == decimal(size) + " B"@
            &&& k <= size < m && tenths == rounded(exact, k) ==> human_size(size) == told(" KB"@)
            &&& m <= size < g && tenths == rounded(exact, m) ==> human_size(size) == told(" MB"@)
            &&& g <= size && tenths == rounded(exact, g) ==> human_size(size) == told(" GB"@)
        }),
{
}

/// A number that is read is at most the largest that may be.
pub proof fn law_parsed_is_at_most(s: Seq<char>, max: nat)
    ensures
        parsed(s, max) matches Ok(n) ==> n <= max,
{
    let d = unsigned_digits(s);
    lemma_digit_run_bounds(d);
    if digit_run(d) == d.len() {
        assert(d.take(d.len() as int) =~= d);
    }
}

} // verus!
