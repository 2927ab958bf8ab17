//! Numbers in text: reading them the way `str::parse` does, and writing them.
use vstd::prelude::*;
use vstd::string::*;

use crate::text;

verus! {

/// Why a run of characters is not a number.
#[derive(Debug, Clone, Copy, PartialEq, Eq, Structural)]
pub enum NumberError {
    Empty,
    InvalidDigit,
    TooLarge,
    TooSmall,
}

impl NumberError {
    /// The sentence that `ParseIntError` prints for this cause.
    pub open spec fn sentence(self) -> Seq<char> {
        match self {
            NumberError::Empty => "cannot parse integer from empty string"@,
            NumberError::InvalidDigit => "invalid digit found in string"@,
            NumberError::TooLarge => "number too large to fit in target type"@,
            NumberError::TooSmall => "number too small to fit in target type"@,
        }
    }

    pub fn describe(&self) -> (r: String)
        ensures
            r@ == self.sentence(),
    {
        match self {
            NumberError::Empty => "cannot parse integer from empty string".to_owned(),
            NumberError::InvalidDigit => "invalid digit found in string".to_owned(),
            NumberError::TooLarge => "number too large to fit in target type".to_owned(),
            NumberError::TooSmall => "number too small to fit in target type".to_owned(),
        }
    }
}

/// The value of a digit character in `radix`.
pub open spec fn digit_value(c: char, radix: int) -> Option<int> {
    let v = if '0' <= c <= '9' {
        c as int - '0' as int
    } else if 'a' <= c <= 'z' {
        c as int - 'a' as int + 10
    } else if 'A' <= c <= 'Z' {
        c as int - 'A' as int + 10
    } else {
        radix
    };
    if v < radix {
        Some(v)
    } else {
        None
    }
}

/// Reads the digits of `s` from `at` on, after digits worth `acc`.
pub open spec fn scan_up(s: Seq<char>, radix: int, at: int, acc: int, max: int) -> Result<
    int,
    NumberError,
>
    decreases s.len() - at,
{
    if at < 0 || at >= s.len() {
        Ok(acc)
    } else {
        match digit_value(s[at], radix) {
            None => Err(NumberError::InvalidDigit),
            Some(d) => if acc * radix + d > max {
                Err(NumberError::TooLarge)
            } else {
                scan_up(s, radix, at + 1, acc * radix + d, max)
            },
        }
    }
}

/// Reads the digits of `s` from `at` on as those of a negative number.
pub open spec fn scan_down(s: Seq<char>, at: int, acc: int, min: int) -> Result<int, NumberError>
    decreases s.len() - at,
{
    if at < 0 || at >= s.len() {
        Ok(acc)
    } else {
        match digit_value(s[at], 10) {
            None => Err(NumberError::InvalidDigit),
            Some(d) => if acc * 10 - d < min {
                Err(NumberError::TooSmall)
            } else {
                scan_down(s, at + 1, acc * 10 - d, min)
            },
        }
    }
}

/// The unsigned number that `s` spells in `radix`: digits, with at most one
/// leading `+`, worth no more than `max`.
pub open spec fn parse_unsigned(s: Seq<char>, radix: int, max: int) -> Result<int, NumberError> {
    if s.len() == 0 {
        Err(NumberError::Empty)
    } else if s.len() == 1 && (s[0] == '+' || s[0] == '-') {
        Err(NumberError::InvalidDigit)
    } else if s[0] == '+' {
        scan_up(s, radix, 1, 0, max)
    } else {
        scan_up(s, radix, 0, 0, max)
    }
}

/// The signed decimal number that `s` spells, between `min` and `max`.
pub open spec fn parse_signed(s: Seq<char>, min: int, max: int) -> Result<int, NumberError> {
    if s.len() > 1 && s[0] == '-' {
        scan_down(s, 1, 0, min)
    } else {
        parse_unsigned(s, 10, max)
    }
}

/// What `parse::<u64>().ok()` gives.
pub open spec fn as_u64(s: Seq<char>) -> Option<u64> {
    match parse_unsigned(s, 10, u64::MAX as int) {
        Ok(v) => Some(v as u64),
        Err(_) => None,
    }
}

/// What `parse::<u32>().ok()` gives.
pub open spec fn as_u32(s: Seq<char>) -> Option<u32> {
    match parse_unsigned(s, 10, u32::MAX as int) {
        Ok(v) => Some(v as u32),
        Err(_) => None,
    }
}

/// What `parse::<u16>().ok()` gives.
pub open spec fn as_u16(s: Seq<char>) -> Option<u16> {
    match parse_unsigned(s, 10, u16::MAX as int) {
        Ok(v) => Some(v as u16),
        Err(_) => None,
    }
}

/// What `parse::<i64>().ok()` gives.
pub open spec fn as_i64(s: Seq<char>) -> Option<i64> {
    match parse_signed(s, i64::MIN as int, i64::MAX as int) {
        Ok(v) => Some(v as i64),
        Err(_) => None,
    }
}

/// The character of a digit.
pub open spec fn digit_char(d: int) -> char {
    if d < 10 {
        ('0' as int + d) as char
    } else {
        ('a' as int + (d - 10)) as char
    }
}

/// `n` in decimal, without leading zeros.
pub open spec fn decimal(n: int) -> Seq<char>
    decreases n,
{
    if n < 10 {
        seq![digit_char(n)]
    } else {
        decimal(n / 10).push(digit_char(n % 10))
    }
}

/// `n` in decimal, with a `-` in front where it is negative.
pub open spec fn signed_decimal(n: int) -> Seq<char> {
    if n < 0 {
        "-"@ + decimal(-n)
    } else {
        decimal(n)
    }
}

proof fn lemma_digit_char(d: int, radix: int)
    requires
        0 <= d < radix <= 16,
    ensures
        digit_value(digit_char(d), radix) == Some(d),
        digit_char(d) != '+',
        digit_char(d) != '-',
{
}

proof fn lemma_scan_decimal(n: int, rest: Seq<char>, max: int)
    requires
        0 <= n <= max,
    ensures
        scan_up(decimal(n) + rest, 10, 0, 0, max) == scan_up(
            decimal(n) + rest,
            10,
            decimal(n).len() as int,
            n,
            max,
        ),
        decimal(n).len() > 0,
        digit_value(decimal(n)[0], 10) is Some,
    decreases n,
{
    let last = n % 10;
    lemma_digit_char(last, 10);
    if n < 10 {
        assert((decimal(n) + rest)[0] == digit_char(n));
    } else {
        let tail = seq![digit_char(last)] + rest;
        lemma_scan_decimal(n / 10, tail, max);
        let whole = decimal(n) + rest;
        assert(whole == decimal(n / 10) + tail);
        let k = decimal(n / 10).len() as int;
        assert(whole[k] == digit_char(last));
        assert((n / 10) * 10 + last == n);
    }
}

/// Reading back what was written gives the number: for every `n` up to the
/// bound, `parse_unsigned` of its decimal spelling is `n`.
pub proof fn lemma_parse_decimal(n: int, max: int)
    requires
        0 <= n <= max,
    ensures
        parse_unsigned(decimal(n), 10, max) == Ok::<int, NumberError>(n),
{
    lemma_scan_decimal(n, seq![], max);
    assert(decimal(n) + Seq::<char>::empty() == decimal(n));
}

proof fn lemma_scan_down_decimal(n: int, front: Seq<char>, rest: Seq<char>, min: int)
    requires
        0 <= n,
        min <= -n,
    ensures
        scan_down(front + decimal(n) + rest, front.len() as int, 0, min) == scan_down(
            front + decimal(n) + rest,
            (front.len() + decimal(n).len()) as int,
            -n,
            min,
        ),
        decimal(n).len() > 0,
    decreases n,
{
    let last = n % 10;
    lemma_digit_char(last, 10);
    let whole = front + decimal(n) + rest;
    if n < 10 {
        assert(whole[front.len() as int] == digit_char(n));
    } else {
        let tail = seq![digit_char(last)] + rest;
        lemma_scan_down_decimal(n / 10, front, tail, min);
        assert(whole == front + decimal(n / 10) + tail);
        let k = (front.len() + decimal(n / 10).len()) as int;
        assert(whole[k] == digit_char(last));
        assert(-(n / 10) * 10 - last == -n);
    }
}

/// Reading back what was written gives the number, below zero too.
pub proof fn lemma_parse_signed_decimal(n: int, min: int, max: int)
    requires
        min <= n <= max,
    ensures
        parse_signed(signed_decimal(n), min, max) == Ok::<int, NumberError>(n),
{
    if n < 0 {
        reveal_strlit("-");
        let spelled = signed_decimal(n);
        lemma_scan_down_decimal(-n, "-"@, seq![], min);
        assert("-"@ + decimal(-n) + Seq::<char>::empty() == spelled);
        assert(spelled[0] == '-');
    } else {
        lemma_parse_decimal(n, max);
        lemma_decimal_digits(n);
    }
}

/// A character that does not occur in any decimal spelling.
pub proof fn lemma_decimal_digits(n: int)
    requires
        0 <= n,
    ensures
        decimal(n).len() > 0,
        forall|i: int| 0 <= i < decimal(n).len() ==> '0' <= #[trigger] decimal(n)[i] <= '9',
    decreases n,
{
    if n >= 10 {
        lemma_decimal_digits(n / 10);
    }
}

pub fn digit_of(c: char, radix: u32) -> (r: Option<u32>)
    requires
        radix <= 36,
    ensures
        match r {
            Some(v) => digit_value(c, radix as int) == Some(v as int) && v < radix,
            None => digit_value(c, radix as int) is None,
        },
{
    let n: u32 = c as u32;
    let v: u32 = if '0' <= c && c <= '9' {
        n - '0' as u32
    } else if 'a' <= c && c <= 'z' {
        n - 'a' as u32 + 10
    } else if 'A' <= c && c <= 'Z' {
        n - 'A' as u32 + 10
    } else {
        radix
    };
    if v < radix {
        Some(v)
    } else {
        None
    }
}

/// Reads an unsigned number in `radix`, no larger than `max`.
pub fn read_unsigned(s: &[char], radix: u32, max: u64) -> (r: Result<u64, NumberError>)
    requires
        2 <= radix <= 36,
    ensures
        match r {
            Ok(v) => parse_unsigned(s@, radix as int, max as int) == Ok::<int, NumberError>(
                v as int,
            ) && v <= max,
            Err(e) => parse_unsigned(s@, radix as int, max as int) == Err::<int, NumberError>(e),
        },
{
    if s.len() == 0 {
        return Err(NumberError::Empty);
    }
    if s.len() == 1 && (s[0] == '+' || s[0] == '-') {
        return Err(NumberError::InvalidDigit);
    }
    let mut i: usize = if s[0] == '+' {
        1
    } else {
        0
    };
    let mut acc: u64 = 0;
    while i < s.len()
        invariant
            2 <= radix <= 36,
            i <= s.len(),
            acc <= max,
            parse_unsigned(s@, radix as int, max as int) == scan_up(
                s@,
                radix as int,
                i as int,
                acc as int,
                max as int,
            ),
        decreases s.len() - i,
    {
        match digit_of(s[i], radix) {
            None => {
                return Err(NumberError::InvalidDigit);
            },
            Some(d) => {
                assert(acc * radix + d <= u64::MAX * 36 + 36) by (nonlinear_arith)
                    requires
                        acc <= u64::MAX,
                        radix <= 36,
                        d <= 36,
                ;
                let next: u128 = acc as u128 * radix as u128 + d as u128;
                if next > max as u128 {
                    return Err(NumberError::TooLarge);
                }
                acc = next as u64;
            },
        }
        i = i + 1;
    }
    Ok(acc)
}

/// Reads a signed decimal number that fits in 64 bits.
pub fn read_i64(s: &[char]) -> (r: Result<i64, NumberError>)
    ensures
        match r {
            Ok(v) => parse_signed(s@, i64::MIN as int, i64::MAX as int) == Ok::<int, NumberError>(
                v as int,
            ),
            Err(e) => parse_signed(s@, i64::MIN as int, i64::MAX as int) == Err::<
                int,
                NumberError,
            >(e),
        },
{
    if s.len() > 1 && s[0] == '-' {
        let mut i: usize = 1;
        let mut acc: i64 = 0;
        while i < s.len()
            invariant
                1 <= i <= s.len(),
                parse_signed(s@, i64::MIN as int, i64::MAX as int) == scan_down(
                    s@,
                    i as int,
                    acc as int,
                    i64::MIN as int,
                ),
                acc <= 0,
            decreases s.len() - i,
        {
            match digit_of(s[i], 10) {
                None => {
                    return Err(NumberError::InvalidDigit);
                },
                Some(d) => {
                    let next: i128 = acc as i128 * 10 - d as i128;
                    if next < i64::MIN as i128 {
                        return Err(NumberError::TooSmall);
                    }
                    acc = next as i64;
                },
            }
            i = i + 1;
        }
        Ok(acc)
    } else {
        match read_unsigned(s, 10, i64::MAX as u64) {
            Ok(v) => Ok(v as i64),
            Err(e) => Err(e),
        }
    }
}

pub fn read_u64(s: &[char]) -> (r: Option<u64>)
    ensures
        r == as_u64(s@),
{
    match read_unsigned(s, 10, u64::MAX) {
        Ok(v) => Some(v),
        Err(_) => None,
    }
}

pub fn read_u32(s: &[char]) -> (r: Option<u32>)
    ensures
        r == as_u32(s@),
{
    match read_unsigned(s, 10, u32::MAX as u64) {
        Ok(v) => Some(v as u32),
        Err(_) => None,
    }
}

pub fn read_u16(s: &[char]) -> (r: Option<u16>)
    ensures
        r == as_u16(s@),
{
    match read_unsigned(s, 10, u16::MAX as u64) {
        Ok(v) => Some(v as u16),
        Err(_) => None,
    }
}

/// Appends `n` in decimal.
pub fn push_decimal(out: &mut String, n: u64)
    ensures
        final(out)@ == old(out)@ + decimal(n as int),
    decreases n,
{
    if n >= 10 {
        push_decimal(out, n / 10);
    }
    let d: u8 = (n % 10) as u8;
    let c: char = (48 + d) as char;
    proof {
        assert(c == digit_char(n as int % 10));
        if n >= 10 {
            assert((old(out)@ + decimal(n as int / 10)).push(c) == old(out)@ + decimal(
                n as int / 10,
            ).push(c));
        } else {
            assert(old(out)@.push(c) == old(out)@ + seq![c]);
        }
    }
    out.push(c);
}

/// `n` in decimal.
pub fn decimal_string(n: u64) -> (r: String)
    ensures
        r@ == decimal(n as int),
{
    let mut out = String::new();
    push_decimal(&mut out, n);
    assert(Seq::<char>::empty() + decimal(n as int) == decimal(n as int));
    out
}

/// `n` in decimal, with its sign where it is negative.
pub fn signed_string(n: i64) -> (r: String)
    ensures
        r@ == signed_decimal(n as int),
{
    if n < 0 {
        let mut out = "-".to_owned();
        let magnitude: u64 = (-(n as i128)) as u64;
        push_decimal(&mut out, magnitude);
        out
    } else {
        decimal_string(n as u64)
    }
}

/// `n`, or the largest 64-bit number where it is larger.
pub open spec fn capped(n: int) -> u64 {
    if n > u64::MAX {
        u64::MAX
    } else {
        n as u64
    }
}

/// The numbers among words, in order.
pub open spec fn numbers_in(words: Seq<Seq<char>>) -> Seq<u64>
    decreases words.len(),
{
    if words.len() == 0 {
        seq![]
    } else {
        let front = numbers_in(words.drop_last());
        match as_u64(words.last()) {
            Some(v) => front.push(v),
            None => front,
        }
    }
}

/// The sum of the first `n` numbers.
pub open spec fn sum_of(values: Seq<u64>, n: int) -> int
    decreases n,
{
    if n <= 0 || n > values.len() {
        0
    } else {
        sum_of(values, n - 1) + values[n - 1]
    }
}

/// The number at position `i`, zero where there is none.
pub open spec fn nth_or_zero(values: Seq<u64>, i: int) -> u64 {
    if 0 <= i < values.len() {
        values[i]
    } else {
        0
    }
}

/// The numbers among the words from position `from` on.
pub fn read_numbers(words: &Vec<&[char]>, from: usize) -> (r: Vec<u64>)
    requires
        from <= words@.len(),
    ensures
        r@ == numbers_in(crate::text::views(words@).skip(from as int)),
{
    let ghost all = crate::text::views(words@).skip(from as int);
    let mut out: Vec<u64> = Vec::new();
    let mut i: usize = from;
    while i < words.len()
        invariant
            from <= i <= words.len(),
            all == crate::text::views(words@).skip(from as int),
            out@ == numbers_in(all.take(i - from)),
        decreases words.len() - i,
    {
        assert(all.take(i + 1 - from).drop_last() == all.take(i - from));
        assert(all.take(i + 1 - from).last() == words@[i as int]@);
        match read_u64(words[i]) {
            Some(v) => {
                out.push(v);
            },
            None => {},
        }
        i = i + 1;
    }
    assert(all.take(i - from) == all);
    out
}

pub proof fn lemma_sum_nonnegative(values: Seq<u64>, n: int)
    ensures
        0 <= sum_of(values, n),
    decreases n,
{
    if 0 < n <= values.len() {
        lemma_sum_nonnegative(values, n - 1);
    }
}

/// The sum of the first `n` numbers, or of all where there are fewer, capped.
pub fn sum_numbers(values: &Vec<u64>, n: usize) -> (r: u64)
    ensures
        r == capped(
            sum_of(
                values@,
                if n < values@.len() {
                    n as int
                } else {
                    values@.len() as int
                },
            ),
        ),
{
    let mut sum: u64 = 0;
    let mut i: usize = 0;
    while i < values.len() && i < n
        invariant
            i <= values.len(),
            i <= n,
            sum == capped(sum_of(values@, i as int)),
        decreases values.len() - i,
    {
        proof {
            lemma_sum_nonnegative(values@, i as int);
        }
        sum = sum.saturating_add(values[i]);
        i = i + 1;
    }
    sum
}

/// The number at position `i`, zero where there is none.
pub fn get_or_zero(values: &Vec<u64>, i: usize) -> (r: u64)
    ensures
        r == nth_or_zero(values@, i as int),
{
    if i < values.len() {
        values[i]
    } else {
        0
    }
}

/// The product, capped.
pub fn mul_capped(a: u64, b: u64) -> (r: u64)
    ensures
        r == capped(a * b),
{
    proof {
        assert(0 <= a * b) by (nonlinear_arith);
    }
    match a.checked_mul(b) {
        Some(v) => v,
        None => u64::MAX,
    }
}

/// Numbers as they are spelled.
pub open spec fn spelled(values: Seq<u64>) -> Seq<Seq<char>> {
    Seq::new(values.len(), |i: int| decimal(values[i] as int))
}

/// Numbers that are spelled are read back, each in its place.
pub proof fn lemma_spelled_numbers_read_back(values: Seq<u64>)
    ensures
        numbers_in(spelled(values)) == values,
        forall|i: int|
            0 <= i < values.len() ==> text::is_word(#[trigger] spelled(values)[i]),
    decreases values.len(),
{
    if values.len() > 0 {
        let front = values.drop_last();
        lemma_spelled_numbers_read_back(front);
        assert(spelled(values).drop_last() =~= spelled(front));
        lemma_parse_decimal(values.last() as int, u64::MAX as int);
        assert(spelled(values).last() == decimal(values.last() as int));
        assert(front.push(values.last()) =~= values);
    }
    assert forall|i: int| 0 <= i < values.len() implies text::is_word(
        #[trigger] spelled(values)[i],
    ) by {
        lemma_decimal_digits(values[i] as int);
    }
}

} // verus!
