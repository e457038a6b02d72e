//! Text handling shared by the trace format and the command line: Unicode
//! whitespace, trimming, and reading unsigned integers in a given radix.
use vstd::prelude::*;

verus! {

/// The characters of `s`, in order.
pub fn chars_of(s: &str) -> (chars: Vec<char>)
    ensures
        chars@ == s@,
{
    broadcast use vstd::string::group_string_axioms;

    let mut chars: Vec<char> = Vec::new();
    for c in it: s.chars()
        invariant
            chars@ == it.history(),
    {
        chars.push(c);
    }
    chars
}

/// The Unicode `White_Space` characters.
pub open spec fn is_whitespace(c: char) -> bool {
    let u = c as u32;
    ||| 0x9 <= u <= 0xD
    ||| u == 0x20
    ||| u == 0x85
    ||| u == 0xA0
    ||| u == 0x1680
    ||| 0x2000 <= u <= 0x200A
    ||| u == 0x2028
    ||| u == 0x2029
    ||| u == 0x202F
    ||| u == 0x205F
    ||| u == 0x3000
}

/// Whether `c` is a Unicode `White_Space` character.
pub fn char_is_whitespace(c: char) -> (ws: bool)
    ensures
        ws == is_whitespace(c),
{
    let u: u32 = c as u32;
    (0x9 <= u && u <= 0xD) || u == 0x20 || u == 0x85 || u == 0xA0 || u == 0x1680 || (0x2000 <= u
        && u <= 0x200A) || u == 0x2028 || u == 0x2029 || u == 0x202F || u == 0x205F || u == 0x3000
}

/// `s` without its leading whitespace.
pub open spec fn trim_start(s: Seq<char>) -> Seq<char>
    decreases s.len(),
{
    if s.len() > 0 && is_whitespace(s[0]) {
        trim_start(s.drop_first())
    } else {
        s
    }
}

/// `s` without its trailing whitespace.
pub open spec fn trim_end(s: Seq<char>) -> Seq<char>
    decreases s.len(),
{
    if s.len() > 0 && is_whitespace(s.last()) {
        trim_end(s.drop_last())
    } else {
        s
    }
}

/// `s` without leading or trailing whitespace.
pub open spec fn trim(s: Seq<char>) -> Seq<char> {
    trim_end(trim_start(s))
}

/// The first position in `chars[lo..hi]` that is not whitespace (or `hi`):
/// `chars[result..hi]` is `chars[lo..hi]` trimmed at the start.
pub fn skip_whitespace(chars: &Vec<char>, lo: usize, hi: usize) -> (start: usize)
    requires
        lo <= hi <= chars@.len(),
    ensures
        lo <= start <= hi,
        chars@.subrange(start as int, hi as int) == trim_start(chars@.subrange(lo as int, hi as int)),
{
    let mut i: usize = lo;
    while i < hi
        invariant
            lo <= i <= hi <= chars@.len(),
            trim_start(chars@.subrange(i as int, hi as int)) == trim_start(chars@.subrange(lo as int, hi as int)),
        decreases hi - i,
    {
        if !char_is_whitespace(chars[i]) {
            return i;
        }
        assert(chars@.subrange(i as int, hi as int).drop_first() =~= chars@.subrange(i + 1, hi as int));
        i = i + 1;
    }
    i
}

/// The end of `chars[lo..hi]` once trailing whitespace is dropped:
/// `chars[lo..result]` is `chars[lo..hi]` trimmed at the end.
pub fn drop_trailing_whitespace(chars: &Vec<char>, lo: usize, hi: usize) -> (end: usize)
    requires
        lo <= hi <= chars@.len(),
    ensures
        lo <= end <= hi,
        chars@.subrange(lo as int, end as int) == trim_end(chars@.subrange(lo as int, hi as int)),
{
    let mut j: usize = hi;
    while j > lo
        invariant
            lo <= j <= hi <= chars@.len(),
            trim_end(chars@.subrange(lo as int, j as int)) == trim_end(chars@.subrange(lo as int, hi as int)),
        decreases j - lo,
    {
        if !char_is_whitespace(chars[j - 1]) {
            return j;
        }
        assert(chars@.subrange(lo as int, j as int).drop_last() =~= chars@.subrange(lo as int, j - 1));
        j = j - 1;
    }
    j
}

/// Why a text is not an unsigned integer: it is empty, holds a character
/// that is not a digit, or names a number too large for the target type.
#[derive(Debug, Clone, Copy, PartialEq, Eq, Structural)]
pub enum NumberError {
    Empty,
    InvalidDigit,
    PosOverflow,
}

/// The value of digit `c` in base `radix`: `0`-`9`, then `a`-`z` or `A`-`Z`
/// for ten and up, if below the radix.
pub open spec fn digit_value(c: char, radix: nat) -> Option<nat> {
    let u = c as u32;
    let d: int = if '0' as u32 <= u <= '9' as u32 {
        u - '0' as u32
    } else if 'a' as u32 <= u <= 'z' as u32 {
        u - 'a' as u32 + 10
    } else if 'A' as u32 <= u <= 'Z' as u32 {
        u - 'A' as u32 + 10
    } else {
        radix as int
    };
    if d < radix {
        Some(d as nat)
    } else {
        None
    }
}

/// Reading the digits of `s` from the left in base `radix`, failing at the
/// first character that is not a digit, or as soon as the value read so far
/// exceeds `max`.
pub open spec fn read_digits(s: Seq<char>, radix: nat, max: nat) -> Result<nat, NumberError>
    decreases s.len(),
{
    if s.len() == 0 {
        Ok(0)
    } else {
        match read_digits(s.drop_last(), radix, max) {
            Err(e) => Err(e),
            Ok(v) => match digit_value(s.last(), radix) {
                None => Err(NumberError::InvalidDigit),
                Some(d) => if v * radix + d > max {
                    Err(NumberError::PosOverflow)
                } else {
                    Ok(v * radix + d)
                },
            },
        }
    }
}

/// `s` read as an unsigned integer in base `radix` that may not exceed
/// `max`: an optional `+` and then at least one digit.
pub open spec fn parse_unsigned_spec(s: Seq<char>, radix: nat, max: nat) -> Result<nat, NumberError> {
    if s.len() == 0 {
        Err(NumberError::Empty)
    } else if s.len() == 1 && (s[0] == '+' || s[0] == '-') {
        Err(NumberError::InvalidDigit)
    } else if s[0] == '+' {
        read_digits(s.drop_first(), radix, max)
    } else {
        read_digits(s, radix, max)
    }
}

/// Once reading a prefix has failed, reading more characters fails the same
/// way.
proof fn lemma_read_digits_error_stays(s: Seq<char>, n: int, radix: nat, max: nat)
    requires
        0 <= n <= s.len(),
        read_digits(s.subrange(0, n), radix, max) is Err,
    ensures
        read_digits(s, radix, max) == read_digits(s.subrange(0, n), radix, max),
    decreases s.len() - n,
{
    if n < s.len() {
        assert(s.subrange(0, n + 1).drop_last() =~= s.subrange(0, n));
        lemma_read_digits_error_stays(s, n + 1, radix, max);
    } else {
        assert(s.subrange(0, n) =~= s);
    }
}

/// The value of digit `c` in base `radix`, if it is one.
fn char_digit(c: char, radix: u32) -> (d: Option<u32>)
    requires
        2 <= radix <= 36,
    ensures
        match d {
            Some(v) => digit_value(c, radix as nat) == Some(v as nat),
            None => digit_value(c, radix as nat) is None,
        },
{
    let u: u32 = c as u32;
    let v: u32 = if 0x30 <= u && u <= 0x39 {
        u - 0x30
    } else if 0x61 <= u && u <= 0x7A {
        u - 0x61 + 10
    } else if 0x41 <= u && u <= 0x5A {
        u - 0x41 + 10
    } else {
        radix
    };
    if v < radix {
        Some(v)
    } else {
        None
    }
}

/// `chars[lo..hi]` read as an unsigned integer in base `radix` that may not
/// exceed `max`.
pub fn parse_unsigned(chars: &Vec<char>, lo: usize, hi: usize, radix: u32, max: u64) -> (r: Result<u64, NumberError>)
    requires
        lo <= hi <= chars@.len(),
        2 <= radix <= 36,
    ensures
        match parse_unsigned_spec(chars@.subrange(lo as int, hi as int), radix as nat, max as nat) {
            Ok(v) => r == Ok::<u64, NumberError>(v as u64),
            Err(e) => r == Err::<u64, NumberError>(e),
        },
{
    let ghost s = chars@.subrange(lo as int, hi as int);
    if lo == hi {
        return Err(NumberError::Empty);
    }
    if hi - lo == 1 && (chars[lo] == '+' || chars[lo] == '-') {
        return Err(NumberError::InvalidDigit);
    }
    let start: usize = if chars[lo] == '+' { lo + 1 } else { lo };
    let ghost digits = chars@.subrange(start as int, hi as int);
    assert(start > lo ==> digits =~= s.drop_first());
    assert(start == lo ==> digits =~= s);
    assert(parse_unsigned_spec(s, radix as nat, max as nat) == read_digits(digits, radix as nat, max as nat));
    let mut acc: u64 = 0;
    let mut i: usize = start;
    while i < hi
        invariant
            start <= i <= hi <= chars@.len(),
            digits == chars@.subrange(start as int, hi as int),
            parse_unsigned_spec(s, radix as nat, max as nat) == read_digits(digits, radix as nat, max as nat),
            s == chars@.subrange(lo as int, hi as int),
            2 <= radix <= 36,
            acc <= max,
            read_digits(digits.subrange(0, i - start), radix as nat, max as nat) == Ok::<nat, NumberError>(acc as nat),
        decreases hi - i,
    {
        let ghost prefix = digits.subrange(0, i - start + 1);
        assert(prefix.drop_last() =~= digits.subrange(0, i - start));
        assert(prefix.last() == chars@[i as int]);
        match char_digit(chars[i], radix) {
            None => {
                proof {
                    assert(read_digits(prefix, radix as nat, max as nat) == Err::<nat, NumberError>(NumberError::InvalidDigit));
                    lemma_read_digits_error_stays(digits, i - start + 1, radix as nat, max as nat);
                }
                return Err(NumberError::InvalidDigit);
            },
            Some(d) => {
                assert((acc as u128) * (radix as u128) <= 0xffff_ffff_ffff_ffffu128 * 36) by (nonlinear_arith)
                    requires
                        acc <= 0xffff_ffff_ffff_ffffu64,
                        radix <= 36,
                ;
                let wide: u128 = (acc as u128) * (radix as u128) + (d as u128);
                assert(wide == acc * radix + d);
                if wide > max as u128 {
                    proof {
                        assert(read_digits(prefix, radix as nat, max as nat) == Err::<nat, NumberError>(NumberError::PosOverflow));
                        lemma_read_digits_error_stays(digits, i - start + 1, radix as nat, max as nat);
                    }
                    return Err(NumberError::PosOverflow);
                }
                acc = wide as u64;
            },
        }
        i = i + 1;
    }
    assert(digits.subrange(0, hi - start) =~= digits);
    Ok(acc)
}

} // verus!
