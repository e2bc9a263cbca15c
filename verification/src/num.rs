//! Decimal numerals: printing unsigned and signed integers, and parsing
//! them back, with specification functions that pin down both directions.

use vstd::prelude::*;

verus! {

/// The decimal digit character for a value in 0..10.
pub open spec fn digit_char(d: int) -> char {
    if d == 0 {
        '0'
    } else if d == 1 {
        '1'
    } else if d == 2 {
        '2'
    } else if d == 3 {
        '3'
    } else if d == 4 {
        '4'
    } else if d == 5 {
        '5'
    } else if d == 6 {
        '6'
    } else if d == 7 {
        '7'
    } else if d == 8 {
        '8'
    } else {
        '9'
    }
}

/// Whether a character is a decimal digit.
pub open spec fn is_digit(c: char) -> bool {
    '0' <= c && c <= '9'
}

/// The numeric value of a decimal digit character.
pub open spec fn digit_val(c: char) -> int {
    c as int - '0' as int
}

/// The canonical decimal numeral of a non-negative integer: no sign, no
/// leading zeros (except the single digit of zero itself).
pub open spec fn dec_of_nat(n: nat) -> Seq<char>
    decreases n,
{
    if n < 10 {
        seq![digit_char(n as int)]
    } else {
        dec_of_nat(n / 10) + seq![digit_char((n % 10) as int)]
    }
}

/// The decimal numeral of a signed integer: a leading '-' when negative.
pub open spec fn dec_of_int(n: int) -> Seq<char> {
    if n < 0 {
        seq!['-'] + dec_of_nat((-n) as nat)
    } else {
        dec_of_nat(n as nat)
    }
}

/// The value of a sequence of digit characters, most significant first.
pub open spec fn digits_val(s: Seq<char>) -> int
    decreases s.len(),
{
    if s.len() == 0 {
        0
    } else {
        digits_val(s.drop_last()) * 10 + digit_val(s.last())
    }
}

/// Whether every character of the sequence is a decimal digit.
pub open spec fn all_digits(s: Seq<char>) -> bool {
    forall|i: int| 0 <= i < s.len() ==> is_digit(#[trigger] s[i])
}

/// The digits of a numeral are digits, its length is at least one, and it
/// reads back to the number it was printed from.
pub proof fn lemma_dec_of_nat(n: nat)
    ensures
        dec_of_nat(n).len() >= 1,
        all_digits(dec_of_nat(n)),
        digits_val(dec_of_nat(n)) == n,
    decreases n,
{
    if n < 10 {
        let s = dec_of_nat(n);
        assert(s =~= seq![digit_char(n as int)]);
        assert(s.drop_last() =~= Seq::<char>::empty());
        assert(digits_val(s) == digits_val(s.drop_last()) * 10 + digit_val(s.last()));
        assert(digit_val(digit_char(n as int)) == n);
    } else {
        lemma_dec_of_nat(n / 10);
        let pre = dec_of_nat(n / 10);
        let whole = dec_of_nat(n);
        assert(whole =~= pre + seq![digit_char((n % 10) as int)]);
        assert(whole.drop_last() =~= pre);
        assert(digits_val(whole) == digits_val(pre) * 10 + digit_val(digit_char((n % 10) as int)));
        assert(digit_val(digit_char((n % 10) as int)) == n % 10);
        assert(digits_val(pre) * 10 + n % 10 == n) by {
            assert(n / 10 * 10 + n % 10 == n);
        }
    }
}

/// A sequence of digit characters has a non-negative value.
pub proof fn lemma_digits_val_nonneg(s: Seq<char>)
    requires
        all_digits(s),
    ensures
        digits_val(s) >= 0,
    decreases s.len(),
{
    if s.len() > 0 {
        lemma_digits_val_nonneg(s.drop_last());
    }
}

/// Reading more digits never shrinks the value: the value of a digit
/// string is at least the value of any of its prefixes.
pub proof fn lemma_digits_val_prefix(s: Seq<char>, k: int)
    requires
        all_digits(s),
        0 <= k <= s.len(),
    ensures
        digits_val(s) >= digits_val(s.subrange(0, k)),
    decreases s.len() - k,
{
    if k < s.len() {
        lemma_digits_val_prefix(s, k + 1);
        let p = s.subrange(0, k);
        let q = s.subrange(0, k + 1);
        assert(q.drop_last() =~= p);
        assert(digits_val(q) == digits_val(p) * 10 + digit_val(q.last()));
        lemma_digits_val_nonneg(p);
        assert(digit_val(q.last()) >= 0);
    } else {
        assert(s.subrange(0, k) =~= s);
    }
}

/// One digit character as a string slice.
fn digit_str(d: u64) -> (r: &'static str)
    requires
        d < 10,
    ensures
        r@ =~= seq![digit_char(d as int)],
{
    proof {
        reveal_strlit("0");
        reveal_strlit("1");
        reveal_strlit("2");
        reveal_strlit("3");
        reveal_strlit("4");
        reveal_strlit("5");
        reveal_strlit("6");
        reveal_strlit("7");
        reveal_strlit("8");
        reveal_strlit("9");
    }
    if d == 0 {
        "0"
    } else if d == 1 {
        "1"
    } else if d == 2 {
        "2"
    } else if d == 3 {
        "3"
    } else if d == 4 {
        "4"
    } else if d == 5 {
        "5"
    } else if d == 6 {
        "6"
    } else if d == 7 {
        "7"
    } else if d == 8 {
        "8"
    } else {
        "9"
    }
}

/// Prints an unsigned integer as its decimal numeral.
pub fn u64_to_string(n: u64) -> (r: String)
    ensures
        r@ == dec_of_nat(n as nat),
    decreases n,
{
    if n < 10 {
        let s = digit_str(n);
        s.to_owned()
    } else {
        let mut s = u64_to_string(n / 10);
        s.append(digit_str(n % 10));
        proof {
            assert(s@ =~= dec_of_nat((n / 10) as nat) + seq![digit_char((n % 10) as int)]);
        }
        s
    }
}

/// Prints a signed integer as its decimal numeral, `-` first if negative.
pub fn i32_to_string(n: i32) -> (r: String)
    ensures
        r@ == dec_of_int(n as int),
{
    if n >= 0 {
        u64_to_string(n as u64)
    } else {
        let mut s = String::new();
        proof {
            reveal_strlit("-");
        }
        s.append("-");
        let m: u64 = (-(n as i64)) as u64;
        let digits = u64_to_string(m);
        s.append(digits.as_str());
        proof {
            assert(s@ =~= seq!['-'] + dec_of_nat((-(n as int)) as nat));
        }
        s
    }
}

/// Prints a zero-based position as its decimal numeral.
pub fn usize_to_string(n: usize) -> (r: String)
    ensures
        r@ == dec_of_nat(n as nat),
{
    u64_to_string(n as u64)
}

/// What a signed-integer token parses to: an optional `+` or `-` sign,
/// then at least one digit, with the value in the range of `i32`.
pub open spec fn parsed_i32(s: Seq<char>) -> Option<i32> {
    let body = if s.len() > 0 && (s[0] == '+' || s[0] == '-') {
        s.drop_first()
    } else {
        s
    };
    let signed_val = if s.len() > 0 && s[0] == '-' {
        -digits_val(body)
    } else {
        digits_val(body)
    };
    if body.len() > 0 && all_digits(body) && i32::MIN <= signed_val <= i32::MAX {
        Some(signed_val as i32)
    } else {
        None
    }
}

/// What an unsigned position token parses to: an optional `+` sign, then
/// at least one digit, with the value in the range of `usize`.
pub open spec fn parsed_usize(s: Seq<char>) -> Option<usize> {
    let body = if s.len() > 0 && s[0] == '+' {
        s.drop_first()
    } else {
        s
    };
    if body.len() > 0 && all_digits(body) && digits_val(body) <= usize::MAX {
        Some(digits_val(body) as usize)
    } else {
        None
    }
}

/// Reads the digit characters of `s` between `from` and `s@.len()`,
/// accumulating their value; reports a non-digit, and stops counting past
/// `bound` (the value then surely exceeds `bound` whatever follows).
fn scan_digits(s: &str, from: usize, bound: u128) -> (r: Option<u128>)
    requires
        from <= s@.len(),
        bound < u128::MAX / 16,
    ensures
        ({
            let body = s@.subrange(from as int, s@.len() as int);
            match r {
                Some(v) => all_digits(body) && digits_val(body) == v && v <= bound,
                None => !(all_digits(body) && digits_val(body) <= bound),
            }
        }),
{
    let ghost body = s@.subrange(from as int, s@.len() as int);
    let len = s.unicode_len();
    let mut acc: u128 = 0;
    let mut j: usize = from;
    while j < len
        invariant
            from <= j <= len,
            len == s@.len(),
            bound < u128::MAX / 16,
            body == s@.subrange(from as int, s@.len() as int),
            all_digits(s@.subrange(from as int, j as int)),
            acc == digits_val(s@.subrange(from as int, j as int)),
            acc <= bound,
        decreases len - j,
    {
        let c = s.get_char(j);
        let cv = c as u32;
        if cv < 48 || cv > 57 {
            proof {
                assert(!is_digit(s@[j as int]));
                assert(body[j - from] == s@[j as int]);
            }
            return None;
        }
        let d: u128 = (cv - 48) as u128;
        proof {
            assert(is_digit(s@[j as int]));
            assert(d == digit_val(s@[j as int]));
            let p = s@.subrange(from as int, j as int);
            let q = s@.subrange(from as int, j + 1);
            assert(q.drop_last() =~= p);
            assert(q.last() == s@[j as int]);
        }
        acc = acc * 10 + d;
        j = j + 1;
        if acc > bound {
            proof {
                let q = s@.subrange(from as int, j as int);
                if all_digits(body) {
                    lemma_digits_val_prefix(body, j - from);
                    assert(body.subrange(0, j - from) =~= q);
                }
            }
            return None;
        }
    }
    proof {
        assert(s@.subrange(from as int, j as int) =~= body);
    }
    Some(acc)
}

/// Parses a signed-integer token exactly as its specification
/// `parsed_i32` reads it.
pub fn parse_i32(s: &str) -> (r: Option<i32>)
    ensures
        r == parsed_i32(s@),
{
    let len = s.unicode_len();
    let mut start: usize = 0;
    let mut negative = false;
    if len > 0 {
        let c = s.get_char(0);
        if c == '-' {
            negative = true;
            start = 1;
        } else if c == '+' {
            start = 1;
        }
    }
    let ghost body = if start == 1 {
        s@.drop_first()
    } else {
        s@
    };
    if start >= len {
        return None;
    }
    proof {
        assert(body =~= s@.subrange(start as int, s@.len() as int));
    }
    let scanned = scan_digits(s, start, 2147483648);
    match scanned {
        None => {
            proof {
                if all_digits(body) {
                    lemma_digits_val_nonneg(body);
                }
            }
            None
        },
        Some(v) => {
            if negative {
                Some((-(v as i64)) as i32)
            } else if v > 2147483647 {
                None
            } else {
                Some(v as i32)
            }
        },
    }
}

/// Parses an unsigned position token exactly as its specification
/// `parsed_usize` reads it.
pub fn parse_usize(s: &str) -> (r: Option<usize>)
    ensures
        r == parsed_usize(s@),
{
    let len = s.unicode_len();
    let mut start: usize = 0;
    if len > 0 {
        let c = s.get_char(0);
        if c == '+' {
            start = 1;
        }
    }
    let ghost body = if start == 1 {
        s@.drop_first()
    } else {
        s@
    };
    if start >= len {
        return None;
    }
    proof {
        assert(body =~= s@.subrange(start as int, s@.len() as int));
    }
    let scanned = scan_digits(s, start, usize::MAX as u128);
    match scanned {
        None => None,
        Some(v) => Some(v as usize),
    }
}

/// Printing a signed integer and parsing the numeral back returns the
/// same integer.
pub proof fn lemma_parse_dec_of_int(n: int)
    requires
        i32::MIN <= n <= i32::MAX,
    ensures
        parsed_i32(dec_of_int(n)) == Some(n as i32),
{
    if n < 0 {
        let s = dec_of_int(n);
        let digits = dec_of_nat((-n) as nat);
        lemma_dec_of_nat((-n) as nat);
        assert(s[0] == '-');
        assert(s.drop_first() =~= digits);
        assert(-digits_val(digits) == n);
    } else {
        let digits = dec_of_nat(n as nat);
        lemma_dec_of_nat(n as nat);
        assert(is_digit(digits[0]));
        assert(digits[0] != '+' && digits[0] != '-');
    }
}

} // verus!

