//! Conversions between strings and character sequences.

use vstd::prelude::*;
use vstd::std_specs::iter::IteratorSpec;

verus! {

/// Taken on trust from the standard library, not proved here: `String::push`
/// puts `ch` behind the characters of the string and leaves those as they
/// were.
pub assume_specification[ String::push ](s: &mut String, ch: char)
    ensures
        final(s)@ == old(s)@.push(ch),
;

/// The characters of `s`, in order.
pub fn chars_of(s: &str) -> (out: Vec<char>)
    ensures
        out@ == s@,
{
    let mut out: Vec<char> = Vec::new();
    for c in it: s.chars()
        invariant
            it.seq() == s@,
            out@ == it.history(),
    {
        out.push(c);
    }
    assert(out@ =~= s@);
    out
}

/// The string made of `chars[from..to]`.
pub(crate) fn string_of(chars: &Vec<char>, from: usize, to: usize) -> (out: String)
    requires
        from <= to <= chars.len(),
    ensures
        out@ == chars@.subrange(from as int, to as int),
{
    let mut out = String::new();
    let mut i: usize = from;
    while i < to
        invariant
            from <= i <= to <= chars.len(),
            out@ == chars@.subrange(from as int, i as int),
        decreases to - i,
    {
        out.push(chars[i]);
        i += 1;
        assert(out@ =~= chars@.subrange(from as int, i as int));
    }
    out
}

/// Whether `chars` spells exactly the text `lit`.
pub fn spells(chars: &Vec<char>, lit: &str) -> (same: bool)
    ensures
        same == (chars@ == lit@),
{
    let mut it = lit.chars();
    let mut n: usize = 0;
    loop
        invariant
            n <= chars.len(),
            lit@ == chars@.take(n as int) + it.remaining(),
            it.obeys_prophetic_iter_laws(),
        decreases chars.len() - n,
    {
        let ghost before = it.remaining();
        match it.next() {
            None => {
                assert(lit@ =~= chars@.take(n as int));
                if n == chars.len() {
                    assert(chars@.take(n as int) =~= chars@);
                }
                return n == chars.len();
            },
            Some(c) => {
                assert(lit@[n as int] == c);
                if n >= chars.len() || chars[n] != c {
                    return false;
                }
                n += 1;
                assert(lit@ =~= chars@.take(n as int) + it.remaining());
            },
        }
    }
}

/// The views of the items of `items`, in order.
pub open spec fn view_each<T: View>(items: Seq<T>) -> Seq<T::V> {
    items.map_values(|item: T| item@)
}

/// The number that a run of decimal digits writes; 0 for the empty run.
pub open spec fn digits_value(digits: Seq<char>) -> nat
    decreases digits.len(),
{
    if digits.len() == 0 {
        0
    } else {
        (digits_value(digits.drop_last()) * 10 + (digits.last() as int - '0' as int)) as nat
    }
}

/// Whether every character of `s` is a decimal digit.
pub open spec fn all_digits(s: Seq<char>) -> bool {
    forall|i: int| 0 <= i < s.len() ==> '0' <= #[trigger] s[i] <= '9'
}

/// The integer that `s` writes: an optional `+` or `-`, then one or more
/// decimal digits and nothing else. `None` for any other text, and for a
/// number outside the range of `isize`.
pub open spec fn integer_of(s: Seq<char>) -> Option<int> {
    let signed = s.len() > 0 && (s[0] == '-' || s[0] == '+');
    let digits = if signed {
        s.drop_first()
    } else {
        s
    };
    let value = if signed && s[0] == '-' {
        -(digits_value(digits) as int)
    } else {
        digits_value(digits) as int
    };
    if digits.len() > 0 && all_digits(digits) && isize::MIN <= value <= isize::MAX {
        Some(value)
    } else {
        None
    }
}

/// A longer run of digits writes no smaller number than its beginning.
pub proof fn lemma_digits_value_grows(digits: Seq<char>, n: int)
    requires
        0 <= n <= digits.len(),
        all_digits(digits),
    ensures
        digits_value(digits.take(n)) <= digits_value(digits),
    decreases digits.len(),
{
    if n == digits.len() {
        assert(digits.take(n) =~= digits);
    } else {
        let front = digits.drop_last();
        assert(front.take(n) =~= digits.take(n));
        assert(all_digits(front)) by {
            assert forall|i: int| 0 <= i < front.len() implies '0' <= #[trigger] front[i]
                <= '9' by {
                assert(front[i] == digits[i]);
            }
        }
        lemma_digits_value_grows(front, n);
        assert('0' <= digits[digits.len() - 1]);
    }
}

/// Reads an integer as `integer_of` defines it.
#[verifier::loop_isolation(false)]
pub fn parse_integer(text: &str) -> (value: Option<isize>)
    ensures
        value.is_some() == integer_of(text@).is_some(),
        value matches Some(v) ==> integer_of(text@) == Some(v as int),
{
    let chars = chars_of(text);
    let signed = chars.len() > 0 && (chars[0] == '-' || chars[0] == '+');
    let negative = signed && chars[0] == '-';
    let start: usize = if signed {
        1
    } else {
        0
    };
    let ghost digits = if signed {
        text@.drop_first()
    } else {
        text@
    };
    assert(digits =~= chars@.subrange(start as int, chars.len() as int));
    if start == chars.len() {
        return None;
    }
    // one more than any magnitude in range, so that the sum below stays small
    let limit: i128 = isize::MAX as i128 + 1;
    let mut total: i128 = 0;
    let mut i: usize = start;
    while i < chars.len()
        invariant
            start <= i <= chars.len(),
            digits == chars@.subrange(start as int, chars.len() as int),
            all_digits(digits.take(i - start)),
            total == digits_value(digits.take(i - start)),
            0 <= total <= limit,
            limit == isize::MAX + 1,
        decreases chars.len() - i,
    {
        let c = chars[i];
        if !('0' <= c && c <= '9') {
            assert(digits[i - start] == c);
            return None;
        }
        let digit: i128 = (c as u32 - '0' as u32) as i128;
        let ghost front = digits.take(i - start);
        let ghost longer = digits.take(i + 1 - start);
        proof {
            assert(longer.drop_last() =~= front);
            assert(longer.last() == c);
            assert(all_digits(longer)) by {
                assert forall|k: int| 0 <= k < longer.len() implies '0' <= #[trigger] longer[k]
                    <= '9' by {
                    if k < front.len() {
                        assert(longer[k] == front[k]);
                    }
                }
            }
        }
        total = total * 10 + digit;
        i += 1;
        if total > limit {
            proof {
                // whatever follows, no number in range comes of it
                if all_digits(digits) {
                    lemma_digits_value_grows(digits, i - start);
                }
            }
            return None;
        }
    }
    assert(digits.take(i - start) =~= digits);
    if negative {
        Some((-total) as isize)
    } else if total == limit {
        None
    } else {
        Some(total as isize)
    }
}

/// The decimal digits of `n`, most significant first; `0` for zero.
pub open spec fn decimal_of(n: nat) -> Seq<char>
    decreases n,
{
    if n < 10 {
        seq![('0' as int + n) as char]
    } else {
        decimal_of(n / 10).push(('0' as int + n % 10) as char)
    }
}

/// Writes `n` in decimal.
pub fn decimal(n: usize) -> (text: String)
    ensures
        text@ == decimal_of(n as nat),
{
    let mut reversed: Vec<char> = Vec::new();
    let mut rest = n;
    while rest >= 10
        invariant
            decimal_of(n as nat) == decimal_of(rest as nat) + reversed@.reverse(),
        decreases rest,
    {
        let digit = (('0' as u32 + (rest % 10) as u32) as u8) as char;
        let ghost before = reversed@;
        reversed.push(digit);
        proof {
            assert(reversed@.reverse() =~= seq![digit] + before.reverse());
            assert(decimal_of(rest as nat) == decimal_of((rest / 10) as nat).push(digit));
            assert(decimal_of(n as nat) =~= decimal_of((rest / 10) as nat)
                + reversed@.reverse());
        }
        rest = rest / 10;
    }
    let first = (('0' as u32 + rest as u32) as u8) as char;
    let mut text = String::new();
    text.push(first);
    assert(text@ =~= decimal_of(rest as nat));
    let mut i = reversed.len();
    while i > 0
        invariant
            i <= reversed.len(),
            text@ == decimal_of(rest as nat) + reversed@.reverse().take(reversed.len() - i),
        decreases i,
    {
        i -= 1;
        text.push(reversed[i]);
        proof {
            let r = reversed@.reverse();
            assert(r[reversed.len() - 1 - i] == reversed@[i as int]);
            assert(r.take(reversed.len() - i) =~= r.take(reversed.len() - i - 1).push(
                reversed@[i as int],
            ));
        }
    }
    assert(reversed@.reverse().take(reversed.len() as int) =~= reversed@.reverse());
    text
}

} // verus!
