use vstd::prelude::*;

verus! {

/// That every byte of `s` is an ASCII digit.
pub open spec fn is_digits(s: Seq<u8>) -> bool {
    forall|i: int| 0 <= i < s.len() ==> 0x30 <= #[trigger] s[i] <= 0x39
}

/// The number that the ASCII digits `digits` spell in base ten.
pub open spec fn decimal_value(digits: Seq<u8>) -> nat
    decreases digits.len(),
{
    if digits.len() == 0 {
        0
    } else {
        decimal_value(digits.drop_last()) * 10 + (digits.last() - 0x30) as nat
    }
}

/// The digits of `text`: what follows one leading plus sign, if there is one.
pub open spec fn unsigned_digits(text: Seq<u8>) -> Seq<u8> {
    if text.len() > 0 && text[0] == 0x2B {
        text.skip(1)
    } else {
        text
    }
}

/// Reading `text` as an unsigned decimal number of at most `max`: an
/// optional plus sign, then one digit or more and nothing else.
pub open spec fn parse_decimal(text: Seq<u8>, max: nat) -> Option<nat> {
    let digits = unsigned_digits(text);
    if digits.len() > 0 && is_digits(digits) && decimal_value(digits) <= max {
        Some(decimal_value(digits))
    } else {
        None
    }
}

/// A number's leading digits spell no more than the number.
proof fn lemma_decimal_prefix(digits: Seq<u8>, n: nat)
    requires
        n <= digits.len(),
        is_digits(digits),
    ensures
        decimal_value(digits.take(n as int)) <= decimal_value(digits),
    decreases digits.len() - n,
{
    if n < digits.len() {
        let longer = digits.take((n + 1) as int);
        assert(longer.drop_last() =~= digits.take(n as int));
        assert(longer.last() == digits[n as int]);
        lemma_decimal_prefix(digits, n + 1);
    } else {
        assert(digits.take(n as int) =~= digits);
    }
}

/// Reads `text` as an unsigned decimal number of at most `max`.
pub fn read_decimal(text: &[u8], max: u64) -> (number: Option<u64>)
    ensures
        number matches Some(n) ==> parse_decimal(text@, max as nat) == Some(n as nat),
        number is None ==> parse_decimal(text@, max as nat) is None,
{
    let start: usize = if text.len() > 0 && text[0] == 0x2B {
        1
    } else {
        0
    };
    if start == text.len() {
        return None;
    }
    let ghost digits = unsigned_digits(text@);
    let mut value: u64 = 0;
    let mut i: usize = start;
    while i < text.len()
        invariant
            start <= i <= text.len(),
            digits == unsigned_digits(text@),
            digits == text@.skip(start as int),
            is_digits(digits.take(i - start)),
            value == decimal_value(digits.take(i - start)),
            value <= max,
        decreases text.len() - i,
    {
        let byte = text[i];
        let ghost seen = digits.take(i - start);
        let ghost longer = digits.take(i - start + 1);
        proof {
            assert(digits[i - start] == byte);
            assert(longer.drop_last() =~= seen);
            assert(longer.last() == byte);
        }
        if byte < 0x30 || byte > 0x39 {
            return None;
        }
        let digit = (byte - 0x30) as u64;
        if digit > max || value > (max - digit) / 10 {
            proof {
                assert(decimal_value(longer) > max);
                if is_digits(digits) {
                    lemma_decimal_prefix(digits, (i - start + 1) as nat);
                }
            }
            return None;
        }
        value = value * 10 + digit;
        i = i + 1;
        proof {
            assert forall|j: int| 0 <= j < longer.len() implies 0x30 <= #[trigger] longer[j]
                <= 0x39 by {
                if j < seen.len() {
                    assert(longer[j] == seen[j]);
                }
            }
        }
    }
    proof {
        assert(digits.take(i - start) =~= digits);
    }
    Some(value)
}

/// `n` in base ten, as ASCII digits.
pub open spec fn decimal_digits(n: nat) -> Seq<u8>
    decreases n,
{
    if n < 10 {
        seq![(0x30 + n) as u8]
    } else {
        decimal_digits(n / 10).push((0x30 + n % 10) as u8)
    }
}

/// The digits of a number are digits, and they spell the number.
pub proof fn lemma_decimal_digits(n: nat)
    ensures
        decimal_digits(n).len() > 0,
        is_digits(decimal_digits(n)),
        decimal_value(decimal_digits(n)) == n,
    decreases n,
{
    let digits = decimal_digits(n);
    if n < 10 {
        assert(digits.drop_last() =~= Seq::<u8>::empty());
        assert(decimal_value(digits.drop_last()) == 0);
    } else {
        lemma_decimal_digits(n / 10);
        let head = decimal_digits(n / 10);
        assert(digits.drop_last() =~= head);
        assert forall|i: int| 0 <= i < digits.len() implies 0x30 <= #[trigger] digits[i]
            <= 0x39 by {
            if i < head.len() {
                assert(digits[i] == head[i]);
            }
        }
    }
}

/// Appends `n` in base ten, as ASCII digits.
pub fn write_decimal(destination: &mut Vec<u8>, n: u64)
    ensures
        final(destination)@ == old(destination)@ + decimal_digits(n as nat),
    decreases n,
{
    if n >= 10 {
        write_decimal(destination, n / 10);
    }
    destination.push(0x30 + (n % 10) as u8);
    assert(destination@ =~= old(destination)@ + decimal_digits(n as nat));
}

/// The ASCII form of one hexadecimal digit, in upper case.
pub open spec fn hex_digit(d: nat) -> u8 {
    if d < 10 {
        (0x30 + d) as u8
    } else {
        (0x41 + d - 10) as u8
    }
}

/// `n` in base sixteen, as ASCII digits in upper case.
pub open spec fn hex_digits(n: nat) -> Seq<u8>
    decreases n,
{
    if n < 16 {
        seq![hex_digit(n)]
    } else {
        hex_digits(n / 16).push(hex_digit(n % 16))
    }
}

/// `n` in base sixteen, with a leading zero where it has one digit only.
pub open spec fn hex_pair(n: nat) -> Seq<u8> {
    if n < 16 {
        seq![0x30u8] + hex_digits(n)
    } else {
        hex_digits(n)
    }
}

/// The digits of a number in base sixteen are ASCII.
pub proof fn lemma_hex_digits_ascii(n: nat)
    ensures
        forall|i: int| 0 <= i < hex_digits(n).len() ==> hex_digits(n)[i] < 128,
    decreases n,
{
    if n >= 16 {
        lemma_hex_digits_ascii(n / 16);
        let head = hex_digits(n / 16);
        assert forall|i: int| 0 <= i < hex_digits(n).len() implies hex_digits(n)[i] < 128 by {
            if i < head.len() {
                assert(hex_digits(n)[i] == head[i]);
            }
        }
    }
}

fn write_hex_digits(destination: &mut Vec<u8>, n: u32)
    ensures
        final(destination)@ == old(destination)@ + hex_digits(n as nat),
    decreases n,
{
    if n >= 16 {
        write_hex_digits(destination, n / 16);
    }
    let d = (n % 16) as u8;
    destination.push(if d < 10 { 0x30 + d } else { 0x41 + (d - 10) });
    assert(destination@ =~= old(destination)@ + hex_digits(n as nat));
}

/// Appends `n` in base sixteen, in upper case and two digits at least.
pub fn write_hex(destination: &mut Vec<u8>, n: u32)
    ensures
        final(destination)@ == old(destination)@ + hex_pair(n as nat),
{
    if n < 16 {
        destination.push(0x30);
    }
    write_hex_digits(destination, n);
    assert(destination@ =~= old(destination)@ + hex_pair(n as nat));
}

} // verus!
