//! Decimal numbers and the two boolean words, as they stand in the text.

use vstd::prelude::*;
use vstd::string::StringExecFns;
use crate::bytes::{is_digit, ByteClass};

verus! {

/// The bytes of the word `true`.
pub open spec fn true_word() -> Seq<u8> {
    seq![0x74u8, 0x72u8, 0x75u8, 0x65u8]
}

/// The bytes of the word `false`.
pub open spec fn false_word() -> Seq<u8> {
    seq![0x66u8, 0x61u8, 0x6cu8, 0x73u8, 0x65u8]
}

/// Whether every byte of `word` is a decimal digit.
pub open spec fn all_digits(word: Seq<u8>) -> bool {
    forall|i: int| 0 <= i < word.len() ==> is_digit(#[trigger] word[i])
}

/// The number that one decimal digit stands for.
pub open spec fn digit_value(b: u8) -> nat {
    if is_digit(b) {
        (b - 0x30) as nat
    } else {
        0
    }
}

/// The number that a word of decimal digits denotes; leading zeros count
/// for nothing, and the empty word denotes 0.
pub open spec fn decimal_value(digits: Seq<u8>) -> nat
    decreases digits.len(),
{
    if digits.len() == 0 {
        0
    } else {
        decimal_value(digits.drop_last()) * 10 + digit_value(digits.last())
    }
}

/// A prefix of a word of digits denotes no more than the word.
pub proof fn lemma_decimal_prefix(digits: Seq<u8>, k: int)
    requires
        0 <= k <= digits.len(),
    ensures
        decimal_value(digits.take(k)) <= decimal_value(digits),
    decreases digits.len(),
{
    if k == digits.len() {
        assert(digits.take(k) =~= digits);
    } else {
        lemma_decimal_prefix(digits.drop_last(), k);
        assert(digits.drop_last().take(k) =~= digits.take(k));
    }
}

/// Tests whether the bytes from `start` to `end` spell `true`.
pub fn is_true_word(bytes: &[u8], start: usize, end: usize) -> (r: bool)
    requires
        start <= end <= bytes@.len(),
    ensures
        r == (bytes@.subrange(start as int, end as int) == true_word()),
{
    let ghost word = bytes@.subrange(start as int, end as int);
    if end - start != 4 {
        assert(true_word().len() == 4);
        return false;
    }
    let r = bytes[start] == 0x74 && bytes[start + 1] == 0x72 && bytes[start + 2] == 0x75
        && bytes[start + 3] == 0x65;
    proof {
        if r {
            assert(word =~= true_word());
        }
    }
    r
}

/// Tests whether the bytes from `start` to `end` spell `false`.
pub fn is_false_word(bytes: &[u8], start: usize, end: usize) -> (r: bool)
    requires
        start <= end <= bytes@.len(),
    ensures
        r == (bytes@.subrange(start as int, end as int) == false_word()),
{
    let ghost word = bytes@.subrange(start as int, end as int);
    if end - start != 5 {
        assert(false_word().len() == 5);
        return false;
    }
    let r = bytes[start] == 0x66 && bytes[start + 1] == 0x61 && bytes[start + 2] == 0x6c
        && bytes[start + 3] == 0x73 && bytes[start + 4] == 0x65;
    proof {
        if r {
            assert(word =~= false_word());
        }
    }
    r
}

/// Tests whether every byte from `start` to `end` is a decimal digit.
pub fn is_digit_word(bytes: &[u8], start: usize, end: usize) -> (r: bool)
    requires
        start <= end <= bytes@.len(),
    ensures
        r == all_digits(bytes@.subrange(start as int, end as int)),
{
    let ghost word = bytes@.subrange(start as int, end as int);
    let mut i: usize = start;
    while i < end
        invariant
            start <= i <= end <= bytes@.len(),
            word == bytes@.subrange(start as int, end as int),
            forall|k: int| 0 <= k < i - start ==> is_digit(#[trigger] word[k]),
        decreases end - i,
    {
        if !ByteClass::Digit.contains(bytes[i]) {
            assert(word[i - start] == bytes@[i as int]);
            return false;
        }
        i += 1;
    }
    true
}

/// Reads the number that the digits from `start` to `end` denote, if it
/// fits in 64 bits.
pub fn read_decimal(bytes: &[u8], start: usize, end: usize) -> (r: Option<u64>)
    requires
        start <= end <= bytes@.len(),
        all_digits(bytes@.subrange(start as int, end as int)),
    ensures
        r == if decimal_value(bytes@.subrange(start as int, end as int)) <= u64::MAX {
            Some(decimal_value(bytes@.subrange(start as int, end as int)) as u64)
        } else {
            None
        },
{
    let ghost word = bytes@.subrange(start as int, end as int);
    let mut acc: u64 = 0;
    let mut i: usize = start;
    while i < end
        invariant
            start <= i <= end <= bytes@.len(),
            word == bytes@.subrange(start as int, end as int),
            all_digits(word),
            acc == decimal_value(word.take(i - start)),
        decreases end - i,
    {
        let b = bytes[i];
        proof {
            let next = word.take(i - start + 1);
            assert(word[i - start] == b);
            assert(next.drop_last() =~= word.take(i - start));
            lemma_decimal_prefix(word, i - start + 1);
        }
        let d: u64 = (b - 0x30) as u64;
        if acc > (u64::MAX - d) / 10 {
            return None;
        }
        acc = acc * 10 + d;
        i += 1;
    }
    assert(word.take(end - start) =~= word);
    Some(acc)
}

/// The character of a decimal digit.
pub open spec fn digit_char(d: nat) -> char {
    if d == 0 {
        '0'
    } else if d == 1 {
        '1'
    } else if d == 2 {
        '2'
    } else if d == 3 {
        '3'
    } else if d == 4 {
        '4'
    } else if d == 5 {
        '5'
    } else if d == 6 {
        '6'
    } else if d == 7 {
        '7'
    } else if d == 8 {
        '8'
    } else {
        '9'
    }
}

/// A number in decimal digits, without leading zeros.
pub open spec fn decimal_text(n: nat) -> Seq<char>
    decreases n,
{
    if n < 10 {
        seq![digit_char(n)]
    } else {
        decimal_text(n / 10).push(digit_char(n % 10))
    }
}

/// The text of one decimal digit.
fn digit_text(d: usize) -> (r: &'static str)
    requires
        d < 10,
    ensures
        r@ == seq![digit_char(d as nat)],
{
    let r = match d {
        0 => "0",
        1 => "1",
        2 => "2",
        3 => "3",
        4 => "4",
        5 => "5",
        6 => "6",
        7 => "7",
        8 => "8",
        _ => "9",
    };
    proof {
        reveal_strlit("0");
        reveal_strlit("1");
        reveal_strlit("2");
        reveal_strlit("3");
        reveal_strlit("4");
        reveal_strlit("5");
        reveal_strlit("6");
        reveal_strlit("7");
        reveal_strlit("8");
        reveal_strlit("9");
    }
    r
}

/// Writes a number in decimal digits, without leading zeros.
pub fn write_decimal(n: usize) -> (r: String)
    ensures
        r@ == decimal_text(n as nat),
    decreases n,
{
    if n < 10 {
        String::from_str(digit_text(n))
    } else {
        let mut r = write_decimal(n / 10);
        r.append(digit_text(n % 10));
        r
    }
}

} // verus!
