//! The text form of a block: a dotted-quad address, a `/` and a decimal prefix length.

use vstd::prelude::*;
use crate::cidr::Prefix;
use crate::errors::NetworkParseError;

verus! {

/// The fields of `text` that `sep` separates. There is one field more than there are
/// separators, and a field may be empty.
pub open spec fn split(text: Seq<char>, sep: char) -> Seq<Seq<char>>
    decreases text.len(),
{
    if text.len() == 0 {
        seq![Seq::<char>::empty()]
    } else {
        let before = split(text.drop_last(), sep);
        if text.last() == sep {
            before.push(Seq::<char>::empty())
        } else {
            before.update(before.len() - 1, before.last().push(text.last()))
        }
    }
}

/// Whether `c` is one of the ten decimal digits.
pub open spec fn is_digit(c: char) -> bool {
    '0' <= c && c <= '9'
}

/// The number that the digit `c` stands for.
pub open spec fn digit_value(c: char) -> nat {
    if is_digit(c) {
        (c as u32 - '0' as u32) as nat
    } else {
        0
    }
}

/// Whether `text` holds decimal digits only.
pub open spec fn all_digits(text: Seq<char>) -> bool {
    forall|i: int| 0 <= i < text.len() ==> is_digit(#[trigger] text[i])
}

/// The number that `digits` denotes in base ten.
pub open spec fn decimal(digits: Seq<char>) -> nat
    decreases digits.len(),
{
    if digits.len() == 0 {
        0
    } else {
        decimal(digits.drop_last()) * 10 + digit_value(digits.last())
    }
}

/// The byte that `text` denotes as a part of a dotted-quad address: one to three digits,
/// with no zero in front of another digit, and a value of 255 at most.
pub open spec fn octet(text: Seq<char>) -> Option<u8> {
    if 1 <= text.len() <= 3 && all_digits(text) && (text.len() == 1 || text[0] != '0') && decimal(
        text,
    ) <= 255 {
        Some(decimal(text) as u8)
    } else {
        None
    }
}

/// The address that `text` denotes: four bytes separated by three dots, the first byte
/// being the most significant one.
pub open spec fn address(text: Seq<char>) -> Option<u32> {
    let parts = split(text, '.');
    if parts.len() == 4 && octet(parts[0]) is Some && octet(parts[1]) is Some && octet(
        parts[2],
    ) is Some && octet(parts[3]) is Some {
        Some(
            (((octet(parts[0])->0 * 256 + octet(parts[1])->0) * 256 + octet(parts[2])->0) * 256
                + octet(parts[3])->0) as u32,
        )
    } else {
        None
    }
}

/// The number that `text` denotes as a prefix length: one digit or more, which may follow
/// one `+`. The number may be as large as one likes.
pub open spec fn length(text: Seq<char>) -> Option<nat> {
    let digits = if text.len() > 0 && text[0] == '+' {
        text.skip(1)
    } else {
        text
    };
    if digits.len() >= 1 && all_digits(digits) {
        Some(decimal(digits))
    } else {
        None
    }
}

/// What reading `text` as a block gives: the block, or the first thing that is wrong with
/// the text, in this order: its shape, its address, its length as a number, and the
/// address and the length as a block. A length above 32 is wrong in the last way.
pub open spec fn parsed(text: Seq<char>) -> Result<Prefix, NetworkParseError> {
    let fields = split(text, '/');
    if fields.len() != 2 {
        Err(NetworkParseError::CidrParseError)
    } else if address(fields[0]) is None {
        Err(NetworkParseError::AddrParseError)
    } else if length(fields[1]) is None {
        Err(NetworkParseError::ParseIntError)
    } else {
        let len = length(fields[1])->0;
        let block = Prefix { addr: address(fields[0])->0, len: len as u8 };
        if len <= 32 && block.wf() {
            Ok(block)
        } else {
            Err(NetworkParseError::NetworkLengthError)
        }
    }
}

/// `n`, or `cap` where `n` exceeds it.
pub open spec fn at_most(n: nat, cap: u32) -> u32 {
    if n <= cap {
        n as u32
    } else {
        cap
    }
}

/// The contents of each of `fields`.
pub(crate) open spec fn views(fields: Seq<Vec<char>>) -> Seq<Seq<char>> {
    Seq::new(fields.len(), |i: int| fields[i]@)
}

/// The characters of `text`.
pub(crate) fn to_chars(text: &str) -> (chars: Vec<char>)
    ensures
        chars@ == text@,
{
    let mut chars: Vec<char> = Vec::new();
    for c in it: text.chars()
        invariant
            chars@ == it.seq().take(it.index() as int),
    {
        chars.push(c);
    }
    chars
}

/// Cuts `text` at each `sep`.
pub(crate) fn split_on(text: &Vec<char>, sep: char) -> (fields: Vec<Vec<char>>)
    ensures
        views(fields@) == split(text@, sep),
{
    let mut fields: Vec<Vec<char>> = Vec::new();
    let mut current: Vec<char> = Vec::new();
    let mut i: usize = 0;
    while i < text.len()
        invariant
            i <= text.len(),
            views(fields@).push(current@) == split(text@.take(i as int), sep),
        decreases text.len() - i,
    {
        let c = text[i];
        proof {
            assert(text@.take(i + 1).drop_last() =~= text@.take(i as int));
        }
        if c == sep {
            let ghost closed = views(fields@).push(current@);
            fields.push(current);
            current = Vec::new();
            assert(views(fields@) =~= closed);
        } else {
            let ghost open = current@;
            let ghost before = views(fields@).push(open);
            current.push(c);
            assert(views(fields@).push(current@) =~= before.update(
                before.len() - 1,
                before.last().push(c),
            ));
        }
        i = i + 1;
    }
    let ghost all = views(fields@).push(current@);
    fields.push(current);
    assert(views(fields@) =~= all);
    assert(text@.take(text.len() as int) =~= text@);
    fields
}

/// Whether `c` is a decimal digit.
fn is_decimal_digit(c: char) -> (b: bool)
    ensures
        b == is_digit(c),
{
    c >= '0' && c <= '9'
}

/// Reads the decimal digits that `text` holds from `start` on, to the last of them. Where
/// their value exceeds `cap`, gives `cap`.
fn read_digits(text: &Vec<char>, start: usize, cap: u32) -> (value: Option<u32>)
    requires
        start <= text.len(),
        cap <= 0xffff,
    ensures
        value == if all_digits(text@.skip(start as int)) {
            Some(at_most(decimal(text@.skip(start as int)), cap))
        } else {
            None
        },
{
    let ghost digits = text@.skip(start as int);
    let mut value: u32 = 0;
    let mut i: usize = start;
    while i < text.len()
        invariant
            start <= i <= text.len(),
            cap <= 0xffff,
            digits == text@.skip(start as int),
            all_digits(digits.take(i - start)),
            value == at_most(decimal(digits.take(i - start)), cap),
        decreases text.len() - i,
    {
        let c = text[i];
        assert(c == digits[i - start]);
        if !is_decimal_digit(c) {
            return None;
        }
        proof {
            assert(digits.take(i - start + 1).drop_last() =~= digits.take(i - start));
            assert forall|j: int| 0 <= j < i - start + 1 implies is_digit(
                #[trigger] digits.take(i - start + 1)[j],
            ) by {
                if j < i - start {
                    assert(digits.take(i - start)[j] == digits[j]);
                }
            }
        }
        value = value * 10 + (c as u32 - '0' as u32);
        if value > cap {
            value = cap;
        }
        i = i + 1;
    }
    proof {
        assert(digits.take(digits.len() as int) =~= digits);
    }
    Some(value)
}

/// Reads one part of a dotted-quad address.
fn parse_octet(text: &Vec<char>) -> (value: Option<u8>)
    ensures
        value == octet(text@),
{
    if text.len() == 0 || text.len() > 3 {
        return None;
    }
    if text.len() > 1 && text[0] == '0' {
        return None;
    }
    assert(text@.skip(0) =~= text@);
    match read_digits(text, 0, 256) {
        Some(number) => if number <= 255 {
            Some(number as u8)
        } else {
            None
        },
        None => None,
    }
}

/// Reads a dotted-quad address.
pub(crate) fn parse_addr(text: &Vec<char>) -> (addr: Option<u32>)
    ensures
        addr == address(text@),
{
    let parts = split_on(text, '.');
    if parts.len() != 4 {
        return None;
    }
    assert(views(parts@)[0] == parts[0]@ && views(parts@)[1] == parts[1]@ && views(parts@)[2]
        == parts[2]@ && views(parts@)[3] == parts[3]@);
    let a = match parse_octet(&parts[0]) {
        Some(byte) => byte,
        None => return None,
    };
    let b = match parse_octet(&parts[1]) {
        Some(byte) => byte,
        None => return None,
    };
    let c = match parse_octet(&parts[2]) {
        Some(byte) => byte,
        None => return None,
    };
    let d = match parse_octet(&parts[3]) {
        Some(byte) => byte,
        None => return None,
    };
    Some(((a as u32 * 256 + b as u32) * 256 + c as u32) * 256 + d as u32)
}

/// Reads a prefix length. A length above 255 is given as 255, which is as far out of
/// range as the length itself.
pub(crate) fn parse_len(text: &Vec<char>) -> (len: Option<u8>)
    ensures
        len == match length(text@) {
            Some(number) => Some(at_most(number, 255) as u8),
            None => None,
        },
{
    let start: usize = if text.len() > 0 && text[0] == '+' {
        1
    } else {
        0
    };
    if start == text.len() {
        return None;
    }
    assert(text@.skip(0) =~= text@);
    match read_digits(text, start, 255) {
        Some(number) => Some(number as u8),
        None => None,
    }
}

} // verus!
