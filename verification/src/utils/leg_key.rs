//! The text form of a leg between two stores, `<from>-<to>` in decimal
//! digits, under which travel times are kept in files.

use vstd::prelude::*;
use crate::models::StoreId;

verus! {

/// The byte of the minus sign that parts the two store ids.
pub const DASH: u8 = 45;

/// The byte of the plus sign that may stand before a number.
pub const PLUS: u8 = 43;

/// The byte of the digit zero.
pub const ZERO: u8 = 48;

/// Whether `b` is the byte of a decimal digit.
pub open spec fn is_digit(b: u8) -> bool {
    48 <= b <= 57
}

/// Whether every byte of `s` is a decimal digit.
pub open spec fn all_digits(s: Seq<u8>) -> bool {
    forall|i: int| 0 <= i < s.len() ==> is_digit(#[trigger] s[i])
}

/// The number that the digits of `s` stand for.
pub open spec fn digits_value(s: Seq<u8>) -> nat
    decreases s.len(),
{
    if s.len() == 0 {
        0
    } else {
        digits_value(s.drop_last()) * 10 + (s.last() - 48) as nat
    }
}

/// The digits of a number: one or more digits, with or without a plus
/// sign before them.
pub open spec fn digits_of_number(s: Seq<u8>) -> Seq<u8> {
    if s.len() > 0 && s[0] == 43 {
        s.skip(1)
    } else {
        s
    }
}

/// The store id that `s` stands for, if it stands for one: one or more
/// digits, with or without a plus sign before them, of a value that fits.
pub open spec fn number_of(s: Seq<u8>) -> Option<StoreId> {
    let digits = digits_of_number(s);
    if digits.len() > 0 && all_digits(digits) && digits_value(digits) <= u32::MAX {
        Some(digits_value(digits) as StoreId)
    } else {
        None
    }
}

/// Whether `at` is the place of the first minus sign of `s`.
pub open spec fn is_first_dash(s: Seq<u8>, at: int) -> bool {
    0 <= at < s.len() && s[at] == 45 && forall|j: int| 0 <= j < at ==> (#[trigger] s[j]) != 45
}

/// The leg that the text `s` stands for, if it stands for one: the text
/// before the first minus sign and the text behind it are store ids.
pub open spec fn leg_of_text(s: Seq<u8>) -> Option<(StoreId, StoreId)> {
    if exists|at: int| is_first_dash(s, at) {
        let at = choose|at: int| is_first_dash(s, at);
        match (number_of(s.take(at)), number_of(s.skip(at + 1))) {
            (Some(from), Some(to)) => Some((from, to)),
            _ => None,
        }
    } else {
        None
    }
}

/// The decimal digits of `n`, without leading zeros.
pub open spec fn decimal(n: nat) -> Seq<u8>
    decreases n,
{
    if n < 10 {
        seq![(48 + n) as u8]
    } else {
        decimal(n / 10).push((48 + n % 10) as u8)
    }
}

/// The text of the leg from `from` to `to`.
pub open spec fn text_of_leg(from: StoreId, to: StoreId) -> Seq<u8> {
    decimal(from as nat) + seq![45u8] + decimal(to as nat)
}

/// The digits of a number are digits, and they stand for the number.
pub proof fn lemma_decimal(n: nat)
    ensures
        decimal(n).len() > 0,
        all_digits(decimal(n)),
        digits_value(decimal(n)) == n,
    decreases n,
{
    if n < 10 {
        let s = decimal(n);
        assert(s.drop_last() =~= Seq::<u8>::empty());
        assert(digits_value(s.drop_last()) == 0);
    } else {
        lemma_decimal(n / 10);
        let front = decimal(n / 10);
        let s = decimal(n);
        assert(s.drop_last() =~= front);
        assert forall|i: int| 0 <= i < s.len() implies is_digit(#[trigger] s[i]) by {
            if i < front.len() {
                assert(s[i] == front[i]);
            }
        }
    }
}

/// There is one place of the first minus sign at most.
pub proof fn lemma_first_dash_unique(s: Seq<u8>, a: int, b: int)
    requires
        is_first_dash(s, a),
        is_first_dash(s, b),
    ensures
        a == b,
{
    if a < b {
        assert(s[a] != 45);
    } else if b < a {
        assert(s[b] != 45);
    }
}

/// The law of the text form: the text of a leg stands for that leg.
pub proof fn text_of_leg_is_read_back(from: StoreId, to: StoreId)
    ensures
        leg_of_text(text_of_leg(from, to)) == Some((from, to)),
{
    let first = decimal(from as nat);
    let second = decimal(to as nat);
    let text = text_of_leg(from, to);
    lemma_decimal(from as nat);
    lemma_decimal(to as nat);
    let at = first.len() as int;
    assert(is_first_dash(text, at)) by {
        assert(text[at] == 45);
        assert forall|j: int| 0 <= j < at implies (#[trigger] text[j]) != 45 by {
            assert(text[j] == first[j]);
            assert(is_digit(first[j]));
        }
    }
    let chosen = choose|k: int| is_first_dash(text, k);
    lemma_first_dash_unique(text, at, chosen);
    assert(text.take(at) =~= first);
    assert(text.skip(at + 1) =~= second);
    assert(is_digit(first[0]));
    assert(is_digit(second[0]));
    assert(digits_of_number(first) == first);
    assert(digits_of_number(second) == second);
}

/// More digits do not stand for a smaller number.
pub proof fn lemma_digits_value_grows(s: Seq<u8>, n: int)
    requires
        0 <= n <= s.len(),
        all_digits(s),
    ensures
        digits_value(s.take(n)) <= digits_value(s),
    decreases s.len(),
{
    if n == s.len() {
        assert(s.take(n) =~= s);
    } else {
        let front = s.drop_last();
        assert(all_digits(front)) by {
            assert forall|i: int| 0 <= i < front.len() implies is_digit(#[trigger] front[i]) by {
                assert(front[i] == s[i]);
            }
        }
        lemma_digits_value_grows(front, n);
        assert(front.take(n) =~= s.take(n));
        assert(is_digit(s[s.len() - 1]));
    }
}

/// The store id that the bytes stand for, if they stand for one.
pub fn parse_store_id(text: &[u8]) -> (r: Option<StoreId>)
    ensures
        r == number_of(text@),
{
    let start: usize = if text.len() > 0 && text[0] == PLUS {
        1
    } else {
        0
    };
    let ghost digits = digits_of_number(text@);
    assert(digits =~= text@.skip(start as int));
    if start == text.len() {
        return None;
    }
    let mut value: u64 = 0;
    let mut i: usize = start;
    assert(digits.take(0) =~= Seq::<u8>::empty());
    while i < text.len()
        invariant
            start <= i <= text.len(),
            start < text.len(),
            digits == text@.skip(start as int),
            digits == digits_of_number(text@),
            forall|k: int| 0 <= k < i - start ==> is_digit(#[trigger] digits[k]),
            value == digits_value(digits.take(i - start)),
            value <= u32::MAX,
        decreases text.len() - i,
    {
        let byte: u8 = text[i];
        proof {
            assert(digits[i - start] == byte);
            assert(digits.take(i - start + 1).drop_last() =~= digits.take(i - start));
            assert(digits.take(i - start + 1).last() == byte);
        }
        if byte < ZERO || byte > 57 {
            proof {
                assert(!is_digit(digits[i - start]));
            }
            return None;
        }
        value = value * 10 + (byte - ZERO) as u64;
        if value > u32::MAX as u64 {
            proof {
                if all_digits(digits) {
                    lemma_digits_value_grows(digits, i - start + 1);
                }
            }
            return None;
        }
        i += 1;
    }
    proof {
        assert(digits.take(digits.len() as int) =~= digits);
        assert(all_digits(digits));
    }
    Some(value as u32)
}

/// The leg that the bytes stand for, if they stand for one: a store id, a
/// minus sign and a store id.
pub fn parse_leg_key(text: &[u8]) -> (r: Option<(StoreId, StoreId)>)
    ensures
        r == leg_of_text(text@),
{
    let mut at: usize = 0;
    while at < text.len() && text[at] != DASH
        invariant
            at <= text.len(),
            forall|j: int| 0 <= j < at ==> (#[trigger] text@[j]) != 45,
        decreases text.len() - at,
    {
        at += 1;
    }
    if at == text.len() {
        proof {
            assert forall|k: int| !is_first_dash(text@, k) by {
                if is_first_dash(text@, k) {
                    assert(text@[k] != 45);
                }
            }
        }
        return None;
    }
    proof {
        assert(is_first_dash(text@, at as int));
        let chosen = choose|k: int| is_first_dash(text@, k);
        lemma_first_dash_unique(text@, at as int, chosen);
    }
    let before: Vec<u8> = copy_bytes(text, 0, at);
    let behind: Vec<u8> = copy_bytes(text, at + 1, text.len());
    match parse_store_id(before.as_slice()) {
        Some(from) => match parse_store_id(behind.as_slice()) {
            Some(to) => Some((from, to)),
            None => None,
        },
        None => None,
    }
}

/// The bytes of `text` from place `from` up to place `to`.
pub fn copy_bytes(text: &[u8], from: usize, to: usize) -> (r: Vec<u8>)
    requires
        from <= to <= text@.len(),
    ensures
        r@ == text@.subrange(from as int, to as int),
        from == 0 ==> r@ == text@.take(to as int),
        to == text@.len() ==> r@ == text@.skip(from as int),
{
    let mut copy: Vec<u8> = Vec::new();
    let mut i: usize = from;
    while i < to
        invariant
            from <= i <= to <= text@.len(),
            copy@ == text@.subrange(from as int, i as int),
        decreases to - i,
    {
        copy.push(text[i]);
        assert(copy@ =~= text@.subrange(from as int, i + 1));
        i += 1;
    }
    proof {
        assert(text@.subrange(0, to as int) =~= text@.take(to as int));
        assert(text@.subrange(from as int, text@.len() as int) =~= text@.skip(from as int));
    }
    copy
}

/// Adds the decimal digits of `id` to `text`.
pub fn push_decimal(text: &mut Vec<u8>, id: StoreId)
    ensures
        final(text)@ == old(text)@ + decimal(id as nat),
{
    let mut backwards: Vec<u8> = Vec::new();
    let mut rest: u32 = id;
    while rest >= 10
        invariant
            decimal(id as nat) == decimal(rest as nat) + backwards@.reverse(),
        decreases rest,
    {
        let ghost before = backwards@;
        backwards.push(ZERO + (rest % 10) as u8);
        proof {
            assert(backwards@.reverse() =~= seq![(48 + rest % 10) as u8] + before.reverse());
            assert(decimal(rest as nat) == decimal((rest / 10) as nat).push(
                (48 + rest % 10) as u8,
            ));
            assert(decimal(id as nat) =~= decimal((rest / 10) as nat) + backwards@.reverse());
        }
        rest = rest / 10;
    }
    text.push(ZERO + rest as u8);
    let ghost begun = text@;
    let mut i: usize = backwards.len();
    assert(backwards@.reverse().take(0) =~= Seq::<u8>::empty());
    while i > 0
        invariant
            i <= backwards.len(),
            text@ == begun + backwards@.reverse().take(backwards.len() - i),
        decreases i,
    {
        i -= 1;
        text.push(backwards[i]);
        proof {
            let turned = backwards@.reverse();
            assert(turned[backwards.len() - 1 - i] == backwards@[i as int]);
            assert(text@ =~= begun + turned.take(backwards.len() - i));
        }
    }
    proof {
        let turned = backwards@.reverse();
        assert(turned.take(backwards.len() as int) =~= turned);
        assert(begun =~= old(text)@ + seq![(48 + rest) as u8]);
        assert(decimal(rest as nat) =~= seq![(48 + rest) as u8]);
        assert(text@ =~= old(text)@ + decimal(id as nat));
    }
}

/// The text of the leg from `from` to `to`: the two ids in decimal digits
/// with a minus sign between them.
pub fn leg_key(from: StoreId, to: StoreId) -> (text: Vec<u8>)
    ensures
        text@ == text_of_leg(from, to),
        leg_of_text(text@) == Some((from, to)),
{
    let mut text: Vec<u8> = Vec::new();
    push_decimal(&mut text, from);
    text.push(DASH);
    push_decimal(&mut text, to);
    proof {
        assert(text@ =~= text_of_leg(from, to));
        text_of_leg_is_read_back(from, to);
    }
    text
}

} // verus!
