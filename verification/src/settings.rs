use crate::decode::{code_of, digit_value, is_digit};
use crate::error::StoreError;
use crate::json::digit_char;
use crate::store::DEFAULT_MAX_ITEMS;
use vstd::prelude::*;

verus! {

/// The number that a run of decimal digits stands for.
pub open spec fn decimal_value(digits: Seq<char>) -> nat
    decreases digits.len(),
{
    if digits.len() == 0 {
        0
    } else {
        (decimal_value(digits.drop_last()) * 10 + digit_value(digits.last())) as nat
    }
}

/// One or more decimal digits.
pub open spec fn is_number(digits: Seq<char>) -> bool {
    digits.len() > 0 && forall|i: int| 0 <= i < digits.len() ==> is_digit(digits[i])
}

/// The digits of a recorded capacity: the text without a leading plus sign.
pub open spec fn unsigned_part(text: Seq<char>) -> Seq<char> {
    if text.len() > 0 && text[0] == '+' {
        text.skip(1)
    } else {
        text
    }
}

/// The capacity that `text` records: a decimal number that fits 32 bits,
/// with or without a plus sign in front.
pub open spec fn setting_value(text: Seq<char>) -> Option<u32> {
    if is_number(unsigned_part(text)) && decimal_value(unsigned_part(text)) <= u32::MAX {
        Some(decimal_value(unsigned_part(text)) as u32)
    } else {
        None
    }
}

/// How a capacity is recorded: in decimal, without sign or leading zeros.
pub open spec fn setting_text(n: nat) -> Seq<char>
    decreases n,
{
    if n < 10 {
        seq![digit_char(n as int)]
    } else {
        setting_text(n / 10).push(digit_char((n % 10) as int))
    }
}

/// The capacity in force when `setting` is what the record holds: the
/// default where nothing was recorded, the recorded number otherwise.
pub open spec fn capacity_of(setting: Option<Seq<char>>) -> Result<u32, StoreError> {
    match setting {
        None => Ok(DEFAULT_MAX_ITEMS),
        Some(text) => match setting_value(text) {
            Some(n) => Ok(n),
            None => Err(StoreError::CorruptRecord),
        },
    }
}

/// A longer run of digits stands for a number that is no smaller.
proof fn lemma_decimal_value_grows(digits: Seq<char>, k: int)
    requires
        0 <= k <= digits.len(),
        forall|i: int| 0 <= i < digits.len() ==> is_digit(digits[i]),
    ensures
        decimal_value(digits.take(k)) <= decimal_value(digits),
    decreases digits.len() - k,
{
    if k < digits.len() {
        lemma_decimal_value_grows(digits, k + 1);
        assert(digits.take(k + 1).drop_last() =~= digits.take(k));
    } else {
        assert(digits.take(k) =~= digits);
    }
}

/// Reads a recorded capacity.
pub fn parse_max_items(text: &str) -> (result: Result<u32, StoreError>)
    ensures
        result == capacity_of(Some(text@)),
{
    broadcast use vstd::string::group_string_axioms;
    let ghost digits = unsigned_part(text@);
    let ghost lead: int = text@.len() - digits.len();
    let mut value: u64 = 0;
    let mut seen: bool = false;
    let mut first: bool = true;
    for c in it: text.chars()
        invariant
            it.seq() == text@,
            it.index() <= text@.len(),
            digits == unsigned_part(text@),
            lead == text@.len() - digits.len(),
            seen == (it.index() > lead),
            first == (it.index() == 0),
            it.index() >= lead ==> value == decimal_value(digits.take(it.index() - lead)),
            it.index() < lead ==> value == 0,
            value <= u32::MAX,
            forall|i: int| 0 <= i < it.index() - lead ==> is_digit(digits[i]),
    {
        let code: u32 = code_of(c);
        let ghost k: int = it.index() - lead;
        assert(c == text@[it.index() as int]);
        if first && c == '+' {
            assert(lead == 1);
            assert(digits.take(0) =~= Seq::<char>::empty());
            first = false;
        } else if 48 <= code && code <= 57 {
            assert(digits[k] == c);
            assert(digits.take(k + 1).drop_last() =~= digits.take(k));
            let next: u64 = value * 10 + (code - 48) as u64;
            if next > 0xffff_ffff {
                proof {
                    if is_number(digits) {
                        lemma_decimal_value_grows(digits, k + 1);
                    }
                }
                return Err(StoreError::CorruptRecord);
            }
            value = next;
            seen = true;
            first = false;
        } else {
            assert(digits[k] == c);
            assert(!is_digit(digits[k]));
            return Err(StoreError::CorruptRecord);
        }
    }
    assert(digits.take(digits.len() as int) =~= digits);
    if seen {
        Ok(value as u32)
    } else {
        Err(StoreError::CorruptRecord)
    }
}

/// The capacity in force when `setting` is what the record holds.
pub fn max_items_from(setting: Option<&str>) -> (result: Result<u32, StoreError>)
    ensures
        result == capacity_of(
            match setting {
                Some(text) => Some(text@),
                None => None,
            },
        ),
{
    match setting {
        Some(text) => parse_max_items(text),
        None => Ok(DEFAULT_MAX_ITEMS),
    }
}

/// Writes a capacity as it is recorded.
pub fn render_max_items(max_items: u32) -> (text: String)
    ensures
        text@ == setting_text(max_items as nat),
{
    let mut digits: Vec<char> = Vec::new();
    let mut rest: u32 = max_items;
    while rest >= 10
        invariant
            setting_text(max_items as nat) == setting_text(rest as nat) + digits@.reverse(),
        decreases rest,
    {
        let d: u8 = (rest % 10) as u8;
        let ghost before = digits@;
        digits.push((48u8 + d) as char);
        assert(setting_text(rest as nat) + before.reverse() =~= setting_text((rest / 10) as nat)
            + digits@.reverse());
        rest = rest / 10;
    }
    let mut text = String::new();
    text.push((48u8 + rest as u8) as char);
    let mut i: usize = digits.len();
    while i > 0
        invariant
            i <= digits@.len(),
            text@ == setting_text(rest as nat) + digits@.reverse().take(digits@.len() - i),
        decreases i,
    {
        i -= 1;
        text.push(digits[i]);
        assert(digits@.reverse().take(digits@.len() - i) =~= digits@.reverse().take(
            digits@.len() - i - 1,
        ).push(digits@[i as int]));
    }
    assert(digits@.reverse().take(digits@.len() as int) =~= digits@.reverse());
    text
}

/// The recorded form of a number is a run of digits that stands for it.
pub proof fn lemma_setting_text(n: nat)
    ensures
        is_number(setting_text(n)),
        decimal_value(setting_text(n)) == n,
    decreases n,
{
    let text = setting_text(n);
    if n < 10 {
        assert(text.drop_last() =~= Seq::<char>::empty());
        assert(decimal_value(text.drop_last()) == 0);
    } else {
        lemma_setting_text(n / 10);
        assert(text.drop_last() =~= setting_text(n / 10));
        assert forall|i: int| 0 <= i < text.len() implies is_digit(text[i]) by {
            if i < text.len() - 1 {
                assert(text[i] == setting_text(n / 10)[i]);
            }
        }
    }
}

} // verus!
