use crate::error::StoreError;
use crate::event::{Data, DataView, Event, Item};
use crate::json::{
    closing, data_key, event_key, event_of_json, has_short_escape, is_event_json, item_key, type_key,
};
use crate::roundtrip::lemma_parse_event_is_inverse;
use vstd::prelude::*;

verus! {

/// `c` is a decimal digit.
pub open spec fn is_digit(c: char) -> bool {
    48 <= c as int <= 57
}

/// The number that the decimal digit `c` stands for.
pub open spec fn digit_value(c: char) -> int {
    c as int - 48
}

/// `c` is a lower-case hexadecimal digit.
pub(crate) open spec fn is_hex(c: char) -> bool {
    is_digit(c) || 97 <= c as int <= 102
}

/// The number that the hexadecimal digit `c` stands for.
pub(crate) open spec fn hex_value(c: char) -> int {
    if is_digit(c) {
        c as int - 48
    } else {
        c as int - 87
    }
}

/// What is left of `s` behind the literal `lit`, if `s` starts with it.
pub(crate) open spec fn strip(s: Seq<char>, lit: Seq<char>) -> Option<Seq<char>> {
    if lit.len() <= s.len() && s.take(lit.len() as int) == lit {
        Some(s.skip(lit.len() as int))
    } else {
        None
    }
}

/// Reads a byte in decimal from the front of `s`: up to three digits, as
/// many as there are, without a leading zero and not above 255.
pub(crate) open spec fn parse_byte(s: Seq<char>) -> Option<(u8, Seq<char>)> {
    if s.len() == 0 || !is_digit(s[0]) {
        None
    } else if s[0] == '0' || s.len() == 1 || !is_digit(s[1]) {
        Some((digit_value(s[0]) as u8, s.skip(1)))
    } else if s.len() == 2 || !is_digit(s[2]) {
        Some(((10 * digit_value(s[0]) + digit_value(s[1])) as u8, s.skip(2)))
    } else if 100 * digit_value(s[0]) + 10 * digit_value(s[1]) + digit_value(s[2]) <= 255 {
        Some(
            ((100 * digit_value(s[0]) + 10 * digit_value(s[1]) + digit_value(s[2])) as u8, s.skip(3)),
        )
    } else {
        None
    }
}

/// Reads one character of a string from the front of `s`, and says how many
/// characters of `s` stand for it. Only the escapes that the encoding
/// writes are read.
pub(crate) open spec fn unescape(s: Seq<char>) -> Option<(char, int)> {
    if s.len() == 0 {
        None
    } else if s[0] == '\\' {
        if s.len() < 2 {
            None
        } else if s[1] == '"' {
            Some(('"', 2))
        } else if s[1] == '\\' {
            Some(('\\', 2))
        } else if s[1] == 'b' {
            Some((8 as char, 2))
        } else if s[1] == 'f' {
            Some((12 as char, 2))
        } else if s[1] == 'n' {
            Some((10 as char, 2))
        } else if s[1] == 'r' {
            Some((13 as char, 2))
        } else if s[1] == 't' {
            Some((9 as char, 2))
        } else if s[1] == 'u' && s.len() >= 6 && s[2] == '0' && s[3] == '0' && (s[4] == '0' || s[4]
            == '1') && is_hex(s[5]) && !has_short_escape(
            16 * digit_value(s[4]) + hex_value(s[5]),
        ) {
            Some(((16 * digit_value(s[4]) + hex_value(s[5])) as char, 6))
        } else {
            None
        }
    } else if (s[0] as int) < 32 || s[0] == '"' {
        None
    } else {
        Some((s[0], 1))
    }
}

/// Reads the characters of a string up to the closing quote.
pub(crate) open spec fn parse_chars(s: Seq<char>) -> Option<(Seq<char>, Seq<char>)>
    decreases s.len(),
{
    if s.len() == 0 {
        None
    } else if s[0] == '"' {
        Some((Seq::empty(), s.skip(1)))
    } else {
        match unescape(s) {
            Some((c, n)) => if 0 < n <= s.len() {
                match parse_chars(s.skip(n)) {
                    Some((cs, rest)) => Some((seq![c] + cs, rest)),
                    None => None,
                }
            } else {
                None
            },
            None => None,
        }
    }
}

/// Reads a string between quotes.
pub(crate) open spec fn parse_quoted(s: Seq<char>) -> Option<(Seq<char>, Seq<char>)> {
    if s.len() > 0 && s[0] == '"' {
        parse_chars(s.skip(1))
    } else {
        None
    }
}

/// Reads one or more elements separated by commas, up to the closing bracket.
pub(crate) open spec fn parse_seq<T>(elem: spec_fn(Seq<char>) -> Option<(T, Seq<char>)>, s: Seq<char>) -> Option<
    (Seq<T>, Seq<char>),
>
    decreases s.len(),
{
    match elem(s) {
        Some((v, rest)) => if rest.len() < s.len() && rest.len() > 0 && rest[0] == ',' {
            match parse_seq(elem, rest.skip(1)) {
                Some((vs, after)) => Some((seq![v] + vs, after)),
                None => None,
            }
        } else if rest.len() > 0 && rest[0] == ']' {
            Some((seq![v], rest.skip(1)))
        } else {
            None
        },
        None => None,
    }
}

/// Reads elements separated by commas between square brackets.
pub(crate) open spec fn parse_array<T>(elem: spec_fn(Seq<char>) -> Option<(T, Seq<char>)>, s: Seq<char>) -> Option<
    (Seq<T>, Seq<char>),
> {
    if s.len() >= 2 && s[0] == '[' && s[1] == ']' {
        Some((Seq::empty(), s.skip(2)))
    } else if s.len() >= 1 && s[0] == '[' {
        parse_seq(elem, s.skip(1))
    } else {
        None
    }
}

/// `parse_byte` as a value.
pub(crate) open spec fn byte_dec() -> spec_fn(Seq<char>) -> Option<(u8, Seq<char>)> {
    |s: Seq<char>| parse_byte(s)
}

/// Reads one entry.
pub(crate) open spec fn parse_data(s: Seq<char>) -> Option<(DataView, Seq<char>)> {
    match strip(s, type_key()) {
        Some(s1) => match parse_quoted(s1) {
            Some((type_tag, s2)) => match strip(s2, data_key()) {
                Some(s3) => match parse_array(byte_dec(), s3) {
                    Some((data, s4)) => match strip(s4, closing()) {
                        Some(s5) => Some((DataView { type_tag, data }, s5)),
                        None => None,
                    },
                    None => None,
                },
                None => None,
            },
            None => None,
        },
        None => None,
    }
}

/// `parse_data` as a value.
pub(crate) open spec fn data_dec() -> spec_fn(Seq<char>) -> Option<(DataView, Seq<char>)> {
    |s: Seq<char>| parse_data(s)
}

/// Reads one item.
pub(crate) open spec fn parse_item(s: Seq<char>) -> Option<(Seq<DataView>, Seq<char>)> {
    match strip(s, item_key()) {
        Some(s1) => match parse_array(data_dec(), s1) {
            Some((item, s2)) => match strip(s2, closing()) {
                Some(s3) => Some((item, s3)),
                None => None,
            },
            None => None,
        },
        None => None,
    }
}

/// `parse_item` as a value.
pub(crate) open spec fn item_dec() -> spec_fn(Seq<char>) -> Option<(Seq<DataView>, Seq<char>)> {
    |s: Seq<char>| parse_item(s)
}

/// Reads an event from the whole of `s`.
pub(crate) open spec fn parse_event(s: Seq<char>) -> Option<Seq<Seq<DataView>>> {
    match strip(s, event_key()) {
        Some(s1) => match parse_array(item_dec(), s1) {
            Some((event, s2)) => match strip(s2, closing()) {
                Some(s3) => if s3.len() == 0 {
                    Some(event)
                } else {
                    None
                },
                None => None,
            },
            None => None,
        },
        None => None,
    }
}

/// The elements read so far in front of what the rest of the text gives.
pub(crate) open spec fn prepend<T>(acc: Seq<T>, r: Option<(Seq<T>, Seq<char>)>) -> Option<(Seq<T>, Seq<char>)> {
    match r {
        Some((vs, rest)) => Some((acc + vs, rest)),
        None => None,
    }
}

/// With nothing read so far, the rest of the text gives the result.
proof fn lemma_prepend_empty<T>(r: Option<(Seq<T>, Seq<char>)>)
    ensures
        prepend(Seq::empty(), r) == r,
{
    match r {
        Some((vs, rest)) => {
            assert(Seq::<T>::empty() + vs =~= vs);
        },
        None => {},
    }
}

/// One more element read is one more element in front of the rest.
proof fn lemma_prepend_step<T>(acc: Seq<T>, v: T, r: Option<(Seq<T>, Seq<char>)>)
    ensures
        prepend(acc, prepend(seq![v], r)) == prepend(acc.push(v), r),
{
    match r {
        Some((vs, rest)) => {
            assert(acc + (seq![v] + vs) =~= acc.push(v) + vs);
        },
        None => {},
    }
}

/// Skipping twice is skipping once by the sum.
proof fn lemma_skip_skip(s: Seq<char>, i: int, n: int)
    requires
        0 <= i,
        0 <= n,
        i + n <= s.len(),
    ensures
        s.skip(i).skip(n) == s.skip(i + n),
{
    assert(s.skip(i).skip(n) =~= s.skip(i + n));
}

/// The code point of `c`.
pub(crate) fn code_of(c: char) -> (code: u32)
    ensures
        code as int == c as int,
{
    c as u32
}

/// Whether a decimal digit stands at `i`.
fn is_digit_at(chars: &Vec<char>, i: usize) -> (b: bool)
    ensures
        b == (i < chars@.len() && is_digit(chars@[i as int])),
{
    if i < chars.len() {
        let code: u32 = code_of(chars[i]);
        48 <= code && code <= 57
    } else {
        false
    }
}

/// Whether a lower-case hexadecimal digit stands at `i`.
fn is_hex_at(chars: &Vec<char>, i: usize) -> (b: bool)
    ensures
        b == (i < chars@.len() && is_hex(chars@[i as int])),
{
    if i < chars.len() {
        let code: u32 = code_of(chars[i]);
        (48 <= code && code <= 57) || (97 <= code && code <= 102)
    } else {
        false
    }
}

/// The number that the digit at `i` stands for.
fn value_at(chars: &Vec<char>, i: usize) -> (d: u32)
    requires
        i < chars@.len(),
        is_hex(chars@[i as int]),
    ensures
        d == hex_value(chars@[i as int]),
        is_digit(chars@[i as int]) ==> d == digit_value(chars@[i as int]),
{
    let code: u32 = code_of(chars[i]);
    if code <= 57 {
        code - 48
    } else {
        code - 87
    }
}

/// Reads a byte at `i`, and says where the text goes on.
fn read_byte(chars: &Vec<char>, i: usize) -> (out: Option<(u8, usize)>)
    requires
        i <= chars@.len(),
    ensures
        match out {
            Some((v, j)) => i < j <= chars@.len() && parse_byte(chars@.skip(i as int)) == Some(
                (v, chars@.skip(j as int)),
            ),
            None => parse_byte(chars@.skip(i as int)) is None,
        },
{
    let ghost s = chars@.skip(i as int);
    let n: usize = chars.len();
    if !is_digit_at(chars, i) {
        return None;
    }
    let d0: u32 = value_at(chars, i);
    assert(s[0] == chars@[i as int]);
    if d0 == 0 || !is_digit_at(chars, i + 1) {
        proof {
            lemma_skip_skip(chars@, i as int, 1);
        }
        return Some((d0 as u8, i + 1));
    }
    let d1: u32 = value_at(chars, i + 1);
    assert(s[1] == chars@[i + 1]);
    if !is_digit_at(chars, i + 2) {
        proof {
            lemma_skip_skip(chars@, i as int, 2);
        }
        return Some(((10 * d0 + d1) as u8, i + 2));
    }
    let d2: u32 = value_at(chars, i + 2);
    assert(s[2] == chars@[i + 2]);
    let v: u32 = 100 * d0 + 10 * d1 + d2;
    if v <= 255 {
        proof {
            lemma_skip_skip(chars@, i as int, 3);
        }
        Some((v as u8, i + 3))
    } else {
        None
    }
}

/// Whether `c` stands at `i`.
fn char_at(chars: &Vec<char>, i: usize, c: char) -> (b: bool)
    ensures
        b == (i < chars@.len() && chars@[i as int] == c),
{
    i < chars.len() && chars[i] == c
}

/// Reads one character of a string at `i`, escaped or not.
fn read_escape(chars: &Vec<char>, i: usize) -> (out: Option<(char, usize)>)
    requires
        i <= chars@.len(),
    ensures
        match out {
            Some((c, j)) => i < j <= chars@.len() && unescape(chars@.skip(i as int)) == Some(
                (c, j - i),
            ),
            None => unescape(chars@.skip(i as int)) is None,
        },
{
    let ghost s = chars@.skip(i as int);
    if i >= chars.len() {
        return None;
    }
    let c: char = chars[i];
    assert(s[0] == c);
    if c != '\\' {
        let code: u32 = code_of(c);
        if code < 32 || c == '"' {
            return None;
        }
        return Some((c, i + 1));
    }
    if i + 1 >= chars.len() {
        return None;
    }
    let e: char = chars[i + 1];
    assert(s[1] == e);
    if e == '"' {
        Some(('"', i + 2))
    } else if e == '\\' {
        Some(('\\', i + 2))
    } else if e == 'b' {
        Some((8u8 as char, i + 2))
    } else if e == 'f' {
        Some((12u8 as char, i + 2))
    } else if e == 'n' {
        Some((10u8 as char, i + 2))
    } else if e == 'r' {
        Some((13u8 as char, i + 2))
    } else if e == 't' {
        Some((9u8 as char, i + 2))
    } else if e == 'u' {
        if chars.len() - i < 6 {
            return None;
        }
        assert(s[2] == chars@[i + 2]);
        assert(s[3] == chars@[i + 3]);
        assert(s[4] == chars@[i + 4]);
        assert(s[5] == chars@[i + 5]);
        if chars[i + 2] != '0' || chars[i + 3] != '0' {
            return None;
        }
        if chars[i + 4] != '0' && chars[i + 4] != '1' {
            return None;
        }
        if !is_hex_at(chars, i + 5) {
            return None;
        }
        let high: u32 = value_at(chars, i + 4);
        let low: u32 = value_at(chars, i + 5);
        let v: u32 = 16 * high + low;
        if v == 8 || v == 9 || v == 10 || v == 12 || v == 13 {
            return None;
        }
        Some(((v as u8) as char, i + 6))
    } else {
        None
    }
}

/// Reads a quoted string at `i`.
fn read_quoted(chars: &Vec<char>, i: usize) -> (out: Option<(String, usize)>)
    requires
        i <= chars@.len(),
    ensures
        match out {
            Some((text, j)) => i < j <= chars@.len() && parse_quoted(chars@.skip(i as int)) == Some(
                (text@, chars@.skip(j as int)),
            ),
            None => parse_quoted(chars@.skip(i as int)) is None,
        },
{
    let n: usize = chars.len();
    if !char_at(chars, i, '"') {
        return None;
    }
    let ghost start = chars@.skip(i + 1);
    proof {
        lemma_skip_skip(chars@, i as int, 1);
        lemma_prepend_empty(parse_chars(start));
    }
    let mut text = String::new();
    let mut pos: usize = i + 1;
    loop
        invariant
            i < pos <= chars@.len(),
            start == chars@.skip(i + 1),
            parse_quoted(chars@.skip(i as int)) == parse_chars(start),
            parse_chars(start) == prepend(text@, parse_chars(chars@.skip(pos as int))),
        decreases chars@.len() - pos,
    {
        let ghost s = chars@.skip(pos as int);
        if pos >= chars.len() {
            return None;
        }
        assert(s[0] == chars@[pos as int]);
        if chars[pos] == '"' {
            proof {
                lemma_skip_skip(chars@, pos as int, 1);
                assert(text@ + Seq::<char>::empty() =~= text@);
            }
            return Some((text, pos + 1));
        }
        match read_escape(chars, pos) {
            None => {
                return None;
            },
            Some((c, j)) => {
                proof {
                    lemma_skip_skip(chars@, pos as int, j - pos);
                    lemma_prepend_step(text@, c, parse_chars(chars@.skip(j as int)));
                    assert(parse_chars(s) == prepend(seq![c], parse_chars(chars@.skip(j as int))));
                }
                text.push(c);
                pos = j;
            },
        }
    }
}

/// Steps over `key` at `i`, if it stands there.
fn skip_key(chars: &Vec<char>, i: usize, key: &str) -> (out: Option<usize>)
    requires
        i <= chars@.len(),
    ensures
        match out {
            Some(j) => i <= j <= chars@.len() && j == i + key@.len() && strip(
                chars@.skip(i as int),
                key@,
            ) == Some(chars@.skip(j as int)),
            None => strip(chars@.skip(i as int), key@) is None,
        },
{
    broadcast use vstd::string::group_string_axioms;
    let ghost s = chars@.skip(i as int);
    let mut pos: usize = i;
    for c in it: key.chars()
        invariant
            it.seq() == key@,
            it.index() <= key@.len(),
            pos == i + it.index(),
            pos <= chars@.len(),
            s == chars@.skip(i as int),
            forall|k: int| 0 <= k < it.index() ==> s[k] == key@[k],
    {
        if pos >= chars.len() || chars[pos] != c {
            proof {
                if key@.len() <= s.len() {
                    assert(s.take(key@.len() as int)[it.index() as int] != key@[it.index() as int]);
                }
            }
            return None;
        }
        assert(s[it.index() as int] == chars@[pos as int]);
        pos += 1;
    }
    proof {
        assert(s.take(key@.len() as int) =~= key@);
        lemma_skip_skip(chars@, i as int, key@.len() as int);
    }
    Some(pos)
}

/// Reads an array of bytes at `i`.
fn read_bytes(chars: &Vec<char>, i: usize) -> (out: Option<(Vec<u8>, usize)>)
    requires
        i <= chars@.len(),
    ensures
        match out {
            Some((data, j)) => i < j <= chars@.len() && parse_array(
                byte_dec(),
                chars@.skip(i as int),
            ) == Some((data@, chars@.skip(j as int))),
            None => parse_array(byte_dec(), chars@.skip(i as int)) is None,
        },
{
    let ghost whole = chars@.skip(i as int);
    let n: usize = chars.len();
    if !char_at(chars, i, '[') {
        return None;
    }
    assert(whole[0] == chars@[i as int]);
    let mut data: Vec<u8> = Vec::new();
    if char_at(chars, i + 1, ']') {
        assert(whole[1] == chars@[i + 1]);
        proof {
            lemma_skip_skip(chars@, i as int, 2);
        }
        return Some((data, i + 2));
    }
    assert(whole.len() >= 2 ==> whole[1] == chars@[i + 1]);
    let ghost start = chars@.skip(i + 1);
    proof {
        lemma_skip_skip(chars@, i as int, 1);
        lemma_prepend_empty(parse_seq(byte_dec(), start));
    }
    let mut pos: usize = i + 1;
    loop
        invariant
            n == chars@.len(),
            i < pos <= chars@.len(),
            start == chars@.skip(i + 1),
            parse_array(byte_dec(), chars@.skip(i as int)) == parse_seq(byte_dec(), start),
            parse_seq(byte_dec(), start) == prepend(
                data@,
                parse_seq(byte_dec(), chars@.skip(pos as int)),
            ),
        decreases chars@.len() - pos,
    {
        let ghost s = chars@.skip(pos as int);
        match read_byte(chars, pos) {
            None => {
                return None;
            },
            Some((v, j)) => {
                let ghost rest = chars@.skip(j as int);
                assert(byte_dec()(s) == Some((v, rest)));
                assert(j < chars@.len() ==> rest[0] == chars@[j as int]);
                if char_at(chars, j, ',') {
                    proof {
                        lemma_skip_skip(chars@, j as int, 1);
                        lemma_prepend_step(data@, v, parse_seq(byte_dec(), chars@.skip(j + 1)));
                        assert(parse_seq(byte_dec(), s) == prepend(
                            seq![v],
                            parse_seq(byte_dec(), chars@.skip(j + 1)),
                        ));
                    }
                    data.push(v);
                    pos = j + 1;
                } else if char_at(chars, j, ']') {
                    proof {
                        lemma_skip_skip(chars@, j as int, 1);
                        assert(data@ + seq![v] =~= data@.push(v));
                    }
                    data.push(v);
                    return Some((data, j + 1));
                } else {
                    return None;
                }
            },
        }
    }
}

/// Reads one entry at `i`.
fn read_data(chars: &Vec<char>, i: usize) -> (out: Option<(Data, usize)>)
    requires
        i <= chars@.len(),
    ensures
        match out {
            Some((entry, j)) => i < j <= chars@.len() && parse_data(chars@.skip(i as int)) == Some(
                (entry@, chars@.skip(j as int)),
            ),
            None => parse_data(chars@.skip(i as int)) is None,
        },
{
    proof {
        reveal_strlit("{\"type\":");
        reveal_strlit(",\"data\":");
        reveal_strlit("}");
        assert("{\"type\":"@ =~= type_key());
        assert(",\"data\":"@ =~= data_key());
        assert("}"@ =~= closing());
    }
    let i1 = match skip_key(chars, i, "{\"type\":") {
        Some(j) => j,
        None => {
            return None;
        },
    };
    let (type_tag, i2) = match read_quoted(chars, i1) {
        Some(r) => r,
        None => {
            return None;
        },
    };
    let i3 = match skip_key(chars, i2, ",\"data\":") {
        Some(j) => j,
        None => {
            return None;
        },
    };
    let (data, i4) = match read_bytes(chars, i3) {
        Some(r) => r,
        None => {
            return None;
        },
    };
    let i5 = match skip_key(chars, i4, "}") {
        Some(j) => j,
        None => {
            return None;
        },
    };
    Some((Data::new(type_tag, data), i5))
}

/// Reads an array of entries at `i`.
fn read_entries(chars: &Vec<char>, i: usize) -> (out: Option<(Item, usize)>)
    requires
        i <= chars@.len(),
    ensures
        match out {
            Some((item, j)) => i < j <= chars@.len() && parse_array(
                data_dec(),
                chars@.skip(i as int),
            ) == Some((item@, chars@.skip(j as int))),
            None => parse_array(data_dec(), chars@.skip(i as int)) is None,
        },
{
    let ghost whole = chars@.skip(i as int);
    let n: usize = chars.len();
    if !char_at(chars, i, '[') {
        return None;
    }
    assert(whole[0] == chars@[i as int]);
    let mut item = Item::new();
    if char_at(chars, i + 1, ']') {
        assert(whole[1] == chars@[i + 1]);
        proof {
            lemma_skip_skip(chars@, i as int, 2);
        }
        return Some((item, i + 2));
    }
    assert(whole.len() >= 2 ==> whole[1] == chars@[i + 1]);
    let ghost start = chars@.skip(i + 1);
    proof {
        lemma_skip_skip(chars@, i as int, 1);
        lemma_prepend_empty(parse_seq(data_dec(), start));
    }
    let mut pos: usize = i + 1;
    loop
        invariant
            n == chars@.len(),
            i < pos <= chars@.len(),
            start == chars@.skip(i + 1),
            parse_array(data_dec(), chars@.skip(i as int)) == parse_seq(data_dec(), start),
            parse_seq(data_dec(), start) == prepend(
                item@,
                parse_seq(data_dec(), chars@.skip(pos as int)),
            ),
        decreases chars@.len() - pos,
    {
        let ghost s = chars@.skip(pos as int);
        match read_data(chars, pos) {
            None => {
                assert(data_dec()(s) is None);
                return None;
            },
            Some((v, j)) => {
                let ghost rest = chars@.skip(j as int);
                assert(data_dec()(s) == Some((v@, rest)));
                assert(j < chars@.len() ==> rest[0] == chars@[j as int]);
                if char_at(chars, j, ',') {
                    proof {
                        lemma_skip_skip(chars@, j as int, 1);
                        lemma_prepend_step(item@, v@, parse_seq(data_dec(), chars@.skip(j + 1)));
                        assert(parse_seq(data_dec(), s) == prepend(
                            seq![v@],
                            parse_seq(data_dec(), chars@.skip(j + 1)),
                        ));
                    }
                    item.add_data(v);
                    pos = j + 1;
                } else if char_at(chars, j, ']') {
                    proof {
                        lemma_skip_skip(chars@, j as int, 1);
                        assert(item@ + seq![v@] =~= item@.push(v@));
                        assert(parse_seq(data_dec(), s) == Some((seq![v@], chars@.skip(j + 1))));
                    }
                    item.add_data(v);
                    return Some((item, j + 1));
                } else {
                    assert(parse_seq(data_dec(), s) is None);
                    return None;
                }
            },
        }
    }
}

/// Reads one item at `i`.
fn read_item(chars: &Vec<char>, i: usize) -> (out: Option<(Item, usize)>)
    requires
        i <= chars@.len(),
    ensures
        match out {
            Some((item, j)) => i < j <= chars@.len() && parse_item(chars@.skip(i as int)) == Some(
                (item@, chars@.skip(j as int)),
            ),
            None => parse_item(chars@.skip(i as int)) is None,
        },
{
    proof {
        reveal_strlit("{\"data_list\":");
        reveal_strlit("}");
        assert("{\"data_list\":"@ =~= item_key());
        assert("}"@ =~= closing());
    }
    let i1 = match skip_key(chars, i, "{\"data_list\":") {
        Some(j) => j,
        None => {
            return None;
        },
    };
    let (item, i2) = match read_entries(chars, i1) {
        Some(r) => r,
        None => {
            return None;
        },
    };
    let i3 = match skip_key(chars, i2, "}") {
        Some(j) => j,
        None => {
            return None;
        },
    };
    Some((item, i3))
}

/// Reads an array of items at `i`.
fn read_items(chars: &Vec<char>, i: usize) -> (out: Option<(Event, usize)>)
    requires
        i <= chars@.len(),
    ensures
        match out {
            Some((event, j)) => i < j <= chars@.len() && parse_array(
                item_dec(),
                chars@.skip(i as int),
            ) == Some((event@, chars@.skip(j as int))),
            None => parse_array(item_dec(), chars@.skip(i as int)) is None,
        },
{
    let ghost whole = chars@.skip(i as int);
    let n: usize = chars.len();
    if !char_at(chars, i, '[') {
        return None;
    }
    assert(whole[0] == chars@[i as int]);
    let mut event = Event::new();
    if char_at(chars, i + 1, ']') {
        assert(whole[1] == chars@[i + 1]);
        proof {
            lemma_skip_skip(chars@, i as int, 2);
        }
        return Some((event, i + 2));
    }
    assert(whole.len() >= 2 ==> whole[1] == chars@[i + 1]);
    let ghost start = chars@.skip(i + 1);
    proof {
        lemma_skip_skip(chars@, i as int, 1);
        lemma_prepend_empty(parse_seq(item_dec(), start));
    }
    let mut pos: usize = i + 1;
    loop
        invariant
            n == chars@.len(),
            i < pos <= chars@.len(),
            start == chars@.skip(i + 1),
            parse_array(item_dec(), chars@.skip(i as int)) == parse_seq(item_dec(), start),
            parse_seq(item_dec(), start) == prepend(
                event@,
                parse_seq(item_dec(), chars@.skip(pos as int)),
            ),
        decreases chars@.len() - pos,
    {
        let ghost s = chars@.skip(pos as int);
        match read_item(chars, pos) {
            None => {
                assert(item_dec()(s) is None);
                return None;
            },
            Some((v, j)) => {
                let ghost rest = chars@.skip(j as int);
                assert(item_dec()(s) == Some((v@, rest)));
                assert(j < chars@.len() ==> rest[0] == chars@[j as int]);
                if char_at(chars, j, ',') {
                    proof {
                        lemma_skip_skip(chars@, j as int, 1);
                        lemma_prepend_step(event@, v@, parse_seq(item_dec(), chars@.skip(j + 1)));
                        assert(parse_seq(item_dec(), s) == prepend(
                            seq![v@],
                            parse_seq(item_dec(), chars@.skip(j + 1)),
                        ));
                    }
                    event.push_item(v);
                    pos = j + 1;
                } else if char_at(chars, j, ']') {
                    proof {
                        lemma_skip_skip(chars@, j as int, 1);
                        assert(event@ + seq![v@] =~= event@.push(v@));
                        assert(parse_seq(item_dec(), s) == Some((seq![v@], chars@.skip(j + 1))));
                    }
                    event.push_item(v);
                    return Some((event, j + 1));
                } else {
                    assert(parse_seq(item_dec(), s) is None);
                    return None;
                }
            },
        }
    }
}

/// Reads an event from the whole text.
fn read_event(chars: &Vec<char>) -> (out: Option<Event>)
    ensures
        match out {
            Some(event) => parse_event(chars@) == Some(event@),
            None => parse_event(chars@) is None,
        },
{
    proof {
        reveal_strlit("{\"items\":");
        reveal_strlit("}");
        assert("{\"items\":"@ =~= event_key());
        assert("}"@ =~= closing());
        assert(chars@.skip(0) =~= chars@);
    }
    let i1 = match skip_key(chars, 0, "{\"items\":") {
        Some(j) => j,
        None => {
            return None;
        },
    };
    let (event, i2) = match read_items(chars, i1) {
        Some(r) => r,
        None => {
            return None;
        },
    };
    let i3 = match skip_key(chars, i2, "}") {
        Some(j) => j,
        None => {
            return None;
        },
    };
    if i3 == chars.len() {
        Some(event)
    } else {
        None
    }
}

/// The characters of `text`, for reading by position.
fn chars_of(text: &str) -> (out: Vec<char>)
    ensures
        out@ == text@,
{
    broadcast use vstd::string::group_string_axioms;
    let mut out: Vec<char> = Vec::new();
    for c in it: text.chars()
        invariant
            it.seq() == text@,
            it.index() <= text@.len(),
            out@ =~= text@.take(it.index() as int),
    {
        out.push(c);
    }
    assert(out@ =~= text@);
    out
}

impl Event {
    /// Reads an event from its text: the one event that `to_json` writes as
    /// `text`. A text that `to_json` writes for no event is refused.
    pub fn from_json(text: &str) -> (result: Result<Event, StoreError>)
        ensures
            match result {
                Ok(event) => is_event_json(text@) && event@ == event_of_json(text@),
                Err(err) => err == StoreError::Encoding && !is_event_json(text@),
            },
    {
        let chars = chars_of(text);
        proof {
            lemma_parse_event_is_inverse(text@);
        }
        match read_event(&chars) {
            Some(event) => Ok(event),
            None => Err(StoreError::Encoding),
        }
    }
}

} // verus!
