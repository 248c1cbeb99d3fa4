use crate::decode::{
    byte_dec, data_dec, digit_value, hex_value, is_digit, item_dec, parse_array, parse_byte,
    parse_chars, parse_data, parse_event, parse_item, parse_quoted, parse_seq, strip, unescape,
};
use crate::event::DataView;
use crate::json::{
    array, byte_enc, closing, data_enc, data_json, data_key, decimal, digit_char, escape, escaped,
    event_json, event_key, event_of_json, hex_char, is_event_json, item_enc, item_json, item_key,
    joined, quoted, type_key,
};
use vstd::prelude::*;

verus! {

/// `elem` reads back what `enc` wrote, whenever a comma or a closing bracket
/// follows.
pub(crate) open spec fn reads_back<T>(
    elem: spec_fn(Seq<char>) -> Option<(T, Seq<char>)>,
    enc: spec_fn(T) -> Seq<char>,
) -> bool {
    &&& forall|v: T, rest: Seq<char>|
        rest.len() > 0 && (rest[0] == ',' || rest[0] == ']') ==> #[trigger] elem(enc(v) + rest)
            == Some((v, rest))
    &&& forall|v: T| (#[trigger] enc(v)).len() > 0 && enc(v)[0] != ']'
}

/// Whatever `elem` reads is what `enc` writes for the value read.
pub(crate) open spec fn writes_back<T>(
    elem: spec_fn(Seq<char>) -> Option<(T, Seq<char>)>,
    enc: spec_fn(T) -> Seq<char>,
) -> bool {
    forall|s: Seq<char>| (#[trigger] elem(s)) is Some ==> s == enc(elem(s).unwrap().0) + elem(s).unwrap().1
}

/// A literal in front of a text is stripped off it.
proof fn lemma_strip_reads_back(lit: Seq<char>, rest: Seq<char>)
    ensures
        strip(lit + rest, lit) == Some(rest),
{
    assert((lit + rest).take(lit.len() as int) =~= lit);
    assert((lit + rest).skip(lit.len() as int) =~= rest);
}

/// A text that a literal was stripped off starts with the literal.
proof fn lemma_strip_writes_back(s: Seq<char>, lit: Seq<char>)
    ensures
        strip(s, lit) is Some ==> s == lit + strip(s, lit).unwrap(),
{
    if strip(s, lit) is Some {
        assert(s =~= s.take(lit.len() as int) + s.skip(lit.len() as int));
    }
}

/// One or more elements, joined and closed by a bracket, are read back.
proof fn lemma_seq_reads_back<T>(
    elem: spec_fn(Seq<char>) -> Option<(T, Seq<char>)>,
    enc: spec_fn(T) -> Seq<char>,
    vs: Seq<T>,
    rest: Seq<char>,
)
    requires
        reads_back(elem, enc),
        vs.len() > 0,
    ensures
        parse_seq(elem, joined(enc, vs) + seq![']'] + rest) == Some((vs, rest)),
    decreases vs.len(),
{
    let s = joined(enc, vs) + seq![']'] + rest;
    let v = vs[0];
    assert(enc(v).len() > 0);
    if vs.len() == 1 {
        let r = seq![']'] + rest;
        assert(s =~= enc(v) + r);
        assert(elem(enc(v) + r) == Some((v, r)));
        assert(r[0] == ']');
        assert(r.skip(1) =~= rest);
        assert(seq![v] =~= vs);
    } else {
        let tail = vs.drop_first();
        let after = joined(enc, tail) + seq![']'] + rest;
        let r = seq![','] + after;
        assert(s =~= enc(v) + r);
        assert(elem(enc(v) + r) == Some((v, r)));
        assert(r[0] == ',');
        assert(r.skip(1) =~= after);
        lemma_seq_reads_back(elem, enc, tail, rest);
        assert(r.len() < s.len());
        assert(seq![v] + tail =~= vs);
    }
}

/// An array is read back, whatever follows it.
proof fn lemma_array_reads_back<T>(
    elem: spec_fn(Seq<char>) -> Option<(T, Seq<char>)>,
    enc: spec_fn(T) -> Seq<char>,
    vs: Seq<T>,
    rest: Seq<char>,
)
    requires
        reads_back(elem, enc),
    ensures
        parse_array(elem, array(enc, vs) + rest) == Some((vs, rest)),
{
    let s = array(enc, vs) + rest;
    assert(s[0] == '[');
    if vs.len() == 0 {
        assert(s[1] == ']');
        assert(s.skip(2) =~= rest);
        assert(vs =~= Seq::<T>::empty());
    } else {
        assert(enc(vs[0]).len() > 0 && enc(vs[0])[0] != ']');
        assert(joined(enc, vs)[0] == enc(vs[0])[0]);
        assert(s[1] == joined(enc, vs)[0]);
        assert(s.skip(1) =~= joined(enc, vs) + seq![']'] + rest);
        lemma_seq_reads_back(elem, enc, vs, rest);
    }
}

/// What reads as one or more elements is those elements, joined and
/// closed by a bracket.
proof fn lemma_seq_writes_back<T>(
    elem: spec_fn(Seq<char>) -> Option<(T, Seq<char>)>,
    enc: spec_fn(T) -> Seq<char>,
    s: Seq<char>,
)
    requires
        writes_back(elem, enc),
    ensures
        parse_seq(elem, s) is Some ==> parse_seq(elem, s).unwrap().0.len() > 0 && s == joined(
            enc,
            parse_seq(elem, s).unwrap().0,
        ) + seq![']'] + parse_seq(elem, s).unwrap().1,
    decreases s.len(),
{
    if parse_seq(elem, s) is Some {
        let (v, r) = elem(s).unwrap();
        assert(s == enc(v) + r);
        assert(r =~= seq![r[0]] + r.skip(1));
        if r.len() < s.len() && r[0] == ',' {
            lemma_seq_writes_back(elem, enc, r.skip(1));
            let (tail, after) = parse_seq(elem, r.skip(1)).unwrap();
            let vs = seq![v] + tail;
            assert(vs.drop_first() =~= tail);
            assert(vs[0] == v);
            assert(s =~= joined(enc, vs) + seq![']'] + after);
        } else {
            let vs = seq![v];
            assert(s =~= joined(enc, vs) + seq![']'] + r.skip(1));
        }
    }
}

/// What reads as an array is the array of what was read.
proof fn lemma_array_writes_back<T>(
    elem: spec_fn(Seq<char>) -> Option<(T, Seq<char>)>,
    enc: spec_fn(T) -> Seq<char>,
    s: Seq<char>,
)
    requires
        writes_back(elem, enc),
    ensures
        parse_array(elem, s) is Some ==> s == array(enc, parse_array(elem, s).unwrap().0)
            + parse_array(elem, s).unwrap().1,
{
    if parse_array(elem, s) is Some {
        let (vs, rest) = parse_array(elem, s).unwrap();
        if s.len() >= 2 && s[0] == '[' && s[1] == ']' {
            assert(s =~= array(enc, vs) + rest);
        } else {
            lemma_seq_writes_back(elem, enc, s.skip(1));
            assert(s =~= seq![s[0]] + s.skip(1));
            assert(s =~= array(enc, vs) + rest);
        }
    }
}

/// A byte in decimal is read back where no digit follows it.
proof fn lemma_byte_reads_back(b: u8, rest: Seq<char>)
    requires
        rest.len() > 0,
        !is_digit(rest[0]),
    ensures
        parse_byte(decimal(b) + rest) == Some((b, rest)),
        decimal(b).len() > 0,
        decimal(b)[0] != ']',
{
    let s = decimal(b) + rest;
    if b < 10 {
        assert(s[0] == digit_char(b as int));
        assert(s[1] == rest[0]);
        assert(s.skip(1) =~= rest);
    } else if b < 100 {
        assert(s[0] == digit_char(b as int / 10));
        assert(s[1] == digit_char(b as int % 10));
        assert(s[2] == rest[0]);
        assert(s.skip(2) =~= rest);
    } else {
        assert(s[0] == digit_char(b as int / 100));
        assert(s[1] == digit_char(b as int / 10 % 10));
        assert(s[2] == digit_char(b as int % 10));
        assert(s.skip(3) =~= rest);
    }
}

/// What reads as a byte is that byte in decimal.
proof fn lemma_byte_writes_back(s: Seq<char>)
    ensures
        parse_byte(s) is Some ==> s == decimal(parse_byte(s).unwrap().0) + parse_byte(s).unwrap().1,
{
    if parse_byte(s) is Some {
        let (v, rest) = parse_byte(s).unwrap();
        assert(digit_char(digit_value(s[0])) == s[0]);
        if s[0] == '0' || s.len() == 1 || !is_digit(s[1]) {
            assert(s =~= decimal(v) + rest);
        } else if s.len() == 2 || !is_digit(s[2]) {
            assert(digit_char(digit_value(s[1])) == s[1]);
            assert(s =~= decimal(v) + rest);
        } else {
            assert(digit_char(digit_value(s[1])) == s[1]);
            assert(digit_char(digit_value(s[2])) == s[2]);
            assert(s =~= decimal(v) + rest);
        }
    }
}

/// Bytes are read as they are written.
proof fn lemma_bytes_codec()
    ensures
        reads_back(byte_dec(), byte_enc()),
        writes_back(byte_dec(), byte_enc()),
{
    assert forall|v: u8, rest: Seq<char>|
        rest.len() > 0 && (rest[0] == ',' || rest[0] == ']') implies #[trigger] byte_dec()(
        byte_enc()(v) + rest,
    ) == Some((v, rest)) by {
        lemma_byte_reads_back(v, rest);
    }
    assert forall|v: u8| (#[trigger] byte_enc()(v)).len() > 0 && byte_enc()(v)[0] != ']' by {
        lemma_byte_reads_back(v, seq![',']);
    }
    assert forall|s: Seq<char>| (#[trigger] byte_dec()(s)) is Some implies s == byte_enc()(
        byte_dec()(s).unwrap().0,
    ) + byte_dec()(s).unwrap().1 by {
        lemma_byte_writes_back(s);
    }
}

/// An escaped character is read back, whatever follows it.
proof fn lemma_unescape_reads_back(c: char, rest: Seq<char>)
    ensures
        unescape(escape(c) + rest) == Some((c, escape(c).len() as int)),
        escape(c).len() > 0,
        escape(c)[0] != '"',
{
    let s = escape(c) + rest;
    assert(s[0] == escape(c)[0]);
    if escape(c).len() >= 2 {
        assert(s[1] == escape(c)[1]);
    }
    if escape(c).len() == 6 {
        assert(s[2] == '0');
        assert(s[3] == '0');
        assert(s[4] == hex_char(c as int / 16));
        assert(s[5] == hex_char(c as int % 16));
        assert(digit_value(s[4]) == c as int / 16);
        assert(hex_value(s[5]) == c as int % 16);
        assert((16 * digit_value(s[4]) + hex_value(s[5])) as char == c);
    }
}

/// What reads as a character is the escape of that character.
proof fn lemma_unescape_writes_back(s: Seq<char>)
    ensures
        unescape(s) is Some ==> 0 < unescape(s).unwrap().1 <= s.len() && s.take(
            unescape(s).unwrap().1,
        ) == escape(unescape(s).unwrap().0),
{
    if unescape(s) is Some {
        let (c, n) = unescape(s).unwrap();
        if s[0] == '\\' && s[1] == 'u' {
            let v = 16 * digit_value(s[4]) + hex_value(s[5]);
            assert(0 <= v < 32);
            assert(c as int == v);
            assert(hex_char(v / 16) == s[4]);
            assert(hex_char(v % 16) == s[5]);
            assert(s.take(n) =~= escape(c));
        } else {
            assert(s.take(n) =~= escape(c));
        }
    }
}

/// Escaped characters and the closing quote are read back.
proof fn lemma_chars_read_back(cs: Seq<char>, rest: Seq<char>)
    ensures
        parse_chars(escaped(cs) + seq!['"'] + rest) == Some((cs, rest)),
    decreases cs.len(),
{
    let s = escaped(cs) + seq!['"'] + rest;
    if cs.len() == 0 {
        assert(s[0] == '"');
        assert(s.skip(1) =~= rest);
        assert(cs =~= Seq::<char>::empty());
    } else {
        let c = cs[0];
        let tail = cs.drop_first();
        let after = escaped(tail) + seq!['"'] + rest;
        assert(s =~= escape(c) + after);
        lemma_unescape_reads_back(c, after);
        assert(s[0] == escape(c)[0]);
        assert(s.skip(escape(c).len() as int) =~= after);
        lemma_chars_read_back(tail, rest);
        assert(seq![c] + tail =~= cs);
    }
}

/// What reads as the inside of a string is the escape of what was read.
proof fn lemma_chars_write_back(s: Seq<char>)
    ensures
        parse_chars(s) is Some ==> s == escaped(parse_chars(s).unwrap().0) + seq!['"'] + parse_chars(
            s,
        ).unwrap().1,
    decreases s.len(),
{
    if parse_chars(s) is Some {
        let (cs, rest) = parse_chars(s).unwrap();
        if s[0] == '"' {
            assert(s =~= escaped(cs) + seq!['"'] + rest);
        } else {
            let (c, n) = unescape(s).unwrap();
            lemma_unescape_writes_back(s);
            lemma_chars_write_back(s.skip(n));
            let (tail, after) = parse_chars(s.skip(n)).unwrap();
            assert(cs == seq![c] + tail);
            assert(cs.drop_first() =~= tail);
            assert(cs[0] == c);
            assert(s =~= s.take(n) + s.skip(n));
            assert(s =~= escaped(cs) + seq!['"'] + rest);
        }
    }
}

/// A quoted string is read back, whatever follows it.
proof fn lemma_quoted_reads_back(cs: Seq<char>, rest: Seq<char>)
    ensures
        parse_quoted(quoted(cs) + rest) == Some((cs, rest)),
{
    let s = quoted(cs) + rest;
    assert(s[0] == '"');
    assert(s.skip(1) =~= escaped(cs) + seq!['"'] + rest);
    lemma_chars_read_back(cs, rest);
}

/// What reads as a quoted string is the quoting of what was read.
proof fn lemma_quoted_writes_back(s: Seq<char>)
    ensures
        parse_quoted(s) is Some ==> s == quoted(parse_quoted(s).unwrap().0) + parse_quoted(
            s,
        ).unwrap().1,
{
    if parse_quoted(s) is Some {
        lemma_chars_write_back(s.skip(1));
        let (cs, rest) = parse_quoted(s).unwrap();
        assert(s =~= seq![s[0]] + s.skip(1));
        assert(s =~= quoted(cs) + rest);
    }
}

/// An entry is read back, whatever follows it.
proof fn lemma_data_reads_back(d: DataView, rest: Seq<char>)
    ensures
        parse_data(data_json(d) + rest) == Some((d, rest)),
{
    let s = data_json(d) + rest;
    let s5 = rest;
    let s4 = closing() + s5;
    let s3 = array(byte_enc(), d.data) + s4;
    let s2 = data_key() + s3;
    let s1 = quoted(d.type_tag) + s2;
    assert(s =~= type_key() + s1);
    lemma_strip_reads_back(type_key(), s1);
    lemma_quoted_reads_back(d.type_tag, s2);
    lemma_strip_reads_back(data_key(), s3);
    lemma_bytes_codec();
    lemma_array_reads_back(byte_dec(), byte_enc(), d.data, s4);
    lemma_strip_reads_back(closing(), s5);
}

/// What reads as an entry is the text of that entry.
proof fn lemma_data_writes_back(s: Seq<char>)
    ensures
        parse_data(s) is Some ==> s == data_json(parse_data(s).unwrap().0) + parse_data(s).unwrap().1,
{
    if parse_data(s) is Some {
        let (d, rest) = parse_data(s).unwrap();
        let s1 = strip(s, type_key()).unwrap();
        let s2 = parse_quoted(s1).unwrap().1;
        let s3 = strip(s2, data_key()).unwrap();
        let s4 = parse_array(byte_dec(), s3).unwrap().1;
        lemma_strip_writes_back(s, type_key());
        lemma_quoted_writes_back(s1);
        lemma_strip_writes_back(s2, data_key());
        lemma_bytes_codec();
        lemma_array_writes_back(byte_dec(), byte_enc(), s3);
        lemma_strip_writes_back(s4, closing());
        assert(s =~= data_json(d) + rest);
    }
}

/// Entries are read as they are written.
proof fn lemma_entries_codec()
    ensures
        reads_back(data_dec(), data_enc()),
        writes_back(data_dec(), data_enc()),
{
    assert forall|v: DataView, rest: Seq<char>|
        rest.len() > 0 && (rest[0] == ',' || rest[0] == ']') implies #[trigger] data_dec()(
        data_enc()(v) + rest,
    ) == Some((v, rest)) by {
        lemma_data_reads_back(v, rest);
    }
    assert forall|v: DataView| (#[trigger] data_enc()(v)).len() > 0 && data_enc()(v)[0] != ']' by {
        assert(data_json(v)[0] == type_key()[0]);
    }
    assert forall|s: Seq<char>| (#[trigger] data_dec()(s)) is Some implies s == data_enc()(
        data_dec()(s).unwrap().0,
    ) + data_dec()(s).unwrap().1 by {
        lemma_data_writes_back(s);
    }
}

/// An item is read back, whatever follows it.
proof fn lemma_item_reads_back(item: Seq<DataView>, rest: Seq<char>)
    ensures
        parse_item(item_json(item) + rest) == Some((item, rest)),
{
    let s = item_json(item) + rest;
    let s2 = closing() + rest;
    let s1 = array(data_enc(), item) + s2;
    assert(s =~= item_key() + s1);
    lemma_strip_reads_back(item_key(), s1);
    lemma_entries_codec();
    lemma_array_reads_back(data_dec(), data_enc(), item, s2);
    lemma_strip_reads_back(closing(), rest);
}

/// What reads as an item is the text of that item.
proof fn lemma_item_writes_back(s: Seq<char>)
    ensures
        parse_item(s) is Some ==> s == item_json(parse_item(s).unwrap().0) + parse_item(s).unwrap().1,
{
    if parse_item(s) is Some {
        let (item, rest) = parse_item(s).unwrap();
        let s1 = strip(s, item_key()).unwrap();
        let s2 = parse_array(data_dec(), s1).unwrap().1;
        lemma_strip_writes_back(s, item_key());
        lemma_entries_codec();
        lemma_array_writes_back(data_dec(), data_enc(), s1);
        lemma_strip_writes_back(s2, closing());
        assert(s =~= item_json(item) + rest);
    }
}

/// Items are read as they are written.
proof fn lemma_items_codec()
    ensures
        reads_back(item_dec(), item_enc()),
        writes_back(item_dec(), item_enc()),
{
    assert forall|v: Seq<DataView>, rest: Seq<char>|
        rest.len() > 0 && (rest[0] == ',' || rest[0] == ']') implies #[trigger] item_dec()(
        item_enc()(v) + rest,
    ) == Some((v, rest)) by {
        lemma_item_reads_back(v, rest);
    }
    assert forall|v: Seq<DataView>| (#[trigger] item_enc()(v)).len() > 0 && item_enc()(v)[0]
        != ']' by {
        assert(item_json(v)[0] == item_key()[0]);
    }
    assert forall|s: Seq<char>| (#[trigger] item_dec()(s)) is Some implies s == item_enc()(
        item_dec()(s).unwrap().0,
    ) + item_dec()(s).unwrap().1 by {
        lemma_item_writes_back(s);
    }
}

/// Reading the text of an event gives the event.
pub(crate) proof fn lemma_event_reads_back(event: Seq<Seq<DataView>>)
    ensures
        parse_event(event_json(event)) == Some(event),
{
    let s = event_json(event);
    let s2 = closing() + Seq::<char>::empty();
    let s1 = array(item_enc(), event) + s2;
    assert(s =~= event_key() + s1);
    lemma_strip_reads_back(event_key(), s1);
    lemma_items_codec();
    lemma_array_reads_back(item_dec(), item_enc(), event, s2);
    lemma_strip_reads_back(closing(), Seq::<char>::empty());
}

/// A text that reads as an event is the text of that event.
pub(crate) proof fn lemma_event_writes_back(s: Seq<char>)
    ensures
        parse_event(s) is Some ==> s == event_json(parse_event(s).unwrap()),
{
    if parse_event(s) is Some {
        let event = parse_event(s).unwrap();
        let s1 = strip(s, event_key()).unwrap();
        let s2 = parse_array(item_dec(), s1).unwrap().1;
        lemma_strip_writes_back(s, event_key());
        lemma_items_codec();
        lemma_array_writes_back(item_dec(), item_enc(), s1);
        lemma_strip_writes_back(s2, closing());
        assert(s =~= event_json(event));
    }
}

/// Two events with the same text are the same event.
pub proof fn lemma_event_json_is_injective(a: Seq<Seq<DataView>>, b: Seq<Seq<DataView>>)
    requires
        event_json(a) == event_json(b),
    ensures
        a == b,
{
    lemma_event_reads_back(a);
    lemma_event_reads_back(b);
}

/// A text reads as an event exactly if it is the text of that event.
pub(crate) proof fn lemma_parse_event_is_inverse(text: Seq<char>)
    ensures
        match parse_event(text) {
            Some(event) => is_event_json(text) && event_of_json(text) == event,
            None => !is_event_json(text),
        },
{
    match parse_event(text) {
        Some(event) => {
            lemma_event_writes_back(text);
            assert(event_json(event) == text);
            lemma_event_json_is_injective(event, event_of_json(text));
        },
        None => {
            assert forall|event: Seq<Seq<DataView>>| event_json(event) != text by {
                lemma_event_reads_back(event);
            }
        },
    }
}

} // verus!
