use crate::event::{Data, DataView, Event, Item};
use vstd::prelude::*;
use vstd::string::StringExecFns;

verus! {

/// The decimal digit for `d`, which is below ten.
pub open spec fn digit_char(d: int) -> char {
    (48 + d) as char
}

/// The lower-case hexadecimal digit for `d`, which is below sixteen.
pub open spec fn hex_char(d: int) -> char {
    if d < 10 {
        (48 + d) as char
    } else {
        (87 + d) as char
    }
}

/// A byte in decimal, without leading zeros.
pub open spec fn decimal(b: u8) -> Seq<char> {
    if b < 10 {
        seq![digit_char(b as int)]
    } else if b < 100 {
        seq![digit_char(b as int / 10), digit_char(b as int % 10)]
    } else {
        seq![digit_char(b as int / 100), digit_char(b as int / 10 % 10), digit_char(b as int % 10)]
    }
}

/// The control characters that have a two-character escape of their own.
pub open spec fn has_short_escape(code: int) -> bool {
    code == 8 || code == 9 || code == 10 || code == 12 || code == 13
}

/// How one character of a string is written between the quotes: the quote,
/// the backslash and the control characters are escaped, every other
/// character stands for itself.
pub open spec fn escape(c: char) -> Seq<char> {
    if c == '"' {
        seq!['\\', '"']
    } else if c == '\\' {
        seq!['\\', '\\']
    } else if c as int == 8 {
        seq!['\\', 'b']
    } else if c as int == 12 {
        seq!['\\', 'f']
    } else if c as int == 10 {
        seq!['\\', 'n']
    } else if c as int == 13 {
        seq!['\\', 'r']
    } else if c as int == 9 {
        seq!['\\', 't']
    } else if (c as int) < 32 {
        seq!['\\', 'u', '0', '0', hex_char(c as int / 16), hex_char(c as int % 16)]
    } else {
        seq![c]
    }
}

/// The characters of `s`, each escaped.
pub open spec fn escaped(s: Seq<char>) -> Seq<char>
    decreases s.len(),
{
    if s.len() == 0 {
        Seq::empty()
    } else {
        escape(s[0]) + escaped(s.drop_first())
    }
}

/// A string between quotes.
pub open spec fn quoted(s: Seq<char>) -> Seq<char> {
    seq!['"'] + escaped(s) + seq!['"']
}

/// The encodings of `vs`, separated by commas.
pub open spec fn joined<T>(enc: spec_fn(T) -> Seq<char>, vs: Seq<T>) -> Seq<char>
    decreases vs.len(),
{
    if vs.len() == 0 {
        Seq::empty()
    } else if vs.len() == 1 {
        enc(vs[0])
    } else {
        enc(vs[0]) + seq![','] + joined(enc, vs.drop_first())
    }
}

/// The encodings of `vs`, separated by commas, between square brackets.
pub open spec fn array<T>(enc: spec_fn(T) -> Seq<char>, vs: Seq<T>) -> Seq<char> {
    seq!['['] + joined(enc, vs) + seq![']']
}

/// `{"type":`
pub open spec fn type_key() -> Seq<char> {
    seq!['{', '"', 't', 'y', 'p', 'e', '"', ':']
}

/// `,"data":`
pub open spec fn data_key() -> Seq<char> {
    seq![',', '"', 'd', 'a', 't', 'a', '"', ':']
}

/// `{"data_list":`
pub open spec fn item_key() -> Seq<char> {
    seq!['{', '"', 'd', 'a', 't', 'a', '_', 'l', 'i', 's', 't', '"', ':']
}

/// `{"items":`
pub open spec fn event_key() -> Seq<char> {
    seq!['{', '"', 'i', 't', 'e', 'm', 's', '"', ':']
}

/// `}`
pub open spec fn closing() -> Seq<char> {
    seq!['}']
}

/// `decimal` as a value.
pub open spec fn byte_enc() -> spec_fn(u8) -> Seq<char> {
    |b: u8| decimal(b)
}

/// One entry: `{"type":"…","data":[…]}`, the bytes as decimal numbers.
pub open spec fn data_json(d: DataView) -> Seq<char> {
    type_key() + quoted(d.type_tag) + data_key() + array(byte_enc(), d.data) + closing()
}

/// `data_json` as a value.
pub open spec fn data_enc() -> spec_fn(DataView) -> Seq<char> {
    |d: DataView| data_json(d)
}

/// One item: `{"data_list":[…]}`.
pub open spec fn item_json(item: Seq<DataView>) -> Seq<char> {
    item_key() + array(data_enc(), item) + closing()
}

/// `item_json` as a value.
pub open spec fn item_enc() -> spec_fn(Seq<DataView>) -> Seq<char> {
    |item: Seq<DataView>| item_json(item)
}

/// The text of an event: `{"items":[…]}`, without any white space.
pub open spec fn event_json(event: Seq<Seq<DataView>>) -> Seq<char> {
    event_key() + array(item_enc(), event) + closing()
}

/// `text` is the text of some event.
pub open spec fn is_event_json(text: Seq<char>) -> bool {
    exists|event: Seq<Seq<DataView>>| event_json(event) == text
}

/// The event that `text` is the text of. There is only one, as
/// `lemma_event_json_is_injective` shows.
pub open spec fn event_of_json(text: Seq<char>) -> Seq<Seq<DataView>> {
    choose|event: Seq<Seq<DataView>>| event_json(event) == text
}

/// Escaping works from the back as it does from the front.
pub proof fn lemma_escaped_push(s: Seq<char>, c: char)
    ensures
        escaped(s.push(c)) == escaped(s) + escape(c),
    decreases s.len(),
{
    if s.len() == 0 {
        assert(s.push(c).drop_first() =~= Seq::<char>::empty());
        assert(escaped(s.push(c).drop_first()) =~= Seq::<char>::empty());
        assert(escaped(s) =~= Seq::<char>::empty());
        assert(escaped(s.push(c)) =~= escaped(s) + escape(c));
    } else {
        lemma_escaped_push(s.drop_first(), c);
        assert(s.push(c).drop_first() =~= s.drop_first().push(c));
        assert(escaped(s.push(c)) =~= escaped(s) + escape(c));
    }
}

/// Joining works from the back as it does from the front.
pub proof fn lemma_joined_push<T>(enc: spec_fn(T) -> Seq<char>, vs: Seq<T>, v: T)
    ensures
        joined(enc, vs.push(v)) == if vs.len() == 0 {
            enc(v)
        } else {
            joined(enc, vs) + seq![','] + enc(v)
        },
    decreases vs.len(),
{
    if vs.len() == 0 {
    } else {
        lemma_joined_push(enc, vs.drop_first(), v);
        assert(vs.push(v).drop_first() =~= vs.drop_first().push(v));
        if vs.len() == 1 {
            assert(vs.drop_first().push(v)[0] == v);
            assert(joined(enc, vs.push(v)) =~= joined(enc, vs) + seq![','] + enc(v));
        } else {
            assert(joined(enc, vs.push(v)) =~= joined(enc, vs) + seq![','] + enc(v));
        }
    }
}

/// The decimal digit for `d`.
fn digit(d: u8) -> (c: char)
    requires
        d < 10,
    ensures
        c == digit_char(d as int),
{
    (48u8 + d) as char
}

/// The hexadecimal digit for `d`.
pub(crate) fn hex_digit(d: u8) -> (c: char)
    requires
        d < 16,
    ensures
        c == hex_char(d as int),
{
    if d < 10 {
        (48u8 + d) as char
    } else {
        (87u8 + d) as char
    }
}

/// Appends a byte in decimal.
fn write_byte(out: &mut String, b: u8)
    ensures
        final(out)@ == old(out)@ + decimal(b),
{
    if b >= 100 {
        out.push(digit(b / 100));
    }
    if b >= 10 {
        out.push(digit(b / 10 % 10));
    }
    out.push(digit(b % 10));
    assert(out@ =~= old(out)@ + decimal(b));
}

/// Appends one character of a string, escaped where it has to be.
fn write_escape(out: &mut String, c: char)
    ensures
        final(out)@ == old(out)@ + escape(c),
{
    let code: u32 = c as u32;
    if c == '"' {
        out.push('\\');
        out.push('"');
    } else if c == '\\' {
        out.push('\\');
        out.push('\\');
    } else if code == 8 {
        out.push('\\');
        out.push('b');
    } else if code == 12 {
        out.push('\\');
        out.push('f');
    } else if code == 10 {
        out.push('\\');
        out.push('n');
    } else if code == 13 {
        out.push('\\');
        out.push('r');
    } else if code == 9 {
        out.push('\\');
        out.push('t');
    } else if code < 32 {
        let low: u8 = code as u8;
        out.push('\\');
        out.push('u');
        out.push('0');
        out.push('0');
        out.push(hex_digit(low / 16));
        out.push(hex_digit(low % 16));
    } else {
        out.push(c);
    }
    assert(out@ =~= old(out)@ + escape(c));
}

/// Appends a string between quotes.
fn write_quoted(out: &mut String, text: &str)
    ensures
        final(out)@ == old(out)@ + quoted(text@),
{
    broadcast use vstd::string::group_string_axioms;
    out.push('"');
    let ghost start = out@;
    for c in it: text.chars()
        invariant
            it.seq() == text@,
            it.index() <= text@.len(),
            out@ == start + escaped(text@.take(it.index() as int)),
    {
        proof {
            lemma_escaped_push(text@.take(it.index() as int), c);
            assert(text@.take(it.index() as int).push(c) =~= text@.take(it.index() + 1));
        }
        write_escape(out, c);
        assert(out@ =~= start + escaped(text@.take(it.index() + 1)));
    }
    assert(text@.take(text@.len() as int) =~= text@);
    out.push('"');
    assert(out@ =~= old(out)@ + quoted(text@));
}

/// Appends an array of bytes.
fn write_bytes(out: &mut String, data: &Vec<u8>)
    ensures
        final(out)@ == old(out)@ + array(byte_enc(), data@),
{
    out.push('[');
    let ghost start = out@;
    let mut i: usize = 0;
    while i < data.len()
        invariant
            i <= data@.len(),
            out@ == start + joined(byte_enc(), data@.take(i as int)),
        decreases data@.len() - i,
    {
        proof {
            lemma_joined_push(byte_enc(), data@.take(i as int), data@[i as int]);
            assert(data@.take(i as int).push(data@[i as int]) =~= data@.take(i + 1));
        }
        if i > 0 {
            out.push(',');
        }
        write_byte(out, data[i]);
        assert(out@ =~= start + joined(byte_enc(), data@.take(i + 1)));
        i += 1;
    }
    assert(data@.take(i as int) =~= data@);
    out.push(']');
    assert(out@ =~= old(out)@ + array(byte_enc(), data@));
}

/// Appends a literal part of the text.
fn write_key(out: &mut String, key: &str)
    ensures
        final(out)@ == old(out)@ + key@,
{
    out.append(key);
}

/// Appends one entry.
fn write_data(out: &mut String, entry: &Data)
    ensures
        final(out)@ == old(out)@ + data_json(entry@),
{
    proof {
        reveal_strlit("{\"type\":");
        reveal_strlit(",\"data\":");
        assert("{\"type\":"@ =~= type_key());
        assert(",\"data\":"@ =~= data_key());
    }
    write_key(out, "{\"type\":");
    write_quoted(out, entry.type_tag.as_str());
    write_key(out, ",\"data\":");
    write_bytes(out, &entry.data);
    out.push('}');
    assert(out@ =~= old(out)@ + data_json(entry@));
}

/// Appends one item.
fn write_item(out: &mut String, item: &Item)
    ensures
        final(out)@ == old(out)@ + item_json(item@),
{
    proof {
        reveal_strlit("{\"data_list\":");
        assert("{\"data_list\":"@ =~= item_key());
    }
    write_key(out, "{\"data_list\":");
    out.push('[');
    let ghost start = out@;
    let mut i: usize = 0;
    while i < item.data_list.len()
        invariant
            i <= item@.len(),
            item@.len() == item.data_list@.len(),
            out@ == start + joined(data_enc(), item@.take(i as int)),
        decreases item@.len() - i,
    {
        proof {
            lemma_joined_push(data_enc(), item@.take(i as int), item@[i as int]);
            assert(item@.take(i as int).push(item@[i as int]) =~= item@.take(i + 1));
        }
        if i > 0 {
            out.push(',');
        }
        write_data(out, &item.data_list[i]);
        assert(out@ =~= start + joined(data_enc(), item@.take(i + 1)));
        i += 1;
    }
    assert(item@.take(i as int) =~= item@);
    out.push(']');
    out.push('}');
    assert(out@ =~= old(out)@ + item_json(item@));
}

impl Event {
    /// The text of the event.
    pub fn to_json(&self) -> (text: String)
        ensures
            text@ == event_json(self@),
    {
        proof {
            reveal_strlit("{\"items\":");
            assert("{\"items\":"@ =~= event_key());
        }
        let mut out = String::new();
        write_key(&mut out, "{\"items\":");
        out.push('[');
        let ghost start = out@;
        let mut i: usize = 0;
        while i < self.items.len()
            invariant
                i <= self@.len(),
                self@.len() == self.items@.len(),
                out@ == start + joined(item_enc(), self@.take(i as int)),
            decreases self@.len() - i,
        {
            proof {
                lemma_joined_push(item_enc(), self@.take(i as int), self@[i as int]);
                assert(self@.take(i as int).push(self@[i as int]) =~= self@.take(i + 1));
            }
            if i > 0 {
                out.push(',');
            }
            write_item(&mut out, &self.items[i]);
            assert(out@ =~= start + joined(item_enc(), self@.take(i + 1)));
            i += 1;
        }
        assert(self@.take(i as int) =~= self@);
        out.push(']');
        out.push('}');
        assert(out@ =~= event_json(self@));
        out
    }
}

} // verus!
