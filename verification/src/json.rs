//! JSON: strings with their escapes, and what a text must be to be JSON.

use crate::duration::{is_number, whole_part};
use crate::seed::{digit_in_base, hex_char, hex_digit, value_in_base};
use vstd::prelude::*;

verus! {

/// A character inside a JSON string.
pub open spec fn escaped_char(c: char) -> Seq<char> {
    if c == '"' {
        seq!['\\', '"']
    } else if c == '\\' {
        seq!['\\', '\\']
    } else if c <= '\u{1f}' {
        seq!['\\', 'u', '0', '0', hex_char(c as nat / 16), hex_char(c as nat % 16)]
    } else {
        seq![c]
    }
}

/// A text inside a JSON string: quotes, backslashes and control characters are escaped.
pub open spec fn escaped(s: Seq<char>) -> Seq<char>
    decreases s.len(),
{
    if s.len() == 0 {
        Seq::empty()
    } else {
        escaped(s.drop_last()) + escaped_char(s.last())
    }
}

/// Appends a character to what a JSON string holds.
pub fn push_escaped(json: &mut String, c: char)
    ensures
        final(json)@ == old(json)@ + escaped_char(c),
{
    if c == '"' || c == '\\' {
        json.push('\\');
        json.push(c);
    } else if c <= '\u{1f}' {
        json.push('\\');
        json.push('u');
        json.push('0');
        json.push('0');
        json.push(hex_digit((c as u32 / 16) as u8));
        json.push(hex_digit((c as u32 % 16) as u8));
    } else {
        json.push(c);
    }
    proof {
        assert(json@ =~= old(json)@ + escaped_char(c));
    }
}

/// What a backslash and the character stand for.
pub open spec fn short_escape(c: char) -> Option<char> {
    if c == '"' || c == '\\' || c == '/' {
        Some(c)
    } else if c == 'b' {
        Some('\u{8}')
    } else if c == 'f' {
        Some('\u{c}')
    } else if c == 'n' {
        Some('\n')
    } else if c == 'r' {
        Some('\r')
    } else if c == 't' {
        Some('\t')
    } else {
        None
    }
}

/// The character with the number that four hexadecimal digits write. Half of a pair of surrogates
/// is none.
pub open spec fn long_escape(digits: Seq<char>) -> Option<char> {
    let n = value_in_base(digits, 16);
    if digits.len() == 4 && (forall|i: int| 0 <= i < 4 ==> digit_in_base(#[trigger] digits[i]) < 16)
        && !(0xd800 <= n <= 0xdfff) {
        Some(n as char)
    } else {
        None
    }
}

/// A character before a text, if it is one.
pub open spec fn prepended(c: char, s: Option<Seq<char>>) -> Option<Seq<char>> {
    match s {
        Some(s) => Some(seq![c] + s),
        None => None,
    }
}

/// The text that the inside of a JSON string stands for; `None` where it may not stand there.
pub open spec fn unescaped(t: Seq<char>) -> Option<Seq<char>>
    decreases t.len(),
{
    if t.len() == 0 {
        Some(Seq::empty())
    } else if t[0] == '\\' {
        if t.len() >= 2 && short_escape(t[1]) is Some {
            prepended(short_escape(t[1])->Some_0, unescaped(t.skip(2)))
        } else if t.len() >= 6 && t[1] == 'u' && long_escape(t.subrange(2, 6)) is Some {
            prepended(long_escape(t.subrange(2, 6))->Some_0, unescaped(t.skip(6)))
        } else {
            None
        }
    } else if t[0] == '"' || t[0] <= '\u{1f}' {
        None
    } else {
        prepended(t[0], unescaped(t.skip(1)))
    }
}

/// An escaped character is read as that character.
proof fn lemma_unescaped_char(c: char, rest: Seq<char>)
    ensures
        unescaped(escaped_char(c) + rest) == prepended(c, unescaped(rest)),
{
    let t = escaped_char(c) + rest;
    assert(t.skip(escaped_char(c).len() as int) =~= rest);
    if c != '"' && c != '\\' && c <= '\u{1f}' {
        let high = hex_char(c as nat / 16);
        let low = hex_char(c as nat % 16);
        let digits = t.subrange(2, 6);
        assert(digits =~= seq!['0', '0', high, low]);
        assert(digit_in_base(high) == c as nat / 16 && digit_in_base(low) == c as nat % 16);
        assert(digits.drop_last() =~= seq!['0', '0', high]);
        assert(digits.drop_last().drop_last() =~= seq!['0', '0']);
        assert(digits.drop_last().drop_last().drop_last() =~= seq!['0']);
        assert(seq!['0'].drop_last() =~= Seq::<char>::empty());
        reveal_with_fuel(value_in_base, 5);
        assert(value_in_base(digits, 16) == c as nat);
        assert(long_escape(digits) == Some(c));
    }
}

/// The first character of an escaped text.
proof fn lemma_escaped_front(s: Seq<char>)
    requires
        s.len() > 0,
    ensures
        escaped(s) == escaped_char(s[0]) + escaped(s.drop_first()),
    decreases s.len(),
{
    if s.len() == 1 {
        assert(s.drop_last() =~= Seq::<char>::empty());
        assert(s.drop_first() =~= Seq::<char>::empty());
        assert(escaped(s) =~= escaped_char(s[0]));
    } else {
        let t = s.drop_last();
        lemma_escaped_front(t);
        assert(s.drop_first().drop_last() =~= t.drop_first());
        assert(escaped(s) =~= escaped_char(s[0]) + escaped(s.drop_first()));
    }
}

/// An escaped text is the inside of a JSON string that stands for the text.
pub proof fn law_escaped_text_reads_back(s: Seq<char>)
    ensures
        unescaped(escaped(s)) == Some(s),
    decreases s.len(),
{
    if s.len() == 0 {
        assert(s =~= Seq::<char>::empty());
    } else {
        let rest = s.drop_first();
        lemma_escaped_front(s);
        lemma_unescaped_char(s[0], escaped(rest));
        law_escaped_text_reads_back(rest);
        assert(seq![s[0]] + rest =~= s);
    }
}

proof fn lemma_escaped_char_is_plain(c: char)
    ensures
        forall|i: int| 0 <= i < escaped_char(c).len() ==> #[trigger] escaped_char(c)[i] >= ' ',
        forall|i: int|
            0 <= i < escaped_char(c).len() && #[trigger] escaped_char(c)[i] == '"' ==> i > 0
                && escaped_char(c)[i - 1] == '\\',
{
    if c <= '\u{1f}' {
        let high = hex_char(c as nat / 16);
        let low = hex_char(c as nat % 16);
        assert(high >= '0' && low >= '0');
        assert(escaped_char(c) =~= seq!['\\', 'u', '0', '0', high, low]);
    }
}

/// An escaped text holds no control character, and no quote without a backslash before it.
pub proof fn law_escaped_text_is_plain(s: Seq<char>)
    ensures
        forall|i: int| 0 <= i < escaped(s).len() ==> #[trigger] escaped(s)[i] >= ' ',
        forall|i: int|
            0 <= i < escaped(s).len() && #[trigger] escaped(s)[i] == '"' ==> i > 0 && escaped(s)[i
                - 1] == '\\',
    decreases s.len(),
{
    if s.len() > 0 {
        let t = escaped(s.drop_last());
        let c = escaped_char(s.last());
        law_escaped_text_is_plain(s.drop_last());
        lemma_escaped_char_is_plain(s.last());
        assert forall|i: int| 0 <= i < (t + c).len() implies #[trigger] (t + c)[i] >= ' ' by {
            if i < t.len() {
                assert((t + c)[i] == t[i]);
            } else {
                assert((t + c)[i] == c[i - t.len()]);
            }
        }
        assert forall|i: int| 0 <= i < (t + c).len() && #[trigger] (t + c)[i] == '"' implies i > 0
            && (t + c)[i - 1] == '\\' by {
            if i < t.len() {
                assert((t + c)[i] == t[i]);
            } else {
                assert((t + c)[i] == c[i - t.len()]);
            }
        }
    }
}

/// A character that stands in a JSON string as it is.
pub open spec fn is_ordinary(c: char) -> bool {
    c != '"' && c != '\\' && c >= ' '
}

/// An ordinary text stays as it is.
pub proof fn law_ordinary_text_stays(s: Seq<char>)
    requires
        forall|i: int| 0 <= i < s.len() ==> is_ordinary(#[trigger] s[i]),
    ensures
        escaped(s) == s,
    decreases s.len(),
{
    if s.len() == 0 {
        assert(s =~= Seq::<char>::empty());
    } else {
        let t = s.drop_last();
        assert forall|i: int| 0 <= i < t.len() implies is_ordinary(#[trigger] t[i]) by {
            assert(t[i] == s[i]);
        }
        assert(is_ordinary(s[s.len() - 1]));
        law_ordinary_text_stays(t);
        assert(t + seq![s.last()] =~= s);
    }
}

/// The parts, with a comma between each two.
pub open spec fn joined(parts: Seq<Seq<char>>) -> Seq<char>
    decreases parts.len(),
{
    if parts.len() == 0 {
        Seq::empty()
    } else if parts.len() == 1 {
        parts[0]
    } else {
        joined(parts.drop_last()) + seq![','] + parts.last()
    }
}

pub(crate) proof fn lemma_joined_push(parts: Seq<Seq<char>>, part: Seq<char>)
    ensures
        joined(parts.push(part)) == if parts.len() == 0 {
            part
        } else {
            joined(parts) + seq![','] + part
        },
{
    assert(parts.push(part).drop_last() =~= parts);
}

pub open spec fn spaces(n: nat) -> Seq<char> {
    Seq::new(n, |i: int| ' ')
}

/// A value, with the spaces around it.
pub struct Padded {
    pub before: nat,
    pub value: Seq<char>,
    pub behind: nat,
}

impl Padded {
    pub open spec fn text(self) -> Seq<char> {
        spaces(self.before) + self.value + spaces(self.behind)
    }
}

/// A member of an object: its name, with the spaces before it, and its value.
pub struct Member {
    pub before: nat,
    pub name: Seq<char>,
    pub value: Padded,
}

impl Member {
    pub open spec fn text(self) -> Seq<char> {
        spaces(self.before) + self.name + seq![':'] + self.value.text()
    }
}

/// A JSON string.
pub open spec fn is_json_string(t: Seq<char>) -> bool {
    &&& t.len() >= 2
    &&& t[0] == '"'
    &&& t.last() == '"'
    &&& unescaped(t.subrange(1, t.len() - 1)) is Some
}

/// A JSON number without an exponent: the whole part has no leading zeros.
pub open spec fn is_json_number(t: Seq<char>) -> bool {
    let u = if t.len() > 0 && t[0] == '-' {
        t.skip(1)
    } else {
        t
    };
    is_number(u) && (whole_part(u).len() == 1 || whole_part(u)[0] != '0')
}

/// The text is an array of the values.
pub open spec fn is_array_of(t: Seq<char>, values: Seq<Padded>) -> bool {
    t == seq!['['] + joined(values.map_values(|v: Padded| v.text())) + seq![']']
}

/// The text is an object with the members.
pub open spec fn is_object_of(t: Seq<char>, members: Seq<Member>) -> bool {
    t == seq!['{'] + joined(members.map_values(|m: Member| m.text())) + seq!['}']
}

/// The text is JSON, with arrays and objects inside each other to the given depth at most.
pub open spec fn is_json(t: Seq<char>, depth: nat) -> bool
    decreases depth,
{
    ||| is_json_string(t)
    ||| is_json_number(t)
    ||| depth > 0 && exists|values: Seq<Padded>| #[trigger]
        is_array_of(t, values) && forall|i: int|
            0 <= i < values.len() ==> is_json((#[trigger] values[i]).value, (depth - 1) as nat)
    ||| depth > 0 && exists|members: Seq<Member>| #[trigger]
        is_object_of(t, members) && forall|i: int|
            0 <= i < members.len() ==> is_json_string((#[trigger] members[i]).name) && is_json(
                members[i].value.value,
                (depth - 1) as nat,
            )
}

/// A text as a JSON string.
pub open spec fn quoted(s: Seq<char>) -> Seq<char> {
    seq!['"'] + escaped(s) + seq!['"']
}

/// A text in quotes, with what has to be escaped, is a JSON string.
pub proof fn law_quoted_text_is_json(s: Seq<char>)
    ensures
        is_json_string(quoted(s)),
{
    let t = quoted(s);
    law_escaped_text_reads_back(s);
    assert(t.subrange(1, t.len() - 1) =~= escaped(s));
}

} // verus!
