//! Strings as sequences of characters.

use vstd::prelude::*;

verus! {

/// `String::push` appends one character to the end of the string.
pub assume_specification[ String::push ](s: &mut String, c: char)
    ensures
        final(s)@ == old(s)@.push(c),
;

/// The characters of a string, as a vector.
pub fn to_chars(s: &str) -> (chars: Vec<char>)
    ensures
        chars@ == s@,
{
    let mut chars: Vec<char> = Vec::new();
    for c in it: s.chars()
        invariant
            chars@ == it.seq().take(it.index()),
            it.seq() == s@,
    {
        chars.push(c);
    }
    chars
}

/// The position of the first `c` in `s`, or the length of `s` where there is none.
pub open spec fn position(s: Seq<char>, c: char) -> nat
    decreases s.len(),
{
    if s.len() == 0 || s[0] == c {
        0
    } else {
        1 + position(s.drop_first(), c)
    }
}

/// What tells the position of the first `c` from all others.
pub proof fn lemma_position(s: Seq<char>, c: char, p: nat)
    requires
        p <= s.len(),
        p < s.len() ==> s[p as int] == c,
        forall|i: int| 0 <= i < p ==> #[trigger] s[i] != c,
    ensures
        position(s, c) == p,
    decreases p,
{
    if p > 0 {
        let t = s.drop_first();
        assert forall|i: int| 0 <= i < p - 1 implies #[trigger] t[i] != c by {
            assert(t[i] == s[i + 1]);
        }
        assert(s[0] != c);
        lemma_position(t, c, (p - 1) as nat);
    }
}

/// The position of the first `c` at or behind `from`, or the number of characters where there is
/// none.
pub fn find(chars: &Vec<char>, c: char, from: usize) -> (p: usize)
    requires
        from <= chars.len(),
    ensures
        from <= p <= chars.len(),
        p < chars.len() ==> chars@[p as int] == c,
        forall|i: int| from <= i < p ==> #[trigger] chars@[i] != c,
        p == from + position(chars@.skip(from as int), c),
{
    let mut p: usize = from;
    while p < chars.len() && chars[p] != c
        invariant
            from <= p <= chars.len(),
            forall|i: int| from <= i < p ==> #[trigger] chars@[i] != c,
        decreases chars.len() - p,
    {
        p += 1;
    }
    proof {
        let s = chars@.skip(from as int);
        assert forall|i: int| 0 <= i < p - from implies #[trigger] s[i] != c by {
            assert(s[i] == chars@[i + from]);
        }
        lemma_position(s, c, (p - from) as nat);
    }
    p
}

/// The characters with the Unicode property White_Space.
pub open spec fn is_whitespace(c: char) -> bool {
    ||| '\u{9}' <= c <= '\u{d}'
    ||| c == '\u{20}'
    ||| c == '\u{85}'
    ||| c == '\u{a0}'
    ||| c == '\u{1680}'
    ||| '\u{2000}' <= c <= '\u{200a}'
    ||| '\u{2028}' <= c <= '\u{2029}'
    ||| c == '\u{202f}'
    ||| c == '\u{205f}'
    ||| c == '\u{3000}'
}

fn check_whitespace(c: char) -> (b: bool)
    ensures
        b == is_whitespace(c),
{
    ('\u{9}' <= c && c <= '\u{d}') || c == '\u{20}' || c == '\u{85}' || c == '\u{a0}' || c
        == '\u{1680}' || ('\u{2000}' <= c && c <= '\u{200a}') || ('\u{2028}' <= c && c
        <= '\u{2029}') || c == '\u{202f}' || c == '\u{205f}' || c == '\u{3000}'
}

/// `s` without the whitespace at its end.
pub open spec fn trimmed_end(s: Seq<char>) -> Seq<char>
    decreases s.len(),
{
    if s.len() > 0 && is_whitespace(s.last()) {
        trimmed_end(s.drop_last())
    } else {
        s
    }
}

/// `s` without the whitespace at its start and at its end.
pub open spec fn trimmed(s: Seq<char>) -> Seq<char>
    decreases s.len(),
{
    if s.len() > 0 && is_whitespace(s[0]) {
        trimmed(s.drop_first())
    } else {
        trimmed_end(s)
    }
}

/// A text without whitespace at its ends stays as it is.
pub proof fn lemma_trimmed_same(s: Seq<char>)
    requires
        s.len() > 0 ==> !is_whitespace(s[0]) && !is_whitespace(s.last()),
    ensures
        trimmed(s) == s,
{
}

/// The string without the whitespace at its start and at its end.
pub fn trim(s: &str) -> (r: &str)
    ensures
        r@ == trimmed(s@),
{
    let chars = to_chars(s);
    let mut from: usize = 0;
    proof {
        assert(s@.skip(0) =~= s@);
    }
    while from < chars.len() && check_whitespace(chars[from])
        invariant
            from <= chars.len(),
            chars@ == s@,
            trimmed(s@) == trimmed(s@.skip(from as int)),
        decreases chars.len() - from,
    {
        proof {
            assert(s@.skip(from as int).drop_first() =~= s@.skip(from + 1));
        }
        from += 1;
    }
    let mut to: usize = chars.len();
    proof {
        assert(s@.skip(from as int) =~= s@.subrange(from as int, to as int));
    }
    while to > from && check_whitespace(chars[to - 1])
        invariant
            from <= to <= chars.len(),
            chars@ == s@,
            trimmed(s@) == trimmed_end(s@.subrange(from as int, to as int)),
        decreases to,
    {
        proof {
            assert(s@.subrange(from as int, to as int).drop_last() =~= s@.subrange(
                from as int,
                to - 1,
            ));
        }
        to -= 1;
    }
    s.substring_char(from, to)
}

/// `text` behind as many spaces as bring it up to `width` characters.
pub open spec fn right_aligned(text: Seq<char>, width: nat) -> Seq<char> {
    if text.len() < width {
        Seq::new((width - text.len()) as nat, |i: int| ' ') + text
    } else {
        text
    }
}

/// The text behind as many spaces as bring it up to `width` characters.
pub fn align_right(text: &str, width: usize) -> (r: String)
    ensures
        r@ == right_aligned(text@, width as nat),
{
    let n = text.unicode_len();
    let mut r = String::new();
    let mut i: usize = n;
    while i < width
        invariant
            n <= i,
            n < width ==> i <= width,
            n >= width ==> i == n,
            r@ == Seq::new((i - n) as nat, |i: int| ' '),
        decreases width - i,
    {
        r.push(' ');
        i += 1;
        proof {
            assert(r@ =~= Seq::new((i - n) as nat, |i: int| ' '));
        }
    }
    r.append(text);
    proof {
        assert(r@ =~= right_aligned(text@, width as nat));
    }
    r
}

/// The text between whitespace: what is left is all but whitespace at both ends, and neither begins
/// nor ends with any.
pub proof fn law_trimmed_text(s: Seq<char>)
    ensures
        exists|before: nat, behind: nat| #[trigger] is_trimmed(s, trimmed(s), before, behind),
    decreases s.len(),
{
    if s.len() > 0 && is_whitespace(s[0]) {
        let t = s.drop_first();
        law_trimmed_text(t);
        let (before, behind) = choose|before: nat, behind: nat| #[trigger]
            is_trimmed(t, trimmed(t), before, behind);
        assert forall|i: int| 0 <= i < before + 1 implies is_whitespace(#[trigger] s[i]) by {
            if i > 0 {
                assert(s[i] == t[i - 1]);
            }
        }
        assert forall|i: int| s.len() - behind <= i < s.len() implies is_whitespace(
            #[trigger] s[i],
        ) by {
            assert(s[i] == t[i - 1]);
        }
        assert(s.subrange((before + 1) as int, s.len() - behind) =~= t.subrange(
            before as int,
            t.len() - behind,
        ));
        assert(is_trimmed(s, trimmed(s), before + 1, behind));
    } else {
        let behind = lemma_trimmed_end(s);
        assert(is_trimmed(s, trimmed(s), 0, behind));
    }
}

/// `t` is `s` without the first and the last so many characters, all of them whitespace, and has no
/// whitespace at its ends.
pub open spec fn is_trimmed(s: Seq<char>, t: Seq<char>, before: nat, behind: nat) -> bool {
    &&& before + behind <= s.len()
    &&& t == s.subrange(before as int, s.len() - behind)
    &&& forall|i: int| 0 <= i < before ==> is_whitespace(#[trigger] s[i])
    &&& forall|i: int| s.len() - behind <= i < s.len() ==> is_whitespace(#[trigger] s[i])
    &&& t.len() > 0 ==> !is_whitespace(t[0]) && !is_whitespace(t.last())
}

proof fn lemma_trimmed_end(s: Seq<char>) -> (behind: nat)
    ensures
        behind <= s.len(),
        trimmed_end(s) == s.take(s.len() - behind),
        forall|i: int| s.len() - behind <= i < s.len() ==> is_whitespace(#[trigger] s[i]),
        trimmed_end(s).len() > 0 ==> !is_whitespace(trimmed_end(s).last()),
    decreases s.len(),
{
    if s.len() > 0 && is_whitespace(s.last()) {
        let t = s.drop_last();
        let behind = lemma_trimmed_end(t);
        assert forall|i: int| s.len() - (behind + 1) <= i < s.len() implies is_whitespace(
            #[trigger] s[i],
        ) by {
            if i < t.len() {
                assert(s[i] == t[i]);
            }
        }
        assert(t.take(t.len() - behind) =~= s.take(s.len() - (behind + 1)));
        behind + 1
    } else {
        assert(s.take(s.len() as int) =~= s);
        0
    }
}

} // verus!
