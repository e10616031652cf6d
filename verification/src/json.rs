//! Strings as JSON writes them.

use vstd::prelude::*;

use crate::config::hex_digit;
use crate::text::chars_of;

verus! {

// ---------------------------------------------------------------------------
// Model
// ---------------------------------------------------------------------------

/// The hexadecimal digit of a value.
pub open spec fn digit(d: int) -> char {
    "0123456789abcdef"@[d]
}

/// The character is a control character.
pub open spec fn is_control(c: char) -> bool {
    '\u{0}' <= c <= '\u{1f}'
}

/// How a string holds a character: quotes and backslashes behind a backslash,
/// control characters by their number, any other as it is.
pub open spec fn escape_of(c: char) -> Seq<char> {
    if c == '"' || c == '\\' {
        seq!['\\', c]
    } else if is_control(c) {
        seq!['\\', 'u', '0', '0', digit(c as int / 16), digit(c as int % 16)]
    } else {
        seq![c]
    }
}

/// The inside of the string that stands for the text.
pub open spec fn escaped(s: Seq<char>) -> Seq<char>
    decreases s.len(),
{
    if s.len() == 0 {
        Seq::empty()
    } else {
        escaped(s.drop_last()) + escape_of(s.last())
    }
}

/// The character that a letter behind a backslash stands for.
pub open spec fn short_escape(c: char) -> Option<char> {
    if c == '"' || c == '\\' || c == '/' {
        Some(c)
    } else if c == 'b' {
        Some('\u{8}')
    } else if c == 'f' {
        Some('\u{c}')
    } else if c == 'n' {
        Some('\n')
    } else if c == 'r' {
        Some('\r')
    } else if c == 't' {
        Some('\t')
    } else {
        None
    }
}

/// The character with the number that four hexadecimal digits give; none for
/// half a pair of surrogates.
pub open spec fn numbered(a: char, b: char, c: char, d: char) -> Option<char> {
    match (hex_digit(a), hex_digit(b), hex_digit(c), hex_digit(d)) {
        (Some(w), Some(x), Some(y), Some(z)) => {
            let n = w * 4096 + x * 256 + y * 16 + z;
            if 0xD800 <= n <= 0xDFFF {
                None
            } else {
                Some(n as char)
            }
        },
        _ => None,
    }
}

/// The text with a character in front.
pub open spec fn behind(c: Option<char>, rest: Option<Seq<char>>) -> Option<Seq<char>> {
    match (c, rest) {
        (Some(c), Some(r)) => Some(seq![c] + r),
        _ => None,
    }
}

/// The text that the inside of a string stands for. None where it is not the
/// inside of a string, or names a character by a pair of surrogates.
pub open spec fn unescaped(t: Seq<char>) -> Option<Seq<char>>
    decreases t.len(),
{
    if t.len() == 0 {
        Some(Seq::empty())
    } else if t[0] == '\\' {
        if t.len() >= 6 && t[1] == 'u' {
            behind(numbered(t[2], t[3], t[4], t[5]), unescaped(t.skip(6)))
        } else if t.len() >= 2 {
            behind(short_escape(t[1]), unescaped(t.skip(2)))
        } else {
            None
        }
    } else if t[0] == '"' || is_control(t[0]) {
        None
    } else {
        behind(Some(t[0]), unescaped(t.skip(1)))
    }
}

/// The text is an object with one entry, of this name, whose value is a string
/// that stands for `value`.
pub open spec fn is_single_entry(text: Seq<char>, name: Seq<char>, value: Seq<char>) -> bool {
    exists|body: Seq<char>|
        #![trigger unescaped(body)]
        text == "{\""@ + name + "\":\""@ + body + "\"}"@ && unescaped(body) == Some(value)
}

// ---------------------------------------------------------------------------
// Operations
// ---------------------------------------------------------------------------

/// The inside of the string that stands for the text.
pub fn escape(s: &str) -> (r: String)
    ensures
        r@ == escaped(s@),
{
    let v = chars_of(s);
    let digits = chars_of("0123456789abcdef");
    let mut out = String::new();
    let mut i: usize = 0;
    proof {
        reveal_strlit("0123456789abcdef");
        assert(v@.take(0) =~= Seq::empty());
    }
    while i < v.len()
        invariant
            i <= v.len(),
            v@ == s@,
            digits@ == "0123456789abcdef"@,
            digits.len() == 16,
            out@ == escaped(v@.take(i as int)),
        decreases v.len() - i,
    {
        let c = v[i];
        let ghost before = out@;
        if c == '"' || c == '\\' {
            out.push('\\');
            out.push(c);
        } else if '\u{0}' <= c && c <= '\u{1f}' {
            let n: u32 = c as u32;
            out.push('\\');
            out.push('u');
            out.push('0');
            out.push('0');
            out.push(digits[(n / 16) as usize]);
            out.push(digits[(n % 16) as usize]);
        } else {
            out.push(c);
        }
        proof {
            assert(out@ =~= before + escape_of(c));
            assert(v@.take(i + 1).drop_last() =~= v@.take(i as int));
            assert(v@.take(i + 1).last() == c);
        }
        i += 1;
    }
    assert(v@.take(i as int) =~= v@);
    out
}

// ---------------------------------------------------------------------------
// Laws
// ---------------------------------------------------------------------------

/// The inside for two texts is the two insides.
pub proof fn lemma_escaped_join(a: Seq<char>, b: Seq<char>)
    ensures
        escaped(a + b) == escaped(a) + escaped(b),
    decreases b.len(),
{
    if b.len() == 0 {
        assert(a + b =~= a);
        assert(escaped(a) + escaped(b) =~= escaped(a));
    } else {
        lemma_escaped_join(a, b.drop_last());
        assert((a + b).drop_last() =~= a + b.drop_last());
        assert((a + b).last() == b.last());
        assert(escaped(a + b) =~= escaped(a) + escaped(b));
    }
}

/// A text without quotes, backslashes and control characters stays as it is.
pub proof fn lemma_escaped_plain(s: Seq<char>)
    requires
        forall|i: int|
            0 <= i < s.len() ==> !is_control(#[trigger] s[i]) && s[i] != '"' && s[i] != '\\',
    ensures
        escaped(s) == s,
    decreases s.len(),
{
    if s.len() > 0 {
        lemma_escaped_plain(s.drop_last());
        assert(!is_control(s[s.len() - 1]));
        assert(escaped(s) =~= s);
    }
}

/// What was escaped in front is read first.
proof fn lemma_unescape_one(c: char, rest: Seq<char>)
    ensures
        unescaped(escape_of(c) + rest) == behind(Some(c), unescaped(rest)),
{
    let t = escape_of(c) + rest;
    if c == '"' || c == '\\' {
        assert(t.skip(2) =~= rest);
        assert(t[0] == '\\' && t[1] == c);
    } else if is_control(c) {
        reveal_strlit("0123456789abcdef");
        let n = c as int;
        assert(t.skip(6) =~= rest);
        assert(t[0] == '\\' && t[1] == 'u' && t[2] == '0' && t[3] == '0');
        assert(t[4] == digit(n / 16) && t[5] == digit(n % 16));
        assert(hex_digit(digit(n / 16)) == Some(n / 16));
        assert(hex_digit(digit(n % 16)) == Some(n % 16));
        assert(hex_digit('0') == Some(0int));
        assert(n == (n / 16) * 16 + n % 16);
        assert(numbered(t[2], t[3], t[4], t[5]) == Some(c));
    } else {
        assert(t.skip(1) =~= rest);
        assert(t[0] == c);
    }
}

proof fn lemma_unescape(s: Seq<char>, rest: Seq<char>)
    ensures
        unescaped(escaped(s) + rest) == match unescaped(rest) {
            Some(r) => Some(s + r),
            None => None,
        },
    decreases s.len(),
{
    if s.len() == 0 {
        assert(escaped(s) + rest =~= rest);
        if let Some(r) = unescaped(rest) {
            assert(s + r =~= r);
        }
    } else {
        let front = s.drop_last();
        let c = s.last();
        assert(escaped(s) + rest =~= escaped(front) + (escape_of(c) + rest));
        lemma_unescape(front, escape_of(c) + rest);
        lemma_unescape_one(c, rest);
        if let Some(r) = unescaped(rest) {
            assert(front + (seq![c] + r) =~= s + r);
        }
    }
}

/// Every text reads back from its escaped form, which holds no control
/// character and so stays on one line.
pub proof fn law_escape_read_back(s: Seq<char>)
    ensures
        unescaped(escaped(s)) == Some(s),
        forall|i: int| 0 <= i < escaped(s).len() ==> !is_control(#[trigger] escaped(s)[i]),
    decreases s.len(),
{
    lemma_unescape(s, Seq::empty());
    assert(escaped(s) + Seq::<char>::empty() =~= escaped(s));
    assert(s + Seq::<char>::empty() =~= s);
    if s.len() > 0 {
        law_escape_read_back(s.drop_last());
        reveal_strlit("0123456789abcdef");
        assert forall|i: int| 0 <= i < escaped(s).len() implies !is_control(
            #[trigger] escaped(s)[i],
        ) by {
            let front = escaped(s.drop_last());
            if i < front.len() {
                assert(!is_control(front[i]));
            } else {
                assert(escaped(s)[i] == escape_of(s.last())[i - front.len()]);
            }
        }
    }
}

} // verus!
