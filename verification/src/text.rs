//! Text as lists of characters.

use vstd::prelude::*;

verus! {

/// `String::push` of std appends one character.
pub assume_specification[ String::push ](s: &mut String, c: char)
    ensures
        final(s)@ == old(s)@.push(c),
;

// ---------------------------------------------------------------------------
// Model
// ---------------------------------------------------------------------------

/// The characters with the Unicode property White_Space.
pub open spec fn is_space(c: char) -> bool {
    ||| '\u{9}' <= c <= '\u{d}'
    ||| c == '\u{20}'
    ||| c == '\u{85}'
    ||| c == '\u{a0}'
    ||| c == '\u{1680}'
    ||| '\u{2000}' <= c <= '\u{200a}'
    ||| c == '\u{2028}'
    ||| c == '\u{2029}'
    ||| c == '\u{202f}'
    ||| c == '\u{205f}'
    ||| c == '\u{3000}'
}

/// Where the first character from `i` on stands that is no space.
pub open spec fn past_spaces(s: Seq<char>, i: int) -> int
    decreases s.len() - i,
{
    if 0 <= i < s.len() && is_space(s[i]) {
        past_spaces(s, i + 1)
    } else {
        i
    }
}

/// Where the first space from `i` on stands.
pub open spec fn past_word(s: Seq<char>, i: int) -> int
    decreases s.len() - i,
{
    if 0 <= i < s.len() && !is_space(s[i]) {
        past_word(s, i + 1)
    } else {
        i
    }
}

/// The text without spaces at its end.
pub open spec fn trim_end(s: Seq<char>) -> Seq<char>
    decreases s.len(),
{
    if s.len() > 0 && is_space(s.last()) {
        trim_end(s.drop_last())
    } else {
        s
    }
}

/// The text without spaces at either end.
pub open spec fn trimmed(s: Seq<char>) -> Seq<char> {
    trim_end(s.skip(past_spaces(s, 0)))
}

/// The words from `i` on: the longest runs without spaces.
pub open spec fn words_from(s: Seq<char>, i: int) -> Seq<Seq<char>>
    decreases s.len() - i,
{
    let start = past_spaces(s, i);
    let end = past_word(s, start);
    if 0 <= i <= start < end <= s.len() {
        seq![s.subrange(start, end)] + words_from(s, end)
    } else {
        Seq::empty()
    }
}

/// The words of the text.
pub open spec fn words(s: Seq<char>) -> Seq<Seq<char>> {
    words_from(s, 0)
}

/// The parts of the text between separators, of which there is one more than
/// separators.
pub open spec fn split_by(s: Seq<char>, sep: char) -> Seq<Seq<char>>
    decreases s.len(),
{
    if s.len() == 0 {
        seq![Seq::empty()]
    } else {
        let front = split_by(s.drop_last(), sep);
        if s.last() == sep {
            front.push(Seq::empty())
        } else {
            front.update(front.len() - 1, front.last().push(s.last()))
        }
    }
}

/// The text starts with the prefix.
pub open spec fn starts(s: Seq<char>, prefix: Seq<char>) -> bool {
    prefix.len() <= s.len() && s.take(prefix.len() as int) == prefix
}

/// The models of a list of texts.
pub open spec fn texts(v: Seq<Vec<char>>) -> Seq<Seq<char>> {
    v.map_values(|t: Vec<char>| t@)
}

/// An ASCII capital as its small letter, any other character as it is.
pub open spec fn ascii_small(c: char) -> char {
    if 'A' <= c <= 'Z' {
        ((c as u32) + 32) as char
    } else {
        c
    }
}

/// All characters are ASCII.
pub open spec fn is_ascii(s: Seq<char>) -> bool {
    forall|i: int| 0 <= i < s.len() ==> #[trigger] s[i] < '\u{80}'
}

/// The text with its ASCII capitals as small letters.
pub open spec fn ascii_lower(s: Seq<char>) -> Seq<char> {
    s.map_values(|c: char| ascii_small(c))
}

/// The two texts agree up to the case of ASCII letters.
pub open spec fn same_ignoring_case(a: Seq<char>, b: Seq<char>) -> bool {
    &&& a.len() == b.len()
    &&& forall|i: int| 0 <= i < a.len() ==> ascii_small(#[trigger] a[i]) == ascii_small(b[i])
}

/// The other text stands in the text at `i`.
pub open spec fn stands_at(s: Seq<char>, t: Seq<char>, i: int) -> bool {
    &&& 0 <= i
    &&& i + t.len() <= s.len()
    &&& s.subrange(i, i + t.len()) == t
}

/// The other text stands somewhere in the text.
pub open spec fn has_part(s: Seq<char>, t: Seq<char>) -> bool {
    exists|i: int| #[trigger] stands_at(s, t, i)
}

/// The first `n` texts with the separator between them.
pub open spec fn joined(parts: Seq<Seq<char>>, sep: Seq<char>, n: int) -> Seq<char>
    decreases n,
{
    if n <= 0 {
        Seq::empty()
    } else if n == 1 {
        parts[0]
    } else {
        joined(parts, sep, n - 1) + sep + parts[n - 1]
    }
}

/// The models of a list of strings.
pub open spec fn strings(v: Seq<String>) -> Seq<Seq<char>> {
    v.map_values(|t: String| t@)
}

// ---------------------------------------------------------------------------
// Operations
// ---------------------------------------------------------------------------

/// The characters of a text.
pub fn chars_of(s: &str) -> (r: Vec<char>)
    ensures
        r@ == s@,
{
    let mut out: Vec<char> = Vec::new();
    for c in it: s.chars()
        invariant
            out@ == it.seq().take(it.index() as int),
            it.seq() == s@,
    {
        out.push(c);
        assert(it.seq().take(it.index() + 1) =~= it.seq().take(it.index() as int).push(c));
    }
    out
}

/// The text of these characters.
pub fn string_of(v: &Vec<char>) -> (r: String)
    ensures
        r@ == v@,
{
    let mut out = String::new();
    let mut i: usize = 0;
    assert(out@ =~= v@.take(0));
    while i < v.len()
        invariant
            i <= v.len(),
            out@ == v@.take(i as int),
        decreases v.len() - i,
    {
        out.push(v[i]);
        assert(v@.take(i + 1) =~= v@.take(i as int).push(v@[i as int]));
        i += 1;
    }
    assert(v@.take(i as int) =~= v@);
    out
}

/// The characters from `from` up to `to`.
pub fn part(v: &Vec<char>, from: usize, to: usize) -> (r: Vec<char>)
    requires
        from <= to <= v.len(),
    ensures
        r@ == v@.subrange(from as int, to as int),
{
    let mut out: Vec<char> = Vec::new();
    let mut i: usize = from;
    while i < to
        invariant
            from <= i <= to <= v.len(),
            out@ == v@.subrange(from as int, i as int),
        decreases to - i,
    {
        out.push(v[i]);
        assert(v@.subrange(from as int, i + 1) =~= v@.subrange(from as int, i as int).push(
            v@[i as int],
        ));
        i += 1;
    }
    out
}

/// The two lists of characters are the same.
pub fn same_chars(a: &Vec<char>, b: &Vec<char>) -> (r: bool)
    ensures
        r == (a@ == b@),
{
    if a.len() != b.len() {
        return false;
    }
    let mut i: usize = 0;
    while i < a.len()
        invariant
            i <= a.len(),
            a.len() == b.len(),
            forall|j: int| 0 <= j < i ==> a@[j] == b@[j],
        decreases a.len() - i,
    {
        if a[i] != b[i] {
            return false;
        }
        i += 1;
    }
    assert(a@ =~= b@);
    true
}

/// The characters spell the text.
pub fn is_text(v: &Vec<char>, text: &str) -> (r: bool)
    ensures
        r == (v@ == text@),
{
    let other = chars_of(text);
    same_chars(v, &other)
}

/// The character has the Unicode property White_Space.
pub fn is_whitespace(c: char) -> (r: bool)
    ensures
        r == is_space(c),
{
    ('\u{9}' <= c && c <= '\u{d}') || c == '\u{20}' || c == '\u{85}' || c == '\u{a0}' || c
        == '\u{1680}' || ('\u{2000}' <= c && c <= '\u{200a}') || c == '\u{2028}' || c == '\u{2029}'
        || c == '\u{202f}' || c == '\u{205f}' || c == '\u{3000}'
}

/// A run of spaces ends within the text.
pub proof fn lemma_past_spaces(s: Seq<char>, i: int)
    requires
        0 <= i <= s.len(),
    ensures
        i <= past_spaces(s, i) <= s.len(),
        past_spaces(s, i) < s.len() ==> !is_space(s[past_spaces(s, i)]),
    decreases s.len() - i,
{
    if i < s.len() && is_space(s[i]) {
        lemma_past_spaces(s, i + 1);
    }
}

/// A word ends within the text, and is not empty where none of it is a space.
pub proof fn lemma_past_word(s: Seq<char>, i: int)
    requires
        0 <= i <= s.len(),
    ensures
        i <= past_word(s, i) <= s.len(),
        i < s.len() && !is_space(s[i]) ==> i < past_word(s, i),
    decreases s.len() - i,
{
    if i < s.len() && !is_space(s[i]) {
        lemma_past_word(s, i + 1);
    }
}

/// Where the first character from `i` on stands that is no space.
fn skip_spaces(v: &Vec<char>, from: usize) -> (r: usize)
    requires
        from <= v.len(),
    ensures
        r == past_spaces(v@, from as int),
        from <= r <= v.len(),
{
    let mut i: usize = from;
    while i < v.len() && is_whitespace(v[i])
        invariant
            from <= i <= v.len(),
            past_spaces(v@, from as int) == past_spaces(v@, i as int),
        decreases v.len() - i,
    {
        i += 1;
    }
    i
}

/// Where the first space from `i` on stands.
fn skip_word(v: &Vec<char>, from: usize) -> (r: usize)
    requires
        from <= v.len(),
    ensures
        r == past_word(v@, from as int),
        from <= r <= v.len(),
{
    let mut i: usize = from;
    while i < v.len() && !is_whitespace(v[i])
        invariant
            from <= i <= v.len(),
            past_word(v@, from as int) == past_word(v@, i as int),
        decreases v.len() - i,
    {
        i += 1;
    }
    i
}

/// The text without spaces at either end.
pub fn trim(v: &Vec<char>) -> (r: Vec<char>)
    ensures
        r@ == trimmed(v@),
{
    let start: usize = skip_spaces(v, 0);
    let mut end: usize = v.len();
    let ghost rest = v@.skip(start as int);
    assert(v@.subrange(start as int, end as int) =~= rest);
    while end > start && is_whitespace(v[end - 1])
        invariant
            start <= end <= v.len(),
            rest == v@.skip(start as int),
            trim_end(rest) == trim_end(v@.subrange(start as int, end as int)),
        decreases end,
    {
        let ghost now = v@.subrange(start as int, end as int);
        assert(now.drop_last() =~= v@.subrange(start as int, end - 1));
        assert(now.last() == v@[end - 1]);
        end -= 1;
    }
    let ghost now = v@.subrange(start as int, end as int);
    assert(end > start ==> now.last() == v@[end - 1]);
    part(v, start, end)
}

/// The words of the text.
pub fn split_whitespace(v: &Vec<char>) -> (r: Vec<Vec<char>>)
    ensures
        texts(r@) == words(v@),
{
    let mut out: Vec<Vec<char>> = Vec::new();
    let mut i: usize = 0;
    assert(texts(out@) + words_from(v@, 0) =~= words(v@));
    loop
        invariant
            i <= v.len(),
            texts(out@) + words_from(v@, i as int) == words(v@),
        decreases v.len() - i,
    {
        let start: usize = skip_spaces(v, i);
        let end: usize = skip_word(v, start);
        if end == start {
            assert(words_from(v@, i as int) =~= Seq::empty());
            assert(texts(out@) =~= words(v@));
            return out;
        }
        let word = part(v, start, end);
        let ghost before = texts(out@);
        let ghost w = word@;
        out.push(word);
        proof {
            assert(texts(out@) =~= before.push(w));
            assert(words_from(v@, i as int) == seq![w] + words_from(v@, end as int));
            assert(before.push(w) + words_from(v@, end as int) =~= before + (seq![w] + words_from(
                v@,
                end as int,
            )));
        }
        i = end;
    }
}

/// A split text has at least one part.
pub proof fn lemma_split_some(s: Seq<char>, sep: char)
    ensures
        split_by(s, sep).len() >= 1,
    decreases s.len(),
{
    if s.len() > 0 {
        lemma_split_some(s.drop_last(), sep);
    }
}

/// The parts of the text between separators.
pub fn split(v: &Vec<char>, sep: char) -> (r: Vec<Vec<char>>)
    ensures
        texts(r@) == split_by(v@, sep),
        r.len() >= 1,
{
    let mut out: Vec<Vec<char>> = Vec::new();
    let mut cur: Vec<char> = Vec::new();
    let mut i: usize = 0;
    proof {
        assert(v@.take(0) =~= Seq::empty());
        assert(texts(out@).push(cur@) =~= split_by(v@.take(0), sep));
    }
    while i < v.len()
        invariant
            i <= v.len(),
            texts(out@).push(cur@) == split_by(v@.take(i as int), sep),
        decreases v.len() - i,
    {
        let c = v[i];
        let ghost done = texts(out@);
        let ghost open = cur@;
        proof {
            assert(v@.take(i + 1).drop_last() =~= v@.take(i as int));
            assert(v@.take(i + 1).last() == c);
            assert(done.push(open).last() == open);
        }
        if c == sep {
            let mut fresh: Vec<char> = Vec::new();
            std::mem::swap(&mut fresh, &mut cur);
            out.push(fresh);
            assert(texts(out@) =~= done.push(open));
        } else {
            cur.push(c);
            assert(done.push(cur@) =~= done.push(open).update(
                done.push(open).len() - 1,
                open.push(c),
            ));
        }
        i += 1;
    }
    let ghost done = texts(out@);
    let ghost open = cur@;
    out.push(cur);
    proof {
        assert(v@.take(i as int) =~= v@);
        assert(texts(out@) =~= done.push(open));
    }
    out
}

/// The text starts with the prefix.
pub fn starts_with(v: &Vec<char>, prefix: &str) -> (r: bool)
    ensures
        r == starts(v@, prefix@),
{
    let p = chars_of(prefix);
    if p.len() > v.len() {
        return false;
    }
    let head = part(v, 0, p.len());
    assert(v@.subrange(0, p.len() as int) =~= v@.take(p.len() as int));
    same_chars(&head, &p)
}

/// An ASCII capital as its small letter, any other character as it is.
fn small(c: char) -> (r: char)
    ensures
        r == ascii_small(c),
{
    if 'A' <= c && c <= 'Z' {
        ((c as u8) + 32) as char
    } else {
        c
    }
}

/// The two texts agree up to the case of ASCII letters.
pub fn eq_ignore_ascii_case(a: &Vec<char>, b: &Vec<char>) -> (r: bool)
    ensures
        r == same_ignoring_case(a@, b@),
{
    if a.len() != b.len() {
        return false;
    }
    let mut i: usize = 0;
    while i < a.len()
        invariant
            i <= a.len(),
            a.len() == b.len(),
            forall|j: int| 0 <= j < i ==> ascii_small(#[trigger] a@[j]) == ascii_small(b@[j]),
        decreases a.len() - i,
    {
        if small(a[i]) != small(b[i]) {
            return false;
        }
        i += 1;
    }
    true
}

/// Appends a text.
pub fn append(out: &mut String, text: &str)
    ensures
        final(out)@ == old(out)@ + text@,
{
    let v = chars_of(text);
    let mut i: usize = 0;
    assert(out@ + v@.take(0) =~= out@);
    while i < v.len()
        invariant
            i <= v.len(),
            out@ == old(out)@ + v@.take(i as int),
        decreases v.len() - i,
    {
        out.push(v[i]);
        assert(v@.take(i + 1) =~= v@.take(i as int).push(v@[i as int]));
        assert(out@ =~= old(out)@ + v@.take(i + 1));
        i += 1;
    }
    assert(v@.take(i as int) =~= v@);
}

/// The other text stands somewhere in the text.
pub fn contains(s: &str, t: &str) -> (r: bool)
    ensures
        r == has_part(s@, t@),
{
    let a = chars_of(s);
    let b = chars_of(t);
    if b.len() > a.len() {
        return false;
    }
    let mut i: usize = 0;
    while i <= a.len() - b.len()
        invariant
            a@ == s@,
            b@ == t@,
            b.len() <= a.len(),
            i <= a.len() - b.len() + 1,
            forall|k: int| 0 <= k < i ==> !#[trigger] stands_at(s@, t@, k),
        decreases a.len() - i,
    {
        let here = part(&a, i, i + b.len());
        if same_chars(&here, &b) {
            assert(stands_at(s@, t@, i as int));
            return true;
        }
        assert(!stands_at(s@, t@, i as int));
        if i == a.len() - b.len() {
            assert forall|k: int| !#[trigger] stands_at(s@, t@, k) by {
                if stands_at(s@, t@, k) {
                    assert(k <= i);
                }
            }
            return false;
        }
        i += 1;
    }
    false
}

/// The texts with the separator between them.
pub fn join(parts: &Vec<String>, sep: &str) -> (r: String)
    ensures
        r@ == joined(strings(parts@), sep@, parts.len() as int),
{
    let ghost views = strings(parts@);
    let mut out = String::new();
    let mut i: usize = 0;
    assert(out@ =~= joined(views, sep@, 0));
    while i < parts.len()
        invariant
            i <= parts.len(),
            views == strings(parts@),
            out@ == joined(views, sep@, i as int),
        decreases parts.len() - i,
    {
        let ghost before = out@;
        assert(views[i as int] == parts@[i as int]@);
        if i > 0 {
            append(&mut out, sep);
        }
        append(&mut out, parts[i].as_str());
        proof {
            if i > 0 {
                assert(out@ =~= before + sep@ + views[i as int]);
            } else {
                assert(out@ =~= views[0]);
            }
        }
        i += 1;
    }
    out
}

// ---------------------------------------------------------------------------
// Laws
// ---------------------------------------------------------------------------

proof fn lemma_spaces_passed(s: Seq<char>, i: int)
    requires
        0 <= i <= s.len(),
    ensures
        forall|k: int| i <= k < past_spaces(s, i) ==> is_space(#[trigger] s[k]),
    decreases s.len() - i,
{
    lemma_past_spaces(s, i);
    if i < s.len() && is_space(s[i]) {
        lemma_spaces_passed(s, i + 1);
    }
}

proof fn lemma_word_passed(s: Seq<char>, i: int)
    requires
        0 <= i <= s.len(),
    ensures
        forall|k: int| i <= k < past_word(s, i) ==> !is_space(#[trigger] s[k]),
        past_word(s, i) < s.len() ==> is_space(s[past_word(s, i)]),
    decreases s.len() - i,
{
    lemma_past_word(s, i);
    if i < s.len() && !is_space(s[i]) {
        lemma_word_passed(s, i + 1);
    }
}

proof fn lemma_trim_end(s: Seq<char>)
    ensures
        ({
            let n = trim_end(s).len();
            &&& n <= s.len()
            &&& trim_end(s) == s.take(n as int)
            &&& forall|k: int| n <= k < s.len() ==> is_space(#[trigger] s[k])
            &&& n > 0 ==> !is_space(s[n - 1])
        }),
    decreases s.len(),
{
    if s.len() > 0 && is_space(s.last()) {
        let t = s.drop_last();
        lemma_trim_end(t);
        let n = trim_end(t).len() as int;
        assert(t.take(n) =~= s.take(n));
        assert forall|k: int| n <= k < s.len() implies is_space(#[trigger] s[k]) by {
            if k < t.len() {
                assert(is_space(t[k]));
            }
        }
    } else {
        assert(s.take(s.len() as int) =~= s);
    }
}

/// Trimming takes just the spaces at the two ends: what is left is a part of the
/// text that neither starts nor ends with one.
pub proof fn law_trimmed(s: Seq<char>)
    ensures
        ({
            let t = trimmed(s);
            &&& t.len() > 0 ==> !is_space(t[0]) && !is_space(t[t.len() - 1])
            &&& exists|a: int|
                {
                    &&& #[trigger] stands_at(s, t, a)
                    &&& forall|k: int| 0 <= k < a ==> is_space(#[trigger] s[k])
                    &&& forall|k: int| a + t.len() <= k < s.len() ==> is_space(#[trigger] s[k])
                }
        }),
{
    let a = past_spaces(s, 0);
    lemma_past_spaces(s, 0);
    lemma_spaces_passed(s, 0);
    let rest = s.skip(a);
    lemma_trim_end(rest);
    let t = trimmed(s);
    assert(t =~= s.subrange(a, a + t.len()));
    assert(stands_at(s, t, a));
    assert forall|k: int| a + t.len() <= k < s.len() implies is_space(#[trigger] s[k]) by {
        assert(is_space(rest[k - a]));
    }
    if t.len() > 0 {
        assert(t[0] == s[a]);
    }
}

/// Spaces put round a text go with the others.
pub proof fn law_spaces_are_trimmed(s: Seq<char>, before: Seq<char>, behind: Seq<char>)
    requires
        forall|i: int| 0 <= i < before.len() ==> is_space(#[trigger] before[i]),
        forall|i: int| 0 <= i < behind.len() ==> is_space(#[trigger] behind[i]),
    ensures
        trimmed(before + s + behind) == trimmed(s),
{
    let all = before + s + behind;
    let b = before.len() as int;
    let t = trimmed(s);
    let u = trimmed(all);
    law_trimmed(s);
    law_trimmed(all);
    let a = choose|a: int|
        {
            &&& #[trigger] stands_at(s, t, a)
            &&& forall|k: int| 0 <= k < a ==> is_space(#[trigger] s[k])
            &&& forall|k: int| a + t.len() <= k < s.len() ==> is_space(#[trigger] s[k])
        };
    let c = choose|c: int|
        {
            &&& #[trigger] stands_at(all, u, c)
            &&& forall|k: int| 0 <= k < c ==> is_space(#[trigger] all[k])
            &&& forall|k: int| c + u.len() <= k < all.len() ==> is_space(#[trigger] all[k])
        };
    assert forall|k: int| 0 <= k < all.len() && !(b + a <= k < b + a + t.len()) implies is_space(
        #[trigger] all[k],
    ) by {
        if k < b {
            assert(all[k] == before[k]);
        } else if k < b + s.len() {
            assert(all[k] == s[k - b]);
        } else {
            assert(all[k] == behind[k - b - s.len()]);
        }
    }
    if t.len() > 0 {
        let e = t.len() - 1;
        assert(t[0] == s.subrange(a, a + t.len())[0]);
        assert(t[e] == s.subrange(a, a + t.len())[e]);
        assert(all[b + a] == t[0]);
        assert(all[b + a + e] == t[e]);
    }
    if u.len() > 0 {
        let e = u.len() - 1;
        assert(u[0] == all.subrange(c, c + u.len())[0]);
        assert(u[e] == all.subrange(c, c + u.len())[e]);
        assert(!is_space(all[c]));
        assert(!is_space(all[c + e]));
        assert(c == b + a);
        assert(u.len() == t.len());
        assert(u =~= t) by {
            assert forall|k: int| 0 <= k < u.len() implies u[k] == t[k] by {
                assert(u[k] == all.subrange(c, c + u.len())[k]);
                assert(t[k] == s.subrange(a, a + t.len())[k]);
            }
        }
    } else {
        assert(t.len() == 0);
        assert(u =~= t);
    }
}

/// No word is empty or holds a space.
pub proof fn law_words_hold_no_space(s: Seq<char>, i: int, n: int)
    requires
        0 <= i <= s.len(),
        0 <= n < words_from(s, i).len(),
    ensures
        words_from(s, i)[n].len() > 0,
        forall|k: int|
            0 <= k < words_from(s, i)[n].len() ==> !is_space(#[trigger] words_from(s, i)[n][k]),
    decreases s.len() - i,
{
    lemma_past_spaces(s, i);
    let start = past_spaces(s, i);
    lemma_past_word(s, start);
    lemma_word_passed(s, start);
    let end = past_word(s, start);
    if start < end {
        let all = seq![s.subrange(start, end)] + words_from(s, end);
        assert(words_from(s, i) == all);
        if n > 0 {
            assert(all[n] == words_from(s, end)[n - 1]);
            law_words_hold_no_space(s, end, n - 1);
        } else {
            assert(all[0] == s.subrange(start, end));
            assert forall|k: int| 0 <= k < all[0].len() implies !is_space(#[trigger] all[0][k]) by {
                assert(all[0][k] == s[start + k]);
            }
        }
    }
}

/// The words are all of the text but its spaces: each character that is no space
/// is in one of them, and without spaces there is one word.
pub proof fn law_words_hold_the_rest(s: Seq<char>, i: int, p: int)
    requires
        0 <= i <= p < s.len(),
        !is_space(s[p]),
    ensures
        exists|n: int, k: int|
            0 <= n < words_from(s, i).len() && 0 <= k < words_from(s, i)[n].len()
                && #[trigger] words_from(s, i)[n][k] == s[p],
        (forall|j: int| i <= j < s.len() ==> !is_space(#[trigger] s[j])) ==> words_from(s, i)
            == seq![s.skip(i)],
    decreases s.len() - i,
{
    lemma_past_spaces(s, i);
    lemma_spaces_passed(s, i);
    let start = past_spaces(s, i);
    assert(start <= p) by {
        if p < start {
            assert(is_space(s[p]));
        }
    }
    lemma_past_word(s, start);
    lemma_word_passed(s, start);
    let end = past_word(s, start);
    let all = seq![s.subrange(start, end)] + words_from(s, end);
    assert(words_from(s, i) == all);
    if p < end {
        assert(all[0] == s.subrange(start, end));
        assert(words_from(s, i)[0][p - start] == s[p]);
    } else {
        law_words_hold_the_rest(s, end, p);
        let (n, k) = choose|n: int, k: int|
            0 <= n < words_from(s, end).len() && 0 <= k < words_from(s, end)[n].len()
                && #[trigger] words_from(s, end)[n][k] == s[p];
        assert(all[n + 1] == words_from(s, end)[n]);
        assert(words_from(s, i)[n + 1][k] == s[p]);
    }
    if forall|j: int| i <= j < s.len() ==> !is_space(#[trigger] s[j]) {
        assert(!is_space(s[i]));
        assert(start == i);
        assert(end == s.len());
        assert(past_spaces(s, end) == end);
        assert(words_from(s, end) =~= Seq::empty());
        assert(all =~= seq![s.skip(i)]) by {
            assert(s.subrange(start, end) =~= s.skip(i));
        }
    }
}

/// The parts of a split text hold no separator, and with it between them they make
/// the text again.
pub proof fn law_split_parts_make_text(s: Seq<char>, sep: char)
    ensures
        ({
            let parts = split_by(s, sep);
            &&& parts.len() >= 1
            &&& forall|i: int| 0 <= i < parts.len() ==> !(#[trigger] parts[i]).contains(sep)
            &&& joined(parts, seq![sep], parts.len() as int) == s
        }),
    decreases s.len(),
{
    let all = split_by(s, sep);
    let n = all.len() as int;
    let mid = seq![sep];
    if s.len() == 0 {
        assert(all[0] =~= s);
    } else {
        let t = s.drop_last();
        law_split_parts_make_text(t, sep);
        let front = split_by(t, sep);
        assert forall|i: int| 0 <= i < all.len() implies !(#[trigger] all[i]).contains(sep) by {
            if i < front.len() {
                assert(!front[i].contains(sep));
            }
            if i == front.len() - 1 && s.last() != sep {
                let last = front[i];
                assert(all[i] == last.push(s.last()));
                if all[i].contains(sep) {
                    let k = all[i].index_of(sep);
                    assert(last[k] == sep);
                }
            }
        }
        if s.last() == sep {
            lemma_joined_prefix(front, all, mid, n - 1);
            assert(all[n - 1] =~= Seq::empty());
            assert(joined(all, mid, n) =~= joined(all, mid, n - 1).push(sep));
            assert(t.push(sep) =~= s);
        } else {
            lemma_joined_prefix(front, all, mid, n - 1);
            assert(all[n - 1] == front[n - 1].push(s.last()));
            if n == 1 {
                assert(joined(all, mid, n) =~= t.push(s.last()));
            } else {
                assert(joined(all, mid, n) =~= joined(front, mid, n).push(s.last()));
            }
            assert(t.push(s.last()) =~= s);
        }
    }
}

proof fn lemma_joined_prefix(a: Seq<Seq<char>>, b: Seq<Seq<char>>, sep: Seq<char>, n: int)
    requires
        n <= a.len(),
        n <= b.len(),
        forall|i: int| 0 <= i < n ==> #[trigger] a[i] == b[i],
    ensures
        joined(a, sep, n) == joined(b, sep, n),
    decreases n,
{
    if n > 1 {
        lemma_joined_prefix(a, b, sep, n - 1);
    }
    if n > 0 {
        assert(a[n - 1] == b[n - 1]);
    }
}

} // verus!
