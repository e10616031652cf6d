//! Texts as the registry keeps them, and the list of program directories.

use vstd::prelude::*;

use crate::text::{
    append, chars_of, join, joined, part, same_chars, split, split_by, string_of, strings, texts,
};

verus! {

// ---------------------------------------------------------------------------
// Model
// ---------------------------------------------------------------------------

/// A character in UTF-16: one word, or two for a character beyond the first
/// plane.
pub open spec fn code_units(c: char) -> Seq<u16> {
    if (c as int) < 0x1_0000 {
        seq![(c as int) as u16]
    } else {
        seq![
            (0xD800 + (c as int - 0x1_0000) / 0x400) as u16,
            (0xDC00 + (c as int - 0x1_0000) % 0x400) as u16,
        ]
    }
}

/// A text in UTF-16.
pub open spec fn utf16(s: Seq<char>) -> Seq<u16>
    decreases s.len(),
{
    if s.len() == 0 {
        Seq::empty()
    } else {
        utf16(s.drop_last()) + code_units(s.last())
    }
}

/// The bytes of words, the low one first.
pub open spec fn word_bytes(w: Seq<u16>) -> Seq<u8> {
    Seq::new(
        2 * w.len(),
        |i: int|
            if i % 2 == 0 {
                (w[i / 2] % 256) as u8
            } else {
                (w[i / 2] / 256) as u8
            },
    )
}

/// The words of bytes, the low one first; an odd byte at the end is left out.
pub open spec fn words(b: Seq<u8>) -> Seq<u16> {
    Seq::new((b.len() / 2) as nat, |i: int| (b[2 * i] + 256 * b[2 * i + 1]) as u16)
}

/// A text as the registry keeps it: in UTF-16 with a zero behind it.
pub open spec fn kept_text(s: Seq<char>) -> Seq<u8> {
    word_bytes(utf16(s).push(0))
}

/// The text of words in UTF-16, where what is not becomes replacement
/// characters.
pub uninterp spec fn utf16_lossy(w: Seq<u16>) -> Seq<char>;

/// The text without this character at its end.
pub open spec fn stripped(s: Seq<char>, c: char) -> Seq<char>
    decreases s.len(),
{
    if s.len() > 0 && s.last() == c {
        stripped(s.drop_last(), c)
    } else {
        s
    }
}

/// The two directories are the same but for separators at their end.
pub open spec fn same_dir(a: Seq<char>, b: Seq<char>) -> bool {
    stripped(a, '\\') == stripped(b, '\\')
}

/// The list names the directory.
pub open spec fn names_dir(list: Seq<char>, dir: Seq<char>) -> bool {
    exists|i: int|
        0 <= i < split_by(list, ';').len() && same_dir(#[trigger] split_by(list, ';')[i], dir)
}

/// The list with the directory at its end; none where it is named already.
pub open spec fn added(list: Seq<char>, dir: Seq<char>) -> Option<Seq<char>> {
    if names_dir(list, dir) {
        None
    } else if list.len() == 0 {
        Some(dir)
    } else {
        Some(list + ";"@ + dir)
    }
}

/// The parts that are not the directory.
pub open spec fn other_dirs(parts: Seq<Seq<char>>, dir: Seq<char>) -> Seq<Seq<char>>
    decreases parts.len(),
{
    if parts.len() == 0 {
        Seq::empty()
    } else if same_dir(parts.last(), dir) {
        other_dirs(parts.drop_last(), dir)
    } else {
        other_dirs(parts.drop_last(), dir).push(parts.last())
    }
}

/// The list without the directory.
pub open spec fn removed(list: Seq<char>, dir: Seq<char>) -> Seq<char> {
    let rest = other_dirs(split_by(list, ';'), dir);
    joined(rest, ";"@, rest.len() as int)
}

// ---------------------------------------------------------------------------
// Texts
// ---------------------------------------------------------------------------

/// Calls `String::from_utf16_lossy` of std. Words that are the UTF-16 of a text
/// give the text; how other words are replaced is std's.
#[verifier::external_body]
fn text_of_words(w: &[u16]) -> (r: String)
    ensures
        r@ == utf16_lossy(w@),
        forall|s: Seq<char>| w@ == #[trigger] utf16(s) ==> r@ == s,
{
    String::from_utf16_lossy(w)
}

/// The number of a character.
fn code_of(c: char) -> (r: u32)
    ensures
        r == c as int,
        r <= 0x10_FFFF,
{
    c as u32
}

/// A text in UTF-16 with a zero behind it.
pub fn wide_text(s: &str) -> (r: Vec<u16>)
    ensures
        r@ == utf16(s@).push(0),
{
    let v = chars_of(s);
    let mut out: Vec<u16> = Vec::new();
    let mut i: usize = 0;
    assert(v@.take(0) =~= Seq::empty());
    while i < v.len()
        invariant
            i <= v.len(),
            out@ == utf16(v@.take(i as int)),
        decreases v.len() - i,
    {
        let c = v[i];
        let code: u32 = code_of(c);
        let ghost before = out@;
        if code < 0x1_0000 {
            out.push(code as u16);
        } else {
            let rest: u32 = code - 0x1_0000;
            out.push((0xD800 + rest / 0x400) as u16);
            out.push((0xDC00 + rest % 0x400) as u16);
        }
        proof {
            assert(out@ =~= before + code_units(c));
            assert(v@.take(i + 1).drop_last() =~= v@.take(i as int));
            assert(v@.take(i + 1).last() == c);
        }
        i += 1;
    }
    assert(v@.take(i as int) =~= v@);
    out.push(0);
    out
}

/// A text as the registry keeps it.
pub fn bytes_of_text(s: &str) -> (r: Vec<u8>)
    ensures
        r@ == kept_text(s@),
{
    let w = wide_text(s);
    let mut out: Vec<u8> = Vec::new();
    let mut i: usize = 0;
    while i < w.len()
        invariant
            i <= w.len(),
            out.len() == 2 * i,
            forall|k: int| 0 <= k < 2 * i ==> #[trigger] out@[k] == word_bytes(w@)[k],
        decreases w.len() - i,
    {
        let x: u16 = w[i];
        out.push((x % 256) as u8);
        out.push((x / 256) as u8);
        i += 1;
    }
    assert(out@ =~= word_bytes(w@));
    out
}

/// The text without this character at its end.
pub fn strip_end(s: &str, c: char) -> (r: String)
    ensures
        r@ == stripped(s@, c),
{
    let v = chars_of(s);
    let w = strip_chars(&v, c);
    string_of(&w)
}

/// The characters without this one at their end.
fn strip_chars(v: &Vec<char>, c: char) -> (r: Vec<char>)
    ensures
        r@ == stripped(v@, c),
{
    let mut n: usize = v.len();
    assert(v@.take(n as int) =~= v@);
    while n > 0 && v[n - 1] == c
        invariant
            n <= v.len(),
            stripped(v@, c) == stripped(v@.take(n as int), c),
        decreases n,
    {
        assert(v@.take(n as int).drop_last() =~= v@.take(n - 1));
        assert(v@.take(n as int).last() == v@[n - 1]);
        n -= 1;
    }
    let r = part(v, 0, n);
    assert(r@ =~= v@.take(n as int));
    assert(n > 0 ==> r@.last() == v@[n - 1]);
    r
}

proof fn lemma_words_of_bytes(w: Seq<u16>)
    ensures
        words(word_bytes(w)) == w,
{
    let b = word_bytes(w);
    assert forall|i: int| 0 <= i < w.len() implies words(b)[i] == w[i] by {
        assert(b[2 * i] == (w[i] % 256) as u8);
        assert((2 * i + 1) / 2 == i);
        assert(b[2 * i + 1] == (w[i] / 256) as u8);
    }
    assert(words(b) =~= w);
}

/// The text that the registry keeps as these bytes, without zeros at its end.
/// What `bytes_of_text` made comes back.
pub fn text_of_bytes(b: &Vec<u8>) -> (r: String)
    ensures
        r@ == stripped(utf16_lossy(words(b@)), '\0'),
        forall|s: Seq<char>| b@ == #[trigger] kept_text(s) ==> r@ == stripped(s, '\0'),
{
    let mut w: Vec<u16> = Vec::new();
    let mut i: usize = 0;
    while i < b.len() / 2
        invariant
            i <= b.len() / 2,
            w.len() == i,
            forall|k: int| 0 <= k < i ==> #[trigger] w@[k] == words(b@)[k],
        decreases b.len() / 2 - i,
    {
        let x: u16 = b[2 * i] as u16 + 256 * (b[2 * i + 1] as u16);
        w.push(x);
        i += 1;
    }
    assert(w@ =~= words(b@));
    let text = text_of_words(w.as_slice());
    let out = strip_end(text.as_str(), '\0');
    proof {
        assert forall|s: Seq<char>| b@ == #[trigger] kept_text(s) implies out@ == stripped(
            s,
            '\0',
        ) by {
            lemma_words_of_bytes(utf16(s).push(0));
            let t = s.push('\0');
            assert(t.drop_last() =~= s);
            assert(utf16(t) =~= utf16(s).push(0));
            assert(w@ == utf16(t));
            assert(text@ == t);
        }
    }
    out
}

/// The text at the start of a buffer, of which `len` words were filled; none for
/// a negative number.
pub fn buffer_text(buf: &Vec<u16>, len: i32) -> (r: String)
    requires
        len <= buf.len(),
    ensures
        r@ == utf16_lossy(
            buf@.take(
                if len < 0 {
                    0
                } else {
                    len as int
                },
            ),
        ),
{
    let n: usize = if len < 0 {
        0
    } else {
        len as usize
    };
    let mut w: Vec<u16> = Vec::new();
    let mut i: usize = 0;
    while i < n
        invariant
            i <= n <= buf.len(),
            w@ == buf@.take(i as int),
        decreases n - i,
    {
        w.push(buf[i]);
        assert(buf@.take(i + 1) =~= buf@.take(i as int).push(buf@[i as int]));
        i += 1;
    }
    text_of_words(w.as_slice())
}

/// A path in quotation marks.
pub fn quoted(path: &str) -> (r: String)
    ensures
        r@ == "\""@ + path@ + "\""@,
{
    let mut out = String::new();
    append(&mut out, "\"");
    append(&mut out, path);
    append(&mut out, "\"");
    assert(out@ =~= "\""@ + path@ + "\""@);
    out
}

// ---------------------------------------------------------------------------
// Directories
// ---------------------------------------------------------------------------

/// The two directories are the same but for separators at their end.
fn is_same_dir(a: &Vec<char>, b: &Vec<char>) -> (r: bool)
    ensures
        r == same_dir(a@, b@),
{
    same_chars(&strip_chars(a, '\\'), &strip_chars(b, '\\'))
}

/// The list of directories with one added at its end; none where the list names
/// it already.
pub fn add_to_path(list: &str, dir: &str) -> (r: Option<String>)
    ensures
        match r {
            Some(s) => added(list@, dir@) == Some(s@),
            None => added(list@, dir@) is None,
        },
{
    let d = chars_of(dir);
    let whole = chars_of(list);
    let parts = split(&whole, ';');
    let ghost views = texts(parts@);
    let mut i: usize = 0;
    while i < parts.len()
        invariant
            i <= parts.len(),
            d@ == dir@,
            views == texts(parts@),
            views == split_by(list@, ';'),
            forall|k: int| 0 <= k < i ==> !same_dir(#[trigger] views[k], dir@),
        decreases parts.len() - i,
    {
        assert(views[i as int] == parts@[i as int]@);
        if is_same_dir(&parts[i], &d) {
            assert(same_dir(split_by(list@, ';')[i as int], dir@));
            return None;
        }
        i += 1;
    }
    assert(!names_dir(list@, dir@));
    let mut out = String::new();
    if whole.len() == 0 {
        append(&mut out, dir);
        assert(out@ =~= dir@);
    } else {
        append(&mut out, list);
        append(&mut out, ";");
        append(&mut out, dir);
        assert(out@ =~= list@ + ";"@ + dir@);
    }
    Some(out)
}

/// The list of directories without one.
pub fn remove_from_path(list: &str, dir: &str) -> (r: String)
    ensures
        r@ == removed(list@, dir@),
{
    let d = chars_of(dir);
    let parts = split(&chars_of(list), ';');
    let ghost views = texts(parts@);
    let mut rest: Vec<String> = Vec::new();
    let mut i: usize = 0;
    assert(views.take(0) =~= Seq::empty());
    assert(strings(rest@) =~= Seq::empty());
    while i < parts.len()
        invariant
            i <= parts.len(),
            d@ == dir@,
            views == texts(parts@),
            strings(rest@) == other_dirs(views.take(i as int), dir@),
        decreases parts.len() - i,
    {
        assert(views[i as int] == parts@[i as int]@);
        assert(views.take(i + 1).drop_last() =~= views.take(i as int));
        assert(views.take(i + 1).last() == views[i as int]);
        if !is_same_dir(&parts[i], &d) {
            let ghost before = strings(rest@);
            rest.push(string_of(&parts[i]));
            assert(strings(rest@) =~= before.push(views[i as int]));
        }
        i += 1;
    }
    assert(views.take(i as int) =~= views);
    join(&rest, ";")
}

// ---------------------------------------------------------------------------
// Laws
// ---------------------------------------------------------------------------

/// The text does not hold the character.
pub open spec fn lacks(s: Seq<char>, c: char) -> bool {
    forall|i: int| 0 <= i < s.len() ==> #[trigger] s[i] != c
}

proof fn lemma_split_lacking(s: Seq<char>, sep: char)
    requires
        lacks(s, sep),
    ensures
        split_by(s, sep) == seq![s],
    decreases s.len(),
{
    if s.len() > 0 {
        let t = s.drop_last();
        assert forall|i: int| 0 <= i < t.len() implies #[trigger] t[i] != sep by {
            assert(s[i] != sep);
        }
        lemma_split_lacking(t, sep);
        assert(s.last() != sep);
        assert(t.push(s.last()) =~= s);
        assert(split_by(s, sep) =~= seq![s]);
    } else {
        assert(s =~= Seq::empty());
    }
}

/// A text, a separator and a part behind it split into the text's parts and the
/// part.
proof fn lemma_split_append(a: Seq<char>, sep: char, b: Seq<char>)
    requires
        lacks(b, sep),
    ensures
        split_by(a.push(sep) + b, sep) == split_by(a, sep).push(b),
    decreases b.len(),
{
    let s = a.push(sep) + b;
    if b.len() == 0 {
        assert(s =~= a.push(sep));
        assert(s.drop_last() =~= a);
        assert(b =~= Seq::empty());
    } else {
        let t = b.drop_last();
        assert forall|i: int| 0 <= i < t.len() implies #[trigger] t[i] != sep by {
            assert(b[i] != sep);
        }
        lemma_split_append(a, sep, t);
        assert(s.drop_last() =~= a.push(sep) + t);
        assert(b.last() != sep);
        let front = split_by(a, sep).push(t);
        assert(front.last() == t);
        assert(t.push(b.last()) =~= b);
        assert(front.update(front.len() - 1, b) =~= split_by(a, sep).push(b));
    }
}

proof fn lemma_split_parts(s: Seq<char>, sep: char)
    ensures
        split_by(s, sep).len() >= 1,
        forall|i: int| 0 <= i < split_by(s, sep).len() ==> lacks(#[trigger] split_by(s, sep)[i], sep),
    decreases s.len(),
{
    if s.len() > 0 {
        lemma_split_parts(s.drop_last(), sep);
        let front = split_by(s.drop_last(), sep);
        let all = split_by(s, sep);
        assert forall|i: int| 0 <= i < all.len() implies lacks(#[trigger] all[i], sep) by {
            if i < front.len() {
                assert(lacks(front[i], sep));
            }
            if i == front.len() - 1 && s.last() != sep {
                assert(all[i] == front.last().push(s.last()));
                assert(lacks(front[front.len() - 1], sep));
            }
        }
    }
}

/// Parts without the separator, joined by it, split into themselves.
proof fn lemma_split_joined(parts: Seq<Seq<char>>, n: int)
    requires
        1 <= n <= parts.len(),
        forall|i: int| 0 <= i < parts.len() ==> lacks(#[trigger] parts[i], ';'),
    ensures
        split_by(joined(parts, ";"@, n), ';') == parts.take(n),
    decreases n,
{
    reveal_strlit(";");
    if n == 1 {
        assert(lacks(parts[0], ';'));
        lemma_split_lacking(parts[0], ';');
        assert(parts.take(1) =~= seq![parts[0]]);
    } else {
        lemma_split_joined(parts, n - 1);
        let a = joined(parts, ";"@, n - 1);
        assert(lacks(parts[n - 1], ';'));
        lemma_split_append(a, ';', parts[n - 1]);
        assert(a + ";"@ + parts[n - 1] =~= a.push(';') + parts[n - 1]);
        assert(parts.take(n - 1).push(parts[n - 1]) =~= parts.take(n));
    }
}

/// The parts of a text joined again make it.
proof fn lemma_joined_split(s: Seq<char>)
    ensures
        joined(split_by(s, ';'), ";"@, split_by(s, ';').len() as int) == s,
    decreases s.len(),
{
    reveal_strlit(";");
    let all = split_by(s, ';');
    let n = all.len() as int;
    if s.len() == 0 {
        assert(all[0] =~= s);
    } else {
        let t = s.drop_last();
        lemma_joined_split(t);
        lemma_split_parts(t, ';');
        let front = split_by(t, ';');
        if s.last() == ';' {
            lemma_joined_same(front, all, n - 1);
            assert(all[n - 1] =~= Seq::empty());
            assert(joined(all, ";"@, n) =~= joined(all, ";"@, n - 1).push(';'));
            assert(t.push(';') =~= s);
        } else {
            lemma_joined_same(front, all, n - 1);
            assert(all[n - 1] == front[n - 1].push(s.last()));
            if n == 1 {
                assert(joined(all, ";"@, n) =~= t.push(s.last()));
            } else {
                assert(joined(all, ";"@, n) =~= joined(front, ";"@, n).push(s.last()));
            }
            assert(t.push(s.last()) =~= s);
        }
    }
}

proof fn lemma_joined_same(a: Seq<Seq<char>>, b: Seq<Seq<char>>, n: int)
    requires
        n <= a.len(),
        n <= b.len(),
        forall|i: int| 0 <= i < n ==> #[trigger] a[i] == b[i],
    ensures
        joined(a, ";"@, n) == joined(b, ";"@, n),
    decreases n,
{
    if n > 1 {
        lemma_joined_same(a, b, n - 1);
    }
    if n > 0 {
        assert(a[n - 1] == b[n - 1]);
    }
}

proof fn lemma_other_dirs(parts: Seq<Seq<char>>, dir: Seq<char>)
    ensures
        forall|i: int|
            0 <= i < other_dirs(parts, dir).len() ==> {
                &&& !same_dir(#[trigger] other_dirs(parts, dir)[i], dir)
                &&& parts.contains(other_dirs(parts, dir)[i])
            },
        (forall|i: int| 0 <= i < parts.len() ==> !same_dir(#[trigger] parts[i], dir)) ==> other_dirs(
            parts,
            dir,
        ) == parts,
    decreases parts.len(),
{
    if parts.len() > 0 {
        let t = parts.drop_last();
        lemma_other_dirs(t, dir);
        let rest = other_dirs(parts, dir);
        assert forall|i: int| 0 <= i < rest.len() implies {
            &&& !same_dir(#[trigger] rest[i], dir)
            &&& parts.contains(rest[i])
        } by {
            if i < other_dirs(t, dir).len() {
                assert(rest[i] == other_dirs(t, dir)[i]);
                assert(t.contains(rest[i]));
                let k = choose|k: int| 0 <= k < t.len() && t[k] == rest[i];
                assert(parts[k] == rest[i]);
            } else {
                assert(parts[parts.len() - 1] == rest[i]);
            }
        }
        if forall|i: int| 0 <= i < parts.len() ==> !same_dir(#[trigger] parts[i], dir) {
            assert forall|i: int| 0 <= i < t.len() implies !same_dir(#[trigger] t[i], dir) by {
                assert(!same_dir(parts[i], dir));
            }
            assert(!same_dir(parts[parts.len() - 1], dir));
            assert(t.push(parts.last()) =~= parts);
        }
    } else {
        assert(other_dirs(parts, dir) =~= parts);
    }
}

/// A directory is added once: the list with it names it. Removing it again gives
/// the list back.
pub proof fn law_add_then_remove(list: Seq<char>, dir: Seq<char>)
    requires
        lacks(dir, ';'),
        added(list, dir) is Some,
    ensures
        added(added(list, dir)->0, dir) is None,
        removed(added(list, dir)->0, dir) == list,
{
    reveal_strlit(";");
    let all = added(list, dir)->0;
    let parts = split_by(list, ';');
    lemma_other_dirs(parts, dir);
    assert forall|i: int| 0 <= i < parts.len() implies !same_dir(#[trigger] parts[i], dir) by {
        if same_dir(parts[i], dir) {
            assert(same_dir(split_by(list, ';')[i], dir));
            assert(names_dir(list, dir));
        }
    }
    if list.len() == 0 {
        lemma_split_lacking(dir, ';');
        let now = split_by(all, ';');
        assert(same_dir(now[0], dir));
        assert(now.drop_last() =~= Seq::empty());
        assert(other_dirs(now, dir) =~= Seq::empty()) by {
            reveal_with_fuel(other_dirs, 2);
        }
        assert(list =~= Seq::empty());
    } else {
        assert(all =~= list.push(';') + dir);
        lemma_split_append(list, ';', dir);
        let now = split_by(all, ';');
        assert(now == parts.push(dir));
        assert(same_dir(now[parts.len() as int], dir));
        assert(now.drop_last() =~= parts);
        lemma_joined_split(list);
    }
}

/// A list that a directory was removed from no longer names it. A directory of
/// separators alone is an empty part, which an empty list has.
pub proof fn law_removed_is_gone(list: Seq<char>, dir: Seq<char>)
    requires
        stripped(dir, '\\').len() > 0,
    ensures
        !names_dir(removed(list, dir), dir),
{
    let parts = split_by(list, ';');
    let rest = other_dirs(parts, dir);
    lemma_other_dirs(parts, dir);
    lemma_split_parts(list, ';');
    let now = removed(list, dir);
    if rest.len() == 0 {
        assert(now =~= Seq::empty());
        assert(split_by(now, ';') =~= seq![Seq::<char>::empty()]);
    } else {
        assert forall|i: int| 0 <= i < rest.len() implies lacks(#[trigger] rest[i], ';') by {
            assert(!same_dir(rest[i], dir));
            let k = choose|k: int| 0 <= k < parts.len() && parts[k] == rest[i];
            assert(lacks(parts[k], ';'));
        }
        lemma_split_joined(rest, rest.len() as int);
        assert(rest.take(rest.len() as int) =~= rest);
    }
}

/// The directories that are left when one is removed are the others, in the order
/// they stood in.
pub proof fn law_other_directories_stay(list: Seq<char>, dir: Seq<char>)
    ensures
        ({
            let others = split_by(list, ';').filter(|p: Seq<char>| !same_dir(p, dir));
            &&& others.len() > 0 ==> split_by(removed(list, dir), ';') == others
            &&& others.len() == 0 ==> removed(list, dir).len() == 0
        }),
{
    let parts = split_by(list, ';');
    let rest = other_dirs(parts, dir);
    lemma_other_dirs(parts, dir);
    lemma_others_filtered(parts, dir);
    lemma_split_parts(list, ';');
    if rest.len() > 0 {
        assert forall|i: int| 0 <= i < rest.len() implies lacks(#[trigger] rest[i], ';') by {
            assert(!same_dir(rest[i], dir));
            let k = choose|k: int| 0 <= k < parts.len() && parts[k] == rest[i];
            assert(lacks(parts[k], ';'));
        }
        lemma_split_joined(rest, rest.len() as int);
        assert(rest.take(rest.len() as int) =~= rest);
    }
}

proof fn lemma_others_filtered(parts: Seq<Seq<char>>, dir: Seq<char>)
    ensures
        other_dirs(parts, dir) == parts.filter(|p: Seq<char>| !same_dir(p, dir)),
    decreases parts.len(),
{
    reveal(Seq::filter);
    if parts.len() > 0 {
        lemma_others_filtered(parts.drop_last(), dir);
    }
}

/// A directory is added behind those that the list names, which stay as they are.
pub proof fn law_added_at_the_end(list: Seq<char>, dir: Seq<char>)
    requires
        lacks(dir, ';'),
        list.len() > 0,
        added(list, dir) is Some,
    ensures
        split_by(added(list, dir)->0, ';') == split_by(list, ';').push(dir),
{
    reveal_strlit(";");
    assert(added(list, dir)->0 =~= list.push(';') + dir);
    lemma_split_append(list, ';', dir);
}

} // verus!
