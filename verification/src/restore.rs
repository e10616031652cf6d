//! Where windows are put back to when the window manager ends.

use vstd::prelude::*;

use crate::arith::in_i32;
use crate::geometry::{clamp_into_work, intersects, onto, to_rect, Edges};
use crate::layout::{Rect, RectView};

verus! {

/// The rectangles that windows are put back to.
#[derive(Debug)]
pub struct RestoreBook {
    rows: Vec<(u64, Edges)>,
}

/// A row of the stored list, where it is complete.
#[derive(Debug, Clone, Copy, PartialEq, Eq, Structural)]
pub struct Stored {
    pub hwnd: i64,
    pub rect: Edges,
}

// ---------------------------------------------------------------------------
// Model
// ---------------------------------------------------------------------------

/// The window has a row.
pub open spec fn kept(s: Seq<(u64, Edges)>, h: u64) -> bool {
    exists|i: int| 0 <= i < s.len() && (#[trigger] s[i]).0 == h
}

/// No window has two rows.
pub open spec fn kept_once(s: Seq<(u64, Edges)>) -> bool {
    forall|i: int, j: int|
        0 <= i < s.len() && 0 <= j < s.len() && i != j ==> (#[trigger] s[i]).0 != (#[trigger] s[j]).0
}

/// The rows with one more, unless the window has one already.
pub open spec fn remembered(s: Seq<(u64, Edges)>, h: u64, e: Edges) -> Seq<(u64, Edges)> {
    if kept(s, h) {
        s
    } else {
        s.push((h, e))
    }
}

/// Where the first row of the window from `i` on stands, or the end.
pub open spec fn row_from(s: Seq<(u64, Edges)>, h: u64, i: int) -> int
    decreases s.len() - i,
{
    if 0 <= i < s.len() && s[i].0 != h {
        row_from(s, h, i + 1)
    } else {
        i
    }
}

/// The rows without the window's.
pub open spec fn forgotten(s: Seq<(u64, Edges)>, h: u64) -> Seq<(u64, Edges)> {
    if row_from(s, h, 0) < s.len() {
        s.remove(row_from(s, h, 0))
    } else {
        s
    }
}

/// The place to put a window back to fits coordinates.
pub open spec fn placeable(e: Edges, work: RectView) -> bool {
    &&& e.rect().fits()
    &&& onto(e.rect(), work).fits()
    &&& in_i32(onto(e.rect(), work).right())
    &&& in_i32(onto(e.rect(), work).bottom())
}

/// The integers that the objects of a stored list have under a name; none where
/// the text is no list. An object without such an integer has none.
pub uninterp spec fn stored_integers(text: Seq<char>, name: Seq<char>) -> Option<Seq<Option<i64>>>;

/// The text of a list of objects with five integers each under these names.
pub uninterp spec fn stored_text(
    names: (Seq<char>, Seq<char>, Seq<char>, Seq<char>, Seq<char>),
    rows: Seq<(i64, i64, i64, i64, i64)>,
) -> Seq<char>;

/// A row as it is stored.
pub open spec fn row_of(r: (u64, Edges)) -> (i64, i64, i64, i64, i64) {
    (r.0 as i64, r.1.left as i64, r.1.top as i64, r.1.right as i64, r.1.bottom as i64)
}

/// The stored row of five integers, where all are there. Edges keep the low half
/// of their integer.
pub open spec fn stored_row(
    h: Option<i64>,
    l: Option<i64>,
    t: Option<i64>,
    r: Option<i64>,
    b: Option<i64>,
) -> Option<Stored> {
    match (h, l, t, r, b) {
        (Some(h), Some(l), Some(t), Some(r), Some(b)) => Some(
            Stored {
                hwnd: h,
                rect: Edges { left: l as i32, top: t as i32, right: r as i32, bottom: b as i32 },
            },
        ),
        _ => None,
    }
}

/// The integers under a name from `i` on, or nothing past their end.
pub open spec fn integer_at(column: Seq<Option<i64>>, i: int) -> Option<i64> {
    if 0 <= i < column.len() {
        column[i]
    } else {
        None
    }
}

/// The complete rows among the first `n`.
pub open spec fn complete_rows(
    h: Seq<Option<i64>>,
    l: Seq<Option<i64>>,
    t: Seq<Option<i64>>,
    r: Seq<Option<i64>>,
    b: Seq<Option<i64>>,
    n: int,
) -> Seq<Stored>
    decreases n,
{
    if n <= 0 {
        Seq::empty()
    } else {
        let before = complete_rows(h, l, t, r, b, n - 1);
        match stored_row(
            integer_at(h, n - 1),
            integer_at(l, n - 1),
            integer_at(t, n - 1),
            integer_at(r, n - 1),
            integer_at(b, n - 1),
        ) {
            Some(row) => before.push(row),
            None => before,
        }
    }
}

/// The rows that a stored text holds; none where it is no list.
pub open spec fn stored_rows(text: Seq<char>) -> Option<Seq<Stored>> {
    match (
        stored_integers(text, "hwnd"@),
        stored_integers(text, "left"@),
        stored_integers(text, "top"@),
        stored_integers(text, "right"@),
        stored_integers(text, "bottom"@),
    ) {
        (Some(h), Some(l), Some(t), Some(r), Some(b)) => Some(
            complete_rows(h, l, t, r, b, h.len() as int),
        ),
        _ => None,
    }
}

/// The names of a row's integers.
pub open spec fn row_names() -> (Seq<char>, Seq<char>, Seq<char>, Seq<char>, Seq<char>) {
    ("hwnd"@, "left"@, "top"@, "right"@, "bottom"@)
}

impl View for RestoreBook {
    type V = Seq<(u64, Edges)>;

    closed spec fn view(&self) -> Seq<(u64, Edges)> {
        self.rows@
    }
}

// ---------------------------------------------------------------------------
// Outside calls
// ---------------------------------------------------------------------------

/// Calls `serde_json::from_str` for a list of values, then `Value::as_i64` on
/// what `Value::index` gives under the name in each. What comes of it depends on
/// the text and the name alone.
#[verifier::external_body]
fn read_integers(text: &str, name: &str) -> (r: Option<Vec<Option<i64>>>)
    ensures
        match r {
            Some(v) => stored_integers(text@, name@) == Some(v@),
            None => stored_integers(text@, name@) is None,
        },
{
    let list: Vec<serde_json::Value> = serde_json::from_str(text).ok()?;
    Some(list.iter().map(|v| v[name].as_i64()).collect())
}

/// Calls `serde_json::to_string` on a list of maps from names to integers. The
/// text depends on the names and the integers alone, and reading it gives the
/// integers back.
#[verifier::external_body]
fn write_rows(
    a: &str,
    b: &str,
    c: &str,
    d: &str,
    e: &str,
    rows: &Vec<(i64, i64, i64, i64, i64)>,
) -> (r: String)
    requires
        a@ != b@ && a@ != c@ && a@ != d@ && a@ != e@,
        b@ != c@ && b@ != d@ && b@ != e@,
        c@ != d@ && c@ != e@ && d@ != e@,
    ensures
        r@ == stored_text((a@, b@, c@, d@, e@), rows@),
        stored_integers(r@, a@) == Some(rows@.map_values(|x: (i64, i64, i64, i64, i64)| Some(x.0))),
        stored_integers(r@, b@) == Some(rows@.map_values(|x: (i64, i64, i64, i64, i64)| Some(x.1))),
        stored_integers(r@, c@) == Some(rows@.map_values(|x: (i64, i64, i64, i64, i64)| Some(x.2))),
        stored_integers(r@, d@) == Some(rows@.map_values(|x: (i64, i64, i64, i64, i64)| Some(x.3))),
        stored_integers(r@, e@) == Some(rows@.map_values(|x: (i64, i64, i64, i64, i64)| Some(x.4))),
{
    let list: Vec<std::collections::BTreeMap<&str, i64>> = rows.iter().map(
        |x| std::collections::BTreeMap::from([(a, x.0), (b, x.1), (c, x.2), (d, x.3), (e, x.4)]),
    ).collect();
    serde_json::to_string(&list).unwrap_or_default()
}

// ---------------------------------------------------------------------------
// Operations
// ---------------------------------------------------------------------------

proof fn lemma_row_from(s: Seq<(u64, Edges)>, h: u64, i: int)
    requires
        0 <= i <= s.len(),
    ensures
        i <= row_from(s, h, i) <= s.len(),
        row_from(s, h, i) < s.len() ==> s[row_from(s, h, i)].0 == h,
        forall|k: int| i <= k < row_from(s, h, i) ==> (#[trigger] s[k]).0 != h,
    decreases s.len() - i,
{
    if i < s.len() && s[i].0 != h {
        lemma_row_from(s, h, i + 1);
    }
}

proof fn lemma_forgotten_once(s: Seq<(u64, Edges)>, h: u64)
    requires
        kept_once(s),
    ensures
        kept_once(forgotten(s, h)),
        !kept(forgotten(s, h), h),
{
    lemma_row_from(s, h, 0);
    let i = row_from(s, h, 0);
    let t = forgotten(s, h);
    if i < s.len() {
        assert forall|a: int| 0 <= a < t.len() implies (#[trigger] t[a]).0 != h by {
            let x = if a < i {
                a
            } else {
                a + 1
            };
            assert(t[a] == s[x]);
            assert(s[x].0 != s[i].0);
        }
        assert forall|a: int, b: int|
            0 <= a < t.len() && 0 <= b < t.len() && a != b implies (#[trigger] t[a]).0 != (
        #[trigger] t[b]).0 by {
            let x = if a < i {
                a
            } else {
                a + 1
            };
            let y = if b < i {
                b
            } else {
                b + 1
            };
            assert(t[a] == s[x] && t[b] == s[y]);
            assert(s[x].0 != s[y].0);
        }
    }
}

impl RestoreBook {
    /// No rows.
    pub fn new() -> (r: RestoreBook)
        ensures
            r@ == Seq::<(u64, Edges)>::empty(),
            kept_once(r@),
    {
        RestoreBook { rows: Vec::new() }
    }

    /// Keeps the rectangle of a window that has none yet.
    pub fn remember(&mut self, h: u64, e: Edges)
        requires
            kept_once(old(self)@),
        ensures
            final(self)@ == remembered(old(self)@, h, e),
            kept_once(final(self)@),
    {
        let mut i: usize = 0;
        while i < self.rows.len()
            invariant
                i <= self.rows.len(),
                *self == *old(self),
                kept_once(self@),
                forall|k: int| 0 <= k < i ==> (#[trigger] self.rows@[k]).0 != h,
            decreases self.rows.len() - i,
        {
            if self.rows[i].0 == h {
                assert(self@[i as int].0 == h);
                return ;
            }
            i += 1;
        }
        assert(!kept(self@, h));
        self.rows.push((h, e));
    }

    /// Drops the rectangle of a window.
    pub fn forget(&mut self, h: u64)
        requires
            kept_once(old(self)@),
        ensures
            final(self)@ == forgotten(old(self)@, h),
            kept_once(final(self)@),
    {
        let ghost s = self@;
        proof {
            lemma_forgotten_once(s, h);
        }
        let mut i: usize = 0;
        while i < self.rows.len()
            invariant
                i <= self.rows.len(),
                self.rows@ == s,
                self@ == s,
                s == old(self)@,
                kept_once(forgotten(s, h)),
                row_from(s, h, 0) == row_from(s, h, i as int),
            decreases self.rows.len() - i,
        {
            if self.rows[i].0 == h {
                self.rows.remove(i);
                assert(self@ =~= forgotten(s, h));
                return ;
            }
            i += 1;
        }
    }

    /// The rows.
    pub fn rows(&self) -> (r: &Vec<(u64, Edges)>)
        ensures
            r@ == self@,
    {
        &self.rows
    }

    /// The rows as stored text.
    pub fn to_text(&self) -> (r: String)
        ensures
            r@ == stored_text(row_names(), self@.map_values(|x: (u64, Edges)| row_of(x))),
            stored_rows(r@) == Some(
                self@.map_values(|x: (u64, Edges)| Stored { hwnd: x.0 as i64, rect: x.1 }),
            ),
    {
        let mut out: Vec<(i64, i64, i64, i64, i64)> = Vec::new();
        let mut i: usize = 0;
        while i < self.rows.len()
            invariant
                i <= self.rows.len(),
                self@ == self.rows@,
                out.len() == i,
                forall|k: int| 0 <= k < i ==> #[trigger] out@[k] == row_of(self@[k]),
            decreases self.rows.len() - i,
        {
            let (h, e) = self.rows[i];
            out.push((h as i64, e.left as i64, e.top as i64, e.right as i64, e.bottom as i64));
            i += 1;
        }
        let ghost want = self@.map_values(|x: (u64, Edges)| row_of(x));
        assert(out@ =~= want);
        proof {
            reveal_strlit("hwnd");
            reveal_strlit("left");
            reveal_strlit("top");
            reveal_strlit("right");
            reveal_strlit("bottom");
            assert("hwnd"@[0] == 'h' && "left"@[0] == 'l');
            assert("top"@.len() == 3 && "right"@.len() == 5 && "bottom"@.len() == 6);
        }
        let text = write_rows("hwnd", "left", "top", "right", "bottom", &out);
        proof {
            lemma_rows_read_back(self@, text@, self@.len() as int);
        }
        text
    }
}

/// Columns of complete rows make the rows.
proof fn lemma_rows_read_back(s: Seq<(u64, Edges)>, text: Seq<char>, n: int)
    requires
        0 <= n <= s.len(),
        ({
            let rows = s.map_values(|x: (u64, Edges)| row_of(x));
            &&& stored_integers(text, "hwnd"@) == Some(
                rows.map_values(|x: (i64, i64, i64, i64, i64)| Some(x.0)),
            )
            &&& stored_integers(text, "left"@) == Some(
                rows.map_values(|x: (i64, i64, i64, i64, i64)| Some(x.1)),
            )
            &&& stored_integers(text, "top"@) == Some(
                rows.map_values(|x: (i64, i64, i64, i64, i64)| Some(x.2)),
            )
            &&& stored_integers(text, "right"@) == Some(
                rows.map_values(|x: (i64, i64, i64, i64, i64)| Some(x.3)),
            )
            &&& stored_integers(text, "bottom"@) == Some(
                rows.map_values(|x: (i64, i64, i64, i64, i64)| Some(x.4)),
            )
        }),
    ensures
        complete_rows(
            stored_integers(text, "hwnd"@)->0,
            stored_integers(text, "left"@)->0,
            stored_integers(text, "top"@)->0,
            stored_integers(text, "right"@)->0,
            stored_integers(text, "bottom"@)->0,
            n,
        ) == s.take(n).map_values(|x: (u64, Edges)| Stored { hwnd: x.0 as i64, rect: x.1 }),
        s.take(s.len() as int) == s,
    decreases n,
{
    let want = s.take(n).map_values(|x: (u64, Edges)| Stored { hwnd: x.0 as i64, rect: x.1 });
    assert(s.take(s.len() as int) =~= s);
    if n > 0 {
        lemma_rows_read_back(s, text, n - 1);
        let prev = s.take(n - 1).map_values(
            |x: (u64, Edges)| Stored { hwnd: x.0 as i64, rect: x.1 },
        );
        let last = s[n - 1];
        assert(want =~= prev.push(Stored { hwnd: last.0 as i64, rect: last.1 }));
        let (l, t, r, b) = (last.1.left, last.1.top, last.1.right, last.1.bottom);
        assert((l as i64) as i32 == l && (t as i64) as i32 == t && (r as i64) as i32 == r && (
        b as i64) as i32 == b);
    } else {
        assert(want =~= Seq::empty());
    }
}

/// The integer at a place, or nothing past the end.
fn integer(column: &Vec<Option<i64>>, i: usize) -> (r: Option<i64>)
    ensures
        r == integer_at(column@, i as int),
{
    if i < column.len() {
        column[i]
    } else {
        None
    }
}

/// The complete rows among columns of integers: windows and their edges.
pub fn rows_of_columns(
    h: &Vec<Option<i64>>,
    l: &Vec<Option<i64>>,
    t: &Vec<Option<i64>>,
    r: &Vec<Option<i64>>,
    b: &Vec<Option<i64>>,
) -> (rows: Vec<Stored>)
    ensures
        rows@ == complete_rows(h@, l@, t@, r@, b@, h.len() as int),
{
    let mut out: Vec<Stored> = Vec::new();
    let mut i: usize = 0;
    while i < h.len()
        invariant
            i <= h.len(),
            out@ == complete_rows(h@, l@, t@, r@, b@, i as int),
        decreases h.len() - i,
    {
        match (integer(h, i), integer(l, i), integer(t, i), integer(r, i), integer(b, i)) {
            (Some(hwnd), Some(left), Some(top), Some(right), Some(bottom)) => {
                out.push(
                    Stored {
                        hwnd,
                        rect: Edges {
                            left: left as i32,
                            top: top as i32,
                            right: right as i32,
                            bottom: bottom as i32,
                        },
                    },
                );
            },
            _ => {},
        }
        i += 1;
    }
    out
}

/// The rows that a stored text holds; none where it is no list.
pub fn rows_of_text(text: &str) -> (r: Option<Vec<Stored>>)
    ensures
        match r {
            Some(v) => stored_rows(text@) == Some(v@),
            None => stored_rows(text@) is None,
        },
{
    match (
        read_integers(text, "hwnd"),
        read_integers(text, "left"),
        read_integers(text, "top"),
        read_integers(text, "right"),
        read_integers(text, "bottom"),
    ) {
        (Some(h), Some(l), Some(t), Some(r), Some(b)) => Some(rows_of_columns(&h, &l, &t, &r, &b)),
        _ => None,
    }
}

/// How many entries a stored text holds, whole rows or not; none where it is no
/// list.
pub fn entries_of_text(text: &str) -> (r: Option<usize>)
    ensures
        match r {
            Some(n) => stored_integers(text@, "hwnd"@) matches Some(h) && n == h.len(),
            None => stored_integers(text@, "hwnd"@) is None,
        },
{
    match read_integers(text, "hwnd") {
        Some(h) => Some(h.len()),
        None => None,
    }
}

/// The place to put a window back to on a work area: its own, or one on the work
/// area where nothing of it lies there. None where the place would not fit
/// coordinates.
pub fn place_back(e: Edges, work: Rect) -> (r: Option<Edges>)
    ensures
        match r {
            Some(out) => placeable(e, work@) && out.rect() == onto(e.rect(), work@),
            None => !placeable(e, work@),
        },
{
    if !can_place(e, work) {
        return None;
    }
    Some(clamp_into_work(e, work))
}

/// The coordinate fits.
pub(crate) fn fits_i32(v: i64) -> (r: bool)
    ensures
        r == in_i32(v as int),
{
    -0x8000_0000 <= v && v <= 0x7FFF_FFFF
}

/// Where a span moves to so as to lie on another.
fn span_onto(pos: i64, len: i64, start: i64, extent: i64) -> (r: i64)
    requires
        in_i32(pos as int),
        in_i32(len as int),
        in_i32(start as int),
        in_i32(extent as int),
    ensures
        r == crate::arith::clamped(
            pos as int,
            start as int,
            crate::arith::greater(start + extent - len, start as int),
        ),
{
    let last: i64 = start + extent - len;
    let hi: i64 = if last >= start {
        last
    } else {
        start
    };
    if pos < start {
        start
    } else if pos > hi {
        hi
    } else {
        pos
    }
}

/// The place to put a window back to fits coordinates.
pub fn can_place(e: Edges, work: Rect) -> (r: bool)
    ensures
        r == placeable(e, work@),
{
    let w: i64 = e.right as i64 - e.left as i64;
    let h: i64 = e.bottom as i64 - e.top as i64;
    if !fits_i32(w) || !fits_i32(h) {
        return false;
    }
    let own = to_rect(e);
    if intersects(own, work) {
        return true;
    }
    let x: i64 = span_onto(e.left as i64, w, work.x as i64, work.w as i64);
    let y: i64 = span_onto(e.top as i64, h, work.y as i64, work.h as i64);
    fits_i32(x) && fits_i32(y) && fits_i32(x + w) && fits_i32(y + h)
}

// ---------------------------------------------------------------------------
// Laws
// ---------------------------------------------------------------------------

/// The first rectangle kept for a window stays until the window is forgotten.
pub proof fn law_first_rect_stays(s: Seq<(u64, Edges)>, h: u64, e: Edges, later: Edges)
    ensures
        remembered(remembered(s, h, e), h, later) == remembered(s, h, e),
        kept(remembered(s, h, e), h),
{
    let t = remembered(s, h, e);
    if !kept(s, h) {
        assert(t[s.len() as int].0 == h);
    }
}

/// A window that is forgotten has no rectangle, and the others keep theirs.
pub proof fn law_forget(s: Seq<(u64, Edges)>, h: u64, other: u64, e: Edges)
    requires
        kept_once(s),
        other != h,
    ensures
        !kept(forgotten(s, h), h),
        forgotten(s, h).contains((other, e)) == s.contains((other, e)),
{
    lemma_forgotten_once(s, h);
    lemma_row_from(s, h, 0);
    let i = row_from(s, h, 0);
    let t = forgotten(s, h);
    if i < s.len() {
        if s.contains((other, e)) {
            let k = choose|k: int| 0 <= k < s.len() && s[k] == (other, e);
            if k < i {
                assert(t[k] == s[k]);
            } else {
                assert(t[k - 1] == s[k]);
            }
        }
        if t.contains((other, e)) {
            let k = choose|k: int| 0 <= k < t.len() && t[k] == (other, e);
            if k < i {
                assert(s[k] == t[k]);
            } else {
                assert(s[k + 1] == t[k]);
            }
        }
    }
}

/// A window that lay on the work area of its monitor, and lies on the one it is
/// put back on, goes back to exactly where it was. Any other window is put back on
/// the work area.
pub proof fn law_put_back(window: RectView, own: RectView, work: RectView)
    requires
        window.w > 0,
        window.h > 0,
        work.w > 0,
        work.h > 0,
    ensures
        window.meets(own) && window.meets(work) ==> onto(onto(window, own), work) == window,
        onto(onto(window, own), work).meets(work),
        onto(onto(window, own), work).w == window.w,
        onto(onto(window, own), work).h == window.h,
{
    crate::geometry::law_onto_reaches_work(onto(window, own), work);
}

/// A window without a kept rectangle gets one by being remembered, and the others
/// keep theirs.
pub proof fn law_remembering(s: Seq<(u64, Edges)>, h: u64, e: Edges, other: (u64, Edges))
    requires
        other.0 != h,
    ensures
        !kept(s, h) ==> remembered(s, h, e).contains((h, e)),
        kept(s, h) ==> remembered(s, h, e) == s,
        remembered(s, h, e).contains(other) == s.contains(other),
{
    let t = remembered(s, h, e);
    if !kept(s, h) {
        assert(t[s.len() as int] == (h, e));
        if s.contains(other) {
            assert(t[s.index_of(other)] == other);
        }
        if t.contains(other) {
            let k = t.index_of(other);
            assert(s[k] == other);
        }
    }
}

/// Of stored columns of integers, the rows are those in which no integer is
/// missing, with the window and its edges as they stand there.
pub proof fn law_complete_rows(
    h: Seq<Option<i64>>,
    l: Seq<Option<i64>>,
    t: Seq<Option<i64>>,
    r: Seq<Option<i64>>,
    b: Seq<Option<i64>>,
    n: int,
    i: int,
)
    requires
        0 <= i < n,
        n <= h.len(),
        n <= l.len(),
        n <= t.len(),
        n <= r.len(),
        n <= b.len(),
    ensures
        ({
            let rows = complete_rows(h, l, t, r, b, n);
            let whole = h[i] is Some && l[i] is Some && t[i] is Some && r[i] is Some
                && b[i] is Some;
            &&& rows.len() <= n
            &&& whole ==> rows.contains(
                Stored {
                    hwnd: h[i].unwrap(),
                    rect: Edges {
                        left: l[i].unwrap() as i32,
                        top: t[i].unwrap() as i32,
                        right: r[i].unwrap() as i32,
                        bottom: b[i].unwrap() as i32,
                    },
                },
            )
            &&& !whole ==> rows.len() < n
        }),
    decreases n,
{
    let rows = complete_rows(h, l, t, r, b, n);
    let before = complete_rows(h, l, t, r, b, n - 1);
    if n - 1 > 0 {
        law_complete_rows(h, l, t, r, b, n - 1, if i < n - 1 {
            i
        } else {
            0
        });
    }
    if h[i] is Some && l[i] is Some && t[i] is Some && r[i] is Some && b[i] is Some {
        let row = Stored {
            hwnd: h[i].unwrap(),
            rect: Edges {
                left: l[i].unwrap() as i32,
                top: t[i].unwrap() as i32,
                right: r[i].unwrap() as i32,
                bottom: b[i].unwrap() as i32,
            },
        };
        if i < n - 1 {
            assert(rows[before.index_of(row)] == row);
        } else {
            assert(rows[before.len() as int] == row);
        }
    }
}

} // verus!
