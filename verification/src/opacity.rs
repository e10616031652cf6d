//! Which windows are dimmed.

use vstd::prelude::*;

use crate::cloak::LWA_ALPHA;

verus! {

/// The style bit of a window that can be dimmed.
pub const WS_EX_LAYERED: u64 = 0x0008_0000;

/// The windows that this program has dimmed, and how opaque each is.
#[derive(Debug)]
pub struct DimSet {
    entries: Vec<(u64, u8)>,
}

/// What is done to dim a window.
#[derive(Debug, Clone, Copy, PartialEq, Eq, Structural)]
pub enum DimStep {
    Nothing,
    /// Its alpha is set.
    Alpha,
    /// It gets this style, and its alpha is set.
    StyleAndAlpha(u64),
}

// ---------------------------------------------------------------------------
// Model
// ---------------------------------------------------------------------------

/// No window is dimmed twice.
pub open spec fn single(s: Seq<(u64, u8)>) -> bool {
    forall|i: int, j: int|
        0 <= i < s.len() && 0 <= j < s.len() && i != j ==> (#[trigger] s[i]).0 != (#[trigger] s[j]).0
}

/// Where the first entry of the window from `i` on stands, or the end.
pub open spec fn dimmed_from(s: Seq<(u64, u8)>, h: u64, i: int) -> int
    decreases s.len() - i,
{
    if 0 <= i < s.len() && s[i].0 != h {
        dimmed_from(s, h, i + 1)
    } else {
        i
    }
}

/// Where the entry of the window stands, or the end.
pub open spec fn dimmed_at(s: Seq<(u64, u8)>, h: u64) -> int {
    dimmed_from(s, h, 0)
}

/// The window is dimmed by this program.
pub open spec fn is_dimmed(s: Seq<(u64, u8)>, h: u64) -> bool {
    dimmed_at(s, h) < s.len()
}

/// What is done to dim a window with this style. A window that has the bit from
/// elsewhere is left alone.
pub open spec fn dim_step(s: Seq<(u64, u8)>, h: u64, alpha: u8, ex: u64) -> DimStep {
    let i = dimmed_at(s, h);
    if i < s.len() {
        if s[i].1 == alpha {
            DimStep::Nothing
        } else {
            DimStep::Alpha
        }
    } else if ex & WS_EX_LAYERED != 0 {
        DimStep::Nothing
    } else {
        DimStep::StyleAndAlpha(ex | WS_EX_LAYERED)
    }
}

/// The record once a window is dimmed.
pub open spec fn dimmed(s: Seq<(u64, u8)>, h: u64, alpha: u8, ex: u64) -> Seq<(u64, u8)> {
    let i = dimmed_at(s, h);
    if i < s.len() {
        s.update(i, (h, alpha))
    } else if ex & WS_EX_LAYERED != 0 {
        s
    } else {
        s.push((h, alpha))
    }
}

/// The record without the window; the last entry takes its place.
pub open spec fn undimmed(s: Seq<(u64, u8)>, h: u64) -> Seq<(u64, u8)> {
    let i = dimmed_at(s, h);
    if i < s.len() {
        s.update(i, s.last()).drop_last()
    } else {
        s
    }
}

impl View for DimSet {
    type V = Seq<(u64, u8)>;

    closed spec fn view(&self) -> Seq<(u64, u8)> {
        self.entries@
    }
}

// ---------------------------------------------------------------------------
// Operations
// ---------------------------------------------------------------------------

proof fn lemma_dimmed_from(s: Seq<(u64, u8)>, h: u64, i: int)
    requires
        0 <= i <= s.len(),
    ensures
        i <= dimmed_from(s, h, i) <= s.len(),
        dimmed_from(s, h, i) < s.len() ==> s[dimmed_from(s, h, i)].0 == h,
        forall|k: int| i <= k < dimmed_from(s, h, i) ==> (#[trigger] s[k]).0 != h,
    decreases s.len() - i,
{
    if i < s.len() && s[i].0 != h {
        lemma_dimmed_from(s, h, i + 1);
    }
}

impl DimSet {
    /// No window is dimmed.
    pub fn new() -> (r: DimSet)
        ensures
            r@ == Seq::<(u64, u8)>::empty(),
            single(r@),
    {
        DimSet { entries: Vec::new() }
    }

    /// Where the entry of the window stands, or the end.
    fn position(&self, h: u64) -> (r: usize)
        ensures
            r == dimmed_at(self@, h),
            r <= self@.len(),
            self@.len() == self.entries.len(),
    {
        let mut i: usize = 0;
        while i < self.entries.len()
            invariant
                i <= self.entries.len(),
                dimmed_at(self.entries@, h) == dimmed_from(self.entries@, h, i as int),
            decreases self.entries.len() - i,
        {
            if self.entries[i].0 == h {
                return i;
            }
            i += 1;
        }
        i
    }

    /// Takes note of a window to be dimmed, `ex` being its style: what is done.
    pub fn dim(&mut self, h: u64, alpha: u8, ex: u64) -> (r: DimStep)
        requires
            single(old(self)@),
        ensures
            r == dim_step(old(self)@, h, alpha, ex),
            final(self)@ == dimmed(old(self)@, h, alpha, ex),
            single(final(self)@),
    {
        let i: usize = self.position(h);
        let ghost s = self@;
        proof {
            lemma_dimmed_from(s, h, 0);
        }
        if i < self.entries.len() {
            let same: bool = self.entries[i].1 == alpha;
            self.entries[i] = (h, alpha);
            if same {
                DimStep::Nothing
            } else {
                DimStep::Alpha
            }
        } else if ex & WS_EX_LAYERED != 0 {
            DimStep::Nothing
        } else {
            self.entries.push((h, alpha));
            DimStep::StyleAndAlpha(ex | WS_EX_LAYERED)
        }
    }

    /// Takes a window off the record; it is to be made opaque where the result
    /// is true.
    pub fn undim(&mut self, h: u64) -> (r: bool)
        requires
            single(old(self)@),
        ensures
            r == is_dimmed(old(self)@, h),
            final(self)@ == undimmed(old(self)@, h),
            single(final(self)@),
    {
        let i: usize = self.position(h);
        let ghost s = self@;
        if i < self.entries.len() {
            self.entries.swap_remove(i);
            assert(self@ =~= undimmed(s, h));
            assert forall|a: int, b: int|
                0 <= a < self@.len() && 0 <= b < self@.len() && a != b implies (
            #[trigger] self@[a]).0 != (#[trigger] self@[b]).0 by {
                let x = if a == i {
                    s.len() - 1
                } else {
                    a
                };
                let y = if b == i {
                    s.len() - 1
                } else {
                    b
                };
                assert(s[x].0 != s[y].0);
            }
            true
        } else {
            false
        }
    }

    /// Takes all windows off the record; each is to be made opaque.
    pub fn drain(&mut self) -> (r: Vec<u64>)
        ensures
            r@ == old(self)@.map_values(|e: (u64, u8)| e.0),
            final(self)@ == Seq::<(u64, u8)>::empty(),
            single(final(self)@),
    {
        let ghost s = self@;
        let mut all: Vec<(u64, u8)> = Vec::new();
        std::mem::swap(&mut all, &mut self.entries);
        let mut out: Vec<u64> = Vec::new();
        let mut i: usize = 0;
        while i < all.len()
            invariant
                i <= all.len(),
                all@ == s,
                out.len() == i,
                forall|k: int| 0 <= k < i ==> #[trigger] out@[k] == s[k].0,
            decreases all.len() - i,
        {
            out.push(all[i].0);
            i += 1;
        }
        assert(out@ =~= s.map_values(|e: (u64, u8)| e.0));
        out
    }
}

/// The style of a window that is no longer dimmed.
pub fn opaque_style(ex: u64) -> (r: u64)
    ensures
        r == ex & !WS_EX_LAYERED,
{
    ex & !WS_EX_LAYERED
}

/// The window was left dimmed: its alpha could be read, is in force and is not
/// full.
pub fn left_dimmed(readable: bool, flags: u32, alpha: u8) -> (r: bool)
    ensures
        r == (readable && flags & LWA_ALPHA == LWA_ALPHA && alpha < 255),
{
    readable && flags & LWA_ALPHA == LWA_ALPHA && alpha < 255
}

// ---------------------------------------------------------------------------
// Laws
// ---------------------------------------------------------------------------

/// A window that this program gave the style to is on record until it is made
/// opaque again, with the alpha it was given last.
pub proof fn law_dim_is_undone(s: Seq<(u64, u8)>, h: u64, alpha: u8, ex: u64)
    requires
        single(s),
    ensures
        dim_step(s, h, alpha, ex) is StyleAndAlpha ==> !is_dimmed(s, h) && is_dimmed(
            dimmed(s, h, alpha, ex),
            h,
        ),
        is_dimmed(dimmed(s, h, alpha, ex), h) ==> dimmed(s, h, alpha, ex)[dimmed_at(
            dimmed(s, h, alpha, ex),
            h,
        )] == (h, alpha),
        !is_dimmed(undimmed(s, h), h),
{
    lemma_dimmed_from(s, h, 0);
    let d = dimmed(s, h, alpha, ex);
    lemma_dimmed_from(d, h, 0);
    let i = dimmed_at(s, h);
    let j = dimmed_at(d, h);
    if i < s.len() {
        assert(d[i].0 == h);
        if j != i {
            assert(s[j].0 != s[i].0);
        }
    } else if d.len() > s.len() {
        assert(d[i] == (h, alpha));
        if j < i {
            assert(s[j].0 != h);
        }
    }
    let u = undimmed(s, h);
    lemma_dimmed_from(u, h, 0);
    let k = dimmed_at(u, h);
    if k < u.len() {
        let x = if k == i {
            s.len() - 1
        } else {
            k
        };
        assert(u[k] == s[x]);
        if i < s.len() {
            assert(s[x].0 != s[i].0);
        } else {
            assert(s[x].0 != h);
        }
    }
}

/// Dimming a window twice at the same alpha does nothing the second time.
pub proof fn law_dim_twice_is_idle(s: Seq<(u64, u8)>, h: u64, alpha: u8, ex: u64)
    requires
        single(s),
        is_dimmed(dimmed(s, h, alpha, ex), h),
    ensures
        dim_step(dimmed(s, h, alpha, ex), h, alpha, ex) is Nothing,
        dimmed(dimmed(s, h, alpha, ex), h, alpha, ex) == dimmed(s, h, alpha, ex),
{
    law_dim_is_undone(s, h, alpha, ex);
    let d = dimmed(s, h, alpha, ex);
    lemma_dimmed_from(d, h, 0);
    assert(dimmed(d, h, alpha, ex) =~= d);
}

/// Dimming a window, or making it opaque, leaves the record of every other window
/// as it was. A window that has the style from elsewhere is never put on record.
pub proof fn law_dimming_touches_one(s: Seq<(u64, u8)>, h: u64, alpha: u8, ex: u64, e: (u64, u8))
    requires
        single(s),
        e.0 != h,
    ensures
        dimmed(s, h, alpha, ex).contains(e) == s.contains(e),
        undimmed(s, h).contains(e) == s.contains(e),
        !is_dimmed(s, h) && ex & WS_EX_LAYERED != 0 ==> dimmed(s, h, alpha, ex) == s && dim_step(
            s,
            h,
            alpha,
            ex,
        ) is Nothing,
        !is_dimmed(s, h) ==> undimmed(s, h) == s,
{
    lemma_dimmed_from(s, h, 0);
    let i = dimmed_at(s, h);
    let d = dimmed(s, h, alpha, ex);
    let u = undimmed(s, h);
    if s.contains(e) {
        let k = s.index_of(e);
        assert(d[k] == e);
        if i < s.len() {
            if k == s.len() - 1 {
                assert(u[i] == e);
            } else {
                assert(u[k] == e);
            }
        }
    }
    if d.contains(e) {
        let k = d.index_of(e);
        if k < s.len() {
            assert(s[k] == e);
        }
    }
    if u.contains(e) {
        let k = u.index_of(e);
        if i < s.len() && k == i {
            assert(s[s.len() - 1] == e);
        } else {
            assert(s[k] == e);
        }
    }
}

} // verus!
