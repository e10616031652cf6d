//! SHA-1 as RFC 3174 defines it.

use vstd::prelude::*;

verus! {

/// The five words of a digest under way.
#[derive(Clone, Copy, PartialEq, Eq, Structural)]
pub struct Words {
    pub a: u32,
    pub b: u32,
    pub c: u32,
    pub d: u32,
    pub e: u32,
}

// ---------------------------------------------------------------------------
// Model
// ---------------------------------------------------------------------------

/// Addition of words, the carry out lost.
pub open spec fn plus(x: u32, y: u32) -> u32 {
    ((x + y) % 0x1_0000_0000) as u32
}

/// The word turned left by `n` bits.
pub open spec fn rotl(x: u32, n: u32) -> u32 {
    (x << n) | (x >> ((32 - n) as u32))
}

/// Four bytes from `i` on as a word, the first one highest.
pub open spec fn word_at(s: Seq<u8>, i: int) -> u32 {
    ((s[i] as u32) << 24) | ((s[i + 1] as u32) << 16) | ((s[i + 2] as u32) << 8) | (s[i + 3] as u32)
}

/// The number as eight bytes, the highest first.
pub open spec fn length_bytes(n: u64) -> Seq<u8> {
    seq![
        (n >> 56) as u8,
        (n >> 48) as u8,
        (n >> 40) as u8,
        (n >> 32) as u8,
        (n >> 24) as u8,
        (n >> 16) as u8,
        (n >> 8) as u8,
        n as u8,
    ]
}

/// How many zero bytes fill a message of `n` bytes up: with the byte before
/// them and the eight behind them it becomes a whole number of blocks.
pub open spec fn fill(n: int) -> int {
    (119 - n % 64) % 64
}

/// The message with a one bit, zeros and its length in bits behind it. The
/// length counts in sixty-four bits.
pub open spec fn padded(data: Seq<u8>) -> Seq<u8> {
    data.push(0x80u8) + Seq::new(fill(data.len() as int) as nat, |i: int| 0u8) + length_bytes(
        ((data.len() * 8) % 0x1_0000_0000_0000_0000) as u64,
    )
}

/// Word `t` of the schedule of the block from `at` on.
pub open spec fn scheduled(msg: Seq<u8>, at: int, t: int) -> u32
    decreases t,
{
    if t < 16 {
        word_at(msg, at + 4 * t)
    } else {
        rotl(
            scheduled(msg, at, t - 3) ^ scheduled(msg, at, t - 8) ^ scheduled(msg, at, t - 14)
                ^ scheduled(msg, at, t - 16),
            1,
        )
    }
}

/// The function of round `t`.
pub open spec fn mixed(t: int, b: u32, c: u32, d: u32) -> u32 {
    if t < 20 {
        (b & c) | (!b & d)
    } else if t < 40 {
        b ^ c ^ d
    } else if t < 60 {
        (b & c) | (b & d) | (c & d)
    } else {
        b ^ c ^ d
    }
}

/// The constant of round `t`.
pub open spec fn constant(t: int) -> u32 {
    if t < 20 {
        0x5A82_7999
    } else if t < 40 {
        0x6ED9_EBA1
    } else if t < 60 {
        0x8F1B_BCDC
    } else {
        0xCA62_C1D6
    }
}

/// One round.
pub open spec fn round(h: Words, t: int, w: u32) -> Words {
    Words {
        a: plus(plus(plus(plus(rotl(h.a, 5), mixed(t, h.b, h.c, h.d)), h.e), constant(t)), w),
        b: h.a,
        c: rotl(h.b, 30),
        d: h.c,
        e: h.d,
    }
}

/// The first `t` rounds on the block from `at` on.
pub open spec fn rounds(h: Words, msg: Seq<u8>, at: int, t: int) -> Words
    decreases t,
{
    if t <= 0 {
        h
    } else {
        round(rounds(h, msg, at, t - 1), t - 1, scheduled(msg, at, t - 1))
    }
}

/// One block taken in.
pub open spec fn absorbed(h: Words, msg: Seq<u8>, at: int) -> Words {
    let r = rounds(h, msg, at, 80);
    Words {
        a: plus(h.a, r.a),
        b: plus(h.b, r.b),
        c: plus(h.c, r.c),
        d: plus(h.d, r.d),
        e: plus(h.e, r.e),
    }
}

/// The words to start from.
pub open spec fn initial() -> Words {
    Words {
        a: 0x6745_2301,
        b: 0xEFCD_AB89,
        c: 0x98BA_DCFE,
        d: 0x1032_5476,
        e: 0xC3D2_E1F0,
    }
}

/// The first `n` blocks taken in.
pub open spec fn digested(msg: Seq<u8>, n: int) -> Words
    decreases n,
{
    if n <= 0 {
        initial()
    } else {
        absorbed(digested(msg, n - 1), msg, 64 * (n - 1))
    }
}

/// A word as four bytes, the highest first.
pub open spec fn word_bytes(x: u32) -> Seq<u8> {
    seq![(x >> 24) as u8, (x >> 16) as u8, (x >> 8) as u8, x as u8]
}

/// The digest of a message.
pub open spec fn digest(data: Seq<u8>) -> Seq<u8> {
    let msg = padded(data);
    let h = digested(msg, msg.len() as int / 64);
    word_bytes(h.a) + word_bytes(h.b) + word_bytes(h.c) + word_bytes(h.d) + word_bytes(h.e)
}

// ---------------------------------------------------------------------------
// Operations
// ---------------------------------------------------------------------------

/// Padding fills whole blocks.
proof fn lemma_padded_len(n: int)
    requires
        0 <= n,
    ensures
        0 <= fill(n) < 64,
        (n + 1 + fill(n)) % 64 == 56,
        (n + 1 + fill(n) + 8) % 64 == 0,
{
}

/// The message with its padding.
fn pad(data: &[u8]) -> (msg: Vec<u8>)
    ensures
        msg@ == padded(data@),
        msg@.len() % 64 == 0,
{
    let n: usize = data.len();
    let mut msg: Vec<u8> = Vec::new();
    let mut i: usize = 0;
    assert(data@.take(0) =~= Seq::empty());
    while i < n
        invariant
            i <= n,
            n == data@.len(),
            msg@ == data@.take(i as int),
        decreases n - i,
    {
        msg.push(data[i]);
        assert(data@.take(i + 1) =~= data@.take(i as int).push(data@[i as int]));
        i += 1;
    }
    assert(data@.take(n as int) =~= data@);
    msg.push(0x80);
    let left: usize = (119 - n % 64) % 64;
    proof {
        lemma_padded_len(n as int);
    }
    let mut k: usize = 0;
    let ghost head = data@.push(0x80u8);
    assert(head + Seq::new(0, |i: int| 0u8) =~= head);
    while k < left
        invariant
            k <= left,
            left == fill(n as int),
            msg@ == head + Seq::new(k as nat, |i: int| 0u8),
        decreases left - k,
    {
        msg.push(0);
        assert(msg@ =~= head + Seq::new((k + 1) as nat, |i: int| 0u8));
        k += 1;
    }
    let bits: u64 = (n as u64).wrapping_mul(8);
    let ghost body = msg@;
    msg.push((bits >> 56) as u8);
    msg.push((bits >> 48) as u8);
    msg.push((bits >> 40) as u8);
    msg.push((bits >> 32) as u8);
    msg.push((bits >> 24) as u8);
    msg.push((bits >> 16) as u8);
    msg.push((bits >> 8) as u8);
    msg.push(bits as u8);
    assert(msg@ =~= body + length_bytes(bits));
    msg
}

/// The word turned left by `n` bits.
fn rotate(x: u32, n: u32) -> (r: u32)
    requires
        0 < n < 32,
    ensures
        r == rotl(x, n),
{
    (x << n) | (x >> (32 - n))
}

/// Addition of words, the carry out lost.
fn add_words(x: u32, y: u32) -> (r: u32)
    ensures
        r == plus(x, y),
{
    x.wrapping_add(y)
}

/// The eighty words of a block's schedule.
fn schedule(msg: &Vec<u8>, at: usize) -> (w: Vec<u32>)
    requires
        at + 64 <= msg.len(),
    ensures
        w.len() == 80,
        forall|t: int| 0 <= t < 80 ==> #[trigger] w@[t] == scheduled(msg@, at as int, t),
{
    let mut w: Vec<u32> = Vec::new();
    let mut t: usize = 0;
    while t < 80
        invariant
            t <= 80,
            at + 64 <= msg.len(),
            w.len() == t,
            forall|k: int| 0 <= k < t ==> #[trigger] w@[k] == scheduled(msg@, at as int, k),
        decreases 80 - t,
    {
        if t < 16 {
            let i: usize = at + 4 * t;
            let x: u32 = ((msg[i] as u32) << 24) | ((msg[i + 1] as u32) << 16) | ((msg[i
                + 2] as u32) << 8) | (msg[i + 3] as u32);
            assert(x == word_at(msg@, at + 4 * t));
            w.push(x);
        } else {
            let x: u32 = w[t - 3] ^ w[t - 8] ^ w[t - 14] ^ w[t - 16];
            let y: u32 = rotate(x, 1);
            assert(y == scheduled(msg@, at as int, t as int));
            w.push(y);
        }
        t += 1;
    }
    w
}

/// One round.
fn step(h: Words, t: usize, w: u32) -> (r: Words)
    requires
        t < 80,
    ensures
        r == round(h, t as int, w),
{
    let f: u32 = if t < 20 {
        (h.b & h.c) | (!h.b & h.d)
    } else if t < 40 {
        h.b ^ h.c ^ h.d
    } else if t < 60 {
        (h.b & h.c) | (h.b & h.d) | (h.c & h.d)
    } else {
        h.b ^ h.c ^ h.d
    };
    let k: u32 = if t < 20 {
        0x5A82_7999
    } else if t < 40 {
        0x6ED9_EBA1
    } else if t < 60 {
        0x8F1B_BCDC
    } else {
        0xCA62_C1D6
    };
    let s1: u32 = add_words(rotate(h.a, 5), f);
    let s2: u32 = add_words(s1, h.e);
    let s3: u32 = add_words(s2, k);
    Words { a: add_words(s3, w), b: h.a, c: rotate(h.b, 30), d: h.c, e: h.d }
}

/// One block taken in.
fn absorb(h: Words, msg: &Vec<u8>, at: usize) -> (r: Words)
    requires
        at + 64 <= msg.len(),
    ensures
        r == absorbed(h, msg@, at as int),
{
    let w = schedule(msg, at);
    let mut r = h;
    let mut t: usize = 0;
    while t < 80
        invariant
            t <= 80,
            w.len() == 80,
            forall|k: int| 0 <= k < 80 ==> #[trigger] w@[k] == scheduled(msg@, at as int, k),
            r == rounds(h, msg@, at as int, t as int),
        decreases 80 - t,
    {
        assert(w@[t as int] == scheduled(msg@, at as int, t as int));
        r = step(r, t, w[t]);
        t += 1;
    }
    Words {
        a: add_words(h.a, r.a),
        b: add_words(h.b, r.b),
        c: add_words(h.c, r.c),
        d: add_words(h.d, r.d),
        e: add_words(h.e, r.e),
    }
}

/// A word as four bytes, the highest first.
fn put_word(out: &mut Vec<u8>, x: u32)
    ensures
        final(out)@ == old(out)@ + word_bytes(x),
{
    out.push((x >> 24) as u8);
    out.push((x >> 16) as u8);
    out.push((x >> 8) as u8);
    out.push(x as u8);
    assert(out@ =~= old(out)@ + word_bytes(x));
}

/// The digest of a message: twenty bytes.
pub fn sha1(data: &[u8]) -> (r: [u8; 20])
    ensures
        r@ == digest(data@),
{
    let msg = pad(data);
    let blocks: usize = msg.len() / 64;
    let mut h = Words {
        a: 0x6745_2301,
        b: 0xEFCD_AB89,
        c: 0x98BA_DCFE,
        d: 0x1032_5476,
        e: 0xC3D2_E1F0,
    };
    let mut n: usize = 0;
    while n < blocks
        invariant
            n <= blocks,
            blocks * 64 <= msg.len(),
            h == digested(msg@, n as int),
        decreases blocks - n,
    {
        h = absorb(h, &msg, 64 * n);
        n += 1;
    }
    let mut out: Vec<u8> = Vec::new();
    put_word(&mut out, h.a);
    put_word(&mut out, h.b);
    put_word(&mut out, h.c);
    put_word(&mut out, h.d);
    put_word(&mut out, h.e);
    assert(out@ =~= digest(data@));
    let mut r: [u8; 20] = [0u8; 20];
    let mut i: usize = 0;
    while i < 20
        invariant
            i <= 20,
            out.len() == 20,
            forall|k: int| 0 <= k < i ==> #[trigger] r@[k] == out@[k],
        decreases 20 - i,
    {
        r[i] = out[i];
        i += 1;
    }
    assert(r@ =~= out@);
    r
}

} // verus!
