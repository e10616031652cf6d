//! Base64 with the standard alphabet and padding.

use vstd::prelude::*;

verus! {

// ---------------------------------------------------------------------------
// Model
// ---------------------------------------------------------------------------

/// The character that stands for six bits.
pub open spec fn symbol(v: u32) -> char {
    if v < 26 {
        (('A' as u32) + v) as char
    } else if v < 52 {
        (('a' as u32) + (v - 26)) as char
    } else if v < 62 {
        (('0' as u32) + (v - 52)) as char
    } else if v == 62 {
        '+'
    } else {
        '/'
    }
}

/// The byte at `i`, or zero past the end.
pub open spec fn byte_or_zero(data: Seq<u8>, i: int) -> u32 {
    if i < data.len() {
        data[i] as u32
    } else {
        0
    }
}

/// The three bytes from `i` on as one number, the first one highest.
pub open spec fn triple(data: Seq<u8>, i: int) -> u32 {
    (byte_or_zero(data, i) << 16) | (byte_or_zero(data, i + 1) << 8) | byte_or_zero(data, i + 2)
}

/// The four characters of the group of up to three bytes from `i` on.
pub open spec fn group(data: Seq<u8>, i: int) -> Seq<char> {
    let n = triple(data, i);
    seq![
        symbol((n >> 18) & 63),
        symbol((n >> 12) & 63),
        if i + 1 < data.len() {
            symbol((n >> 6) & 63)
        } else {
            '='
        },
        if i + 2 < data.len() {
            symbol(n & 63)
        } else {
            '='
        },
    ]
}

/// The first `k` groups.
pub open spec fn groups(data: Seq<u8>, k: int) -> Seq<char>
    decreases k,
{
    if k <= 0 {
        Seq::empty()
    } else {
        groups(data, k - 1) + group(data, 3 * (k - 1))
    }
}

/// How many groups the bytes make.
pub open spec fn group_count(n: int) -> int {
    (n + 2) / 3
}

/// The bytes in Base64.
pub open spec fn encoded(data: Seq<u8>) -> Seq<char> {
    groups(data, group_count(data.len() as int))
}

/// The six bits a character stands for.
pub open spec fn value(c: char) -> u32 {
    if 'A' <= c <= 'Z' {
        (c as u32 - 'A' as u32) as u32
    } else if 'a' <= c <= 'z' {
        (c as u32 - 'a' as u32 + 26) as u32
    } else if '0' <= c <= '9' {
        (c as u32 - '0' as u32 + 52) as u32
    } else if c == '+' {
        62
    } else {
        63
    }
}

// ---------------------------------------------------------------------------
// Operations
// ---------------------------------------------------------------------------

/// The character that stands for six bits.
fn symbol_of(v: u32) -> (c: char)
    requires
        v < 64,
    ensures
        c == symbol(v),
{
    if v < 26 {
        (65 + v as u8) as char
    } else if v < 52 {
        (97 + (v as u8 - 26)) as char
    } else if v < 62 {
        (48 + (v as u8 - 52)) as char
    } else if v == 62 {
        '+'
    } else {
        '/'
    }
}

/// Six bits are less than sixty-four.
proof fn lemma_six_bits(n: u32)
    ensures
        (n >> 18) & 63 < 64,
        (n >> 12) & 63 < 64,
        (n >> 6) & 63 < 64,
        n & 63 < 64,
{
    assert((n >> 18) & 63 < 64) by (bit_vector);
    assert((n >> 12) & 63 < 64) by (bit_vector);
    assert((n >> 6) & 63 < 64) by (bit_vector);
    assert(n & 63 < 64) by (bit_vector);
}

/// The bytes in Base64.
pub fn base64(data: &[u8]) -> (r: String)
    ensures
        r@ == encoded(data@),
{
    let n: usize = data.len();
    let mut out = String::new();
    let mut i: usize = 0;
    let ghost mut k: int = 0;
    while i < n
        invariant
            n == data@.len(),
            i == 3 * k,
            0 <= k <= group_count(n as int),
            out@ == groups(data@, k),
        decreases n - i,
    {
        let b0: u32 = data[i] as u32;
        let b1: u32 = if i < n - 1 {
            data[i + 1] as u32
        } else {
            0
        };
        let b2: u32 = if n - i > 2 {
            data[i + 2] as u32
        } else {
            0
        };
        let v: u32 = (b0 << 16) | (b1 << 8) | b2;
        proof {
            assert(v == triple(data@, i as int));
            lemma_six_bits(v);
        }
        let ghost before = out@;
        out.push(symbol_of((v >> 18) & 63));
        out.push(symbol_of((v >> 12) & 63));
        if n - i > 1 {
            out.push(symbol_of((v >> 6) & 63));
        } else {
            out.push('=');
        }
        if n - i > 2 {
            out.push(symbol_of(v & 63));
        } else {
            out.push('=');
        }
        proof {
            assert(out@ =~= before + group(data@, i as int));
            k = k + 1;
        }
        if n - i <= 3 {
            assert(k == group_count(n as int));
            return out;
        }
        i += 3;
    }
    assert(k == group_count(n as int));
    out
}

// ---------------------------------------------------------------------------
// Laws
// ---------------------------------------------------------------------------

/// A character gives back the six bits it stands for.
pub proof fn law_symbol_value(v: u32)
    requires
        v < 64,
    ensures
        value(symbol(v)) == v,
{
}

proof fn lemma_group_at(data: Seq<u8>, k: int, g: int, j: int)
    requires
        0 <= g < k,
        0 <= j < 4,
    ensures
        groups(data, k).len() == 4 * k,
        groups(data, k)[4 * g + j] == group(data, 3 * g)[j],
    decreases k,
{
    lemma_groups_len(data, k - 1);
    lemma_groups_len(data, k);
    if g < k - 1 {
        lemma_group_at(data, k - 1, g, j);
    }
}

proof fn lemma_groups_len(data: Seq<u8>, k: int)
    requires
        0 <= k,
    ensures
        groups(data, k).len() == 4 * k,
    decreases k,
{
    if k > 0 {
        lemma_groups_len(data, k - 1);
    }
}

/// Base64 keeps the bytes: there are four characters for each three bytes begun,
/// and each byte is read back from the six bits of its characters.
pub proof fn law_base64_decodes(data: Seq<u8>, g: int)
    requires
        0 <= g < group_count(data.len() as int),
    ensures
        ({
            let s = encoded(data);
            let v0 = value(s[4 * g]);
            let v1 = value(s[4 * g + 1]);
            let v2 = value(s[4 * g + 2]);
            let v3 = value(s[4 * g + 3]);
            &&& s.len() == 4 * group_count(data.len() as int)
            &&& data[3 * g] == ((v0 << 2) | (v1 >> 4)) as u8
            &&& 3 * g + 1 < data.len() ==> data[3 * g + 1] == ((v1 << 4) | (v2 >> 2)) as u8
            &&& 3 * g + 2 < data.len() ==> data[3 * g + 2] == ((v2 << 6) | v3) as u8
            &&& 3 * g + 1 >= data.len() ==> s[4 * g + 2] == '='
            &&& 3 * g + 2 >= data.len() ==> s[4 * g + 3] == '='
        }),
{
    let k = group_count(data.len() as int);
    let n = triple(data, 3 * g);
    lemma_group_at(data, k, g, 0);
    lemma_group_at(data, k, g, 1);
    lemma_group_at(data, k, g, 2);
    lemma_group_at(data, k, g, 3);
    lemma_six_bits(n);
    law_symbol_value((n >> 18) & 63);
    law_symbol_value((n >> 12) & 63);
    law_symbol_value((n >> 6) & 63);
    law_symbol_value(n & 63);
    let b0 = data[3 * g];
    let b1 = byte_or_zero(data, 3 * g + 1) as u8;
    let b2 = byte_or_zero(data, 3 * g + 2) as u8;
    assert(n == ((b0 as u32) << 16) | ((b1 as u32) << 8) | (b2 as u32));
    assert(b0 == ((((n >> 18) & 63) << 2) | (((n >> 12) & 63) >> 4)) as u8) by (bit_vector)
        requires
            n == ((b0 as u32) << 16) | ((b1 as u32) << 8) | (b2 as u32),
    ;
    assert(b1 == ((((n >> 12) & 63) << 4) | (((n >> 6) & 63) >> 2)) as u8) by (bit_vector)
        requires
            n == ((b0 as u32) << 16) | ((b1 as u32) << 8) | (b2 as u32),
    ;
    assert(b2 == ((((n >> 6) & 63) << 6) | (n & 63)) as u8) by (bit_vector)
        requires
            n == ((b0 as u32) << 16) | ((b1 as u32) << 8) | (b2 as u32),
    ;
}

proof fn lemma_symbol_no_padding(v: u32)
    requires
        v < 64,
    ensures
        symbol(v) != '=',
{
}

/// There are four characters for each three bytes begun, of which just the last
/// ones pad a group that is short: one for each byte that it lacks.
pub proof fn law_base64_padding(data: Seq<u8>)
    ensures
        encoded(data).len() == 4 * group_count(data.len() as int),
        forall|i: int|
            0 <= i < encoded(data).len() ==> ((#[trigger] encoded(data)[i] == '=') <==> i
                >= encoded(data).len() - (3 - data.len() as int % 3) % 3),
{
    let n = data.len() as int;
    let k = group_count(n);
    lemma_groups_len(data, k);
    assert forall|i: int| 0 <= i < encoded(data).len() implies ((#[trigger] encoded(data)[i] == '=')
        <==> i >= encoded(data).len() - (3 - n % 3) % 3) by {
        let g = i / 4;
        let j = i % 4;
        let v = triple(data, 3 * g);
        lemma_group_at(data, k, g, j);
        lemma_six_bits(v);
        lemma_symbol_no_padding((v >> 18) & 63);
        lemma_symbol_no_padding((v >> 12) & 63);
        lemma_symbol_no_padding((v >> 6) & 63);
        lemma_symbol_no_padding(v & 63);
    }
}

proof fn lemma_groups_join(a: Seq<u8>, b: Seq<u8>, k: int)
    requires
        a.len() % 3 == 0,
        0 <= k <= group_count((a + b).len() as int),
    ensures
        3 * k <= a.len() ==> groups(a + b, k) == groups(a, k),
        3 * k >= a.len() ==> groups(a + b, k) == groups(a, a.len() as int / 3) + groups(
            b,
            k - a.len() as int / 3,
        ),
    decreases k,
{
    let m = a.len() as int / 3;
    let all = a + b;
    if k > 0 {
        lemma_groups_join(a, b, k - 1);
        let i = 3 * (k - 1);
        if 3 * k <= a.len() {
            assert(group(all, i) =~= group(a, i));
        } else {
            let j = i - a.len();
            assert(byte_or_zero(all, i) == byte_or_zero(b, j));
            assert(byte_or_zero(all, i + 1) == byte_or_zero(b, j + 1));
            assert(byte_or_zero(all, i + 2) == byte_or_zero(b, j + 2));
            assert(group(all, i) =~= group(b, j));
            assert(groups(all, k) =~= groups(a, m) + groups(b, k - m));
        }
    }
    if 3 * k == a.len() {
        assert(groups(a, m) + groups(b, 0) =~= groups(a, m));
    }
}

/// Bytes that fill their groups can be encoded apart from those that follow.
pub proof fn law_base64_joins(a: Seq<u8>, b: Seq<u8>)
    requires
        a.len() % 3 == 0,
    ensures
        encoded(a + b) == encoded(a) + encoded(b),
{
    lemma_groups_join(a, b, group_count((a + b).len() as int));
}

} // verus!
