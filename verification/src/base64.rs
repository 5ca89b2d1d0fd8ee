//! Base64 with padding, for the picture inside a request.

use vstd::prelude::*;

verus! {

/// The symbol for a value of six bits.
pub open spec fn symbol(v: int) -> char {
    if v < 26 {
        ('A' as int + v) as char
    } else if v < 52 {
        ('a' as int + v - 26) as char
    } else if v < 62 {
        ('0' as int + v - 52) as char
    } else if v == 62 {
        '+'
    } else {
        '/'
    }
}

/// The byte at `i`, or zero past the end.
pub open spec fn byte_at(data: Seq<u8>, i: int) -> int {
    if i < data.len() {
        data[i] as int
    } else {
        0
    }
}

/// The four symbols for the first three bytes of `data`, padded where there
/// are fewer.
pub open spec fn group(data: Seq<u8>) -> Seq<char> {
    let n = byte_at(data, 0) * 0x10000 + byte_at(data, 1) * 0x100 + byte_at(data, 2);
    seq![
        symbol(n / 0x40000),
        symbol(n / 0x1000 % 64),
        if data.len() > 1 {
            symbol(n / 0x40 % 64)
        } else {
            '='
        },
        if data.len() > 2 {
            symbol(n % 64)
        } else {
            '='
        },
    ]
}

/// `data` in Base64.
pub open spec fn encode(data: Seq<u8>) -> Seq<char>
    decreases data.len(),
{
    if data.len() == 0 {
        seq![]
    } else if data.len() <= 3 {
        group(data)
    } else {
        group(data) + encode(data.skip(3))
    }
}

/// The value of a symbol; zero for padding.
pub open spec fn symbol_value(c: char) -> int {
    if 'A' <= c <= 'Z' {
        c as int - 'A' as int
    } else if 'a' <= c <= 'z' {
        c as int - 'a' as int + 26
    } else if '0' <= c <= '9' {
        c as int - '0' as int + 52
    } else if c == '+' {
        62
    } else if c == '/' {
        63
    } else {
        0
    }
}

/// The bytes that a group of four symbols stands for.
pub open spec fn ungroup(s: Seq<char>) -> Seq<u8> {
    let n = symbol_value(s[0]) * 0x40000 + symbol_value(s[1]) * 0x1000 + symbol_value(s[2]) * 0x40
        + symbol_value(s[3]);
    let b0 = (n / 0x10000) as u8;
    let b1 = (n / 0x100 % 0x100) as u8;
    let b2 = (n % 0x100) as u8;
    if s[2] == '=' {
        seq![b0]
    } else if s[3] == '=' {
        seq![b0, b1]
    } else {
        seq![b0, b1, b2]
    }
}

/// The bytes that a text in Base64 stands for.
pub open spec fn decode(s: Seq<char>) -> Seq<u8>
    decreases s.len(),
{
    if s.len() < 4 {
        seq![]
    } else {
        ungroup(s) + decode(s.skip(4))
    }
}

/// The symbol for a value of six bits.
fn symbol_of(v: u32) -> (c: char)
    requires
        v < 64,
    ensures
        c == symbol(v as int),
{
    let b: u8 = v as u8;
    if b < 26 {
        ('A' as u8 + b) as char
    } else if b < 52 {
        ('a' as u8 + (b - 26)) as char
    } else if b < 62 {
        ('0' as u8 + (b - 52)) as char
    } else if b == 62 {
        '+'
    } else {
        '/'
    }
}

/// Encodes bytes in Base64, with padding.
pub fn base64(data: &[u8]) -> (s: String)
    ensures
        s@ == encode(data@),
{
    let mut out = String::new();
    let n: usize = data.len();
    let mut i: usize = 0;
    assert(data@.skip(0) =~= data@);
    assert(out@ + encode(data@.skip(0)) =~= encode(data@));
    while i < n
        invariant
            i <= n,
            n == data@.len(),
            out@ + encode(data@.skip(i as int)) == encode(data@),
        decreases n - i,
    {
        let ghost rest = data@.skip(i as int);
        let ghost before = out@;
        let left: usize = n - i;
        let b0: u32 = data[i] as u32;
        let b1: u32 = if left > 1 { data[i + 1] as u32 } else { 0 };
        let b2: u32 = if left > 2 { data[i + 2] as u32 } else { 0 };
        let bits: u32 = b0 * 0x10000 + b1 * 0x100 + b2;
        out.push(symbol_of(bits / 0x40000));
        out.push(symbol_of(bits / 0x1000 % 64));
        out.push(if left > 1 { symbol_of(bits / 0x40 % 64) } else { '=' });
        out.push(if left > 2 { symbol_of(bits % 64) } else { '=' });
        assert(out@ =~= before + group(rest));
        if left <= 3 {
            i = n;
            assert(data@.skip(i as int).len() == 0);
            assert(encode(rest) =~= group(rest));
            assert(out@ + encode(data@.skip(i as int)) =~= before + encode(rest));
        } else {
            i += 3;
            assert(rest.skip(3) =~= data@.skip(i as int));
            assert(out@ + encode(data@.skip(i as int)) =~= before + encode(rest));
        }
    }
    assert(data@.skip(i as int).len() == 0);
    assert(out@ + encode(data@.skip(i as int)) =~= out@);
    out
}

/// A symbol has the value that it was chosen for, and is no padding.
proof fn lemma_symbol(v: int)
    requires
        0 <= v < 64,
    ensures
        symbol_value(symbol(v)) == v,
        symbol(v) != '=',
{
}

/// Three bytes, cut into four values of six bits.
proof fn lemma_six_bits(d0: int, d1: int, d2: int)
    requires
        0 <= d0 < 256,
        0 <= d1 < 256,
        0 <= d2 < 256,
    ensures
        ({
            let n = d0 * 0x10000 + d1 * 0x100 + d2;
            &&& n / 0x40000 == d0 / 4
            &&& n / 0x1000 % 64 == d0 % 4 * 16 + d1 / 16
            &&& n / 0x40 % 64 == d1 % 16 * 4 + d2 / 64
            &&& n % 64 == d2 % 64
        }),
{
    let n = d0 * 0x10000 + d1 * 0x100 + d2;
    let q0 = d0 / 4;
    let r0 = d0 % 4;
    let q1 = d1 / 16;
    let r1 = d1 % 16;
    let q2 = d2 / 64;
    let r2 = d2 % 64;
    assert(n == q0 * 0x40000 + r0 * 0x10000 + q1 * 0x1000 + r1 * 0x100 + q2 * 0x40 + r2);
    assert(n / 0x1000 == q0 * 64 + r0 * 16 + q1);
    assert(n / 0x40 == q0 * 0x1000 + r0 * 0x400 + q1 * 64 + r1 * 4 + q2);
}

/// Four values of six bits, put together to three bytes.
proof fn lemma_three_bytes(d0: int, d1: int, d2: int)
    requires
        0 <= d0 < 256,
        0 <= d1 < 256,
        0 <= d2 < 256,
    ensures
        ({
            let m = d0 / 4 * 0x40000 + (d0 % 4 * 16 + d1 / 16) * 0x1000 + (d1 % 16 * 4 + d2 / 64)
                * 0x40 + d2 % 64;
            &&& m / 0x10000 == d0
            &&& m / 0x100 % 0x100 == d1
            &&& m % 0x100 == d2
        }),
{
    let m = d0 / 4 * 0x40000 + (d0 % 4 * 16 + d1 / 16) * 0x1000 + (d1 % 16 * 4 + d2 / 64) * 0x40
        + d2 % 64;
    assert(m == d0 * 0x10000 + d1 * 0x100 + d2);
    assert(m / 0x100 == d0 * 0x100 + d1);
}

/// A group stands for the bytes that it was made from.
proof fn lemma_ungroup(data: Seq<u8>)
    requires
        data.len() > 0,
    ensures
        ungroup(group(data)) == (if data.len() <= 3 {
            data
        } else {
            data.take(3)
        }),
{
    let d0 = byte_at(data, 0);
    let d1 = byte_at(data, 1);
    let d2 = byte_at(data, 2);
    lemma_six_bits(d0, d1, d2);
    lemma_three_bytes(d0, d1, d2);
    lemma_symbol(d0 / 4);
    lemma_symbol(d0 % 4 * 16 + d1 / 16);
    lemma_symbol(d1 % 16 * 4 + d2 / 64);
    lemma_symbol(d2 % 64);
    let g = group(data);
    assert(symbol_value(g[0]) == d0 / 4);
    assert(symbol_value(g[1]) == d0 % 4 * 16 + d1 / 16);
    assert(symbol_value(g[2]) == d1 % 16 * 4 + d2 / 64);
    assert(symbol_value(g[3]) == d2 % 64);
    if data.len() <= 3 {
        assert(ungroup(g) =~= data);
    } else {
        assert(ungroup(g) =~= data.take(3));
    }
}

/// Decoding gives back the bytes that were encoded.
pub proof fn law_decode_gives_back_the_bytes(data: Seq<u8>)
    ensures
        decode(encode(data)) == data,
    decreases data.len(),
{
    if data.len() == 0 {
        assert(decode(encode(data)) =~= data);
    } else {
        lemma_ungroup(data);
        let s = encode(data);
        assert(s.take(4) =~= group(data));
        assert(ungroup(s) == ungroup(group(data)));
        if data.len() <= 3 {
            assert(decode(s.skip(4)) =~= seq![]);
            assert(decode(s) =~= data);
        } else {
            law_decode_gives_back_the_bytes(data.skip(3));
            assert(s.skip(4) =~= encode(data.skip(3)));
            assert(data.take(3) + data.skip(3) =~= data);
        }
    }
}

/// The text has four symbols for every three bytes begun.
pub proof fn law_four_symbols_for_three_bytes(data: Seq<u8>)
    ensures
        encode(data).len() == (data.len() + 2) / 3 * 4,
    decreases data.len(),
{
    if data.len() > 3 {
        law_four_symbols_for_three_bytes(data.skip(3));
    }
}

/// The symbols are the letters, upper case before lower case, the digits, the
/// plus sign and the slash.
pub proof fn law_the_alphabet(v: int)
    requires
        0 <= v < 64,
    ensures
        symbol(v) == "ABCDEFGHIJKLMNOPQRSTUVWXYZabcdefghijklmnopqrstuvwxyz0123456789+/"@[v],
{
    reveal_strlit("ABCDEFGHIJKLMNOPQRSTUVWXYZabcdefghijklmnopqrstuvwxyz0123456789+/");
}

} // verus!
