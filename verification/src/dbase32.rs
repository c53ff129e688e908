//! Custom base32 encoding used to encode `TubHash` and `TubId`.
//!
//! Dbase32 uses an encoding table whose symbols are in ASCII/UTF-8 sorted
//! order:
//!
//!     3456789ABCDEFGHIJKLMNOPQRSTUVWXY
//!
//! so the sort order of the encoded text matches the sort order of the binary
//! data.  Only multiples of 5 bytes (40 bits) can be encoded; each 5 byte group
//! becomes 8 symbols.
//!
//! The reverse table is rotated to the left by 42 bytes so that all valid
//! entries lie within one 64-byte cache line.

use vstd::prelude::*;
use crate::text::{ascii_chars, ascii_to_string, bytes_less, lemma_bytes_less_order};

verus! {

/// The 32 symbols, in sorted order.
pub const FORWARD: [u8; 32] = [
    51, 52, 53, 54, 55, 56, 57, 65, 66, 67, 68, 69, 70, 71, 72, 73,
    74, 75, 76, 77, 78, 79, 80, 81, 82, 83, 84, 85, 86, 87, 88, 89,
];

// ---------------------------------------------------------------------------
// Specification

/// The symbol for a 5 bit value.
pub open spec fn symbol_of(v: u8) -> u8 {
    if v < 7 {
        (51 + v) as u8
    } else {
        (58 + v) as u8
    }
}

/// Whether a byte is one of the 32 symbols.
pub open spec fn is_symbol(c: u8) -> bool {
    (51 <= c && c <= 57) || (65 <= c && c <= 89)
}

/// The 5 bit value of a symbol, or 255 for any other byte.
pub open spec fn symbol_value(c: u8) -> u8 {
    if 51 <= c && c <= 57 {
        (c - 51) as u8
    } else if 65 <= c && c <= 89 {
        (c - 58) as u8
    } else {
        255
    }
}

/// Entry `j` of the reverse table, which is rotated left by 42 bytes.
pub open spec fn reverse_entry(j: int) -> u8 {
    symbol_value(((j + 42) % 256) as u8)
}

/// The 40 bit big-endian value of the 5 byte group `g` of `bin`.
pub open spec fn pack_group(bin: Seq<u8>, g: int) -> u64 {
    (bin[5 * g] as u64) << 32u64 | (bin[5 * g + 1] as u64) << 24u64 | (bin[5 * g + 2] as u64)
        << 16u64 | (bin[5 * g + 3] as u64) << 8u64 | (bin[5 * g + 4] as u64)
}

/// The `k`th 5 bit digit (most significant first) of a 40 bit value.
pub open spec fn quintet(v: u64, k: int) -> u8 {
    ((v >> ((35 - 5 * k) as u64)) & 31u64) as u8
}

/// Dbase32 encoding of `bin` (whose length is a multiple of 5).
pub open spec fn db32_encode(bin: Seq<u8>) -> Seq<u8> {
    Seq::new(
        (bin.len() / 5 * 8) as nat,
        |j: int| symbol_of(quintet(pack_group(bin, j / 8), j % 8)),
    )
}

/// The 40 bit value of the 8 symbol group `g` of `txt`.
pub open spec fn unpack_group(txt: Seq<u8>, g: int) -> u64 {
    (symbol_value(txt[8 * g]) as u64) << 35u64 | (symbol_value(txt[8 * g + 1]) as u64) << 30u64
        | (symbol_value(txt[8 * g + 2]) as u64) << 25u64 | (symbol_value(txt[8 * g + 3]) as u64)
        << 20u64 | (symbol_value(txt[8 * g + 4]) as u64) << 15u64 | (symbol_value(txt[8 * g + 5])
        as u64) << 10u64 | (symbol_value(txt[8 * g + 6]) as u64) << 5u64 | (symbol_value(
        txt[8 * g + 7],
    ) as u64)
}

/// The `m`th byte (most significant first) of a 40 bit value.
pub open spec fn octet(v: u64, m: int) -> u8 {
    ((v >> ((32 - 8 * m) as u64)) & 255u64) as u8
}

/// The bytes that the symbols of `txt` stand for.
pub open spec fn db32_decode_bytes(txt: Seq<u8>) -> Seq<u8> {
    Seq::new((txt.len() / 8 * 5) as nat, |j: int| octet(unpack_group(txt, j / 5), j % 5))
}

/// Whether `txt` is valid Dbase32 text.
pub open spec fn is_db32_text(txt: Seq<u8>) -> bool {
    &&& txt.len() > 0
    &&& txt.len() % 8 == 0
    &&& forall|i: int| 0 <= i < txt.len() ==> is_symbol(#[trigger] txt[i])
}

/// Dbase32 decoding: `None` when `txt` is not valid Dbase32 text.
pub open spec fn db32_decode(txt: Seq<u8>) -> Option<Seq<u8>> {
    if is_db32_text(txt) {
        Some(db32_decode_bytes(txt))
    } else {
        None
    }
}

/// The lengths that `db32enc_into` and `db32dec_into` accept.
pub open spec fn bin_txt_ok(bin_len: int, txt_len: int) -> bool {
    &&& bin_len > 0
    &&& bin_len % 5 == 0
    &&& txt_len > 0
    &&& txt_len % 8 == 0
    &&& txt_len == bin_len * 8 / 5
}

/// Dbase32 text is ASCII.
pub proof fn lemma_encode_ascii(bin: Seq<u8>)
    ensures
        forall|i: int| 0 <= i < db32_encode(bin).len() ==> #[trigger] db32_encode(bin)[i] < 128,
{
    assert forall|i: int| 0 <= i < db32_encode(bin).len() implies #[trigger] db32_encode(bin)[i]
        < 128 by {
        let v = pack_group(bin, i / 8);
        let sh = (35 - 5 * (i % 8)) as u64;
        let x = v >> sh;
        assert(x & 31u64 < 32u64) by (bit_vector);
        assert(quintet(v, i % 8) == (x & 31u64) as u8);
        lemma_symbol(quintet(v, i % 8));
    }
}

// ---------------------------------------------------------------------------
// Lemmas

proof fn lemma_div_mod(x: int, d: int, q: int, r: int)
    requires
        d > 0,
        0 <= r < d,
        x == q * d + r,
    ensures
        x / d == q,
        x % d == r,
{
    vstd::arithmetic::div_mod::lemma_fundamental_div_mod_converse(x, d, q, r);
}

proof fn lemma_len_groups(bin_len: int, txt_len: int)
    requires
        bin_txt_ok(bin_len, txt_len),
    ensures
        bin_len == 5 * (bin_len / 5),
        txt_len == 8 * (bin_len / 5),
        txt_len / 8 == bin_len / 5,
        txt_len * 5 / 8 == bin_len,
{
    let g = bin_len / 5;
    lemma_div_mod((bin_len) as int, 5, g, 0);
    lemma_div_mod((bin_len * 8) as int, 5, (8 * g) as int, 0);
    lemma_div_mod((txt_len) as int, 8, g, 0);
    lemma_div_mod((txt_len * 5) as int, 8, (5 * g) as int, 0);
}

proof fn lemma_symbol(v: u8)
    requires
        v < 32,
    ensures
        is_symbol(symbol_of(v)),
        symbol_value(symbol_of(v)) == v,
        symbol_of(v) < 128,
{
}

proof fn lemma_symbol_value(c: u8)
    ensures
        is_symbol(c) ==> symbol_value(c) < 32 && symbol_of(symbol_value(c)) == c,
        !is_symbol(c) ==> symbol_value(c) == 255,
{
}

/// Packing five bytes and reading back each octet gives the bytes.
proof fn lemma_pack_octets(b0: u8, b1: u8, b2: u8, b3: u8, b4: u8)
    ensures
        ({
            let v = (b0 as u64) << 32u64 | (b1 as u64) << 24u64 | (b2 as u64) << 16u64 | (b3 as u64)
                << 8u64 | (b4 as u64);
            &&& ((v >> 32u64) & 255u64) as u8 == b0
            &&& ((v >> 24u64) & 255u64) as u8 == b1
            &&& ((v >> 16u64) & 255u64) as u8 == b2
            &&& ((v >> 8u64) & 255u64) as u8 == b3
            &&& ((v >> 0u64) & 255u64) as u8 == b4
            &&& v < 0x100_0000_0000u64
        }),
{
    assert({
        let v = (b0 as u64) << 32u64 | (b1 as u64) << 24u64 | (b2 as u64) << 16u64 | (b3 as u64)
            << 8u64 | (b4 as u64);
        &&& ((v >> 32u64) & 255u64) as u8 == b0
        &&& ((v >> 24u64) & 255u64) as u8 == b1
        &&& ((v >> 16u64) & 255u64) as u8 == b2
        &&& ((v >> 8u64) & 255u64) as u8 == b3
        &&& ((v >> 0u64) & 255u64) as u8 == b4
        &&& v < 0x100_0000_0000u64
    }) by (bit_vector);
}

/// Splitting a 40 bit value into quintets and joining them again is the identity.
proof fn lemma_quintets_join(v: u64)
    requires
        v < 0x100_0000_0000u64,
    ensures
        ((v >> 35u64) & 31u64) << 35u64 | ((v >> 30u64) & 31u64) << 30u64 | ((v >> 25u64) & 31u64)
            << 25u64 | ((v >> 20u64) & 31u64) << 20u64 | ((v >> 15u64) & 31u64) << 15u64 | ((v
            >> 10u64) & 31u64) << 10u64 | ((v >> 5u64) & 31u64) << 5u64 | ((v >> 0u64) & 31u64)
            == v,
{
    assert(v < 0x100_0000_0000u64 ==> ((v >> 35u64) & 31u64) << 35u64 | ((v >> 30u64) & 31u64)
        << 30u64 | ((v >> 25u64) & 31u64) << 25u64 | ((v >> 20u64) & 31u64) << 20u64 | ((v
        >> 15u64) & 31u64) << 15u64 | ((v >> 10u64) & 31u64) << 10u64 | ((v >> 5u64) & 31u64)
        << 5u64 | ((v >> 0u64) & 31u64) == v) by (bit_vector);
}

/// Joining eight quintets and splitting again gives the quintets.
proof fn lemma_join_quintets(d0: u64, d1: u64, d2: u64, d3: u64, d4: u64, d5: u64, d6: u64, d7: u64)
    requires
        d0 < 32,
        d1 < 32,
        d2 < 32,
        d3 < 32,
        d4 < 32,
        d5 < 32,
        d6 < 32,
        d7 < 32,
    ensures
        ({
            let v = d0 << 35u64 | d1 << 30u64 | d2 << 25u64 | d3 << 20u64 | d4 << 15u64 | d5 << 10u64
                | d6 << 5u64 | d7;
            &&& (v >> 35u64) & 31u64 == d0
            &&& (v >> 30u64) & 31u64 == d1
            &&& (v >> 25u64) & 31u64 == d2
            &&& (v >> 20u64) & 31u64 == d3
            &&& (v >> 15u64) & 31u64 == d4
            &&& (v >> 10u64) & 31u64 == d5
            &&& (v >> 5u64) & 31u64 == d6
            &&& (v >> 0u64) & 31u64 == d7
            &&& v < 0x100_0000_0000u64
        }),
{
    assert(d0 < 32 && d1 < 32 && d2 < 32 && d3 < 32 && d4 < 32 && d5 < 32 && d6 < 32 && d7 < 32
        ==> {
        let v = d0 << 35u64 | d1 << 30u64 | d2 << 25u64 | d3 << 20u64 | d4 << 15u64 | d5 << 10u64
            | d6 << 5u64 | d7;
        &&& (v >> 35u64) & 31u64 == d0
        &&& (v >> 30u64) & 31u64 == d1
        &&& (v >> 25u64) & 31u64 == d2
        &&& (v >> 20u64) & 31u64 == d3
        &&& (v >> 15u64) & 31u64 == d4
        &&& (v >> 10u64) & 31u64 == d5
        &&& (v >> 5u64) & 31u64 == d6
        &&& (v >> 0u64) & 31u64 == d7
        &&& v < 0x100_0000_0000u64
    }) by (bit_vector);
}

/// Reading five octets of a 40 bit value and packing them again is the identity.
proof fn lemma_octets_join(v: u64)
    requires
        v < 0x100_0000_0000u64,
    ensures
        ((v >> 32u64) & 255u64) << 32u64 | ((v >> 24u64) & 255u64) << 24u64 | ((v >> 16u64)
            & 255u64) << 16u64 | ((v >> 8u64) & 255u64) << 8u64 | ((v >> 0u64) & 255u64) == v,
{
    assert(v < 0x100_0000_0000u64 ==> ((v >> 32u64) & 255u64) << 32u64 | ((v >> 24u64) & 255u64)
        << 24u64 | ((v >> 16u64) & 255u64) << 16u64 | ((v >> 8u64) & 255u64) << 8u64 | ((v
        >> 0u64) & 255u64) == v) by (bit_vector);
}

/// Decoding the encoding of a group gives the group back.
proof fn lemma_group_roundtrip(bin: Seq<u8>, g: int)
    requires
        0 <= g,
        5 * g + 5 <= bin.len(),
    ensures
        ({
            let enc = db32_encode(bin);
            let v = pack_group(bin, g);
            &&& v < 0x100_0000_0000u64
            &&& forall|m: int| 0 <= m < 5 ==> #[trigger] octet(v, m) == bin[5 * g + m]
        }),
{
    let v = pack_group(bin, g);
    lemma_pack_octets(bin[5 * g], bin[5 * g + 1], bin[5 * g + 2], bin[5 * g + 3], bin[5 * g + 4]);
    assert forall|m: int| 0 <= m < 5 implies #[trigger] octet(v, m) == bin[5 * g + m] by {
        if m == 0 {
        } else if m == 1 {
        } else if m == 2 {
        } else if m == 3 {
        } else {
        }
    }
}

// ---------------------------------------------------------------------------
// Executable code

/// Returns the symbol for a 5 bit value.
pub fn forward_symbol(v: u8) -> (c: u8)
    requires
        v < 32,
    ensures
        c == symbol_of(v),
        c == FORWARD[v as int],
{
    FORWARD[v as usize]
}

/// Returns the 5 bit value of a symbol (255 for any other byte); this is
/// what a lookup in the rotated reverse table at `c - 42` gives.
pub fn reverse_symbol(c: u8) -> (v: u8)
    ensures
        v == symbol_value(c),
{
    if 51 <= c && c <= 57 {
        c - 51
    } else if 65 <= c && c <= 89 {
        c - 58
    } else {
        255
    }
}

/// The forward table as a vector.
pub fn forward_table() -> (t: Vec<u8>)
    ensures
        t@.len() == 32,
        forall|i: int| 0 <= i < 32 ==> #[trigger] t@[i] == symbol_of(i as u8),
{
    let mut t: Vec<u8> = Vec::new();
    let mut i: u8 = 0;
    while i < 32
        invariant
            i <= 32,
            t@.len() == i,
            forall|k: int| 0 <= k < i ==> #[trigger] t@[k] == symbol_of(k as u8),
        decreases 32 - i,
    {
        t.push(forward_symbol(i));
        i = i + 1;
    }
    t
}

/// The reverse table, rotated left by 42 bytes: entry `j` is the value of
/// the byte `j + 42` (modulo 256), or 255 when that byte is not a symbol.
pub fn reverse_table() -> (t: Vec<u8>)
    ensures
        t@.len() == 256,
        forall|j: int| 0 <= j < 256 ==> #[trigger] t@[j] == reverse_entry(j),
{
    let mut t: Vec<u8> = Vec::new();
    let mut j: usize = 0;
    while j < 256
        invariant
            j <= 256,
            t@.len() == j,
            forall|k: int| 0 <= k < j ==> #[trigger] t@[k] == reverse_entry(k),
        decreases 256 - j,
    {
        let c: u8 = ((j + 42) % 256) as u8;
        t.push(reverse_symbol(c));
        j = j + 1;
    }
    t
}

/// Iterates over the 1024 2-character Dbase32 directory names.
/// Will yield "33", "34", ... "YX", "YY".
#[derive(Debug)]
pub struct DirNameIter {
    i: usize,
}

/// Name of the `i`th directory.
pub open spec fn dir_name(i: int) -> Seq<u8> {
    seq![symbol_of((i / 32) as u8), symbol_of((i % 32) as u8)]
}

impl DirNameIter {
    pub fn new() -> (r: Self)
        ensures
            r.position() == 0,
    {
        Self { i: 0 }
    }

    /// How many names have been yielded.
    pub closed spec fn position(&self) -> nat {
        self.i as nat
    }

    /// Yields the next directory name, or `None` after the 1024th.
    pub fn next(&mut self) -> (r: Option<String>)
        ensures
            old(self).position() < 1024 ==> {
                &&& r matches Some(s) && s@ == ascii_chars(dir_name(old(self).position() as int))
                &&& final(self).position() == old(self).position() + 1
            },
            old(self).position() >= 1024 ==> r is None && final(self).position() == old(
                self,
            ).position(),
    {
        if self.i < 1024 {
            let i = self.i;
            let mut buf: Vec<u8> = Vec::new();
            proof {
                assert(i < 1024 ==> i >> 5 == i / 32 && i & 31 == i % 32 && i / 32 < 32) by (bit_vector);
            }
            buf.push(forward_symbol((i >> 5) as u8));
            buf.push(forward_symbol((i & 31) as u8));
            proof {
                lemma_symbol((self.i / 32) as u8);
                lemma_symbol((self.i % 32) as u8);
                assert(buf@ =~= dir_name(self.i as int));
            }
            self.i = self.i + 1;
            Some(ascii_to_string(buf))
        } else {
            None
        }
    }
}

/// Whether `bin` and `txt` have lengths that the codec accepts.
pub fn check_bin_txt(bin: &[u8], txt: &[u8]) -> (r: bool)
    ensures
        r == bin_txt_ok(bin@.len() as int, txt@.len() as int),
{
    if bin.len() == 0 || bin.len() % 5 != 0 || txt.len() == 0 || txt.len() % 8 != 0 {
        return false;
    }
    let ok = txt.len() / 8 == bin.len() / 5;
    proof {
        let a = bin@.len() / 5;
        let b = txt@.len() / 8;
        lemma_div_mod(bin@.len() as int, 5, a as int, 0);
        lemma_div_mod(txt@.len() as int, 8, b as int, 0);
        lemma_div_mod((bin@.len() * 8) as int, 5, (8 * a) as int, 0);
    }
    ok
}

/// Encodes `bin` into `txt`.
pub fn db32enc_into(bin: &[u8], txt: &mut [u8])
    requires
        bin_txt_ok(bin@.len() as int, old(txt)@.len() as int),
    ensures
        final(txt)@ == db32_encode(bin@),
{
    let ghost groups = bin@.len() / 5;
    proof {
        lemma_len_groups(bin@.len() as int, txt@.len() as int);
    }
    let n = bin.len() / 5;
    let blen = bin.len();
    let tlen = txt.len();
    let mut i: usize = 0;
    while i < n
        invariant
            n == groups,
            blen == bin@.len(),
            tlen == txt@.len(),
            bin@.len() == 5 * groups,
            txt@.len() == 8 * groups,
            i <= n,
            forall|j: int|
                0 <= j < 8 * i ==> #[trigger] txt@[j] == symbol_of(
                    quintet(pack_group(bin@, j / 8), j % 8),
                ),
        decreases n - i,
    {
        // Pack 40 bits into the taxi (8 bits at a time)
        let mut taxi: u64 = bin[i * 5] as u64;
        taxi = bin[i * 5 + 1] as u64 | (taxi << 8);
        taxi = bin[i * 5 + 2] as u64 | (taxi << 8);
        taxi = bin[i * 5 + 3] as u64 | (taxi << 8);
        taxi = bin[i * 5 + 4] as u64 | (taxi << 8);
        proof {
            let b0 = bin@[5 * i as int] as u64;
            let b1 = bin@[5 * i + 1] as u64;
            let b2 = bin@[5 * i + 2] as u64;
            let b3 = bin@[5 * i + 3] as u64;
            let b4 = bin@[5 * i + 4] as u64;
            assert(b0 < 256 && b1 < 256 && b2 < 256 && b3 < 256 && b4 < 256 ==> b4 | ((b3 | ((b2 | ((
            b1 | (b0 << 8u64)) << 8u64)) << 8u64)) << 8u64) == b0 << 32u64 | b1 << 24u64 | b2
                << 16u64 | b3 << 8u64 | b4) by (bit_vector);
            assert(taxi == pack_group(bin@, i as int));
        }
        // Unpack 40 bits from the taxi (5 bits at a time)
        let ghost old_txt = txt@;
        let d0 = ((taxi >> 35) & 31) as u8;
        let d1 = ((taxi >> 30) & 31) as u8;
        let d2 = ((taxi >> 25) & 31) as u8;
        let d3 = ((taxi >> 20) & 31) as u8;
        let d4 = ((taxi >> 15) & 31) as u8;
        let d5 = ((taxi >> 10) & 31) as u8;
        let d6 = ((taxi >> 5) & 31) as u8;
        let d7 = ((taxi >> 0) & 31) as u8;
        assert((taxi >> 0) & 31 < 32 && (taxi >> 5) & 31 < 32 && (taxi >> 10) & 31 < 32 && (taxi >> 15)
            & 31 < 32 && (taxi >> 20) & 31 < 32 && (taxi >> 25) & 31 < 32 && (taxi >> 30) & 31 < 32
            && (taxi >> 35) & 31 < 32) by (bit_vector);
        txt[i * 8] = forward_symbol(d0);
        txt[i * 8 + 1] = forward_symbol(d1);
        txt[i * 8 + 2] = forward_symbol(d2);
        txt[i * 8 + 3] = forward_symbol(d3);
        txt[i * 8 + 4] = forward_symbol(d4);
        txt[i * 8 + 5] = forward_symbol(d5);
        txt[i * 8 + 6] = forward_symbol(d6);
        txt[i * 8 + 7] = forward_symbol(d7);
        proof {
            assert forall|j: int| 0 <= j < 8 * (i + 1) implies #[trigger] txt@[j] == symbol_of(
                quintet(pack_group(bin@, j / 8), j % 8),
            ) by {
                if j >= 8 * i {
                    let k = j - 8 * i;
                    lemma_div_mod(j, 8, i as int, k);
                    if k == 0 {
                    } else if k == 1 {
                    } else if k == 2 {
                    } else if k == 3 {
                    } else if k == 4 {
                    } else if k == 5 {
                    } else if k == 6 {
                    } else {
                    }
                } else {
                    assert(txt@[j] == old_txt[j]);
                }
            }
        }
        i = i + 1;
    }
    assert(txt@ =~= db32_encode(bin@));
}

/// Encodes `bin` as Dbase32 text.
pub fn db32enc(bin: &[u8]) -> (s: String)
    requires
        bin@.len() > 0,
        bin@.len() % 5 == 0,
        bin@.len() <= usize::MAX / 8,
    ensures
        s@ == ascii_chars(db32_encode(bin@)),
        vstd::utf8::encode_utf8(s@) == db32_encode(bin@),
{
    let mut txt: Vec<u8> = vec![0; bin.len() * 8 / 5];
    proof {
        let g = bin@.len() / 5;
        lemma_div_mod(bin@.len() as int, 5, g as int, 0);
        lemma_div_mod((bin@.len() * 8) as int, 5, (8 * g) as int, 0);
        lemma_div_mod((8 * g) as int, 8, g as int, 0);
    }
    db32enc_into(bin, txt.as_mut_slice());
    proof {
        assert forall|i: int| 0 <= i < txt@.len() implies txt@[i] < 128 by {
            let w = pack_group(bin@, i / 8);
            let sh = (35 - 5 * (i % 8)) as u64;
            assert(((w >> sh) & 31u64) < 32) by (bit_vector);
            lemma_symbol(quintet(w, i % 8));
        }
    }
    ascii_to_string(txt)
}

/// `db32enc` for a 30 byte hash.
pub fn db32enc_str(bin: &[u8]) -> (s: String)
    requires
        bin@.len() > 0,
        bin@.len() % 5 == 0,
        bin@.len() <= usize::MAX / 8,
    ensures
        s@ == ascii_chars(db32_encode(bin@)),
{
    db32enc(bin)
}

/// Whether `txt` is valid Dbase32 text.
pub fn isdb32(txt: &[u8]) -> (r: bool)
    ensures
        r == is_db32_text(txt@),
{
    if txt.len() != 0 && txt.len() % 8 == 0 {
        let mut r: u8 = 0;
        assert(0u8 & 224u8 == 0) by (bit_vector);
        let mut i: usize = 0;
        while i < txt.len()
            invariant
                i <= txt@.len(),
                (r & 224 == 0) <==> forall|k: int| 0 <= k < i ==> is_symbol(#[trigger] txt@[k]),
            decreases txt@.len() - i,
        {
            let v = reverse_symbol(txt[i]);
            proof {
                lemma_symbol_value(txt@[i as int]);
                assert(v < 32 ==> (r | v) & 224 == r & 224) by (bit_vector);
                assert(v == 255 ==> (r | v) & 224 == 224) by (bit_vector);
            }
            r = r | v;
            i = i + 1;
        }
        r & 224 == 0
    } else {
        false
    }
}

/// Decodes `txt` into `bin`; returns whether `txt` was valid Dbase32 text.
///
/// When the text is not valid, `bin` is still written, with bytes that are
/// of no use.
pub fn db32dec_into(txt: &[u8], bin: &mut [u8]) -> (ok: bool)
    requires
        bin_txt_ok(old(bin)@.len() as int, txt@.len() as int),
    ensures
        ok == is_db32_text(txt@),
        final(bin)@.len() == old(bin)@.len(),
        ok ==> final(bin)@ == db32_decode_bytes(txt@),
{
    let ghost groups = txt@.len() / 8;
    proof {
        lemma_len_groups(bin@.len() as int, txt@.len() as int);
    }
    let n = txt.len() / 8;
    let blen = bin.len();
    let tlen = txt.len();
    let mut r: u8 = 0;
    assert(0u8 & 224u8 == 0) by (bit_vector);
    let mut i: usize = 0;
    while i < n
        invariant
            n == groups,
            blen == bin@.len(),
            tlen == txt@.len(),
            bin@.len() == 5 * groups,
            txt@.len() == 8 * groups,
            i <= n,
            (r & 224 == 0) <==> forall|k: int| 0 <= k < 8 * i ==> is_symbol(#[trigger] txt@[k]),
            r & 224 == 0 ==> forall|j: int|
                0 <= j < 5 * i ==> #[trigger] bin@[j] == octet(unpack_group(txt@, j / 5), j % 5),
        decreases n - i,
    {
        let ghost r0 = r;
        let ghost old_bin = bin@;
        // Pack 40 bits into the taxi (5 bits at a time)
        let v0 = reverse_symbol(txt[i * 8]);
        let v1 = reverse_symbol(txt[i * 8 + 1]);
        let v2 = reverse_symbol(txt[i * 8 + 2]);
        let v3 = reverse_symbol(txt[i * 8 + 3]);
        let v4 = reverse_symbol(txt[i * 8 + 4]);
        let v5 = reverse_symbol(txt[i * 8 + 5]);
        let v6 = reverse_symbol(txt[i * 8 + 6]);
        let v7 = reverse_symbol(txt[i * 8 + 7]);
        let mut taxi: u64;
        r = v0 | (r & 224);
        taxi = r as u64;
        let r1 = r;
        r = v1 | (r & 224);
        taxi = r as u64 | (taxi << 5);
        let r2 = r;
        r = v2 | (r & 224);
        taxi = r as u64 | (taxi << 5);
        let r3 = r;
        r = v3 | (r & 224);
        taxi = r as u64 | (taxi << 5);
        let r4 = r;
        r = v4 | (r & 224);
        taxi = r as u64 | (taxi << 5);
        let r5 = r;
        r = v5 | (r & 224);
        taxi = r as u64 | (taxi << 5);
        let r6 = r;
        r = v6 | (r & 224);
        taxi = r as u64 | (taxi << 5);
        let r7 = r;
        r = v7 | (r & 224);
        taxi = r as u64 | (taxi << 5);
        let r8 = r;
        let ghost all_valid = forall|k: int| 8 * i <= k < 8 * i + 8 ==> is_symbol(#[trigger] txt@[k]);
        proof {
            let base = 8 * i as int;
            lemma_symbol_value(txt@[base]);
            lemma_symbol_value(txt@[base + 1]);
            lemma_symbol_value(txt@[base + 2]);
            lemma_symbol_value(txt@[base + 3]);
            lemma_symbol_value(txt@[base + 4]);
            lemma_symbol_value(txt@[base + 5]);
            lemma_symbol_value(txt@[base + 6]);
            lemma_symbol_value(txt@[base + 7]);
            // The error bits stay set once set, and get set by any invalid symbol.
            assert forall|a: u8, b: u8| (b < 32 || b == 255) implies #[trigger] ((b | (a & 224))
                & 224) == (if b == 255 {
                224u8
            } else {
                a & 224
            }) by {
                assert((b < 32 || b == 255) ==> ((b | (a & 224)) & 224) == (if b == 255 {
                    224u8
                } else {
                    a & 224
                })) by (bit_vector);
            }
            assert forall|a: u8, b: u8| b < 32 && a & 224 == 0 implies #[trigger] (b | (a & 224))
                == b by {
                assert(b < 32 && a & 224 == 0 ==> (b | (a & 224)) == b) by (bit_vector);
            }
            if r8 & 224 == 0 {
                assert(r1 & 224 == 0 && r2 & 224 == 0 && r3 & 224 == 0 && r4 & 224 == 0 && r5 & 224
                    == 0 && r6 & 224 == 0 && r7 & 224 == 0 && r0 & 224 == 0);
                assert(v0 < 32 && v1 < 32 && v2 < 32 && v3 < 32 && v4 < 32 && v5 < 32 && v6 < 32 && v7
                    < 32);
                assert(r1 == v0 && r2 == v1 && r3 == v2 && r4 == v3 && r5 == v4 && r6 == v5 && r7 == v6
                    && r8 == v7);
                assert forall|k: int| 8 * i <= k < 8 * i + 8 implies is_symbol(#[trigger] txt@[k]) by {
                    if k == base {
                    } else if k == base + 1 {
                    } else if k == base + 2 {
                    } else if k == base + 3 {
                    } else if k == base + 4 {
                    } else if k == base + 5 {
                    } else if k == base + 6 {
                    } else {
                    }
                }
                let w0 = v0 as u64;
                let w1 = v1 as u64;
                let w2 = v2 as u64;
                let w3 = v3 as u64;
                let w4 = v4 as u64;
                let w5 = v5 as u64;
                let w6 = v6 as u64;
                let w7 = v7 as u64;
                assert(w7 | ((w6 | ((w5 | ((w4 | ((w3 | ((w2 | ((w1 | (w0 << 5u64)) << 5u64))
                    << 5u64)) << 5u64)) << 5u64)) << 5u64)) << 5u64) == w0 << 35u64 | w1 << 30u64
                    | w2 << 25u64 | w3 << 20u64 | w4 << 15u64 | w5 << 10u64 | w6 << 5u64 | w7)
                    by (bit_vector);
                assert(taxi == unpack_group(txt@, i as int));
            } else {
                if all_valid {
                    assert(is_symbol(txt@[base]) && is_symbol(txt@[base + 1]) && is_symbol(
                        txt@[base + 2],
                    ) && is_symbol(txt@[base + 3]) && is_symbol(txt@[base + 4]) && is_symbol(
                        txt@[base + 5],
                    ) && is_symbol(txt@[base + 6]) && is_symbol(txt@[base + 7]));
                    assert(r0 & 224 != 0);
                }
            }
        }
        // Unpack 40 bits from the taxi (8 bits at a time)
        bin[i * 5] = ((taxi >> 32) as u8) & 255;
        bin[i * 5 + 1] = ((taxi >> 24) as u8) & 255;
        bin[i * 5 + 2] = ((taxi >> 16) as u8) & 255;
        bin[i * 5 + 3] = ((taxi >> 8) as u8) & 255;
        bin[i * 5 + 4] = ((taxi >> 0) as u8) & 255;
        proof {
            assert(((taxi >> 32u64) as u8) & 255u8 == ((taxi >> 32u64) & 255u64) as u8 && ((taxi
                >> 24u64) as u8) & 255u8 == ((taxi >> 24u64) & 255u64) as u8 && ((taxi >> 16u64)
                as u8) & 255u8 == ((taxi >> 16u64) & 255u64) as u8 && ((taxi >> 8u64) as u8)
                & 255u8 == ((taxi >> 8u64) & 255u64) as u8 && ((taxi >> 0u64) as u8) & 255u8 == ((
            taxi >> 0u64) & 255u64) as u8) by (bit_vector);
            assert((r & 224 == 0) <==> forall|k: int|
                0 <= k < 8 * (i + 1) ==> is_symbol(#[trigger] txt@[k]));
            if r & 224 == 0 {
                assert forall|j: int| 0 <= j < 5 * (i + 1) implies #[trigger] bin@[j] == octet(
                    unpack_group(txt@, j / 5),
                    j % 5,
                ) by {
                    if j >= 5 * i {
                        let m = j - 5 * i;
                        lemma_div_mod(j, 5, i as int, m);
                        if m == 0 {
                        } else if m == 1 {
                        } else if m == 2 {
                        } else if m == 3 {
                        } else {
                        }
                    } else {
                        assert(bin@[j] == old_bin[j]);
                    }
                }
            }
        }
        i = i + 1;
    }
    proof {
        if r & 224 == 0 {
            assert(bin@ =~= db32_decode_bytes(txt@));
        }
    }
    r & 224 == 0
}

/// Decodes Dbase32 text: `None` when `txt` is not valid Dbase32 text.
pub fn db32dec(txt: &[u8]) -> (r: Option<Vec<u8>>)
    requires
        txt@.len() > 0,
        txt@.len() % 8 == 0,
    ensures
        r matches Some(b) ==> db32_decode(txt@) == Some(b@),
        r is None ==> db32_decode(txt@) is None,
{
    proof {
        let g = txt@.len() / 8;
        lemma_div_mod(txt@.len() as int, 8, g as int, 0);
        lemma_div_mod((txt@.len() * 5) as int, 8, (5 * g) as int, 0);
        lemma_div_mod((5 * g * 8) as int, 5, (8 * g) as int, 0);
    }
    let mut bin: Vec<u8> = vec![0; txt.len() / 8 * 5];
    if db32dec_into(txt, bin.as_mut_slice()) {
        return Some(bin);
    }
    None
}

// ---------------------------------------------------------------------------
// Laws

proof fn lemma_enc_symbol(bin: Seq<u8>, h: int, k: int)
    requires
        bin.len() % 5 == 0,
        0 <= h,
        5 * h + 5 <= bin.len(),
        0 <= k < 8,
    ensures
        is_symbol(db32_encode(bin)[8 * h + k]),
        symbol_value(db32_encode(bin)[8 * h + k]) == quintet(pack_group(bin, h), k),
{
    let g = bin.len() / 5;
    lemma_div_mod(bin.len() as int, 5, g as int, 0);
    lemma_div_mod((8 * h + k) as int, 8, h, k);
    let v = pack_group(bin, h);
    let sh = (35 - 5 * k) as u64;
    assert(((v >> sh) & 31u64) < 32) by (bit_vector);
    lemma_symbol(quintet(v, k));
}


/// `a` sorts before `b` when they agree before position `p` and `a` has the
/// smaller byte there.
proof fn lemma_bytes_less_at(a: Seq<u8>, b: Seq<u8>, p: int)
    requires
        0 <= p < a.len(),
        p < b.len(),
        a[p] < b[p],
        forall|i: int| 0 <= i < p ==> #[trigger] a[i] == b[i],
    ensures
        bytes_less(a, b),
    decreases p,
{
    if p > 0 {
        assert(a[0] == b[0]);
        lemma_bytes_less_at(a.drop_first(), b.drop_first(), p - 1);
    }
}

/// Of two byte strings of one length, the one that sorts first has the
/// smaller byte at the first position where they differ.
proof fn lemma_first_diff(a: Seq<u8>, b: Seq<u8>) -> (p: int)
    requires
        a.len() == b.len(),
        bytes_less(a, b),
    ensures
        0 <= p < a.len(),
        a[p] < b[p],
        forall|i: int| 0 <= i < p ==> #[trigger] a[i] == b[i],
    decreases a.len(),
{
    if a[0] != b[0] {
        0
    } else {
        let q = lemma_first_diff(a.drop_first(), b.drop_first());
        assert forall|i: int| 0 <= i < q + 1 implies #[trigger] a[i] == b[i] by {
            if i > 0 {
                assert(a.drop_first()[i - 1] == b.drop_first()[i - 1]);
            }
        }
        q + 1
    }
}

/// Five bytes packed big-endian compare as the bytes do.
proof fn lemma_pack_order(a0: u64, a1: u64, a2: u64, a3: u64, a4: u64, b0: u64, b1: u64, b2: u64, b3: u64, b4: u64)
    requires
        a0 < 256 && a1 < 256 && a2 < 256 && a3 < 256 && a4 < 256,
        b0 < 256 && b1 < 256 && b2 < 256 && b3 < 256 && b4 < 256,
        (a0 < b0) || (a0 == b0 && a1 < b1) || (a0 == b0 && a1 == b1 && a2 < b2) || (a0 == b0 && a1
            == b1 && a2 == b2 && a3 < b3) || (a0 == b0 && a1 == b1 && a2 == b2 && a3 == b3 && a4 < b4),
    ensures
        (a0 << 32u64 | a1 << 24u64 | a2 << 16u64 | a3 << 8u64 | a4) < (b0 << 32u64 | b1 << 24u64
            | b2 << 16u64 | b3 << 8u64 | b4),
{
    assert((a0 < 256 && a1 < 256 && a2 < 256 && a3 < 256 && a4 < 256 && b0 < 256 && b1 < 256 && b2
        < 256 && b3 < 256 && b4 < 256 && ((a0 < b0) || (a0 == b0 && a1 < b1) || (a0 == b0 && a1
        == b1 && a2 < b2) || (a0 == b0 && a1 == b1 && a2 == b2 && a3 < b3) || (a0 == b0 && a1 == b1
        && a2 == b2 && a3 == b3 && a4 < b4))) ==> (a0 << 32u64 | a1 << 24u64 | a2 << 16u64 | a3
        << 8u64 | a4) < (b0 << 32u64 | b1 << 24u64 | b2 << 16u64 | b3 << 8u64 | b4)) by (bit_vector);
}

/// Of two 40 bit values, the smaller has the smaller quintet at the first
/// quintet where they differ.
proof fn lemma_quintet_order(x: u64, y: u64) -> (k: int)
    requires
        x < y,
        y < 0x100_0000_0000u64,
    ensures
        0 <= k < 8,
        quintet(x, k) < quintet(y, k),
        forall|i: int| 0 <= i < k ==> #[trigger] quintet(x, i) == quintet(y, i),
{
    assert((x < y && y < 0x100_0000_0000u64) ==> (((x >> 35u64) & 31u64) < ((y >> 35u64) & 31u64))
        || (((x >> 35u64) & 31u64) == ((y >> 35u64) & 31u64) && ((x >> 30u64) & 31u64) < ((y
        >> 30u64) & 31u64)) || (((x >> 35u64) & 31u64) == ((y >> 35u64) & 31u64) && ((x >> 30u64)
        & 31u64) == ((y >> 30u64) & 31u64) && ((x >> 25u64) & 31u64) < ((y >> 25u64) & 31u64)) || (
    ((x >> 35u64) & 31u64) == ((y >> 35u64) & 31u64) && ((x >> 30u64) & 31u64) == ((y >> 30u64)
        & 31u64) && ((x >> 25u64) & 31u64) == ((y >> 25u64) & 31u64) && ((x >> 20u64) & 31u64) < ((
    y >> 20u64) & 31u64)) || (((x >> 35u64) & 31u64) == ((y >> 35u64) & 31u64) && ((x >> 30u64)
        & 31u64) == ((y >> 30u64) & 31u64) && ((x >> 25u64) & 31u64) == ((y >> 25u64) & 31u64) && ((
    x >> 20u64) & 31u64) == ((y >> 20u64) & 31u64) && ((x >> 15u64) & 31u64) < ((y >> 15u64)
        & 31u64)) || (((x >> 35u64) & 31u64) == ((y >> 35u64) & 31u64) && ((x >> 30u64) & 31u64)
        == ((y >> 30u64) & 31u64) && ((x >> 25u64) & 31u64) == ((y >> 25u64) & 31u64) && ((x
        >> 20u64) & 31u64) == ((y >> 20u64) & 31u64) && ((x >> 15u64) & 31u64) == ((y >> 15u64)
        & 31u64) && ((x >> 10u64) & 31u64) < ((y >> 10u64) & 31u64)) || (((x >> 35u64) & 31u64)
        == ((y >> 35u64) & 31u64) && ((x >> 30u64) & 31u64) == ((y >> 30u64) & 31u64) && ((x
        >> 25u64) & 31u64) == ((y >> 25u64) & 31u64) && ((x >> 20u64) & 31u64) == ((y >> 20u64)
        & 31u64) && ((x >> 15u64) & 31u64) == ((y >> 15u64) & 31u64) && ((x >> 10u64) & 31u64) == ((
    y >> 10u64) & 31u64) && ((x >> 5u64) & 31u64) < ((y >> 5u64) & 31u64)) || (((x >> 35u64)
        & 31u64) == ((y >> 35u64) & 31u64) && ((x >> 30u64) & 31u64) == ((y >> 30u64) & 31u64) && ((
    x >> 25u64) & 31u64) == ((y >> 25u64) & 31u64) && ((x >> 20u64) & 31u64) == ((y >> 20u64)
        & 31u64) && ((x >> 15u64) & 31u64) == ((y >> 15u64) & 31u64) && ((x >> 10u64) & 31u64) == ((
    y >> 10u64) & 31u64) && ((x >> 5u64) & 31u64) == ((y >> 5u64) & 31u64) && ((x >> 0u64)
        & 31u64) < ((y >> 0u64) & 31u64))) by (bit_vector);
    assert(((x >> 35u64) & 31u64) < 32 && ((y >> 35u64) & 31u64) < 32 && ((x >> 30u64) & 31u64) < 32
        && ((y >> 30u64) & 31u64) < 32 && ((x >> 25u64) & 31u64) < 32 && ((y >> 25u64) & 31u64) < 32
        && ((x >> 20u64) & 31u64) < 32 && ((y >> 20u64) & 31u64) < 32 && ((x >> 15u64) & 31u64) < 32
        && ((y >> 15u64) & 31u64) < 32 && ((x >> 10u64) & 31u64) < 32 && ((y >> 10u64) & 31u64) < 32
        && ((x >> 5u64) & 31u64) < 32 && ((y >> 5u64) & 31u64) < 32 && ((x >> 0u64) & 31u64) < 32
        && ((y >> 0u64) & 31u64) < 32) by (bit_vector);
    let k: int = if quintet(x, 0) != quintet(y, 0) {
        0
    } else if quintet(x, 1) != quintet(y, 1) {
        1
    } else if quintet(x, 2) != quintet(y, 2) {
        2
    } else if quintet(x, 3) != quintet(y, 3) {
        3
    } else if quintet(x, 4) != quintet(y, 4) {
        4
    } else if quintet(x, 5) != quintet(y, 5) {
        5
    } else if quintet(x, 6) != quintet(y, 6) {
        6
    } else {
        7
    };
    assert forall|i: int| 0 <= i < k implies #[trigger] quintet(x, i) == quintet(y, i) by {
        if i == 0 {
        } else if i == 1 {
        } else if i == 2 {
        } else if i == 3 {
        } else if i == 4 {
        } else if i == 5 {
        } else {
        }
    }
    k
}

/// The symbols keep the order of the values they stand for.
proof fn lemma_symbol_order(u: u8, v: u8)
    requires
        u < v < 32,
    ensures
        symbol_of(u) < symbol_of(v),
{
}

/// Encoding keeps the order in one direction.
proof fn lemma_encode_less(a: Seq<u8>, b: Seq<u8>)
    requires
        a.len() == b.len(),
        a.len() % 5 == 0,
        bytes_less(a, b),
    ensures
        bytes_less(db32_encode(a), db32_encode(b)),
{
    let p = lemma_first_diff(a, b);
    let g = p / 5;
    let m = p % 5;
    lemma_div_mod(p, 5, g, m);
    let n: int = a.len() as int / 5;
    lemma_div_mod(a.len() as int, 5, n, 0);
    assert(5 * g + 5 <= a.len()) by (nonlinear_arith)
        requires
            p == 5 * g + m,
            0 <= m < 5,
            p < a.len(),
            a.len() == 5 * n,
    ;
    let ea = db32_encode(a);
    let eb = db32_encode(b);
    assert(ea.len() == 8 * n && eb.len() == 8 * n);
    // The groups before `g` are the same, and so are their symbols.
    assert forall|j: int| 0 <= j < 8 * g implies #[trigger] ea[j] == eb[j] by {
        let h = j / 8;
        lemma_div_mod(j, 8, h, j % 8);
        assert(h < g) by (nonlinear_arith)
            requires
                j == 8 * h + j % 8,
                0 <= j % 8 < 8,
                j < 8 * g,
        ;
        assert(5 * h + 4 < p) by (nonlinear_arith)
            requires
                h < g,
                p == 5 * g + m,
                0 <= m,
        ;
        assert(a[5 * h] == b[5 * h]);
        assert(a[5 * h + 1] == b[5 * h + 1]);
        assert(a[5 * h + 2] == b[5 * h + 2]);
        assert(a[5 * h + 3] == b[5 * h + 3]);
        assert(a[5 * h + 4] == b[5 * h + 4]);
        assert(pack_group(a, h) == pack_group(b, h));
    }
    // In group `g` the packed value of `a` is the smaller.
    let x = pack_group(a, g);
    let y = pack_group(b, g);
    if m >= 2 {
        assert(a[5 * g + 1] == b[5 * g + 1]);
    }
    if m >= 3 {
        assert(a[5 * g + 2] == b[5 * g + 2]);
    }
    if m >= 4 {
        assert(a[5 * g + 3] == b[5 * g + 3]);
    }
    if m >= 1 {
        assert(a[5 * g] == b[5 * g]);
    }
    lemma_pack_order(
        a[5 * g] as u64, a[5 * g + 1] as u64, a[5 * g + 2] as u64, a[5 * g + 3] as u64, a[5 * g + 4] as u64,
        b[5 * g] as u64, b[5 * g + 1] as u64, b[5 * g + 2] as u64, b[5 * g + 3] as u64, b[5 * g + 4] as u64,
    );
    assert(x < y);
    lemma_pack_octets(b[5 * g], b[5 * g + 1], b[5 * g + 2], b[5 * g + 3], b[5 * g + 4]);
    let k = lemma_quintet_order(x, y);
    let q = 8 * g + k;
    lemma_div_mod(q, 8, g, k);
    assert forall|j: int| 0 <= j < q implies #[trigger] ea[j] == eb[j] by {
        if j >= 8 * g {
            let i = j - 8 * g;
            lemma_div_mod(j, 8, g, i);
            assert(quintet(x, i) == quintet(y, i));
        }
    }
    let sh = (35 - 5 * k) as u64;
    assert(((x >> sh) & 31u64) < 32) by (bit_vector);
    assert(((y >> sh) & 31u64) < 32) by (bit_vector);
    lemma_symbol_order(quintet(x, k), quintet(y, k));
    assert(q < 8 * n) by (nonlinear_arith)
        requires
            q == 8 * g + k,
            0 <= k < 8,
            5 * g + 5 <= 5 * n,
    ;
    lemma_bytes_less_at(ea, eb, q);
}

/// Dbase32 keeps the sort order: of two byte strings of one length (a
/// multiple of 5), one sorts before the other exactly when its encoding
/// sorts before the other's encoding.
pub proof fn lemma_encode_order(a: Seq<u8>, b: Seq<u8>)
    requires
        a.len() == b.len(),
        a.len() % 5 == 0,
    ensures
        bytes_less(a, b) <==> bytes_less(db32_encode(a), db32_encode(b)),
{
    let ea = db32_encode(a);
    let eb = db32_encode(b);
    lemma_bytes_less_order(a, b, b);
    lemma_bytes_less_order(ea, eb, eb);
    if bytes_less(a, b) {
        lemma_encode_less(a, b);
    } else if bytes_less(b, a) {
        lemma_encode_less(b, a);
    } else {
        assert(a == b);
    }
}

/// The encoding of `bin` (a multiple of 5 bytes) has 8 symbols for every 5
/// bytes, every one of them from the table; so different bytes never encode
/// to the same text.
pub proof fn lemma_encode_text(a: Seq<u8>, b: Seq<u8>)
    requires
        a.len() % 5 == 0,
        b.len() % 5 == 0,
    ensures
        db32_encode(a).len() == a.len() * 8 / 5,
        forall|i: int| 0 <= i < db32_encode(a).len() ==> is_symbol(#[trigger] db32_encode(a)[i]),
        db32_encode(a) == db32_encode(b) ==> a == b,
{
    let g = a.len() / 5;
    lemma_div_mod(a.len() as int, 5, g as int, 0);
    lemma_div_mod((a.len() * 8) as int, 5, (8 * g) as int, 0);
    assert forall|i: int| 0 <= i < db32_encode(a).len() implies is_symbol(#[trigger] db32_encode(a)[i]) by {
        let w = pack_group(a, i / 8);
        let sh = (35 - 5 * (i % 8)) as u64;
        assert(((w >> sh) & 31u64) < 32) by (bit_vector);
        lemma_symbol(quintet(w, i % 8));
    }
    if db32_encode(a) == db32_encode(b) {
        if a.len() > 0 && b.len() > 0 {
            lemma_decode_encode(a);
            lemma_decode_encode(b);
        } else if a.len() == 0 && b.len() == 0 {
            assert(a =~= b);
        } else {
            let h = b.len() / 5;
            lemma_div_mod(b.len() as int, 5, h as int, 0);
            assert(db32_encode(a).len() == g * 8);
            assert(db32_encode(b).len() == h * 8);
        }
    }
}

/// Decoding the encoding of any bytes (of a length the codec accepts) gives
/// the bytes back.
pub proof fn lemma_decode_encode(bin: Seq<u8>)
    requires
        bin.len() > 0,
        bin.len() % 5 == 0,
    ensures
        db32_decode(db32_encode(bin)) == Some(bin),
{
    let enc = db32_encode(bin);
    let g = bin.len() / 5;
    lemma_div_mod(bin.len() as int, 5, g as int, 0);
    lemma_div_mod(enc.len() as int, 8, g as int, 0);
    assert forall|i: int| 0 <= i < enc.len() implies is_symbol(#[trigger] enc[i]) by {
        let w = pack_group(bin, i / 8);
        let sh = (35 - 5 * (i % 8)) as u64;
        assert(((w >> sh) & 31u64) < 32) by (bit_vector);
        lemma_symbol(quintet(w, i % 8));
    }
    assert forall|h: int| 0 <= h < g implies #[trigger] unpack_group(enc, h) == pack_group(bin, h) by {
        let v = pack_group(bin, h);
        lemma_group_roundtrip(bin, h);
        lemma_enc_symbol(bin, h, 0);
        lemma_enc_symbol(bin, h, 1);
        lemma_enc_symbol(bin, h, 2);
        lemma_enc_symbol(bin, h, 3);
        lemma_enc_symbol(bin, h, 4);
        lemma_enc_symbol(bin, h, 5);
        lemma_enc_symbol(bin, h, 6);
        lemma_enc_symbol(bin, h, 7);
        assert(((v >> 35u64) & 31u64) < 32 && ((v >> 30u64) & 31u64) < 32 && ((v >> 25u64) & 31u64)
            < 32 && ((v >> 20u64) & 31u64) < 32 && ((v >> 15u64) & 31u64) < 32 && ((v >> 10u64)
            & 31u64) < 32 && ((v >> 5u64) & 31u64) < 32 && ((v >> 0u64) & 31u64) < 32)
            by (bit_vector);
        lemma_quintets_join(v);
    }
    let dec = db32_decode_bytes(enc);
    assert forall|j: int| 0 <= j < bin.len() implies dec[j] == bin[j] by {
        let h = j / 5;
        let m = j % 5;
        lemma_div_mod(j, 5, h, m);
        lemma_group_roundtrip(bin, h);
        assert(unpack_group(enc, h) == pack_group(bin, h));
        assert(octet(pack_group(bin, h), m) == bin[5 * h + m]);
    }
    assert(dec =~= bin);
}

/// Encoding the bytes that valid Dbase32 text decodes to gives the text back.
pub proof fn lemma_encode_decode(txt: Seq<u8>)
    requires
        is_db32_text(txt),
    ensures
        db32_decode(txt) matches Some(bin) && db32_encode(bin) == txt,
{
    let bin = db32_decode_bytes(txt);
    let g = txt.len() / 8;
    lemma_div_mod(txt.len() as int, 8, g as int, 0);
    lemma_div_mod(bin.len() as int, 5, g as int, 0);
    assert forall|h: int| 0 <= h < g implies #[trigger] pack_group(bin, h) == unpack_group(txt, h) by {
        let v = unpack_group(txt, h);
        let d0 = symbol_value(txt[8 * h]) as u64;
        let d1 = symbol_value(txt[8 * h + 1]) as u64;
        let d2 = symbol_value(txt[8 * h + 2]) as u64;
        let d3 = symbol_value(txt[8 * h + 3]) as u64;
        let d4 = symbol_value(txt[8 * h + 4]) as u64;
        let d5 = symbol_value(txt[8 * h + 5]) as u64;
        let d6 = symbol_value(txt[8 * h + 6]) as u64;
        let d7 = symbol_value(txt[8 * h + 7]) as u64;
        lemma_symbol_value(txt[8 * h]);
        lemma_symbol_value(txt[8 * h + 1]);
        lemma_symbol_value(txt[8 * h + 2]);
        lemma_symbol_value(txt[8 * h + 3]);
        lemma_symbol_value(txt[8 * h + 4]);
        lemma_symbol_value(txt[8 * h + 5]);
        lemma_symbol_value(txt[8 * h + 6]);
        lemma_symbol_value(txt[8 * h + 7]);
        lemma_join_quintets(d0, d1, d2, d3, d4, d5, d6, d7);
        assert forall|m: int| 0 <= m < 5 implies #[trigger] bin[5 * h + m] == octet(v, m) by {
            lemma_div_mod((5 * h + m) as int, 5, h, m);
        }
        assert(bin[5 * h] == octet(v, 0));
        assert(bin[5 * h + 1] == octet(v, 1));
        assert(bin[5 * h + 2] == octet(v, 2));
        assert(bin[5 * h + 3] == octet(v, 3));
        assert(bin[5 * h + 4] == octet(v, 4));
        lemma_octets_join(v);
        let o0 = octet(v, 0) as u64;
        let o1 = octet(v, 1) as u64;
        let o2 = octet(v, 2) as u64;
        let o3 = octet(v, 3) as u64;
        let o4 = octet(v, 4) as u64;
        assert(((v >> 32u64) & 255u64) < 256 && ((v >> 24u64) & 255u64) < 256 && ((v >> 16u64)
            & 255u64) < 256 && ((v >> 8u64) & 255u64) < 256 && ((v >> 0u64) & 255u64) < 256)
            by (bit_vector);
        assert(o0 == ((v >> 32u64) & 255u64));
        assert(o1 == ((v >> 24u64) & 255u64));
        assert(o2 == ((v >> 16u64) & 255u64));
        assert(o3 == ((v >> 8u64) & 255u64));
        assert(o4 == ((v >> 0u64) & 255u64));
    }
    let enc = db32_encode(bin);
    assert forall|j: int| 0 <= j < txt.len() implies enc[j] == txt[j] by {
        let h = j / 8;
        let k = j % 8;
        lemma_div_mod(j, 8, h, k);
        let v = unpack_group(txt, h);
        assert(pack_group(bin, h) == v);
        let d0 = symbol_value(txt[8 * h]) as u64;
        let d1 = symbol_value(txt[8 * h + 1]) as u64;
        let d2 = symbol_value(txt[8 * h + 2]) as u64;
        let d3 = symbol_value(txt[8 * h + 3]) as u64;
        let d4 = symbol_value(txt[8 * h + 4]) as u64;
        let d5 = symbol_value(txt[8 * h + 5]) as u64;
        let d6 = symbol_value(txt[8 * h + 6]) as u64;
        let d7 = symbol_value(txt[8 * h + 7]) as u64;
        lemma_symbol_value(txt[8 * h]);
        lemma_symbol_value(txt[8 * h + 1]);
        lemma_symbol_value(txt[8 * h + 2]);
        lemma_symbol_value(txt[8 * h + 3]);
        lemma_symbol_value(txt[8 * h + 4]);
        lemma_symbol_value(txt[8 * h + 5]);
        lemma_symbol_value(txt[8 * h + 6]);
        lemma_symbol_value(txt[8 * h + 7]);
        lemma_join_quintets(d0, d1, d2, d3, d4, d5, d6, d7);
        lemma_symbol_value(txt[j]);
        if k == 0 {
        } else if k == 1 {
        } else if k == 2 {
        } else if k == 3 {
        } else if k == 4 {
        } else if k == 5 {
        } else if k == 6 {
        } else {
        }
    }
    assert(enc =~= txt);
}

/// Text is valid Dbase32 exactly when it decodes.
pub proof fn lemma_isdb32_iff_decodes(txt: Seq<u8>)
    ensures
        is_db32_text(txt) <==> db32_decode(txt) is Some,
{
}

} // verus!
