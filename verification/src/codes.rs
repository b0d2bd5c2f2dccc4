//! Integer codes and their packed byte form.

use vstd::prelude::*;

verus! {

/// Bit width of a quantised number.
#[derive(Clone, Copy, Debug, PartialEq, Eq, Structural)]
pub enum QBits {
    /// Eight bits, codes `-127..=127`.
    Int8,
    /// Four bits, codes `-7..=7`, two codes to a byte.
    Int4,
}

impl QBits {
    /// The largest code, `2^(bits-1) - 1`. The range is symmetric: the one code that has no
    /// opposite is never produced.
    pub open spec fn limit(self) -> int {
        match self {
            QBits::Int8 => 127,
            QBits::Int4 => 7,
        }
    }

    /// The bit pattern of the largest code as a single-precision number: `127.0` or `7.0`.
    pub open spec fn qmax_bits(self) -> u32 {
        match self {
            QBits::Int8 => 0x42fe_0000,
            QBits::Int4 => 0x40e0_0000,
        }
    }

    /// Whether `code` is one that the byte form can hold.
    pub open spec fn holds(self, code: int) -> bool {
        match self {
            QBits::Int8 => -128 <= code <= 127,
            QBits::Int4 => -8 <= code <= 7,
        }
    }

    /// The largest code as a bit pattern.
    pub fn qmax(self) -> (r: u32)
        ensures
            r == self.qmax_bits(),
    {
        match self {
            QBits::Int8 => 0x42fe_0000,
            QBits::Int4 => 0x40e0_0000,
        }
    }

    /// The largest code.
    pub fn max_code(self) -> (r: i8)
        ensures
            r == self.limit(),
    {
        match self {
            QBits::Int8 => 127,
            QBits::Int4 => 7,
        }
    }

    /// Bits that one code takes.
    pub open spec fn width(self) -> nat {
        match self {
            QBits::Int8 => 8,
            QBits::Int4 => 4,
        }
    }

    pub fn bits(self) -> (r: usize)
        ensures
            r == self.width(),
    {
        match self {
            QBits::Int8 => 8,
            QBits::Int4 => 4,
        }
    }

    /// The name of the width, as text.
    pub open spec fn title(self) -> Seq<char> {
        match self {
            QBits::Int8 => "int8"@,
            QBits::Int4 => "int4"@,
        }
    }

    /// The name of the width.
    pub fn name(self) -> (r: &'static str)
        ensures
            r@ == self.title(),
    {
        match self {
            QBits::Int8 => "int8",
            QBits::Int4 => "int4",
        }
    }

    /// Whether two codes share a byte.
    pub fn packed(self) -> (r: bool)
        ensures
            r == (self.width() == 4),
    {
        self.bits() == 4
    }
}

/// Bytes that `n` codes take: `n * width / 8`, rounded up.
pub open spec fn packed_size(n: int, bits: QBits) -> int {
    (n * bits.width() + 7) / 8
}

/// Bytes that `n` codes take.
pub fn packed_len(n: usize, bits: QBits) -> (r: usize)
    ensures
        r == packed_size(n as int, bits),
{
    if bits.packed() {
        n / 2 + n % 2
    } else {
        n
    }
}

/// A byte read as a two's-complement number.
pub open spec fn signed_byte(b: u8) -> i8 {
    if b < 128 {
        b as i8
    } else {
        (b - 256) as i8
    }
}

/// Half a byte read as a two's-complement number.
pub open spec fn signed_nibble(h: int) -> i8 {
    if h < 8 {
        h as i8
    } else {
        (h - 16) as i8
    }
}

/// The `i`-th code of a byte string. The low half of a byte comes first.
pub open spec fn code_at(bytes: Seq<u8>, bits: QBits, i: int) -> i8 {
    match bits {
        QBits::Int8 => signed_byte(bytes[i]),
        QBits::Int4 => if i % 2 == 0 {
            signed_nibble(bytes[i / 2] as int % 16)
        } else {
            signed_nibble(bytes[i / 2] as int / 16)
        },
    }
}

/// How many codes a byte string holds.
pub open spec fn code_count(bytes: Seq<u8>, bits: QBits) -> int {
    match bits {
        QBits::Int8 => bytes.len() as int,
        QBits::Int4 => 2 * (bytes.len() as int),
    }
}

/// The codes of a byte string, at most `n` of them.
pub open spec fn codes_of(bytes: Seq<u8>, bits: QBits, n: int) -> Seq<i8> {
    let m = if n < code_count(bytes, bits) {
        n
    } else {
        code_count(bytes, bits)
    };
    Seq::new(m as nat, |i: int| code_at(bytes, bits, i))
}

/// The low four bits of a code.
pub open spec fn nibble(code: i8) -> int {
    code as int % 16
}

/// The byte form of a code sequence: one byte per code, or two codes per byte, low half first, the
/// unused half of the last byte zero.
pub open spec fn bytes_of(codes: Seq<i8>, bits: QBits) -> Seq<u8> {
    match bits {
        QBits::Int8 => Seq::new(codes.len(), |i: int| (codes[i] as int % 256) as u8),
        QBits::Int4 => Seq::new(
            ((codes.len() + 1) / 2) as nat,
            |i: int|
                (nibble(codes[2 * i]) + 16 * (if 2 * i + 1 < codes.len() {
                    nibble(codes[2 * i + 1])
                } else {
                    0
                })) as u8,
        ),
    }
}

/// `c mod 256` as a byte.
fn byte_of(c: i8) -> (r: u8)
    ensures
        r == c as int % 256,
{
    if c >= 0 {
        c as u8
    } else {
        (c as i16 + 256) as u8
    }
}

/// `c mod 16` as a byte.
fn nibble_of(c: i8) -> (r: u8)
    ensures
        r == nibble(c),
        r < 16,
{
    ((c as i16 + 256) % 16) as u8
}

/// Packs integer codes into bytes.
pub fn pack_codes(codes: &[i8], bits: QBits) -> (r: Vec<u8>)
    ensures
        r@ == bytes_of(codes@, bits),
        r@.len() == packed_size(codes@.len() as int, bits),
{
    let mut out: Vec<u8> = Vec::new();
    match bits {
        QBits::Int8 => {
            for i in 0..codes.len()
                invariant
                    out@.len() == i,
                    forall|j: int| 0 <= j < i ==> out@[j] == codes@[j] as int % 256,
            {
                out.push(byte_of(codes[i]));
            }
        },
        QBits::Int4 => {
            let n: usize = codes.len();
            let m: usize = n / 2 + n % 2;
            for i in 0..m
                invariant
                    n == codes@.len(),
                    m == (n + 1) / 2,
                    out@.len() == i,
                    forall|j: int|
                        0 <= j < i ==> out@[j] == nibble(codes@[2 * j]) + 16 * (if 2 * j + 1 < n {
                            nibble(codes@[2 * j + 1])
                        } else {
                            0
                        }),
            {
                let lo: u8 = nibble_of(codes[2 * i]);
                let hi: u8 = if 2 * i < n - 1 {
                    nibble_of(codes[2 * i + 1])
                } else {
                    0
                };
                out.push(lo + 16 * hi);
            }
        },
    }
    assert(out@ =~= bytes_of(codes@, bits));
    out
}

/// Reads back at most `n` codes; fewer where the bytes run out.
pub fn unpack_codes(bytes: &[u8], bits: QBits, n: usize) -> (r: Vec<i8>)
    ensures
        r@ == codes_of(bytes@, bits, n as int),
{
    let mut out: Vec<i8> = Vec::new();
    match bits {
        QBits::Int8 => {
            let m: usize = if n < bytes.len() {
                n
            } else {
                bytes.len()
            };
            for i in 0..m
                invariant
                    m <= bytes@.len(),
                    out@.len() == i,
                    forall|j: int| 0 <= j < i ==> out@[j] == signed_byte(bytes@[j]),
            {
                let b: u8 = bytes[i];
                out.push(
                    if b < 128 {
                        b as i8
                    } else {
                        (b as i16 - 256) as i8
                    },
                );
            }
        },
        QBits::Int4 => {
            let mut k: usize = 0;
            while k < bytes.len() && out.len() < n
                invariant
                    k <= bytes@.len(),
                    out@.len() <= n,
                    out@.len() == n || out@.len() == 2 * k,
                    out@.len() <= 2 * k,
                    forall|j: int|
                        0 <= j < out@.len() ==> out@[j] == code_at(bytes@, QBits::Int4, j),
                decreases bytes@.len() - k,
            {
                let b: u8 = bytes[k];
                let lo: u8 = b % 16;
                out.push(
                    if lo < 8 {
                        lo as i8
                    } else {
                        lo as i8 - 16
                    },
                );
                if out.len() < n {
                    let hi: u8 = b / 16;
                    out.push(
                        if hi < 8 {
                            hi as i8
                        } else {
                            hi as i8 - 16
                        },
                    );
                }
                k = k + 1;
            }
        },
    }
    assert(out@ =~= codes_of(bytes@, bits, n as int));
    out
}

/// Packing loses nothing: reading the bytes back gives the codes that went in, as long as each
/// code fits the bit width.
pub proof fn unpack_undoes_pack(codes: Seq<i8>, bits: QBits)
    requires
        forall|i: int| 0 <= i < codes.len() ==> bits.holds(#[trigger] codes[i] as int),
    ensures
        codes_of(bytes_of(codes, bits), bits, codes.len() as int) == codes,
{
    let bytes = bytes_of(codes, bits);
    let back = codes_of(bytes, bits, codes.len() as int);
    assert(back.len() == codes.len());
    assert forall|i: int| 0 <= i < codes.len() implies back[i] == codes[i] by {
        assert(bits.holds(codes[i] as int));
        if bits == QBits::Int4 && i % 2 == 1 {
            assert(2 * (i / 2) + 1 == i);
            assert(bits.holds(codes[i - 1] as int));
        } else if bits == QBits::Int4 {
            assert(2 * (i / 2) == i);
            if i + 1 < codes.len() {
                assert(bits.holds(codes[i + 1] as int));
            }
        }
    }
    assert(back =~= codes);
}

/// Every code read from bytes fits the bit width.
pub proof fn unpacked_codes_fit(bytes: Seq<u8>, bits: QBits, n: int)
    requires
        n >= 0,
    ensures
        forall|i: int|
            0 <= i < codes_of(bytes, bits, n).len() ==> bits.holds(
                #[trigger] codes_of(bytes, bits, n)[i] as int,
            ),
{
}

/// Four-bit codes take half the bytes of eight-bit codes, rounded up.
pub proof fn four_bit_codes_take_half(n: int)
    requires
        n >= 0,
    ensures
        packed_size(n, QBits::Int4) == (packed_size(n, QBits::Int8) + 1) / 2,
{
}

} // verus!
