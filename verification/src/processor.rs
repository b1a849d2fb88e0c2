//! Numeric layouts of the processor families that write C3D files.
//!
//! A 32-bit float is carried as its IEEE-754 bit pattern in a `u32`, so that
//! every value, each NaN included, keeps its exact bits.

use vstd::prelude::*;

verus! {

/// The processor family that wrote a file; it fixes how 16-bit integers and
/// 32-bit floats lie in the file's bytes.
#[derive(Clone, Copy, Debug, PartialEq, Eq, Structural)]
pub enum Processor {
    /// Little-endian integers, little-endian IEEE-754 floats.
    Intel,
    /// Little-endian integers, floats in the word-swapped layout of the DEC
    /// minicomputers, whose exponent is stored two higher than the IEEE one.
    Dec,
    /// Big-endian integers, big-endian IEEE-754 floats.
    SgiMips,
}

/// The value of a signed 16-bit integer read as an unsigned one.
pub open spec fn unsigned16(v: i16) -> int {
    if v < 0 {
        v + 0x10000
    } else {
        v as int
    }
}

/// The signed 16-bit integer that the unsigned value `u` below `0x10000` stands for.
pub open spec fn signed16(u: int) -> i16 {
    if u >= 0x8000 {
        (u - 0x10000) as i16
    } else {
        u as i16
    }
}

/// The byte that a DEC float holds in place of the top byte `top` of an IEEE
/// float: one more, which raises the exponent by two. Zero stays zero, and the
/// highest byte has no successor and stays as it is.
pub open spec fn dec_top_byte(top: u8) -> u8 {
    if top == 0 || top == 255 {
        top
    } else {
        (top + 1) as u8
    }
}

/// The top byte of the IEEE float that a DEC float with second byte `stored` stands for.
pub open spec fn ieee_top_byte(stored: u8) -> u8 {
    if stored == 0 {
        stored
    } else {
        (stored - 1) as u8
    }
}

impl Processor {
    /// The two bytes that hold `v` in this layout.
    pub open spec fn i16_bytes(self, v: i16) -> Seq<u8> {
        let u = unsigned16(v);
        let lo = (u % 256) as u8;
        let hi = (u / 256) as u8;
        if self is SgiMips {
            seq![hi, lo]
        } else {
            seq![lo, hi]
        }
    }

    /// The integer that the two bytes `b0`, `b1` hold in this layout.
    pub open spec fn i16_value(self, b0: u8, b1: u8) -> i16 {
        if self is SgiMips {
            signed16(b0 * 256 + b1)
        } else {
            signed16(b1 * 256 + b0)
        }
    }

    /// The four bytes that hold the float with bit pattern `bits` in this layout.
    pub open spec fn float_bytes(self, bits: u32) -> Seq<u8> {
        let b0 = (bits % 256) as u8;
        let b1 = (bits / 0x100 % 256) as u8;
        let b2 = (bits / 0x10000 % 256) as u8;
        let b3 = (bits / 0x1000000) as u8;
        match self {
            Processor::Intel => seq![b0, b1, b2, b3],
            Processor::Dec => seq![b2, dec_top_byte(b3), b0, b1],
            Processor::SgiMips => seq![b3, b2, b1, b0],
        }
    }

    /// The bit pattern of the float that the bytes `b0` to `b3` hold in this layout.
    pub open spec fn float_value(self, b0: u8, b1: u8, b2: u8, b3: u8) -> u32 {
        match self {
            Processor::Intel => (b0 + b1 * 0x100 + b2 * 0x10000 + b3 * 0x1000000) as u32,
            Processor::Dec => (b2 + b3 * 0x100 + b0 * 0x10000 + ieee_top_byte(b1) * 0x1000000) as u32,
            Processor::SgiMips => (b3 + b2 * 0x100 + b1 * 0x10000 + b0 * 0x1000000) as u32,
        }
    }

    /// Whether four stored bytes are the bytes that this layout writes for
    /// the float that they hold. In the IEEE layouts they always are. In the
    /// DEC layout a second byte of 1 holds the same float as a second byte
    /// of 0, and that float is written with 0.
    pub open spec fn stores_exactly(self, b0: u8, b1: u8, b2: u8, b3: u8) -> bool {
        self is Dec ==> b1 != 1
    }

    /// The bit pattern that is read from the bytes that this layout writes
    /// for the float with bit pattern `bits`: the same bits, if the layout
    /// holds the float.
    pub open spec fn read_back(self, bits: u32) -> u32 {
        let bytes = self.float_bytes(bits);
        self.float_value(bytes[0], bytes[1], bytes[2], bytes[3])
    }

    /// Whether this layout can hold the float with bit pattern `bits` exactly.
    /// The IEEE layouts hold every float. The DEC layout cannot hold one whose
    /// top byte is 255: its exponent has no room for two more.
    pub open spec fn holds_float(self, bits: u32) -> bool {
        self is Dec ==> bits / 0x1000000 != 255
    }

    /// Encodes a signed 16-bit integer.
    pub fn encode_i16(&self, v: i16) -> (bytes: [u8; 2])
        ensures
            bytes@ == self.i16_bytes(v),
    {
        let w: i32 = v as i32;
        let u: i32 = if w < 0 { w + 0x10000 } else { w };
        let lo: u8 = (u % 256) as u8;
        let hi: u8 = (u / 256) as u8;
        let bytes = match self {
            Processor::SgiMips => [hi, lo],
            _ => [lo, hi],
        };
        assert(bytes@ =~= self.i16_bytes(v));
        bytes
    }

    /// Decodes a signed 16-bit integer.
    pub fn decode_i16(&self, bytes: [u8; 2]) -> (v: i16)
        ensures
            v == self.i16_value(bytes[0], bytes[1]),
    {
        let (hi, lo): (u8, u8) = match self {
            Processor::SgiMips => (bytes[0], bytes[1]),
            _ => (bytes[1], bytes[0]),
        };
        let u: i32 = hi as i32 * 256 + lo as i32;
        if u >= 0x8000 {
            (u - 0x10000) as i16
        } else {
            u as i16
        }
    }

    /// Encodes a 32-bit float, given by its bit pattern.
    pub fn encode_float(&self, bits: u32) -> (bytes: [u8; 4])
        ensures
            bytes@ == self.float_bytes(bits),
    {
        let b0: u8 = (bits % 256) as u8;
        let b1: u8 = (bits / 0x100 % 256) as u8;
        let b2: u8 = (bits / 0x10000 % 256) as u8;
        let b3: u8 = (bits / 0x1000000) as u8;
        let bytes = match self {
            Processor::Intel => [b0, b1, b2, b3],
            Processor::Dec => {
                let top: u8 = if b3 == 0 || b3 == 255 { b3 } else { b3 + 1 };
                [b2, top, b0, b1]
            },
            Processor::SgiMips => [b3, b2, b1, b0],
        };
        assert(bytes@ =~= self.float_bytes(bits));
        bytes
    }

    /// Decodes a 32-bit float to its bit pattern. In the DEC layout the
    /// second byte carries the exponent, stored two higher than the IEEE
    /// one; 0 and 1 both stand for the lowest exponent, so bytes with a
    /// second byte of 1 are not the bytes that the float is encoded with.
    pub fn decode_float(&self, bytes: [u8; 4]) -> (bits: u32)
        ensures
            bits == self.float_value(bytes[0], bytes[1], bytes[2], bytes[3]),
            self.holds_float(bits),
    {
        let (b0, b1, b2, b3): (u8, u8, u8, u8) = match self {
            Processor::Intel => (bytes[0], bytes[1], bytes[2], bytes[3]),
            Processor::Dec => {
                let top: u8 = if bytes[1] == 0 { 0 } else { bytes[1] - 1 };
                (bytes[2], bytes[3], bytes[0], top)
            },
            Processor::SgiMips => (bytes[3], bytes[2], bytes[1], bytes[0]),
        };
        b0 as u32 + b1 as u32 * 0x100 + b2 as u32 * 0x10000 + b3 as u32 * 0x1000000
    }
}

/// A 16-bit integer comes back unchanged from its bytes, in every layout.
pub proof fn lemma_i16_round_trip(processor: Processor, v: i16)
    ensures
        processor.i16_bytes(v).len() == 2,
        processor.i16_value(processor.i16_bytes(v)[0], processor.i16_bytes(v)[1]) == v,
{
}

/// A float that the layout can hold comes back from its bytes with the same bits.
pub proof fn lemma_float_round_trip(processor: Processor, bits: u32)
    requires
        processor.holds_float(bits),
    ensures
        processor.float_bytes(bits).len() == 4,
        processor.float_value(
            processor.float_bytes(bits)[0],
            processor.float_bytes(bits)[1],
            processor.float_bytes(bits)[2],
            processor.float_bytes(bits)[3],
        ) == bits,
{
}

/// Two bytes come back unchanged from the integer that they hold, in every
/// layout.
pub proof fn lemma_i16_bytes_back(processor: Processor, b0: u8, b1: u8)
    ensures
        processor.i16_bytes(processor.i16_value(b0, b1)) == seq![b0, b1],
{
    assert(processor.i16_bytes(processor.i16_value(b0, b1)) =~= seq![b0, b1]);
}

/// Four bytes come back unchanged from the float that they hold exactly if
/// they are stored as the layout writes them: always in the IEEE layouts,
/// and in the DEC layout unless the second byte is 1.
pub proof fn lemma_float_bytes_back(processor: Processor, b0: u8, b1: u8, b2: u8, b3: u8)
    ensures
        processor.float_bytes(processor.float_value(b0, b1, b2, b3)) == seq![b0, b1, b2, b3]
            <==> processor.stores_exactly(b0, b1, b2, b3),
{
    let back = processor.float_bytes(processor.float_value(b0, b1, b2, b3));
    assert(back.len() == 4);
    match processor {
        Processor::Intel => {
            lemma_digits(b0, b1, b2, b3);
            assert(back =~= seq![b0, b1, b2, b3]);
        },
        Processor::SgiMips => {
            lemma_digits(b3, b2, b1, b0);
            assert(back =~= seq![b0, b1, b2, b3]);
        },
        Processor::Dec => {
            lemma_digits(b2, b3, b0, ieee_top_byte(b1));
            if b1 != 1 {
                assert(back =~= seq![b0, b1, b2, b3]);
            } else {
                assert(back[1] == 0);
                assert(seq![b0, b1, b2, b3][1] == 1);
            }
        },
    }
}

/// The four bytes of a number are its digits to the base 256.
proof fn lemma_digits(d0: u8, d1: u8, d2: u8, d3: u8)
    ensures
        ({
            let v = (d0 + d1 * 0x100 + d2 * 0x10000 + d3 * 0x1000000) as u32;
            &&& v % 256 == d0
            &&& v / 0x100 % 256 == d1
            &&& v / 0x10000 % 256 == d2
            &&& v / 0x1000000 == d3
        }),
{
    let v = d0 + d1 * 0x100 + d2 * 0x10000 + d3 * 0x1000000;
    let q1 = d1 + d2 * 0x100 + d3 * 0x10000;
    let q2 = d2 + d3 * 0x100;
    assert(v == d0 + 0x100 * q1);
    assert(v / 0x100 == q1);
    assert(v == (d0 + d1 * 0x100) + 0x10000 * q2);
    assert(v / 0x10000 == q2);
    assert(v == (d0 + d1 * 0x100 + d2 * 0x10000) + 0x1000000 * d3);
    assert(v / 0x1000000 == d3);
}

/// What is read back from the bytes of a float is held by the layout and
/// is written with the same bytes; it is the float itself if the layout
/// holds it.
pub proof fn lemma_read_back(processor: Processor, bits: u32)
    ensures
        processor.holds_float(processor.read_back(bits)),
        processor.float_bytes(processor.read_back(bits)) == processor.float_bytes(bits),
        processor.holds_float(bits) ==> processor.read_back(bits) == bits,
{
    let bytes = processor.float_bytes(bits);
    assert(bytes.len() == 4);
    lemma_float_bytes_back(processor, bytes[0], bytes[1], bytes[2], bytes[3]);
    assert(bytes =~= seq![bytes[0], bytes[1], bytes[2], bytes[3]]);
    if processor.holds_float(bits) {
        lemma_float_round_trip(processor, bits);
    }
}

/// Whatever four bytes are decoded, the layout can hold the float that comes out.
pub proof fn lemma_decoded_float_is_held(processor: Processor, b0: u8, b1: u8, b2: u8, b3: u8)
    ensures
        processor.holds_float(processor.float_value(b0, b1, b2, b3)),
{
}

} // verus!
