//! Library for converting XISF astronomical images to the FITS container
//! format: byte codecs, byte unshuffling, payload decompression, XML header
//! parsing and FITS header/data rendering.

pub mod convert;
pub mod fitswriter;
pub mod text;
pub mod xisfreader;

use crate::xisfreader::{XISFData, XISFile};
use vstd::prelude::*;

verus! {

/// The command-line configuration threaded through a conversion: the input
/// and output paths and the verbosity switch.
pub struct Cli {
    pub verbose: bool,
    pub input: String,
    pub output: String,
}

impl Cli {
    /// Gets the path to the input XISF file.
    pub fn input(&self) -> (r: &str)
        ensures
            r@ == self.input@,
    {
        self.input.as_str()
    }

    /// Gets the path to the output FITS file.
    pub fn output(&self) -> (r: &str)
        ensures
            r@ == self.output@,
    {
        self.output.as_str()
    }
}

/// The channel buffers from position `i` on, concatenated as raw bytes.
pub open spec fn cat_raw(ch: Seq<Vec<u8>>, i: int) -> Seq<u8>
    decreases ch.len() - i,
{
    if i < 0 || i >= ch.len() {
        Seq::empty()
    } else {
        ch[i]@ + cat_raw(ch, i + 1)
    }
}

/// The 16-bit channel buffers from position `i` on, clamped and encoded
/// big-endian, concatenated.
pub open spec fn cat_u16_be(ch: Seq<Vec<u16>>, i: int) -> Seq<u8>
    decreases ch.len() - i,
{
    if i < 0 || i >= ch.len() {
        Seq::empty()
    } else {
        convert::enc_u16_clamped(ch[i]@) + cat_u16_be(ch, i + 1)
    }
}

/// The 32-bit channel buffers from position `i` on, clamped and encoded
/// big-endian, concatenated.
pub open spec fn cat_u32_be(ch: Seq<Vec<u32>>, i: int) -> Seq<u8>
    decreases ch.len() - i,
{
    if i < 0 || i >= ch.len() {
        Seq::empty()
    } else {
        convert::enc_u32_clamped(ch[i]@) + cat_u32_be(ch, i + 1)
    }
}

/// The raw floating-point channel buffers from position `i` on, each with
/// its samples' bytes reversed from little- to big-endian, concatenated.
pub open spec fn cat_swapped(ch: Seq<Vec<u8>>, width: int, i: int) -> Seq<u8>
    decreases ch.len() - i,
{
    if i < 0 || i >= ch.len() {
        Seq::empty()
    } else {
        convert::swapped_chunks(ch[i]@, width) + cat_swapped(ch, width, i + 1)
    }
}

/// Convert decoded XISF channel data to the FITS data unit bytes, big
/// endian, together with the BITPIX code of the sample format: unsigned
/// bytes pass through, 16- and 32-bit samples are clamped into the signed
/// range, and floating-point samples keep their bit patterns with their
/// bytes reordered.
pub fn xisf_data_to_fits(xisf_file: &XISFile) -> (r: (Vec<u8>, i64))
    ensures
        xisf_file.data is Empty ==> r.1 == 0 && r.0@ == Seq::<u8>::empty(),
        xisf_file.data matches XISFData::UInt8(ch) ==> r.1 == 8 && r.0@ == cat_raw(ch@, 0),
        xisf_file.data matches XISFData::UInt16(ch) ==> r.1 == 16 && r.0@ == cat_u16_be(ch@, 0),
        xisf_file.data matches XISFData::UInt32(ch) ==> r.1 == 32 && r.0@ == cat_u32_be(ch@, 0),
        xisf_file.data matches XISFData::Float32(ch) ==> r.1 == -32 && r.0@ == cat_swapped(
            ch@,
            4,
            0,
        ),
        xisf_file.data matches XISFData::Float64(ch) ==> r.1 == -64 && r.0@ == cat_swapped(
            ch@,
            8,
            0,
        ),
{
    let mut fits_data: Vec<u8> = Vec::new();
    let bitpix: i64;

    match &xisf_file.data {
        XISFData::Empty => {
            bitpix = 0;
        },
        XISFData::UInt8(ch) => {
            bitpix = 8;
            let mut i: usize = 0;
            while i < ch.len()
                invariant
                    i <= ch@.len(),
                    cat_raw(ch@, 0) == fits_data@ + cat_raw(ch@, i as int),
                decreases ch@.len() - i,
            {
                fits_data.extend_from_slice(ch[i].as_slice());
                i = i + 1;
                proof {
                    assert(cat_raw(ch@, 0) =~= fits_data@ + cat_raw(ch@, i as int));
                }
            }
            proof {
                assert(fits_data@ =~= cat_raw(ch@, 0));
            }
        },
        XISFData::UInt16(ch) => {
            bitpix = 16;
            let mut i: usize = 0;
            while i < ch.len()
                invariant
                    i <= ch@.len(),
                    cat_u16_be(ch@, 0) == fits_data@ + cat_u16_be(ch@, i as int),
                decreases ch@.len() - i,
            {
                let mut enc = convert::u16_to_i16_to_v_u8_be(ch[i].as_slice());
                proof {
                    convert::lemma_u16_encoding_shape(ch@[i as int]@, enc@);
                }
                fits_data.append(&mut enc);
                i = i + 1;
                proof {
                    assert(cat_u16_be(ch@, 0) =~= fits_data@ + cat_u16_be(ch@, i as int));
                }
            }
            proof {
                assert(fits_data@ =~= cat_u16_be(ch@, 0));
            }
        },
        XISFData::UInt32(ch) => {
            bitpix = 32;
            let mut i: usize = 0;
            while i < ch.len()
                invariant
                    i <= ch@.len(),
                    cat_u32_be(ch@, 0) == fits_data@ + cat_u32_be(ch@, i as int),
                decreases ch@.len() - i,
            {
                let mut enc = convert::u32_to_i32_to_v_u8_be(ch[i].as_slice());
                proof {
                    convert::lemma_u32_encoding_shape(ch@[i as int]@, enc@);
                }
                fits_data.append(&mut enc);
                i = i + 1;
                proof {
                    assert(cat_u32_be(ch@, 0) =~= fits_data@ + cat_u32_be(ch@, i as int));
                }
            }
            proof {
                assert(fits_data@ =~= cat_u32_be(ch@, 0));
            }
        },
        XISFData::Float32(ch) => {
            bitpix = -32;
            let mut i: usize = 0;
            while i < ch.len()
                invariant
                    i <= ch@.len(),
                    cat_swapped(ch@, 4, 0) == fits_data@ + cat_swapped(ch@, 4, i as int),
                decreases ch@.len() - i,
            {
                let mut enc = convert::swap_chunk_endianness(ch[i].as_slice(), 4);
                proof {
                    convert::lemma_swap_chunks_shape(ch@[i as int]@, 4, enc@);
                }
                fits_data.append(&mut enc);
                i = i + 1;
                proof {
                    assert(cat_swapped(ch@, 4, 0) =~= fits_data@ + cat_swapped(ch@, 4, i as int));
                }
            }
            proof {
                assert(fits_data@ =~= cat_swapped(ch@, 4, 0));
            }
        },
        XISFData::Float64(ch) => {
            bitpix = -64;
            let mut i: usize = 0;
            while i < ch.len()
                invariant
                    i <= ch@.len(),
                    cat_swapped(ch@, 8, 0) == fits_data@ + cat_swapped(ch@, 8, i as int),
                decreases ch@.len() - i,
            {
                let mut enc = convert::swap_chunk_endianness(ch[i].as_slice(), 8);
                proof {
                    convert::lemma_swap_chunks_shape(ch@[i as int]@, 8, enc@);
                }
                fits_data.append(&mut enc);
                i = i + 1;
                proof {
                    assert(cat_swapped(ch@, 8, 0) =~= fits_data@ + cat_swapped(ch@, 8, i as int));
                }
            }
            proof {
                assert(fits_data@ =~= cat_swapped(ch@, 8, 0));
            }
        },
    }

    (fits_data, bitpix)
}

} // verus!
