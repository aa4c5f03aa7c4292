use std::io::Write;

use xisfits::fitswriter::{fits_write_data, FitsHeaderData};
use xisfits::xisf_data_to_fits;
use xisfits::xisfreader::{XISFData, XISFError, XISFSampleFormat, XISFile};

// The XML header is padded with spaces to this fixed length, so that the
// attachment always starts at byte 16 + XML_LEN.
const XML_LEN: usize = 512;
const ATTACH_START: usize = 16 + XML_LEN;

fn build_xisf(xml: &str, payload: &[u8]) -> Vec<u8> {
    assert!(xml.len() <= XML_LEN);
    let mut padded = String::from(xml);
    while padded.len() < XML_LEN {
        padded.push(' ');
    }
    let mut buffer = Vec::new();
    buffer.extend_from_slice(b"XISF0100");
    buffer.extend_from_slice(&(XML_LEN as u32).to_le_bytes());
    buffer.extend_from_slice(&[0u8; 4]);
    buffer.extend_from_slice(padded.as_bytes());
    buffer.extend_from_slice(payload);
    buffer
}

fn zlib_compress(data: &[u8]) -> Vec<u8> {
    let mut encoder =
        flate2::write::ZlibEncoder::new(Vec::new(), flate2::Compression::default());
    encoder.write_all(data).unwrap();
    encoder.finish().unwrap()
}

fn shuffle(buf: &[u8], width: usize) -> Vec<u8> {
    let n = buf.len() / width;
    let mut out = vec![0u8; buf.len()];
    for i in 0..n {
        for j in 0..width {
            out[j * n + i] = buf[i * width + j];
        }
    }
    out
}

#[test]
fn test_xisf_read_gray_8bit_file() {
    let payload: Vec<u8> = (0..65536u32).map(|i| (i % 251) as u8).collect();
    let xml = format!(
        "<Image geometry=\"256:256:1\" sampleFormat=\"UInt8\" colorSpace=\"Gray\" \
         location=\"attachment:{}:{}\"></Image>",
        ATTACH_START,
        payload.len(),
    );
    let buffer = build_xisf(&xml, &payload);
    let file = XISFile::from_bytes(&buffer).unwrap();
    assert_eq!(file.header().sample_format(), XISFSampleFormat::UInt8);
    assert_eq!(file.header().geometry().to_text(), "256:256:1");
    assert_eq!(file.header().geometry().dimensions(), &vec![256, 256]);
    assert_eq!(file.header().geometry().channel_count(), 1);
    assert_eq!(file.header().color_space(), "Gray");
    // One channel of 65536 bytes.
    match file.data() {
        XISFData::UInt8(ch) => {
            assert_eq!(ch.len(), 1);
            assert_eq!(ch[0].len(), 65536);
            assert_eq!(ch[0], payload);
        }
        other => panic!("unexpected data kind: {:?}", other.sample_format()),
    }
    // The written FITS header reads BITPIX 8 with NAXIS1 = NAXIS2 = 256.
    let (fits_bytes, bitpix) = xisf_data_to_fits(&file);
    assert_eq!(bitpix, 8);
    assert_eq!(fits_bytes, payload);
    let hd = FitsHeaderData {
        bitpix,
        naxis: 2,
        naxis_vec: vec![256, 256],
        bzero: 0,
        bscale: 1,
        datamin: 0,
        datamax: 0,
        history: Vec::new(),
        comment: Vec::new(),
        data_bytes: fits_bytes,
    };
    let fits = fits_write_data(&hd);
    let expected_bitpix = format!("{:8} = {:<19} / {:47}", "BITPIX", 8, "");
    assert_eq!(&fits[80..160], expected_bitpix.as_bytes());
    let expected_naxis1 = format!("{:8} = {:<19} / {:47}", "NAXIS1", 256, "");
    assert_eq!(&fits[240..320], expected_naxis1.as_bytes());
    let expected_naxis2 = format!("{:8} = {:<19} / {:47}", "NAXIS2", 256, "");
    assert_eq!(&fits[320..400], expected_naxis2.as_bytes());
}

#[test]
fn test_xisf_read_rgb_8bit_file() {
    let payload: Vec<u8> = (0..3 * 65536u32).map(|i| (i % 253) as u8).collect();
    let xml = format!(
        "<Image geometry=\"256:256:3\" sampleFormat=\"UInt8\" colorSpace=\"RGB\" \
         location=\"attachment:{}:{}\"></Image>",
        ATTACH_START,
        payload.len(),
    );
    let buffer = build_xisf(&xml, &payload);
    let file = XISFile::from_bytes(&buffer).unwrap();
    assert_eq!(file.header().sample_format(), XISFSampleFormat::UInt8);
    assert_eq!(file.header().geometry().to_text(), "256:256:3");
    assert_eq!(file.header().geometry().dimensions(), &vec![256, 256]);
    assert_eq!(file.header().geometry().channel_count(), 3);
    match file.data() {
        XISFData::UInt8(ch) => {
            assert_eq!(ch.len(), 3);
            for c in ch {
                assert_eq!(c.len(), 65536);
            }
        }
        other => panic!("unexpected data kind: {:?}", other.sample_format()),
    }
}

#[test]
fn test_xisf_read_rgb_16bit_file() {
    // A 16-bit RGB 256x256x3 image compressed with the shuffle-enabled zlib
    // codec: 3 x 131072 bytes after decompression and unshuffling, and every
    // sample at most 32767 after the clamp remap.
    let mut raw: Vec<u8> = Vec::new();
    for i in 0..(3 * 65536u32) {
        let sample = (i % 60000) as u16; // many values above the signed maximum
        raw.extend_from_slice(&sample.to_le_bytes());
    }
    assert_eq!(raw.len(), 3 * 131072);
    let compressed = zlib_compress(&shuffle(&raw, 2));
    let xml = format!(
        "<Image geometry=\"256:256:3\" sampleFormat=\"UInt16\" colorSpace=\"RGB\" \
         location=\"attachment:{}:{}\" compression=\"zlib+sh:{}\"></Image>",
        ATTACH_START,
        compressed.len(),
        raw.len(),
    );
    let buffer = build_xisf(&xml, &compressed);
    let file = XISFile::from_bytes(&buffer).unwrap();
    assert_eq!(file.header().sample_format(), XISFSampleFormat::UInt16);
    assert_eq!(file.header().geometry().to_text(), "256:256:3");
    assert_eq!(file.header().compression_codec(), "zlib+sh");
    match file.data() {
        XISFData::UInt16(ch) => {
            assert_eq!(ch.len(), 3);
            for (c, chan) in ch.iter().enumerate() {
                assert_eq!(chan.len(), 65536);
                for (k, v) in chan.iter().enumerate() {
                    let i = (c * 65536 + k) as u32;
                    assert_eq!(*v, (i % 60000) as u16);
                }
            }
        }
        other => panic!("unexpected data kind: {:?}", other.sample_format()),
    }
    let (fits_bytes, bitpix) = xisf_data_to_fits(&file);
    assert_eq!(bitpix, 16);
    assert_eq!(fits_bytes.len(), 3 * 131072);
    // After the clamp remap every big-endian sample is at most 32767.
    for pair in fits_bytes.chunks(2) {
        let v = u16::from_be_bytes([pair[0], pair[1]]);
        assert!(v <= 32767);
    }
}

#[test]
fn test_xisf_read_zlib_file() {
    let mut raw: Vec<u8> = Vec::new();
    for i in 0..65536u32 {
        raw.extend_from_slice(&((i % 1000) as u16).to_le_bytes());
    }
    let compressed = zlib_compress(&raw);
    let xml = format!(
        "<Image geometry=\"256:256:1\" sampleFormat=\"UInt16\" colorSpace=\"Gray\" \
         location=\"attachment:{}:{}\" compression=\"zlib:{}\"></Image>",
        ATTACH_START,
        compressed.len(),
        raw.len(),
    );
    let buffer = build_xisf(&xml, &compressed);
    let file = XISFile::from_bytes(&buffer).unwrap();
    assert_eq!(file.header().sample_format(), XISFSampleFormat::UInt16);
    assert_eq!(file.header().geometry().to_text(), "256:256:1");
    assert_eq!(file.header().geometry().dimensions(), &vec![256, 256]);
    assert_eq!(file.header().geometry().channel_count(), 1);
    assert_eq!(file.header().compression_codec(), "zlib");
    match file.data() {
        XISFData::UInt16(ch) => {
            assert_eq!(ch.len(), 1);
            assert_eq!(ch[0].len(), 65536);
            assert_eq!(ch[0][999], 999);
        }
        other => panic!("unexpected data kind: {:?}", other.sample_format()),
    }
}

#[test]
fn test_xisf_read_gray_float32_file() {
    let mut payload: Vec<u8> = Vec::new();
    for i in 0..(255 * 255u32) {
        payload.extend_from_slice(&(i as f32 * 0.5).to_le_bytes());
    }
    let xml = format!(
        "<Image geometry=\"255:255:1\" sampleFormat=\"Float32\" colorSpace=\"Gray\" \
         location=\"attachment:{}:{}\"></Image>",
        ATTACH_START,
        payload.len(),
    );
    let buffer = build_xisf(&xml, &payload);
    let file = XISFile::from_bytes(&buffer).unwrap();
    assert_eq!(file.header().sample_format(), XISFSampleFormat::Float32);
    assert_eq!(file.header().geometry().to_text(), "255:255:1");
    assert_eq!(file.header().geometry().dimensions(), &vec![255, 255]);
    let (fits_bytes, bitpix) = xisf_data_to_fits(&file);
    assert_eq!(bitpix, -32);
    assert_eq!(fits_bytes.len(), payload.len());
    // The IEEE-754 bit pattern is kept, re-emitted big-endian.
    assert_eq!(&fits_bytes[4..8], (1.0f32 * 0.5).to_be_bytes().as_slice());
}

#[test]
fn test_xisf_read_gray_float64_file() {
    let mut payload: Vec<u8> = Vec::new();
    for i in 0..(255 * 255u32) {
        payload.extend_from_slice(&(f64::from(i) * 0.25).to_le_bytes());
    }
    let xml = format!(
        "<Image geometry=\"255:255:1\" sampleFormat=\"Float64\" colorSpace=\"Gray\" \
         location=\"attachment:{}:{}\"></Image>",
        ATTACH_START,
        payload.len(),
    );
    let buffer = build_xisf(&xml, &payload);
    let file = XISFile::from_bytes(&buffer).unwrap();
    assert_eq!(file.header().sample_format(), XISFSampleFormat::Float64);
    assert_eq!(file.header().geometry().to_text(), "255:255:1");
    assert_eq!(file.header().geometry().dimensions(), &vec![255, 255]);
    let (fits_bytes, bitpix) = xisf_data_to_fits(&file);
    assert_eq!(bitpix, -64);
    assert_eq!(&fits_bytes[8..16], (0.25f64).to_be_bytes().as_slice());
}

#[test]
fn test_xisf_read_keywords() {
    let payload = [1u8, 2, 3, 4];
    let xml = format!(
        "<xisf><Image geometry=\"2:2:1\" sampleFormat=\"UInt8\" colorSpace=\"Gray\" \
         location=\"attachment:{}:{}\"><FITSKeyword name=\"OBSERVER\" value=\"'Someone'\" \
         comment=\"who looked\"></FITSKeyword><FITSKeyword name=\"HISTORY\" value=\"\" \
         comment=\"first light\"></FITSKeyword></Image></xisf>",
        ATTACH_START,
        payload.len(),
    );
    let buffer = build_xisf(&xml, &payload);
    let file = XISFile::from_bytes(&buffer).unwrap();
    assert_eq!(file.keywords().len(), 2);
    assert_eq!(file.keywords()[0].name, "OBSERVER");
    assert_eq!(file.keywords()[0].value, "'Someone'");
    assert_eq!(file.keywords()[0].comment, "who looked");
    assert_eq!(file.keywords()[1].name, "HISTORY");
    assert_eq!(file.keywords()[1].comment, "first light");
}

#[test]
fn test_bad_signature_is_format_error() {
    // Any value other than the expected magic fails before metadata parsing.
    let payload = [0u8; 4];
    let xml = format!(
        "<Image geometry=\"2:2:1\" sampleFormat=\"UInt8\" colorSpace=\"Gray\" \
         location=\"attachment:{}:{}\"></Image>",
        ATTACH_START,
        payload.len(),
    );
    let mut buffer = build_xisf(&xml, &payload);
    buffer[0] = b'Y';
    match XISFile::from_bytes(&buffer) {
        Err(XISFError::Format(_)) => {}
        other => panic!("expected a format error, got {:?}", other.is_ok()),
    }
    // A buffer too short to hold the signature fails the same way.
    match XISFile::from_bytes(&[1, 2, 3]) {
        Err(XISFError::Format(_)) => {}
        other => panic!("expected a format error, got {:?}", other.is_ok()),
    }
}

#[test]
fn test_decompressed_size_mismatch_is_integrity_error() {
    let raw = vec![7u8; 200];
    let compressed = zlib_compress(&raw);
    // Declare a wrong uncompressed size: decompression succeeds but the
    // length check must fail with an integrity error.
    let xml = format!(
        "<Image geometry=\"10:10:2\" sampleFormat=\"UInt8\" colorSpace=\"Gray\" \
         location=\"attachment:{}:{}\" compression=\"zlib:150\"></Image>",
        ATTACH_START,
        compressed.len(),
    );
    let buffer = build_xisf(&xml, &compressed);
    match XISFile::from_bytes(&buffer) {
        Err(XISFError::Integrity { expected, actual }) => {
            assert_eq!(expected, 150);
            assert_eq!(actual, 200);
        }
        other => panic!("expected an integrity error, got {:?}", other.is_ok()),
    }
}

#[test]
fn test_unknown_codec_is_format_error() {
    let payload = [0u8; 8];
    let xml = format!(
        "<Image geometry=\"2:2:2\" sampleFormat=\"UInt8\" colorSpace=\"Gray\" \
         location=\"attachment:{}:{}\" compression=\"bzip2:8\"></Image>",
        ATTACH_START,
        payload.len(),
    );
    let buffer = build_xisf(&xml, &payload);
    assert!(matches!(XISFile::from_bytes(&buffer), Err(XISFError::Format(_))));
}

#[test]
fn test_lz4hc_codec_is_unsupported_error() {
    let payload = [0u8; 8];
    let xml = format!(
        "<Image geometry=\"2:2:2\" sampleFormat=\"UInt8\" colorSpace=\"Gray\" \
         location=\"attachment:{}:{}\" compression=\"lz4hc:8\"></Image>",
        ATTACH_START,
        payload.len(),
    );
    let buffer = build_xisf(&xml, &payload);
    assert!(matches!(XISFile::from_bytes(&buffer), Err(XISFError::Unsupported(_))));
}

#[test]
fn test_unknown_sample_format_is_format_error() {
    let payload = [0u8; 8];
    let xml = format!(
        "<Image geometry=\"2:2:2\" sampleFormat=\"Int48\" colorSpace=\"Gray\" \
         location=\"attachment:{}:{}\"></Image>",
        ATTACH_START,
        payload.len(),
    );
    let buffer = build_xisf(&xml, &payload);
    assert!(matches!(XISFile::from_bytes(&buffer), Err(XISFError::Format(_))));
}

#[test]
fn test_missing_geometry_is_format_error() {
    let xml = "<Image sampleFormat=\"UInt8\" colorSpace=\"Gray\"></Image>";
    let buffer = build_xisf(xml, &[]);
    assert!(matches!(XISFile::from_bytes(&buffer), Err(XISFError::Format(_))));
}

#[test]
fn test_malformed_geometry_is_format_error() {
    let xml = "<Image geometry=\"2:x:1\" sampleFormat=\"UInt8\"></Image>";
    let buffer = build_xisf(xml, &[]);
    assert!(matches!(XISFile::from_bytes(&buffer), Err(XISFError::Format(_))));
}

#[test]
fn test_unattached_pixels_leave_data_empty() {
    // A location method other than `attachment` skips the pixel stage
    // gracefully: a header-only result, not an error.
    let xml = "<Image geometry=\"2:2:1\" sampleFormat=\"UInt8\" colorSpace=\"Gray\" \
               location=\"external:0:4\"></Image>";
    let buffer = build_xisf(xml, &[9, 9, 9, 9]);
    let file = XISFile::from_bytes(&buffer).unwrap();
    assert!(matches!(file.data(), XISFData::Empty));
    assert_eq!(file.data().sample_format(), None);
    assert_eq!(file.header().location_method(), "external");
}

#[test]
fn test_out_of_range_attachment_leaves_data_empty() {
    // The declared range exceeds the file size: the pixel stage is skipped.
    let xml = format!(
        "<Image geometry=\"2:2:1\" sampleFormat=\"UInt8\" colorSpace=\"Gray\" \
         location=\"attachment:{}:4000\"></Image>",
        ATTACH_START,
    );
    let buffer = build_xisf(&xml, &[1, 2, 3, 4]);
    let file = XISFile::from_bytes(&buffer).unwrap();
    assert!(matches!(file.data(), XISFData::Empty));
}

#[test]
fn test_preamble_fields_are_read_little_endian() {
    let payload = [1u8, 2, 3, 4];
    let xml = format!(
        "<Image geometry=\"4:1:1\" sampleFormat=\"UInt8\" colorSpace=\"Gray\" \
         location=\"attachment:{}:{}\"></Image>",
        ATTACH_START,
        payload.len(),
    );
    let buffer = build_xisf(&xml, &payload);
    let file = XISFile::from_bytes(&buffer).unwrap();
    assert_eq!(file.header().signature(), "XISF0100");
    assert_eq!(file.header().length(), XML_LEN as u32);
    assert_eq!(file.header().reserved(), 0);
    assert_eq!(file.header().location_start(), ATTACH_START as u64);
    assert_eq!(file.header().location_length(), payload.len() as u64);
    assert_eq!(file.header().channel_size(), 4);
}

#[test]
fn test_short_payload_yields_fewer_channels() {
    // Channels are cut as whole windows only: a payload too short for even
    // one window yields no channels, and a partial second window is dropped.
    let xml = format!(
        "<Image geometry=\"2:2:1\" sampleFormat=\"UInt8\" colorSpace=\"Gray\" \
         location=\"attachment:{}:3\"></Image>",
        ATTACH_START,
    );
    let buffer = build_xisf(&xml, &[1, 2, 3]);
    let file = XISFile::from_bytes(&buffer).unwrap();
    match file.data() {
        XISFData::UInt8(ch) => assert_eq!(ch.len(), 0),
        other => panic!("unexpected data kind: {:?}", other.sample_format()),
    }

    let xml = format!(
        "<Image geometry=\"2:2:2\" sampleFormat=\"UInt8\" colorSpace=\"Gray\" \
         location=\"attachment:{}:6\"></Image>",
        ATTACH_START,
    );
    let buffer = build_xisf(&xml, &[1, 2, 3, 4, 5, 6]);
    let file = XISFile::from_bytes(&buffer).unwrap();
    match file.data() {
        XISFData::UInt8(ch) => {
            assert_eq!(ch.len(), 1);
            assert_eq!(ch[0], vec![1, 2, 3, 4]);
        }
        other => panic!("unexpected data kind: {:?}", other.sample_format()),
    }
}

#[test]
fn test_compression_without_size_is_format_error() {
    let payload = [0u8; 8];
    let xml = format!(
        "<Image geometry=\"2:2:2\" sampleFormat=\"UInt8\" colorSpace=\"Gray\" \
         location=\"attachment:{}:{}\" compression=\"zlib\"></Image>",
        ATTACH_START,
        payload.len(),
    );
    let buffer = build_xisf(&xml, &payload);
    assert!(matches!(XISFile::from_bytes(&buffer), Err(XISFError::Format(_))));
}

#[test]
fn test_xisf_read_rgb_32bit_file() {
    let mut payload: Vec<u8> = Vec::new();
    for i in 0..(3 * 65536u32) {
        payload.extend_from_slice(&(i.wrapping_mul(2654435761)).to_le_bytes());
    }
    let xml = format!(
        "<Image geometry=\"256:256:3\" sampleFormat=\"UInt32\" colorSpace=\"RGB\" \
         location=\"attachment:{}:{}\"></Image>",
        ATTACH_START,
        payload.len(),
    );
    let buffer = build_xisf(&xml, &payload);
    let file = XISFile::from_bytes(&buffer).unwrap();
    assert_eq!(file.header().sample_format(), XISFSampleFormat::UInt32);
    assert_eq!(file.header().geometry().to_text(), "256:256:3");
    match file.data() {
        XISFData::UInt32(ch) => {
            assert_eq!(ch.len(), 3);
            assert_eq!(ch[0].len(), 65536);
            assert_eq!(ch[0][1], 2654435761u32);
        }
        other => panic!("unexpected data kind: {:?}", other.sample_format()),
    }
    let (fits_bytes, bitpix) = xisf_data_to_fits(&file);
    assert_eq!(bitpix, 32);
    assert_eq!(fits_bytes.len(), payload.len());
    // Every big-endian sample is clamped into the signed range.
    for quad in fits_bytes.chunks(4) {
        let v = u32::from_be_bytes([quad[0], quad[1], quad[2], quad[3]]);
        assert!(v <= 0x7fff_ffff);
    }
}

#[test]
fn test_xisf_read_zlibsh_file() {
    let mut raw: Vec<u8> = Vec::new();
    for i in 0..65536u32 {
        raw.extend_from_slice(&((i % 4096) as u16).to_le_bytes());
    }
    let compressed = zlib_compress(&shuffle(&raw, 2));
    let xml = format!(
        "<Image geometry=\"256:256:1\" sampleFormat=\"UInt16\" colorSpace=\"Gray\" \
         location=\"attachment:{}:{}\" compression=\"zlib+sh:{}\"></Image>",
        ATTACH_START,
        compressed.len(),
        raw.len(),
    );
    let buffer = build_xisf(&xml, &compressed);
    let file = XISFile::from_bytes(&buffer).unwrap();
    assert_eq!(file.header().sample_format(), XISFSampleFormat::UInt16);
    assert_eq!(file.header().geometry().to_text(), "256:256:1");
    assert_eq!(file.header().compression_codec(), "zlib+sh");
    match file.data() {
        XISFData::UInt16(ch) => {
            assert_eq!(ch.len(), 1);
            assert_eq!(ch[0].len(), 65536);
            assert_eq!(ch[0][5000], (5000 % 4096) as u16);
        }
        other => panic!("unexpected data kind: {:?}", other.sample_format()),
    }
}

#[test]
fn test_xisf_read_lz4_corrupt_stream_is_format_error() {
    // The lz4 codec is dispatched, and a stream the decoder cannot read is
    // a format error, not a silent pass-through.
    let garbage = [0xffu8; 64];
    let xml = format!(
        "<Image geometry=\"4:4:1\" sampleFormat=\"UInt16\" colorSpace=\"Gray\" \
         location=\"attachment:{}:{}\" compression=\"lz4:32\"></Image>",
        ATTACH_START,
        garbage.len(),
    );
    let buffer = build_xisf(&xml, &garbage);
    assert!(matches!(XISFile::from_bytes(&buffer), Err(XISFError::Format(_))));
}

#[test]
fn test_xisf_read_lz4_file() {
    let mut raw: Vec<u8> = Vec::new();
    for i in 0..65536u32 {
        raw.extend_from_slice(&((i % 512) as u16).to_le_bytes());
    }
    let mut encoder = lz4_flex::frame::FrameEncoder::new(Vec::new());
    encoder.write_all(&raw).unwrap();
    let compressed = encoder.finish().unwrap();
    let xml = format!(
        "<Image geometry=\"256:256:1\" sampleFormat=\"UInt16\" colorSpace=\"Gray\" \
         location=\"attachment:{}:{}\" compression=\"lz4:{}\"></Image>",
        ATTACH_START,
        compressed.len(),
        raw.len(),
    );
    let buffer = build_xisf(&xml, &compressed);
    let file = XISFile::from_bytes(&buffer).unwrap();
    assert_eq!(file.header().sample_format(), XISFSampleFormat::UInt16);
    assert_eq!(file.header().geometry().to_text(), "256:256:1");
    assert_eq!(file.header().compression_codec(), "lz4");
    match file.data() {
        XISFData::UInt16(ch) => {
            assert_eq!(ch.len(), 1);
            assert_eq!(ch[0].len(), 65536);
            assert_eq!(ch[0][700], (700 % 512) as u16);
        }
        other => panic!("unexpected data kind: {:?}", other.sample_format()),
    }
}

#[test]
fn test_unimplemented_sample_format_is_unsupported_error() {
    // UInt64 is a recognized format name, but the channel decoder does not
    // implement it: with a readable attachment this is an unsupported-feature
    // error, not a format error.
    let payload = [0u8; 64];
    let xml = format!(
        "<Image geometry=\"2:2:2\" sampleFormat=\"UInt64\" colorSpace=\"Gray\" \
         location=\"attachment:{}:{}\"></Image>",
        ATTACH_START,
        payload.len(),
    );
    let buffer = build_xisf(&xml, &payload);
    assert!(matches!(XISFile::from_bytes(&buffer), Err(XISFError::Unsupported(_))));
}
