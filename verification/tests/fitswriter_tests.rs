use xisfits::fitswriter::{
    fits_write_data, fits_write_data_keywords, fits_write_header, fits_write_header_comment,
    fits_write_header_i64, fits_write_header_string, fits_write_header_u64,
    fits_write_image_data, FITSKeyword, FitsHeaderData,
};

fn empty_header_data(data_bytes: Vec<u8>) -> FitsHeaderData {
    FitsHeaderData {
        bitpix: 8,
        naxis: 2,
        naxis_vec: vec![2, 2],
        bzero: 0,
        bscale: 1,
        datamin: 0,
        datamax: 0,
        history: Vec::new(),
        comment: Vec::new(),
        data_bytes,
    }
}

#[test]
fn test_header_card_is_80_bytes() {
    let mut fits: Vec<u8> = Vec::new();
    let mut bytes: u64 = 0;
    fits_write_header(&mut fits, "COMMENT this card is short", &mut bytes);
    assert_eq!(fits.len(), 80);
    assert_eq!(bytes, 80);
    // Over-long text is cut at exactly 80 bytes.
    let long = "X".repeat(200);
    fits_write_header(&mut fits, &long, &mut bytes);
    assert_eq!(fits.len(), 160);
    assert_eq!(&fits[80..160], "X".repeat(80).as_bytes());
}

#[test]
fn test_header_value_cards_match_fixed_layout() {
    let mut fits: Vec<u8> = Vec::new();
    let mut bytes: u64 = 0;
    fits_write_header_string(&mut fits, "SIMPLE", "T", "", &mut bytes);
    fits_write_header_i64(&mut fits, "BITPIX", -32, "", &mut bytes);
    fits_write_header_u64(&mut fits, "NAXIS", 2, "axes", &mut bytes);
    fits_write_header_comment(&mut fits, "HISTORY", "converted image", &mut bytes);
    assert_eq!(fits.len(), 320);
    let expected_simple = format!("{:8} = {:<19} / {:47}", "SIMPLE", "T", "");
    assert_eq!(&fits[0..80], expected_simple.as_bytes());
    let expected_bitpix = format!("{:8} = {:<19} / {:47}", "BITPIX", -32, "");
    assert_eq!(&fits[80..160], expected_bitpix.as_bytes());
    let expected_naxis = format!("{:8} = {:<19} / {:47}", "NAXIS", 2, "axes");
    assert_eq!(&fits[160..240], expected_naxis.as_bytes());
    let expected_history = format!("{:8}{:72}", "HISTORY", "converted image");
    assert_eq!(&fits[240..320], expected_history.as_bytes());
}

#[test]
fn test_data_unit_padded_to_block() {
    // 100 data bytes pad up to one 2880-byte block.
    let mut fits: Vec<u8> = Vec::new();
    fits_write_image_data(&mut fits, &empty_header_data(vec![7u8; 100]), 0);
    assert_eq!(fits.len(), 2880);
    assert_eq!(&fits[0..100], vec![7u8; 100].as_slice());
    assert_eq!(&fits[100..], vec![0u8; 2780].as_slice());

    // A whole block stays a whole block.
    let mut fits: Vec<u8> = Vec::new();
    fits_write_image_data(&mut fits, &empty_header_data(vec![1u8; 2880]), 0);
    assert_eq!(fits.len(), 2880);

    // One byte over a block pads to two blocks.
    let mut fits: Vec<u8> = Vec::new();
    fits_write_image_data(&mut fits, &empty_header_data(vec![1u8; 2881]), 0);
    assert_eq!(fits.len(), 5760);
}

#[test]
fn test_fits_write_data_synthesized_header() {
    let hd = empty_header_data(vec![9u8; 4]);
    let fits = fits_write_data(&hd);
    // One header block plus one data block.
    assert_eq!(fits.len(), 5760);
    assert_eq!(fits.len() % 2880, 0);
    let expected_simple = format!("{:8} = {:<19} / {:47}", "SIMPLE", "T", "");
    assert_eq!(&fits[0..80], expected_simple.as_bytes());
    let expected_bitpix = format!("{:8} = {:<19} / {:47}", "BITPIX", 8, "");
    assert_eq!(&fits[80..160], expected_bitpix.as_bytes());
    let expected_naxis1 = format!("{:8} = {:<19} / {:47}", "NAXIS1", 2, "");
    assert_eq!(&fits[240..320], expected_naxis1.as_bytes());
    let expected_naxis2 = format!("{:8} = {:<19} / {:47}", "NAXIS2", 2, "");
    assert_eq!(&fits[320..400], expected_naxis2.as_bytes());
    let expected_end = format!("{:80}", "END");
    assert_eq!(&fits[640..720], expected_end.as_bytes());
    // The rest of the header block is space filler.
    assert!(fits[720..2880].iter().all(|b| *b == b' '));
    // The data unit starts at the next block boundary.
    assert_eq!(&fits[2880..2884], &[9u8, 9, 9, 9]);
    assert!(fits[2884..].iter().all(|b| *b == 0));
}

#[test]
fn test_fits_write_data_keywords_header() {
    let hd = empty_header_data(vec![5u8; 10]);
    let keywords = vec![
        FITSKeyword {
            name: "SIMPLE".to_string(),
            value: "T".to_string(),
            comment: "conforms".to_string(),
        },
        FITSKeyword {
            name: "HISTORY".to_string(),
            value: String::new(),
            comment: "made by hand".to_string(),
        },
        FITSKeyword {
            name: "COMMENT".to_string(),
            value: String::new(),
            comment: "a remark".to_string(),
        },
    ];
    let fits = fits_write_data_keywords(&hd, &keywords);
    assert_eq!(fits.len(), 5760);
    let expected_simple = format!("{:8} = {:<19} / {:47}", "SIMPLE", "T", "conforms");
    assert_eq!(&fits[0..80], expected_simple.as_bytes());
    // HISTORY and COMMENT records become comment-only cards with no value
    // separator.
    let expected_history = format!("{:8}{:72}", "HISTORY", "made by hand");
    assert_eq!(&fits[80..160], expected_history.as_bytes());
    let expected_comment = format!("{:8}{:72}", "COMMENT", "a remark");
    assert_eq!(&fits[160..240], expected_comment.as_bytes());
    let expected_end = format!("{:80}", "END");
    assert_eq!(&fits[240..320], expected_end.as_bytes());
    assert_eq!(&fits[2880..2890], vec![5u8; 10].as_slice());
}
