//! FITS output rendering: fixed 80-byte header cards, header and data units
//! padded to 2880-byte blocks, and the two header layouts (a synthesized
//! minimal card set, or pass-through keyword records).

use crate::text::{dec_bytes, dec_bytes_signed, i64_to_dec_bytes, u64_to_dec_bytes};
use vstd::prelude::*;
use vstd::string::StringSliceAdditionalSpecFns;

verus! {

/// ASCII space, the filler byte of header blocks.
pub const SPACE: u8 = 32;

/// Size of one FITS header card in bytes.
pub const CARD_LEN: usize = 80;

/// Size of one FITS block in bytes; header and data units are both padded
/// to a multiple of this.
pub const BLOCK_LEN: usize = 2880;

/// Header fields carried over from the source image, plus the rendered data
/// unit bytes.
pub struct FitsHeaderData {
    pub bitpix: i64,
    pub naxis: u64,
    pub naxis_vec: Vec<u64>,
    pub bzero: u64,
    pub bscale: u64,
    pub datamin: u64,
    pub datamax: u64,
    pub history: Vec<String>,
    pub comment: Vec<String>,
    pub data_bytes: Vec<u8>,
}

/// One keyword record carried through from the source header.
#[derive(Debug)]
pub struct FITSKeyword {
    pub name: String,
    pub value: String,
    pub comment: String,
}

/// The UTF-8 bytes of an owned string, as they leave `as_bytes`.
pub open spec fn string_bytes(s: String) -> Seq<u8> {
    vstd::utf8::encode_utf8(s@)
}

/// `n` copies of one byte.
pub open spec fn byte_run(b: u8, n: int) -> Seq<u8> {
    if n >= 0 {
        Seq::new(n as nat, |i: int| b)
    } else {
        Seq::empty()
    }
}

/// Extend a field with trailing spaces up to a minimum width; a longer field
/// is kept whole.
pub open spec fn ext_field(s: Seq<u8>, w: int) -> Seq<u8> {
    if s.len() >= w {
        s
    } else {
        s + byte_run(SPACE, w - s.len())
    }
}

/// Cut or pad a field to exactly `w` bytes.
pub open spec fn fit_field(s: Seq<u8>, w: int) -> Seq<u8> {
    if s.len() >= w {
        s.take(w)
    } else {
        s + byte_run(SPACE, w - s.len())
    }
}

/// A whole 80-byte card holding free text.
pub open spec fn card_text(s: Seq<u8>) -> Seq<u8> {
    fit_field(s, CARD_LEN as int)
}

/// A keyword/value/comment card: the keyword in an 8-byte field, ` = `, the
/// value in a 19-byte field, ` / `, and the comment filling the rest of the
/// 80 bytes.
pub open spec fn card_kv(name: Seq<u8>, value: Seq<u8>, comment: Seq<u8>) -> Seq<u8> {
    fit_field(
        ext_field(name, 8) + seq![SPACE, 61u8, SPACE] + ext_field(value, 19) + seq![
            SPACE,
            47u8,
            SPACE,
        ] + comment,
        CARD_LEN as int,
    )
}

/// A comment-only card: the keyword in an 8-byte field followed directly by
/// the comment, with no value separator.
pub open spec fn card_comment(name: Seq<u8>, comment: Seq<u8>) -> Seq<u8> {
    fit_field(ext_field(name, 8) + comment, CARD_LEN as int)
}

/// Filler needed to reach the next multiple of the FITS block size.
pub open spec fn block_pad_len(n: int) -> int {
    (BLOCK_LEN as int - n % (BLOCK_LEN as int)) % (BLOCK_LEN as int)
}

/// A data unit: the raw bytes zero-padded to a whole number of blocks.
pub open spec fn data_unit(d: Seq<u8>) -> Seq<u8> {
    d + byte_run(0, block_pad_len(d.len() as int))
}

/// A header unit: the card bytes space-padded to a whole number of blocks.
pub open spec fn header_unit(cards: Seq<u8>) -> Seq<u8> {
    cards + byte_run(SPACE, block_pad_len(cards.len() as int))
}

/// Every fitted field has exactly the requested width.
pub proof fn lemma_fit_field_len(s: Seq<u8>, w: int)
    requires
        0 <= w,
    ensures
        fit_field(s, w).len() == w,
{
}

/// Every header card is exactly 80 bytes long, whichever of the card forms
/// produced it.
pub proof fn lemma_card_len(name: Seq<u8>, value: Seq<u8>, comment: Seq<u8>, text: Seq<u8>)
    ensures
        card_kv(name, value, comment).len() == CARD_LEN,
        card_comment(name, comment).len() == CARD_LEN,
        card_text(text).len() == CARD_LEN,
{
}

/// Both padded units always span a whole number of 2880-byte blocks.
pub proof fn lemma_units_block_aligned(cards: Seq<u8>, d: Seq<u8>)
    ensures
        header_unit(cards).len() as int % (BLOCK_LEN as int) == 0,
        data_unit(d).len() as int % (BLOCK_LEN as int) == 0,
{
}

/// Append a field extended with spaces to at least `w` bytes.
fn push_ext_field(out: &mut Vec<u8>, s: &[u8], w: usize)
    ensures
        final(out)@ == old(out)@ + ext_field(s@, w as int),
{
    out.extend_from_slice(s);
    proof {
        assert(out@ =~= old(out)@ + s@ + byte_run(SPACE, 0));
    }
    let mut n: usize = s.len();
    while n < w
        invariant
            s@.len() <= n,
            n <= w || n == s@.len(),
            out@ == old(out)@ + s@ + byte_run(SPACE, n - s@.len()),
        decreases w - n,
    {
        out.push(SPACE);
        n = n + 1;
        proof {
            assert(out@ =~= old(out)@ + s@ + byte_run(SPACE, n - s@.len()));
        }
    }
    proof {
        assert(out@ =~= old(out)@ + ext_field(s@, w as int));
    }
}

/// Append a card body cut or padded to exactly 80 bytes.
fn push_card_bytes(out: &mut Vec<u8>, card: &[u8])
    ensures
        final(out)@ == old(out)@ + card_text(card@),
        final(out)@.len() == old(out)@.len() + CARD_LEN,
{
    if card.len() >= CARD_LEN {
        let head = vstd::slice::slice_subrange(card, 0, CARD_LEN);
        out.extend_from_slice(head);
        proof {
            assert(out@ =~= old(out)@ + card_text(card@));
        }
    } else {
        push_ext_field(out, card, CARD_LEN);
        proof {
            assert(out@ =~= old(out)@ + card_text(card@));
        }
    }
    proof {
        lemma_fit_field_len(card@, CARD_LEN as int);
    }
}

/// Build the body of a keyword/value/comment card.
fn build_kv_card(name: &[u8], value: &[u8], comment: &[u8]) -> (r: Vec<u8>)
    ensures
        card_text(r@) == card_kv(name@, value@, comment@),
{
    let mut card: Vec<u8> = Vec::new();
    push_ext_field(&mut card, name, 8);
    card.push(SPACE);
    card.push(61);
    card.push(SPACE);
    push_ext_field(&mut card, value, 19);
    card.push(SPACE);
    card.push(47);
    card.push(SPACE);
    card.extend_from_slice(comment);
    proof {
        assert(card@ =~= ext_field(name@, 8) + seq![SPACE, 61u8, SPACE] + ext_field(value@, 19)
            + seq![SPACE, 47u8, SPACE] + comment@);
    }
    card
}

/// Write one header card: the text is cut at 80 bytes and padded with
/// spaces to exactly 80, and the running byte count advances by 80.
pub fn fits_write_header(fits: &mut Vec<u8>, string: &str, bytes: &mut u64)
    requires
        *old(bytes) + CARD_LEN <= u64::MAX,
    ensures
        final(fits)@ == old(fits)@ + card_text(string.spec_bytes()),
        final(fits)@.len() == old(fits)@.len() + CARD_LEN,
        *final(bytes) == *old(bytes) + CARD_LEN,
{
    let sb = string.as_bytes();
    push_card_bytes(fits, sb);
    *bytes = *bytes + CARD_LEN as u64;
}

/// Write a keyword card with an unsigned numeric value.
pub fn fits_write_header_u64(
    fits: &mut Vec<u8>,
    header: &str,
    value: u64,
    comment: &str,
    bytes: &mut u64,
)
    requires
        *old(bytes) + CARD_LEN <= u64::MAX,
    ensures
        final(fits)@ == old(fits)@ + card_kv(
            header.spec_bytes(),
            dec_bytes(value as int),
            comment.spec_bytes(),
        ),
        final(fits)@.len() == old(fits)@.len() + CARD_LEN,
        *final(bytes) == *old(bytes) + CARD_LEN,
{
    let digits = u64_to_dec_bytes(value);
    let card = build_kv_card(header.as_bytes(), digits.as_slice(), comment.as_bytes());
    push_card_bytes(fits, card.as_slice());
    *bytes = *bytes + CARD_LEN as u64;
}

/// Write a keyword card with a signed numeric value.
pub fn fits_write_header_i64(
    fits: &mut Vec<u8>,
    header: &str,
    value: i64,
    comment: &str,
    bytes: &mut u64,
)
    requires
        *old(bytes) + CARD_LEN <= u64::MAX,
    ensures
        final(fits)@ == old(fits)@ + card_kv(
            header.spec_bytes(),
            dec_bytes_signed(value as int),
            comment.spec_bytes(),
        ),
        final(fits)@.len() == old(fits)@.len() + CARD_LEN,
        *final(bytes) == *old(bytes) + CARD_LEN,
{
    let digits = i64_to_dec_bytes(value);
    let card = build_kv_card(header.as_bytes(), digits.as_slice(), comment.as_bytes());
    push_card_bytes(fits, card.as_slice());
    *bytes = *bytes + CARD_LEN as u64;
}

/// Write a keyword card with a string value.
pub fn fits_write_header_string(
    fits: &mut Vec<u8>,
    header: &str,
    value: &str,
    comment: &str,
    bytes: &mut u64,
)
    requires
        *old(bytes) + CARD_LEN <= u64::MAX,
    ensures
        final(fits)@ == old(fits)@ + card_kv(
            header.spec_bytes(),
            value.spec_bytes(),
            comment.spec_bytes(),
        ),
        final(fits)@.len() == old(fits)@.len() + CARD_LEN,
        *final(bytes) == *old(bytes) + CARD_LEN,
{
    let card = build_kv_card(header.as_bytes(), value.as_bytes(), comment.as_bytes());
    push_card_bytes(fits, card.as_slice());
    *bytes = *bytes + CARD_LEN as u64;
}

/// Write a comment-only card, with no value separator.
pub fn fits_write_header_comment(fits: &mut Vec<u8>, header: &str, comment: &str, bytes: &mut u64)
    requires
        *old(bytes) + CARD_LEN <= u64::MAX,
    ensures
        final(fits)@ == old(fits)@ + card_comment(header.spec_bytes(), comment.spec_bytes()),
        final(fits)@.len() == old(fits)@.len() + CARD_LEN,
        *final(bytes) == *old(bytes) + CARD_LEN,
{
    let mut card: Vec<u8> = Vec::new();
    push_ext_field(&mut card, header.as_bytes(), 8);
    card.extend_from_slice(comment.as_bytes());
    proof {
        assert(card@ =~= ext_field(header.spec_bytes(), 8) + comment.spec_bytes());
    }
    push_card_bytes(fits, card.as_slice());
    *bytes = *bytes + CARD_LEN as u64;
}

/// Write a bare keyword card such as the END terminator.
pub fn fits_write_header_no_comment(fits: &mut Vec<u8>, header: &str, bytes: &mut u64)
    requires
        *old(bytes) + CARD_LEN <= u64::MAX,
    ensures
        final(fits)@ == old(fits)@ + card_text(header.spec_bytes()),
        final(fits)@.len() == old(fits)@.len() + CARD_LEN,
        *final(bytes) == *old(bytes) + CARD_LEN,
{
    fits_write_header(fits, header, bytes);
}

/// Append filler bytes up to the next multiple of the FITS block size.
fn push_block_pad(out: &mut Vec<u8>, filler: u8)
    ensures
        final(out)@ == old(out)@ + byte_run(filler, block_pad_len(old(out)@.len() as int)),
        final(out)@.len() as int % (BLOCK_LEN as int) == 0,
{
    let rest: usize = out.len() % BLOCK_LEN;
    if rest > 0 {
        let pad: usize = BLOCK_LEN - rest;
        let mut i: usize = 0;
        while i < pad
            invariant
                i <= pad,
                pad == block_pad_len(old(out)@.len() as int),
                out@ == old(out)@ + byte_run(filler, i as int),
            decreases pad - i,
        {
            out.push(filler);
            i = i + 1;
            proof {
                assert(out@ =~= old(out)@ + byte_run(filler, i as int));
            }
        }
    } else {
        proof {
            assert(out@ =~= old(out)@ + byte_run(filler, 0));
        }
    }
}

/// Write the data unit: the raw data bytes, zero-padded to a whole number
/// of blocks.
pub fn fits_write_image_data(fits: &mut Vec<u8>, fits_hd: &FitsHeaderData, _bytes: u64)
    requires
        old(fits)@.len() as int % (BLOCK_LEN as int) == 0,
    ensures
        final(fits)@ == old(fits)@ + data_unit(fits_hd.data_bytes@),
        final(fits)@.len() as int % (BLOCK_LEN as int) == 0,
{
    fits.extend_from_slice(fits_hd.data_bytes.as_slice());
    proof {
        assert(fits@ =~= old(fits)@ + fits_hd.data_bytes@);
        assert(fits@.len() as int % (BLOCK_LEN as int) == fits_hd.data_bytes@.len() as int % (
        BLOCK_LEN as int));
    }
    push_block_pad(fits, 0);
    proof {
        assert(fits@ =~= old(fits)@ + data_unit(fits_hd.data_bytes@));
    }
}

/// The NAXISn cards for the axis lengths from position `i` on.
pub open spec fn naxis_cards(dims: Seq<u64>, i: int) -> Seq<u8>
    decreases dims.len() - i,
{
    if i < 0 || i >= dims.len() {
        Seq::empty()
    } else {
        card_kv(
            "NAXIS".spec_bytes() + dec_bytes(i + 1),
            dec_bytes(dims[i] as int),
            "".spec_bytes(),
        ) + naxis_cards(dims, i + 1)
    }
}

/// The synthesized minimal card set written when the source carries no
/// keyword records.
pub open spec fn synth_cards(hd: FitsHeaderData) -> Seq<u8> {
    card_kv("SIMPLE".spec_bytes(), "T".spec_bytes(), "".spec_bytes()) + card_kv(
        "BITPIX".spec_bytes(),
        dec_bytes_signed(hd.bitpix as int),
        "".spec_bytes(),
    ) + card_kv("NAXIS".spec_bytes(), dec_bytes(hd.naxis as int), "".spec_bytes()) + naxis_cards(
        hd.naxis_vec@,
        0,
    ) + card_kv("EXTEND".spec_bytes(), "T".spec_bytes(), "".spec_bytes()) + card_kv(
        "BZERO".spec_bytes(),
        "0".spec_bytes(),
        "".spec_bytes(),
    ) + card_kv("BSCALE".spec_bytes(), "1".spec_bytes(), "".spec_bytes()) + card_text(
        "END".spec_bytes(),
    )
}

/// The whole rendered FITS file for the synthesized-header layout.
pub open spec fn fits_file_bytes(hd: FitsHeaderData) -> Seq<u8> {
    header_unit(synth_cards(hd)) + data_unit(hd.data_bytes@)
}

/// Render a complete FITS file with the synthesized minimal header card
/// set followed by the padded data unit.
pub fn fits_write_data(fits_hd: &FitsHeaderData) -> (r: Vec<u8>)
    requires
        fits_hd.naxis_vec@.len() <= 0xff_ffff,
    ensures
        r@ == fits_file_bytes(*fits_hd),
        r@.len() as int % (BLOCK_LEN as int) == 0,
{
    let mut fits: Vec<u8> = Vec::new();
    let mut bytes: u64 = 0;

    fits_write_header_string(&mut fits, "SIMPLE", "T", "", &mut bytes);
    fits_write_header_i64(&mut fits, "BITPIX", fits_hd.bitpix, "", &mut bytes);
    fits_write_header_u64(&mut fits, "NAXIS", fits_hd.naxis, "", &mut bytes);
    let ghost prefix = fits@;
    proof {
        lemma_naxis_cards_len(fits_hd.naxis_vec@, 0);
        assert(naxis_cards(fits_hd.naxis_vec@, 0).take(0) =~= Seq::<u8>::empty());
        assert(fits@ =~= prefix + naxis_cards(fits_hd.naxis_vec@, 0).take(0));
    }
    let mut i: usize = 0;
    while i < fits_hd.naxis_vec.len()
        invariant
            i <= fits_hd.naxis_vec@.len(),
            fits_hd.naxis_vec@.len() <= 0xff_ffff,
            bytes == fits@.len(),
            fits@.len() == 240 + 80 * i,
            fits@ == prefix + naxis_cards(fits_hd.naxis_vec@, 0).take(80 * i),
            naxis_cards(fits_hd.naxis_vec@, 0).len() == 80 * fits_hd.naxis_vec@.len(),
        decreases fits_hd.naxis_vec@.len() - i,
    {
        proof {
            lemma_naxis_cards_len(fits_hd.naxis_vec@, i as int);
            lemma_naxis_cards_take(fits_hd.naxis_vec@, i as int);
        }
        let mut name: Vec<u8> = Vec::new();
        name.extend_from_slice("NAXIS".as_bytes());
        let mut idx_digits = u64_to_dec_bytes((i + 1) as u64);
        name.append(&mut idx_digits);
        proof {
            assert(name@ =~= "NAXIS".spec_bytes() + dec_bytes(i + 1));
        }
        let digits = u64_to_dec_bytes(fits_hd.naxis_vec[i]);
        let card = build_kv_card(name.as_slice(), digits.as_slice(), "".as_bytes());
        push_card_bytes(&mut fits, card.as_slice());
        bytes = bytes + CARD_LEN as u64;
        i = i + 1;
        proof {
            lemma_naxis_cards_take(fits_hd.naxis_vec@, i as int);
            assert(fits@ =~= prefix + naxis_cards(fits_hd.naxis_vec@, 0).take(80 * i));
        }
    }
    proof {
        assert(naxis_cards(fits_hd.naxis_vec@, 0).take(
            80 * fits_hd.naxis_vec@.len() as int,
        ) =~= naxis_cards(fits_hd.naxis_vec@, 0));
    }
    fits_write_header_string(&mut fits, "EXTEND", "T", "", &mut bytes);
    fits_write_header_string(&mut fits, "BZERO", "0", "", &mut bytes);
    fits_write_header_string(&mut fits, "BSCALE", "1", "", &mut bytes);
    fits_write_header_no_comment(&mut fits, "END", &mut bytes);
    proof {
        assert(fits@ =~= synth_cards(*fits_hd));
    }
    push_block_pad(&mut fits, SPACE);
    proof {
        assert(fits@ =~= header_unit(synth_cards(*fits_hd)));
    }
    fits_write_image_data(&mut fits, fits_hd, bytes);
    proof {
        assert(fits@ =~= fits_file_bytes(*fits_hd));
    }
    fits
}

/// The NAXISn card run covers eighty bytes per axis.
proof fn lemma_naxis_cards_len(dims: Seq<u64>, i: int)
    ensures
        0 <= i <= dims.len() ==> naxis_cards(dims, i).len() == 80 * (dims.len() - i),
    decreases dims.len() - i,
{
    if 0 <= i < dims.len() {
        lemma_naxis_cards_len(dims, i + 1);
    }
}

/// A prefix of the NAXISn card run splits at a card boundary.
proof fn lemma_naxis_cards_take(dims: Seq<u64>, i: int)
    requires
        0 <= i <= dims.len(),
    ensures
        naxis_cards(dims, 0).take(80 * i) + naxis_cards(dims, i) =~= naxis_cards(dims, 0),
    decreases i,
{
    lemma_naxis_cards_len(dims, 0);
    lemma_naxis_cards_len(dims, i);
    if i > 0 {
        lemma_naxis_cards_take(dims, i - 1);
        lemma_naxis_cards_len(dims, i - 1);
    }
}

/// The card run for the pass-through keyword records from position `i` on:
/// HISTORY and COMMENT records become comment-only cards, all others become
/// keyword/value/comment cards.
pub open spec fn keyword_cards(ks: Seq<FITSKeyword>, i: int) -> Seq<u8>
    decreases ks.len() - i,
{
    if i < 0 || i >= ks.len() {
        Seq::empty()
    } else {
        let k = ks[i];
        (if string_bytes(k.name) == "HISTORY".spec_bytes() || string_bytes(k.name)
            == "COMMENT".spec_bytes() {
            card_comment(string_bytes(k.name), string_bytes(k.comment))
        } else {
            card_kv(string_bytes(k.name), string_bytes(k.value), string_bytes(k.comment))
        }) + keyword_cards(ks, i + 1)
    }
}

/// The whole rendered FITS file for the pass-through keyword layout.
pub open spec fn fits_file_bytes_keywords(hd: FitsHeaderData, ks: Seq<FITSKeyword>) -> Seq<u8> {
    header_unit(keyword_cards(ks, 0) + card_text("END".spec_bytes())) + data_unit(hd.data_bytes@)
}

/// The keyword card run covers eighty bytes per record.
proof fn lemma_keyword_cards_len(ks: Seq<FITSKeyword>, i: int)
    ensures
        0 <= i <= ks.len() ==> keyword_cards(ks, i).len() == 80 * (ks.len() - i),
    decreases ks.len() - i,
{
    if 0 <= i < ks.len() {
        lemma_keyword_cards_len(ks, i + 1);
    }
}

/// A prefix of the keyword card run splits at a card boundary.
proof fn lemma_keyword_cards_take(ks: Seq<FITSKeyword>, i: int)
    requires
        0 <= i <= ks.len(),
    ensures
        keyword_cards(ks, 0).take(80 * i) + keyword_cards(ks, i) =~= keyword_cards(ks, 0),
    decreases i,
{
    lemma_keyword_cards_len(ks, 0);
    lemma_keyword_cards_len(ks, i);
    if i > 0 {
        lemma_keyword_cards_take(ks, i - 1);
        lemma_keyword_cards_len(ks, i - 1);
    }
}

/// Render a complete FITS file whose header holds the pass-through keyword
/// records verbatim, terminated by END, followed by the padded data unit.
pub fn fits_write_data_keywords(fits_hd: &FitsHeaderData, fits_keywords: &[FITSKeyword]) -> (r:
    Vec<u8>)
    requires
        fits_keywords@.len() <= 0xff_ffff,
    ensures
        r@ == fits_file_bytes_keywords(*fits_hd, fits_keywords@),
        r@.len() as int % (BLOCK_LEN as int) == 0,
{
    let mut fits: Vec<u8> = Vec::new();
    let mut bytes: u64 = 0;

    proof {
        lemma_keyword_cards_len(fits_keywords@, 0);
        assert(keyword_cards(fits_keywords@, 0).take(0) =~= Seq::<u8>::empty());
        assert(fits@ =~= keyword_cards(fits_keywords@, 0).take(0));
    }
    let mut i: usize = 0;
    while i < fits_keywords.len()
        invariant
            i <= fits_keywords@.len(),
            fits_keywords@.len() <= 0xff_ffff,
            bytes == fits@.len(),
            fits@.len() == 80 * i,
            fits@ == keyword_cards(fits_keywords@, 0).take(80 * i),
            keyword_cards(fits_keywords@, 0).len() == 80 * fits_keywords@.len(),
        decreases fits_keywords@.len() - i,
    {
        proof {
            lemma_keyword_cards_len(fits_keywords@, i as int);
            lemma_keyword_cards_take(fits_keywords@, i as int);
        }
        let keyword = &fits_keywords[i];
        let is_history = crate::text::bytes_eq(keyword.name.as_str().as_bytes(), "HISTORY".as_bytes());
        let is_comment = crate::text::bytes_eq(keyword.name.as_str().as_bytes(), "COMMENT".as_bytes());
        if is_history || is_comment {
            fits_write_header_comment(
                &mut fits,
                keyword.name.as_str(),
                keyword.comment.as_str(),
                &mut bytes,
            );
        } else {
            fits_write_header_string(
                &mut fits,
                keyword.name.as_str(),
                keyword.value.as_str(),
                keyword.comment.as_str(),
                &mut bytes,
            );
        }
        i = i + 1;
        proof {
            lemma_keyword_cards_take(fits_keywords@, i as int);
            assert(fits@ =~= keyword_cards(fits_keywords@, 0).take(80 * i));
        }
    }
    proof {
        assert(keyword_cards(fits_keywords@, 0).take(
            80 * fits_keywords@.len() as int,
        ) =~= keyword_cards(fits_keywords@, 0));
    }
    fits_write_header_no_comment(&mut fits, "END", &mut bytes);
    push_block_pad(&mut fits, SPACE);
    proof {
        assert(fits@ =~= header_unit(keyword_cards(fits_keywords@, 0) + card_text(
            "END".spec_bytes(),
        )));
    }
    fits_write_image_data(&mut fits, fits_hd, bytes);
    proof {
        assert(fits@ =~= fits_file_bytes_keywords(*fits_hd, fits_keywords@));
    }
    fits
}

} // verus!
