//! XISF container reading: the fixed binary preamble, the XML metadata
//! header, payload decompression and unshuffling, and the split of the
//! payload into typed per-channel sample buffers.

use crate::convert;
use crate::fitswriter::FITSKeyword;
use crate::text;
use vstd::prelude::*;
use vstd::string::StringSliceAdditionalSpecFns;

verus! {

/// ASCII colon, the separator of the geometry, location and compression
/// attribute grammars.
pub const COLON: u8 = 58;

/// Conversion failure, classified as the specification's error taxonomy
/// asks: malformed container data, a payload whose decompressed size does
/// not match the declared size, or a recognized but unimplemented feature.
#[derive(Debug)]
pub enum XISFError {
    /// Bad magic signature, malformed attribute, or unknown name.
    Format(String),
    /// Decompressed size does not match the declared uncompressed size.
    Integrity { expected: usize, actual: usize },
    /// Recognized but unimplemented codec or sample format.
    Unsupported(String),
}

impl XISFError {
    /// A human-readable description of the error: a prefix naming the error
    /// class, followed by the detail the variant carries.
    pub fn message(&self) -> (r: String)
        ensures
            self matches XISFError::Format(what) ==> r@ == "XISF format error: "@ + what@,
            self is Integrity ==> r@
                == "XISF integrity error: decompressed size does not match"@,
            self matches XISFError::Unsupported(what) ==> r@ == "XISF unsupported feature: "@
                + what@,
    {
        match self {
            XISFError::Format(what) => {
                let mut m = String::from_str("XISF format error: ");
                m.append(what.as_str());
                m
            },
            XISFError::Integrity { expected: _, actual: _ } => {
                String::from_str("XISF integrity error: decompressed size does not match")
            },
            XISFError::Unsupported(what) => {
                let mut m = String::from_str("XISF unsupported feature: ");
                m.append(what.as_str());
                m
            },
        }
    }
}

/// The sample formats a XISF image may declare.
#[derive(Debug, Clone, Copy, PartialEq, Eq, Structural)]
pub enum XISFSampleFormat {
    UInt8,
    UInt16,
    UInt32,
    UInt64,
    Float32,
    Float64,
    Complex32,
    Complex64,
}

impl XISFSampleFormat {
    /// The fixed byte width of one sample of this format.
    pub open spec fn spec_size(self) -> usize {
        match self {
            XISFSampleFormat::UInt8 => 1,
            XISFSampleFormat::UInt16 => 2,
            XISFSampleFormat::UInt32 => 4,
            XISFSampleFormat::UInt64 => 8,
            XISFSampleFormat::Float32 => 4,
            XISFSampleFormat::Float64 => 8,
            XISFSampleFormat::Complex32 => 8,
            XISFSampleFormat::Complex64 => 8,
        }
    }

    /// Gets the size of the XISF type, in bytes.
    pub fn size(self) -> (r: usize)
        ensures
            r == self.spec_size(),
            1 <= r <= 8,
    {
        match self {
            XISFSampleFormat::UInt8 => 1,
            XISFSampleFormat::UInt16 => 2,
            XISFSampleFormat::UInt32 => 4,
            XISFSampleFormat::UInt64 => 8,
            XISFSampleFormat::Float32 => 4,
            XISFSampleFormat::Float64 => 8,
            XISFSampleFormat::Complex32 => 8,
            XISFSampleFormat::Complex64 => 8,
        }
    }

    /// The canonical name of the format.
    pub open spec fn spec_name(self) -> Seq<char> {
        match self {
            XISFSampleFormat::UInt8 => "UInt8"@,
            XISFSampleFormat::UInt16 => "UInt16"@,
            XISFSampleFormat::UInt32 => "UInt32"@,
            XISFSampleFormat::UInt64 => "UInt64"@,
            XISFSampleFormat::Float32 => "Float32"@,
            XISFSampleFormat::Float64 => "Float64"@,
            XISFSampleFormat::Complex32 => "Complex32"@,
            XISFSampleFormat::Complex64 => "Complex64"@,
        }
    }

    /// Gets the XISF type as a string.
    pub fn as_str(self) -> (r: &'static str)
        ensures
            r@ == self.spec_name(),
    {
        match self {
            XISFSampleFormat::UInt8 => "UInt8",
            XISFSampleFormat::UInt16 => "UInt16",
            XISFSampleFormat::UInt32 => "UInt32",
            XISFSampleFormat::UInt64 => "UInt64",
            XISFSampleFormat::Float32 => "Float32",
            XISFSampleFormat::Float64 => "Float64",
            XISFSampleFormat::Complex32 => "Complex32",
            XISFSampleFormat::Complex64 => "Complex64",
        }
    }

    /// The format declared by a `sampleFormat` attribute value, if the name
    /// is known.
    pub open spec fn spec_of_bytes(b: Seq<u8>) -> Option<XISFSampleFormat> {
        if b == "UInt8".spec_bytes() {
            Some(XISFSampleFormat::UInt8)
        } else if b == "UInt16".spec_bytes() {
            Some(XISFSampleFormat::UInt16)
        } else if b == "UInt32".spec_bytes() {
            Some(XISFSampleFormat::UInt32)
        } else if b == "UInt64".spec_bytes() {
            Some(XISFSampleFormat::UInt64)
        } else if b == "Float32".spec_bytes() {
            Some(XISFSampleFormat::Float32)
        } else if b == "Float64".spec_bytes() {
            Some(XISFSampleFormat::Float64)
        } else if b == "Complex32".spec_bytes() {
            Some(XISFSampleFormat::Complex32)
        } else if b == "Complex64".spec_bytes() {
            Some(XISFSampleFormat::Complex64)
        } else {
            None
        }
    }

    /// Parse a `sampleFormat` attribute value; unknown names are rejected.
    pub fn from_bytes(b: &[u8]) -> (r: Option<XISFSampleFormat>)
        ensures
            r == XISFSampleFormat::spec_of_bytes(b@),
    {
        if text::bytes_eq(b, "UInt8".as_bytes()) {
            Some(XISFSampleFormat::UInt8)
        } else if text::bytes_eq(b, "UInt16".as_bytes()) {
            Some(XISFSampleFormat::UInt16)
        } else if text::bytes_eq(b, "UInt32".as_bytes()) {
            Some(XISFSampleFormat::UInt32)
        } else if text::bytes_eq(b, "UInt64".as_bytes()) {
            Some(XISFSampleFormat::UInt64)
        } else if text::bytes_eq(b, "Float32".as_bytes()) {
            Some(XISFSampleFormat::Float32)
        } else if text::bytes_eq(b, "Float64".as_bytes()) {
            Some(XISFSampleFormat::Float64)
        } else if text::bytes_eq(b, "Complex32".as_bytes()) {
            Some(XISFSampleFormat::Complex32)
        } else if text::bytes_eq(b, "Complex64".as_bytes()) {
            Some(XISFSampleFormat::Complex64)
        } else {
            None
        }
    }
}

/// The product of a run of axis lengths; an empty run multiplies out to one.
pub open spec fn dims_product(dims: Seq<usize>) -> int
    decreases dims.len(),
{
    if dims.len() == 0 {
        1
    } else {
        dims_product(dims.drop_last()) * (dims.last() as int)
    }
}

/// Image geometry: the per-axis lengths and the channel count declared by
/// the `geometry` attribute.
#[derive(Debug, Clone)]
pub struct XISFGeometry {
    pub dimensions: Vec<usize>,
    pub channel_count: usize,
}

impl XISFGeometry {
    /// Every prefix of the axis products stays within the machine word, so
    /// the sample count can be computed without overflow.
    pub open spec fn wf(&self) -> bool {
        forall|i: int|
            0 <= i <= self.dimensions@.len() ==> dims_product(#[trigger] self.dimensions@.take(i))
                <= usize::MAX
    }

    /// The number of samples in one channel.
    pub open spec fn spec_channel_size(&self) -> int {
        dims_product(self.dimensions@)
    }

    /// The per-axis lengths, in declaration order.
    pub fn dimensions(&self) -> (r: &Vec<usize>)
        ensures
            r@ == self.dimensions@,
    {
        &self.dimensions
    }

    /// The number of channels.
    pub fn channel_count(&self) -> (r: usize)
        ensures
            r == self.channel_count,
    {
        self.channel_count
    }

    /// The number of samples in one channel: the product of the axis
    /// lengths.
    pub fn channel_size(&self) -> (r: usize)
        requires
            self.wf(),
        ensures
            r == self.spec_channel_size(),
    {
        let mut acc: usize = 1;
        let mut i: usize = 0;
        proof {
            assert(self.dimensions@.take(0) =~= Seq::<usize>::empty());
        }
        while i < self.dimensions.len()
            invariant
                self.wf(),
                i <= self.dimensions@.len(),
                acc == dims_product(self.dimensions@.take(i as int)),
            decreases self.dimensions@.len() - i,
        {
            proof {
                assert(self.dimensions@.take(i + 1).drop_last() =~= self.dimensions@.take(
                    i as int,
                ));
                assert(self.dimensions@.take(i + 1).last() == self.dimensions@[i as int]);
                assert(dims_product(self.dimensions@.take(i + 1)) <= usize::MAX);
            }
            acc = acc * self.dimensions[i];
            i = i + 1;
        }
        proof {
            assert(self.dimensions@.take(self.dimensions@.len() as int) =~= self.dimensions@);
        }
        acc
    }
}

/// The textual form of a geometry from axis position `i` on: the remaining
/// axis lengths and the channel count, colon-separated, in decimal.
pub open spec fn geometry_text_bytes(g: XISFGeometry, i: int) -> Seq<u8>
    decreases g.dimensions@.len() - i,
{
    if i < 0 || i >= g.dimensions@.len() {
        text::dec_bytes(g.channel_count as int)
    } else {
        text::dec_bytes(g.dimensions@[i] as int) + seq![COLON] + geometry_text_bytes(g, i + 1)
    }
}

/// Every byte of a rendered geometry is a digit or a colon, so in
/// particular ASCII.
proof fn lemma_geometry_text_ascii(g: XISFGeometry, i: int)
    ensures
        forall|k: int|
            0 <= k < geometry_text_bytes(g, i).len() ==> #[trigger] geometry_text_bytes(g, i)[k]
                < 128,
    decreases g.dimensions@.len() - i,
{
    if i < 0 || i >= g.dimensions@.len() {
        text::lemma_dec_bytes_digits(g.channel_count as int);
    } else {
        lemma_geometry_text_ascii(g, i + 1);
        text::lemma_dec_bytes_digits(g.dimensions@[i] as int);
        let d = text::dec_bytes(g.dimensions@[i] as int);
        let rest = geometry_text_bytes(g, i + 1);
        assert forall|k: int| 0 <= k < geometry_text_bytes(g, i).len() implies #[trigger] geometry_text_bytes(
            g,
            i,
        )[k] < 128 by {
            if k < d.len() {
                assert(geometry_text_bytes(g, i)[k] == d[k]);
            } else if k == d.len() {
                assert(geometry_text_bytes(g, i)[k] == COLON);
            } else {
                assert(geometry_text_bytes(g, i)[k] == rest[k - d.len() - 1]);
            }
        }
    }
}

/// Image data as one typed buffer per channel. Floating-point channels keep
/// their samples as raw little-endian IEEE-754 bytes: the pipeline never
/// interprets them numerically, it only reorders bytes.
#[derive(Debug, Clone)]
pub enum XISFData {
    Empty,
    UInt8(Vec<Vec<u8>>),
    UInt16(Vec<Vec<u16>>),
    UInt32(Vec<Vec<u32>>),
    Float32(Vec<Vec<u8>>),
    Float64(Vec<Vec<u8>>),
}

impl XISFData {
    /// The sample format the data was decoded from.
    pub open spec fn spec_sample_format(&self) -> Option<XISFSampleFormat> {
        match self {
            XISFData::Empty => None,
            XISFData::UInt8(_) => Some(XISFSampleFormat::UInt8),
            XISFData::UInt16(_) => Some(XISFSampleFormat::UInt16),
            XISFData::UInt32(_) => Some(XISFSampleFormat::UInt32),
            XISFData::Float32(_) => Some(XISFSampleFormat::Float32),
            XISFData::Float64(_) => Some(XISFSampleFormat::Float64),
        }
    }

    /// Retrieves the sample format for the data.
    pub fn sample_format(&self) -> (r: Option<XISFSampleFormat>)
        ensures
            r == self.spec_sample_format(),
    {
        match self {
            XISFData::Empty => None,
            XISFData::UInt8(_) => Some(XISFSampleFormat::UInt8),
            XISFData::UInt16(_) => Some(XISFSampleFormat::UInt16),
            XISFData::UInt32(_) => Some(XISFSampleFormat::UInt32),
            XISFData::Float32(_) => Some(XISFSampleFormat::Float32),
            XISFData::Float64(_) => Some(XISFSampleFormat::Float64),
        }
    }
}

impl XISFGeometry {
    /// The geometry in its attribute form: the axis lengths and the channel
    /// count, colon-separated.
    pub fn to_text(&self) -> (r: String)
        ensures
            crate::fitswriter::string_bytes(r) == geometry_text_bytes(*self, 0),
    {
        let mut out: Vec<u8> = Vec::new();
        let mut i: usize = 0;
        while i < self.dimensions.len()
            invariant
                i <= self.dimensions@.len(),
                geometry_text_bytes(*self, 0) == out@ + geometry_text_bytes(*self, i as int),
                forall|k: int| 0 <= k < out@.len() ==> #[trigger] out@[k] < 128,
            decreases self.dimensions@.len() - i,
        {
            let mut digits = text::u64_to_dec_bytes(self.dimensions[i] as u64);
            proof {
                text::lemma_dec_bytes_digits(self.dimensions@[i as int] as int);
            }
            out.append(&mut digits);
            out.push(COLON);
            i = i + 1;
            proof {
                assert(geometry_text_bytes(*self, 0) =~= out@ + geometry_text_bytes(
                    *self,
                    i as int,
                ));
            }
        }
        let mut digits = text::u64_to_dec_bytes(self.channel_count as u64);
        proof {
            text::lemma_dec_bytes_digits(self.channel_count as int);
        }
        out.append(&mut digits);
        proof {
            assert(out@ =~= geometry_text_bytes(*self, 0));
        }
        match text::bytes_to_string(out) {
            Some(t) => t,
            None => {
                proof {
                    assert(false);
                }
                String::new()
            },
        }
    }
}

impl Default for XISFData {
    /// Data before any pixel payload has been read: no channels.
    fn default() -> (r: Self)
        ensures
            r is Empty,
    {
        XISFData::Empty
    }
}

/// Everything the container header declares: the binary preamble fields and
/// the parsed image description.
#[derive(Debug)]
pub struct XISFHeader {
    pub signature: String,
    pub length: u32,
    pub reserved: u32,
    pub geometry: XISFGeometry,
    pub sample_format: XISFSampleFormat,
    pub color_space: String,
    pub location: String,
    pub location_method: String,
    pub location_start: u64,
    pub location_length: u64,
    pub compression: String,
    pub compression_codec: String,
    pub compression_size: usize,
}

impl XISFHeader {
    /// The geometry products and the channel byte size stay within the
    /// machine word.
    pub open spec fn wf(&self) -> bool {
        &&& self.geometry.wf()
        &&& self.geometry.spec_channel_size() * self.sample_format.spec_size() <= usize::MAX
    }

    /// The bytes one decoded channel occupies.
    pub open spec fn spec_channel_byte_size(&self) -> int {
        self.geometry.spec_channel_size() * self.sample_format.spec_size()
    }

    pub fn signature(&self) -> (r: &str)
        ensures
            r@ == self.signature@,
    {
        self.signature.as_str()
    }

    pub fn length(&self) -> (r: u32)
        ensures
            r == self.length,
    {
        self.length
    }

    pub fn reserved(&self) -> (r: u32)
        ensures
            r == self.reserved,
    {
        self.reserved
    }

    pub fn geometry(&self) -> (r: &XISFGeometry)
        ensures
            r == self.geometry,
    {
        &self.geometry
    }

    pub fn sample_format(&self) -> (r: XISFSampleFormat)
        ensures
            r == self.sample_format,
    {
        self.sample_format
    }

    pub fn color_space(&self) -> (r: &str)
        ensures
            r@ == self.color_space@,
    {
        self.color_space.as_str()
    }

    pub fn location(&self) -> (r: &str)
        ensures
            r@ == self.location@,
    {
        self.location.as_str()
    }

    pub fn location_method(&self) -> (r: &str)
        ensures
            r@ == self.location_method@,
    {
        self.location_method.as_str()
    }

    pub fn location_start(&self) -> (r: u64)
        ensures
            r == self.location_start,
    {
        self.location_start
    }

    pub fn location_length(&self) -> (r: u64)
        ensures
            r == self.location_length,
    {
        self.location_length
    }

    pub fn compression(&self) -> (r: &str)
        ensures
            r@ == self.compression@,
    {
        self.compression.as_str()
    }

    pub fn compression_codec(&self) -> (r: &str)
        ensures
            r@ == self.compression_codec@,
    {
        self.compression_codec.as_str()
    }

    pub fn compression_size(&self) -> (r: usize)
        ensures
            r == self.compression_size,
    {
        self.compression_size
    }

    /// The bytes one decoded channel occupies: the sample count of one
    /// channel times the sample byte width.
    pub fn channel_size(&self) -> (r: usize)
        requires
            self.wf(),
        ensures
            r == self.spec_channel_byte_size(),
    {
        let samples = self.geometry.channel_size();
        proof {
            assert(samples * self.sample_format.spec_size() <= usize::MAX);
        }
        samples * self.sample_format.size()
    }
}

/// One XML start tag with its attributes, as plain byte strings.
pub struct XmlStartTag {
    pub name: Vec<u8>,
    pub attrs: Vec<(Vec<u8>, Vec<u8>)>,
}

/// The mathematical image of one start tag.
pub struct XmlTagModel {
    pub name: Seq<u8>,
    pub attrs: Seq<(Seq<u8>, Seq<u8>)>,
}

/// The model of an exec-level attribute list.
pub open spec fn attrs_model(attrs: Seq<(Vec<u8>, Vec<u8>)>) -> Seq<(Seq<u8>, Seq<u8>)> {
    Seq::new(attrs.len(), |i: int| (attrs[i].0@, attrs[i].1@))
}

/// The model of one exec-level tag.
pub open spec fn tag_model(t: XmlStartTag) -> XmlTagModel {
    XmlTagModel { name: t.name@, attrs: attrs_model(t.attrs@) }
}

/// The model of a run of exec-level tags.
pub open spec fn tags_model(ts: Seq<XmlStartTag>) -> Seq<XmlTagModel> {
    Seq::new(ts.len(), |i: int| tag_model(ts[i]))
}

/// The start tags, with attributes, that a well-formed XML fragment holds,
/// in document order; nothing for a malformed fragment. The tags are a
/// function of the fragment bytes alone.
pub uninterp spec fn xml_start_tags_of(xml: Seq<u8>) -> Option<Seq<XmlTagModel>>;

/// Relies on quick_xml's `Reader::read_event` and `BytesStart::name` /
/// `attributes`: walks the XML fragment and collects every start tag with
/// its attribute key/value pairs, in document order; any XML or attribute
/// syntax error yields nothing.
#[verifier::external_body]
fn read_xml_start_tags(xml: &[u8]) -> (r: Option<Vec<XmlStartTag>>)
    ensures
        r matches Some(tags) ==> xml_start_tags_of(xml@) == Some(tags_model(tags@)),
        r is None ==> xml_start_tags_of(xml@) is None,
{
    let mut reader = quick_xml::Reader::from_reader(xml);
    let (mut buf, mut tags) = (Vec::new(), Vec::new());
    loop {
        buf.clear();
        match reader.read_event(&mut buf) {
            Ok(quick_xml::events::Event::Start(e)) => match e.attributes().map(|a| a.map(|a| (a.key.to_vec(), a.value.into_owned()))).collect() {
                Ok(attrs) => tags.push(XmlStartTag { name: e.name().to_vec(), attrs }),
                Err(_) => return None,
            },
            Ok(quick_xml::events::Event::Eof) => return Some(tags),
            Err(_) => return None,
            Ok(_) => {},
        }
    }
}

/// The axis lengths declared by a `geometry` attribute value: every
/// colon-separated part but the last.
pub open spec fn spec_geometry_dims(v: Seq<u8>) -> Seq<usize> {
    let parts = text::split_bytes(v, COLON);
    Seq::new((parts.len() - 1) as nat, |p: int| text::dec_val(parts[p]) as usize)
}

/// The channel count declared by a `geometry` attribute value: its last
/// colon-separated part.
pub open spec fn spec_geometry_channels(v: Seq<u8>) -> usize {
    text::dec_val(text::split_bytes(v, COLON).last()) as usize
}

/// One part of a `geometry` attribute: a positive decimal number that
/// fits the machine word.
pub open spec fn geometry_part_ok(part: Seq<u8>) -> bool {
    text::is_dec_digits(part) && 1 <= text::dec_val(part) <= usize::MAX
}

/// A value with one bad part fails the whole geometry grammar.
proof fn lemma_geometry_part_bad(v: Seq<u8>, p: int)
    requires
        0 <= p < text::split_bytes(v, COLON).len(),
        !geometry_part_ok(text::split_bytes(v, COLON)[p]),
    ensures
        !geometry_val_ok(v),
{
    if geometry_val_ok(v) {
        assert(geometry_part_ok(text::split_bytes(v, COLON)[p]));
    }
}

/// A `geometry` attribute value is acceptable when every part is a positive
/// decimal number that fits the machine word and no prefix of the axis
/// product overflows.
pub open spec fn geometry_val_ok(v: Seq<u8>) -> bool {
    let parts = text::split_bytes(v, COLON);
    &&& forall|p: int| 0 <= p < parts.len() ==> #[trigger] geometry_part_ok(parts[p])
    &&& forall|i: int|
        0 <= i <= parts.len() - 1 ==> dims_product(
            #[trigger] spec_geometry_dims(v).take(i),
        ) <= usize::MAX
}

/// A `location` attribute value is acceptable when it is UTF-8, its method
/// part is UTF-8, and its start and length parts, where present, are
/// decimal numbers that fit 64 bits.
pub open spec fn location_val_ok(v: Seq<u8>) -> bool {
    let parts = text::split_bytes(v, COLON);
    &&& vstd::utf8::valid_utf8(v)
    &&& vstd::utf8::valid_utf8(parts[0])
    &&& parts.len() >= 2 ==> text::is_dec_digits(parts[1]) && text::dec_val(parts[1]) <= u64::MAX
    &&& parts.len() >= 3 ==> text::is_dec_digits(parts[2]) && text::dec_val(parts[2]) <= u64::MAX
}

/// A `compression` attribute value is acceptable when it is UTF-8, its
/// codec part is UTF-8, and its mandatory second part is a decimal
/// uncompressed size that fits the machine word.
pub open spec fn compression_val_ok(v: Seq<u8>) -> bool {
    let parts = text::split_bytes(v, COLON);
    &&& vstd::utf8::valid_utf8(v)
    &&& vstd::utf8::valid_utf8(parts[0])
    &&& parts.len() >= 2
    &&& text::is_dec_digits(parts[1])
    &&& text::dec_val(parts[1]) <= usize::MAX
}

/// A product stays within a bound exactly when its left factor stays within
/// the quotient.
proof fn lemma_mul_le_div(acc: int, u: int, bound: int)
    requires
        0 <= acc,
        1 <= u,
        0 <= bound,
    ensures
        acc * u <= bound <==> acc <= bound / u,
{
    vstd::arithmetic::div_mod::lemma_fundamental_div_mod(bound, u);
    let q = bound / u;
    let r = bound % u;
    vstd::arithmetic::div_mod::lemma_mod_bound(bound, u);
    assert(u * q == q * u) by (nonlinear_arith);
    assert(q * u + r == bound);
    if acc <= q {
        assert(acc * u <= q * u) by (nonlinear_arith)
            requires
                0 <= acc <= q,
                1 <= u,
        ;
        assert(q * u <= bound);
    }
    if acc > q {
        assert(acc * u >= (q + 1) * u) by (nonlinear_arith)
            requires
                acc >= q + 1,
                1 <= u,
        ;
        assert((q + 1) * u == q * u + u) by (nonlinear_arith);
        assert(q * u + u > bound);
    }
}

/// Parse a `geometry` attribute value: colon-separated positive axis
/// lengths with the channel count last.
pub fn parse_geometry(v: &[u8]) -> (r: Result<XISFGeometry, XISFError>)
    ensures
        r is Ok <==> geometry_val_ok(v@),
        r matches Ok(g) ==> g.dimensions@ == spec_geometry_dims(v@) && g.channel_count
            == spec_geometry_channels(v@) && g.wf(),
        r matches Err(e) ==> e is Format,
{
    let parts = text::split_bytes_vec(v, COLON);
    let ghost pm = text::split_bytes(v@, COLON);
    let n: usize = parts.len();
    let mut dims: Vec<usize> = Vec::new();
    let mut acc: usize = 1;
    let mut p: usize = 0;
    proof {
        text::lemma_split_bytes_len(v@, COLON);
        assert(spec_geometry_dims(v@).take(0) =~= Seq::<usize>::empty());
    }
    while p + 1 < n
        invariant
            pm == text::split_bytes(v@, COLON),
            n == pm.len(),
            parts@.len() == pm.len() >= 1,
            forall|q: int| 0 <= q < pm.len() ==> #[trigger] parts@[q]@ == pm[q],
            p < pm.len(),
            dims@.len() == p,
            dims@ =~= spec_geometry_dims(v@).take(p as int),
            acc == dims_product(dims@),
            forall|q: int| 0 <= q < p ==> #[trigger] geometry_part_ok(pm[q]),
            forall|i: int|
                0 <= i <= p ==> dims_product(#[trigger] spec_geometry_dims(v@).take(i))
                    <= usize::MAX,
        decreases pm.len() - p,
    {
        let u = match text::parse_usize_dec(parts[p].as_slice()) {
            Some(u) => u,
            None => {
                proof {
                    assert(!geometry_part_ok(pm[p as int]));
                    lemma_geometry_part_bad(v@, p as int);
                }
                return Err(XISFError::Format(String::from_str("malformed geometry dimension")));
            },
        };
        if u < 1 {
            proof {
                assert(!geometry_part_ok(pm[p as int]));
                lemma_geometry_part_bad(v@, p as int);
            }
            return Err(XISFError::Format(String::from_str("geometry dimension must be positive")));
        }
        if acc > usize::MAX / u {
            proof {
                lemma_mul_le_div(acc as int, u as int, usize::MAX as int);
                assert(spec_geometry_dims(v@).take(p + 1).drop_last() =~= spec_geometry_dims(
                    v@,
                ).take(p as int));
                assert(dims_product(spec_geometry_dims(v@).take(p + 1)) == acc * u);
            }
            return Err(XISFError::Format(String::from_str("geometry dimensions overflow")));
        }
        proof {
            lemma_mul_le_div(acc as int, u as int, usize::MAX as int);
            assert(spec_geometry_dims(v@).take(p + 1).drop_last() =~= spec_geometry_dims(v@).take(
                p as int,
            ));
            assert(spec_geometry_dims(v@).take(p + 1).last() == u);
        }
        acc = acc * u;
        dims.push(u);
        p = p + 1;
        proof {
            assert(dims@ =~= spec_geometry_dims(v@).take(p as int));
        }
    }
    let channels = match text::parse_usize_dec(parts[p].as_slice()) {
        Some(c) => c,
        None => {
            proof {
                assert(!geometry_part_ok(pm[p as int]));
                lemma_geometry_part_bad(v@, p as int);
            }
            return Err(XISFError::Format(String::from_str("malformed geometry channel count")));
        },
    };
    if channels < 1 {
        proof {
            assert(!geometry_part_ok(pm[p as int]));
            lemma_geometry_part_bad(v@, p as int);
        }
        return Err(XISFError::Format(String::from_str("geometry channel count must be positive")));
    }
    proof {
        assert(p + 1 == pm.len());
        assert(pm.last() == pm[p as int]);
        assert(spec_geometry_dims(v@).take(p as int) =~= spec_geometry_dims(v@));
        assert forall|i: int| 0 <= i <= spec_geometry_dims(v@).len() implies dims_product(
            #[trigger] spec_geometry_dims(v@).take(i),
        ) <= usize::MAX by {}
    }
    let g = XISFGeometry { dimensions: dims, channel_count: channels };
    proof {
        assert forall|i: int| 0 <= i <= g.dimensions@.len() implies dims_product(
            #[trigger] g.dimensions@.take(i),
        ) <= usize::MAX by {
            assert(g.dimensions@.take(i) =~= spec_geometry_dims(v@).take(i));
        }
    }
    Ok(g)
}

/// The abstract state of the header reader: every field the XML header can
/// set, with strings kept as their UTF-8 bytes.
#[verifier::ext_equal]
pub struct XISFReaderModel {
    pub geometry: Option<(Seq<usize>, usize)>,
    pub sample_format: Option<XISFSampleFormat>,
    pub color_space: Seq<u8>,
    pub location: Seq<u8>,
    pub location_method: Seq<u8>,
    pub location_start: u64,
    pub location_length: u64,
    pub compression: Seq<u8>,
    pub compression_codec: Seq<u8>,
    pub compression_size: usize,
}

/// The effect of one recognized attribute of the image-description tag on
/// the reader state; unrecognized attributes change nothing.
pub open spec fn apply_image_attr(s: XISFReaderModel, k: Seq<u8>, v: Seq<u8>) -> XISFReaderModel {
    if k == "geometry".spec_bytes() {
        XISFReaderModel { geometry: Some((spec_geometry_dims(v), spec_geometry_channels(v))), ..s }
    } else if k == "sampleFormat".spec_bytes() {
        XISFReaderModel { sample_format: XISFSampleFormat::spec_of_bytes(v), ..s }
    } else if k == "colorSpace".spec_bytes() {
        XISFReaderModel { color_space: v, ..s }
    } else if k == "location".spec_bytes() {
        XISFReaderModel {
            location: v,
            location_method: text::split_bytes(v, COLON)[0],
            location_start: if text::split_bytes(v, COLON).len() >= 2 {
                text::dec_val(text::split_bytes(v, COLON)[1]) as u64
            } else {
                s.location_start
            },
            location_length: if text::split_bytes(v, COLON).len() >= 3 {
                text::dec_val(text::split_bytes(v, COLON)[2]) as u64
            } else {
                s.location_length
            },
            ..s
        }
    } else if k == "compression".spec_bytes() {
        XISFReaderModel {
            compression: v,
            compression_codec: text::split_bytes(v, COLON)[0],
            compression_size: if text::split_bytes(v, COLON).len() >= 2 {
                text::dec_val(text::split_bytes(v, COLON)[1]) as usize
            } else {
                s.compression_size
            },
            ..s
        }
    } else {
        s
    }
}

/// The effect of an image-description tag: its attributes applied in
/// document order.
pub open spec fn apply_image_attrs(s: XISFReaderModel, attrs: Seq<(Seq<u8>, Seq<u8>)>) -> XISFReaderModel
    decreases attrs.len(),
{
    if attrs.len() == 0 {
        s
    } else {
        apply_image_attr(apply_image_attrs(s, attrs.drop_last()), attrs.last().0, attrs.last().1)
    }
}

/// The effect of a run of start tags on the reader state: image-description
/// tags update it, all others leave it unchanged.
pub open spec fn apply_tags(s: XISFReaderModel, m: Seq<XmlTagModel>) -> XISFReaderModel
    decreases m.len(),
{
    if m.len() == 0 {
        s
    } else {
        let s2 = apply_tags(s, m.drop_last());
        if m.last().name == "Image".spec_bytes() {
            apply_image_attrs(s2, m.last().attrs)
        } else {
            s2
        }
    }
}

/// One recognized attribute of the image-description tag carries an
/// acceptable value; unrecognized attributes are always acceptable.
pub open spec fn image_attr_ok(k: Seq<u8>, v: Seq<u8>) -> bool {
    if k == "geometry".spec_bytes() {
        geometry_val_ok(v)
    } else if k == "sampleFormat".spec_bytes() {
        XISFSampleFormat::spec_of_bytes(v) is Some
    } else if k == "colorSpace".spec_bytes() {
        vstd::utf8::valid_utf8(v)
    } else if k == "location".spec_bytes() {
        location_val_ok(v)
    } else if k == "compression".spec_bytes() {
        compression_val_ok(v)
    } else {
        true
    }
}

/// Every attribute of a tag that the parser reads is acceptable: the
/// recognized image-description attributes parse, and every keyword-record
/// attribute value is UTF-8.
pub open spec fn tag_ok(t: XmlTagModel) -> bool {
    if t.name == "Image".spec_bytes() {
        forall|j: int| 0 <= j < t.attrs.len() ==> #[trigger] image_attr_ok(t.attrs[j].0, t.attrs[j].1)
    } else if t.name == "FITSKeyword".spec_bytes() {
        forall|j: int| 0 <= j < t.attrs.len() ==> vstd::utf8::valid_utf8((#[trigger] t.attrs[j]).1)
    } else {
        true
    }
}

/// Every tag of the header is acceptable.
pub open spec fn tags_ok(m: Seq<XmlTagModel>) -> bool {
    forall|i: int| 0 <= i < m.len() ==> #[trigger] tag_ok(m[i])
}

/// A run with one bad tag is not acceptable.
proof fn lemma_tag_bad(m: Seq<XmlTagModel>, i: int)
    requires
        0 <= i < m.len(),
        !tag_ok(m[i]),
    ensures
        !tags_ok(m),
{
    if tags_ok(m) {
        assert(tag_ok(m[i]));
    }
}

/// The mathematical image of one keyword record.
#[verifier::ext_equal]
pub struct KeywordModel {
    pub name: Seq<u8>,
    pub value: Seq<u8>,
    pub comment: Seq<u8>,
}

/// The last value a key takes among a tag's attributes, or empty when the
/// key never occurs.
pub open spec fn kw_attr_last(attrs: Seq<(Seq<u8>, Seq<u8>)>, key: Seq<u8>) -> Seq<u8>
    decreases attrs.len(),
{
    if attrs.len() == 0 {
        Seq::empty()
    } else if attrs.last().0 == key {
        attrs.last().1
    } else {
        kw_attr_last(attrs.drop_last(), key)
    }
}

/// The record a keyword tag carries.
pub open spec fn kw_record_of(t: XmlTagModel) -> KeywordModel {
    KeywordModel {
        name: kw_attr_last(t.attrs, "name".spec_bytes()),
        value: kw_attr_last(t.attrs, "value".spec_bytes()),
        comment: kw_attr_last(t.attrs, "comment".spec_bytes()),
    }
}

/// The keyword records a run of tags carries, in document order.
pub open spec fn kw_records(m: Seq<XmlTagModel>) -> Seq<KeywordModel>
    decreases m.len(),
{
    if m.len() == 0 {
        Seq::empty()
    } else {
        kw_records(m.drop_last()) + (if m.last().name == "FITSKeyword".spec_bytes() {
            seq![kw_record_of(m.last())]
        } else {
            Seq::empty()
        })
    }
}

/// The mathematical image of an exec-level keyword record.
pub open spec fn fits_keyword_model(k: FITSKeyword) -> KeywordModel {
    KeywordModel {
        name: crate::fitswriter::string_bytes(k.name),
        value: crate::fitswriter::string_bytes(k.value),
        comment: crate::fitswriter::string_bytes(k.comment),
    }
}

/// Accumulates the header fields while the XML header is read.
#[derive(Debug)]
pub struct XISFHeaderReader {
    pub signature: String,
    pub length: u32,
    pub reserved: u32,
    pub geometry: Option<XISFGeometry>,
    pub sample_format: Option<XISFSampleFormat>,
    pub color_space: String,
    pub location: String,
    pub location_method: String,
    pub location_start: u64,
    pub location_length: u64,
    pub compression: String,
    pub compression_codec: String,
    pub compression_size: usize,
}

/// The abstract state a reader holds.
pub open spec fn reader_model(r: XISFHeaderReader) -> XISFReaderModel {
    XISFReaderModel {
        geometry: match r.geometry {
            Some(g) => Some((g.dimensions@, g.channel_count)),
            None => None,
        },
        sample_format: r.sample_format,
        color_space: crate::fitswriter::string_bytes(r.color_space),
        location: crate::fitswriter::string_bytes(r.location),
        location_method: crate::fitswriter::string_bytes(r.location_method),
        location_start: r.location_start,
        location_length: r.location_length,
        compression: crate::fitswriter::string_bytes(r.compression),
        compression_codec: crate::fitswriter::string_bytes(r.compression_codec),
        compression_size: r.compression_size,
    }
}

impl XISFHeaderReader {
    /// A reader with nothing read yet.
    pub fn new() -> (r: XISFHeaderReader)
        ensures
            reader_model(r) == (XISFReaderModel {
                geometry: None,
                sample_format: None,
                color_space: Seq::empty(),
                location: Seq::empty(),
                location_method: Seq::empty(),
                location_start: 0,
                location_length: 0,
                compression: Seq::empty(),
                compression_codec: Seq::empty(),
                compression_size: 0,
            }),
            r.signature@ == Seq::<char>::empty(),
            r.length == 0,
            r.reserved == 0,
    {
        let r = XISFHeaderReader {
            signature: String::new(),
            length: 0,
            reserved: 0,
            geometry: None,
            sample_format: None,
            color_space: String::new(),
            location: String::new(),
            location_method: String::new(),
            location_start: 0,
            location_length: 0,
            compression: String::new(),
            compression_codec: String::new(),
            compression_size: 0,
        };
        proof {
            assert(reader_model(r) =~~= (XISFReaderModel {
                geometry: None,
                sample_format: None,
                color_space: Seq::empty(),
                location: Seq::empty(),
                location_method: Seq::empty(),
                location_start: 0,
                location_length: 0,
                compression: Seq::empty(),
                compression_codec: Seq::empty(),
                compression_size: 0,
            }));
        }
        r
    }
}

/// Every attribute of an image-description tag carries an acceptable value.
pub open spec fn image_attrs_ok(a: Seq<(Seq<u8>, Seq<u8>)>) -> bool {
    forall|j: int| 0 <= j < a.len() ==> #[trigger] image_attr_ok(a[j].0, a[j].1)
}

/// An attribute list with one bad attribute is not acceptable.
proof fn lemma_image_attr_bad(a: Seq<(Seq<u8>, Seq<u8>)>, j: int)
    requires
        0 <= j < a.len(),
        !image_attr_ok(a[j].0, a[j].1),
    ensures
        !image_attrs_ok(a),
{
    if image_attrs_ok(a) {
        assert(image_attr_ok(a[j].0, a[j].1));
    }
}

impl XISFHeaderReader {
    /// Parse and store a `geometry` attribute value.
    fn set_geometry_attr(&mut self, v: &[u8]) -> (r: Result<(), XISFError>)
        ensures
            r is Ok <==> geometry_val_ok(v@),
            r is Ok ==> reader_model(*final(self)) == (XISFReaderModel {
                geometry: Some((spec_geometry_dims(v@), spec_geometry_channels(v@))),
                ..reader_model(*old(self))
            }),
            final(self).signature == old(self).signature,
            final(self).length == old(self).length,
            final(self).reserved == old(self).reserved,
            r matches Err(e) ==> e is Format,
    {
        match parse_geometry(v) {
            Ok(g) => {
                self.geometry = Some(g);
                proof {
                    assert(reader_model(*self) =~~= (XISFReaderModel {
                        geometry: Some((spec_geometry_dims(v@), spec_geometry_channels(v@))),
                        ..reader_model(*old(self))
                    }));
                }
                Ok(())
            },
            Err(e) => Err(e),
        }
    }

    /// Parse and store a `sampleFormat` attribute value.
    fn set_sample_format_attr(&mut self, v: &[u8]) -> (r: Result<(), XISFError>)
        ensures
            r is Ok <==> XISFSampleFormat::spec_of_bytes(v@) is Some,
            r is Ok ==> reader_model(*final(self)) == (XISFReaderModel {
                sample_format: XISFSampleFormat::spec_of_bytes(v@),
                ..reader_model(*old(self))
            }),
            final(self).signature == old(self).signature,
            final(self).length == old(self).length,
            final(self).reserved == old(self).reserved,
            r matches Err(e) ==> e is Format,
    {
        match XISFSampleFormat::from_bytes(v) {
            Some(f) => {
                self.sample_format = Some(f);
                proof {
                    assert(reader_model(*self) =~~= (XISFReaderModel {
                        sample_format: XISFSampleFormat::spec_of_bytes(v@),
                        ..reader_model(*old(self))
                    }));
                }
                Ok(())
            },
            None => Err(XISFError::Format(String::from_str("unknown sample format name"))),
        }
    }

    /// Parse and store a `colorSpace` attribute value.
    fn set_color_space_attr(&mut self, v: &[u8]) -> (r: Result<(), XISFError>)
        ensures
            r is Ok <==> vstd::utf8::valid_utf8(v@),
            r is Ok ==> reader_model(*final(self)) == (XISFReaderModel {
                color_space: v@,
                ..reader_model(*old(self))
            }),
            final(self).signature == old(self).signature,
            final(self).length == old(self).length,
            final(self).reserved == old(self).reserved,
            r matches Err(e) ==> e is Format,
    {
        match text::bytes_to_string(vstd::slice::slice_to_vec(v)) {
            Some(cs) => {
                self.color_space = cs;
                proof {
                    assert(reader_model(*self) =~~= (XISFReaderModel {
                        color_space: v@,
                        ..reader_model(*old(self))
                    }));
                }
                Ok(())
            },
            None => Err(XISFError::Format(String::from_str("colorSpace is not UTF-8"))),
        }
    }

    /// Parse and store a `location` attribute value: the whole string, its
    /// method part, and its numeric start and length parts where present.
    fn set_location_attr(&mut self, v: &[u8]) -> (r: Result<(), XISFError>)
        ensures
            r is Ok <==> location_val_ok(v@),
            r is Ok ==> reader_model(*final(self)) == (XISFReaderModel {
                location: v@,
                location_method: text::split_bytes(v@, COLON)[0],
                location_start: if text::split_bytes(v@, COLON).len() >= 2 {
                    text::dec_val(text::split_bytes(v@, COLON)[1]) as u64
                } else {
                    reader_model(*old(self)).location_start
                },
                location_length: if text::split_bytes(v@, COLON).len() >= 3 {
                    text::dec_val(text::split_bytes(v@, COLON)[2]) as u64
                } else {
                    reader_model(*old(self)).location_length
                },
                ..reader_model(*old(self))
            }),
            final(self).signature == old(self).signature,
            final(self).length == old(self).length,
            final(self).reserved == old(self).reserved,
            r matches Err(e) ==> e is Format,
    {
        let loc = match text::bytes_to_string(vstd::slice::slice_to_vec(v)) {
            Some(l) => l,
            None => {
                return Err(XISFError::Format(String::from_str("location is not UTF-8")));
            },
        };
        let parts = text::split_bytes_vec(v, COLON);
        proof {
            text::lemma_split_bytes_len(v@, COLON);
        }
        let method = match text::bytes_to_string(vstd::slice::slice_to_vec(parts[0].as_slice())) {
            Some(m) => m,
            None => {
                return Err(XISFError::Format(String::from_str("location method is not UTF-8")));
            },
        };
        self.location = loc;
        self.location_method = method;
        if parts.len() >= 2 {
            match text::parse_u64_dec(parts[1].as_slice()) {
                Some(start) => {
                    self.location_start = start;
                },
                None => {
                    return Err(XISFError::Format(String::from_str("malformed location start")));
                },
            }
        }
        if parts.len() >= 3 {
            match text::parse_u64_dec(parts[2].as_slice()) {
                Some(length) => {
                    self.location_length = length;
                },
                None => {
                    return Err(XISFError::Format(String::from_str("malformed location length")));
                },
            }
        }
        proof {
            assert(reader_model(*self) =~~= (XISFReaderModel {
                location: v@,
                location_method: text::split_bytes(v@, COLON)[0],
                location_start: if text::split_bytes(v@, COLON).len() >= 2 {
                    text::dec_val(text::split_bytes(v@, COLON)[1]) as u64
                } else {
                    reader_model(*old(self)).location_start
                },
                location_length: if text::split_bytes(v@, COLON).len() >= 3 {
                    text::dec_val(text::split_bytes(v@, COLON)[2]) as u64
                } else {
                    reader_model(*old(self)).location_length
                },
                ..reader_model(*old(self))
            }));
        }
        Ok(())
    }

    /// Parse and store a `compression` attribute value: the whole string,
    /// its codec part, and its mandatory uncompressed size part.
    fn set_compression_attr(&mut self, v: &[u8]) -> (r: Result<(), XISFError>)
        ensures
            r is Ok <==> compression_val_ok(v@),
            r is Ok ==> reader_model(*final(self)) == (XISFReaderModel {
                compression: v@,
                compression_codec: text::split_bytes(v@, COLON)[0],
                compression_size: if text::split_bytes(v@, COLON).len() >= 2 {
                    text::dec_val(text::split_bytes(v@, COLON)[1]) as usize
                } else {
                    reader_model(*old(self)).compression_size
                },
                ..reader_model(*old(self))
            }),
            final(self).signature == old(self).signature,
            final(self).length == old(self).length,
            final(self).reserved == old(self).reserved,
            r matches Err(e) ==> e is Format,
    {
        let comp = match text::bytes_to_string(vstd::slice::slice_to_vec(v)) {
            Some(c) => c,
            None => {
                return Err(XISFError::Format(String::from_str("compression is not UTF-8")));
            },
        };
        let parts = text::split_bytes_vec(v, COLON);
        proof {
            text::lemma_split_bytes_len(v@, COLON);
        }
        let codec = match text::bytes_to_string(vstd::slice::slice_to_vec(parts[0].as_slice())) {
            Some(c) => c,
            None => {
                return Err(XISFError::Format(String::from_str("compression codec is not UTF-8")));
            },
        };
        if parts.len() < 2 {
            return Err(XISFError::Format(String::from_str("missing compression size")));
        }
        let size = match text::parse_usize_dec(parts[1].as_slice()) {
            Some(sz) => sz,
            None => {
                return Err(XISFError::Format(String::from_str("malformed compression size")));
            },
        };
        self.compression = comp;
        self.compression_codec = codec;
        self.compression_size = size;
        proof {
            assert(reader_model(*self) =~~= (XISFReaderModel {
                compression: v@,
                compression_codec: text::split_bytes(v@, COLON)[0],
                compression_size: if text::split_bytes(v@, COLON).len() >= 2 {
                    text::dec_val(text::split_bytes(v@, COLON)[1]) as usize
                } else {
                    reader_model(*old(self)).compression_size
                },
                ..reader_model(*old(self))
            }));
        }
        Ok(())
    }

    /// Read one image-description tag: parse and store each recognized
    /// attribute, in document order.
    fn apply_image_tag(&mut self, attrs: &Vec<(Vec<u8>, Vec<u8>)>) -> (r: Result<(), XISFError>)
        ensures
            r is Ok <==> image_attrs_ok(attrs_model(attrs@)),
            r is Ok ==> reader_model(*final(self)) == apply_image_attrs(
                reader_model(*old(self)),
                attrs_model(attrs@),
            ),
            final(self).signature == old(self).signature,
            final(self).length == old(self).length,
            final(self).reserved == old(self).reserved,
            r matches Err(e) ==> e is Format,
    {
        let ghost am = attrs_model(attrs@);
        let ghost m0 = reader_model(*old(self));
        let mut j: usize = 0;
        proof {
            assert(am.take(0) =~= Seq::<(Seq<u8>, Seq<u8>)>::empty());
        }
        while j < attrs.len()
            invariant
                am == attrs_model(attrs@),
                m0 == reader_model(*old(self)),
                attrs@.len() == am.len(),
                j <= am.len(),
                forall|jj: int| 0 <= jj < j ==> #[trigger] image_attr_ok(am[jj].0, am[jj].1),
                reader_model(*self) == apply_image_attrs(m0, am.take(j as int)),
                self.signature == old(self).signature,
                self.length == old(self).length,
                self.reserved == old(self).reserved,
            decreases am.len() - j,
        {
            let ghost prev = reader_model(*self);
            let k = &attrs[j].0;
            let v = &attrs[j].1;
            let step = if text::bytes_eq(k.as_slice(), "geometry".as_bytes()) {
                self.set_geometry_attr(v.as_slice())
            } else if text::bytes_eq(k.as_slice(), "sampleFormat".as_bytes()) {
                self.set_sample_format_attr(v.as_slice())
            } else if text::bytes_eq(k.as_slice(), "colorSpace".as_bytes()) {
                self.set_color_space_attr(v.as_slice())
            } else if text::bytes_eq(k.as_slice(), "location".as_bytes()) {
                self.set_location_attr(v.as_slice())
            } else if text::bytes_eq(k.as_slice(), "compression".as_bytes()) {
                self.set_compression_attr(v.as_slice())
            } else {
                Ok(())
            };
            match step {
                Ok(()) => {},
                Err(e) => {
                    proof {
                        lemma_image_attr_bad(am, j as int);
                    }
                    return Err(e);
                },
            }
            j = j + 1;
            proof {
                assert(am.take(j as int).drop_last() =~= am.take(j - 1));
                assert(am.take(j as int).last() == am[j - 1]);
                assert(reader_model(*self) == apply_image_attr(prev, am[j - 1].0, am[j - 1].1));
            }
        }
        proof {
            assert(am.take(am.len() as int) =~= am);
        }
        Ok(())
    }
}


/// Every attribute value of a keyword-record tag is UTF-8.
pub open spec fn kw_attrs_ok(a: Seq<(Seq<u8>, Seq<u8>)>) -> bool {
    forall|j: int| 0 <= j < a.len() ==> vstd::utf8::valid_utf8((#[trigger] a[j]).1)
}

/// An attribute list with one non-UTF-8 value is not acceptable.
proof fn lemma_kw_attr_bad(a: Seq<(Seq<u8>, Seq<u8>)>, j: int)
    requires
        0 <= j < a.len(),
        !vstd::utf8::valid_utf8(a[j].1),
    ensures
        !kw_attrs_ok(a),
{
    if kw_attrs_ok(a) {
        assert(vstd::utf8::valid_utf8(a[j].1));
    }
}

/// The concrete bytes of the keyword-record attribute names.
proof fn lemma_kw_key_bytes()
    ensures
        "name".spec_bytes() =~= seq![110u8, 97u8, 109u8, 101u8],
        "value".spec_bytes() =~= seq![118u8, 97u8, 108u8, 117u8, 101u8],
        "comment".spec_bytes() =~= seq![99u8, 111u8, 109u8, 109u8, 101u8, 110u8, 116u8],
{
    broadcast use vstd::string::is_ascii_spec_bytes;

    reveal_strlit("name");
    assert(vstd::string::is_ascii("name"));
    assert("name".spec_bytes() =~= Seq::new("name"@.len(), |i: int| "name"@.index(i) as u8));
    reveal_strlit("value");
    assert(vstd::string::is_ascii("value"));
    assert("value".spec_bytes() =~= Seq::new("value"@.len(), |i: int| "value"@.index(i) as u8));
    reveal_strlit("comment");
    assert(vstd::string::is_ascii("comment"));
    assert("comment".spec_bytes() =~= Seq::new(
        "comment"@.len(),
        |i: int| "comment"@.index(i) as u8,
    ));
}

/// Read one keyword-record tag: the last value each of `name`, `value` and
/// `comment` takes, or empty fields for the ones that never occur.
fn read_keyword_tag(attrs: &Vec<(Vec<u8>, Vec<u8>)>) -> (r: Result<FITSKeyword, XISFError>)
    ensures
        r is Ok <==> kw_attrs_ok(attrs_model(attrs@)),
        r matches Ok(k) ==> fits_keyword_model(k) == (KeywordModel {
            name: kw_attr_last(attrs_model(attrs@), "name".spec_bytes()),
            value: kw_attr_last(attrs_model(attrs@), "value".spec_bytes()),
            comment: kw_attr_last(attrs_model(attrs@), "comment".spec_bytes()),
        }),
        r matches Err(e) ==> e is Format,
{
    let ghost am = attrs_model(attrs@);
    let mut name = String::new();
    let mut value = String::new();
    let mut comment = String::new();
    let mut j: usize = 0;
    proof {
        assert(am.take(0) =~= Seq::<(Seq<u8>, Seq<u8>)>::empty());
    }
    while j < attrs.len()
        invariant
            am == attrs_model(attrs@),
            attrs@.len() == am.len(),
            j <= am.len(),
            forall|jj: int| 0 <= jj < j ==> vstd::utf8::valid_utf8((#[trigger] am[jj]).1),
            crate::fitswriter::string_bytes(name) == kw_attr_last(
                am.take(j as int),
                "name".spec_bytes(),
            ),
            crate::fitswriter::string_bytes(value) == kw_attr_last(
                am.take(j as int),
                "value".spec_bytes(),
            ),
            crate::fitswriter::string_bytes(comment) == kw_attr_last(
                am.take(j as int),
                "comment".spec_bytes(),
            ),
        decreases am.len() - j,
    {
        let k = &attrs[j].0;
        let v = &attrs[j].1;
        let sv = match text::bytes_to_string(vstd::slice::slice_to_vec(v.as_slice())) {
            Some(sv) => sv,
            None => {
                proof {
                    lemma_kw_attr_bad(am, j as int);
                }
                return Err(
                    XISFError::Format(String::from_str("keyword attribute is not UTF-8")),
                );
            },
        };
        proof {
            lemma_kw_key_bytes();
            assert(am.take(j + 1).drop_last() =~= am.take(j as int));
            assert(am.take(j + 1).last() == am[j as int]);
        }
        if text::bytes_eq(k.as_slice(), "name".as_bytes()) {
            name = sv;
        } else if text::bytes_eq(k.as_slice(), "value".as_bytes()) {
            value = sv;
        } else if text::bytes_eq(k.as_slice(), "comment".as_bytes()) {
            comment = sv;
        }
        j = j + 1;
    }
    proof {
        assert(am.take(am.len() as int) =~= am);
    }
    Ok(FITSKeyword { name, value, comment })
}

/// Taking one more tag extends the keyword records by that tag's record,
/// when it is a keyword tag.
proof fn lemma_kw_records_step(m: Seq<XmlTagModel>, i: int)
    requires
        0 <= i < m.len(),
    ensures
        kw_records(m.take(i + 1)) =~= kw_records(m.take(i)) + (if m[i].name
            == "FITSKeyword".spec_bytes() {
            seq![kw_record_of(m[i])]
        } else {
            Seq::empty()
        }),
{
    assert(m.take(i + 1).drop_last() =~= m.take(i));
    assert(m.take(i + 1).last() == m[i]);
}

/// Taking one more tag applies that tag's effect to the reader state.
proof fn lemma_apply_tags_step(s: XISFReaderModel, m: Seq<XmlTagModel>, i: int)
    requires
        0 <= i < m.len(),
    ensures
        apply_tags(s, m.take(i + 1)) == (if m[i].name == "Image".spec_bytes() {
            apply_image_attrs(apply_tags(s, m.take(i)), m[i].attrs)
        } else {
            apply_tags(s, m.take(i))
        }),
{
    assert(m.take(i + 1).drop_last() =~= m.take(i));
    assert(m.take(i + 1).last() == m[i]);
}

/// The concrete bytes of the two tag names the parser recognizes.
proof fn lemma_tag_name_bytes()
    ensures
        "Image".spec_bytes() =~= seq![73u8, 109u8, 97u8, 103u8, 101u8],
        "FITSKeyword".spec_bytes() =~= seq![
            70u8,
            73u8,
            84u8,
            83u8,
            75u8,
            101u8,
            121u8,
            119u8,
            111u8,
            114u8,
            100u8,
        ],
{
    broadcast use vstd::string::is_ascii_spec_bytes;

    reveal_strlit("Image");
    assert(vstd::string::is_ascii("Image"));
    assert("Image".spec_bytes() =~= Seq::new("Image"@.len(), |i: int| "Image"@.index(i) as u8));
    reveal_strlit("FITSKeyword");
    assert(vstd::string::is_ascii("FITSKeyword"));
    assert("FITSKeyword".spec_bytes() =~= Seq::new(
        "FITSKeyword"@.len(),
        |i: int| "FITSKeyword"@.index(i) as u8,
    ));
}

impl XISFHeaderReader {
    /// Read one start tag: an image-description tag updates the header
    /// fields, a keyword-record tag appends a record, anything else is
    /// ignored.
    fn process_tag(
        &mut self,
        tag: &XmlStartTag,
        xisf_fits_keywords: &mut Vec<FITSKeyword>,
    ) -> (r: Result<(), XISFError>)
        ensures
            r is Ok <==> tag_ok(tag_model(*tag)),
            r is Ok ==> reader_model(*final(self)) == (if tag_model(*tag).name
                == "Image".spec_bytes() {
                apply_image_attrs(reader_model(*old(self)), tag_model(*tag).attrs)
            } else {
                reader_model(*old(self))
            }),
            final(self).signature == old(self).signature,
            final(self).length == old(self).length,
            final(self).reserved == old(self).reserved,
            r is Ok ==> final(xisf_fits_keywords)@.len() == old(xisf_fits_keywords)@.len() + (
            if tag_model(*tag).name == "FITSKeyword".spec_bytes() {
                1int
            } else {
                0int
            }),
            forall|q: int|
                0 <= q < old(xisf_fits_keywords)@.len()
                    ==> #[trigger] final(xisf_fits_keywords)@[q] == old(xisf_fits_keywords)@[q],
            r is Ok && tag_model(*tag).name == "FITSKeyword".spec_bytes() ==> fits_keyword_model(
                final(xisf_fits_keywords)@.last(),
            ) == kw_record_of(tag_model(*tag)),
            r matches Err(e) ==> e is Format,
    {
        proof {
            lemma_tag_name_bytes();
        }
        if text::bytes_eq(tag.name.as_slice(), "Image".as_bytes()) {
            match self.apply_image_tag(&tag.attrs) {
                Ok(()) => Ok(()),
                Err(e) => Err(e),
            }
        } else if text::bytes_eq(tag.name.as_slice(), "FITSKeyword".as_bytes()) {
            match read_keyword_tag(&tag.attrs) {
                Ok(record) => {
                    proof {
                        assert(fits_keyword_model(record) =~~= kw_record_of(tag_model(*tag)));
                    }
                    xisf_fits_keywords.push(record);
                    Ok(())
                },
                Err(e) => Err(e),
            }
        } else {
            Ok(())
        }
    }

    /// Parse the XISF XML header tags and store the image description and
    /// the pass-through keyword records.
    #[verifier::rlimit(100)]
    pub fn fill_from_tags(
        &mut self,
        tags: &Vec<XmlStartTag>,
        xisf_fits_keywords: &mut Vec<FITSKeyword>,
    ) -> (r: Result<(), XISFError>)
        ensures
            r is Ok <==> tags_ok(tags_model(tags@)),
            r is Ok ==> reader_model(*final(self)) == apply_tags(
                reader_model(*old(self)),
                tags_model(tags@),
            ),
            final(self).signature == old(self).signature,
            final(self).length == old(self).length,
            final(self).reserved == old(self).reserved,
            r is Ok ==> final(xisf_fits_keywords)@.len() == old(xisf_fits_keywords)@.len()
                + kw_records(tags_model(tags@)).len(),
            r is Ok ==> forall|q: int|
                0 <= q < old(xisf_fits_keywords)@.len() ==> final(xisf_fits_keywords)@[q] == old(
                    xisf_fits_keywords,
                )@[q],
            r is Ok ==> forall|q: int|
                0 <= q < kw_records(tags_model(tags@)).len() ==> fits_keyword_model(
                    #[trigger] final(xisf_fits_keywords)@[old(xisf_fits_keywords)@.len() + q],
                ) == kw_records(tags_model(tags@))[q],
            r matches Err(e) ==> e is Format,
    {
        let ghost tm = tags_model(tags@);
        let ghost m0 = reader_model(*old(self));
        let ghost kw0 = xisf_fits_keywords@;
        let mut i: usize = 0;
        proof {
            assert(tm.take(0) =~= Seq::<XmlTagModel>::empty());
            assert(kw_records(tm.take(0)) =~= Seq::<KeywordModel>::empty());
        }
        while i < tags.len()
            invariant
                tm == tags_model(tags@),
                m0 == reader_model(*old(self)),
                tags@.len() == tm.len(),
                i <= tm.len(),
                forall|q: int| 0 <= q < i ==> #[trigger] tag_ok(tm[q]),
                reader_model(*self) == apply_tags(m0, tm.take(i as int)),
                self.signature == old(self).signature,
                self.length == old(self).length,
                self.reserved == old(self).reserved,
                xisf_fits_keywords@.len() == kw0.len() + kw_records(tm.take(i as int)).len(),
                forall|q: int| 0 <= q < kw0.len() ==> xisf_fits_keywords@[q] == kw0[q],
                forall|q: int|
                    0 <= q < kw_records(tm.take(i as int)).len() ==> fits_keyword_model(
                        #[trigger] xisf_fits_keywords@[kw0.len() + q],
                    ) == kw_records(tm.take(i as int))[q],
            decreases tm.len() - i,
        {
            let tag = &tags[i];
            proof {
                assert(tag_model(tags@[i as int]) == tm[i as int]);
                lemma_kw_records_step(tm, i as int);
                lemma_apply_tags_step(m0, tm, i as int);
            }
            match self.process_tag(tag, xisf_fits_keywords) {
                Ok(()) => {},
                Err(e) => {
                    proof {
                        lemma_tag_bad(tm, i as int);
                    }
                    return Err(e);
                },
            }
            i = i + 1;
        }
        proof {
            assert(tm.take(tm.len() as int) =~= tm);
        }
        Ok(())
    }

    /// Builds the final header; the image-description tag must have carried
    /// a geometry and a sample format, and the image's channel byte size
    /// must fit the machine word.
    pub fn build(self) -> (r: Result<XISFHeader, XISFError>)
        requires
            self.geometry matches Some(g) ==> g.wf(),
        ensures
            r is Ok <==> self.geometry is Some && self.sample_format is Some && (
            self.geometry matches Some(g) ==> g.spec_channel_size()
                * self.sample_format.unwrap().spec_size() <= usize::MAX),
            r matches Ok(h) ==> h == (XISFHeader {
                signature: self.signature,
                length: self.length,
                reserved: self.reserved,
                geometry: self.geometry.unwrap(),
                sample_format: self.sample_format.unwrap(),
                color_space: self.color_space,
                location: self.location,
                location_method: self.location_method,
                location_start: self.location_start,
                location_length: self.location_length,
                compression: self.compression,
                compression_codec: self.compression_codec,
                compression_size: self.compression_size,
            }) && h.wf(),
            r matches Err(e) ==> e is Format,
    {
        let geometry = match self.geometry {
            Some(g) => g,
            None => {
                return Err(XISFError::Format(String::from_str("missing image geometry")));
            },
        };
        let sample_format = match self.sample_format {
            Some(f) => f,
            None => {
                return Err(XISFError::Format(String::from_str("missing image sample format")));
            },
        };
        let samples = geometry.channel_size();
        let width = sample_format.size();
        if samples > usize::MAX / width {
            proof {
                lemma_mul_le_div(samples as int, width as int, usize::MAX as int);
            }
            return Err(XISFError::Format(String::from_str("image byte size overflows")));
        }
        proof {
            lemma_mul_le_div(samples as int, width as int, usize::MAX as int);
        }
        Ok(
            XISFHeader {
                signature: self.signature,
                length: self.length,
                reserved: self.reserved,
                geometry,
                sample_format,
                color_space: self.color_space,
                location: self.location,
                location_method: self.location_method,
                location_start: self.location_start,
                location_length: self.location_length,
                compression: self.compression,
                compression_codec: self.compression_codec,
                compression_size: self.compression_size,
            },
        )
    }
}

/// What the zlib decoder yields for a payload: the inflated bytes for a
/// well-formed stream, nothing for a corrupt one. The outcome is a function
/// of the payload bytes alone.
pub uninterp spec fn zlib_inflate(payload: Seq<u8>) -> Option<Seq<u8>>;

/// What the LZ4 decoder yields for a payload, a function of the payload
/// bytes alone.
pub uninterp spec fn lz4_inflate(payload: Seq<u8>) -> Option<Seq<u8>>;

/// Relies on flate2::read::ZlibDecoder (miniz_oxide backend): inflates the
/// whole stream into fresh bytes, reporting a corrupt stream as an error
/// rather than panicking; decoding is deterministic in the payload bytes.
#[verifier::external_body]
fn zlib_decompress(payload: &[u8]) -> (r: Option<Vec<u8>>)
    ensures
        r matches Some(b) ==> zlib_inflate(payload@) == Some(b@),
        r is None ==> zlib_inflate(payload@) is None,
{
    let mut decompressed = Vec::new();
    let mut decoder = flate2::read::ZlibDecoder::new(payload);
    match std::io::Read::read_to_end(&mut decoder, &mut decompressed) {
        Ok(_) => Some(decompressed),
        Err(_) => None,
    }
}

/// Relies on lz4_flex::frame::FrameDecoder (safe-decode, checked): inflates
/// the whole stream into fresh bytes, reporting a corrupt stream as an
/// error rather than panicking; decoding is deterministic in the payload
/// bytes.
#[verifier::external_body]
fn lz4_decompress(payload: &[u8]) -> (r: Option<Vec<u8>>)
    ensures
        r matches Some(b) ==> lz4_inflate(payload@) == Some(b@),
        r is None ==> lz4_inflate(payload@) is None,
{
    let mut decompressed = Vec::new();
    let mut decoder = lz4_flex::frame::FrameDecoder::new(payload);
    match std::io::Read::read_to_end(&mut decoder, &mut decompressed) {
        Ok(_) => Some(decompressed),
        Err(_) => None,
    }
}

/// Accept a decompressed buffer only when its length equals the declared
/// uncompressed size; a mismatch is corruption, never truncated or padded.
pub fn check_decompressed_size(data: Vec<u8>, expected: usize) -> (r: Result<
    Vec<u8>,
    XISFError,
>)
    ensures
        data@.len() == expected ==> (r matches Ok(d) && d@ == data@),
        data@.len() != expected ==> (r matches Err(e) && e == (XISFError::Integrity {
            expected,
            actual: data@.len() as usize,
        })),
{
    if data.len() != expected {
        let actual = data.len();
        return Err(XISFError::Integrity { expected, actual });
    }
    Ok(data)
}

/// The codec names the decompressor implements.
pub open spec fn codec_supported(c: Seq<u8>) -> bool {
    c == "zlib".spec_bytes() || c == "zlib+sh".spec_bytes() || c == "lz4".spec_bytes()
}

/// The codec names that are recognized but not implemented.
pub open spec fn codec_unimplemented(c: Seq<u8>) -> bool {
    c == "lz4+sh".spec_bytes() || c == "lz4hc".spec_bytes()
}

/// A shuffle-enabled codec name.
pub open spec fn codec_shuffled(c: Seq<u8>) -> bool {
    c == "zlib+sh".spec_bytes()
}

/// What decompressing a payload under a supported codec yields.
pub open spec fn spec_inflate(c: Seq<u8>, payload: Seq<u8>) -> Option<Seq<u8>> {
    if c == "zlib".spec_bytes() || c == "zlib+sh".spec_bytes() {
        zlib_inflate(payload)
    } else {
        lz4_inflate(payload)
    }
}

/// Whether the unshuffling pass runs after decompression: the codec asked
/// for it and the samples are wider than one byte.
pub open spec fn unshuffle_applies(c: Seq<u8>, width: int) -> bool {
    codec_shuffled(c) && width > 1
}

/// The codec name bytes a header declares.
pub open spec fn spec_codec(h: XISFHeader) -> Seq<u8> {
    crate::fitswriter::string_bytes(h.compression_codec)
}

/// Uncompress image data: dispatch on the declared codec, demand that the
/// result has exactly the declared uncompressed size, and undo the byte
/// shuffle when the codec asked for one.
pub fn xisf_uncompress_data(xisf_header: &XISFHeader, image_data: &[u8]) -> (r: Result<
    Vec<u8>,
    XISFError,
>)
    ensures
        r is Ok <==> ({
            &&& codec_supported(spec_codec(*xisf_header))
            &&& spec_inflate(spec_codec(*xisf_header), image_data@) matches Some(b)
            &&& spec_inflate(spec_codec(*xisf_header), image_data@).unwrap().len()
                == xisf_header.compression_size
            &&& unshuffle_applies(
                spec_codec(*xisf_header),
                xisf_header.sample_format.spec_size() as int,
            ) ==> spec_inflate(spec_codec(*xisf_header), image_data@).unwrap().len() as int % (
            xisf_header.sample_format.spec_size() as int) == 0
        }),
        r matches Ok(d) ==> d@ == (if unshuffle_applies(
            spec_codec(*xisf_header),
            xisf_header.sample_format.spec_size() as int,
        ) {
            convert::unshuffle_seq(
                spec_inflate(spec_codec(*xisf_header), image_data@).unwrap(),
                xisf_header.sample_format.spec_size() as int,
            )
        } else {
            spec_inflate(spec_codec(*xisf_header), image_data@).unwrap()
        }),
        !codec_supported(spec_codec(*xisf_header)) && codec_unimplemented(
            spec_codec(*xisf_header),
        ) ==> (r matches Err(e) && e is Unsupported),
        !codec_supported(spec_codec(*xisf_header)) && !codec_unimplemented(
            spec_codec(*xisf_header),
        ) ==> (r matches Err(e) && e is Format),
        ({
            &&& codec_supported(spec_codec(*xisf_header))
            &&& spec_inflate(spec_codec(*xisf_header), image_data@) matches Some(b)
            &&& spec_inflate(spec_codec(*xisf_header), image_data@).unwrap().len()
                != xisf_header.compression_size
        }) ==> (r matches Err(e) && e == (XISFError::Integrity {
            expected: xisf_header.compression_size,
            actual: spec_inflate(spec_codec(*xisf_header), image_data@).unwrap().len() as usize,
        })),
{
    let codec = xisf_header.compression_codec.as_str().as_bytes();
    let is_zlib = text::bytes_eq(codec, "zlib".as_bytes());
    let is_zlib_sh = text::bytes_eq(codec, "zlib+sh".as_bytes());
    let is_lz4 = text::bytes_eq(codec, "lz4".as_bytes());
    let decompressed: Vec<u8> = if is_zlib || is_zlib_sh {
        match zlib_decompress(image_data) {
            Some(d) => d,
            None => {
                return Err(XISFError::Format(String::from_str("cannot uncompress zlib data")));
            },
        }
    } else if is_lz4 {
        match lz4_decompress(image_data) {
            Some(d) => d,
            None => {
                return Err(XISFError::Format(String::from_str("cannot uncompress lz4 data")));
            },
        }
    } else if text::bytes_eq(codec, "lz4+sh".as_bytes()) || text::bytes_eq(
        codec,
        "lz4hc".as_bytes(),
    ) {
        return Err(XISFError::Unsupported(String::from_str("compression codec")));
    } else {
        return Err(XISFError::Format(String::from_str("unknown compression codec")));
    };
    let decompressed = match check_decompressed_size(decompressed, xisf_header.compression_size) {
        Ok(d) => d,
        Err(e) => {
            return Err(e);
        },
    };
    let width = xisf_header.sample_format.size();
    if width > 1 && is_zlib_sh {
        if decompressed.len() % width != 0 {
            return Err(
                XISFError::Format(
                    String::from_str("shuffled data is not a multiple of the sample size"),
                ),
            );
        }
        Ok(convert::unshuffle(decompressed.as_slice(), width))
    } else {
        Ok(decompressed)
    }
}

/// A product of positive factors is positive.
proof fn lemma_dims_product_pos(dims: Seq<usize>)
    requires
        forall|i: int| 0 <= i < dims.len() ==> #[trigger] dims[i] >= 1,
    ensures
        dims_product(dims) >= 1,
    decreases dims.len(),
{
    if dims.len() > 0 {
        lemma_dims_product_pos(dims.drop_last());
        assert(dims_product(dims) == dims_product(dims.drop_last()) * (dims.last() as int));
        assert(dims_product(dims.drop_last()) * (dims.last() as int) >= 1) by (nonlinear_arith)
            requires
                dims_product(dims.drop_last()) >= 1,
                dims.last() >= 1,
        ;
    }
}

/// The number of whole channels a buffer holds: the declared channel count,
/// or fewer when the buffer runs short.
pub open spec fn spec_channel_chunks(len: int, cbs: int, count: int) -> int {
    if count < len / cbs {
        count
    } else {
        len / cbs
    }
}

/// Cut a buffer into back-to-back channel windows of `cbs` bytes, at most
/// `count` of them; a trailing partial window is dropped.
fn split_channel_chunks(data: &[u8], cbs: usize, count: usize) -> (r: Vec<Vec<u8>>)
    requires
        cbs >= 1,
    ensures
        r@.len() == spec_channel_chunks(data@.len() as int, cbs as int, count as int),
        forall|c: int|
            0 <= c < r@.len() ==> #[trigger] r@[c]@ == data@.subrange(c * cbs, c * cbs + cbs),
        forall|c: int| 0 <= c < r@.len() ==> (#[trigger] r@[c])@.len() == cbs,
{
    let dlen: usize = data.len();
    let max_chunks: usize = dlen / cbs;
    let num: usize = if count < max_chunks {
        count
    } else {
        max_chunks
    };
    let mut chunks: Vec<Vec<u8>> = Vec::new();
    let mut c: usize = 0;
    while c < num
        invariant
            cbs >= 1,
            dlen == data@.len(),
            num <= data@.len() as int / cbs as int,
            c <= num,
            chunks@.len() == c,
            forall|q: int|
                0 <= q < c ==> #[trigger] chunks@[q]@ == data@.subrange(q * cbs, q * cbs + cbs),
            forall|q: int| 0 <= q < c ==> (#[trigger] chunks@[q])@.len() == cbs,
        decreases num - c,
    {
        proof {
            assert((c + 1) * cbs <= (data@.len() as int / cbs as int) * cbs) by (nonlinear_arith)
                requires
                    c + 1 <= data@.len() as int / cbs as int,
                    cbs >= 1,
            ;
            assert((data@.len() as int / cbs as int) * cbs <= data@.len()) by (nonlinear_arith)
                requires
                    cbs >= 1,
                    0 <= data@.len(),
            ;
            assert((c + 1) * cbs == c * cbs + cbs) by (nonlinear_arith);
        }
        let start = c * cbs;
        let chunk = vstd::slice::slice_to_vec(vstd::slice::slice_subrange(data, start, start + cbs));
        chunks.push(chunk);
        c = c + 1;
    }
    chunks
}

/// Split a payload into per-channel windows and decode each one according
/// to the declared sample format; unsupported formats are a hard failure.
pub fn xisf_read_channels(header: &XISFHeader, data: &[u8]) -> (r: Result<XISFData, XISFError>)
    requires
        header.wf(),
        header.spec_channel_byte_size() >= 1,
    ensures
        r is Ok <==> (header.sample_format == XISFSampleFormat::UInt8 || header.sample_format
            == XISFSampleFormat::UInt16 || header.sample_format == XISFSampleFormat::UInt32
            || header.sample_format == XISFSampleFormat::Float32 || header.sample_format
            == XISFSampleFormat::Float64),
        r matches Err(e) ==> e is Unsupported,
        r matches Ok(d) ==> d.spec_sample_format() == Some(header.sample_format),
        r matches Ok(d) ==> channels_decoded(*header, data@, d),
{
    let cbs = header.channel_size();
    let count = header.geometry.channel_count();
    match header.sample_format {
        XISFSampleFormat::UInt8 => {
            let chunks = split_channel_chunks(data, cbs, count);
            Ok(XISFData::UInt8(chunks))
        },
        XISFSampleFormat::UInt16 => {
            let chunks = split_channel_chunks(data, cbs, count);
            let mut out: Vec<Vec<u16>> = Vec::new();
            let mut c: usize = 0;
            while c < chunks.len()
                invariant
                    c <= chunks@.len(),
                    out@.len() == c,
                    forall|q: int|
                        0 <= q < c ==> (#[trigger] out@[q])@.len() == chunks@[q]@.len() as int / 2,
                    forall|q: int, k: int|
                        0 <= q < c && 0 <= k < out@[q]@.len() ==> (#[trigger] out@[q]@[k])
                            == convert::le_u16_at(chunks@[q]@, k),
                decreases chunks@.len() - c,
            {
                out.push(convert::u8_to_v_u16(chunks[c].as_slice()));
                c = c + 1;
            }
            proof {
                let samples = header.geometry.spec_channel_size();
                assert forall|q: int| 0 <= q < out@.len() implies (#[trigger] out@[q])@.len()
                    == samples by {
                    assert(chunks@[q]@.len() == cbs);
                    assert((samples * 2) / 2 == samples) by (nonlinear_arith);
                }
            }
            Ok(XISFData::UInt16(out))
        },
        XISFSampleFormat::UInt32 => {
            let chunks = split_channel_chunks(data, cbs, count);
            let mut out: Vec<Vec<u32>> = Vec::new();
            let mut c: usize = 0;
            while c < chunks.len()
                invariant
                    c <= chunks@.len(),
                    out@.len() == c,
                    forall|q: int|
                        0 <= q < c ==> (#[trigger] out@[q])@.len() == chunks@[q]@.len() as int / 4,
                    forall|q: int, k: int|
                        0 <= q < c && 0 <= k < out@[q]@.len() ==> (#[trigger] out@[q]@[k])
                            == convert::le_u32_at(chunks@[q]@, k),
                decreases chunks@.len() - c,
            {
                out.push(convert::u8_to_v_u32(chunks[c].as_slice()));
                c = c + 1;
            }
            proof {
                let samples = header.geometry.spec_channel_size();
                assert forall|q: int| 0 <= q < out@.len() implies (#[trigger] out@[q])@.len()
                    == samples by {
                    assert(chunks@[q]@.len() == cbs);
                    assert((samples * 4) / 4 == samples) by (nonlinear_arith);
                }
            }
            Ok(XISFData::UInt32(out))
        },
        XISFSampleFormat::Float32 => {
            let chunks = split_channel_chunks(data, cbs, count);
            Ok(XISFData::Float32(chunks))
        },
        XISFSampleFormat::Float64 => {
            let chunks = split_channel_chunks(data, cbs, count);
            Ok(XISFData::Float64(chunks))
        },
        _ => Err(XISFError::Unsupported(String::from_str("sample format"))),
    }
}

/// The decoded channels hold exactly the payload's channel windows,
/// reinterpreted according to the declared sample format: byte and
/// floating-point channels keep the window bytes, and 16- and 32-bit
/// channels hold the little-endian values of each window.
pub open spec fn channels_decoded(header: XISFHeader, data: Seq<u8>, d: XISFData) -> bool {
    let cbs = header.spec_channel_byte_size();
    let num = spec_channel_chunks(data.len() as int, cbs, header.geometry.channel_count as int);
    match d {
        XISFData::Empty => false,
        XISFData::UInt8(ch) => {
            &&& ch@.len() == num
            &&& forall|c: int|
                0 <= c < num ==> (#[trigger] ch@[c])@ == data.subrange(c * cbs, c * cbs + cbs)
        },
        XISFData::UInt16(ch) => {
            &&& ch@.len() == num
            &&& forall|c: int|
                0 <= c < num ==> (#[trigger] ch@[c])@.len() == header.geometry.spec_channel_size()
            &&& forall|c: int, k: int|
                0 <= c < num && 0 <= k < ch@[c]@.len() ==> (#[trigger] ch@[c]@[k])
                    == convert::le_u16_at(data.subrange(c * cbs, c * cbs + cbs), k)
        },
        XISFData::UInt32(ch) => {
            &&& ch@.len() == num
            &&& forall|c: int|
                0 <= c < num ==> (#[trigger] ch@[c])@.len() == header.geometry.spec_channel_size()
            &&& forall|c: int, k: int|
                0 <= c < num && 0 <= k < ch@[c]@.len() ==> (#[trigger] ch@[c]@[k])
                    == convert::le_u32_at(data.subrange(c * cbs, c * cbs + cbs), k)
        },
        XISFData::Float32(ch) => {
            &&& ch@.len() == num
            &&& forall|c: int|
                0 <= c < num ==> (#[trigger] ch@[c])@ == data.subrange(c * cbs, c * cbs + cbs)
        },
        XISFData::Float64(ch) => {
            &&& ch@.len() == num
            &&& forall|c: int|
                0 <= c < num ==> (#[trigger] ch@[c])@ == data.subrange(c * cbs, c * cbs + cbs)
        },
    }
}

/// A geometry pair produced by the parser: positive axis lengths and
/// channel count, with no prefix of the axis product overflowing.
pub open spec fn geom_pair_ok(p: (Seq<usize>, usize)) -> bool {
    &&& forall|i: int| 0 <= i <= p.0.len() ==> dims_product(#[trigger] p.0.take(i)) <= usize::MAX
    &&& forall|i: int| 0 <= i < p.0.len() ==> #[trigger] p.0[i] >= 1
    &&& p.1 >= 1
}

/// A valid geometry attribute value parses to an acceptable pair.
proof fn lemma_geometry_val_pair_ok(v: Seq<u8>)
    requires
        geometry_val_ok(v),
    ensures
        geom_pair_ok((spec_geometry_dims(v), spec_geometry_channels(v))),
{
    let parts = text::split_bytes(v, COLON);
    text::lemma_split_bytes_len(v, COLON);
    assert forall|i: int| 0 <= i < spec_geometry_dims(v).len() implies #[trigger] spec_geometry_dims(
        v,
    )[i] >= 1 by {
        assert(geometry_part_ok(parts[i]));
    }
    assert(geometry_part_ok(parts[parts.len() - 1]));
}

/// Applying acceptable image attributes preserves geometry acceptability.
proof fn lemma_apply_attrs_geom_ok(s: XISFReaderModel, attrs: Seq<(Seq<u8>, Seq<u8>)>)
    requires
        image_attrs_ok(attrs),
        s.geometry matches Some(p) ==> geom_pair_ok(p),
    ensures
        apply_image_attrs(s, attrs).geometry matches Some(p) ==> geom_pair_ok(p),
    decreases attrs.len(),
{
    if attrs.len() > 0 {
        assert(image_attrs_ok(attrs.drop_last())) by {
            assert forall|j: int| 0 <= j < attrs.drop_last().len() implies #[trigger] image_attr_ok(
                attrs.drop_last()[j].0,
                attrs.drop_last()[j].1,
            ) by {
                assert(image_attr_ok(attrs[j].0, attrs[j].1));
            }
        }
        lemma_apply_attrs_geom_ok(s, attrs.drop_last());
        let k = attrs.last().0;
        let v = attrs.last().1;
        assert(image_attr_ok(k, v));
        if k == "geometry".spec_bytes() {
            lemma_geometry_val_pair_ok(v);
        }
    }
}

/// Applying acceptable tags preserves geometry acceptability.
proof fn lemma_apply_tags_geom_ok(s: XISFReaderModel, m: Seq<XmlTagModel>)
    requires
        tags_ok(m),
        s.geometry matches Some(p) ==> geom_pair_ok(p),
    ensures
        apply_tags(s, m).geometry matches Some(p) ==> geom_pair_ok(p),
    decreases m.len(),
{
    if m.len() > 0 {
        assert(tags_ok(m.drop_last())) by {
            assert forall|i: int| 0 <= i < m.drop_last().len() implies #[trigger] tag_ok(
                m.drop_last()[i],
            ) by {
                assert(tag_ok(m[i]));
            }
        }
        lemma_apply_tags_geom_ok(s, m.drop_last());
        assert(tag_ok(m.last())) by {
            assert(tag_ok(m[m.len() - 1]));
        }
        if m.last().name == "Image".spec_bytes() {
            lemma_apply_attrs_geom_ok(apply_tags(s, m.drop_last()), m.last().attrs);
        }
    }
}

/// The reader state before any tag is read.
pub open spec fn initial_reader_model() -> XISFReaderModel {
    XISFReaderModel {
        geometry: None,
        sample_format: None,
        color_space: Seq::empty(),
        location: Seq::empty(),
        location_method: Seq::empty(),
        location_start: 0,
        location_length: 0,
        compression: Seq::empty(),
        compression_codec: Seq::empty(),
        compression_size: 0,
    }
}

/// The header carries exactly the fields of the reader state.
pub open spec fn xisf_header_model_ok(h: XISFHeader, m: XISFReaderModel) -> bool {
    &&& m.geometry matches Some(p)
    &&& h.geometry.dimensions@ == m.geometry.unwrap().0
    &&& h.geometry.channel_count == m.geometry.unwrap().1
    &&& m.sample_format == Some(h.sample_format)
    &&& crate::fitswriter::string_bytes(h.color_space) == m.color_space
    &&& crate::fitswriter::string_bytes(h.location) == m.location
    &&& crate::fitswriter::string_bytes(h.location_method) == m.location_method
    &&& h.location_start == m.location_start
    &&& h.location_length == m.location_length
    &&& crate::fitswriter::string_bytes(h.compression) == m.compression
    &&& crate::fitswriter::string_bytes(h.compression_codec) == m.compression_codec
    &&& h.compression_size == m.compression_size
}

/// Whether the pixel payload is read at all: the location method is
/// `attachment` and the declared range lies within the file.
pub open spec fn attachment_readable(h: XISFHeader, file_len: int) -> bool {
    &&& crate::fitswriter::string_bytes(h.location_method) == "attachment".spec_bytes()
    &&& h.location_start + h.location_length <= file_len
}

/// The payload bytes the location attribute addresses.
pub open spec fn spec_payload(buffer: Seq<u8>, h: XISFHeader) -> Seq<u8> {
    buffer.subrange(h.location_start as int, h.location_start + h.location_length)
}

/// The decompressed and unshuffled pixel bytes, when every stage succeeds:
/// an empty codec name passes the payload through unchanged.
pub open spec fn spec_pixel_bytes(buffer: Seq<u8>, h: XISFHeader) -> Option<Seq<u8>> {
    let payload = spec_payload(buffer, h);
    let c = spec_codec(h);
    let width = h.sample_format.spec_size() as int;
    if c.len() == 0 {
        Some(payload)
    } else if ({
        &&& codec_supported(c)
        &&& spec_inflate(c, payload) matches Some(b)
        &&& spec_inflate(c, payload).unwrap().len() == h.compression_size
        &&& unshuffle_applies(c, width) ==> spec_inflate(c, payload).unwrap().len() as int % width
            == 0
    }) {
        if unshuffle_applies(c, width) {
            Some(convert::unshuffle_seq(spec_inflate(c, payload).unwrap(), width))
        } else {
            Some(spec_inflate(c, payload).unwrap())
        }
    } else {
        None
    }
}

/// The sample formats the channel decoder implements.
pub open spec fn format_supported(f: XISFSampleFormat) -> bool {
    f == XISFSampleFormat::UInt8 || f == XISFSampleFormat::UInt16 || f == XISFSampleFormat::UInt32
        || f == XISFSampleFormat::Float32 || f == XISFSampleFormat::Float64
}

/// Everything the header stage demands of the container bytes: a sound
/// preamble, XML of the declared length that parses, acceptable attribute
/// values, a geometry and a sample format, and a channel byte size that
/// fits the machine word.
#[verifier::opaque]
pub open spec fn spec_header_ok(buffer: Seq<u8>) -> bool {
    let xml = buffer.subrange(16, 16 + convert::le_u32_at(buffer, 2));
    &&& buffer.len() >= 16
    &&& buffer.subrange(0, 8) == "XISF0100".spec_bytes()
    &&& 16 + convert::le_u32_at(buffer, 2) <= buffer.len()
    &&& xml_start_tags_of(xml) matches Some(tags)
    &&& tags_ok(xml_start_tags_of(xml).unwrap())
    &&& ({
        let m = apply_tags(initial_reader_model(), xml_start_tags_of(xml).unwrap());
        &&& m.geometry is Some
        &&& m.sample_format is Some
        &&& dims_product(m.geometry.unwrap().0) * m.sample_format.unwrap().spec_size()
            <= usize::MAX
    })
}

/// What the pixel stage demands, where the payload is attached and within
/// the file: a supported sample format and, under compression, a supported
/// codec whose output has the declared size and shuffle alignment.
pub open spec fn spec_pixels_ok(buffer: Seq<u8>, m: XISFReaderModel) -> bool {
    (m.location_method == "attachment".spec_bytes() && m.location_start + m.location_length
        <= buffer.len()) ==> ({
        let payload = buffer.subrange(m.location_start as int, m.location_start + m.location_length);
        let c = m.compression_codec;
        let width = m.sample_format.unwrap().spec_size() as int;
        &&& format_supported(m.sample_format.unwrap())
        &&& c.len() == 0 || ({
            &&& codec_supported(c)
            &&& spec_inflate(c, payload) matches Some(b)
            &&& spec_inflate(c, payload).unwrap().len() == m.compression_size
            &&& unshuffle_applies(c, width) ==> spec_inflate(c, payload).unwrap().len() as int
                % width == 0
        })
    })
}

/// Everything that must hold of the container bytes for a conversion to
/// succeed: the header stage and, where pixels are attached, the pixel
/// stage.
pub open spec fn spec_parse_ok(buffer: Seq<u8>) -> bool {
    let xml = buffer.subrange(16, 16 + convert::le_u32_at(buffer, 2));
    &&& spec_header_ok(buffer)
    &&& spec_pixels_ok(buffer, apply_tags(initial_reader_model(), xml_start_tags_of(xml).unwrap()))
}

/// The reader state the XML header of a container yields.
pub open spec fn spec_buffer_model(buffer: Seq<u8>) -> XISFReaderModel {
    apply_tags(
        initial_reader_model(),
        xml_start_tags_of(buffer.subrange(16, 16 + convert::le_u32_at(buffer, 2))).unwrap(),
    )
}

/// The payload bytes a reader state's location addresses.
pub open spec fn spec_model_payload(buffer: Seq<u8>, m: XISFReaderModel) -> Seq<u8> {
    buffer.subrange(m.location_start as int, m.location_start + m.location_length)
}

/// A decoded XISF container: the parsed header, the pass-through keyword
/// records, and one typed buffer per channel.
#[derive(Debug)]
pub struct XISFile {
    pub header: XISFHeader,
    pub keywords: Vec<FITSKeyword>,
    pub data: XISFData,
}

impl XISFile {
    pub fn header(&self) -> (r: &XISFHeader)
        ensures
            r == self.header,
    {
        &self.header
    }

    pub fn keywords(&self) -> (r: &Vec<FITSKeyword>)
        ensures
            r == self.keywords,
    {
        &self.keywords
    }

    pub fn data(&self) -> (r: &XISFData)
        ensures
            r == self.data,
    {
        &self.data
    }
}

/// Read the attached pixel payload, where there is one: cut it out of the
/// file, decompress and unshuffle it as the header asks, and split it into
/// typed channel buffers. A container whose payload is not attached, or
/// whose declared range leaves the file, yields no data and no error.
#[verifier::rlimit(100)]
pub fn xisf_read_data(header: &XISFHeader, buffer: &[u8]) -> (r: Result<XISFData, XISFError>)
    requires
        header.wf(),
        geom_pair_ok((header.geometry.dimensions@, header.geometry.channel_count)),
    ensures
        r is Ok <==> (attachment_readable(*header, buffer@.len() as int) ==> ({
            &&& format_supported(header.sample_format)
            &&& spec_codec(*header).len() == 0 || ({
                let payload = spec_payload(buffer@, *header);
                let c = spec_codec(*header);
                let width = header.sample_format.spec_size() as int;
                &&& codec_supported(c)
                &&& spec_inflate(c, payload) matches Some(b)
                &&& spec_inflate(c, payload).unwrap().len() == header.compression_size
                &&& unshuffle_applies(c, width) ==> spec_inflate(c, payload).unwrap().len() as int
                    % width == 0
            })
        })),
        r matches Ok(d) ==> (attachment_readable(*header, buffer@.len() as int) ==> (
        spec_pixel_bytes(buffer@, *header) matches Some(px) && channels_decoded(
            *header,
            spec_pixel_bytes(buffer@, *header).unwrap(),
            d,
        ))),
        r matches Ok(d) ==> (!attachment_readable(*header, buffer@.len() as int) ==> d is Empty),
        r matches Ok(d) ==> (attachment_readable(*header, buffer@.len() as int)
            ==> d.spec_sample_format() == Some(header.sample_format)),
        ({
            &&& attachment_readable(*header, buffer@.len() as int)
            &&& spec_pixel_bytes(buffer@, *header) is Some
            &&& !format_supported(header.sample_format)
        }) ==> (r matches Err(e) && e is Unsupported),
        ({
            &&& attachment_readable(*header, buffer@.len() as int)
            &&& spec_codec(*header).len() != 0
            &&& codec_supported(spec_codec(*header))
            &&& spec_inflate(spec_codec(*header), spec_payload(buffer@, *header)) matches Some(b)
            &&& spec_inflate(
                spec_codec(*header),
                spec_payload(buffer@, *header),
            ).unwrap().len() != header.compression_size
        }) ==> (r matches Err(e) && e == (XISFError::Integrity {
            expected: header.compression_size,
            actual: spec_inflate(
                spec_codec(*header),
                spec_payload(buffer@, *header),
            ).unwrap().len() as usize,
        })),
{
    let method_ok = text::bytes_eq(
        header.location_method.as_str().as_bytes(),
        "attachment".as_bytes(),
    );
    let blen = buffer.len();
    if method_ok && header.location_start <= blen as u64 && header.location_length <= blen as u64
        - header.location_start {
        let start = header.location_start as usize;
        let plen = header.location_length as usize;
        let payload = vstd::slice::slice_subrange(buffer, start, start + plen);
        let codec_empty = header.compression_codec.as_str().as_bytes().len() == 0;
        let pixel_bytes: Vec<u8> = if codec_empty {
            vstd::slice::slice_to_vec(payload)
        } else {
            match xisf_uncompress_data(header, payload) {
                Ok(d) => d,
                Err(e) => {
                    return Err(e);
                },
            }
        };
        proof {
            assert(pixel_bytes@ == spec_pixel_bytes(buffer@, *header).unwrap());
            let ghost pr = (header.geometry.dimensions@, header.geometry.channel_count);
            assert(geom_pair_ok(pr));
            assert forall|i: int| 0 <= i < header.geometry.dimensions@.len() implies #[trigger] header.geometry.dimensions@[i] >= 1 by {
                assert(pr.0[i] >= 1);
            }
            lemma_dims_product_pos(header.geometry.dimensions@);
            assert(header.geometry.spec_channel_size() * header.sample_format.spec_size() >= 1)
                by (nonlinear_arith)
                requires
                    header.geometry.spec_channel_size() >= 1,
                    header.sample_format.spec_size() >= 1,
            ;
        }
        match xisf_read_channels(header, pixel_bytes.as_slice()) {
            Ok(d) => Ok(d),
            Err(e) => Err(e),
        }
    } else {
        Ok(XISFData::Empty)
    }
}

/// Read the fixed binary preamble: the 8-byte magic signature, which must
/// match exactly before anything else is looked at, the little-endian XML
/// length, and the reserved field.
fn xisf_read_preamble(buffer: &[u8]) -> (r: Result<(String, u32, u32), XISFError>)
    ensures
        r is Ok <==> buffer@.len() >= 16 && buffer@.subrange(0, 8) == "XISF0100".spec_bytes(),
        r matches Err(e) ==> e is Format,
        r matches Ok(p) ==> p.0@ == "XISF0100"@ && crate::fitswriter::string_bytes(p.0)
            == "XISF0100".spec_bytes() && p.1 == convert::le_u32_at(buffer@, 2) && p.2
            == convert::le_u32_at(buffer@, 3),
{
    if buffer.len() < 16 {
        return Err(XISFError::Format(String::from_str("truncated container preamble")));
    }
    let sig_slice = vstd::slice::slice_subrange(buffer, 0, 8);
    if !text::bytes_eq(sig_slice, "XISF0100".as_bytes()) {
        return Err(XISFError::Format(String::from_str("incorrect container signature")));
    }
    let signature = match text::bytes_to_string(vstd::slice::slice_to_vec(sig_slice)) {
        Some(sg) => sg,
        None => {
            proof {
                lemma_magic_bytes();
            }
            return Err(XISFError::Format(String::from_str("incorrect container signature")));
        },
    };
    proof {
        lemma_magic_bytes();
        vstd::utf8::encode_utf8_decode_utf8(signature@);
        vstd::utf8::encode_utf8_decode_utf8("XISF0100"@);
    }
    let length_bytes = vstd::slice::slice_subrange(buffer, 8, 12);
    let length_vals = convert::u8_to_v_u32(length_bytes);
    let length = length_vals[0];
    let reserved_bytes = vstd::slice::slice_subrange(buffer, 12, 16);
    let reserved_vals = convert::u8_to_v_u32(reserved_bytes);
    let reserved = reserved_vals[0];
    proof {
        assert(length == convert::le_u32_at(buffer@, 2));
        assert(reserved == convert::le_u32_at(buffer@, 3));
    }
    Ok((signature, length, reserved))
}

/// Build the header from the parsed XML start tags together with the
/// preamble fields, collecting the keyword records on the way.
#[verifier::rlimit(100)]
fn xisf_build_header(
    tags: &Vec<XmlStartTag>,
    signature: String,
    length: u32,
    reserved: u32,
    keywords: &mut Vec<FITSKeyword>,
) -> (r: Result<XISFHeader, XISFError>)
    requires
        old(keywords)@.len() == 0,
    ensures
        r is Ok <==> ({
            let m = apply_tags(initial_reader_model(), tags_model(tags@));
            &&& tags_ok(tags_model(tags@))
            &&& m.geometry is Some
            &&& m.sample_format is Some
            &&& dims_product(m.geometry.unwrap().0) * m.sample_format.unwrap().spec_size()
                <= usize::MAX
        }),
        r matches Err(e) ==> e is Format,
        r matches Ok(h) ==> ({
            let m = apply_tags(initial_reader_model(), tags_model(tags@));
            &&& h.signature == signature
            &&& h.length == length
            &&& h.reserved == reserved
            &&& xisf_header_model_ok(h, m)
            &&& h.wf()
            &&& geom_pair_ok((h.geometry.dimensions@, h.geometry.channel_count))
            &&& final(keywords)@.len() == kw_records(tags_model(tags@)).len()
            &&& forall|q: int|
                0 <= q < final(keywords)@.len() ==> fits_keyword_model(
                    #[trigger] final(keywords)@[q],
                ) == kw_records(tags_model(tags@))[q]
        }),
{
    let ghost tm = tags_model(tags@);
    let mut reader = XISFHeaderReader::new();
    reader.signature = signature;
    reader.length = length;
    reader.reserved = reserved;
    proof {
        assert(reader_model(reader) =~~= initial_reader_model());
    }
    match reader.fill_from_tags(tags, keywords) {
        Ok(()) => {},
        Err(e) => {
            return Err(e);
        },
    }
    proof {
        lemma_apply_tags_geom_ok(initial_reader_model(), tm);
        if reader.geometry is Some {
            let g = reader.geometry.unwrap();
            let p = (g.dimensions@, g.channel_count);
            assert(reader_model(reader).geometry == Some(p));
            assert(geom_pair_ok(p));
            assert forall|i: int| 0 <= i <= g.dimensions@.len() implies dims_product(
                #[trigger] g.dimensions@.take(i),
            ) <= usize::MAX by {
                assert(dims_product(p.0.take(i)) <= usize::MAX);
            }
            assert(g.wf());
        }
    }
    proof {
        assert forall|q: int| 0 <= q < keywords@.len() implies fits_keyword_model(
            #[trigger] keywords@[q],
        ) == kw_records(tm)[q] by {
            assert(fits_keyword_model(keywords@[0 + q]) == kw_records(tm)[q]);
        }
    }
    match reader.build() {
        Ok(h) => Ok(h),
        Err(e) => Err(e),
    }
}

/// Read the binary preamble and the XML header: check the magic signature
/// before anything else, then build the header and collect the keyword
/// records.
#[verifier::rlimit(100)]
fn xisf_read_header(buffer: &[u8]) -> (r: Result<(XISFHeader, Vec<FITSKeyword>), XISFError>)
    ensures
        r is Ok <==> spec_header_ok(buffer@),
        (buffer@.len() < 16 || buffer@.subrange(0, 8) != "XISF0100".spec_bytes()) ==> (
        r matches Err(e) && e is Format),
        r matches Ok(hk) ==> ({
            let xml = buffer@.subrange(16, 16 + convert::le_u32_at(buffer@, 2));
            let m = apply_tags(initial_reader_model(), xml_start_tags_of(xml).unwrap());
            &&& hk.0.signature@ == "XISF0100"@
            &&& hk.0.length == convert::le_u32_at(buffer@, 2)
            &&& hk.0.reserved == convert::le_u32_at(buffer@, 3)
            &&& xisf_header_model_ok(hk.0, m)
            &&& hk.0.wf()
            &&& geom_pair_ok((hk.0.geometry.dimensions@, hk.0.geometry.channel_count))
            &&& hk.1@.len() == kw_records(xml_start_tags_of(xml).unwrap()).len()
            &&& forall|q: int|
                0 <= q < hk.1@.len() ==> fits_keyword_model(#[trigger] hk.1@[q]) == kw_records(
                    xml_start_tags_of(xml).unwrap(),
                )[q]
        }),
{
    let (signature, length, reserved) = match xisf_read_preamble(buffer) {
        Ok(p) => p,
        Err(e) => {
            proof {
                assert(!spec_header_ok(buffer@)) by {
                    reveal(spec_header_ok);
                }
            }
            return Err(e);
        },
    };
    let xml_len = length as usize;
    if xml_len > buffer.len() - 16 {
        proof {
            assert(!spec_header_ok(buffer@)) by {
                reveal(spec_header_ok);
            }
        }
        return Err(XISFError::Format(String::from_str("truncated XML header")));
    }
    let xml = vstd::slice::slice_subrange(buffer, 16, 16 + xml_len);
    let tags = match read_xml_start_tags(xml) {
        Some(t) => t,
        None => {
            proof {
                assert(!spec_header_ok(buffer@)) by {
                    reveal(spec_header_ok);
                }
            }
            return Err(XISFError::Format(String::from_str("malformed XML header")));
        },
    };
    let mut keywords: Vec<FITSKeyword> = Vec::new();
    let header = match xisf_build_header(&tags, signature, length, reserved, &mut keywords) {
        Ok(h) => h,
        Err(e) => {
            proof {
                assert(!spec_header_ok(buffer@)) by {
                    reveal(spec_header_ok);
                }
            }
            return Err(e);
        },
    };
    proof {
        assert(spec_header_ok(buffer@)) by {
            reveal(spec_header_ok);
        }
    }
    Ok((header, keywords))
}

impl XISFile {
    /// Decode a whole XISF container from its bytes: check the magic
    /// signature before anything else, read the XML header, and, where the
    /// pixel payload is attached and lies within the file, decompress,
    /// unshuffle and split it into typed channel buffers.
    #[verifier::rlimit(100)]
    pub fn from_bytes(buffer: &[u8]) -> (r: Result<XISFile, XISFError>)
        ensures
            r is Ok <==> spec_parse_ok(buffer@),
            (buffer@.len() < 16 || buffer@.subrange(0, 8) != "XISF0100".spec_bytes()) ==> (
            r matches Err(e) && e is Format),
            r matches Ok(f) ==> ({
                let xml = buffer@.subrange(16, 16 + convert::le_u32_at(buffer@, 2));
                let m = apply_tags(initial_reader_model(), xml_start_tags_of(xml).unwrap());
                &&& f.header.signature@ == "XISF0100"@
                &&& f.header.length == convert::le_u32_at(buffer@, 2)
                &&& f.header.reserved == convert::le_u32_at(buffer@, 3)
                &&& xisf_header_model_ok(f.header, m)
                &&& f.header.wf()
                &&& f.keywords@.len() == kw_records(xml_start_tags_of(xml).unwrap()).len()
                &&& forall|q: int|
                    0 <= q < f.keywords@.len() ==> fits_keyword_model(#[trigger] f.keywords@[q])
                        == kw_records(xml_start_tags_of(xml).unwrap())[q]
                &&& attachment_readable(f.header, buffer@.len() as int) ==> (spec_pixel_bytes(
                    buffer@,
                    f.header,
                ) matches Some(px) && channels_decoded(f.header, px, f.data))
                &&& attachment_readable(f.header, buffer@.len() as int)
                    ==> f.data.spec_sample_format() == Some(f.header.sample_format)
                &&& !attachment_readable(f.header, buffer@.len() as int) ==> f.data is Empty
            }),
            ({
                let m = spec_buffer_model(buffer@);
                &&& spec_header_ok(buffer@)
                &&& m.location_method == "attachment".spec_bytes()
                &&& m.location_start + m.location_length <= buffer@.len()
                &&& m.compression_codec.len() == 0 || ({
                    &&& codec_supported(m.compression_codec)
                    &&& spec_inflate(m.compression_codec, spec_model_payload(buffer@, m)) matches Some(
                        b,
                    )
                    &&& spec_inflate(
                        m.compression_codec,
                        spec_model_payload(buffer@, m),
                    ).unwrap().len() == m.compression_size
                    &&& unshuffle_applies(
                        m.compression_codec,
                        m.sample_format.unwrap().spec_size() as int,
                    ) ==> spec_inflate(
                        m.compression_codec,
                        spec_model_payload(buffer@, m),
                    ).unwrap().len() as int % (m.sample_format.unwrap().spec_size() as int) == 0
                })
                &&& !format_supported(m.sample_format.unwrap())
            }) ==> (r matches Err(e) && e is Unsupported),
            ({
                let m = spec_buffer_model(buffer@);
                &&& spec_header_ok(buffer@)
                &&& m.location_method == "attachment".spec_bytes()
                &&& m.location_start + m.location_length <= buffer@.len()
                &&& m.compression_codec.len() != 0
                &&& codec_supported(m.compression_codec)
                &&& spec_inflate(m.compression_codec, spec_model_payload(buffer@, m)) matches Some(
                    b,
                )
                &&& spec_inflate(m.compression_codec, spec_model_payload(buffer@, m)).unwrap().len()
                    != m.compression_size
            }) ==> (r matches Err(e) && e == (XISFError::Integrity {
                expected: spec_buffer_model(buffer@).compression_size,
                actual: spec_inflate(
                    spec_buffer_model(buffer@).compression_codec,
                    spec_model_payload(buffer@, spec_buffer_model(buffer@)),
                ).unwrap().len() as usize,
            })),
    {
        let (header, keywords) = match xisf_read_header(buffer) {
            Ok(hk) => hk,
            Err(e) => {
                proof {
                    assert(!spec_parse_ok(buffer@));
                }
                return Err(e);
            },
        };
        let data = match xisf_read_data(&header, buffer) {
            Ok(d) => d,
            Err(e) => {
                proof {
                    assert(!spec_parse_ok(buffer@));
                }
                return Err(e);
            },
        };
        proof {
            assert(spec_parse_ok(buffer@));
        }
        Ok(XISFile { header, keywords, data })
    }
}

/// The concrete bytes of the container's magic signature.
proof fn lemma_magic_bytes()
    ensures
        "XISF0100".spec_bytes() =~= seq![88u8, 73u8, 83u8, 70u8, 48u8, 49u8, 48u8, 48u8],
{
    broadcast use vstd::string::is_ascii_spec_bytes;

    reveal_strlit("XISF0100");
    assert(vstd::string::is_ascii("XISF0100"));
    assert("XISF0100".spec_bytes() =~= Seq::new(
        "XISF0100"@.len(),
        |i: int| "XISF0100"@.index(i) as u8,
    ));
}

} // verus!
