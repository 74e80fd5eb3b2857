//! `std::esp_checksum`: the XOR checksum of the segment payloads of an ESP image.
//!
//! The section handed to the extension starts with the ESP image header: byte 0
//! is the magic byte `0xE9`, byte 1 the number of segments. The segment headers
//! start at the byte offset given as the second argument (8 for the ESP8266,
//! 24 for the ESP32 family). Each segment header is 8 bytes long: a load
//! address (ignored here) and the little-endian payload size, followed by the
//! payload itself. The output is one byte: `0xEF` XOR every payload byte.

use crate::text::{decimal, hex_byte_prefixed, push_decimal, push_hex_byte_prefixed};
use vstd::prelude::*;

verus! {

/// Magic byte that starts every ESP image.
pub const ESP_IMAGE_MAGIC: u8 = 0xE9;

/// Seed of the XOR checksum.
pub const ESP_CHECKSUM_SEED: u8 = 0xEF;

/// Length of a segment header: load address and payload size, 4 bytes each.
pub const ESP_SEGMENT_HEADER_LEN: usize = 8;

/// The kinds of argument an extension call can take.
#[derive(Clone, Copy, Debug, PartialEq, Eq, Structural)]
pub enum ParamKind {
    /// The contents of an output section.
    Slice,
    /// An integer.
    Int,
}

/// One declared parameter of an extension.
#[derive(Clone, Copy, Debug)]
pub struct ParamDesc {
    pub name: &'static str,
    pub kind: ParamKind,
}

/// One argument of an extension call.
pub enum ParamArg<'a> {
    /// The bytes of a section.
    Slice { data: &'a [u8] },
    /// An integer argument.
    Int(u64),
}

/// The `std::esp_checksum` extension.
pub struct EspChecksum;

/// Why an ESP checksum could not be computed.
#[derive(Clone, Copy, Debug, PartialEq, Eq, Structural)]
pub enum EspChecksumError {
    /// No argument at all.
    MissingData,
    /// The first argument is not a section slice.
    DataNotSlice,
    /// The second argument is missing or not an integer.
    MissingOffset,
    /// The image is shorter than the two header bytes that are read.
    ImageTooSmall,
    /// The image does not start with the magic byte; the byte found.
    BadMagic(u8),
    /// A segment header position does not fit in `usize`.
    OffsetOverflow,
    /// A segment header runs past the end of the image.
    HeaderPastEnd { segment: usize, offset: usize },
    /// The end of a segment payload does not fit in `usize`.
    PayloadLengthOverflow,
    /// A segment payload runs past the end of the image.
    PayloadPastEnd { segment: usize, offset: usize },
    /// The section holds more than the segments that the header declares: the
    /// declared count, and where the data after the last of them starts.
    SegmentCountMismatch { declared: u8, offset: usize },
}

/// The little-endian 32-bit value of the four bytes of `img` at `i`.
pub open spec fn le_u32_at(img: Seq<u8>, i: int) -> int {
    img[i] + 256 * img[i + 1] + 65536 * img[i + 2] + 16777216 * img[i + 3]
}

/// `acc` XOR every byte of `bytes`.
pub open spec fn xor_fold(acc: u8, bytes: Seq<u8>) -> u8
    decreases bytes.len(),
{
    if bytes.len() == 0 {
        acc
    } else {
        xor_fold(acc, bytes.drop_last()) ^ bytes.last()
    }
}

/// Walks the segments `seg` up to `count` of `img`, the header of segment `seg`
/// standing at `pos`, with `acc` the checksum of the payloads before it: the
/// checksum and the position just past the last segment, or the error.
pub open spec fn walk_segments(img: Seq<u8>, pos: int, seg: int, count: int, acc: u8) -> Result<
    (u8, int),
    EspChecksumError,
>
    decreases count - seg,
{
    if seg >= count {
        Ok((acc, pos))
    } else if pos + ESP_SEGMENT_HEADER_LEN > usize::MAX {
        Err(EspChecksumError::OffsetOverflow)
    } else if pos + ESP_SEGMENT_HEADER_LEN > img.len() {
        Err(EspChecksumError::HeaderPastEnd { segment: seg as usize, offset: pos as usize })
    } else {
        let start = pos + ESP_SEGMENT_HEADER_LEN;
        let end = start + le_u32_at(img, pos + 4);
        if end > usize::MAX {
            Err(EspChecksumError::PayloadLengthOverflow)
        } else if end > img.len() {
            Err(EspChecksumError::PayloadPastEnd { segment: seg as usize, offset: start as usize })
        } else {
            walk_segments(img, end, seg + 1, count, xor_fold(acc, img.subrange(start, end)))
        }
    }
}

/// The checksum of the ESP image `img` whose segment headers start at `offset`,
/// or the reason there is none.
pub open spec fn esp_checksum_of(img: Seq<u8>, offset: usize) -> Result<u8, EspChecksumError> {
    if img.len() < 2 {
        Err(EspChecksumError::ImageTooSmall)
    } else if img[0] != ESP_IMAGE_MAGIC {
        Err(EspChecksumError::BadMagic(img[0]))
    } else {
        match walk_segments(img, offset as int, 0, img[1] as int, ESP_CHECKSUM_SEED) {
            Err(e) => Err(e),
            Ok((c, end)) => if end < img.len() {
                Err(EspChecksumError::SegmentCountMismatch { declared: img[1], offset: end as usize })
            } else {
                Ok(c)
            },
        }
    }
}

/// What a call of the extension with `args` computes: the checksum byte, or the error.
pub open spec fn esp_call_outcome(args: Seq<ParamArg>) -> Result<u8, EspChecksumError> {
    if args.len() == 0 {
        Err(EspChecksumError::MissingData)
    } else if !(args[0] is Slice) {
        Err(EspChecksumError::DataNotSlice)
    } else if args.len() < 2 || !(args[1] is Int) {
        Err(EspChecksumError::MissingOffset)
    } else {
        esp_checksum_of(args[0]->data@, (args[1]->0) as usize)
    }
}

/// Computes the checksum of the ESP image `img` whose segment headers start at `offset`.
pub fn esp_checksum(img: &[u8], offset: usize) -> (r: Result<u8, EspChecksumError>)
    ensures
        r == esp_checksum_of(img@, offset),
{
    if img.len() < 2 {
        return Err(EspChecksumError::ImageTooSmall);
    }
    if img[0] != ESP_IMAGE_MAGIC {
        return Err(EspChecksumError::BadMagic(img[0]));
    }
    let seg_count = img[1] as usize;
    let mut checksum: u8 = ESP_CHECKSUM_SEED;
    let mut pos: usize = offset;
    let mut seg: usize = 0;
    while seg < seg_count
        invariant
            seg <= seg_count,
            seg_count == img@[1],
            img@.len() >= 2,
            img@[0] == ESP_IMAGE_MAGIC,
            walk_segments(img@, pos as int, seg as int, seg_count as int, checksum)
                == walk_segments(img@, offset as int, 0, seg_count as int, ESP_CHECKSUM_SEED),
        decreases seg_count - seg,
    {
        let header_end = match pos.checked_add(ESP_SEGMENT_HEADER_LEN) {
            Some(e) => e,
            None => {
                return Err(EspChecksumError::OffsetOverflow);
            },
        };
        if header_end > img.len() {
            return Err(EspChecksumError::HeaderPastEnd { segment: seg, offset: pos });
        }
        let payload_len: usize = img[pos + 4] as usize + (img[pos + 5] as usize) * 256 + (img[pos
            + 6] as usize) * 65536 + (img[pos + 7] as usize) * 16777216;
        let start = header_end;
        let payload_end = match start.checked_add(payload_len) {
            Some(e) => e,
            None => {
                return Err(EspChecksumError::PayloadLengthOverflow);
            },
        };
        if payload_end > img.len() {
            return Err(EspChecksumError::PayloadPastEnd { segment: seg, offset: start });
        }
        let ghost acc0 = checksum;
        let mut j = start;
        while j < payload_end
            invariant
                start <= j <= payload_end <= img@.len(),
                checksum == xor_fold(acc0, img@.subrange(start as int, j as int)),
            decreases payload_end - j,
        {
            checksum = checksum ^ img[j];
            assert(img@.subrange(start as int, j + 1).drop_last() =~= img@.subrange(
                start as int,
                j as int,
            ));
            j += 1;
        }
        pos = payload_end;
        seg += 1;
    }
    if pos < img.len() {
        return Err(EspChecksumError::SegmentCountMismatch { declared: img[1], offset: pos });
    }
    Ok(checksum)
}

impl EspChecksumError {
    /// The text of the error, as the extension reports it.
    pub open spec fn message_text(self) -> Seq<char> {
        match self {
            EspChecksumError::MissingData => "std::esp_checksum: missing data argument"@,
            EspChecksumError::DataNotSlice => "std::esp_checksum: args[0] must be a section slice"@,
            EspChecksumError::MissingOffset =>
                "std::esp_checksum: missing or wrong type for offset argument"@,
            EspChecksumError::ImageTooSmall =>
                "std::esp_checksum: image too small to contain header"@,
            EspChecksumError::BadMagic(b) => "std::esp_checksum: invalid magic byte "@
                + hex_byte_prefixed(b) + ", expected 0xE9"@,
            EspChecksumError::OffsetOverflow => "std::esp_checksum: offset overflow"@,
            EspChecksumError::HeaderPastEnd { segment, offset } => "std::esp_checksum: segment "@
                + decimal(segment as nat) + " header at offset "@ + decimal(offset as nat)
                + " extends past end of image"@,
            EspChecksumError::PayloadLengthOverflow =>
                "std::esp_checksum: payload length overflow"@,
            EspChecksumError::PayloadPastEnd { segment, offset } => "std::esp_checksum: segment "@
                + decimal(segment as nat) + " payload at offset "@ + decimal(offset as nat)
                + " extends past end of image"@,
            EspChecksumError::SegmentCountMismatch { declared, offset } =>
                "std::esp_checksum: header declares "@ + decimal(declared as nat)
                + " segments but the section continues at offset "@ + decimal(offset as nat),
        }
    }

    /// Renders the error as text.
    pub fn message(&self) -> (s: String)
        ensures
            s@ == self.message_text(),
    {
        match *self {
            EspChecksumError::MissingData => String::from_str(
                "std::esp_checksum: missing data argument",
            ),
            EspChecksumError::DataNotSlice => String::from_str(
                "std::esp_checksum: args[0] must be a section slice",
            ),
            EspChecksumError::MissingOffset => String::from_str(
                "std::esp_checksum: missing or wrong type for offset argument",
            ),
            EspChecksumError::ImageTooSmall => String::from_str(
                "std::esp_checksum: image too small to contain header",
            ),
            EspChecksumError::BadMagic(b) => {
                let mut s = String::from_str("std::esp_checksum: invalid magic byte ");
                push_hex_byte_prefixed(&mut s, b);
                s.append(", expected 0xE9");
                s
            },
            EspChecksumError::OffsetOverflow => String::from_str(
                "std::esp_checksum: offset overflow",
            ),
            EspChecksumError::HeaderPastEnd { segment, offset } => {
                let mut s = String::from_str("std::esp_checksum: segment ");
                push_decimal(&mut s, segment as u64);
                s.append(" header at offset ");
                push_decimal(&mut s, offset as u64);
                s.append(" extends past end of image");
                s
            },
            EspChecksumError::PayloadLengthOverflow => String::from_str(
                "std::esp_checksum: payload length overflow",
            ),
            EspChecksumError::PayloadPastEnd { segment, offset } => {
                let mut s = String::from_str("std::esp_checksum: segment ");
                push_decimal(&mut s, segment as u64);
                s.append(" payload at offset ");
                push_decimal(&mut s, offset as u64);
                s.append(" extends past end of image");
                s
            },
            EspChecksumError::SegmentCountMismatch { declared, offset } => {
                let mut s = String::from_str("std::esp_checksum: header declares ");
                push_decimal(&mut s, declared as u64);
                s.append(" segments but the section continues at offset ");
                push_decimal(&mut s, offset as u64);
                s
            },
        }
    }
}

impl EspChecksum {
    /// The name under which scripts call the extension.
    pub fn name(&self) -> (r: &'static str)
        ensures
            r@ == "std::esp_checksum"@,
    {
        "std::esp_checksum"
    }

    /// The number of output bytes: one checksum byte.
    pub fn size(&self) -> (r: usize)
        ensures
            r == 1,
    {
        1
    }

    /// The declared parameters: the section `data` and the integer `offset`.
    pub fn params(&self) -> (r: Vec<ParamDesc>)
        ensures
            r@.len() == 2,
            r@[0].name@ == "data"@,
            r@[0].kind == ParamKind::Slice,
            r@[1].name@ == "offset"@,
            r@[1].kind == ParamKind::Int,
    {
        let mut v = Vec::new();
        v.push(ParamDesc { name: "data", kind: ParamKind::Slice });
        v.push(ParamDesc { name: "offset", kind: ParamKind::Int });
        v
    }

    /// Runs the extension: writes the checksum of the image in `args[0]`, whose
    /// segment headers start at the offset in `args[1]`, into `out_buffer[0]`.
    pub fn execute(&self, args: &[ParamArg], out_buffer: &mut [u8]) -> (r: Result<(), String>)
        requires
            esp_call_outcome(args@) is Ok ==> old(out_buffer)@.len() >= 1,
        ensures
            match esp_call_outcome(args@) {
                Ok(c) => r is Ok && final(out_buffer)@ == old(out_buffer)@.update(0, c),
                Err(e) => r matches Err(m) && m@ == e.message_text() && final(out_buffer)@
                    == old(out_buffer)@,
            },
    {
        match self.checksum_of_args(args) {
            Ok(c) => {
                out_buffer[0] = c;
                Ok(())
            },
            Err(e) => Err(e.message()),
        }
    }

    /// Reads the arguments and computes the checksum, without writing it anywhere.
    pub fn checksum_of_args(&self, args: &[ParamArg]) -> (r: Result<u8, EspChecksumError>)
        ensures
            r == esp_call_outcome(args@),
    {
        if args.len() == 0 {
            return Err(EspChecksumError::MissingData);
        }
        let img = match &args[0] {
            ParamArg::Slice { data } => *data,
            _ => {
                return Err(EspChecksumError::DataNotSlice);
            },
        };
        if args.len() < 2 {
            return Err(EspChecksumError::MissingOffset);
        }
        let offset = match &args[1] {
            ParamArg::Int(v) => *v as usize,
            _ => {
                return Err(EspChecksumError::MissingOffset);
            },
        };
        esp_checksum(img, offset)
    }
}

proof fn lemma_walk_ignores_trailing_bytes(
    img: Seq<u8>,
    extra: Seq<u8>,
    pos: int,
    seg: int,
    count: int,
    acc: u8,
)
    requires
        pos >= 0,
        walk_segments(img, pos, seg, count, acc) is Ok,
    ensures
        walk_segments(img + extra, pos, seg, count, acc) == walk_segments(img, pos, seg, count, acc),
    decreases count - seg,
{
    let big = img + extra;
    if seg < count {
        let start = pos + ESP_SEGMENT_HEADER_LEN;
        let end = start + le_u32_at(img, pos + 4);
        assert(start <= img.len());
        assert(end <= img.len());
        assert(big[pos + 4] == img[pos + 4]);
        assert(big[pos + 5] == img[pos + 5]);
        assert(big[pos + 6] == img[pos + 6]);
        assert(big[pos + 7] == img[pos + 7]);
        assert(le_u32_at(big, pos + 4) == le_u32_at(img, pos + 4));
        assert(big.subrange(start, end) =~= img.subrange(start, end));
        lemma_walk_ignores_trailing_bytes(
            img,
            extra,
            end,
            seg + 1,
            count,
            xor_fold(acc, img.subrange(start, end)),
        );
    }
}

/// The header's segment count must match the segments in the section: an
/// image that a checksum was computed for, with any bytes appended, is refused,
/// the error pointing where the appended bytes start.
pub proof fn lemma_extra_data_refused(img: Seq<u8>, extra: Seq<u8>, offset: usize)
    requires
        esp_checksum_of(img, offset) is Ok,
        offset <= img.len(),
        extra.len() > 0,
        img.len() + extra.len() <= usize::MAX,
    ensures
        esp_checksum_of(img + extra, offset) == Err::<u8, EspChecksumError>(
            EspChecksumError::SegmentCountMismatch { declared: img[1], offset: img.len() as usize },
        ),
{
    let big = img + extra;
    assert(big[0] == img[0] && big[1] == img[1]);
    lemma_walk_ignores_trailing_bytes(img, extra, offset as int, 0, img[1] as int, ESP_CHECKSUM_SEED);
    if img[1] > 0 {
        lemma_walk_end_within(img, offset as int, 0, img[1] as int, ESP_CHECKSUM_SEED);
    }
}

proof fn lemma_walk_end_within(img: Seq<u8>, pos: int, seg: int, count: int, acc: u8)
    requires
        pos >= 0,
        seg < count,
        walk_segments(img, pos, seg, count, acc) is Ok,
    ensures
        walk_segments(img, pos, seg, count, acc)->Ok_0.1 <= img.len(),
    decreases count - seg,
{
    let start = pos + ESP_SEGMENT_HEADER_LEN;
    let end = start + le_u32_at(img, pos + 4);
    assert(end <= img.len());
    let next = xor_fold(acc, img.subrange(start, end));
    if seg + 1 >= count {
        assert(walk_segments(img, end, seg + 1, count, next) == Ok::<(u8, int), EspChecksumError>(
            (next, end),
        ));
    } else {
        lemma_walk_end_within(
            img,
            end,
            seg + 1,
            count,
            xor_fold(acc, img.subrange(start, end)),
        );
    }
}

/// An image that declares no segment, and has no data where the segment
/// headers would start, has the seed as its checksum.
pub proof fn lemma_no_segments_seed(img: Seq<u8>, offset: usize)
    requires
        img.len() >= 2,
        offset >= img.len(),
        img[0] == ESP_IMAGE_MAGIC,
        img[1] == 0,
    ensures
        esp_checksum_of(img, offset) == Ok::<u8, EspChecksumError>(ESP_CHECKSUM_SEED),
{
}

/// `k` is a byte that a walk of `img` from segment `seg`, its header at `pos`,
/// reads: the payload size (the last four bytes of a segment header) or the
/// payload of a segment it walks.
pub open spec fn read_by_walk(img: Seq<u8>, pos: int, seg: int, count: int, k: int) -> bool
    decreases count - seg,
{
    if seg >= count || pos < 0 || pos + ESP_SEGMENT_HEADER_LEN > img.len() {
        false
    } else {
        let start = pos + ESP_SEGMENT_HEADER_LEN;
        let end = start + le_u32_at(img, pos + 4);
        (pos + 4 <= k < start) || (end <= img.len() && ((start <= k < end) || read_by_walk(
            img,
            end,
            seg + 1,
            count,
            k,
        )))
    }
}

proof fn lemma_walk_reads_only(img: Seq<u8>, img2: Seq<u8>, pos: int, seg: int, count: int, acc: u8)
    requires
        pos >= 0,
        img2.len() == img.len(),
        forall|k: int|
            0 <= k < img.len() && read_by_walk(img, pos, seg, count, k) ==> #[trigger] img2[k]
                == img[k],
    ensures
        walk_segments(img2, pos, seg, count, acc) == walk_segments(img, pos, seg, count, acc),
    decreases count - seg,
{
    if seg < count && pos + ESP_SEGMENT_HEADER_LEN <= img.len() {
        let start = pos + ESP_SEGMENT_HEADER_LEN;
        assert(read_by_walk(img, pos, seg, count, pos + 4));
        assert(read_by_walk(img, pos, seg, count, pos + 5));
        assert(read_by_walk(img, pos, seg, count, pos + 6));
        assert(read_by_walk(img, pos, seg, count, pos + 7));
        assert(img2[pos + 4] == img[pos + 4]);
        assert(img2[pos + 5] == img[pos + 5]);
        assert(img2[pos + 6] == img[pos + 6]);
        assert(img2[pos + 7] == img[pos + 7]);
        assert(le_u32_at(img2, pos + 4) == le_u32_at(img, pos + 4));
        let end = start + le_u32_at(img, pos + 4);
        if end <= img.len() {
            assert forall|k: int| start <= k < end implies #[trigger] img2[k] == img[k] by {
                assert(read_by_walk(img, pos, seg, count, k));
            }
            assert(img2.subrange(start, end) =~= img.subrange(start, end));
            assert forall|k: int|
                0 <= k < img.len() && read_by_walk(img, end, seg + 1, count, k) implies #[trigger] img2[k]
                == img[k] by {
                assert(read_by_walk(img, pos, seg, count, k));
            }
            lemma_walk_reads_only(img, img2, end, seg + 1, count, xor_fold(acc, img.subrange(start, end)));
        }
    }
}

/// Bytes that the checksum does not read do not change it. Images of one
/// length that agree on the magic byte, the segment count, and the payload
/// sizes and payloads of the segments that the walk reads have the same
/// checksum, or the same error, whatever their other bytes: the header bytes
/// after the segment count, the load addresses, and whatever follows.
pub proof fn lemma_unread_bytes_ignored(img: Seq<u8>, img2: Seq<u8>, offset: usize)
    requires
        img.len() >= 2,
        img2.len() == img.len(),
        img2[0] == img[0],
        img2[1] == img[1],
        forall|k: int|
            0 <= k < img.len() && read_by_walk(img, offset as int, 0, img[1] as int, k)
                ==> #[trigger] img2[k] == img[k],
    ensures
        esp_checksum_of(img2, offset) == esp_checksum_of(img, offset),
{
    lemma_walk_reads_only(img, img2, offset as int, 0, img[1] as int, ESP_CHECKSUM_SEED);
}

/// The checksum folds bytes with XOR, in order: folding a concatenation folds
/// its parts one after the other, folding nothing changes nothing, and folding
/// one byte XORs it in.
pub proof fn lemma_xor_fold_laws(acc: u8, s: Seq<u8>, t: Seq<u8>, b: u8)
    ensures
        xor_fold(acc, Seq::empty()) == acc,
        xor_fold(acc, seq![b]) == acc ^ b,
        xor_fold(acc, s + t) == xor_fold(xor_fold(acc, s), t),
    decreases t.len(),
{
    assert(seq![b].drop_last() =~= Seq::<u8>::empty());
    if t.len() == 0 {
        assert(s + t =~= s);
    } else {
        lemma_xor_fold_laws(acc, s, t.drop_last(), b);
        assert((s + t).drop_last() =~= s + t.drop_last());
    }
}

/// Walking one segment whose header stands at `pos` reads its payload size as
/// the full little-endian 32-bit value of header bytes 4 to 7, folds the
/// payload that follows the 8-byte header into the checksum, and goes on with
/// the next segment just past the payload.
pub proof fn lemma_walk_one_segment(img: Seq<u8>, pos: int, seg: int, count: int, acc: u8)
    requires
        0 <= pos,
        0 <= seg < count,
        img.len() <= usize::MAX,
        pos + 8 + img[pos + 4] + 256 * img[pos + 5] + 65536 * img[pos + 6] + 16777216 * img[pos + 7]
            <= img.len(),
    ensures
        ({
            let end = pos + 8 + img[pos + 4] + 256 * img[pos + 5] + 65536 * img[pos + 6] + 16777216
                * img[pos + 7];
            walk_segments(img, pos, seg, count, acc) == walk_segments(
                img,
                end,
                seg + 1,
                count,
                xor_fold(acc, img.subrange(pos + 8, end)),
            )
        }),
{
}

/// An image of one segment is checksummed over its whole payload: with a size
/// field of `n` (32 bits, little-endian) and exactly `n` payload bytes after
/// the segment header, the checksum is `0xEF` XOR every payload byte.
pub proof fn lemma_one_segment_checksum(img: Seq<u8>, offset: usize)
    requires
        img.len() >= 2,
        img[0] == 0xE9,
        img[1] == 1,
        img.len() <= usize::MAX,
        img.len() == offset + 8 + img[offset + 4] + 256 * img[offset + 5] + 65536 * img[offset + 6]
            + 16777216 * img[offset + 7],
    ensures
        esp_checksum_of(img, offset) == Ok::<u8, EspChecksumError>(
            xor_fold(0xEF, img.subrange(offset + 8, img.len() as int)),
        ),
{
    lemma_walk_one_segment(img, offset as int, 0, 1, ESP_CHECKSUM_SEED);
}

} // verus!
