//! The codec envelope of a block: the payload as the codec stores it, then
//! one byte that names the codec.

use crate::error::LsmError;
use vstd::prelude::*;

verus! {

/// The codecs a block can be stored with.
#[derive(PartialEq, Eq, Debug, Clone, Copy, Structural)]
pub enum CompressOptions {
    /// No codec: what a tag that names none decodes to.
    Unkown,
    /// The payload is stored as it is.
    Uncompress,
    /// Snappy, raw format.
    Snappy,
    /// LZ4 block format with the length in front.
    Lz4,
}

/// The byte that names a codec in an envelope.
pub open spec fn tag_of(opt: CompressOptions) -> u8 {
    match opt {
        CompressOptions::Unkown => 0,
        CompressOptions::Uncompress => 1,
        CompressOptions::Snappy => 2,
        CompressOptions::Lz4 => 3,
    }
}

/// The codec that a tag byte names.
pub open spec fn option_of(tag: u8) -> CompressOptions {
    if tag == 3 {
        CompressOptions::Lz4
    } else if tag == 2 {
        CompressOptions::Snappy
    } else if tag == 1 {
        CompressOptions::Uncompress
    } else {
        CompressOptions::Unkown
    }
}

impl From<u8> for CompressOptions {
    fn from(value: u8) -> (opt: Self) {
        match value {
            3 => CompressOptions::Lz4,
            2 => CompressOptions::Snappy,
            1 => CompressOptions::Uncompress,
            _ => CompressOptions::Unkown,
        }
    }
}

impl vstd::std_specs::convert::FromSpecImpl<u8> for CompressOptions {
    open spec fn obeys_from_spec() -> bool {
        true
    }

    open spec fn from_spec(v: u8) -> Self {
        option_of(v)
    }
}

impl From<CompressOptions> for u8 {
    fn from(value: CompressOptions) -> (tag: Self) {
        match value {
            CompressOptions::Unkown => 0,
            CompressOptions::Uncompress => 1,
            CompressOptions::Snappy => 2,
            CompressOptions::Lz4 => 3,
        }
    }
}

impl vstd::std_specs::convert::FromSpecImpl<CompressOptions> for u8 {
    open spec fn obeys_from_spec() -> bool {
        true
    }

    open spec fn from_spec(v: CompressOptions) -> Self {
        tag_of(v)
    }
}

/// Every codec is the one that its own tag names.
pub proof fn lemma_tag_round_trip(opt: CompressOptions)
    ensures
        option_of(tag_of(opt)) == opt,
{
}

/// What Snappy's raw encoder makes of a byte string; `None` where it
/// refuses the input.
pub uninterp spec fn snappy_compressed(data: Seq<u8>) -> Option<Seq<u8>>;

/// What Snappy's raw decoder makes of a byte string; `None` where it
/// rejects the input.
pub uninterp spec fn snappy_decompressed(data: Seq<u8>) -> Option<Seq<u8>>;

/// What LZ4's block compressor, length in front, makes of a byte string;
/// `None` where it fails.
pub uninterp spec fn lz4_compressed(data: Seq<u8>) -> Option<Seq<u8>>;

/// What LZ4's block decompressor, length read from the front, makes of a
/// byte string; `None` where it rejects the input.
pub uninterp spec fn lz4_decompressed(data: Seq<u8>) -> Option<Seq<u8>>;

/// The largest input that Snappy takes: its worst-case output must fit in
/// 32 bits.
pub open spec fn snappy_accepts(len: nat) -> bool {
    32 + len + len / 6 <= 0xFFFF_FFFF
}

/// Calls `snap::raw::Encoder::compress_vec` on a fresh encoder. The encoder
/// fails exactly on inputs whose worst-case output would not fit in 32 bits.
/// Its output depends on the input alone, is no longer than that worst
/// case, and the decoder turns it back into the input.
#[verifier::external_body]
fn snappy_compress(data: &[u8]) -> (r: Result<Vec<u8>, snap::Error>)
    ensures
        r is Ok <==> snappy_accepts(data@.len()),
        match r {
            Ok(v) => snappy_compressed(data@) == Some(v@) && snappy_decompressed(v@) == Some(
                data@,
            ) && v@.len() <= 32 + data@.len() + data@.len() / 6,
            Err(_) => snappy_compressed(data@) is None,
        },
{
    snap::raw::Encoder::new().compress_vec(data)
}

/// Calls `snap::raw::Decoder::decompress_vec` on a fresh decoder. Whether it
/// succeeds, and with what, depends on the input alone.
#[verifier::external_body]
fn snappy_decompress(data: &[u8]) -> (r: Result<Vec<u8>, snap::Error>)
    ensures
        match r {
            Ok(v) => snappy_decompressed(data@) == Some(v@),
            Err(_) => snappy_decompressed(data@) is None,
        },
{
    snap::raw::Decoder::new().decompress_vec(data)
}

/// Calls `lz4::block::compress` in its default mode with the input's length
/// in front. Whether it succeeds, and with what, depends on the input alone,
/// and the decompressor turns its output back into the input.
#[verifier::external_body]
fn lz4_compress(data: &[u8]) -> (r: Result<Vec<u8>, std::io::Error>)
    ensures
        match r {
            Ok(v) => lz4_compressed(data@) == Some(v@) && lz4_decompressed(v@) == Some(data@),
            Err(_) => lz4_compressed(data@) is None,
        },
{
    lz4::block::compress(data, None, true)
}

/// Calls `lz4::block::decompress`, which reads the length from the front.
/// Whether it succeeds, and with what, depends on the input alone.
#[verifier::external_body]
fn lz4_decompress(data: &[u8]) -> (r: Result<Vec<u8>, std::io::Error>)
    ensures
        match r {
            Ok(v) => lz4_decompressed(data@) == Some(v@),
            Err(_) => lz4_decompressed(data@) is None,
        },
{
    lz4::block::decompress(data, None)
}

/// What the codec `opt` stores for a payload.
pub open spec fn stored_form(data: Seq<u8>, opt: CompressOptions) -> Option<Seq<u8>> {
    match opt {
        CompressOptions::Unkown => None,
        CompressOptions::Uncompress => Some(data),
        CompressOptions::Snappy => snappy_compressed(data),
        CompressOptions::Lz4 => lz4_compressed(data),
    }
}

/// The payload that the codec `opt` reads out of a stored form.
pub open spec fn loaded_form(stored: Seq<u8>, opt: CompressOptions) -> Option<Seq<u8>> {
    match opt {
        CompressOptions::Unkown => None,
        CompressOptions::Uncompress => Some(stored),
        CompressOptions::Snappy => snappy_decompressed(stored),
        CompressOptions::Lz4 => lz4_decompressed(stored),
    }
}

/// The envelope of a payload under a codec.
pub open spec fn framed(data: Seq<u8>, opt: CompressOptions) -> Result<Seq<u8>, LsmError> {
    match opt {
        CompressOptions::Unkown => Err(LsmError::UnknownCodec),
        _ => match stored_form(data, opt) {
            Some(stored) => Ok(stored.push(tag_of(opt))),
            None => Err(LsmError::Compression),
        },
    }
}

/// The payload inside an envelope.
pub open spec fn unframed(data: Seq<u8>) -> Result<Seq<u8>, LsmError> {
    if data.len() == 0 {
        Err(LsmError::Truncated)
    } else {
        let opt = option_of(data.last());
        match opt {
            CompressOptions::Unkown => Err(LsmError::UnknownCodec),
            _ => match loaded_form(data.drop_last(), opt) {
                Some(payload) => Ok(payload),
                None => Err(LsmError::Compression),
            },
        }
    }
}

/// An envelope fails to close only for want of a codec or because the
/// codec refuses.
pub proof fn lemma_framed_errors(data: Seq<u8>, opt: CompressOptions)
    ensures
        framed(data, opt) matches Err(e) ==> e == LsmError::UnknownCodec || e
            == LsmError::Compression,
{
}

/// Closes an envelope: the stored form, then the tag of its codec.
pub fn seal(stored: Vec<u8>, opt: CompressOptions) -> (out: Vec<u8>)
    ensures
        out@ == stored@.push(tag_of(opt)),
{
    let mut out = stored;
    out.push(u8::from(opt));
    out
}

/// Wraps a payload in the envelope of the codec `opt`.
///
/// Fails with `UnknownCodec` for `Unkown` and with `Compression` where the
/// codec refuses the payload; Snappy refuses none whose worst-case output
/// fits in 32 bits. What comes back opens again to the payload; without a
/// codec it is one byte longer than the payload, and with Snappy no longer
/// than Snappy's worst case and one byte.
pub fn encode(data: &[u8], opt: CompressOptions) -> (r: Result<Vec<u8>, LsmError>)
    ensures
        match r {
            Ok(out) => framed(data@, opt) == Ok::<Seq<u8>, LsmError>(out@) && unframed(out@) == Ok::<
                Seq<u8>,
                LsmError,
            >(data@),
            Err(e) => framed(data@, opt) == Err::<Seq<u8>, LsmError>(e),
        },
        opt == CompressOptions::Uncompress ==> r is Ok,
        opt == CompressOptions::Snappy && snappy_accepts(data@.len()) ==> r is Ok,
        r matches Ok(out) ==> out@.len() > 0 && (opt == CompressOptions::Uncompress ==> out@.len()
            == data@.len() + 1) && (opt == CompressOptions::Snappy ==> out@.len() <= 33
            + data@.len() + data@.len() / 6),
{
    match opt {
        CompressOptions::Unkown => Err(LsmError::UnknownCodec),
        CompressOptions::Uncompress => {
            let out = seal(vstd::slice::slice_to_vec(data), opt);
            assert(out@.drop_last() =~= data@);
            Ok(out)
        },
        CompressOptions::Snappy => match snappy_compress(data) {
            Ok(stored) => {
                let ghost s = stored@;
                let out = seal(stored, opt);
                assert(out@.drop_last() =~= s);
                Ok(out)
            },
            Err(_) => Err(LsmError::Compression),
        },
        CompressOptions::Lz4 => match lz4_compress(data) {
            Ok(stored) => {
                let ghost s = stored@;
                let out = seal(stored, opt);
                assert(out@.drop_last() =~= s);
                Ok(out)
            },
            Err(_) => Err(LsmError::Compression),
        },
    }
}

/// Opens an envelope and gives the payload.
///
/// Fails with `Truncated` on no bytes at all, with `UnknownCodec` where the
/// last byte names no codec, and with `Compression` where the codec rejects
/// what is stored.
pub fn decode(data: &[u8]) -> (r: Result<Vec<u8>, LsmError>)
    ensures
        match r {
            Ok(out) => unframed(data@) == Ok::<Seq<u8>, LsmError>(out@),
            Err(e) => unframed(data@) == Err::<Seq<u8>, LsmError>(e),
        },
{
    let n = data.len();
    if n == 0 {
        return Err(LsmError::Truncated);
    }
    let tag = data[n - 1];
    let stored = vstd::slice::slice_subrange(data, 0, n - 1);
    assert(stored@ =~= data@.drop_last());
    match CompressOptions::from(tag) {
        CompressOptions::Unkown => Err(LsmError::UnknownCodec),
        CompressOptions::Uncompress => Ok(vstd::slice::slice_to_vec(stored)),
        CompressOptions::Snappy => match snappy_decompress(stored) {
            Ok(payload) => Ok(payload),
            Err(_) => Err(LsmError::Compression),
        },
        CompressOptions::Lz4 => match lz4_decompress(stored) {
            Ok(payload) => Ok(payload),
            Err(_) => Err(LsmError::Compression),
        },
    }
}

} // verus!
