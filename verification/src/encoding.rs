//! Binary serialization of point sets: a bitmap codec with a 4-byte header,
//! and an optional run-length compression stage over the encoded bytes.

pub mod decoder;
pub mod rle;
pub mod encoder;

use crate::components::math::Size2i;
use crate::components::visuals::Point;
use crate::encoding::decoder::DecodeError;
use crate::encoding::encoder::{encode_spec, EncoderContext};
use vstd::prelude::*;

verus! {

/// A value that can be serialized as a bitmap of presence cells under a
/// width-by-height header.
pub trait Encodable {
    /// The flattened row-major presence cells this value stands for.
    spec fn cells(&self) -> Seq<bool>;

    /// When encoding under this header is meaningful for the value.
    spec fn encode_allowed(&self, context: &EncoderContext) -> bool;

    fn encode(&self, context: &EncoderContext) -> (bytes: Vec<u8>)
        requires
            self.encode_allowed(context),
        ensures
            bytes@ == encode_spec(
                context.size.width as u16,
                context.size.height as u16,
                self.cells(),
            ),
    ;
}

/// Serialize `input` under a header of the given size.
pub fn encode<T: Encodable>(input: &T, size: &Size2i) -> (bytes: Vec<u8>)
    requires
        input.encode_allowed(&(EncoderContext { size: *size })),
    ensures
        bytes@ == encode_spec(size.width as u16, size.height as u16, input.cells()),
{
    input.encode(&EncoderContext { size: *size })
}

/// A value that holds, or names, an encoded buffer and can yield its points.
pub trait Decodable {
    /// Whether the held buffer is long enough to decode at all.
    spec fn decodable(&self) -> bool;

    /// The points the held buffer decodes to, when it is decodable.
    spec fn decoded(&self) -> Seq<Point>;

    fn decode(&self) -> (r: Result<Vec<Point>, DecodeError>)
        ensures
            self.decodable() ==> (r matches Ok(points) && points@ == self.decoded()),
            !self.decodable() ==> r == Err::<Vec<Point>, DecodeError>(DecodeError::MalformedInput),
    ;
}

/// The available second-stage compressors for encoded bytes.
#[derive(Clone, Copy, Debug, PartialEq, Eq, Structural)]
pub enum Compressor {
    Rle,
}

impl Compressor {
    /// Run the chosen compressor over the bytes.
    pub fn compress(&self, data: &Vec<u8>) -> (out: Vec<u8>)
        ensures
            out@ == rle::rle_bytes(data@),
    {
        match self {
            Compressor::Rle => rle::encode(data),
        }
    }
}

/// Compress encoded bytes with the chosen second stage.
pub fn compress(bytes: &Vec<u8>, compressor: Compressor) -> (out: Vec<u8>)
    ensures
        out@ == rle::rle_bytes(bytes@),
{
    compressor.compress(bytes)
}

} // verus!
