//! Numeric kernels of a lossless audio encoder: CRC-8 and CRC-16 over
//! arbitrary generators, the variable-length integer coding of frame headers,
//! fixed and linear predictors, the Rice residual coder and a PCM WAV parser.

pub mod bits;
pub mod crc;
pub mod fixed;
pub mod lpc;
pub mod rice;
pub mod utf8;
pub mod wav;

pub use crate::crc::CrcOptions;
pub use crate::fixed::FixedPredictor;
pub use crate::lpc::VarPredictor;
pub use crate::rice::{RiceEncodedStream, RiceEncoderOptions};
pub use crate::utf8::Utf8Encoder;
pub use crate::wav::{
    PCMWaveDataChunk, PCMWaveDataChunkWindow, PCMWaveFormatChunk, PCMWaveInfo, RiffChunk,
    WaveReader, WaveReaderError,
};
