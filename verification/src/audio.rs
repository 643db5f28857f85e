//! Decoding a recording: which sample formats are understood, when decoding
//! goes on, and when the sample rate has to be changed.

use vstd::prelude::*;

verus! {

/// The sample rate, in hertz, of the audio that is transcribed.
pub const WHISPER_SR: u32 = 16_000;

/// How a decoder stores a sample.
#[derive(Debug, Clone, Copy, PartialEq, Eq, Structural)]
pub enum SampleFormat {
    U8,
    U16,
    U24,
    U32,
    S8,
    S16,
    S24,
    S32,
    F32,
    F64,
}

/// How a stored sample becomes one between -1 and 1: `zero` is taken from it, and
/// the rest is divided by `full`.
#[derive(Debug, Clone, Copy, PartialEq, Eq, Structural)]
pub struct Scale {
    pub zero: u32,
    pub full: u32,
}

/// The scale of a sample format, or nothing where its packets are left out.
pub open spec fn scale_of(format: SampleFormat) -> Option<Scale> {
    match format {
        SampleFormat::F32 | SampleFormat::F64 => Some(Scale { zero: 0, full: 1 }),
        SampleFormat::S16 => Some(Scale { zero: 0, full: 0x7fff }),
        SampleFormat::S32 => Some(Scale { zero: 0, full: 0x7fff_ffff }),
        SampleFormat::U8 => Some(Scale { zero: 128, full: 128 }),
        SampleFormat::U16 | SampleFormat::U24 | SampleFormat::U32 => None,
        SampleFormat::S8 | SampleFormat::S24 => None,
    }
}

/// The scale of a sample format, or nothing where its packets are left out.
pub fn sample_scale(format: SampleFormat) -> (scale: Option<Scale>)
    ensures
        scale == scale_of(format),
        format == SampleFormat::F32 || format == SampleFormat::F64 ==> scale == Some(
            (Scale { zero: 0, full: 1 }),
        ),
        format == SampleFormat::S16 ==> scale == Some((Scale { zero: 0, full: 32_767 })),
        format == SampleFormat::S32 ==> scale == Some((Scale { zero: 0, full: 2_147_483_647 })),
        format == SampleFormat::U8 ==> scale == Some((Scale { zero: 128, full: 128 })),
        format != SampleFormat::F32 && format != SampleFormat::F64 && format != SampleFormat::S16
            && format != SampleFormat::S32 && format != SampleFormat::U8 ==> scale is None,
{
    match format {
        SampleFormat::F32 | SampleFormat::F64 => Some(Scale { zero: 0, full: 1 }),
        SampleFormat::S16 => Some(Scale { zero: 0, full: 0x7fff }),
        SampleFormat::S32 => Some(Scale { zero: 0, full: 0x7fff_ffff }),
        SampleFormat::U8 => Some(Scale { zero: 128, full: 128 }),
        _ => None,
    }
}

/// Why a recording cannot be decoded.
#[derive(Debug, Clone, Copy, PartialEq, Eq, Structural)]
pub enum TrackError {
    /// The track does not say its sample rate.
    NoSampleRate,
    /// The track does not say its channels.
    NoChannelMap,
}

/// What has to be known of a track: its sample rate and the number of its
/// channels.
pub fn track_format(sample_rate: Option<u32>, channels: Option<usize>) -> (format: Result<
    (u32, usize),
    TrackError,
>)
    ensures
        format == match (sample_rate, channels) {
            (None, _) => Err(TrackError::NoSampleRate),
            (Some(_), None) => Err(TrackError::NoChannelMap),
            (Some(rate), Some(n)) => Ok((rate, n)),
        },
{
    match (sample_rate, channels) {
        (None, _) => Err(TrackError::NoSampleRate),
        (Some(_), None) => Err(TrackError::NoChannelMap),
        (Some(rate), Some(n)) => Ok((rate, n)),
    }
}

/// What came of asking for the next packet.
#[derive(Debug, Clone, Copy, PartialEq, Eq, Structural)]
pub enum Read {
    Packet,
    /// The recording ended.
    UnexpectedEof,
    /// Any other error.
    OtherError,
}

/// How decoding goes on.
#[derive(Debug, Clone, Copy, PartialEq, Eq, Structural)]
pub enum Next {
    /// Decode the packet and ask for another.
    Decode,
    /// Everything is decoded.
    Finish,
    /// Give up.
    Fail,
}

/// How decoding goes on after asking for a packet: the end of the recording is
/// no error.
pub fn after_read(read: Read) -> (next: Next)
    ensures
        next == Next::Decode <==> read == Read::Packet,
        next == Next::Finish <==> read == Read::UnexpectedEof,
        next == Next::Fail <==> read == Read::OtherError,
{
    match read {
        Read::Packet => Next::Decode,
        Read::UnexpectedEof => Next::Finish,
        Read::OtherError => Next::Fail,
    }
}

/// Whether audio with the given sample rate has to be resampled.
pub fn needs_resampling(sample_rate: u32) -> (yes: bool)
    ensures
        yes == (sample_rate != WHISPER_SR),
{
    sample_rate != WHISPER_SR
}

} // verus!
