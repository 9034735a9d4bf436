use vstd::prelude::*;

verus! {

/// A single packet of audio data.
pub enum AudioPacket {
    /// A list of 16 bit sample data.
    Samples(Vec<i16>),
    /// Ogg encoded sound data.
    OggData(Vec<u8>),
}

impl AudioPacket {
    /// The samples of a `Samples` packet.
    pub fn samples(&self) -> (s: &[i16])
        requires
            self is Samples,
        ensures
            s@ == self->Samples_0@,
    {
        match self {
            AudioPacket::Samples(s) => s.as_slice(),
            AudioPacket::OggData(_) => {
                proof {
                    assert(false);
                }
                &[]
            },
        }
    }

    /// The Ogg data of an `OggData` packet.
    pub fn oggdata(&self) -> (d: &[u8])
        requires
            self is OggData,
        ensures
            d@ == self->OggData_0@,
    {
        match self {
            AudioPacket::Samples(_) => {
                proof {
                    assert(false);
                }
                &[]
            },
            AudioPacket::OggData(d) => d.as_slice(),
        }
    }

    /// Whether the packet holds no sample or no byte.
    pub fn is_empty(&self) -> (b: bool)
        ensures
            b == match self {
                AudioPacket::Samples(s) => s@.len() == 0,
                AudioPacket::OggData(d) => d@.len() == 0,
            },
    {
        match self {
            AudioPacket::Samples(s) => s.is_empty(),
            AudioPacket::OggData(d) => d.is_empty(),
        }
    }
}

/// The ways decoding audio can fail, each with the description of the decoder's error.
#[derive(Debug)]
pub enum AudioError {
    /// An error while passing Ogg data through.
    PassthroughError(String),
    /// An error while decoding Ogg Vorbis.
    VorbisError(String),
}

impl AudioError {
    /// The text that describes the error: the variant's name with the decoder's
    /// description in parentheses.
    pub fn describe(&self) -> (text: String)
        ensures
            text@ == match self {
                AudioError::PassthroughError(e) => "PassthroughError("@ + e@ + ")"@,
                AudioError::VorbisError(e) => "VorbisError("@ + e@ + ")"@,
            },
    {
        let (mut text, inner) = match self {
            AudioError::PassthroughError(e) => (String::from_str("PassthroughError("), e),
            AudioError::VorbisError(e) => (String::from_str("VorbisError("), e),
        };
        text.append(inner.as_str());
        text.append(")");
        text
    }
}

/// A decoder of audio files.
pub trait AudioDecoder {
    /// Moves to the position `ms` milliseconds into the audio.
    fn seek(&mut self, ms: i64) -> Result<(), AudioError>;

    /// The next packet, if there is one.
    fn next_packet(&mut self) -> Result<Option<AudioPacket>, AudioError>;
}

} // verus!
