use vstd::prelude::*;

verus! {

/// Every way an encode or a decode can fail.
#[derive(Clone, Copy, Debug, PartialEq, Eq, Structural)]
pub enum QoiError {
    /// The input is shorter than the fixed-size header.
    InputSmallerThanHeader,
    /// The input does not start with the format's magic tag.
    IncorrectHeaderMagic,
    /// The header's channel byte is neither 3 nor 4.
    Channels,
    /// The raw input holds fewer bytes than the image needs.
    InputSize,
    /// The destination buffer cannot hold the result.
    OutputTooSmall,
    /// The image is larger than the size ceiling of the allocating calls.
    TooBig,
}

/// The human-readable description of each error.
pub open spec fn message_of(e: QoiError) -> Seq<char> {
    match e {
        QoiError::InputSmallerThanHeader => "The input is too small to contain a header"@,
        QoiError::IncorrectHeaderMagic => "The header magic value is wrong"@,
        QoiError::Channels => "The number of channels is invalid"@,
        QoiError::InputSize => "The input size is invalid"@,
        QoiError::OutputTooSmall => "The output buffer is too small"@,
        QoiError::TooBig => "The image is too big"@,
    }
}

impl QoiError {
    /// A sentence that describes the error.
    pub fn message(&self) -> (r: &'static str)
        ensures
            r@ == message_of(*self),
    {
        match self {
            QoiError::InputSmallerThanHeader => "The input is too small to contain a header",
            QoiError::IncorrectHeaderMagic => "The header magic value is wrong",
            QoiError::Channels => "The number of channels is invalid",
            QoiError::InputSize => "The input size is invalid",
            QoiError::OutputTooSmall => "The output buffer is too small",
            QoiError::TooBig => "The image is too big",
        }
    }
}

} // verus!
