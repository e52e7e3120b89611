//! The crate's error type.

use vstd::prelude::*;

verus! {

/// Anything that can go wrong encoding, decoding, or parsing an Opus stream.
///
/// Variants are grouped by who is at fault: [`Error::InvalidArgument`] and
/// [`Error::BufferTooSmall`] mean the *caller* passed something the codec cannot
/// honour, [`Error::InvalidPacket`] means the *bitstream* is malformed, and
/// [`Error::Internal`] means a codec stage failed in a way that is not
/// attributable to either.
#[derive(Debug, Clone, Copy)]
#[non_exhaustive]
pub enum Error {
    /// A configuration value is outside the range Opus allows: an unsupported
    /// sample rate or channel count, a frame size no coding mode can carry, or a
    /// mapping family that does not accept the requested layout.
    InvalidArgument(&'static str),
    /// The caller's output slice cannot hold the result. Both sizes are in the
    /// unit of the call: bytes for `encode`, samples per channel for `decode`.
    #[non_exhaustive]
    BufferTooSmall {
        /// What the operation needs.
        needed: usize,
        /// What the caller provided.
        provided: usize,
    },
    /// The packet does not decode as Opus: a truncated or self-inconsistent
    /// frame-length field, an impossible frame count, padding that runs off the
    /// end, or a total duration above the 120 ms an Opus packet may carry.
    InvalidPacket(&'static str),
    /// The container is malformed. For Ogg: a missing capture pattern, an
    /// unsupported page version, a CRC mismatch, or an `OpusHead`/`OpusTags`
    /// packet that is not well formed. For CAF: a missing or inconsistent
    /// chunk, or a packet table that does not account for the audio.
    InvalidStream(&'static str),
    /// The underlying reader or writer failed.
    Io(IoError),
    /// A codec stage failed. Reaching this from well-formed input is a bug in
    /// this crate; the string names the stage.
    Internal(&'static str),
}

/// How an in-memory source or sink can fail.
#[derive(Debug, Clone, Copy, PartialEq, Eq)]
#[non_exhaustive]
pub enum IoError {
    /// The source ended before the bytes that were asked for.
    UnexpectedEof,
    /// The sink cannot hold that many bytes.
    TooLarge,
}

/// The decimal digits of `n`, most significant first.
pub open spec fn decimal(n: nat) -> Seq<char>
    decreases n,
{
    if n < 10 {
        seq![digit_char(n)]
    } else {
        decimal(n / 10).push(digit_char(n % 10))
    }
}

/// The character of one decimal digit.
pub open spec fn digit_char(d: nat) -> char {
    if d == 0 { '0' } else if d == 1 { '1' } else if d == 2 { '2' } else if d == 3 { '3' }
    else if d == 4 { '4' } else if d == 5 { '5' } else if d == 6 { '6' } else if d == 7 { '7' }
    else if d == 8 { '8' } else { '9' }
}

/// One decimal digit as a string.
fn digit_str(d: usize) -> (s: &'static str)
    requires
        d < 10,
    ensures
        s@ == seq![digit_char(d as nat)],
{
    proof {
        reveal_strlit("0");
        reveal_strlit("1");
        reveal_strlit("2");
        reveal_strlit("3");
        reveal_strlit("4");
        reveal_strlit("5");
        reveal_strlit("6");
        reveal_strlit("7");
        reveal_strlit("8");
        reveal_strlit("9");
    }
    match d {
        0 => "0",
        1 => "1",
        2 => "2",
        3 => "3",
        4 => "4",
        5 => "5",
        6 => "6",
        7 => "7",
        8 => "8",
        _ => "9",
    }
}

/// Append a number in decimal.
fn append_decimal(out: &mut String, n: usize)
    ensures
        final(out)@ == old(out)@ + decimal(n as nat),
    decreases n,
{
    if n >= 10 {
        append_decimal(out, n / 10);
    }
    out.append(digit_str(n % 10));
    assert(out@ =~= old(out)@ + decimal(n as nat));
}

/// What an error says, as a sentence fragment.
pub open spec fn error_text(e: Error) -> Seq<char> {
    match e {
        Error::InvalidArgument(what) => "invalid argument: "@ + what@,
        Error::BufferTooSmall { needed, provided } => "buffer too small: need "@ + decimal(
            needed as nat,
        ) + ", got "@ + decimal(provided as nat),
        Error::InvalidPacket(what) => "invalid packet: "@ + what@,
        Error::InvalidStream(what) => "invalid stream: "@ + what@,
        Error::Io(IoError::UnexpectedEof) => "io error: "@ + "failed to fill whole buffer"@,
        Error::Io(IoError::TooLarge) => "io error: "@ + "the sink is full"@,
        Error::Internal(what) => "internal codec error: "@ + what@,
    }
}

impl Error {
    /// A [`BufferTooSmall`](Self::BufferTooSmall) from its two sizes.
    pub fn buffer_too_small(needed: usize, provided: usize) -> (e: Self)
        ensures
            e == (Error::BufferTooSmall { needed, provided }),
    {
        Error::BufferTooSmall { needed, provided }
    }

    /// The error in words.
    pub fn message(&self) -> (text: String)
        ensures
            text@ == error_text(*self),
    {
        match self {
            Error::InvalidArgument(what) => String::from_str("invalid argument: ").concat(what),
            Error::BufferTooSmall { needed, provided } => {
                let mut out = String::from_str("buffer too small: need ");
                append_decimal(&mut out, *needed);
                out.append(", got ");
                append_decimal(&mut out, *provided);
                out
            },
            Error::InvalidPacket(what) => String::from_str("invalid packet: ").concat(what),
            Error::InvalidStream(what) => String::from_str("invalid stream: ").concat(what),
            Error::Io(IoError::UnexpectedEof) => String::from_str("io error: ").concat(
                "failed to fill whole buffer",
            ),
            Error::Io(IoError::TooLarge) => String::from_str("io error: ").concat(
                "the sink is full",
            ),
            Error::Internal(what) => String::from_str("internal codec error: ").concat(what),
        }
    }
}

/// What a digit is worth.
pub open spec fn digit_value(c: char) -> int {
    c as int - '0' as int
}

/// What decimal digits are worth.
pub open spec fn decimal_value(s: Seq<char>) -> int
    decreases s.len(),
{
    if s.len() == 0 {
        0
    } else {
        10 * decimal_value(s.drop_last()) + digit_value(s.last())
    }
}

/// A number's digits are worth the number, and do not begin with a zero, but for zero
/// itself.
pub proof fn law_decimals_are_read_back(n: nat)
    ensures
        decimal_value(decimal(n)) == n,
        decimal(n).len() >= 1,
        n > 0 ==> decimal(n)[0] != '0',
        n < 10 ==> decimal(n).len() == 1,
    decreases n,
{
    reveal_with_fuel(decimal_value, 2);
    if n >= 10 {
        law_decimals_are_read_back(n / 10);
        assert(decimal(n).drop_last() =~= decimal(n / 10));
        assert(decimal(n)[0] == decimal(n / 10)[0]);
    } else {
        assert(decimal(n).drop_last() =~= Seq::empty());
    }
}

} // verus!
