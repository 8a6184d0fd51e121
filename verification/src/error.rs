//! Why a file cannot be decoded.

use vstd::arithmetic::div_mod::{lemma_div_decreases, lemma_div_pos_is_pos};
use vstd::prelude::*;
use vstd::string::StringExecFns;

verus! {

/// A file that is not a BRSTM stream, or not one that can be decoded.
#[derive(Debug, Clone, Copy, PartialEq, Eq)]
pub enum BrstmError {
    /// The file does not start with "RSTM" but with these bytes.
    BadFileMagic { magic: [u8; 4] },
    /// The file header does not give its size as 0x40.
    BadHeaderSize { size: u16 },
    /// The HEAD section does not start with "HEAD" but with these bytes.
    BadHeadMagic { magic: [u8; 4] },
    /// The audio is not ADPCM.
    UnsupportedFormat { format: u8 },
    /// The two places that give the number of channels differ.
    ChannelCountMismatch { stream_info: u8, channel_table: u8 },
    /// A channel's description does not refer to decoder parameters.
    MissingAdpcmParameters,
    /// The DATA section does not start with "DATA" but with these bytes.
    BadDataMagic { magic: [u8; 4] },
}

/// The digit for `d`, in lower case.
pub open spec fn digit_text(d: int) -> Seq<char> {
    if d == 0 {
        "0"@
    } else if d == 1 {
        "1"@
    } else if d == 2 {
        "2"@
    } else if d == 3 {
        "3"@
    } else if d == 4 {
        "4"@
    } else if d == 5 {
        "5"@
    } else if d == 6 {
        "6"@
    } else if d == 7 {
        "7"@
    } else if d == 8 {
        "8"@
    } else if d == 9 {
        "9"@
    } else if d == 10 {
        "a"@
    } else if d == 11 {
        "b"@
    } else if d == 12 {
        "c"@
    } else if d == 13 {
        "d"@
    } else if d == 14 {
        "e"@
    } else {
        "f"@
    }
}

/// `n` written in base `base`, without leading zeros.
pub open spec fn number_text(n: int, base: int) -> Seq<char>
    decreases n,
{
    if n < base || base < 2 {
        digit_text(n)
    } else {
        proof {
            lemma_div_decreases(n, base);
            lemma_div_pos_is_pos(n, base);
        }
        number_text(n / base, base) + digit_text(n % base)
    }
}

/// Four bytes as a list of decimal numbers in square brackets.
pub open spec fn bytes_text(bytes: [u8; 4]) -> Seq<char> {
    "["@ + number_text(bytes[0] as int, 10) + ", "@ + number_text(bytes[1] as int, 10) + ", "@
        + number_text(bytes[2] as int, 10) + ", "@ + number_text(bytes[3] as int, 10) + "]"@
}

impl BrstmError {
    /// The message that describes the error.
    pub open spec fn message_text(self) -> Seq<char> {
        match self {
            BrstmError::BadFileMagic { magic } => "not a valid RSTM/BRSTM file (bad magic: "@
                + bytes_text(magic) + ")"@,
            BrstmError::BadHeaderSize { size } => "unexpected file header size: 0x"@ + number_text(
                size as int,
                16,
            ) + " (expected 0x40)"@,
            BrstmError::BadHeadMagic { magic } => "HEAD section magic mismatch: "@ + bytes_text(
                magic,
            ),
            BrstmError::UnsupportedFormat { format }
                => "only ADPCM-encoded BRSTMs are supported (format byte = "@ + number_text(
                format as int,
                10,
            ) + ", expected 2)"@,
            BrstmError::ChannelCountMismatch { stream_info, channel_table }
                => "channel count mismatch: stream info says "@ + number_text(
                stream_info as int,
                10,
            ) + ", channel table says "@ + number_text(channel_table as int, 10),
            BrstmError::MissingAdpcmParameters => "channel has no ADPCM parameter data"@,
            BrstmError::BadDataMagic { magic } => "DATA section magic mismatch: "@ + bytes_text(
                magic,
            ),
        }
    }

    /// The message that describes the error.
    pub fn message(&self) -> (text: String)
        ensures
            text@ == self.message_text(),
    {
        let mut text: String = String::new();
        match self {
            BrstmError::BadFileMagic { magic } => {
                text.append("not a valid RSTM/BRSTM file (bad magic: ");
                append_bytes(&mut text, magic);
                text.append(")");
            },
            BrstmError::BadHeaderSize { size } => {
                text.append("unexpected file header size: 0x");
                append_number(&mut text, *size, 16);
                text.append(" (expected 0x40)");
            },
            BrstmError::BadHeadMagic { magic } => {
                text.append("HEAD section magic mismatch: ");
                append_bytes(&mut text, magic);
            },
            BrstmError::UnsupportedFormat { format } => {
                text.append("only ADPCM-encoded BRSTMs are supported (format byte = ");
                append_number(&mut text, *format as u16, 10);
                text.append(", expected 2)");
            },
            BrstmError::ChannelCountMismatch { stream_info, channel_table } => {
                text.append("channel count mismatch: stream info says ");
                append_number(&mut text, *stream_info as u16, 10);
                text.append(", channel table says ");
                append_number(&mut text, *channel_table as u16, 10);
            },
            BrstmError::MissingAdpcmParameters => {
                text.append("channel has no ADPCM parameter data");
            },
            BrstmError::BadDataMagic { magic } => {
                text.append("DATA section magic mismatch: ");
                append_bytes(&mut text, magic);
            },
        }
        assert(text@ =~= self.message_text());
        text
    }
}

/// The digit for `d`, in lower case.
fn digit(d: u16) -> (text: &'static str)
    requires
        d < 16,
    ensures
        text@ == digit_text(d as int),
{
    if d == 0 {
        "0"
    } else if d == 1 {
        "1"
    } else if d == 2 {
        "2"
    } else if d == 3 {
        "3"
    } else if d == 4 {
        "4"
    } else if d == 5 {
        "5"
    } else if d == 6 {
        "6"
    } else if d == 7 {
        "7"
    } else if d == 8 {
        "8"
    } else if d == 9 {
        "9"
    } else if d == 10 {
        "a"
    } else if d == 11 {
        "b"
    } else if d == 12 {
        "c"
    } else if d == 13 {
        "d"
    } else if d == 14 {
        "e"
    } else {
        "f"
    }
}

/// Appends `n`, written in base `base`.
fn append_number(text: &mut String, n: u16, base: u16)
    requires
        2 <= base <= 16,
    ensures
        final(text)@ == old(text)@ + number_text(n as int, base as int),
    decreases n,
{
    if n >= base {
        let ghost before = text@;
        proof {
            lemma_div_decreases(n as int, base as int);
        }
        append_number(text, n / base, base);
        text.append(digit(n % base));
        assert(text@ =~= before + number_text(n as int, base as int));
    } else {
        text.append(digit(n));
    }
}

/// Appends four bytes as a list.
fn append_bytes(text: &mut String, bytes: &[u8; 4])
    ensures
        final(text)@ == old(text)@ + bytes_text(*bytes),
{
    let ghost before = text@;
    text.append("[");
    append_number(text, bytes[0] as u16, 10);
    text.append(", ");
    append_number(text, bytes[1] as u16, 10);
    text.append(", ");
    append_number(text, bytes[2] as u16, 10);
    text.append(", ");
    append_number(text, bytes[3] as u16, 10);
    text.append("]");
    assert(text@ =~= before + bytes_text(*bytes));
}

} // verus!
