use vstd::prelude::*;
use vstd::string::StringExecFns;

verus! {

/// Errors reported by the modem.
#[derive(Debug)]
pub enum AudioModemError {
    PreambleNotFound,
    PostambleNotFound,
    HeaderCrcMismatch,
    PayloadCrcMismatch,
    FecDecodeFailure,
    InvalidFrameSize,
    FftError(String),
    InvalidInputSize,
    InsufficientData,
    FrameNumberMismatch,
    InvalidConfig(String),
    FecError(String),
    FountainDecodeFailure,
    Timeout,
}

/// Result type of the modem.
pub type Result<T> = core::result::Result<T, AudioModemError>;

/// The description of an error.
pub open spec fn message_text(e: AudioModemError) -> Seq<char> {
    match e {
        AudioModemError::PreambleNotFound => "Failed to detect preamble"@,
        AudioModemError::PostambleNotFound => "Failed to detect postamble"@,
        AudioModemError::HeaderCrcMismatch => "CRC mismatch in frame header"@,
        AudioModemError::PayloadCrcMismatch => "CRC mismatch in frame payload"@,
        AudioModemError::FecDecodeFailure => "Reed-Solomon decode failure"@,
        AudioModemError::InvalidFrameSize => "Invalid frame size"@,
        AudioModemError::FftError(s) => "FFT error: "@ + s@,
        AudioModemError::InvalidInputSize => "Invalid input size"@,
        AudioModemError::InsufficientData => "Insufficient data"@,
        AudioModemError::FrameNumberMismatch => "Frame number mismatch"@,
        AudioModemError::InvalidConfig(s) => "Invalid configuration: "@ + s@,
        AudioModemError::FecError(s) => "FEC error: "@ + s@,
        AudioModemError::FountainDecodeFailure => "Fountain decode failure"@,
        AudioModemError::Timeout => "Operation timeout"@,
    }
}

impl AudioModemError {
    /// Human-readable description of the error.
    pub fn message(&self) -> (res: String)
        ensures
            res@ == message_text(*self),
    {
        match self {
            AudioModemError::PreambleNotFound => "Failed to detect preamble".to_string(),
            AudioModemError::PostambleNotFound => "Failed to detect postamble".to_string(),
            AudioModemError::HeaderCrcMismatch => "CRC mismatch in frame header".to_string(),
            AudioModemError::PayloadCrcMismatch => "CRC mismatch in frame payload".to_string(),
            AudioModemError::FecDecodeFailure => "Reed-Solomon decode failure".to_string(),
            AudioModemError::InvalidFrameSize => "Invalid frame size".to_string(),
            AudioModemError::FftError(s) => concat_message("FFT error: ", s),
            AudioModemError::InvalidInputSize => "Invalid input size".to_string(),
            AudioModemError::InsufficientData => "Insufficient data".to_string(),
            AudioModemError::FrameNumberMismatch => "Frame number mismatch".to_string(),
            AudioModemError::InvalidConfig(s) => concat_message("Invalid configuration: ", s),
            AudioModemError::FecError(s) => concat_message("FEC error: ", s),
            AudioModemError::FountainDecodeFailure => "Fountain decode failure".to_string(),
            AudioModemError::Timeout => "Operation timeout".to_string(),
        }
    }
}

fn concat_message(prefix: &str, detail: &String) -> (res: String)
    ensures
        res@ == prefix@ + detail@,
{
    let mut s = String::from_str(prefix);
    s.append(detail.as_str());
    s
}


/// The character of a decimal digit.
pub open spec fn digit_char(d: nat) -> char {
    (48 + d) as char
}

/// The decimal representation of a number.
pub open spec fn decimal(n: nat) -> Seq<char>
    decreases n,
{
    if n < 10 {
        seq![digit_char(n)]
    } else {
        decimal(n / 10).push(digit_char(n % 10))
    }
}

/// The text of one decimal digit.
fn digit_str(d: usize) -> (res: &'static str)
    requires
        d < 10,
    ensures
        res@ == seq![digit_char(d as nat)],
{
    match d {
        0 => { proof { reveal_strlit("0"); } assert("0"@ =~= seq!['0']); "0" },
        1 => { proof { reveal_strlit("1"); } assert("1"@ =~= seq!['1']); "1" },
        2 => { proof { reveal_strlit("2"); } assert("2"@ =~= seq!['2']); "2" },
        3 => { proof { reveal_strlit("3"); } assert("3"@ =~= seq!['3']); "3" },
        4 => { proof { reveal_strlit("4"); } assert("4"@ =~= seq!['4']); "4" },
        5 => { proof { reveal_strlit("5"); } assert("5"@ =~= seq!['5']); "5" },
        6 => { proof { reveal_strlit("6"); } assert("6"@ =~= seq!['6']); "6" },
        7 => { proof { reveal_strlit("7"); } assert("7"@ =~= seq!['7']); "7" },
        8 => { proof { reveal_strlit("8"); } assert("8"@ =~= seq!['8']); "8" },
        _ => { proof { reveal_strlit("9"); } assert("9"@ =~= seq!['9']); "9" },
    }
}

/// Appends the decimal representation of a number.
pub fn append_decimal(s: &mut String, n: usize)
    ensures
        final(s)@ == old(s)@ + decimal(n as nat),
    decreases n,
{
    if n >= 10 {
        append_decimal(s, n / 10);
    }
    s.append(digit_str(n % 10));
}

} // verus!
