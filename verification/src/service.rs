use vstd::prelude::*;
use base64::Engine;
use vstd::string::StringSliceAdditionalSpecFns;

verus! {

// ---------------------------------------------------------------------
// Request and response payloads of the encode/decode service (base64 text),
// and the choice of operation from the command line.

/// The base64 digit (standard alphabet) of a 6-bit value.
pub open spec fn b64_digit(v: int) -> char {
    if v < 26 {
        (65 + v) as char
    } else if v < 52 {
        (97 + v - 26) as char
    } else if v < 62 {
        (48 + v - 52) as char
    } else if v == 62 {
        '+'
    } else {
        '/'
    }
}

/// Standard base64 with `=` padding (RFC 4648): every three bytes become four digits.
pub open spec fn b64_encoded(b: Seq<u8>) -> Seq<char>
    decreases b.len(),
{
    if b.len() == 0 {
        Seq::empty()
    } else if b.len() == 1 {
        seq![b64_digit(b[0] as int / 4), b64_digit((b[0] as int % 4) * 16), '=', '=']
    } else if b.len() == 2 {
        seq![b64_digit(b[0] as int / 4), b64_digit((b[0] as int % 4) * 16 + b[1] as int / 16), b64_digit((b[1] as int % 16) * 4), '=']
    } else {
        seq![b64_digit(b[0] as int / 4), b64_digit((b[0] as int % 4) * 16 + b[1] as int / 16), b64_digit((b[1] as int % 16) * 4 + b[2] as int / 64), b64_digit(b[2] as int % 64)]
            + b64_encoded(b.skip(3))
    }
}

/// Calls `base64::engine::general_purpose::STANDARD.encode`. Claims: the result is
/// the standard padded base64 text of the bytes. The bound keeps the output length
/// computation clear of its overflow check.
#[verifier::external_body]
fn b64_encode(bytes: &[u8]) -> (res: String)
    requires
        bytes@.len() <= usize::MAX / 2,
    ensures
        res@ == b64_encoded(bytes@),
{
    base64::engine::general_purpose::STANDARD.encode(bytes)
}

/// Calls `base64::engine::general_purpose::STANDARD.decode` and renders its error as
/// text. Claims: the engine requires canonical padding and allows no trailing bits,
/// so it succeeds exactly on the texts that are the standard padded encoding of some
/// bytes, and returns those bytes.
#[verifier::external_body]
fn b64_decode(text: &str) -> (res: Result<Vec<u8>, String>)
    ensures
        res matches Ok(v) ==> text@ == b64_encoded(v@),
        res is Err ==> forall|x: Seq<u8>| text@ != #[trigger] b64_encoded(x),
        res matches Ok(v) ==> forall|x: Seq<u8>| text@ == #[trigger] b64_encoded(x) ==> v@ == x,
{
    match base64::engine::general_purpose::STANDARD.decode(text) {
        Ok(v) => Ok(v),
        Err(e) => Err(e.to_string()),
    }
}

/// Why a request payload was refused.
pub enum RequestError {
    /// The text is not valid base64 (the decoder's explanation).
    InvalidBase64(String),
    /// The payload is empty.
    Empty,
}

/// The bytes a request carries as base64 text; refused when the text does not decode
/// or decodes to nothing.
pub fn request_payload(text: &str) -> (res: Result<Vec<u8>, RequestError>)
    ensures
        (forall|x: Seq<u8>| text@ != #[trigger] b64_encoded(x)) <==> (res matches Err(RequestError::InvalidBase64(_))),
        forall|x: Seq<u8>| text@ == #[trigger] b64_encoded(x) ==> {
            &&& (x.len() == 0 ==> res matches Err(RequestError::Empty))
            &&& (x.len() > 0 ==> (res matches Ok(b) && b@ == x))
        },
        res matches Ok(b) ==> text@ == b64_encoded(b@) && b@.len() > 0,
{
    match b64_decode(text) {
        Ok(v) => {
            if v.len() == 0 {
                Err(RequestError::Empty)
            } else {
                Ok(v)
            }
        },
        Err(msg) => Err(RequestError::InvalidBase64(msg)),
    }
}

/// The base64 text a response carries for bytes.
pub fn payload_base64(data: &[u8]) -> (res: String)
    requires
        data@.len() <= usize::MAX / 2,
    ensures
        res@ == b64_encoded(data@),
{
    b64_encode(data)
}

/// What the command line asks for.
#[derive(Debug, Clone, Copy, PartialEq, Eq, Structural)]
pub enum Operation {
    Encode,
    Decode,
}

/// Why no operation could be chosen.
#[derive(Debug, Clone, Copy, PartialEq, Eq, Structural)]
pub enum OperationError {
    /// No mode was given and the input's extension is neither `bin` nor `wav`.
    CannotDetect,
    /// The given mode is none of `encode`, `enc`, `decode`, `dec`.
    UnknownMode,
}

/// Compares a string's bytes with a word.
fn bytes_equal(s: &str, word: &[u8]) -> (res: bool)
    ensures
        res == (s.spec_bytes() == word@),
{
    let b = s.as_bytes();
    if b.len() != word.len() {
        return false;
    }
    let mut i: usize = 0;
    while i < b.len()
        invariant
            b@ == s.spec_bytes(),
            b@.len() == word@.len(),
            i <= b@.len(),
            forall|k: int| 0 <= k < i ==> b@[k] == word@[k],
        decreases b.len() - i,
    {
        if b[i] != word[i] {
            return false;
        }
        i += 1;
    }
    assert(b@ =~= word@);
    true
}

/// The bytes of the words the command line understands.
pub open spec fn word_encode() -> Seq<u8> { seq![101u8, 110, 99, 111, 100, 101] }
pub open spec fn word_enc() -> Seq<u8> { seq![101u8, 110, 99] }
pub open spec fn word_decode() -> Seq<u8> { seq![100u8, 101, 99, 111, 100, 101] }
pub open spec fn word_dec() -> Seq<u8> { seq![100u8, 101, 99] }
pub open spec fn word_bin() -> Seq<u8> { seq![98u8, 105, 110] }
pub open spec fn word_wav() -> Seq<u8> { seq![119u8, 97, 118] }

/// The operation for a mode word.
pub open spec fn mode_operation(m: Seq<u8>) -> Result<Operation, OperationError> {
    if m == word_encode() || m == word_enc() {
        Ok(Operation::Encode)
    } else if m == word_decode() || m == word_dec() {
        Ok(Operation::Decode)
    } else {
        Err(OperationError::UnknownMode)
    }
}

/// Chooses the operation: the given mode, or else by the input file's extension
/// (`bin` encodes, `wav` decodes).
pub fn choose_operation(mode: Option<&str>, extension: Option<&str>) -> (res: Result<Operation, OperationError>)
    ensures
        mode matches Some(m) ==> res == mode_operation(m.spec_bytes()),
        mode is None ==> res == match extension {
            Some(e) => if e.spec_bytes() == word_bin() {
                Ok(Operation::Encode)
            } else if e.spec_bytes() == word_wav() {
                Ok(Operation::Decode)
            } else {
                Err(OperationError::CannotDetect)
            },
            None => Err::<Operation, OperationError>(OperationError::CannotDetect),
        },
{
    let w_encode: [u8; 6] = [101, 110, 99, 111, 100, 101];
    let w_enc: [u8; 3] = [101, 110, 99];
    let w_decode: [u8; 6] = [100, 101, 99, 111, 100, 101];
    let w_dec: [u8; 3] = [100, 101, 99];
    let w_bin: [u8; 3] = [98, 105, 110];
    let w_wav: [u8; 3] = [119, 97, 118];
    assert(w_encode@ =~= word_encode());
    assert(w_enc@ =~= word_enc());
    assert(w_decode@ =~= word_decode());
    assert(w_dec@ =~= word_dec());
    assert(w_bin@ =~= word_bin());
    assert(w_wav@ =~= word_wav());
    match mode {
        Some(m) => {
            if bytes_equal(m, w_encode.as_slice()) || bytes_equal(m, w_enc.as_slice()) {
                Ok(Operation::Encode)
            } else if bytes_equal(m, w_decode.as_slice()) || bytes_equal(m, w_dec.as_slice()) {
                Ok(Operation::Decode)
            } else {
                Err(OperationError::UnknownMode)
            }
        },
        None => match extension {
            Some(e) => {
                if bytes_equal(e, w_bin.as_slice()) {
                    Ok(Operation::Encode)
                } else if bytes_equal(e, w_wav.as_slice()) {
                    Ok(Operation::Decode)
                } else {
                    Err(OperationError::CannotDetect)
                }
            },
            None => Err(OperationError::CannotDetect),
        },
    }
}

} // verus!
