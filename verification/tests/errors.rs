use transmitwave_core::error::AudioModemError;

#[test]
fn error_messages() {
    assert_eq!(AudioModemError::PreambleNotFound.message(), "Failed to detect preamble");
    assert_eq!(AudioModemError::PayloadCrcMismatch.message(), "CRC mismatch in frame payload");
    assert_eq!(AudioModemError::FecError("x".to_string()).message(), "FEC error: x");
    assert_eq!(AudioModemError::InvalidConfig("bad".to_string()).message(), "Invalid configuration: bad");
    assert_eq!(AudioModemError::FftError("y".to_string()).message(), "FFT error: y");
    assert_eq!(AudioModemError::Timeout.message(), "Operation timeout");
}
