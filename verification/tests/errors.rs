use srs::afft::TransformLengthError;
use srs::{ConfigError, DecodeError, EncodeError, Engine};

/// A library error as a caller wraps it for `std::error::Error`.
#[derive(Debug)]
struct Reported<T>(T);

/// What each of the library's errors offers a wrapper.
trait Message {
    fn text(&self) -> String;
}

impl Message for ConfigError {
    fn text(&self) -> String {
        self.message()
    }
}

impl Message for EncodeError {
    fn text(&self) -> String {
        self.message()
    }
}

impl Message for DecodeError {
    fn text(&self) -> String {
        self.message()
    }
}

impl Message for TransformLengthError {
    fn text(&self) -> String {
        format!("expected {} bytes, got {}", self.expected, self.got)
    }
}

impl<T: Message> std::fmt::Display for Reported<T> {
    fn fmt(&self, formatter: &mut std::fmt::Formatter<'_>) -> std::fmt::Result {
        formatter.write_str(&self.0.text())
    }
}

impl<T: Message + std::fmt::Debug> std::error::Error for Reported<T> {}

fn assert_standard_error<T: std::error::Error + Send + Sync + 'static>() {}

#[test]
fn all_public_errors_implement_standard_error() {
    assert_standard_error::<Reported<ConfigError>>();
    assert_standard_error::<Reported<EncodeError>>();
    assert_standard_error::<Reported<DecodeError>>();
    assert_standard_error::<Reported<TransformLengthError>>();
}

#[test]
fn display_reports_actionable_context() {
    assert_eq!(
        ConfigError::TooManySymbols { cap: 255 }.message(),
        "codeword exceeds the selected engine's 255-symbol capacity"
    );
    assert_eq!(
        EncodeError::WrongPayloadLen {
            expected: 1400,
            got: 1399
        }
        .message(),
        "wrong payload length: expected 1400 bytes, got 1399"
    );
    assert_eq!(
        DecodeError::InsufficientRank { rank: 7, k: 10 }.message(),
        "insufficient decoder rank: have 7, need 10"
    );
}

#[test]
fn every_variant_has_its_message() {
    let config = [
        (ConfigError::ZeroDimension, "k and m must both be nonzero"),
        (ConfigError::ZeroSymbolLen, "symbol length must be nonzero"),
        (
            ConfigError::OddSymbolLen,
            "symbol length must be even for GF(65536)",
        ),
        (
            ConfigError::UnsupportedMode {
                engine: Engine::Gf16Afft,
            },
            "Gf16Afft does not support the requested codec mode",
        ),
        (
            ConfigError::UnsupportedMode {
                engine: Engine::StandardCauchy,
            },
            "StandardCauchy does not support the requested codec mode",
        ),
    ];
    for (error, text) in config {
        assert_eq!(error.message(), text);
    }

    let encode = [
        (
            EncodeError::WrongInputLen {
                expected: 32,
                got: 0,
            },
            "wrong input length: expected 32 bytes, got 0",
        ),
        (
            EncodeError::IndexOutOfRange { index: 9, n: 7 },
            "symbol index 9 is out of range for codeword length 7",
        ),
        (
            EncodeError::DuplicateData { index: 10 },
            "data symbol 10 was already supplied",
        ),
        (
            EncodeError::WrongOutputLen {
                expected: 100,
                got: 99,
            },
            "wrong output length: expected 100 bytes, got 99",
        ),
        (
            EncodeError::ScratchMismatch,
            "scratch buffer belongs to a different engine or geometry",
        ),
    ];
    for (error, text) in encode {
        assert_eq!(error.message(), text);
    }

    let decode = [
        (
            DecodeError::WrongCount {
                expected: 4,
                got: 3,
            },
            "wrong symbol count: expected 4, got 3",
        ),
        (
            DecodeError::IndexOutOfRange { index: 12, n: 10 },
            "symbol index 12 is out of range for codeword length 10",
        ),
        (
            DecodeError::DuplicateIndex { index: 2 },
            "symbol index 2 was supplied more than once",
        ),
        (
            DecodeError::UnexpectedIndex { index: 5 },
            "symbol index 5 is not in the prepared receipt pattern",
        ),
        (
            DecodeError::WrongPayloadLen {
                expected: 8,
                got: 7,
            },
            "wrong payload length: expected 8 bytes, got 7",
        ),
        (
            DecodeError::TooManySymbols {
                cap: 7,
                received: 8,
            },
            "decoder symbol limit exceeded: received 8, capacity 7",
        ),
        (
            DecodeError::WrongOutputLen {
                expected: 64,
                got: 0,
            },
            "wrong output length: expected 64 bytes, got 0",
        ),
        (
            DecodeError::ScratchMismatch,
            "scratch buffer belongs to a different engine or geometry",
        ),
    ];
    for (error, text) in decode {
        assert_eq!(error.message(), text);
    }
}
