//! Error types of the public API.
//!
//! Every codec reports failures through these three enums:
//!
//! - [`ConfigError`] for construction (dimensions and symbol length),
//! - [`EncodeError`] for encode-time input faults,
//! - [`DecodeError`] for streaming-decode and batch-decode faults.

use vstd::prelude::*;

use crate::codec::Engine;

verus! {

/// Error returned when constructing a codec with invalid parameters.
#[derive(Debug, Clone, Copy, PartialEq, Eq, Structural)]
pub enum ConfigError {
    /// `k` or `m` is zero.
    ZeroDimension,
    /// The selected engine rejects `k + m` (exceeds its capacity `cap`).
    TooManySymbols {
        /// The engine's maximum `k + m`.
        cap: usize,
    },
    /// `symbol_len` is zero.
    ZeroSymbolLen,
    /// `symbol_len` is odd but the engine requires even-length symbols
    /// (GF(65536) interleaved two-byte elements).
    OddSymbolLen,
    /// The engine does not support the requested mode.
    UnsupportedMode {
        /// The engine that was asked for the mode.
        engine: Engine,
    },
}

/// Error returned by encode operations.
#[derive(Debug, Clone, Copy, PartialEq, Eq, Structural)]
pub enum EncodeError {
    /// Input data length differed from `k * symbol_len` (batch encode).
    WrongInputLen {
        /// The expected input length.
        expected: usize,
        /// The actual input length.
        got: usize,
    },
    /// A symbol index is outside the valid range `0..n`.
    IndexOutOfRange {
        /// The offending index.
        index: usize,
        /// The codeword length `n = k + m`.
        n: usize,
    },
    /// A payload has the wrong length.
    WrongPayloadLen {
        /// The expected length (`symbol_len`).
        expected: usize,
        /// The actual length.
        got: usize,
    },
    /// A data symbol has already been fed (incremental encode).
    DuplicateData {
        /// The duplicate index.
        index: usize,
    },
    /// A caller-provided repair buffer has the wrong length.
    WrongOutputLen {
        /// The expected length.
        expected: usize,
        /// The actual length.
        got: usize,
    },
    /// Caller-owned scratch belongs to another engine or geometry.
    ScratchMismatch,
}

/// Error returned by streaming-decode and batch-decode operations.
#[derive(Debug, Clone, Copy, PartialEq, Eq, Structural)]
pub enum DecodeError {
    /// Wrong number of symbols provided: expected exactly `k` (batch decode).
    WrongCount {
        /// The expected count (`k`).
        expected: usize,
        /// The actual count received.
        got: usize,
    },
    /// A symbol index is outside the valid range `0..n`.
    IndexOutOfRange {
        /// The offending index.
        index: usize,
        /// The codeword length `n = k + m`.
        n: usize,
    },
    /// The same symbol index appeared more than once (batch decode).
    DuplicateIndex {
        /// The duplicated index.
        index: usize,
    },
    /// A symbol index was not part of a prepared decoder's receipt pattern.
    UnexpectedIndex {
        /// The unexpected index.
        index: usize,
    },
    /// A payload has the wrong length.
    WrongPayloadLen {
        /// The expected length (`symbol_len`).
        expected: usize,
        /// The actual length.
        got: usize,
    },
    /// More than `n = k + m` symbols were pushed; the decoder refuses further
    /// symbols to bound adversarial cost.
    TooManySymbols {
        /// The cap (`n = k + m`).
        cap: usize,
        /// Symbols already received.
        received: usize,
    },
    /// Finalization was attempted before the decoder reached full rank `k`.
    InsufficientRank {
        /// The current rank.
        rank: usize,
        /// The required rank (`k`).
        k: usize,
    },
    /// Caller-provided output buffer has the wrong length.
    WrongOutputLen {
        /// Expected length.
        expected: usize,
        /// Actual length.
        got: usize,
    },
    /// Caller-owned scratch belongs to another engine or geometry.
    ScratchMismatch,
}

/// Calls `String::push_str`: appends the characters of a string slice.
pub assume_specification[ String::push_str ](s: &mut String, string: &str)
    ensures
        final(s)@ == old(s)@ + string@,
;

/// The decimal digit `d`.
pub open spec fn digit(d: int) -> Seq<char> {
    if d == 0 {
        "0"@
    } else if d == 1 {
        "1"@
    } else if d == 2 {
        "2"@
    } else if d == 3 {
        "3"@
    } else if d == 4 {
        "4"@
    } else if d == 5 {
        "5"@
    } else if d == 6 {
        "6"@
    } else if d == 7 {
        "7"@
    } else if d == 8 {
        "8"@
    } else {
        "9"@
    }
}

/// The decimal form of `n`.
pub open spec fn decimal(n: nat) -> Seq<char>
    decreases n,
{
    if n < 10 {
        digit(n as int)
    } else {
        decimal(n / 10) + digit((n % 10) as int)
    }
}

/// The number that a sequence of decimal digits denotes.
pub open spec fn numeral_value(digits: Seq<char>) -> int
    decreases digits.len(),
{
    if digits.len() == 0 {
        0
    } else {
        10 * numeral_value(digits.drop_last()) + (digits.last() as int - '0' as int)
    }
}

/// The decimal form of a number reads back as the number: it is made of digits,
/// without a leading zero but for zero itself, and denotes the number. Different
/// numbers therefore look different in a message.
pub proof fn decimal_reads_back(n: nat)
    ensures
        numeral_value(decimal(n)) == n,
        decimal(n).len() >= 1,
        forall|t: int| 0 <= t < decimal(n).len() ==> '0' <= #[trigger] decimal(n)[t] <= '9',
        decimal(n)[0] == '0' ==> n == 0,
        n == 0 ==> decimal(n).len() == 1,
    decreases n,
{
    reveal_strlit("0");
    reveal_strlit("1");
    reveal_strlit("2");
    reveal_strlit("3");
    reveal_strlit("4");
    reveal_strlit("5");
    reveal_strlit("6");
    reveal_strlit("7");
    reveal_strlit("8");
    reveal_strlit("9");
    let last = digit((n % 10) as int);
    assert(last.len() == 1);
    assert(last[0] as int - '0' as int == n % 10);
    if n < 10 {
        assert(decimal(n) == last);
        assert(last.drop_last() =~= Seq::<char>::empty());
        assert(numeral_value(last.drop_last()) == 0);
    } else {
        decimal_reads_back(n / 10);
        let front = decimal(n / 10);
        assert(decimal(n) == front + last);
        assert((front + last).drop_last() =~= front);
        assert((front + last).last() == last[0]);
    }
}

/// Appends the decimal form of `n`.
fn push_number(out: &mut String, n: usize)
    ensures
        final(out)@ == old(out)@ + decimal(n as nat),
    decreases n,
{
    if n >= 10 {
        push_number(out, n / 10);
    }
    let d: usize = n % 10;
    if d == 0 {
        out.push_str("0");
    } else if d == 1 {
        out.push_str("1");
    } else if d == 2 {
        out.push_str("2");
    } else if d == 3 {
        out.push_str("3");
    } else if d == 4 {
        out.push_str("4");
    } else if d == 5 {
        out.push_str("5");
    } else if d == 6 {
        out.push_str("6");
    } else if d == 7 {
        out.push_str("7");
    } else if d == 8 {
        out.push_str("8");
    } else {
        out.push_str("9");
    }
    proof {
        if n >= 10 {
            assert(old(out)@ + decimal((n / 10) as nat) + digit((n % 10) as int) =~= old(out)@ + (
            decimal((n / 10) as nat) + digit((n % 10) as int)));
        }
    }
}

/// `before`, the decimal form of `n`, `after`.
fn with_number(before: &str, n: usize, after: &str) -> (r: String)
    ensures
        r@ == before@ + decimal(n as nat) + after@,
{
    let mut out = String::new();
    out.push_str(before);
    push_number(&mut out, n);
    out.push_str(after);
    proof {
        assert(Seq::<char>::empty() + before@ =~= before@);
    }
    out
}

/// `before`, `first`, `between`, `second`, `after`.
fn with_numbers(before: &str, first: usize, between: &str, second: usize, after: &str) -> (r:
    String)
    ensures
        r@ == before@ + decimal(first as nat) + between@ + decimal(second as nat) + after@,
        after@.len() == 0 ==> r@ == before@ + decimal(first as nat) + between@ + decimal(
            second as nat,
        ),
{
    let mut out = with_number(before, first, between);
    push_number(&mut out, second);
    let ghost whole = out@;
    out.push_str(after);
    proof {
        if after@.len() == 0 {
            assert(whole + after@ =~= whole);
        }
    }
    out
}

impl ConfigError {
    /// Characters of [`ConfigError::message`].
    pub open spec fn text(&self) -> Seq<char> {
        match self {
            ConfigError::ZeroDimension => "k and m must both be nonzero"@,
            ConfigError::TooManySymbols { cap } => "codeword exceeds the selected engine's "@
                + decimal(*cap as nat) + "-symbol capacity"@,
            ConfigError::ZeroSymbolLen => "symbol length must be nonzero"@,
            ConfigError::OddSymbolLen => "symbol length must be even for GF(65536)"@,
            ConfigError::UnsupportedMode { engine } => engine.text()
                + " does not support the requested codec mode"@,
        }
    }

    /// A description of the error.
    pub fn message(&self) -> (r: String)
        ensures
            r@ == self.text(),
            match self {
                ConfigError::ZeroDimension => r@ == "k and m must both be nonzero"@,
                ConfigError::TooManySymbols { cap } => r@
                    == "codeword exceeds the selected engine's "@
                    + decimal(*cap as nat) + "-symbol capacity"@,
                ConfigError::ZeroSymbolLen => r@ == "symbol length must be nonzero"@,
                ConfigError::OddSymbolLen => r@ == "symbol length must be even for GF(65536)"@,
                ConfigError::UnsupportedMode { engine } => r@ == engine.text()
                    + " does not support the requested codec mode"@,
            },
    {
        match self {
            ConfigError::ZeroDimension => "k and m must both be nonzero".to_owned(),
            ConfigError::TooManySymbols { cap } => with_number(
                "codeword exceeds the selected engine's ",
                *cap,
                "-symbol capacity",
            ),
            ConfigError::ZeroSymbolLen => "symbol length must be nonzero".to_owned(),
            ConfigError::OddSymbolLen => "symbol length must be even for GF(65536)".to_owned(),
            ConfigError::UnsupportedMode { engine } => {
                let mut out = engine.name().to_owned();
                out.push_str(" does not support the requested codec mode");
                out
            },
        }
    }
}

impl EncodeError {
    /// Characters of [`EncodeError::message`].
    pub open spec fn text(&self) -> Seq<char> {
        match self {
            EncodeError::WrongInputLen { expected, got } => "wrong input length: expected "@
                + decimal(*expected as nat) + " bytes, got "@ + decimal(*got as nat) + ""@,
            EncodeError::IndexOutOfRange { index, n } => "symbol index "@ + decimal(*index as nat)
                + " is out of range for codeword length "@ + decimal(*n as nat) + ""@,
            EncodeError::WrongPayloadLen { expected, got } => "wrong payload length: expected "@
                + decimal(*expected as nat) + " bytes, got "@ + decimal(*got as nat) + ""@,
            EncodeError::DuplicateData { index } => "data symbol "@ + decimal(*index as nat)
                + " was already supplied"@,
            EncodeError::WrongOutputLen { expected, got } => "wrong output length: expected "@
                + decimal(*expected as nat) + " bytes, got "@ + decimal(*got as nat) + ""@,
            EncodeError::ScratchMismatch =>
                "scratch buffer belongs to a different engine or geometry"@,
        }
    }

    /// A description of the error.
    pub fn message(&self) -> (r: String)
        ensures
            r@ == self.text(),
            match self {
                EncodeError::WrongInputLen { expected, got } => r@
                    == "wrong input length: expected "@
                    + decimal(*expected as nat) + " bytes, got "@ + decimal(*got as nat),
                EncodeError::IndexOutOfRange { index, n } => r@ == "symbol index "@
                    + decimal(*index as nat) + " is out of range for codeword length "@
                    + decimal(*n as nat),
                EncodeError::WrongPayloadLen { expected, got } => r@
                    == "wrong payload length: expected "@
                    + decimal(*expected as nat) + " bytes, got "@ + decimal(*got as nat),
                EncodeError::DuplicateData { index } => r@ == "data symbol "@
                    + decimal(*index as nat) + " was already supplied"@,
                EncodeError::WrongOutputLen { expected, got } => r@
                    == "wrong output length: expected "@
                    + decimal(*expected as nat) + " bytes, got "@ + decimal(*got as nat),
                EncodeError::ScratchMismatch => r@
                    == "scratch buffer belongs to a different engine or geometry"@,
            },
    {
        proof {
            reveal_strlit("");
        }
        match self {
            EncodeError::WrongInputLen { expected, got } => with_numbers(
                "wrong input length: expected ",
                *expected,
                " bytes, got ",
                *got,
                "",
            ),
            EncodeError::IndexOutOfRange { index, n } => with_numbers(
                "symbol index ",
                *index,
                " is out of range for codeword length ",
                *n,
                "",
            ),
            EncodeError::WrongPayloadLen { expected, got } => with_numbers(
                "wrong payload length: expected ",
                *expected,
                " bytes, got ",
                *got,
                "",
            ),
            EncodeError::DuplicateData { index } => with_number(
                "data symbol ",
                *index,
                " was already supplied",
            ),
            EncodeError::WrongOutputLen { expected, got } => with_numbers(
                "wrong output length: expected ",
                *expected,
                " bytes, got ",
                *got,
                "",
            ),
            EncodeError::ScratchMismatch =>
                "scratch buffer belongs to a different engine or geometry".to_owned(),
        }
    }
}

impl DecodeError {
    /// Characters of [`DecodeError::message`].
    pub open spec fn text(&self) -> Seq<char> {
        match self {
            DecodeError::WrongCount { expected, got } => "wrong symbol count: expected "@
                + decimal(*expected as nat) + ", got "@ + decimal(*got as nat) + ""@,
            DecodeError::IndexOutOfRange { index, n } => "symbol index "@ + decimal(*index as nat)
                + " is out of range for codeword length "@ + decimal(*n as nat) + ""@,
            DecodeError::DuplicateIndex { index } => "symbol index "@ + decimal(*index as nat)
                + " was supplied more than once"@,
            DecodeError::UnexpectedIndex { index } => "symbol index "@ + decimal(*index as nat)
                + " is not in the prepared receipt pattern"@,
            DecodeError::WrongPayloadLen { expected, got } => "wrong payload length: expected "@
                + decimal(*expected as nat) + " bytes, got "@ + decimal(*got as nat) + ""@,
            DecodeError::TooManySymbols { cap, received } =>
                "decoder symbol limit exceeded: received "@ + decimal(*received as nat)
                + ", capacity "@ + decimal(*cap as nat) + ""@,
            DecodeError::InsufficientRank { rank, k } => "insufficient decoder rank: have "@
                + decimal(*rank as nat) + ", need "@ + decimal(*k as nat) + ""@,
            DecodeError::WrongOutputLen { expected, got } => "wrong output length: expected "@
                + decimal(*expected as nat) + " bytes, got "@ + decimal(*got as nat) + ""@,
            DecodeError::ScratchMismatch =>
                "scratch buffer belongs to a different engine or geometry"@,
        }
    }

    /// A description of the error.
    pub fn message(&self) -> (r: String)
        ensures
            r@ == self.text(),
            match self {
                DecodeError::WrongCount { expected, got } => r@ == "wrong symbol count: expected "@
                    + decimal(*expected as nat) + ", got "@ + decimal(*got as nat),
                DecodeError::IndexOutOfRange { index, n } => r@ == "symbol index "@
                    + decimal(*index as nat) + " is out of range for codeword length "@
                    + decimal(*n as nat),
                DecodeError::DuplicateIndex { index } => r@ == "symbol index "@
                    + decimal(*index as nat) + " was supplied more than once"@,
                DecodeError::UnexpectedIndex { index } => r@ == "symbol index "@
                    + decimal(*index as nat) + " is not in the prepared receipt pattern"@,
                DecodeError::WrongPayloadLen { expected, got } => r@
                    == "wrong payload length: expected "@
                    + decimal(*expected as nat) + " bytes, got "@ + decimal(*got as nat),
                DecodeError::TooManySymbols { cap, received } => r@
                    == "decoder symbol limit exceeded: received "@
                    + decimal(*received as nat) + ", capacity "@ + decimal(*cap as nat),
                DecodeError::InsufficientRank { rank, k } => r@
                    == "insufficient decoder rank: have "@
                    + decimal(*rank as nat) + ", need "@ + decimal(*k as nat),
                DecodeError::WrongOutputLen { expected, got } => r@
                    == "wrong output length: expected "@
                    + decimal(*expected as nat) + " bytes, got "@ + decimal(*got as nat),
                DecodeError::ScratchMismatch => r@
                    == "scratch buffer belongs to a different engine or geometry"@,
            },
    {
        proof {
            reveal_strlit("");
        }
        match self {
            DecodeError::WrongCount { expected, got } => with_numbers(
                "wrong symbol count: expected ",
                *expected,
                ", got ",
                *got,
                "",
            ),
            DecodeError::IndexOutOfRange { index, n } => with_numbers(
                "symbol index ",
                *index,
                " is out of range for codeword length ",
                *n,
                "",
            ),
            DecodeError::DuplicateIndex { index } => with_number(
                "symbol index ",
                *index,
                " was supplied more than once",
            ),
            DecodeError::UnexpectedIndex { index } => with_number(
                "symbol index ",
                *index,
                " is not in the prepared receipt pattern",
            ),
            DecodeError::WrongPayloadLen { expected, got } => with_numbers(
                "wrong payload length: expected ",
                *expected,
                " bytes, got ",
                *got,
                "",
            ),
            DecodeError::TooManySymbols { cap, received } => with_numbers(
                "decoder symbol limit exceeded: received ",
                *received,
                ", capacity ",
                *cap,
                "",
            ),
            DecodeError::InsufficientRank { rank, k } => with_numbers(
                "insufficient decoder rank: have ",
                *rank,
                ", need ",
                *k,
                "",
            ),
            DecodeError::WrongOutputLen { expected, got } => with_numbers(
                "wrong output length: expected ",
                *expected,
                " bytes, got ",
                *got,
                "",
            ),
            DecodeError::ScratchMismatch =>
                "scratch buffer belongs to a different engine or geometry".to_owned(),
        }
    }
}

} // verus!
