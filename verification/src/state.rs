//! The closed palette of cell symbols: five playable symbols, an `End`
//! marker whose numeric code bounds the playable range, and an `Error`
//! sentinel used for out-of-range codes.

use vstd::prelude::*;

verus! {

/// One cell symbol. `Alpha` through `Epsilon` are the five playable
/// symbols, with numeric codes 0 through 4; `End` (code 5) bounds the
/// playable range; `Error` marks an out-of-range code and is never a
/// playable cell value.
#[derive(PartialEq, Eq, Structural, Clone, Copy, Debug)]
pub enum State {
    Error,
    Alpha,
    Beta,
    Gamma,
    Delta,
    Epsilon,
    End,
}

impl State {
    /// True of the five playable symbols only.
    pub open spec fn is_playable(self) -> bool {
        self matches (State::Alpha | State::Beta | State::Gamma | State::Delta
            | State::Epsilon)
    }

    /// The numeric code of each symbol, as `value` returns it.
    pub open spec fn spec_value(self) -> u8 {
        match self {
            State::Alpha => 0,
            State::Beta => 1,
            State::Gamma => 2,
            State::Delta => 3,
            State::Epsilon => 4,
            State::End => 5,
            State::Error => u8::MAX,
        }
    }

    /// The symbol a numeric code denotes, as `from` returns it.
    pub open spec fn spec_from(from: u8) -> State {
        if from == 0 {
            State::Alpha
        } else if from == 1 {
            State::Beta
        } else if from == 2 {
            State::Gamma
        } else if from == 3 {
            State::Delta
        } else if from == 4 {
            State::Epsilon
        } else if from == 5 {
            State::End
        } else {
            State::Error
        }
    }

    /// Decodes a numeric code: 0 through 4 give the playable symbols,
    /// 5 gives `End`, anything larger gives `Error`.
    pub fn from(from: u8) -> (s: State)
        ensures
            s == State::spec_from(from),
    {
        match from {
            0 => State::Alpha,
            1 => State::Beta,
            2 => State::Gamma,
            3 => State::Delta,
            4 => State::Epsilon,
            5 => State::End,
            _ => State::Error,
        }
    }

    /// The numeric code of this symbol; inverse of `from` on codes
    /// 0 through 5.
    pub fn value(&self) -> (v: u8)
        ensures
            v == self.spec_value(),
            self.is_playable() <==> v <= 4,
    {
        match self {
            State::Alpha => 0,
            State::Beta => 1,
            State::Gamma => 2,
            State::Delta => 3,
            State::Epsilon => 4,
            State::End => 5,
            State::Error => u8::MAX,
        }
    }

    /// The display glyph of each symbol.
    pub open spec fn spec_ascii(self) -> char {
        match self {
            State::Error => '?',
            State::Alpha => 'A',
            State::Beta => 'B',
            State::Gamma => 'G',
            State::Delta => 'D',
            State::Epsilon => 'E',
            State::End => '#',
        }
    }

    /// The display glyph of this symbol.
    pub fn ascii(&self) -> (c: char)
        ensures
            c == self.spec_ascii(),
    {
        match self {
            State::Error => '?',
            State::Alpha => 'A',
            State::Beta => 'B',
            State::Gamma => 'G',
            State::Delta => 'D',
            State::Epsilon => 'E',
            State::End => '#',
        }
    }
}

/// Codes 0 through 5 round-trip through the palette: decoding a code and
/// reading the symbol's code back returns the original code, and every
/// other code decodes to `Error`.
pub proof fn lemma_state_code_round_trip(code: u8)
    ensures
        code <= 5 ==> State::spec_from(code).spec_value() == code,
        code > 5 ==> State::spec_from(code) == State::Error,
{
}

} // verus!
