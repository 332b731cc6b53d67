use vstd::prelude::*;

verus! {

/// How content items are turned into byte buffers.
#[derive(Debug, Clone, Copy, PartialEq, Eq, Structural)]
pub enum IO {
    Sequential,
    Parallel,
}

/// How byte buffers are scanned and merged.
#[derive(Debug, Clone, Copy, PartialEq, Eq, Structural)]
pub enum Parsing {
    Sequential,
    Parallel,
}

impl IO {
    /// Decodes the IO axis (bits 0 and 1) of a packed strategy byte.
    pub fn from_bits(item: u8) -> (r: Option<IO>)
        ensures
            r == (if item & 3 == 1 {
                Some(IO::Sequential)
            } else if item & 3 == 2 {
                Some(IO::Parallel)
            } else {
                None::<IO>
            }),
    {
        let bits: u8 = item & 3;
        if bits == 1 {
            Some(IO::Sequential)
        } else if bits == 2 {
            Some(IO::Parallel)
        } else {
            None
        }
    }
}

impl Parsing {
    /// Decodes the parsing axis (bits 2 and 3) of a packed strategy byte.
    pub fn from_bits(item: u8) -> (r: Option<Parsing>)
        ensures
            r == (if item & 12 == 4 {
                Some(Parsing::Sequential)
            } else if item & 12 == 8 {
                Some(Parsing::Parallel)
            } else {
                None::<Parsing>
            }),
    {
        let bits: u8 = item & 12;
        if bits == 4 {
            Some(Parsing::Sequential)
        } else if bits == 8 {
            Some(Parsing::Parallel)
        } else {
            None
        }
    }
}

/// An execution strategy: one choice on each axis.
#[derive(Debug, Clone, Copy, PartialEq, Eq, Structural)]
pub struct Strategy {
    pub io: IO,
    pub parsing: Parsing,
}

/// A packed strategy byte that names no strategy on one of its axes; the
/// byte is kept.
#[derive(Debug, Clone, Copy, PartialEq, Eq, Structural)]
pub enum StrategyError {
    UnknownIO(u8),
    UnknownParsing(u8),
}

/// The strategy a packed byte names: bits 0-1 are `01` (sequential IO) or
/// `10` (parallel IO), bits 2-3 are `01` (sequential parsing) or `10`
/// (parallel parsing); the IO axis is checked first.
pub open spec fn decode_options(options: u8) -> Result<Strategy, StrategyError> {
    let io = if options & 3 == 1 {
        Some(IO::Sequential)
    } else if options & 3 == 2 {
        Some(IO::Parallel)
    } else {
        None::<IO>
    };
    let parsing = if options & 12 == 4 {
        Some(Parsing::Sequential)
    } else if options & 12 == 8 {
        Some(Parsing::Parallel)
    } else {
        None::<Parsing>
    };
    match (io, parsing) {
        (None, _) => Err(StrategyError::UnknownIO(options)),
        (Some(_), None) => Err(StrategyError::UnknownParsing(options)),
        (Some(i), Some(p)) => Ok(Strategy { io: i, parsing: p }),
    }
}

/// The packed byte of a strategy.
pub open spec fn encode_strategy(s: Strategy) -> u8 {
    (match s.io {
        IO::Sequential => 1u8,
        IO::Parallel => 2u8,
    }) | (match s.parsing {
        Parsing::Sequential => 4u8,
        Parsing::Parallel => 8u8,
    })
}

impl Strategy {
    /// Decodes a packed strategy byte; other bits than 0-3 are ignored.
    pub fn from_options(options: u8) -> (r: Result<Strategy, StrategyError>)
        ensures
            r == decode_options(options),
    {
        let io = IO::from_bits(options);
        let parsing = Parsing::from_bits(options);
        match (io, parsing) {
            (None, _) => Err(StrategyError::UnknownIO(options)),
            (Some(_), None) => Err(StrategyError::UnknownParsing(options)),
            (Some(i), Some(p)) => Ok(Strategy { io: i, parsing: p }),
        }
    }

    /// Packs the strategy into its byte.
    pub fn to_options(&self) -> (r: u8)
        ensures
            r == encode_strategy(*self),
    {
        let io: u8 = match self.io {
            IO::Sequential => 1,
            IO::Parallel => 2,
        };
        let parsing: u8 = match self.parsing {
            Parsing::Sequential => 4,
            Parsing::Parallel => 8,
        };
        io | parsing
    }

    /// Parallel reading and parallel parsing, the common case.
    pub fn parallel() -> (r: Strategy)
        ensures
            r == (Strategy { io: IO::Parallel, parsing: Parsing::Parallel }),
    {
        Strategy { io: IO::Parallel, parsing: Parsing::Parallel }
    }
}

/// Packing a strategy and decoding the byte gives the strategy back.
pub proof fn lemma_options_round_trip(s: Strategy)
    ensures
        decode_options(encode_strategy(s)) == Ok::<Strategy, StrategyError>(s),
{
    assert((1u8 | 4u8) & 3 == 1 && (1u8 | 4u8) & 12 == 4) by (bit_vector);
    assert((1u8 | 8u8) & 3 == 1 && (1u8 | 8u8) & 12 == 8) by (bit_vector);
    assert((2u8 | 4u8) & 3 == 2 && (2u8 | 4u8) & 12 == 4) by (bit_vector);
    assert((2u8 | 8u8) & 3 == 2 && (2u8 | 8u8) & 12 == 8) by (bit_vector);
}

} // verus!
