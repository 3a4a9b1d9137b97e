//! The configuration of one run.

use vstd::prelude::*;

verus! {

/// How numbers are to be selected.
#[derive(Copy, Clone, PartialEq, Eq, PartialOrd, Ord, Debug, Structural)]
pub enum Strategy {
    Top,
    Cold,
    Hot,
    Random,
    Hybrid,
}

/// Whether a strategy can be carried out.
#[derive(Copy, Clone, PartialEq, Eq, Debug, Structural)]
pub enum StrategyStatus {
    /// The strategy is served: shuffled lines from the pool.
    Implemented,
    /// The strategy is known by name only; nothing is done for it.
    NotImplemented,
}

impl Strategy {
    /// Only the random strategy is implemented.
    pub open spec fn status_spec(self) -> StrategyStatus {
        if self == Strategy::Random {
            StrategyStatus::Implemented
        } else {
            StrategyStatus::NotImplemented
        }
    }

    /// Says whether this strategy is implemented.
    pub fn status(self) -> (status: StrategyStatus)
        ensures
            status == self.status_spec(),
    {
        match self {
            Strategy::Random => StrategyStatus::Implemented,
            Strategy::Top | Strategy::Cold | Strategy::Hot | Strategy::Hybrid => {
                StrategyStatus::NotImplemented
            },
        }
    }
}

/// What one run is asked to do.
#[derive(Debug)]
pub struct CliArgs {
    /// The game whose draws are analysed.
    pub game: String,
    pub strategy: Strategy,
    pub n_picks: usize,
    pub top_n: usize,
    pub hot_x: usize,
    /// Report the frequency of each number.
    pub show_freq: bool,
    pub simulate: bool,
    /// Generate lines and score them against the history.
    pub play: bool,
    /// Drop and recreate the store before anything else.
    pub recreate_db: bool,
}

impl Default for CliArgs {
    /// The run that is asked for when nothing is said: the 6/55 game, the top
    /// strategy, five picks, and no report switched on.
    fn default() -> (args: CliArgs)
        ensures
            args.game@ == "GRAND_LOTTO_6-55"@,
            args.strategy == Strategy::Top,
            args.n_picks == 5,
            args.top_n == 10,
            args.hot_x == 20,
            !args.show_freq && !args.simulate && !args.play && !args.recreate_db,
    {
        CliArgs {
            game: "GRAND_LOTTO_6-55".to_owned(),
            strategy: Strategy::Top,
            n_picks: 5,
            top_n: 10,
            hot_x: 20,
            show_freq: false,
            simulate: false,
            play: false,
            recreate_db: false,
        }
    }
}

} // verus!
