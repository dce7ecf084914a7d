//! Verbosity of a command line: how `-v` and `-q` flags become a log level.

use vstd::prelude::*;

verus! {

/// How much a program reports, from errors only to everything.
#[derive(Debug, Clone, Copy, PartialEq, Eq, Hash, Structural)]
pub enum Level {
    Error,
    Warn,
    Info,
    Debug,
    Trace,
}

/// The number of `-v` and of `-q` flags on a command line.
#[derive(Clone, Copy, PartialEq, Eq, Hash, Structural)]
pub struct VerbosityLevel {
    /// How often the output was asked to be more verbose.
    pub verbose: u8,
    /// How often the output was asked to be less verbose.
    pub quiet: u8,
}

/// The rank of a level: 0 for errors only, 4 for everything.
pub open spec fn level_rank(level: Level) -> nat {
    match level {
        Level::Error => 0,
        Level::Warn => 1,
        Level::Info => 2,
        Level::Debug => 3,
        Level::Trace => 4,
    }
}

/// The rank that the flags ask for: that of `Info`, lowered by the quiet
/// flags but not below 0, then raised by the verbose flags; of either kind
/// no more than ten count.
pub open spec fn asked_rank(verbose: u8, quiet: u8) -> nat {
    let q: nat = if quiet < 10 {
        quiet as nat
    } else {
        10
    };
    let v: nat = if verbose < 10 {
        verbose as nat
    } else {
        10
    };
    let lowered: nat = if q >= 2 {
        0
    } else {
        (2 - q) as nat
    };
    lowered + v
}

/// The level of a rank; every rank above 4 is `Trace`.
pub open spec fn level_of_rank(rank: nat) -> Level {
    if rank == 0 {
        Level::Error
    } else if rank == 1 {
        Level::Warn
    } else if rank == 2 {
        Level::Info
    } else if rank == 3 {
        Level::Debug
    } else {
        Level::Trace
    }
}

impl VerbosityLevel {
    /// Flags that give `Trace`.
    pub fn trace() -> (flags: Self)
        ensures
            flags == (VerbosityLevel { verbose: 2, quiet: 0 }),
    {
        VerbosityLevel { verbose: 2, quiet: 0 }
    }

    /// Flags that give `Debug`.
    pub fn debug() -> (flags: Self)
        ensures
            flags == (VerbosityLevel { verbose: 1, quiet: 0 }),
    {
        VerbosityLevel { verbose: 1, quiet: 0 }
    }

    /// No flags: `Info`.
    pub fn info() -> (flags: Self)
        ensures
            flags == (VerbosityLevel { verbose: 0, quiet: 0 }),
    {
        VerbosityLevel { verbose: 0, quiet: 0 }
    }

    /// Flags that give `Warn`.
    pub fn warn() -> (flags: Self)
        ensures
            flags == (VerbosityLevel { verbose: 0, quiet: 1 }),
    {
        VerbosityLevel { verbose: 0, quiet: 1 }
    }

    /// Flags that give `Error`.
    pub fn error() -> (flags: Self)
        ensures
            flags == (VerbosityLevel { verbose: 0, quiet: 2 }),
    {
        VerbosityLevel { verbose: 0, quiet: 2 }
    }

    /// Whether any flag was given, so that the user has left the default.
    pub fn changed(&self) -> (changed: bool)
        ensures
            changed == (self.verbose != 0 || self.quiet != 0),
    {
        self.verbose != 0 || self.quiet != 0
    }

    /// The rank that the flags ask for.
    pub fn value(&self) -> (rank: u8)
        ensures
            rank == asked_rank(self.verbose, self.quiet),
    {
        let q: u8 = if self.quiet < 10 { self.quiet } else { 10 };
        let v: u8 = if self.verbose < 10 { self.verbose } else { 10 };
        let base = Self::level_value(Level::Info);
        let lowered: u8 = if q >= base { 0 } else { base - q };
        lowered + v
    }

    /// The level that the flags ask for.
    pub fn level(&self) -> (level: Level)
        ensures
            level == level_of_rank(asked_rank(self.verbose, self.quiet)),
    {
        let v = self.value();
        if v == 0 {
            Level::Error
        } else if v == 1 {
            Level::Warn
        } else if v == 2 {
            Level::Info
        } else if v == 3 {
            Level::Debug
        } else {
            Level::Trace
        }
    }

    /// The level that the flags ask for, for a logger that takes the five
    /// levels by name.
    pub fn level_for_log_crate(&self) -> (level: Level)
        ensures
            level == level_of_rank(asked_rank(self.verbose, self.quiet)),
    {
        self.level()
    }

    /// The rank of a level.
    pub fn level_value(level: Level) -> (rank: u8)
        ensures
            rank == level_rank(level),
    {
        match level {
            Level::Trace => 4,
            Level::Debug => 3,
            Level::Info => 2,
            Level::Warn => 1,
            Level::Error => 0,
        }
    }
}

impl Default for VerbosityLevel {
    fn default() -> (flags: Self)
        ensures
            flags == (VerbosityLevel { verbose: 0, quiet: 0 }),
    {
        VerbosityLevel { verbose: 0, quiet: 0 }
    }
}

} // verus!
