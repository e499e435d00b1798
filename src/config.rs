//! The run's settings, the scanning mode they select, and the conflicts
//! between them that stop a run before any scanning.
use vstd::prelude::*;

verus! {

/// The settings that decide how a run scans its texts.
pub struct Config {
    pub has_lexicon: bool,
    pub has_query: bool,
    pub all_matches: bool,
    pub verbose: bool,
    pub count_only: bool,
    pub tokens: bool,
    pub window: Option<usize>,
    pub coverage: bool,
    pub coverage_matrix: bool,
    pub freq_threshold: usize,
    pub min_token_length: usize,
    pub case_insensitive: bool,
}

/// A combination of settings that cannot run.
#[derive(PartialEq, Eq, Structural, Debug, Clone, Copy)]
pub enum ConfigError {
    /// Neither a lexicon nor a query was given.
    NoLexicon,
    /// Counts only and verbose rows were both asked for.
    CountOnlyWithVerbose,
    /// A frequency threshold other than the default with token or window mode.
    ThresholdWithScan,
    /// Coverage without token or window mode.
    CoverageWithoutScan,
}

/// The scanning strategy a run uses.
#[derive(PartialEq, Eq, Structural, Debug, Clone, Copy)]
pub enum Mode {
    /// Coverage per input line.
    Matrix,
    /// Token lookups.
    Tokens,
    /// Greedy character windows of at most this many characters.
    Window(usize),
    /// Substring lookups through a suffix table.
    Substring,
}

/// Token or window mode was asked for.
pub open spec fn scans(c: Config) -> bool {
    c.tokens || c.window is Some
}

/// The first conflict among the settings, checked in a fixed order.
pub open spec fn first_conflict(c: Config) -> Option<ConfigError> {
    if !c.has_lexicon && !c.has_query {
        Some(ConfigError::NoLexicon)
    } else if c.count_only && c.verbose {
        Some(ConfigError::CountOnlyWithVerbose)
    } else if scans(c) && c.freq_threshold != 1 {
        Some(ConfigError::ThresholdWithScan)
    } else if !scans(c) && c.coverage {
        Some(ConfigError::CoverageWithoutScan)
    } else {
        None
    }
}

/// The mode that the settings select: line coverage first, then tokens,
/// then windows, else substrings.
pub open spec fn mode_of(c: Config) -> Mode {
    if c.coverage_matrix {
        Mode::Matrix
    } else if c.tokens {
        Mode::Tokens
    } else if c.window is Some {
        Mode::Window(c.window->0)
    } else {
        Mode::Substring
    }
}

impl Config {
    /// Checks the settings before any scanning: the first conflict found, if
    /// any.
    pub fn validate(&self) -> (r: Result<(), ConfigError>)
        ensures
            r is Ok <==> first_conflict(*self) is None,
            r matches Err(e) ==> first_conflict(*self) == Some(e),
    {
        let scanning = self.tokens || self.window.is_some();
        if !self.has_lexicon && !self.has_query {
            Err(ConfigError::NoLexicon)
        } else if self.count_only && self.verbose {
            Err(ConfigError::CountOnlyWithVerbose)
        } else if scanning && self.freq_threshold != 1 {
            Err(ConfigError::ThresholdWithScan)
        } else if !scanning && self.coverage {
            Err(ConfigError::CoverageWithoutScan)
        } else {
            Ok(())
        }
    }

    /// The scanning mode that the settings select.
    pub fn mode(&self) -> (r: Mode)
        ensures
            r == mode_of(*self),
    {
        if self.coverage_matrix {
            Mode::Matrix
        } else if self.tokens {
            Mode::Tokens
        } else {
            match self.window {
                Some(n) => Mode::Window(n),
                None => Mode::Substring,
            }
        }
    }

    /// Whether substring mode filters to exact occurrences.
    pub fn exact(&self) -> (r: bool)
        ensures
            r == !self.all_matches,
    {
        !self.all_matches
    }

    /// Whether matches are reported one row per occurrence: asked for, or
    /// implied by token and window mode.
    pub fn row_per_match(&self) -> (r: bool)
        ensures
            r == (self.verbose || scans(*self)),
    {
        self.verbose || self.tokens || self.window.is_some()
    }
}

} // verus!
