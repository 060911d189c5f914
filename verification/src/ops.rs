pub mod bruterange;
pub mod mbruterange;
pub mod pattern;
pub mod resetiter;

pub use bruterange::BruteRange;
pub use bruterange::BruteRangeIter;
pub use mbruterange::MBruteRange;
pub use mbruterange::MBruteRangeIter;
pub use pattern::Pattern;
pub use pattern::iter::PatternIter;
pub use resetiter::ResetIter;
