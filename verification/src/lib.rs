//! Weekly velocity: a deterministic productivity score in the unit interval,
//! computed from six observations about one week (hyperfocus hours on
//! weekdays and weekends, pages read, side-skill and constraint days, and a
//! load fraction).
//!
//! All arithmetic is exact fixed-point over integers: most quantities are
//! held in parts per million (`record::SCALE`), the burnout factor in parts
//! per 10^12 (`decay::B_SCALE`). The irrational pieces of the formula reduce
//! to three integer kernels with exact contracts: a floor square root, a
//! floor fifth root (for the exponent 12/5), and a repeated-multiplication
//! decay chain (for the exponential burnout penalty).

pub mod decay;
pub mod parse;
pub mod record;
pub mod roots;
