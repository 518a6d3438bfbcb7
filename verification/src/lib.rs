//! Proving equivalences between small arithmetic expressions over exact
//! rationals, by attaching abstract-interpretation facts (constant folding
//! and interval bounds) to equivalence classes of a rewrite-driven term
//! graph. The term graph itself is maintained by an external equality
//! saturation engine; this crate holds the verified core: the rational and
//! interval arithmetic, the two e-class analyses, the rewrite rule set with
//! its interval-based guards, the expression grammar, and the driver and
//! read-eval-print decision logic.

pub mod analysis;
pub mod driver;
pub mod interval;
pub mod rational;
pub mod rules;
pub mod term;

pub use analysis::FoldContradiction;
pub use analysis::MergeEffect;
pub use driver::ReplBuffer;
pub use interval::Interval;
pub use interval::ival;
pub use rational::Rational;
pub use rules::Rule;
pub use term::Expr;
pub use term::TermNode;
