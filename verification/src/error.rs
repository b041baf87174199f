//! Error types of the data layer.

use vstd::prelude::*;
use vstd::string::*;
use crate::text::{decimal, push_decimal};

verus! {

/// Failure of a data-layer operation: an I/O problem or malformed content.
#[derive(Debug)]
pub enum DataError {
    Io(String),
    Parse(String),
}

impl DataError {
    /// The human-readable message: `io error: <m>` or `parse error: <m>`.
    pub open spec fn spec_message(&self) -> Seq<char> {
        match self {
            DataError::Io(m) => "io error: "@ + m@,
            DataError::Parse(m) => "parse error: "@ + m@,
        }
    }

    /// Render the error as text: its display form.
    pub fn message(&self) -> (r: String)
        ensures
            r@ == self.spec_message(),
    {
        match self {
            DataError::Io(m) => {
                let mut s = String::from_str("io error: ");
                s.append(m.as_str());
                s
            },
            DataError::Parse(m) => {
                let mut s = String::from_str("parse error: ");
                s.append(m.as_str());
                s
            },
        }
    }
}

/// Errors from panel construction, strategy evaluation and backtest setup.
#[derive(Debug)]
pub enum EngineError {
    ShapeMismatch { rows: usize, cols: usize, data_len: usize },
    UnknownSeries { name: String },
    UnknownPriceKey { key: String },
    UnknownBenchmark { key: String },
    EmptyBenchmark { key: String },
    BadFreq { freq: String },
    RebalanceBoth,
    RebalanceNeither,
    BadGroupbyAgg { agg: String },
    BothOperandsConst,
    SpecParse(String),
    Eval(String),
}

impl EngineError {
    /// The human-readable message of each variant.
    pub open spec fn spec_message(&self) -> Seq<char> {
        match self {
            EngineError::ShapeMismatch { rows, cols, data_len } => "shape mismatch: "@ + decimal(
                *rows as nat,
            ) + "x"@ + decimal(*cols as nat) + " != data len "@ + decimal(*data_len as nat),
            EngineError::UnknownSeries { name } => "unknown series '"@ + name@ + "'"@,
            EngineError::UnknownPriceKey { key } => "unknown price series '"@ + key@ + "'"@,
            EngineError::UnknownBenchmark { key } => "unknown benchmark series '"@ + key@ + "'"@,
            EngineError::EmptyBenchmark { key } => "benchmark series '"@ + key@ + "' has no symbols"@,
            EngineError::BadFreq { freq } => "bad freq '"@ + freq@ + "'"@,
            EngineError::RebalanceBoth => "Rebalance takes either freq or on, not both"@,
            EngineError::RebalanceNeither => "Rebalance needs freq or on"@,
            EngineError::BadGroupbyAgg { agg } => "bad groupby agg '"@ + agg@ + "'"@,
            EngineError::BothOperandsConst => "both operands of a binary op are Const"@,
            EngineError::SpecParse(m) => "spec parse error: "@ + m@,
            EngineError::Eval(m) => "eval error: "@ + m@,
        }
    }

    /// Render the error as text: its display form.
    pub fn message(&self) -> (r: String)
        ensures
            r@ == self.spec_message(),
    {
        match self {
            EngineError::ShapeMismatch { rows, cols, data_len } => {
                shape_message(*rows, *cols, *data_len)
            },
            EngineError::UnknownSeries { name } => quoted("unknown series '", name.as_str(), "'"),
            EngineError::UnknownPriceKey { key } => quoted("unknown price series '", key.as_str(), "'"),
            EngineError::UnknownBenchmark { key } => quoted(
                "unknown benchmark series '",
                key.as_str(),
                "'",
            ),
            EngineError::EmptyBenchmark { key } => quoted(
                "benchmark series '",
                key.as_str(),
                "' has no symbols",
            ),
            EngineError::BadFreq { freq } => quoted("bad freq '", freq.as_str(), "'"),
            EngineError::RebalanceBoth => String::from_str("Rebalance takes either freq or on, not both"),
            EngineError::RebalanceNeither => String::from_str("Rebalance needs freq or on"),
            EngineError::BadGroupbyAgg { agg } => quoted("bad groupby agg '", agg.as_str(), "'"),
            EngineError::BothOperandsConst => String::from_str("both operands of a binary op are Const"),
            EngineError::SpecParse(m) => {
                let mut s = String::from_str("spec parse error: ");
                s.append(m.as_str());
                s
            },
            EngineError::Eval(m) => {
                let mut s = String::from_str("eval error: ");
                s.append(m.as_str());
                s
            },
        }
    }
}

fn shape_message(rows: usize, cols: usize, data_len: usize) -> (r: String)
    ensures
        r@ == "shape mismatch: "@ + decimal(rows as nat) + "x"@ + decimal(cols as nat)
            + " != data len "@ + decimal(data_len as nat),
{
    let mut s = String::from_str("shape mismatch: ");
    push_decimal(&mut s, rows as u64);
    s.append("x");
    push_decimal(&mut s, cols as u64);
    s.append(" != data len ");
    push_decimal(&mut s, data_len as u64);
    s
}

/// `pre ++ mid ++ post` as a new string.
fn quoted(pre: &str, mid: &str, post: &str) -> (r: String)
    ensures
        r@ == pre@ + mid@ + post@,
{
    let mut s = String::from_str(pre);
    s.append(mid);
    s.append(post);
    s
}

} // verus!
