//! Error kinds surfaced by the store, mirroring the three phases of handling
//! a command: meta-command dispatch, statement preparation, and execution.

use vstd::prelude::*;

verus! {

/// A dot-command that the driver does not know.
#[derive(Debug)]
pub enum MetaCmdErr {
    Unrecognized(String),
}

/// A statement that could not be prepared; the row payload never reaches the
/// engine on these.
#[derive(Debug)]
pub enum PrepareErr {
    Unrecognized(String),
    SyntaxErr(String),
    StringTooLong(String),
    NegativeId(String),
}

/// A failure while executing a prepared statement against the tree.
#[derive(Debug)]
pub enum ExecErr {
    TableFull(String),
    DuplicateKey(String),
    LeafNodeFull(String),
    InternNodeFull(String),
    PagerFull(String),
    PageNumOutBound(String),
    IoError(String),
    NodeError(String),
    CellNotFound(String),
}

/// Any of the three error phases, as the driver sees them.
#[derive(Debug)]
pub enum DbError {
    MetaCmdErr(MetaCmdErr),
    PrepareErr(PrepareErr),
    ExecErr(ExecErr),
}

impl MetaCmdErr {
    /// The message carried by the error, for the driver to print.
    pub fn message(&self) -> (r: &String)
        ensures
            r@ == self.spec_message(),
    {
        match self {
            MetaCmdErr::Unrecognized(s) => s,
        }
    }

    pub open spec fn spec_message(&self) -> Seq<char> {
        match self {
            MetaCmdErr::Unrecognized(s) => s@,
        }
    }
}

impl PrepareErr {
    /// The message carried by the error, for the driver to print.
    pub fn message(&self) -> (r: &String)
        ensures
            r@ == self.spec_message(),
    {
        match self {
            PrepareErr::Unrecognized(s) => s,
            PrepareErr::SyntaxErr(s) => s,
            PrepareErr::StringTooLong(s) => s,
            PrepareErr::NegativeId(s) => s,
        }
    }

    pub open spec fn spec_message(&self) -> Seq<char> {
        match self {
            PrepareErr::Unrecognized(s) => s@,
            PrepareErr::SyntaxErr(s) => s@,
            PrepareErr::StringTooLong(s) => s@,
            PrepareErr::NegativeId(s) => s@,
        }
    }
}

impl ExecErr {
    /// The message carried by the error, for the driver to print.
    pub fn message(&self) -> (r: &String)
        ensures
            r@ == self.spec_message(),
    {
        match self {
            ExecErr::TableFull(s) => s,
            ExecErr::DuplicateKey(s) => s,
            ExecErr::LeafNodeFull(s) => s,
            ExecErr::InternNodeFull(s) => s,
            ExecErr::PagerFull(s) => s,
            ExecErr::PageNumOutBound(s) => s,
            ExecErr::IoError(s) => s,
            ExecErr::NodeError(s) => s,
            ExecErr::CellNotFound(s) => s,
        }
    }

    pub open spec fn spec_message(&self) -> Seq<char> {
        match self {
            ExecErr::TableFull(s) => s@,
            ExecErr::DuplicateKey(s) => s@,
            ExecErr::LeafNodeFull(s) => s@,
            ExecErr::InternNodeFull(s) => s@,
            ExecErr::PagerFull(s) => s@,
            ExecErr::PageNumOutBound(s) => s@,
            ExecErr::IoError(s) => s@,
            ExecErr::NodeError(s) => s@,
            ExecErr::CellNotFound(s) => s@,
        }
    }
}

} // verus!
