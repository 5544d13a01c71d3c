use vstd::prelude::*;

pub mod ast;
pub mod attributes;
pub mod classify;
pub mod graph;
pub mod names;
pub mod pre_processing;
pub mod raw;

verus! {

/// A character range in the original source text, kept for diagnostics.
#[derive(Clone, Copy, PartialEq, Eq, Structural, Debug)]
pub struct Span {
    pub start: usize,
    pub end: usize,
}

/// The kind of violation that stopped resolution.
#[derive(Clone, Copy, PartialEq, Eq, Structural, Debug)]
pub enum ErrorKind {
    /// A contract, block or constant name collides with an earlier name.
    DuplicateName,
    /// No contract carries the requested entry-point name.
    EntryContractNotFound,
    /// A contract has no block named `main`.
    MainBlockNotFound,
    /// A second block of the same contract carries the `last` attribute.
    DuplicateLast,
    /// An attribute that cannot be applied at contract level.
    InvalidContractAttribute,
    /// An attribute that cannot be applied at block level.
    InvalidBlockAttribute,
    /// A block reference names no block of the current contract.
    BlockNotFound,
    /// A contract reference names no contract.
    ContractNotFound,
    /// A block is inlined twice, or both inlined and addressed.
    AddressingConflict,
    /// A field selector other than the recognized ones.
    UnknownField,
    /// A constant literal of 32 bytes or more.
    ConstantTooLarge,
    /// A push argument names no constant of the current contract.
    ConstantNotFound,
    /// A push argument field names neither a contract nor a block.
    PushTargetNotFound,
    /// A function call whose name is not the push operation.
    UnknownFunction,
}

/// The single structured diagnostic of a failed resolution: the first
/// violation met in traversal order, with the source span it points at.
/// Errors detected outside any node (a missing entry contract) carry no span.
#[derive(Clone, Copy, PartialEq, Eq, Debug)]
pub struct Diagnostic {
    pub kind: ErrorKind,
    pub span: Option<Span>,
}

impl Diagnostic {
    pub fn new(kind: ErrorKind, span: Span) -> (r: Diagnostic)
        ensures
            r.kind == kind,
            r.span == Some(span),
    {
        Diagnostic { kind, span: Some(span) }
    }

    /// A human-readable rendering of the kind; the span locates it in the source.
    pub fn message(&self) -> (r: &'static str)
        ensures
            r@ == message_spec(self.kind),
    {
        match self.kind {
            ErrorKind::DuplicateName => "name already used",
            ErrorKind::EntryContractNotFound => "entry-point contract not found",
            ErrorKind::MainBlockNotFound => "block `main` not found in this contract",
            ErrorKind::DuplicateLast => "this contract already has a block marked `last`",
            ErrorKind::InvalidContractAttribute => "invalid contract attribute",
            ErrorKind::InvalidBlockAttribute => "invalid block attribute",
            ErrorKind::BlockNotFound => "block not found in this contract",
            ErrorKind::ContractNotFound => "contract not found",
            ErrorKind::AddressingConflict => "a block cannot be inlined twice, nor both inlined and addressed",
            ErrorKind::UnknownField => "unknown field",
            ErrorKind::ConstantTooLarge => "constants cannot exceed 31 bytes",
            ErrorKind::ConstantNotFound => "constant not found",
            ErrorKind::PushTargetNotFound => "contract or block not found",
            ErrorKind::UnknownFunction => "unknown function",
        }
    }
}

/// The text `message` renders for each kind.
pub open spec fn message_spec(kind: ErrorKind) -> Seq<char> {
    match kind {
        ErrorKind::DuplicateName => "name already used"@,
        ErrorKind::EntryContractNotFound => "entry-point contract not found"@,
        ErrorKind::MainBlockNotFound => "block `main` not found in this contract"@,
        ErrorKind::DuplicateLast => "this contract already has a block marked `last`"@,
        ErrorKind::InvalidContractAttribute => "invalid contract attribute"@,
        ErrorKind::InvalidBlockAttribute => "invalid block attribute"@,
        ErrorKind::AddressingConflict => "a block cannot be inlined twice, nor both inlined and addressed"@,
        ErrorKind::UnknownField => "unknown field"@,
        ErrorKind::ConstantTooLarge => "constants cannot exceed 31 bytes"@,
        ErrorKind::ConstantNotFound => "constant not found"@,
        ErrorKind::PushTargetNotFound => "contract or block not found"@,
        ErrorKind::UnknownFunction => "unknown function"@,
        ErrorKind::BlockNotFound => "block not found in this contract"@,
        ErrorKind::ContractNotFound => "contract not found"@,
    }
}

} // verus!
