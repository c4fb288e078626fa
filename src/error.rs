use vstd::prelude::*;

verus! {

/// A position in a source file.
#[derive(Clone, Debug, PartialEq, Eq)]
pub struct Address {
    pub line: u64,
    pub column: u64,
    pub file: String,
}

impl Address {
    pub fn new(line: u64, column: u64, file: String) -> (r: Address)
        ensures
            r.line == line,
            r.column == column,
            r.file@ == file@,
    {
        Address { line, column, file }
    }

    /// A copy of this address.
    pub fn duplicate(&self) -> (r: Address)
        ensures
            r == *self,
    {
        Address { line: self.line, column: self.column, file: self.file.clone() }
    }
}

/// The class of a recoverable error.
#[derive(Clone, Copy, Debug, PartialEq, Eq, Structural)]
pub enum ErrorKind {
    /// `define` on a name that the table already binds.
    AlreadyDefined,
    /// `set` or `set_local` on a name that no eligible table binds.
    NotDefined,
    /// A read of a name that no eligible table binds.
    NotFound,
    /// A module whose analyzed form is not a declaration block.
    NotABlock,
    /// A module that could not be read, lexed, parsed or analyzed.
    Compile,
}

/// A recoverable error, with the address of the access that caused it,
/// a message, and a hint on how to fix it.
#[derive(Clone, Debug)]
pub struct Error {
    pub kind: ErrorKind,
    pub address: Address,
    pub message: String,
    pub hint: String,
}

impl Error {
    pub fn new(kind: ErrorKind, address: Address, message: String, hint: String) -> (r: Error)
        ensures
            r.kind == kind,
            r.address == address,
            r.message@ == message@,
            r.hint@ == hint@,
    {
        Error { kind, address, message, hint }
    }
}

} // verus!
