use vstd::prelude::*;
use vstd::string::*;

verus! {

/// Why a decode attempt was given up. Every variant is fatal to the attempt:
/// no partial result is produced.
#[derive(Debug, Clone, Copy, PartialEq, Eq, Structural)]
pub enum WdbError {
    /// The header or the directory is malformed, or the data ends early.
    Format,
    /// A reserved directory entry is absent or does not occur exactly once.
    MissingChunk,
    /// The string table does not start where the directory says it does.
    PositionMismatch,
    /// The data ends inside a node record.
    Decode,
}

impl WdbError {
    /// What the error says in words.
    pub open spec fn message(self) -> Seq<char> {
        match self {
            WdbError::Format => "the file is malformed or ends early"@,
            WdbError::MissingChunk => "a reserved directory entry is missing or repeated"@,
            WdbError::PositionMismatch => "the string table is not where the directory says"@,
            WdbError::Decode => "the file ends inside a node record"@,
        }
    }

    /// The error in words.
    pub fn to_string(&self) -> (text: String)
        ensures
            text@ == self.message(),
    {
        match self {
            WdbError::Format => "the file is malformed or ends early".to_owned(),
            WdbError::MissingChunk => "a reserved directory entry is missing or repeated".to_owned(),
            WdbError::PositionMismatch => {
                "the string table is not where the directory says".to_owned()
            },
            WdbError::Decode => "the file ends inside a node record".to_owned(),
        }
    }
}

} // verus!
