//! What can go wrong while a table is read, resolved or listed.

use vstd::prelude::*;
use vstd::string::*;
use crate::text::{decimal, latin1_string, latin1_text, push_decimal};

verus! {

/// What is wrong with the payload of one table.
#[derive(Debug, Clone, Copy, PartialEq, Eq)]
pub enum TableError {
    /// The payload ends before its header or its declared entries do.
    ShortTable,
    /// The payload goes on after the last entry that it declares.
    LongTable,
    /// The name of the atom at `index` (counted from zero) is not valid UTF-8.
    BadName { index: usize },
    /// The literal table is not a zlib stream that can be inflated.
    BadCompression,
    /// The inflated literal table is not as long as the chunk declares.
    SizeMismatch,
}

/// The input is not a well-formed module file, or lacks the table asked for.
#[derive(Debug, Clone, Copy, PartialEq, Eq)]
pub enum FormatError {
    /// The input ends before the twelve-byte header does.
    ShortHeader,
    /// The input does not start with `FOR1`.
    BadMagic,
    /// The form type is not `BEAM`.
    BadFormType,
    /// The declared length is under four bytes or runs past the end of the input.
    BadLength,
    /// The chunk that starts at `offset` runs past the declared length.
    TruncatedChunk { offset: usize },
    /// The file has neither an `Atom` nor an `AtU8` chunk.
    NoAtomChunk,
    /// The file has no chunk with this tag.
    NoSuchChunk { tag: [u8; 4] },
    /// The chunk with this tag does not hold a well-formed table.
    BadChunk { tag: [u8; 4], error: TableError },
}

/// An atom number that names no entry of the atom table. Either way the
/// error holds the size of the table that was asked.
#[derive(Debug, Clone, Copy, PartialEq, Eq)]
pub enum ResolutionError {
    /// The atom number is zero, which is reserved, whatever the size of the table.
    InvalidAtomNumber { number: usize, table_size: usize },
    /// The atom number is larger than the table; `index` is the number less one.
    OutOfRange { table_size: usize, index: usize },
}

/// Any failure of a listing.
#[derive(Debug, Clone, PartialEq, Eq)]
pub enum Error {
    Format(FormatError),
    /// The literal at `index` is not a term; `reason` is the decoder's own account.
    TermDecode { index: usize, reason: String },
    Resolution(ResolutionError),
}

impl TableError {
    /// The message that describes this error.
    pub open spec fn message_text(self) -> Seq<char> {
        match self {
            TableError::ShortTable => "the table ends before its declared entries do"@,
            TableError::LongTable => "the table goes on after its declared entries"@,
            TableError::BadName { index } => "invalid UTF-8 in the name of atom "@ + decimal(
                index as nat,
            ),
            TableError::BadCompression => "the table cannot be inflated"@,
            TableError::SizeMismatch => "the inflated table is not of the declared size"@,
        }
    }

    pub fn message(&self) -> (text: String)
        ensures
            text@ == self.message_text(),
    {
        match self {
            TableError::ShortTable => String::from_str(
                "the table ends before its declared entries do",
            ),
            TableError::LongTable => String::from_str(
                "the table goes on after its declared entries",
            ),
            TableError::BadName { index } => {
                let mut text = String::from_str("invalid UTF-8 in the name of atom ");
                push_decimal(&mut text, *index as u64);
                text
            },
            TableError::BadCompression => String::from_str("the table cannot be inflated"),
            TableError::SizeMismatch => String::from_str(
                "the inflated table is not of the declared size",
            ),
        }
    }
}

impl FormatError {
    /// The message that describes this error. Where a chunk is at fault, the
    /// message names its tag.
    pub open spec fn message_text(self) -> Seq<char> {
        match self {
            FormatError::ShortHeader => "The input is shorter than a BEAM header"@,
            FormatError::BadMagic => "Unexpected magic number: expected 'FOR1'"@,
            FormatError::BadFormType => "Unexpected form type: expected 'BEAM'"@,
            FormatError::BadLength => "The declared length does not fit the input"@,
            FormatError::TruncatedChunk { offset } => "Truncated chunk at offset "@ + decimal(
                offset as nat,
            ),
            FormatError::NoAtomChunk => "Neither 'Atom' nor 'AtU8' chunk is found"@,
            FormatError::NoSuchChunk { tag } => "No such chunk: '"@ + latin1_text(tag@) + "'"@,
            FormatError::BadChunk { tag, error } => "Malformed chunk '"@ + latin1_text(tag@)
                + "': "@ + error.message_text(),
        }
    }

    pub fn message(&self) -> (text: String)
        ensures
            text@ == self.message_text(),
    {
        match self {
            FormatError::ShortHeader => String::from_str("The input is shorter than a BEAM header"),
            FormatError::BadMagic => String::from_str("Unexpected magic number: expected 'FOR1'"),
            FormatError::BadFormType => String::from_str("Unexpected form type: expected 'BEAM'"),
            FormatError::BadLength => String::from_str(
                "The declared length does not fit the input",
            ),
            FormatError::TruncatedChunk { offset } => {
                let mut text = String::from_str("Truncated chunk at offset ");
                push_decimal(&mut text, *offset as u64);
                text
            },
            FormatError::NoAtomChunk => String::from_str(
                "Neither 'Atom' nor 'AtU8' chunk is found",
            ),
            FormatError::NoSuchChunk { tag } => {
                let mut text = String::from_str("No such chunk: '");
                let name = latin1_string(tag.as_slice());
                text.append(name.as_str());
                text.append("'");
                text
            },
            FormatError::BadChunk { tag, error } => {
                let mut text = String::from_str("Malformed chunk '");
                let name = latin1_string(tag.as_slice());
                text.append(name.as_str());
                text.append("': ");
                let detail = error.message();
                text.append(detail.as_str());
                text
            },
        }
    }
}

impl ResolutionError {
    /// The message that describes this error.
    pub open spec fn message_text(self) -> Seq<char> {
        match self {
            ResolutionError::InvalidAtomNumber { number, table_size } => {
                "Invalid atom number: "@ + decimal(number as nat) + ", table_size="@ + decimal(
                    table_size as nat,
                )
            },
            ResolutionError::OutOfRange { table_size, index } => {
                "Out of the atom table range: table_size="@ + decimal(table_size as nat)
                    + ", index="@ + decimal(index as nat)
            },
        }
    }

    pub fn message(&self) -> (text: String)
        ensures
            text@ == self.message_text(),
    {
        match self {
            ResolutionError::InvalidAtomNumber { number, table_size } => {
                let mut text = String::from_str("Invalid atom number: ");
                push_decimal(&mut text, *number as u64);
                text.append(", table_size=");
                push_decimal(&mut text, *table_size as u64);
                text
            },
            ResolutionError::OutOfRange { table_size, index } => {
                let mut text = String::from_str("Out of the atom table range: table_size=");
                push_decimal(&mut text, *table_size as u64);
                text.append(", index=");
                push_decimal(&mut text, *index as u64);
                text
            },
        }
    }
}

impl Error {
    /// The message that describes this error.
    pub open spec fn message_text(self) -> Seq<char> {
        match self {
            Error::Format(e) => e.message_text(),
            Error::TermDecode { index, reason } => "Cannot decode literal "@ + decimal(
                index as nat,
            ) + ": "@ + reason@,
            Error::Resolution(e) => e.message_text(),
        }
    }

    pub fn message(&self) -> (text: String)
        ensures
            text@ == self.message_text(),
    {
        match self {
            Error::Format(e) => e.message(),
            Error::TermDecode { index, reason } => {
                let mut text = String::from_str("Cannot decode literal ");
                push_decimal(&mut text, *index as u64);
                text.append(": ");
                text.append(reason.as_str());
                text
            },
            Error::Resolution(e) => e.message(),
        }
    }
}

} // verus!
