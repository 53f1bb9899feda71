//! The import table: a count, then that many records of three big-endian
//! words: module atom number, function atom number, arity.

use vstd::prelude::*;
use crate::bytes::{be_u32, read_be_u32};
use crate::container::{impt_tag, payload_of, BeamFile, ChunkView};
use crate::error::{FormatError, TableError};

verus! {

/// One imported function. `module` and `function` are atom numbers, which
/// start at one; nothing here checks them against an atom table.
#[derive(Debug, Clone, Copy, PartialEq, Eq)]
pub struct ImportEntry {
    pub module: u32,
    pub function: u32,
    pub arity: u32,
}

/// The import table, in file order.
#[derive(Debug, Clone, PartialEq, Eq)]
pub struct ImpChunk {
    pub imports: Vec<ImportEntry>,
}

impl View for ImpChunk {
    type V = Seq<ImportEntry>;

    open spec fn view(&self) -> Seq<ImportEntry> {
        self.imports@
    }
}

/// The record with index `i` of an import chunk.
pub open spec fn import_at(payload: Seq<u8>, i: int) -> ImportEntry {
    ImportEntry {
        module: be_u32(payload, 4 + 12 * i) as u32,
        function: be_u32(payload, 8 + 12 * i) as u32,
        arity: be_u32(payload, 12 + 12 * i) as u32,
    }
}

/// The import table that a payload holds: its first four bytes give the
/// number of records. Bytes after the last record are not read.
pub open spec fn import_table(payload: Seq<u8>) -> Result<Seq<ImportEntry>, TableError> {
    if payload.len() < 4 || payload.len() - 4 < 12 * be_u32(payload, 0) {
        Err(TableError::ShortTable)
    } else {
        Ok(Seq::new(be_u32(payload, 0), |i: int| import_at(payload, i)))
    }
}

/// The tag `ImpT`, as an error carries it.
pub open spec fn impt() -> [u8; 4] {
    [0x49u8, 0x6du8, 0x70u8, 0x54u8]
}

/// The import table of a file: that of its first `ImpT` chunk. An error in
/// that chunk carries its tag.
pub open spec fn import_table_of(chunks: Seq<ChunkView>) -> Result<Seq<ImportEntry>, FormatError> {
    match payload_of(chunks, impt_tag()) {
        Some(payload) => match import_table(payload) {
            Ok(table) => Ok(table),
            Err(error) => Err(FormatError::BadChunk { tag: impt(), error }),
        },
        None => Err(FormatError::NoSuchChunk { tag: impt() }),
    }
}

/// Boundary: a payload that is too short for the records it declares is
/// refused, however many whole records it holds.
pub proof fn lemma_short_import_table(payload: Seq<u8>)
    requires
        payload.len() < 4 + 12 * be_u32(payload, 0),
    ensures
        import_table(payload) == Err::<Seq<ImportEntry>, TableError>(TableError::ShortTable),
{
}

/// A table that was read has as many records as its payload declares.
pub proof fn lemma_import_table_len(payload: Seq<u8>)
    ensures
        import_table(payload) matches Ok(table) ==> table.len() == be_u32(payload, 0),
{
}

/// Decodes the payload of an import chunk.
pub fn decode_imp_chunk(payload: &[u8]) -> (chunk: Result<ImpChunk, TableError>)
    ensures
        chunk matches Ok(c) ==> import_table(payload@) == Ok::<Seq<ImportEntry>, TableError>(c@),
        chunk matches Err(e) ==> import_table(payload@) == Err::<Seq<ImportEntry>, TableError>(
            e,
        ),
{
    if payload.len() < 4 {
        return Err(TableError::ShortTable);
    }
    let count = read_be_u32(payload, 0) as usize;
    if count > (payload.len() - 4) / 12 {
        return Err(TableError::ShortTable);
    }
    let mut imports: Vec<ImportEntry> = Vec::new();
    let mut i: usize = 0;
    while i < count
        invariant
            i <= count,
            4 + 12 * count <= payload@.len() <= usize::MAX,
            imports@.len() == i,
            forall|k: int| 0 <= k < i ==> #[trigger] imports@[k] == import_at(payload@, k),
        decreases count - i,
    {
        let at: usize = 4 + 12 * i;
        let entry = ImportEntry {
            module: read_be_u32(payload, at),
            function: read_be_u32(payload, at + 4),
            arity: read_be_u32(payload, at + 8),
        };
        imports.push(entry);
        i += 1;
    }
    let chunk = ImpChunk { imports };
    proof {
        assert(chunk@ =~= Seq::new(be_u32(payload@, 0), |i: int| import_at(payload@, i)));
    }
    Ok(chunk)
}

/// The import table of a file.
pub fn get_imp_chunk(beam: &BeamFile) -> (chunk: Result<ImpChunk, FormatError>)
    ensures
        chunk matches Ok(c) ==> import_table_of(beam@) == Ok::<Seq<ImportEntry>, FormatError>(
            c@,
        ),
        chunk matches Err(e) ==> import_table_of(beam@) == Err::<Seq<ImportEntry>, FormatError>(
            e,
        ),
{
    let tag: [u8; 4] = [0x49, 0x6d, 0x70, 0x54];
    assert(tag@ =~= impt_tag());
    assert(tag@ =~= impt()@);
    match beam.find_chunk(&tag) {
        Some(i) => {
            assert(beam@[i as int] == beam.chunks@[i as int]@);
            match decode_imp_chunk(beam.chunks[i].data.as_slice()) {
                Ok(chunk) => Ok(chunk),
                Err(error) => Err(FormatError::BadChunk { tag, error }),
            }
        },
        None => Err(FormatError::NoSuchChunk { tag }),
    }
}

} // verus!
