//! The container: a twelve-byte header followed by tagged, length-prefixed,
//! four-byte-aligned chunks.

use vstd::prelude::*;
use vstd::slice::{slice_subrange, slice_to_vec};
use crate::bytes::{be_u32, read_be_u32};
use crate::error::FormatError;

verus! {

/// One tagged section of a module file, with its payload and without its padding.
#[derive(Debug, Clone, PartialEq, Eq)]
pub struct Chunk {
    pub tag: [u8; 4],
    pub data: Vec<u8>,
}

/// A chunk as contracts speak of it.
pub struct ChunkView {
    pub tag: Seq<u8>,
    pub data: Seq<u8>,
}

impl View for Chunk {
    type V = ChunkView;

    open spec fn view(&self) -> ChunkView {
        ChunkView { tag: self.tag@, data: self.data@ }
    }
}

/// The chunks that this library tells apart.
#[derive(Debug, Clone, Copy, PartialEq, Eq)]
pub enum ChunkKind {
    /// `Atom`: the atom table, names in Latin-1.
    Atom,
    /// `AtU8`: the atom table, names in UTF-8.
    AtU8,
    /// `LitT`: the literal table.
    LitT,
    /// `ImpT`: the import table.
    ImpT,
    /// Any other tag; the chunk is kept as it was read.
    Other,
}

/// A module file: its chunks in file order.
#[derive(Debug, Clone, PartialEq, Eq)]
pub struct BeamFile {
    pub chunks: Vec<Chunk>,
}

/// The views of a sequence of chunks, in the same order.
pub open spec fn chunk_views(chunks: Seq<Chunk>) -> Seq<ChunkView> {
    Seq::new(chunks.len(), |i: int| chunks[i]@)
}

impl View for BeamFile {
    type V = Seq<ChunkView>;

    open spec fn view(&self) -> Seq<ChunkView> {
        chunk_views(self.chunks@)
    }
}

/// `tag` is the four bytes `a b c d`.
pub open spec fn is_tag(tag: Seq<u8>, a: u8, b: u8, c: u8, d: u8) -> bool {
    tag.len() == 4 && tag[0] == a && tag[1] == b && tag[2] == c && tag[3] == d
}

/// The tag `Atom`.
pub open spec fn atom_tag() -> Seq<u8> {
    seq![0x41u8, 0x74u8, 0x6fu8, 0x6du8]
}

/// The tag `AtU8`.
pub open spec fn atu8_tag() -> Seq<u8> {
    seq![0x41u8, 0x74u8, 0x55u8, 0x38u8]
}

/// The tag `LitT`.
pub open spec fn litt_tag() -> Seq<u8> {
    seq![0x4cu8, 0x69u8, 0x74u8, 0x54u8]
}

/// The tag `ImpT`.
pub open spec fn impt_tag() -> Seq<u8> {
    seq![0x49u8, 0x6du8, 0x70u8, 0x54u8]
}

/// The kind of chunk that a tag announces.
pub open spec fn tag_kind(tag: Seq<u8>) -> ChunkKind {
    if tag == atom_tag() {
        ChunkKind::Atom
    } else if tag == atu8_tag() {
        ChunkKind::AtU8
    } else if tag == litt_tag() {
        ChunkKind::LitT
    } else if tag == impt_tag() {
        ChunkKind::ImpT
    } else {
        ChunkKind::Other
    }
}

/// The number of bytes that follow a payload of `size` bytes to reach a multiple of four.
pub open spec fn padding(size: nat) -> nat {
    ((4 - size % 4) % 4) as nat
}

/// `acc` followed by what `rest` holds, or the error of `rest`.
pub open spec fn prepend<T, E>(acc: Seq<T>, rest: Result<Seq<T>, E>) -> Result<Seq<T>, E> {
    match rest {
        Ok(tail) => Ok(acc + tail),
        Err(e) => Err(e),
    }
}

/// The chunks that lie between `pos` and `end` in `bytes`. Each is a tag of
/// four bytes, a big-endian length of four bytes, the payload, and padding
/// to the next multiple of four; all of it must lie before `end`.
pub open spec fn chunks_between(bytes: Seq<u8>, pos: int, end: int) -> Result<
    Seq<ChunkView>,
    FormatError,
>
    decreases end - pos,
{
    if pos >= end {
        Ok(Seq::empty())
    } else if end - pos < 8 {
        Err(FormatError::TruncatedChunk { offset: pos as usize })
    } else {
        let size = be_u32(bytes, pos + 4);
        let next = pos + 8 + size + padding(size);
        if next > end {
            Err(FormatError::TruncatedChunk { offset: pos as usize })
        } else {
            prepend(
                seq![
                    ChunkView {
                        tag: bytes.subrange(pos, pos + 4),
                        data: bytes.subrange(pos + 8, pos + 8 + size),
                    },
                ],
                chunks_between(bytes, next, end),
            )
        }
    }
}

/// What a module file holds: `FOR1`, the big-endian number of bytes that
/// follow it, `BEAM`, and chunks up to the declared length. Bytes after the
/// declared length are not read.
pub open spec fn container(bytes: Seq<u8>) -> Result<Seq<ChunkView>, FormatError> {
    if bytes.len() < 12 {
        Err(FormatError::ShortHeader)
    } else if !is_tag(bytes.subrange(0, 4), 0x46, 0x4f, 0x52, 0x31) {
        Err(FormatError::BadMagic)
    } else if !is_tag(bytes.subrange(8, 12), 0x42, 0x45, 0x41, 0x4d) {
        Err(FormatError::BadFormType)
    } else if be_u32(bytes, 4) < 4 || 8 + be_u32(bytes, 4) > bytes.len() {
        Err(FormatError::BadLength)
    } else {
        chunks_between(bytes, 12, 8 + be_u32(bytes, 4) as int)
    }
}

/// The index of the first chunk at or after `from` that has the tag `tag`.
pub open spec fn find_from(chunks: Seq<ChunkView>, tag: Seq<u8>, from: int) -> Option<int>
    decreases chunks.len() - from,
{
    if from >= chunks.len() {
        None
    } else if chunks[from].tag == tag {
        Some(from)
    } else {
        find_from(chunks, tag, from + 1)
    }
}

/// The payload of the first chunk that has the tag `tag`.
pub open spec fn payload_of(chunks: Seq<ChunkView>, tag: Seq<u8>) -> Option<Seq<u8>> {
    match find_from(chunks, tag, 0) {
        Some(i) => Some(chunks[i].data),
        None => None,
    }
}

/// `find_from` gives the first chunk with the tag, and `None` only when no
/// chunk at or after `from` has it.
pub proof fn lemma_find_from(chunks: Seq<ChunkView>, tag: Seq<u8>, from: int)
    requires
        0 <= from,
    ensures
        match find_from(chunks, tag, from) {
            Some(i) => from <= i < chunks.len() && chunks[i].tag == tag && forall|j: int|
                from <= j < i ==> chunks[j].tag != tag,
            None => forall|j: int| from <= j < chunks.len() ==> chunks[j].tag != tag,
        },
    decreases chunks.len() - from,
{
    if from < chunks.len() && chunks[from].tag != tag {
        lemma_find_from(chunks, tag, from + 1);
    }
}

impl Chunk {
    /// The kind of this chunk, by its tag.
    pub fn kind(&self) -> (kind: ChunkKind)
        ensures
            kind == tag_kind(self@.tag),
    {
        let t = &self.tag;
        if has_tag(t, 0x41, 0x74, 0x6f, 0x6d) {
            assert(self.tag@ =~= atom_tag());
            ChunkKind::Atom
        } else if has_tag(t, 0x41, 0x74, 0x55, 0x38) {
            assert(self.tag@ =~= atu8_tag());
            ChunkKind::AtU8
        } else if has_tag(t, 0x4c, 0x69, 0x74, 0x54) {
            assert(self.tag@ =~= litt_tag());
            ChunkKind::LitT
        } else if has_tag(t, 0x49, 0x6d, 0x70, 0x54) {
            assert(self.tag@ =~= impt_tag());
            ChunkKind::ImpT
        } else {
            ChunkKind::Other
        }
    }
}

fn has_tag(tag: &[u8; 4], a: u8, b: u8, c: u8, d: u8) -> (yes: bool)
    ensures
        yes == is_tag(tag@, a, b, c, d),
{
    tag[0] == a && tag[1] == b && tag[2] == c && tag[3] == d
}

fn same_tag(x: &[u8; 4], y: &[u8; 4]) -> (yes: bool)
    ensures
        yes == (x@ == y@),
{
    let yes = x[0] == y[0] && x[1] == y[1] && x[2] == y[2] && x[3] == y[3];
    proof {
        if yes {
            assert(x@ =~= y@);
        }
    }
    yes
}

impl BeamFile {
    /// The position of the first chunk with the tag `tag`, if there is one.
    pub fn find_chunk(&self, tag: &[u8; 4]) -> (found: Option<usize>)
        ensures
            found matches Some(i) ==> find_from(self@, tag@, 0) == Some(i as int),
            found is None ==> find_from(self@, tag@, 0) is None,
            found matches Some(i) ==> i < self.chunks@.len() && self.chunks@[i as int].tag@ == tag@
                && forall|j: int| 0 <= j < i ==> self.chunks@[j].tag@ != tag@,
            found is None ==> forall|j: int|
                0 <= j < self.chunks@.len() ==> self.chunks@[j].tag@ != tag@,
    {
        let mut i: usize = 0;
        while i < self.chunks.len()
            invariant
                i <= self.chunks@.len(),
                find_from(self@, tag@, 0) == find_from(self@, tag@, i as int),
            decreases self.chunks@.len() - i,
        {
            if same_tag(&self.chunks[i].tag, tag) {
                proof {
                    assert(self@[i as int] == self.chunks@[i as int]@);
                    lemma_find_from(self@, tag@, 0);
                    assert forall|j: int| 0 <= j < i implies self.chunks@[j].tag@ != tag@ by {
                        assert(self@[j] == self.chunks@[j]@);
                    }
                }
                return Some(i);
            }
            assert(self@[i as int] == self.chunks@[i as int]@);
            i += 1;
        }
        proof {
            lemma_find_from(self@, tag@, 0);
            assert forall|j: int| 0 <= j < self.chunks@.len() implies self.chunks@[j].tag@
                != tag@ by {
                assert(self@[j] == self.chunks@[j]@);
            }
        }
        None
    }
}

/// Reads a module file from its bytes.
pub fn load(bytes: &[u8]) -> (file: Result<BeamFile, FormatError>)
    ensures
        file matches Ok(f) ==> container(bytes@) == Ok::<Seq<ChunkView>, FormatError>(f@),
        file matches Err(e) ==> container(bytes@) == Err::<Seq<ChunkView>, FormatError>(e),
{
    if bytes.len() < 12 {
        return Err(FormatError::ShortHeader);
    }
    if !(bytes[0] == 0x46 && bytes[1] == 0x4f && bytes[2] == 0x52 && bytes[3] == 0x31) {
        return Err(FormatError::BadMagic);
    }
    if !(bytes[8] == 0x42 && bytes[9] == 0x45 && bytes[10] == 0x41 && bytes[11] == 0x4d) {
        return Err(FormatError::BadFormType);
    }
    let declared = read_be_u32(bytes, 4) as usize;
    if declared < 4 || declared > bytes.len() - 8 {
        return Err(FormatError::BadLength);
    }
    let end: usize = 8 + declared;
    proof {
        assert(chunk_views(Seq::<Chunk>::empty()) + chunks_between(bytes@, 12, end as int)->Ok_0
            =~= chunks_between(bytes@, 12, end as int)->Ok_0);
    }
    let mut chunks: Vec<Chunk> = Vec::new();
    let mut pos: usize = 12;
    while pos < end
        invariant
            12 <= pos,
            end <= bytes@.len(),
            container(bytes@) == chunks_between(bytes@, 12, end as int),
            chunks_between(bytes@, 12, end as int) == prepend(
                chunk_views(chunks@),
                chunks_between(bytes@, pos as int, end as int),
            ),
        decreases end - pos,
    {
        if end - pos < 8 {
            return Err(FormatError::TruncatedChunk { offset: pos });
        }
        let size = read_be_u32(bytes, pos + 4) as usize;
        let pad: usize = (4 - size % 4) % 4;
        let room: usize = end - pos - 8;
        if size > room || pad > room - size {
            return Err(FormatError::TruncatedChunk { offset: pos });
        }
        let tag: [u8; 4] = [bytes[pos], bytes[pos + 1], bytes[pos + 2], bytes[pos + 3]];
        let data = slice_to_vec(slice_subrange(bytes, pos + 8, pos + 8 + size));
        let chunk = Chunk { tag, data };
        proof {
            let ghost rest = chunks_between(bytes@, pos + 8 + size + pad, end as int);
            assert(chunk@.tag =~= bytes@.subrange(pos as int, pos + 4));
            assert(chunk_views(chunks@.push(chunk)) =~= chunk_views(chunks@) + seq![chunk@]);
            if let Ok(tail) = rest {
                assert(chunk_views(chunks@) + (seq![chunk@] + tail) =~= (chunk_views(chunks@)
                    + seq![chunk@]) + tail);
            }
        }
        chunks.push(chunk);
        pos = pos + 8 + size + pad;
    }
    proof {
        assert(chunk_views(chunks@) + Seq::<ChunkView>::empty() =~= chunk_views(chunks@));
    }
    Ok(BeamFile { chunks })
}

} // verus!
