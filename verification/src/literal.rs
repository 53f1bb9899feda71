//! The literal table: the length of the inflated table, then a zlib stream
//! that holds a count and that many terms, each behind a four-byte length.

use vstd::prelude::*;
use vstd::slice::{slice_subrange, slice_to_vec};
use crate::bytes::{be_bytes, be_u32, byte_rows, lemma_be_round_trip, read_be_u32};
use crate::container::{litt_tag, payload_of, prepend, BeamFile, ChunkView};
use crate::error::{FormatError, TableError};

verus! {

/// The literal table, in file order. Each literal is one term in the
/// external term format, kept as the bytes that encode it.
#[derive(Debug, Clone, PartialEq, Eq)]
pub struct LitChunk {
    pub literals: Vec<Vec<u8>>,
}

impl View for LitChunk {
    type V = Seq<Seq<u8>>;

    open spec fn view(&self) -> Seq<Seq<u8>> {
        byte_rows(self.literals@)
    }
}

/// What inflating the zlib stream `stream` gives, or `None` where the
/// stream cannot be inflated: the outcome of the decoder
/// `libflate::non_blocking::zlib::Decoder` on it.
pub uninterp spec fn zlib_inflated(stream: Seq<u8>) -> Option<Seq<u8>>;

/// `count` terms that start at `pos` in `data`, each behind its big-endian length.
pub open spec fn terms_from(data: Seq<u8>, pos: int, count: nat) -> Result<
    Seq<Seq<u8>>,
    TableError,
>
    decreases count,
{
    if count == 0 {
        Ok(Seq::empty())
    } else if data.len() - pos < 4 {
        Err(TableError::ShortTable)
    } else {
        let len = be_u32(data, pos);
        if pos + 4 + len > data.len() {
            Err(TableError::ShortTable)
        } else {
            prepend(
                seq![data.subrange(pos + 4, pos + 4 + len)],
                terms_from(data, pos + 4 + len, (count - 1) as nat),
            )
        }
    }
}

/// The terms of an inflated literal table: its first four bytes give their
/// number. Bytes after the last term are not read.
pub open spec fn literal_entries(data: Seq<u8>) -> Result<Seq<Seq<u8>>, TableError> {
    if data.len() < 4 {
        Err(TableError::ShortTable)
    } else {
        terms_from(data, 4, be_u32(data, 0))
    }
}

/// The literal table that a payload holds: four bytes that give the length
/// of the inflated table, then the zlib stream of it.
pub open spec fn literal_table(payload: Seq<u8>) -> Result<Seq<Seq<u8>>, TableError> {
    if payload.len() < 4 {
        Err(TableError::ShortTable)
    } else {
        match zlib_inflated(payload.subrange(4, payload.len() as int)) {
            None => Err(TableError::BadCompression),
            Some(data) => if data.len() != be_u32(payload, 0) {
                Err(TableError::SizeMismatch)
            } else {
                literal_entries(data)
            },
        }
    }
}

/// The tag `LitT`, as an error carries it.
pub open spec fn litt() -> [u8; 4] {
    [0x4cu8, 0x69u8, 0x74u8, 0x54u8]
}

/// The literal table of a file: that of its first `LitT` chunk. An error
/// in that chunk carries its tag.
pub open spec fn literal_table_of(chunks: Seq<ChunkView>) -> Result<Seq<Seq<u8>>, FormatError> {
    match payload_of(chunks, litt_tag()) {
        Some(payload) => match literal_table(payload) {
            Ok(table) => Ok(table),
            Err(error) => Err(FormatError::BadChunk { tag: litt(), error }),
        },
        None => Err(FormatError::NoSuchChunk { tag: litt() }),
    }
}

/// The entries of a literal table that holds `terms`: each term behind its length.
pub open spec fn term_entries(terms: Seq<Seq<u8>>) -> Seq<u8>
    decreases terms.len(),
{
    if terms.len() == 0 {
        Seq::empty()
    } else {
        be_bytes(terms[0].len()) + terms[0] + term_entries(terms.drop_first())
    }
}

/// The inflated literal table that holds `terms`: their number, then the entries.
pub open spec fn literal_data(terms: Seq<Seq<u8>>) -> Seq<u8> {
    be_bytes(terms.len()) + term_entries(terms)
}

/// `terms` can stand in a literal table: their number and the length of
/// each fit in four bytes.
pub open spec fn storable_terms(terms: Seq<Seq<u8>>) -> bool {
    terms.len() <= u32::MAX && forall|i: int| 0 <= i < terms.len() ==> terms[i].len() <= u32::MAX
}

/// Where a table holds `count` terms, that many are read.
pub proof fn lemma_terms_from_len(data: Seq<u8>, pos: int, count: nat)
    ensures
        terms_from(data, pos, count) matches Ok(terms) ==> terms.len() == count,
    decreases count,
{
    if count > 0 && data.len() - pos >= 4 {
        lemma_terms_from_len(data, pos + 4 + be_u32(data, pos), (count - 1) as nat);
    }
}

/// A literal table that was read has as many terms as it declares: no
/// table is read short.
pub proof fn lemma_literal_entries_len(data: Seq<u8>)
    ensures
        literal_entries(data) matches Ok(terms) ==> terms.len() == be_u32(data, 0),
{
    if data.len() >= 4 {
        lemma_terms_from_len(data, 4, be_u32(data, 0));
    }
}

proof fn lemma_word_at(data: Seq<u8>, at: int, n: nat)
    requires
        n <= u32::MAX,
        0 <= at,
        at + 4 <= data.len(),
        data.subrange(at, at + 4) == be_bytes(n),
    ensures
        be_u32(data, at) == n,
{
    lemma_be_round_trip(n);
    let word = data.subrange(at, at + 4);
    assert(word[0] == data[at] && word[1] == data[at + 1] && word[2] == data[at + 2] && word[3]
        == data[at + 3]);
}

proof fn lemma_terms_from_entries(head: Seq<u8>, terms: Seq<Seq<u8>>, tail: Seq<u8>)
    requires
        forall|i: int| 0 <= i < terms.len() ==> terms[i].len() <= u32::MAX,
    ensures
        terms_from(head + term_entries(terms) + tail, head.len() as int, terms.len()) == Ok::<
            Seq<Seq<u8>>,
            TableError,
        >(terms),
    decreases terms.len(),
{
    let data = head + term_entries(terms) + tail;
    if terms.len() == 0 {
        assert(terms =~= Seq::<Seq<u8>>::empty());
    } else {
        let first = terms[0];
        let rest = terms.drop_first();
        let at = head.len() as int;
        let head2 = head + be_bytes(first.len()) + first;
        lemma_be_round_trip(first.len());
        assert(data =~= head2 + term_entries(rest) + tail);
        lemma_terms_from_entries(head2, rest, tail);
        assert(data.subrange(at, at + 4) =~= be_bytes(first.len()));
        lemma_word_at(data, at, first.len());
        assert(data.subrange(at + 4, at + 4 + first.len()) =~= first);
        assert(seq![first] + rest =~= terms);
    }
}

/// Terms that are written as a literal table are read back as they were,
/// whatever follows them.
pub proof fn lemma_literals_round_trip(terms: Seq<Seq<u8>>, tail: Seq<u8>)
    requires
        storable_terms(terms),
    ensures
        literal_entries(literal_data(terms) + tail) == Ok::<Seq<Seq<u8>>, TableError>(terms),
{
    lemma_be_round_trip(terms.len());
    let head = be_bytes(terms.len());
    let data = literal_data(terms) + tail;
    assert(data.subrange(0, 4) =~= head);
    lemma_word_at(data, 0, terms.len());
    lemma_terms_from_entries(head, terms, tail);
}

proof fn lemma_terms_from_cut(head: Seq<u8>, terms: Seq<Seq<u8>>, cut: int)
    requires
        forall|i: int| 0 <= i < terms.len() ==> terms[i].len() <= u32::MAX,
        head.len() <= cut < head.len() + term_entries(terms).len(),
    ensures
        terms_from((head + term_entries(terms)).take(cut), head.len() as int, terms.len())
            == Err::<Seq<Seq<u8>>, TableError>(TableError::ShortTable),
    decreases terms.len(),
{
    let whole = head + term_entries(terms);
    let cut_off = whole.take(cut);
    let at = head.len() as int;
    if terms.len() > 0 && cut - at >= 4 {
        let first = terms[0];
        let rest = terms.drop_first();
        lemma_be_round_trip(first.len());
        assert(cut_off.subrange(at, at + 4) =~= be_bytes(first.len()));
        lemma_word_at(cut_off, at, first.len());
        if at + 4 + first.len() <= cut {
            let head2 = head + be_bytes(first.len()) + first;
            assert(whole =~= head2 + term_entries(rest));
            lemma_terms_from_cut(head2, rest, cut);
        }
    }
}

/// Boundary: an inflated literal table that was cut short, at any place,
/// is refused. It still declares all its terms and holds fewer.
pub proof fn lemma_cut_literal_data(terms: Seq<Seq<u8>>, cut: int)
    requires
        storable_terms(terms),
        0 <= cut < literal_data(terms).len(),
    ensures
        literal_entries(literal_data(terms).take(cut)) == Err::<Seq<Seq<u8>>, TableError>(
            TableError::ShortTable,
        ),
{
    lemma_be_round_trip(terms.len());
    let head = be_bytes(terms.len());
    let cut_off = literal_data(terms).take(cut);
    if cut >= 4 {
        assert(cut_off.subrange(0, 4) =~= head);
        lemma_word_at(cut_off, 0, terms.len());
        lemma_terms_from_cut(head, terms, cut);
    }
}

/// Inflates a zlib stream: makes a `libflate::non_blocking::zlib::Decoder`
/// over `stream` and reads it to its end with `std::io::Read::read_to_end`.
/// This decoder of `libflate` walks the deflate blocks in a loop, so a run
/// of blocks that add no byte costs it no stack. It reports an error for a
/// bad header, a bad deflate block, a stream that ends early and a checksum
/// that does not match; then this gives `None`. The contract says no more
/// than that the outcome is the one that belongs to these bytes: it names
/// it and does not describe it.
#[verifier::external_body]
fn inflate(stream: &[u8]) -> (data: Option<Vec<u8>>)
    ensures
        data matches Some(d) ==> zlib_inflated(stream@) == Some(d@),
        data is None ==> zlib_inflated(stream@) is None,
{
    let mut decoder = libflate::non_blocking::zlib::Decoder::new(stream);
    let mut data = Vec::new();
    match std::io::Read::read_to_end(&mut decoder, &mut data) {
        Ok(_) => Some(data),
        Err(_) => None,
    }
}

/// Splits an inflated literal table into its terms.
pub fn decode_literals(data: &[u8]) -> (chunk: Result<LitChunk, TableError>)
    ensures
        chunk matches Ok(c) ==> literal_entries(data@) == Ok::<Seq<Seq<u8>>, TableError>(c@),
        chunk matches Err(e) ==> literal_entries(data@) == Err::<Seq<Seq<u8>>, TableError>(e),
{
    if data.len() < 4 {
        return Err(TableError::ShortTable);
    }
    let count = read_be_u32(data, 0);
    let mut literals: Vec<Vec<u8>> = Vec::new();
    let mut pos: usize = 4;
    let mut left: u32 = count;
    proof {
        assert(byte_rows(literals@) + terms_from(data@, 4, count as nat)->Ok_0 =~= terms_from(
            data@,
            4,
            count as nat,
        )->Ok_0);
    }
    while left > 0
        invariant
            4 <= pos <= data@.len(),
            literal_entries(data@) == prepend(
                byte_rows(literals@),
                terms_from(data@, pos as int, left as nat),
            ),
        decreases left,
    {
        if data.len() - pos < 4 {
            return Err(TableError::ShortTable);
        }
        let len = read_be_u32(data, pos) as usize;
        if len > data.len() - pos - 4 {
            return Err(TableError::ShortTable);
        }
        let term = slice_to_vec(slice_subrange(data, pos + 4, pos + 4 + len));
        proof {
            let ghost rest = terms_from(data@, pos + 4 + len, (left - 1) as nat);
            assert(byte_rows(literals@.push(term)) =~= byte_rows(literals@) + seq![term@]);
            if let Ok(tail) = rest {
                assert(byte_rows(literals@) + (seq![term@] + tail) =~= (byte_rows(literals@)
                    + seq![term@]) + tail);
            }
        }
        literals.push(term);
        pos = pos + 4 + len;
        left = left - 1;
    }
    proof {
        assert(byte_rows(literals@) + Seq::<Seq<u8>>::empty() =~= byte_rows(literals@));
    }
    Ok(LitChunk { literals })
}

/// Decodes the payload of a literal chunk.
pub fn decode_lit_chunk(payload: &[u8]) -> (chunk: Result<LitChunk, TableError>)
    ensures
        chunk matches Ok(c) ==> literal_table(payload@) == Ok::<Seq<Seq<u8>>, TableError>(c@),
        chunk matches Err(e) ==> literal_table(payload@) == Err::<Seq<Seq<u8>>, TableError>(e),
{
    if payload.len() < 4 {
        return Err(TableError::ShortTable);
    }
    let declared = read_be_u32(payload, 0) as usize;
    let data = match inflate(slice_subrange(payload, 4, payload.len())) {
        Some(data) => data,
        None => {
            return Err(TableError::BadCompression);
        },
    };
    if data.len() != declared {
        return Err(TableError::SizeMismatch);
    }
    decode_literals(data.as_slice())
}

/// The literal table of a file.
pub fn get_lit_chunk(beam: &BeamFile) -> (chunk: Result<LitChunk, FormatError>)
    ensures
        chunk matches Ok(c) ==> literal_table_of(beam@) == Ok::<Seq<Seq<u8>>, FormatError>(c@),
        chunk matches Err(e) ==> literal_table_of(beam@) == Err::<Seq<Seq<u8>>, FormatError>(e),
{
    let tag: [u8; 4] = [0x4c, 0x69, 0x74, 0x54];
    assert(tag@ =~= litt_tag());
    assert(tag@ =~= litt()@);
    match beam.find_chunk(&tag) {
        Some(i) => {
            assert(beam@[i as int] == beam.chunks@[i as int]@);
            match decode_lit_chunk(beam.chunks[i].data.as_slice()) {
                Ok(chunk) => Ok(chunk),
                Err(error) => Err(FormatError::BadChunk { tag, error }),
            }
        },
        None => Err(FormatError::NoSuchChunk { tag }),
    }
}

} // verus!
