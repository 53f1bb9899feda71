//! The atom table: a count, then that many names, each behind a one-byte
//! length. Atom numbers start at one; the table is stored from index zero.

use vstd::prelude::*;
use vstd::slice::{slice_subrange, slice_to_vec};
use vstd::utf8::{
    decode_utf8, encode_utf8, encode_utf8_decode_utf8, encode_utf8_valid_utf8, valid_utf8,
};
use crate::bytes::{be_bytes, be_u32, byte_rows, lemma_be_round_trip, read_be_u32};
use crate::container::{
    atom_tag, atu8_tag, find_from, prepend, BeamFile, ChunkKind, ChunkView,
};
use crate::error::{FormatError, ResolutionError, TableError};
use crate::text::{
    latin1_bytes, latin1_string, latin1_text, lemma_latin1_round_trip, utf8_string,
};

verus! {

/// How the bytes of a name spell its text.
#[derive(Debug, Clone, Copy, PartialEq, Eq)]
pub enum Encoding {
    /// One byte per character, as in an `Atom` chunk.
    Latin1,
    /// UTF-8, as in an `AtU8` chunk.
    Utf8,
}

/// One atom of the table.
#[derive(Debug, Clone, PartialEq, Eq)]
pub struct AtomEntry {
    pub name: String,
}

/// The atom table, in file order: the atom with number `n` is at index `n - 1`.
#[derive(Debug, Clone, PartialEq, Eq)]
pub struct AtomChunk {
    pub atoms: Vec<AtomEntry>,
}

impl View for AtomChunk {
    type V = Seq<Seq<char>>;

    open spec fn view(&self) -> Seq<Seq<char>> {
        Seq::new(self.atoms@.len(), |i: int| self.atoms@[i].name@)
    }
}

/// The bytes of `count` names that start at `pos` in `payload`, each behind
/// its one-byte length. The payload must end with the last of them.
pub open spec fn names_from(payload: Seq<u8>, pos: int, count: nat) -> Result<
    Seq<Seq<u8>>,
    TableError,
>
    decreases count,
{
    if count == 0 {
        if pos == payload.len() {
            Ok(Seq::empty())
        } else {
            Err(TableError::LongTable)
        }
    } else if pos >= payload.len() {
        Err(TableError::ShortTable)
    } else {
        let len = payload[pos] as int;
        if pos + 1 + len > payload.len() {
            Err(TableError::ShortTable)
        } else {
            prepend(
                seq![payload.subrange(pos + 1, pos + 1 + len)],
                names_from(payload, pos + 1 + len, (count - 1) as nat),
            )
        }
    }
}

/// The bytes of the names of an atom chunk: its first four bytes give their
/// number, and the payload holds that many names and nothing after them.
pub open spec fn raw_names(payload: Seq<u8>) -> Result<Seq<Seq<u8>>, TableError> {
    if payload.len() < 4 {
        Err(TableError::ShortTable)
    } else {
        names_from(payload, 4, be_u32(payload, 0))
    }
}

/// The index of the first name at or after `from` that is not valid UTF-8.
pub open spec fn first_bad_name(names: Seq<Seq<u8>>, from: int) -> Option<int>
    decreases names.len() - from,
{
    if from >= names.len() {
        None
    } else if !valid_utf8(names[from]) {
        Some(from)
    } else {
        first_bad_name(names, from + 1)
    }
}

/// The text that the bytes of a name spell.
pub open spec fn name_text(raw: Seq<u8>, encoding: Encoding) -> Seq<char> {
    match encoding {
        Encoding::Latin1 => latin1_text(raw),
        Encoding::Utf8 => decode_utf8(raw),
    }
}

/// The texts of a sequence of names.
pub open spec fn name_texts(names: Seq<Seq<u8>>, encoding: Encoding) -> Seq<Seq<char>> {
    Seq::new(names.len(), |i: int| name_text(names[i], encoding))
}

/// The atom table that a payload holds. A payload without its declared
/// number of names is refused before any name is looked at; then, for UTF-8,
/// the first name that is not valid UTF-8 is reported.
pub open spec fn atom_table(payload: Seq<u8>, encoding: Encoding) -> Result<
    Seq<Seq<char>>,
    TableError,
> {
    match raw_names(payload) {
        Err(e) => Err(e),
        Ok(names) => match encoding {
            Encoding::Latin1 => Ok(name_texts(names, encoding)),
            Encoding::Utf8 => match first_bad_name(names, 0) {
                Some(i) => Err(TableError::BadName { index: i as usize }),
                None => Ok(name_texts(names, encoding)),
            },
        },
    }
}

/// `tag` is `Atom` or `AtU8`.
pub open spec fn is_atom_tag(tag: Seq<u8>) -> bool {
    tag == atom_tag() || tag == atu8_tag()
}

/// The index of the first chunk at or after `from` that is tagged `Atom` or `AtU8`.
pub open spec fn first_atom_chunk(chunks: Seq<ChunkView>, from: int) -> Option<int>
    decreases chunks.len() - from,
{
    if from >= chunks.len() {
        None
    } else if is_atom_tag(chunks[from].tag) {
        Some(from)
    } else {
        first_atom_chunk(chunks, from + 1)
    }
}

/// How the names of a file are read: as UTF-8 where the file has an `AtU8`
/// chunk, as Latin-1 where it has none.
pub open spec fn atom_encoding(chunks: Seq<ChunkView>) -> Encoding {
    if find_from(chunks, atu8_tag(), 0) is Some {
        Encoding::Utf8
    } else {
        Encoding::Latin1
    }
}

/// The tag `Atom`, as an error carries it.
pub open spec fn atom() -> [u8; 4] {
    [0x41u8, 0x74u8, 0x6fu8, 0x6du8]
}

/// The tag `AtU8`, as an error carries it.
pub open spec fn atu8() -> [u8; 4] {
    [0x41u8, 0x74u8, 0x55u8, 0x38u8]
}

/// The atom table of a file: that of the first chunk, in file order, that
/// is tagged `Atom` or `AtU8`. An error in that chunk carries its tag.
pub open spec fn atom_table_of(chunks: Seq<ChunkView>) -> Result<Seq<Seq<char>>, FormatError> {
    match first_atom_chunk(chunks, 0) {
        None => Err(FormatError::NoAtomChunk),
        Some(i) => match atom_table(chunks[i].data, atom_encoding(chunks)) {
            Ok(table) => Ok(table),
            Err(error) => Err(
                FormatError::BadChunk {
                    tag: if chunks[i].tag == atu8_tag() {
                        atu8()
                    } else {
                        atom()
                    },
                    error,
                },
            ),
        },
    }
}

/// `first_atom_chunk` gives the first chunk with either tag, and `None`
/// only when no chunk at or after `from` has one.
pub proof fn lemma_first_atom_chunk(chunks: Seq<ChunkView>, from: int)
    requires
        0 <= from,
    ensures
        match first_atom_chunk(chunks, from) {
            Some(i) => from <= i < chunks.len() && is_atom_tag(chunks[i].tag) && forall|j: int|
                from <= j < i ==> !is_atom_tag(chunks[j].tag),
            None => forall|j: int| from <= j < chunks.len() ==> !is_atom_tag(chunks[j].tag),
        },
    decreases chunks.len() - from,
{
    if from < chunks.len() && !is_atom_tag(chunks[from].tag) {
        lemma_first_atom_chunk(chunks, from + 1);
    }
}

/// The name that an atom number stands for. Both errors hold the size of the table.
pub open spec fn resolve(table: Seq<Seq<char>>, number: nat) -> Result<
    Seq<char>,
    ResolutionError,
> {
    if number == 0 {
        Err(ResolutionError::InvalidAtomNumber { number: 0, table_size: table.len() as usize })
    } else if number > table.len() {
        Err(
            ResolutionError::OutOfRange {
                table_size: table.len() as usize,
                index: (number - 1) as usize,
            },
        )
    } else {
        Ok(table[number - 1])
    }
}

/// The entries of an atom chunk that holds `names`: each name behind its length.
pub open spec fn name_entries(names: Seq<Seq<u8>>) -> Seq<u8>
    decreases names.len(),
{
    if names.len() == 0 {
        Seq::empty()
    } else {
        seq![names[0].len() as u8] + names[0] + name_entries(names.drop_first())
    }
}

/// The payload of an atom chunk that holds `names`: their number, then the entries.
pub open spec fn atom_payload(names: Seq<Seq<u8>>) -> Seq<u8> {
    be_bytes(names.len()) + name_entries(names)
}

/// `names` can stand in an atom chunk: their number fits in four bytes and
/// the length of each in one.
pub open spec fn storable_names(names: Seq<Seq<u8>>) -> bool {
    names.len() <= u32::MAX && forall|i: int| 0 <= i < names.len() ==> names[i].len() <= 0xff
}

/// Where a payload holds `count` names, that many are read.
pub proof fn lemma_names_from_len(payload: Seq<u8>, pos: int, count: nat)
    ensures
        names_from(payload, pos, count) matches Ok(names) ==> names.len() == count,
    decreases count,
{
    if count > 0 && pos < payload.len() {
        lemma_names_from_len(payload, pos + 1 + payload[pos] as int, (count - 1) as nat);
    }
}

/// An atom table that was read has as many names as its payload declares:
/// no table is read short.
pub proof fn lemma_atom_table_len(payload: Seq<u8>, encoding: Encoding)
    ensures
        atom_table(payload, encoding) matches Ok(table) ==> table.len() == be_u32(payload, 0),
{
    if payload.len() >= 4 {
        lemma_names_from_len(payload, 4, be_u32(payload, 0));
    }
}

proof fn lemma_names_from_entries(head: Seq<u8>, names: Seq<Seq<u8>>, tail: Seq<u8>)
    requires
        forall|i: int| 0 <= i < names.len() ==> names[i].len() <= 0xff,
    ensures
        names_from(head + name_entries(names) + tail, head.len() as int, names.len()) == (if tail.len()
            == 0 {
            Ok::<Seq<Seq<u8>>, TableError>(names)
        } else {
            Err::<Seq<Seq<u8>>, TableError>(TableError::LongTable)
        }),
    decreases names.len(),
{
    let payload = head + name_entries(names) + tail;
    if names.len() == 0 {
        assert(names =~= Seq::<Seq<u8>>::empty());
    } else {
        let first = names[0];
        let rest = names.drop_first();
        let head2 = head + seq![first.len() as u8] + first;
        assert(payload =~= head2 + name_entries(rest) + tail);
        lemma_names_from_entries(head2, rest, tail);
        assert(payload[head.len() as int] == first.len() as u8);
        let at = head.len() as int;
        assert(payload.subrange(at + 1, at + 1 + first.len()) =~= first);
        assert(seq![first] + rest =~= names);
    }
}

/// Names that are written as an atom chunk are read back as they were.
pub proof fn lemma_names_round_trip(names: Seq<Seq<u8>>)
    requires
        storable_names(names),
    ensures
        raw_names(atom_payload(names)) == Ok::<Seq<Seq<u8>>, TableError>(names),
{
    lemma_be_round_trip(names.len());
    let head = be_bytes(names.len());
    let payload = atom_payload(names);
    assert(payload =~= head + name_entries(names) + Seq::<u8>::empty());
    assert(be_u32(payload, 0) == be_u32(head, 0));
    lemma_names_from_entries(head, names, Seq::empty());
}

/// An atom chunk with anything after the names that it declares is
/// refused: the declared number has to be the number of names there are.
pub proof fn lemma_long_atom_payload(names: Seq<Seq<u8>>, tail: Seq<u8>, encoding: Encoding)
    requires
        storable_names(names),
        tail.len() > 0,
    ensures
        atom_table(atom_payload(names) + tail, encoding) == Err::<Seq<Seq<char>>, TableError>(
            TableError::LongTable,
        ),
{
    lemma_be_round_trip(names.len());
    let head = be_bytes(names.len());
    let payload = atom_payload(names) + tail;
    assert(payload =~= head + name_entries(names) + tail);
    assert(be_u32(payload, 0) == be_u32(head, 0));
    lemma_names_from_entries(head, names, tail);
}

proof fn lemma_no_bad_name(names: Seq<Seq<u8>>, from: int)
    requires
        0 <= from,
        forall|i: int| 0 <= i < names.len() ==> valid_utf8(names[i]),
    ensures
        first_bad_name(names, from) is None,
    decreases names.len() - from,
{
    if from < names.len() {
        lemma_no_bad_name(names, from + 1);
    }
}

/// The UTF-8 bytes of each of `texts`.
pub open spec fn utf8_names(texts: Seq<Seq<char>>) -> Seq<Seq<u8>> {
    Seq::new(texts.len(), |i: int| encode_utf8(texts[i]))
}

/// The Latin-1 bytes of each of `texts`.
pub open spec fn latin1_names(texts: Seq<Seq<char>>) -> Seq<Seq<u8>> {
    Seq::new(texts.len(), |i: int| latin1_bytes(texts[i]))
}

/// Round trip in UTF-8: names written as the payload of an `AtU8` chunk
/// are decoded to the same names, in the same order.
pub proof fn lemma_atom_round_trip_utf8(texts: Seq<Seq<char>>)
    requires
        storable_names(utf8_names(texts)),
    ensures
        atom_table(atom_payload(utf8_names(texts)), Encoding::Utf8) == Ok::<
            Seq<Seq<char>>,
            TableError,
        >(texts),
{
    let names = utf8_names(texts);
    lemma_names_round_trip(names);
    assert forall|i: int| 0 <= i < names.len() implies valid_utf8(names[i]) by {
        encode_utf8_valid_utf8(texts[i]);
    }
    lemma_no_bad_name(names, 0);
    assert forall|i: int| 0 <= i < texts.len() implies name_text(names[i], Encoding::Utf8)
        == texts[i] by {
        encode_utf8_decode_utf8(texts[i]);
    }
    assert(name_texts(names, Encoding::Utf8) =~= texts);
}

/// Round trip in Latin-1: names whose characters all lie in Latin-1,
/// written as the payload of an `Atom` chunk, are decoded to the same
/// names, in the same order.
pub proof fn lemma_atom_round_trip_latin1(texts: Seq<Seq<char>>)
    requires
        storable_names(latin1_names(texts)),
        forall|i: int, j: int|
            0 <= i < texts.len() && 0 <= j < texts[i].len() ==> texts[i][j] as u32 <= 0xff,
    ensures
        atom_table(atom_payload(latin1_names(texts)), Encoding::Latin1) == Ok::<
            Seq<Seq<char>>,
            TableError,
        >(texts),
{
    let names = latin1_names(texts);
    lemma_names_round_trip(names);
    assert forall|i: int| 0 <= i < texts.len() implies name_text(names[i], Encoding::Latin1)
        == texts[i] by {
        lemma_latin1_round_trip(texts[i]);
    }
    assert(name_texts(names, Encoding::Latin1) =~= texts);
}

proof fn lemma_names_from_cut(head: Seq<u8>, names: Seq<Seq<u8>>, cut: int)
    requires
        forall|i: int| 0 <= i < names.len() ==> names[i].len() <= 0xff,
        head.len() <= cut < head.len() + name_entries(names).len(),
    ensures
        names_from((head + name_entries(names)).take(cut), head.len() as int, names.len())
            == Err::<Seq<Seq<u8>>, TableError>(TableError::ShortTable),
    decreases names.len(),
{
    let whole = head + name_entries(names);
    let cut_off = whole.take(cut);
    let pos = head.len() as int;
    if names.len() > 0 && pos < cut {
        let first = names[0];
        let rest = names.drop_first();
        assert(cut_off[pos] == first.len() as u8);
        if pos + 1 + first.len() <= cut {
            let head2 = head + seq![first.len() as u8] + first;
            assert(whole =~= head2 + name_entries(rest));
            lemma_names_from_cut(head2, rest, cut);
        }
    }
}

/// Boundary: an atom chunk that was cut short, at any place, is refused.
/// The payload still declares all its names and holds fewer.
pub proof fn lemma_cut_atom_payload(names: Seq<Seq<u8>>, cut: int, encoding: Encoding)
    requires
        storable_names(names),
        0 <= cut < atom_payload(names).len(),
    ensures
        atom_table(atom_payload(names).take(cut), encoding) == Err::<
            Seq<Seq<char>>,
            TableError,
        >(TableError::ShortTable),
{
    lemma_be_round_trip(names.len());
    let head = be_bytes(names.len());
    let cut_off = atom_payload(names).take(cut);
    if cut >= 4 {
        assert(be_u32(cut_off, 0) == be_u32(head, 0));
        lemma_names_from_cut(head, names, cut);
    }
}

/// Reads the bytes of the names of an atom chunk.
pub fn read_names(payload: &[u8]) -> (names: Result<Vec<Vec<u8>>, TableError>)
    ensures
        names matches Ok(n) ==> raw_names(payload@) == Ok::<Seq<Seq<u8>>, TableError>(
            byte_rows(n@),
        ),
        names matches Err(e) ==> raw_names(payload@) == Err::<Seq<Seq<u8>>, TableError>(e),
{
    if payload.len() < 4 {
        return Err(TableError::ShortTable);
    }
    let count = read_be_u32(payload, 0);
    let mut names: Vec<Vec<u8>> = Vec::new();
    let mut pos: usize = 4;
    let mut left: u32 = count;
    proof {
        assert(byte_rows(names@) + names_from(payload@, 4, count as nat)->Ok_0 =~= names_from(
            payload@,
            4,
            count as nat,
        )->Ok_0);
    }
    while left > 0
        invariant
            4 <= pos <= payload@.len(),
            raw_names(payload@) == prepend(
                byte_rows(names@),
                names_from(payload@, pos as int, left as nat),
            ),
        decreases left,
    {
        if pos >= payload.len() {
            return Err(TableError::ShortTable);
        }
        let len = payload[pos] as usize;
        if len > payload.len() - pos - 1 {
            return Err(TableError::ShortTable);
        }
        let name = slice_to_vec(slice_subrange(payload, pos + 1, pos + 1 + len));
        proof {
            let ghost rest = names_from(payload@, pos + 1 + len, (left - 1) as nat);
            assert(byte_rows(names@.push(name)) =~= byte_rows(names@) + seq![name@]);
            if let Ok(tail) = rest {
                assert(byte_rows(names@) + (seq![name@] + tail) =~= (byte_rows(names@)
                    + seq![name@]) + tail);
            }
        }
        names.push(name);
        pos = pos + 1 + len;
        left = left - 1;
    }
    if pos != payload.len() {
        return Err(TableError::LongTable);
    }
    proof {
        assert(byte_rows(names@) + Seq::<Seq<u8>>::empty() =~= byte_rows(names@));
    }
    Ok(names)
}

/// Decodes the payload of an atom chunk.
pub fn decode_atom_chunk(payload: &[u8], encoding: Encoding) -> (chunk: Result<
    AtomChunk,
    TableError,
>)
    ensures
        chunk matches Ok(c) ==> atom_table(payload@, encoding) == Ok::<
            Seq<Seq<char>>,
            TableError,
        >(c@),
        chunk matches Err(e) ==> atom_table(payload@, encoding) == Err::<
            Seq<Seq<char>>,
            TableError,
        >(e),
{
    let names = match read_names(payload) {
        Ok(names) => names,
        Err(e) => {
            return Err(e);
        },
    };
    let ghost raw = byte_rows(names@);
    let mut atoms: Vec<AtomEntry> = Vec::new();
    let mut i: usize = 0;
    while i < names.len()
        invariant
            i <= names@.len(),
            raw == byte_rows(names@),
            raw_names(payload@) == Ok::<Seq<Seq<u8>>, TableError>(raw),
            atoms@.len() == i,
            encoding == Encoding::Utf8 ==> first_bad_name(raw, 0) == first_bad_name(raw, i as int),
            forall|k: int| 0 <= k < i ==> (#[trigger] atoms@[k]).name@ == name_text(raw[k], encoding),
        decreases names@.len() - i,
    {
        let name = match encoding {
            Encoding::Latin1 => latin1_string(names[i].as_slice()),
            Encoding::Utf8 => match utf8_string(names[i].as_slice()) {
                Some(text) => text,
                None => {
                    return Err(TableError::BadName { index: i });
                },
            },
        };
        atoms.push(AtomEntry { name });
        i += 1;
    }
    let chunk = AtomChunk { atoms };
    proof {
        assert(chunk@ =~= name_texts(raw, encoding));
    }
    Ok(chunk)
}

/// The name that the atom number `num` stands for in `chunk`.
pub fn get_atom<'a>(chunk: &'a AtomChunk, num: usize) -> (name: Result<&'a str, ResolutionError>)
    ensures
        name matches Ok(n) ==> resolve(chunk@, num as nat) == Ok::<Seq<char>, ResolutionError>(
            n@,
        ),
        name matches Err(e) ==> resolve(chunk@, num as nat) == Err::<Seq<char>, ResolutionError>(
            e,
        ),
{
    if num == 0 {
        return Err(
            ResolutionError::InvalidAtomNumber { number: num, table_size: chunk.atoms.len() },
        );
    }
    let index = num - 1;
    if index >= chunk.atoms.len() {
        return Err(ResolutionError::OutOfRange { table_size: chunk.atoms.len(), index });
    }
    Ok(chunk.atoms[index].name.as_str())
}

impl BeamFile {
    /// The position of the first chunk tagged `Atom` or `AtU8`, if there is one.
    pub fn find_atom_chunk(&self) -> (found: Option<usize>)
        ensures
            found matches Some(i) ==> first_atom_chunk(self@, 0) == Some(i as int) && i
                < self.chunks@.len(),
            found is None ==> first_atom_chunk(self@, 0) is None,
    {
        let mut i: usize = 0;
        while i < self.chunks.len()
            invariant
                i <= self.chunks@.len(),
                first_atom_chunk(self@, 0) == first_atom_chunk(self@, i as int),
            decreases self.chunks@.len() - i,
        {
            assert(self@[i as int] == self.chunks@[i as int]@);
            assert(atom_tag()[2] != atu8_tag()[2]);
            match self.chunks[i].kind() {
                ChunkKind::Atom | ChunkKind::AtU8 => {
                    return Some(i);
                },
                _ => {},
            }
            i += 1;
        }
        None
    }
}

/// The atom table of a file.
pub fn get_atom_chunk(beam: &BeamFile) -> (chunk: Result<AtomChunk, FormatError>)
    ensures
        chunk matches Ok(c) ==> atom_table_of(beam@) == Ok::<Seq<Seq<char>>, FormatError>(c@),
        chunk matches Err(e) ==> atom_table_of(beam@) == Err::<Seq<Seq<char>>, FormatError>(e),
{
    let at = match beam.find_atom_chunk() {
        Some(at) => at,
        None => {
            return Err(FormatError::NoAtomChunk);
        },
    };
    let utf8_tag: [u8; 4] = [0x41, 0x74, 0x55, 0x38];
    let latin1_tag: [u8; 4] = [0x41, 0x74, 0x6f, 0x6d];
    assert(utf8_tag@ =~= atu8_tag());
    assert(utf8_tag@ =~= atu8()@);
    assert(latin1_tag@ =~= atom()@);
    let encoding = match beam.find_chunk(&utf8_tag) {
        Some(_) => Encoding::Utf8,
        None => Encoding::Latin1,
    };
    assert(beam@[at as int] == beam.chunks@[at as int]@);
    let tag = match beam.chunks[at].kind() {
        ChunkKind::AtU8 => utf8_tag,
        _ => latin1_tag,
    };
    match decode_atom_chunk(beam.chunks[at].data.as_slice(), encoding) {
        Ok(chunk) => Ok(chunk),
        Err(error) => Err(FormatError::BadChunk { tag, error }),
    }
}

} // verus!
