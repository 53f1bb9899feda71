//! The listings: one line per entry of a table, numbered from zero.

use vstd::prelude::*;
use vstd::string::*;
use crate::atom::{
    atom_encoding, atom_table, atom_table_of, first_atom_chunk, get_atom, get_atom_chunk,
    is_atom_tag, lemma_atom_table_len, lemma_first_atom_chunk, resolve, AtomChunk,
};
use crate::bytes::be_u32;
use crate::container::{atom_tag, atu8_tag, container, load, ChunkView};
use crate::error::{Error, FormatError, ResolutionError, TableError};
use crate::import::{get_imp_chunk, import_table_of, ImpChunk, ImportEntry};
use crate::literal::{get_lit_chunk, literal_table_of, LitChunk};
use crate::text::{decimal, push_decimal};

verus! {

/// The line of an atom or a literal: `[index] text`.
pub open spec fn entry_line(index: nat, text: Seq<char>) -> Seq<char> {
    seq!['['] + decimal(index) + seq![']', ' '] + text
}

/// The line of an import: `[index] module:function/arity`.
pub open spec fn import_line(
    index: nat,
    module: Seq<char>,
    function: Seq<char>,
    arity: nat,
) -> Seq<char> {
    seq!['['] + decimal(index) + seq![']', ' '] + module + seq![':'] + function + seq!['/']
        + decimal(arity)
}

/// What a vector of strings holds, line by line.
pub open spec fn line_texts(lines: Seq<String>) -> Seq<Seq<char>> {
    Seq::new(lines.len(), |i: int| lines[i]@)
}

/// The lines of an atom table.
pub open spec fn atom_lines(table: Seq<Seq<char>>) -> Seq<Seq<char>> {
    Seq::new(table.len(), |i: int| entry_line(i as nat, table[i]))
}

/// The line of one import, its two atom numbers resolved against `table`,
/// the module first.
pub open spec fn resolved_line(table: Seq<Seq<char>>, index: nat, entry: ImportEntry) -> Result<
    Seq<char>,
    ResolutionError,
> {
    match resolve(table, entry.module as nat) {
        Err(e) => Err(e),
        Ok(module) => match resolve(table, entry.function as nat) {
            Err(e) => Err(e),
            Ok(function) => Ok(import_line(index, module, function, entry.arity as nat)),
        },
    }
}

/// The index of the first import at or after `from` with an atom number
/// that `table` does not resolve.
pub open spec fn first_unresolved(
    table: Seq<Seq<char>>,
    imports: Seq<ImportEntry>,
    from: int,
) -> Option<int>
    decreases imports.len() - from,
{
    if from >= imports.len() {
        None
    } else if resolved_line(table, from as nat, imports[from]) is Err {
        Some(from)
    } else {
        first_unresolved(table, imports, from + 1)
    }
}

/// The lines of an import table, or the error of the first import that
/// does not resolve.
pub open spec fn import_lines(table: Seq<Seq<char>>, imports: Seq<ImportEntry>) -> Result<
    Seq<Seq<char>>,
    ResolutionError,
> {
    match first_unresolved(table, imports, 0) {
        Some(i) => Err(resolved_line(table, i as nat, imports[i])->Err_0),
        None => Ok(
            Seq::new(imports.len(), |i: int| resolved_line(table, i as nat, imports[i])->Ok_0),
        ),
    }
}

/// The atom listing of a file.
pub open spec fn atom_listing(bytes: Seq<u8>) -> Result<Seq<Seq<char>>, Error> {
    match container(bytes) {
        Err(e) => Err(Error::Format(e)),
        Ok(chunks) => match atom_table_of(chunks) {
            Err(e) => Err(Error::Format(e)),
            Ok(table) => Ok(atom_lines(table)),
        },
    }
}

/// The import listing of a file. The atom table is looked for before the
/// import table, and both are read before any import is resolved.
pub open spec fn import_listing(bytes: Seq<u8>) -> Result<Seq<Seq<char>>, Error> {
    match container(bytes) {
        Err(e) => Err(Error::Format(e)),
        Ok(chunks) => match atom_table_of(chunks) {
            Err(e) => Err(Error::Format(e)),
            Ok(table) => match import_table_of(chunks) {
                Err(e) => Err(Error::Format(e)),
                Ok(imports) => match import_lines(table, imports) {
                    Err(e) => Err(Error::Resolution(e)),
                    Ok(lines) => Ok(lines),
                },
            },
        },
    }
}

/// The literals of a file, as the bytes that encode them.
pub open spec fn file_literals(bytes: Seq<u8>) -> Result<Seq<Seq<u8>>, FormatError> {
    match container(bytes) {
        Err(e) => Err(e),
        Ok(chunks) => literal_table_of(chunks),
    }
}

/// `decode` may give a text for `term`, and `line` is the line of that text.
pub open spec fn renders<F: Fn(&Vec<u8>) -> Result<String, String>>(
    decode: F,
    term: Seq<u8>,
    index: nat,
    line: Seq<char>,
) -> bool {
    exists|blob: Vec<u8>, text: String|
        blob@ == term && #[trigger] call_ensures(decode, (&blob,), Ok::<String, String>(text))
            && line == entry_line(index, text@)
}

/// `decode` may refuse `term` with `reason`.
pub open spec fn refuses<F: Fn(&Vec<u8>) -> Result<String, String>>(
    decode: F,
    term: Seq<u8>,
    reason: String,
) -> bool {
    exists|blob: Vec<u8>|
        blob@ == term && #[trigger] call_ensures(decode, (&blob,), Err::<String, String>(reason))
}

/// `decode` gave a text for each of the first `upto` terms, and `lines`
/// holds the lines of these texts.
pub open spec fn rendered_upto<F: Fn(&Vec<u8>) -> Result<String, String>>(
    decode: F,
    terms: Seq<Seq<u8>>,
    lines: Seq<Seq<char>>,
    upto: int,
) -> bool {
    upto <= lines.len() && upto <= terms.len() && forall|i: int|
        0 <= i < upto ==> renders(decode, terms[i], i as nat, #[trigger] lines[i])
}

/// The payload of the chunk that gives a file its atom table: the first
/// one, in file order, that is tagged `Atom` or `AtU8`.
pub open spec fn atom_payload_of(chunks: Seq<ChunkView>) -> Option<Seq<u8>> {
    match first_atom_chunk(chunks, 0) {
        Some(i) => Some(chunks[i].data),
        None => None,
    }
}

/// How the line with index `index` starts: `[index] `.
pub open spec fn line_head(index: nat) -> Seq<char> {
    seq!['['] + decimal(index) + seq![']', ' ']
}

/// The atom listing has one line for each entry that the atom chunk
/// declares, and line `i` starts with `[i] `, counted from zero without a gap.
pub proof fn lemma_atom_listing_shape(bytes: Seq<u8>)
    ensures
        atom_listing(bytes) matches Ok(lines) ==> container(bytes) matches Ok(chunks)
            && atom_payload_of(chunks) matches Some(payload) && lines.len() == be_u32(payload, 0)
            && forall|i: int|
            0 <= i < lines.len() ==> line_head(i as nat).is_prefix_of(#[trigger] lines[i]),
{
    if let Ok(lines) = atom_listing(bytes) {
        let chunks = container(bytes)->Ok_0;
        let table = atom_table_of(chunks)->Ok_0;
        lemma_atom_table_len(atom_payload_of(chunks)->Some_0, atom_encoding(chunks));
        assert forall|i: int| 0 <= i < lines.len() implies line_head(i as nat).is_prefix_of(
            #[trigger] lines[i],
        ) by {
            let head = line_head(i as nat);
            assert(lines[i] =~= head + table[i]);
            assert((head + table[i]).subrange(0, head.len() as int) =~= head);
        }
    }
}

/// A file with neither an `Atom` nor an `AtU8` chunk has no atom listing:
/// the listing fails, and says that no such chunk was found.
pub proof fn lemma_no_atom_chunk(bytes: Seq<u8>)
    requires
        container(bytes) matches Ok(chunks) && forall|i: int|
            0 <= i < chunks.len() ==> (#[trigger] chunks[i]).tag != atom_tag() && chunks[i].tag
                != atu8_tag(),
    ensures
        atom_listing(bytes) == Err::<Seq<Seq<char>>, Error>(
            Error::Format(FormatError::NoAtomChunk),
        ),
        import_listing(bytes) == Err::<Seq<Seq<char>>, Error>(
            Error::Format(FormatError::NoAtomChunk),
        ),
{
    let chunks = container(bytes)->Ok_0;
    lemma_first_atom_chunk(chunks, 0);
}

/// The atom table is that of the first chunk, in file order, that is tagged
/// `Atom` or `AtU8`: chunks of other kinds before it are passed over, and
/// a later chunk of either tag is not read.
pub proof fn lemma_first_atom_chunk_is_read(chunks: Seq<ChunkView>, i: int)
    requires
        0 <= i < chunks.len(),
        is_atom_tag(chunks[i].tag),
        forall|j: int| 0 <= j < i ==> !is_atom_tag(#[trigger] chunks[j].tag),
    ensures
        atom_payload_of(chunks) == Some(chunks[i].data),
        atom_table_of(chunks) is Ok <==> atom_table(chunks[i].data, atom_encoding(chunks)) is Ok,
        atom_table_of(chunks) matches Ok(table) ==> atom_table(
            chunks[i].data,
            atom_encoding(chunks),
        ) == Ok::<Seq<Seq<char>>, TableError>(table),
{
    lemma_first_atom_chunk(chunks, 0);
}

/// Atom numbers count from one: a number from one to the size of the table
/// stands for the name at the index one less, zero stands for none, and so
/// does any number above the size of the table. Either error holds the
/// size of the table.
pub proof fn lemma_resolve_one_based(table: Seq<Seq<char>>, number: nat)
    ensures
        1 <= number <= table.len() ==> resolve(table, number) == Ok::<
            Seq<char>,
            ResolutionError,
        >(table[number - 1]),
        number == 0 ==> resolve(table, number) == Err::<Seq<char>, ResolutionError>(
            ResolutionError::InvalidAtomNumber { number: 0, table_size: table.len() as usize },
        ),
        number > table.len() && number <= usize::MAX ==> resolve(table, number) == Err::<
            Seq<char>,
            ResolutionError,
        >(
            ResolutionError::OutOfRange {
                table_size: table.len() as usize,
                index: (number - 1) as usize,
            },
        ),
{
}

/// An import whose two atom numbers lie in the table is listed with the
/// names at the indices one less.
pub proof fn lemma_valid_import_line(table: Seq<Seq<char>>, index: nat, entry: ImportEntry)
    requires
        1 <= entry.module <= table.len(),
        1 <= entry.function <= table.len(),
    ensures
        resolved_line(table, index, entry) == Ok::<Seq<char>, ResolutionError>(
            import_line(
                index,
                table[entry.module - 1],
                table[entry.function - 1],
                entry.arity as nat,
            ),
        ),
{
}

/// Writes the line of an atom or a literal.
pub fn render_entry(index: usize, text: &str) -> (line: String)
    ensures
        line@ == entry_line(index as nat, text@),
{
    proof {
        reveal_strlit("[");
        reveal_strlit("] ");
    }
    let mut line = String::from_str("[");
    push_decimal(&mut line, index as u64);
    line.append("] ");
    line.append(text);
    assert(line@ =~= entry_line(index as nat, text@));
    line
}

/// Writes the line of an import whose names are resolved.
pub fn render_import(index: usize, module: &str, function: &str, arity: u32) -> (line: String)
    ensures
        line@ == import_line(index as nat, module@, function@, arity as nat),
{
    proof {
        reveal_strlit("[");
        reveal_strlit("] ");
        reveal_strlit(":");
        reveal_strlit("/");
    }
    let mut line = String::from_str("[");
    push_decimal(&mut line, index as u64);
    line.append("] ");
    line.append(module);
    line.append(":");
    line.append(function);
    line.append("/");
    push_decimal(&mut line, arity as u64);
    assert(line@ =~= import_line(index as nat, module@, function@, arity as nat));
    line
}

/// The lines of an atom table.
pub fn list_atoms(atoms: &AtomChunk) -> (lines: Vec<String>)
    ensures
        line_texts(lines@) == atom_lines(atoms@),
{
    let mut lines: Vec<String> = Vec::new();
    let mut i: usize = 0;
    while i < atoms.atoms.len()
        invariant
            i <= atoms.atoms@.len(),
            lines@.len() == i,
            forall|k: int| 0 <= k < i ==> (#[trigger] lines@[k])@ == entry_line(k as nat, atoms@[k]),
        decreases atoms.atoms@.len() - i,
    {
        let line = render_entry(i, atoms.atoms[i].name.as_str());
        lines.push(line);
        i += 1;
    }
    assert(line_texts(lines@) =~= atom_lines(atoms@));
    lines
}

/// The lines of an import table, each import resolved against `atoms`; the
/// error of the first import that does not resolve, where there is one.
pub fn list_imports(atoms: &AtomChunk, imports: &ImpChunk) -> (lines: Result<
    Vec<String>,
    ResolutionError,
>)
    ensures
        lines matches Ok(l) ==> import_lines(atoms@, imports@) == Ok::<
            Seq<Seq<char>>,
            ResolutionError,
        >(line_texts(l@)),
        lines matches Err(e) ==> import_lines(atoms@, imports@) == Err::<
            Seq<Seq<char>>,
            ResolutionError,
        >(e),
{
    let mut lines: Vec<String> = Vec::new();
    let mut i: usize = 0;
    while i < imports.imports.len()
        invariant
            i <= imports@.len(),
            lines@.len() == i,
            first_unresolved(atoms@, imports@, 0) == first_unresolved(atoms@, imports@, i as int),
            forall|k: int|
                0 <= k < i ==> Ok::<Seq<char>, ResolutionError>((#[trigger] lines@[k])@)
                    == resolved_line(atoms@, k as nat, imports@[k]),
        decreases imports@.len() - i,
    {
        let entry = imports.imports[i];
        let module = match get_atom(atoms, entry.module as usize) {
            Ok(name) => name,
            Err(e) => {
                return Err(e);
            },
        };
        let function = match get_atom(atoms, entry.function as usize) {
            Ok(name) => name,
            Err(e) => {
                return Err(e);
            },
        };
        let line = render_import(i, module, function, entry.arity);
        lines.push(line);
        i += 1;
    }
    assert(line_texts(lines@) =~= Seq::new(
        imports@.len(),
        |i: int| resolved_line(atoms@, i as nat, imports@[i])->Ok_0,
    ));
    Ok(lines)
}

/// The lines of a literal table. `decode` gives the text of one term, or
/// the reason why the bytes are no term. The listing stops at the first
/// term that `decode` refuses, and no term after it is handed to `decode`.
pub fn list_literals<F: Fn(&Vec<u8>) -> Result<String, String>>(
    literals: &LitChunk,
    decode: F,
) -> (lines: Result<Vec<String>, Error>)
    requires
        forall|i: int|
            0 <= i < literals.literals@.len() ==> call_requires(
                decode,
                (&#[trigger] literals.literals@[i],),
            ),
    ensures
        lines matches Ok(l) ==> l@.len() == literals@.len() && rendered_upto(
            decode,
            literals@,
            line_texts(l@),
            literals@.len() as int,
        ),
        lines matches Err(e) ==> e matches Error::TermDecode { index, reason } && index
            < literals@.len() && refuses(decode, literals@[index as int], reason)
            && exists|before: Seq<Seq<char>>|
            rendered_upto(decode, literals@, before, index as int),
{
    let mut lines: Vec<String> = Vec::new();
    let mut i: usize = 0;
    while i < literals.literals.len()
        invariant
            i <= literals.literals@.len(),
            lines@.len() == i,
            forall|i: int|
                0 <= i < literals.literals@.len() ==> call_requires(
                    decode,
                    (&#[trigger] literals.literals@[i],),
                ),
            rendered_upto(decode, literals@, line_texts(lines@), i as int),
        decreases literals.literals@.len() - i,
    {
        match decode(&literals.literals[i]) {
            Ok(text) => {
                let line = render_entry(i, text.as_str());
                proof {
                    let ghost before = line_texts(lines@);
                    let ghost after = line_texts(lines@.push(line));
                    assert(renders(decode, literals@[i as int], i as nat, after[i as int])) by {
                        assert(literals.literals@[i as int]@ == literals@[i as int]);
                        assert(call_ensures(
                            decode,
                            (&literals.literals@[i as int],),
                            Ok::<String, String>(text),
                        ));
                    }
                    assert forall|k: int| 0 <= k < i + 1 implies renders(
                        decode,
                        literals@[k],
                        k as nat,
                        #[trigger] after[k],
                    ) by {
                        if k < i {
                            assert(after[k] == before[k]);
                        }
                    }
                }
                lines.push(line);
            },
            Err(reason) => {
                proof {
                    assert(literals.literals@[i as int]@ == literals@[i as int]);
                    assert(call_ensures(
                        decode,
                        (&literals.literals@[i as int],),
                        Err::<String, String>(reason),
                    ));
                }
                return Err(Error::TermDecode { index: i, reason });
            },
        }
        i += 1;
    }
    Ok(lines)
}

/// The atom listing of the module file `bytes`.
pub fn dump_atom_table(bytes: &[u8]) -> (lines: Result<Vec<String>, Error>)
    ensures
        lines matches Ok(l) ==> atom_listing(bytes@) == Ok::<Seq<Seq<char>>, Error>(
            line_texts(l@),
        ),
        lines matches Err(e) ==> atom_listing(bytes@) == Err::<Seq<Seq<char>>, Error>(e),
{
    let beam = match load(bytes) {
        Ok(beam) => beam,
        Err(e) => {
            return Err(Error::Format(e));
        },
    };
    let atoms = match get_atom_chunk(&beam) {
        Ok(atoms) => atoms,
        Err(e) => {
            return Err(Error::Format(e));
        },
    };
    Ok(list_atoms(&atoms))
}

/// The import listing of the module file `bytes`.
pub fn dump_import_table(bytes: &[u8]) -> (lines: Result<Vec<String>, Error>)
    ensures
        lines matches Ok(l) ==> import_listing(bytes@) == Ok::<Seq<Seq<char>>, Error>(
            line_texts(l@),
        ),
        lines matches Err(e) ==> import_listing(bytes@) == Err::<Seq<Seq<char>>, Error>(e),
{
    let beam = match load(bytes) {
        Ok(beam) => beam,
        Err(e) => {
            return Err(Error::Format(e));
        },
    };
    let atoms = match get_atom_chunk(&beam) {
        Ok(atoms) => atoms,
        Err(e) => {
            return Err(Error::Format(e));
        },
    };
    let imports = match get_imp_chunk(&beam) {
        Ok(imports) => imports,
        Err(e) => {
            return Err(Error::Format(e));
        },
    };
    match list_imports(&atoms, &imports) {
        Ok(lines) => Ok(lines),
        Err(e) => Err(Error::Resolution(e)),
    }
}

/// The literal listing of the module file `bytes`, each term given its
/// text by `decode`.
pub fn dump_literal_table<F: Fn(&Vec<u8>) -> Result<String, String>>(
    bytes: &[u8],
    decode: F,
) -> (lines: Result<Vec<String>, Error>)
    requires
        forall|blob: &Vec<u8>| call_requires(decode, (blob,)),
    ensures
        file_literals(bytes@) matches Err(e) ==> lines == Err::<Vec<String>, Error>(
            Error::Format(e),
        ),
        file_literals(bytes@) matches Ok(terms) ==> match lines {
            Ok(l) => l@.len() == terms.len() && rendered_upto(
                decode,
                terms,
                line_texts(l@),
                terms.len() as int,
            ),
            Err(e) => e matches Error::TermDecode { index, reason } && index < terms.len()
                && refuses(decode, terms[index as int], reason) && exists|before: Seq<Seq<char>>|
                rendered_upto(decode, terms, before, index as int),
        },
{
    let beam = match load(bytes) {
        Ok(beam) => beam,
        Err(e) => {
            return Err(Error::Format(e));
        },
    };
    let literals = match get_lit_chunk(&beam) {
        Ok(literals) => literals,
        Err(e) => {
            return Err(Error::Format(e));
        },
    };
    list_literals(&literals, decode)
}

} // verus!
