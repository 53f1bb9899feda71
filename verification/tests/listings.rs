use beam_file::chunk::{AtomChunk as FileAtomChunk, ImpTChunk, LitTChunk, RawChunk, StandardChunk};
use beam_file::parts::{Atom, Import};
use beam_file::StandardBeamFile;
use beam_tables::atom::{get_atom_chunk, AtomChunk, AtomEntry};
use beam_tables::container::{load, BeamFile, Chunk};
use beam_tables::dump::{
    dump_atom_table, dump_import_table, dump_literal_table, list_atoms, list_imports,
    list_literals, render_entry, render_import,
};
use beam_tables::error::{Error, FormatError, ResolutionError, TableError};
use beam_tables::import::{get_imp_chunk, ImpChunk, ImportEntry};
use beam_tables::literal::{get_lit_chunk, LitChunk};

fn atoms(names: &[&str], is_unicode: bool) -> StandardChunk {
    StandardChunk::Atom(FileAtomChunk {
        is_unicode,
        atoms: names.iter().map(|n| Atom { name: n.to_string() }).collect(),
    })
}

fn imports(records: &[(u32, u32, u32)]) -> StandardChunk {
    StandardChunk::ImpT(ImpTChunk {
        imports: records
            .iter()
            .map(|r| Import { module: r.0, function: r.1, arity: r.2 })
            .collect(),
    })
}

fn literals(terms: &[&[u8]]) -> StandardChunk {
    StandardChunk::LitT(LitTChunk { literals: terms.iter().map(|t| t.to_vec()).collect() })
}

fn file(chunks: Vec<StandardChunk>) -> Vec<u8> {
    let mut bytes: Vec<u8> = Vec::new();
    StandardBeamFile { chunks }.to_writer(&mut bytes).unwrap();
    bytes
}

fn term_text(blob: &Vec<u8>) -> Result<String, String> {
    match eetf::Term::decode(&blob[..]) {
        Ok(term) => Ok(term.to_string()),
        Err(e) => Err(e.to_string()),
    }
}

fn table(names: &[&str]) -> AtomChunk {
    AtomChunk { atoms: names.iter().map(|n| AtomEntry { name: n.to_string() }).collect() }
}

#[test]
fn import_table_of_a_minimal_file() {
    let bytes = file(vec![atoms(&["ok"], true), imports(&[(1, 1, 0)])]);
    assert_eq!(dump_import_table(&bytes), Ok(vec!["[0] ok:ok/0".to_string()]));
}

#[test]
fn import_with_an_atom_number_past_the_table_fails() {
    let bytes = file(vec![atoms(&["a", "b"], true), imports(&[(99, 1, 0)])]);
    let error = dump_import_table(&bytes).unwrap_err();
    assert_eq!(
        error,
        Error::Resolution(ResolutionError::OutOfRange { table_size: 2, index: 98 })
    );
    assert_eq!(error.message(), "Out of the atom table range: table_size=2, index=98");
}

#[test]
fn literal_table_with_the_integer_42() {
    let bytes = file(vec![atoms(&["m"], true), literals(&[&[131, 97, 42]])]);
    assert_eq!(dump_literal_table(&bytes, term_text), Ok(vec!["[0] 42".to_string()]));
}

#[test]
fn atom_table_has_one_line_for_each_declared_entry() {
    let names = ["m", "module_info", "erlang", "get_module_info", "ok", "a", "b", "c", "d", "e", "f"];
    let bytes = file(vec![atoms(&names, true), imports(&[])]);
    let lines = dump_atom_table(&bytes).unwrap();
    let beam = load(&bytes).unwrap();
    let declared = u32::from_be_bytes(beam.chunks[0].data[..4].try_into().unwrap());
    assert_eq!(lines.len(), declared as usize);
    assert_eq!(lines.len(), 11);
    for (i, line) in lines.iter().enumerate() {
        assert_eq!(line, &format!("[{}] {}", i, names[i]));
    }
    assert_eq!(lines[0], "[0] m");
    assert_eq!(lines[10], "[10] f");
}

#[test]
fn atom_table_of_an_empty_chunk_has_no_lines() {
    let bytes = file(vec![atoms(&[], false)]);
    assert_eq!(dump_atom_table(&bytes), Ok(vec![]));
}

#[test]
fn atom_table_without_an_atom_chunk_says_so() {
    let bytes = file(vec![imports(&[(1, 1, 0)]), literals(&[])]);
    let error = dump_atom_table(&bytes).unwrap_err();
    assert_eq!(error, Error::Format(FormatError::NoAtomChunk));
    assert_eq!(error.message(), "Neither 'Atom' nor 'AtU8' chunk is found");
    assert_eq!(dump_import_table(&bytes), Err(Error::Format(FormatError::NoAtomChunk)));
    assert_eq!(get_atom_chunk(&load(&bytes).unwrap()), Err(FormatError::NoAtomChunk));
    assert_eq!(dump_atom_table(b"FOR1\x00\x00\x00\x04BEAM"), Err(Error::Format(FormatError::NoAtomChunk)));
}

#[test]
fn atom_table_is_found_under_either_tag() {
    let old = file(vec![atoms(&["a", "b"], false)]);
    let new = file(vec![atoms(&["a", "b"], true)]);
    assert_eq!(&old[12..16], b"Atom");
    assert_eq!(&new[12..16], b"AtU8");
    let expected = vec!["[0] a".to_string(), "[1] b".to_string()];
    assert_eq!(dump_atom_table(&old), Ok(expected.clone()));
    assert_eq!(dump_atom_table(&new), Ok(expected));
}

#[test]
fn atom_table_is_that_of_the_first_chunk_of_either_tag() {
    let beam = BeamFile {
        chunks: vec![
            Chunk { tag: *b"Code", data: vec![1, 2, 3] },
            Chunk { tag: *b"Atom", data: vec![0, 0, 0, 1, 3, b'o', b'l', b'd'] },
            Chunk { tag: *b"AtU8", data: vec![0, 0, 0, 1, 3, b'n', b'e', b'w'] },
        ],
    };
    assert_eq!(beam.find_atom_chunk(), Some(1));
    assert_eq!(get_atom_chunk(&beam), Ok(table(&["old"])));
    let beam = BeamFile {
        chunks: vec![
            Chunk { tag: *b"AtU8", data: vec![0, 0, 0, 1, 3, b'n', b'e', b'w'] },
            Chunk { tag: *b"Atom", data: vec![0, 0, 0, 1, 3, b'o', b'l', b'd'] },
            Chunk { tag: *b"AtU8", data: vec![0, 0, 0, 0] },
        ],
    };
    assert_eq!(beam.find_atom_chunk(), Some(0));
    assert_eq!(get_atom_chunk(&beam), Ok(table(&["new"])));
    let beam = BeamFile { chunks: vec![Chunk { tag: *b"Code", data: vec![] }] };
    assert_eq!(beam.find_atom_chunk(), None);
}

#[test]
fn atom_names_are_read_as_utf8_where_the_file_has_a_utf8_chunk() {
    let lambda: Vec<u8> = vec![0, 0, 0, 1, 2, 0xce, 0xbb];
    let only_old = BeamFile { chunks: vec![Chunk { tag: *b"Atom", data: lambda.clone() }] };
    assert_eq!(get_atom_chunk(&only_old), Ok(table(&["Î»"])));
    let only_new = BeamFile { chunks: vec![Chunk { tag: *b"AtU8", data: lambda.clone() }] };
    assert_eq!(get_atom_chunk(&only_new), Ok(table(&["λ"])));
    let both = BeamFile {
        chunks: vec![
            Chunk { tag: *b"Atom", data: lambda.clone() },
            Chunk { tag: *b"AtU8", data: vec![0, 0, 0, 0] },
        ],
    };
    assert_eq!(get_atom_chunk(&both), Ok(table(&["λ"])));
    let both = BeamFile {
        chunks: vec![
            Chunk { tag: *b"Atom", data: vec![0, 0, 0, 1, 1, 0xe9] },
            Chunk { tag: *b"AtU8", data: vec![0, 0, 0, 0] },
        ],
    };
    assert_eq!(
        get_atom_chunk(&both),
        Err(FormatError::BadChunk { tag: *b"Atom", error: TableError::BadName { index: 0 } })
    );
}

#[test]
fn atom_table_with_more_entries_than_declared_fails() {
    let payload: Vec<u8> = vec![0, 0, 0, 1, 2, 0x6f, 0x6b, 2, 0x6f, 0x6b];
    for tag in [*b"Atom", *b"AtU8"] {
        let bytes = file(vec![StandardChunk::Unknown(RawChunk { id: tag, data: payload.clone() })]);
        let error = dump_atom_table(&bytes).unwrap_err();
        assert_eq!(
            error,
            Error::Format(FormatError::BadChunk { tag, error: TableError::LongTable })
        );
        assert_eq!(
            error.message(),
            format!(
                "Malformed chunk '{}': the table goes on after its declared entries",
                String::from_utf8_lossy(&tag)
            )
        );
    }
}

#[test]
fn atom_table_with_a_short_chunk_fails() {
    let mut beam = load(&file(vec![atoms(&["a", "b"], true)])).unwrap();
    beam.chunks[0].data.pop();
    assert_eq!(
        get_atom_chunk(&beam),
        Err(FormatError::BadChunk { tag: *b"AtU8", error: TableError::ShortTable })
    );
    let bytes = file(vec![StandardChunk::Unknown(RawChunk { id: *b"Atom", data: vec![0, 0, 0, 2, 1, b'a'] })]);
    let error = dump_atom_table(&bytes).unwrap_err();
    assert_eq!(
        error,
        Error::Format(FormatError::BadChunk { tag: *b"Atom", error: TableError::ShortTable })
    );
    assert_eq!(error.message(), "Malformed chunk 'Atom': the table ends before its declared entries do");
}

#[test]
fn atom_table_of_a_file_that_is_no_module() {
    assert_eq!(dump_atom_table(b"not a module file"), Err(Error::Format(FormatError::BadMagic)));
    assert_eq!(dump_import_table(b""), Err(Error::Format(FormatError::ShortHeader)));
    assert_eq!(
        dump_literal_table(b"FOR1\x00\x00\x00\x04JUNK", term_text),
        Err(Error::Format(FormatError::BadFormType))
    );
}

#[test]
fn import_table_lists_module_function_and_arity() {
    let bytes = file(vec![
        atoms(&["m", "erlang", "get_module_info", "lists", "map"], true),
        imports(&[(2, 3, 1), (2, 3, 2), (4, 5, 2), (1, 1, 4294967295)]),
    ]);
    assert_eq!(
        dump_import_table(&bytes),
        Ok(vec![
            "[0] erlang:get_module_info/1".to_string(),
            "[1] erlang:get_module_info/2".to_string(),
            "[2] lists:map/2".to_string(),
            "[3] m:m/4294967295".to_string(),
        ])
    );
}

#[test]
fn import_table_without_an_import_chunk_says_so() {
    let bytes = file(vec![atoms(&["m"], true)]);
    let error = dump_import_table(&bytes).unwrap_err();
    assert_eq!(error, Error::Format(FormatError::NoSuchChunk { tag: *b"ImpT" }));
    assert_eq!(error.message(), "No such chunk: 'ImpT'");
    assert_eq!(
        get_imp_chunk(&load(&bytes).unwrap()),
        Err(FormatError::NoSuchChunk { tag: *b"ImpT" })
    );
}

#[test]
fn import_with_atom_number_zero_fails() {
    let bytes = file(vec![atoms(&["m"], true), imports(&[(1, 1, 0), (0, 1, 0)])]);
    let error = dump_import_table(&bytes).unwrap_err();
    assert_eq!(
        error,
        Error::Resolution(ResolutionError::InvalidAtomNumber { number: 0, table_size: 1 })
    );
    assert_eq!(error.message(), "Invalid atom number: 0, table_size=1");
}

#[test]
fn import_table_fails_at_the_first_import_that_does_not_resolve() {
    let atoms = table(&["a", "b"]);
    let chunk = ImpChunk {
        imports: vec![
            ImportEntry { module: 1, function: 2, arity: 0 },
            ImportEntry { module: 2, function: 3, arity: 0 },
            ImportEntry { module: 0, function: 1, arity: 0 },
        ],
    };
    assert_eq!(
        list_imports(&atoms, &chunk),
        Err(ResolutionError::OutOfRange { table_size: 2, index: 2 })
    );
    let chunk = ImpChunk { imports: vec![ImportEntry { module: 9, function: 0, arity: 0 }] };
    assert_eq!(
        list_imports(&atoms, &chunk),
        Err(ResolutionError::OutOfRange { table_size: 2, index: 8 })
    );
    let chunk = ImpChunk { imports: vec![ImportEntry { module: 2, function: 1, arity: 3 }] };
    assert_eq!(list_imports(&atoms, &chunk), Ok(vec!["[0] b:a/3".to_string()]));
}

#[test]
fn import_table_with_a_short_chunk_fails() {
    let bytes = file(vec![
        atoms(&["m"], true),
        StandardChunk::Unknown(RawChunk { id: *b"ImpT", data: vec![0, 0, 0, 1, 0, 0, 0, 1] }),
    ]);
    let error = dump_import_table(&bytes).unwrap_err();
    assert_eq!(
        error,
        Error::Format(FormatError::BadChunk { tag: *b"ImpT", error: TableError::ShortTable })
    );
    assert_eq!(error.message(), "Malformed chunk 'ImpT': the table ends before its declared entries do");
}

#[test]
fn literal_table_lists_the_text_of_each_term() {
    let ok: &[u8] = &[131, 100, 0, 2, b'o', b'k'];
    let pair: &[u8] = &[131, 104, 2, 97, 1, 97, 2];
    let nil: &[u8] = &[131, 106];
    let bytes = file(vec![atoms(&["m"], true), literals(&[ok, pair, nil])]);
    let expected: Vec<String> = [ok, pair, nil]
        .iter()
        .enumerate()
        .map(|(i, t)| format!("[{}] {}", i, eetf::Term::decode(*t).unwrap()))
        .collect();
    assert_eq!(dump_literal_table(&bytes, term_text), Ok(expected));
}

#[test]
fn literal_table_without_a_literal_chunk_says_so() {
    let bytes = file(vec![atoms(&["m"], true)]);
    let error = dump_literal_table(&bytes, term_text).unwrap_err();
    assert_eq!(error, Error::Format(FormatError::NoSuchChunk { tag: *b"LitT" }));
    assert_eq!(error.message(), "No such chunk: 'LitT'");
    assert_eq!(
        get_lit_chunk(&load(&bytes).unwrap()),
        Err(FormatError::NoSuchChunk { tag: *b"LitT" })
    );
}

#[test]
fn literal_table_stops_at_the_first_term_that_does_not_decode() {
    let bytes = file(vec![literals(&[&[131, 97, 1], &[131, 255], &[131, 97, 3], &[0]])]);
    match dump_literal_table(&bytes, term_text) {
        Err(Error::TermDecode { index, reason }) => {
            assert_eq!(index, 1);
            assert_eq!(reason, eetf::Term::decode(&[131u8, 255][..]).unwrap_err().to_string());
        }
        other => panic!("unexpected: {:?}", other),
    }
}

#[test]
fn literal_table_hands_each_term_to_the_decoder_once_and_in_order() {
    let seen = std::cell::RefCell::new(Vec::new());
    let chunk = LitChunk { literals: vec![vec![1], vec![2, 2], vec![], vec![4]] };
    let lines = list_literals(&chunk, |blob: &Vec<u8>| {
        seen.borrow_mut().push(blob.clone());
        if blob.is_empty() {
            Err("empty".to_string())
        } else {
            Ok(format!("<{}>", blob.len()))
        }
    });
    assert_eq!(lines, Err(Error::TermDecode { index: 2, reason: "empty".to_string() }));
    assert_eq!(seen.into_inner(), vec![vec![1], vec![2, 2], vec![]]);
    let chunk = LitChunk { literals: vec![vec![1], vec![2, 2]] };
    assert_eq!(
        list_literals(&chunk, |blob: &Vec<u8>| Ok(format!("<{}>", blob.len()))),
        Ok(vec!["[0] <1>".to_string(), "[1] <2>".to_string()])
    );
}

#[test]
fn literal_table_with_a_broken_chunk_fails() {
    let bytes = file(vec![StandardChunk::Unknown(RawChunk { id: *b"LitT", data: vec![0, 0, 0, 9, 1, 2, 3] })]);
    let error = dump_literal_table(&bytes, term_text).unwrap_err();
    assert_eq!(
        error,
        Error::Format(FormatError::BadChunk { tag: *b"LitT", error: TableError::BadCompression })
    );
    assert_eq!(error.message(), "Malformed chunk 'LitT': the table cannot be inflated");
}

#[test]
fn a_broken_table_does_not_fail_the_listing_of_another() {
    let bytes = file(vec![
        atoms(&["m"], true),
        StandardChunk::Unknown(RawChunk { id: *b"LitT", data: vec![0, 0, 0, 9, 1, 2, 3] }),
        StandardChunk::Unknown(RawChunk { id: *b"ExpT", data: vec![0, 0, 0, 9] }),
        imports(&[(1, 1, 0)]),
    ]);
    assert_eq!(dump_atom_table(&bytes), Ok(vec!["[0] m".to_string()]));
    assert_eq!(dump_import_table(&bytes), Ok(vec!["[0] m:m/0".to_string()]));
}

#[test]
fn lines_are_written_as_the_listings_show_them() {
    assert_eq!(render_entry(0, "ok"), "[0] ok");
    assert_eq!(render_entry(12, ""), "[12] ");
    assert_eq!(render_entry(usize::MAX, "x"), format!("[{}] x", usize::MAX));
    assert_eq!(render_import(3, "lists", "map", 2), "[3] lists:map/2");
    assert_eq!(list_atoms(&table(&["x", "y"])), vec!["[0] x".to_string(), "[1] y".to_string()]);
}

#[test]
fn every_error_has_its_message() {
    let cases: Vec<(Error, &str)> = vec![
        (Error::Format(FormatError::ShortHeader), "The input is shorter than a BEAM header"),
        (Error::Format(FormatError::BadMagic), "Unexpected magic number: expected 'FOR1'"),
        (Error::Format(FormatError::BadFormType), "Unexpected form type: expected 'BEAM'"),
        (Error::Format(FormatError::BadLength), "The declared length does not fit the input"),
        (Error::Format(FormatError::TruncatedChunk { offset: 1024 }), "Truncated chunk at offset 1024"),
        (Error::Format(FormatError::NoAtomChunk), "Neither 'Atom' nor 'AtU8' chunk is found"),
        (Error::Format(FormatError::NoSuchChunk { tag: *b"LitT" }), "No such chunk: 'LitT'"),
        (
            Error::Format(FormatError::BadChunk { tag: *b"AtU8", error: TableError::ShortTable }),
            "Malformed chunk 'AtU8': the table ends before its declared entries do",
        ),
        (
            Error::Format(FormatError::BadChunk { tag: *b"Atom", error: TableError::LongTable }),
            "Malformed chunk 'Atom': the table goes on after its declared entries",
        ),
        (
            Error::Format(FormatError::BadChunk {
                tag: *b"AtU8",
                error: TableError::BadName { index: 30 },
            }),
            "Malformed chunk 'AtU8': invalid UTF-8 in the name of atom 30",
        ),
        (
            Error::Format(FormatError::BadChunk { tag: *b"LitT", error: TableError::BadCompression }),
            "Malformed chunk 'LitT': the table cannot be inflated",
        ),
        (
            Error::Format(FormatError::BadChunk { tag: *b"LitT", error: TableError::SizeMismatch }),
            "Malformed chunk 'LitT': the inflated table is not of the declared size",
        ),
        (
            Error::Resolution(ResolutionError::InvalidAtomNumber { number: 0, table_size: 7 }),
            "Invalid atom number: 0, table_size=7",
        ),
        (
            Error::Resolution(ResolutionError::OutOfRange { table_size: 5, index: 7 }),
            "Out of the atom table range: table_size=5, index=7",
        ),
        (
            Error::TermDecode { index: 2, reason: "unknown tag 255".to_string() },
            "Cannot decode literal 2: unknown tag 255",
        ),
    ];
    for (error, message) in cases {
        assert_eq!(error.message(), message);
    }
    assert_eq!(TableError::SizeMismatch.message(), "the inflated table is not of the declared size");
    assert_eq!(TableError::BadName { index: 4 }.message(), "invalid UTF-8 in the name of atom 4");
}
