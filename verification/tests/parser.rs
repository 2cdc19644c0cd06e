use wasm_fuel::leb::{read_u32, LebError};
use wasm_fuel::{parse, ExternKind, ParseError, ParseErrorKind, ValType};

/// `(module (func (export "id") (param i32) (result i32) local.get 0))`
/// assembled by hand, one byte per line group.
fn identity_module() -> Vec<u8> {
    vec![
        0x00, 0x61, 0x73, 0x6D, // magic "\0asm"
        0x01, 0x00, 0x00, 0x00, // version 1
        // type section: one type, (i32) -> i32
        0x01, 0x06, 0x01, 0x60, 0x01, 0x7F, 0x01, 0x7F,
        // function section: one function using type 0
        0x03, 0x02, 0x01, 0x00,
        // export section: "id" is function 0
        0x07, 0x06, 0x01, 0x02, 0x69, 0x64, 0x00, 0x00,
        // code section: one body, no locals, local.get 0, end
        0x0A, 0x06, 0x01, 0x04, 0x00, 0x20, 0x00, 0x0B,
    ]
}

/// The header, then `sections`.
fn with_header(sections: &[u8]) -> Vec<u8> {
    let mut bytes = identity_module()[..8].to_vec();
    bytes.extend_from_slice(sections);
    bytes
}

/// The failure of a module made of `sections`.
fn failure(sections: &[u8]) -> (usize, ParseErrorKind) {
    let err = parse(&with_header(sections)).unwrap_err();
    (err.offset, err.kind)
}

#[test]
fn parses_a_minimal_module() {
    let m = parse(&identity_module()).expect("module should parse");
    assert_eq!(m.types.len(), 1);
    assert_eq!(m.types[0].to_string(), "(i32) -> i32");
    assert_eq!(m.funcs.len(), 1);
    assert_eq!(m.funcs[0].locals.len(), 0);
    assert_eq!(m.funcs[0].body, vec![0x20, 0x00, 0x0B]);
    assert_eq!(m.export_func("id"), Some(0));
    assert_eq!(m.describe_exports(), vec!["func id: (i32) -> i32"]);
    assert_eq!(m.start, None);
}

#[test]
fn rejects_bad_headers() {
    assert_eq!(parse(b"").unwrap_err().kind, ParseErrorKind::UnexpectedEof);
    assert_eq!(
        parse(b"\0asm").unwrap_err().kind,
        ParseErrorKind::UnexpectedEof
    );
    assert_eq!(
        parse(b"NOPE\x01\0\0\0").unwrap_err().kind,
        ParseErrorKind::NotWasm
    );
    let mut bytes = identity_module();
    bytes[4] = 0x02;
    assert_eq!(
        parse(&bytes).unwrap_err().kind,
        ParseErrorKind::UnsupportedVersion(2)
    );
}

#[test]
fn rejects_sections_out_of_order() {
    let mut bytes = identity_module()[..8].to_vec();
    // export section (7) before the type section (1)
    bytes.extend_from_slice(&[0x07, 0x01, 0x00]);
    bytes.extend_from_slice(&[0x01, 0x01, 0x00]);
    assert_eq!(
        parse(&bytes).unwrap_err().kind,
        ParseErrorKind::SectionOutOfOrder {
            previous: 7,
            found: 1
        }
    );
}

#[test]
fn rejects_a_lying_section_size() {
    let mut bytes = identity_module();
    // The type section really needs 6 bytes; claim it needs 7.
    bytes[9] = 0x07;
    let err = parse(&bytes).unwrap_err();
    assert_eq!(err.kind, ParseErrorKind::SectionSizeMismatch(1));
}

#[test]
fn rejects_unknown_section_ids() {
    let mut bytes = identity_module()[..8].to_vec();
    bytes.extend_from_slice(&[0x0D, 0x00]);
    assert_eq!(
        parse(&bytes).unwrap_err().kind,
        ParseErrorKind::UnknownSectionId(13)
    );
}

#[test]
fn rejects_a_body_without_end() {
    let mut bytes = identity_module();
    let last = bytes.len() - 1;
    bytes[last] = 0x1A; // drop, instead of end
    assert_eq!(parse(&bytes).unwrap_err().kind, ParseErrorKind::MissingEnd);
}

#[test]
fn rejects_mismatched_function_and_code_sections() {
    let mut bytes = identity_module();
    // Say there are two functions but keep a single body.
    bytes[18] = 0x02; // function section count
    bytes[19] = 0x00;
    bytes.insert(20, 0x00);
    bytes[17] = 0x03; // grow the declared section size
    let err = parse(&bytes).unwrap_err();
    assert_eq!(
        err.kind,
        ParseErrorKind::FunctionCodeMismatch {
            declared: 2,
            bodies: 1
        }
    );
}

#[test]
fn rejects_an_out_of_range_type_index() {
    let mut bytes = identity_module();
    bytes[19] = 0x05; // function section refers to type 5
    assert_eq!(
        parse(&bytes).unwrap_err().kind,
        ParseErrorKind::TypeIndexOutOfRange(5)
    );
}

#[test]
fn records_custom_and_skipped_sections() {
    let mut bytes = identity_module();
    // A custom section named "name" appended at the end.
    bytes.extend_from_slice(&[0x00, 0x05, 0x04, 0x6E, 0x61, 0x6D, 0x65]);
    // A memory section declaring one memory with min 1 page.
    let insert_at = 20; // right after the function section
    let memory = [0x05, 0x03, 0x01, 0x00, 0x01];
    bytes.splice(insert_at..insert_at, memory);
    let m = parse(&bytes).expect("module should still parse");
    assert_eq!(m.custom_sections, vec!["name".to_string()]);
    assert_eq!(m.skipped_sections, vec![5]);
}

#[test]
fn parses_imports_and_offsets_function_indices() {
    let bytes = vec![
        0x00, 0x61, 0x73, 0x6D, 0x01, 0x00, 0x00, 0x00,
        // type section: two types, () -> () and (i32) -> i32
        0x01, 0x09, 0x02, 0x60, 0x00, 0x00, 0x60, 0x01, 0x7F, 0x01, 0x7F,
        // import section: env.log as a function of type 0
        0x02, 0x0B, 0x01, 0x03, 0x65, 0x6E, 0x76, 0x03, 0x6C, 0x6F, 0x67, 0x00, 0x00,
        // function section: one local function of type 1
        0x03, 0x02, 0x01, 0x01,
        // code section: local.get 0, end
        0x0A, 0x06, 0x01, 0x04, 0x00, 0x20, 0x00, 0x0B,
    ];
    let m = parse(&bytes).expect("module should parse");
    assert_eq!(m.imports.len(), 1);
    assert_eq!(m.imports[0].module, "env");
    assert_eq!(m.imports[0].name, "log");
    assert_eq!(m.imported_func_count(), 1);
    assert_eq!(m.func_count(), 2);
    assert!(m.is_imported_func(0));
    assert_eq!(m.func_type(0).unwrap().to_string(), "() -> ()");
    assert_eq!(m.func_type(1).unwrap().to_string(), "(i32) -> i32");
}

#[test]
fn parses_locals() {
    let bytes = vec![
        0x00, 0x61, 0x73, 0x6D, 0x01, 0x00, 0x00, 0x00,
        0x01, 0x04, 0x01, 0x60, 0x00, 0x00, // type: () -> ()
        0x03, 0x02, 0x01, 0x00, // one function
        // code: two local groups (2 x i32, 1 x i64), then end
        0x0A, 0x08, 0x01, 0x06, 0x02, 0x02, 0x7F, 0x01, 0x7E, 0x0B,
    ];
    let m = parse(&bytes).expect("module should parse");
    assert_eq!(
        m.funcs[0].locals,
        vec![ValType::I32, ValType::I32, ValType::I64]
    );
    assert_eq!(m.funcs[0].body, vec![0x0B]);
}

#[test]
fn error_display_includes_the_offset() {
    let err = parse(b"NOPE\x01\0\0\0").unwrap_err();
    assert_eq!(err.to_string(), "at byte 0: not a WebAssembly module");
}

#[test]
fn header_faults_have_their_offsets() {
    assert_eq!(parse(b"\0as").unwrap_err().offset, 0);
    assert_eq!(parse(b"\0asm\x01\0").unwrap_err().offset, 4);
    let err = parse(b"\0asm\x01\x02\x03\x04").unwrap_err();
    assert_eq!(err.offset, 4);
    assert_eq!(err.kind, ParseErrorKind::UnsupportedVersion(0x0403_0201));
    assert_eq!(parse(&with_header(&[])), Ok(wasm_fuel::Module::default()));
}

#[test]
fn section_framing_faults() {
    assert_eq!(failure(&[0x0D, 0x00]), (8, ParseErrorKind::UnknownSectionId(13)));
    assert_eq!(failure(&[0x01]), (9, ParseErrorKind::Leb(LebError::UnexpectedEof)));
    assert_eq!(failure(&[0x01, 0x02, 0x00]), (10, ParseErrorKind::UnexpectedEof));
    assert_eq!(
        failure(&[0x04, 0x00, 0x00, 0x01, 0x00, 0x04, 0x00]),
        (13, ParseErrorKind::SectionOutOfOrder { previous: 4, found: 4 })
    );
    assert_eq!(
        failure(&[0x08, 0x02, 0x00, 0x00]),
        (8, ParseErrorKind::SectionSizeMismatch(8))
    );
    // The start section reads one byte more than it declares.
    assert_eq!(
        failure(&[0x08, 0x00, 0x00, 0x00]),
        (8, ParseErrorKind::SectionSizeMismatch(8))
    );
}

#[test]
fn custom_sections_keep_to_their_size() {
    // The name ends where the section ends, or before it.
    let m = parse(&with_header(&[0x00, 0x02, 0x01, 0x61, 0x00, 0x05, 0x01, 0x62, 1, 2, 3])).unwrap();
    assert_eq!(m.custom_sections, vec!["a", "b"]);
    // The name runs past the end of the section.
    assert_eq!(
        failure(&[0x00, 0x01, 0x02, 0x00, 0x00]),
        (8, ParseErrorKind::SectionSizeMismatch(0))
    );
}

#[test]
fn custom_sections_stand_anywhere() {
    let plain = identity_module();
    let expected = parse(&plain).unwrap();
    for cut in [8, 16, 20, 28, 36] {
        let mut bytes = plain[..cut].to_vec();
        bytes.extend_from_slice(&[0x00, 0x04, 0x01, 0x63, 0xFF, 0xFF]);
        bytes.extend_from_slice(&plain[cut..]);
        let m = parse(&bytes).unwrap();
        assert_eq!(m.custom_sections, vec!["c"]);
        assert_eq!(m.types, expected.types);
        assert_eq!(m.funcs, expected.funcs);
        assert_eq!(m.exports, expected.exports);
        assert_eq!(m.skipped_sections, expected.skipped_sections);
    }
}

#[test]
fn type_section_faults() {
    assert_eq!(failure(&[0x01, 0x02, 0x01, 0x61]), (11, ParseErrorKind::InvalidFuncType(0x61)));
    assert_eq!(
        failure(&[0x01, 0x04, 0x01, 0x60, 0x01, 0x40]),
        (13, ParseErrorKind::InvalidValType(0x40))
    );
    assert_eq!(failure(&[0x01, 0x02, 0x01, 0x60]), (12, ParseErrorKind::Leb(LebError::UnexpectedEof)));
    assert_eq!(failure(&[0x01, 0x03, 0x01, 0x60, 0x01]), (13, ParseErrorKind::UnexpectedEof));
}

#[test]
fn imports_of_every_kind() {
    let m = parse(&with_header(&[
        0x02, 0x1D, 0x05, // five imports
        0x01, 0x61, 0x01, 0x66, 0x00, 0x02, // function of type 2
        0x00, 0x01, 0x74, 0x01, 0x70, 0x00, 0x01, // table with a minimum
        0x00, 0x00, 0x02, 0x01, 0x01, 0x02, // memory with both bounds
        0x00, 0x00, 0x03, 0x7E, 0x01, // mutable global
        0x00, 0x00, 0x00, 0x00, // function of type 0
    ]));
    let m = m.unwrap();
    let kinds: Vec<ExternKind> = m.imports.iter().map(|i| i.kind).collect();
    assert_eq!(
        kinds,
        vec![
            ExternKind::Func,
            ExternKind::Table,
            ExternKind::Memory,
            ExternKind::Global,
            ExternKind::Func
        ]
    );
    assert_eq!(m.imports[0].module, "a");
    assert_eq!(m.imports[0].name, "f");
    assert_eq!(m.imports[0].type_index, Some(2));
    assert_eq!(m.imports[1].type_index, None);
    assert_eq!(m.imports[4].type_index, Some(0));
    assert_eq!(m.func_count(), 2);
    assert!(m.func_type(0).is_none());
}

#[test]
fn import_and_export_faults() {
    assert_eq!(
        failure(&[0x02, 0x04, 0x01, 0x00, 0x00, 0x04]),
        (13, ParseErrorKind::InvalidExternKind(4))
    );
    assert_eq!(
        failure(&[0x02, 0x05, 0x01, 0x00, 0x00, 0x02, 0x03]),
        (14, ParseErrorKind::InvalidLimits(3))
    );
    assert_eq!(
        failure(&[0x07, 0x03, 0x01, 0x00, 0xFF]),
        (12, ParseErrorKind::InvalidExternKind(0xFF))
    );
    assert_eq!(
        failure(&[0x07, 0x04, 0x01, 0x02, 0xC3, 0x28]),
        (12, ParseErrorKind::InvalidUtf8)
    );
    assert_eq!(failure(&[0x07, 0x02, 0x01, 0x05]), (12, ParseErrorKind::UnexpectedEof));
}

#[test]
fn names_are_utf_8() {
    let m = parse(&with_header(&[
        0x07, 0x08, 0x01, 0x04, 0xC3, 0xA9, 0xC2, 0xB5, 0x03, 0x07,
    ]))
    .unwrap();
    assert_eq!(m.exports[0].name, "\u{e9}\u{b5}");
    assert_eq!(m.describe_exports(), vec!["global \u{e9}\u{b5}: #7"]);
    assert_eq!(m.export_func("\u{e9}\u{b5}"), None);
}

#[test]
fn start_section_is_kept() {
    assert_eq!(parse(&with_header(&[0x08, 0x01, 0x07])).unwrap().start, Some(7));
}

#[test]
fn skipped_sections_are_recorded_in_order() {
    let m = parse(&with_header(&[
        0x04, 0x01, 0xFF, 0x05, 0x00, 0x06, 0x00, 0x09, 0x00, 0x0B, 0x02, 0x00, 0x00, 0x0C, 0x00,
    ]))
    .unwrap();
    assert_eq!(m.skipped_sections, vec![4, 5, 6, 9, 11, 12]);
}

#[test]
fn code_section_faults() {
    // One function of one type, then the given code section.
    let start = [0x01, 0x04, 0x01, 0x60, 0x00, 0x00, 0x03, 0x02, 0x01, 0x00];
    let fail = |code: &[u8]| {
        let mut sections = start.to_vec();
        sections.extend_from_slice(code);
        failure(&sections)
    };
    // The entry declares more bytes than there are.
    assert_eq!(fail(&[0x0A, 0x02, 0x01, 0x05]), (22, ParseErrorKind::UnexpectedEof));
    // The locals run past the entry.
    assert_eq!(
        fail(&[0x0A, 0x05, 0x01, 0x01, 0x01, 0x01, 0x7F]),
        (25, ParseErrorKind::UnexpectedEof)
    );
    // No instructions at all.
    assert_eq!(fail(&[0x0A, 0x03, 0x01, 0x01, 0x00]), (23, ParseErrorKind::MissingEnd));
    // One body more than declared.
    assert_eq!(
        fail(&[0x0A, 0x07, 0x02, 0x02, 0x00, 0x0B, 0x02, 0x00, 0x0B]),
        (25, ParseErrorKind::FunctionCodeMismatch { declared: 1, bodies: 2 })
    );
    // No code section.
    assert_eq!(
        fail(&[]),
        (18, ParseErrorKind::FunctionCodeMismatch { declared: 1, bodies: 0 })
    );
}

#[test]
fn locals_are_limited() {
    let module = |count: [u8; 3]| {
        let mut sections = vec![0x01, 0x04, 0x01, 0x60, 0x00, 0x00, 0x03, 0x02, 0x01, 0x00];
        sections.extend_from_slice(&[0x0A, 0x0A, 0x01, 0x08, 0x02, 0x01, 0x7F]);
        sections.extend_from_slice(&count);
        sections.extend_from_slice(&[0x7E, 0x0B]);
        with_header(&sections)
    };
    // 99 999 and 100 000 in LEB128.
    let m = parse(&module([0x9F, 0x8D, 0x06])).unwrap();
    assert_eq!(m.funcs[0].locals.len(), 100_000);
    assert_eq!(m.funcs[0].locals[0], ValType::I32);
    assert_eq!(m.funcs[0].locals[99_999], ValType::I64);
    let err = parse(&module([0xA0, 0x8D, 0x06])).unwrap_err();
    assert_eq!(err.kind, ParseErrorKind::TooManyLocals(100_001));
    assert_eq!(err.offset, 25);
}

#[test]
fn faults_lie_in_the_module() {
    let bytes = identity_module();
    for len in 0..bytes.len() {
        match parse(&bytes[..len]) {
            Ok(_) => assert!(len == 8 || len == 16),
            Err(err) => assert!(err.offset <= len),
        }
    }
}

#[test]
fn an_encoding_with_every_section_decodes() {
    let bytes = with_header(&[
        0x00, 0x02, 0x01, 0x63, // custom section "c"
        0x01, 0x05, 0x01, 0x60, 0x00, 0x01, 0x7E, // type () -> i64
        0x02, 0x05, 0x01, 0x00, 0x00, 0x00, 0x00, // function import of type 0
        0x03, 0x02, 0x01, 0x00, // one function of type 0
        0x05, 0x00, // skipped section
        0x07, 0x05, 0x01, 0x01, 0x66, 0x00, 0x01, // export "f"
        0x08, 0x01, 0x01, // start function 1
        0x0A, 0x08, 0x01, 0x06, 0x02, 0x01, 0x7F, 0x01, 0x7E, 0x0B, // two locals
        0x0B, 0x00, // skipped section
    ]);
    let m = parse(&bytes).unwrap();
    assert_eq!(m.custom_sections, vec!["c"]);
    assert_eq!(m.types[0].to_string(), "() -> i64");
    assert_eq!(m.imported_func_count(), 1);
    assert_eq!(m.skipped_sections, vec![5, 11]);
    assert_eq!(m.describe_exports(), vec!["func f: () -> i64"]);
    assert_eq!(m.start, Some(1));
    assert_eq!(m.funcs[0].locals, vec![ValType::I32, ValType::I64]);
    assert_eq!(m.local_func(1), Some(&m.funcs[0]));
}

#[test]
fn leb128_values_fit_32_bits() {
    let cases: [(&[u8], Result<u32, LebError>, usize); 9] = [
        (&[0x00], Ok(0), 1),
        (&[0x7F, 0xFF], Ok(127), 1),
        (&[0x80, 0x01], Ok(128), 2),
        (&[0xE5, 0x8E, 0x26], Ok(624_485), 3),
        (&[0x80, 0x80, 0x80, 0x80, 0x00], Ok(0), 5),
        (&[0xFF, 0xFF, 0xFF, 0xFF, 0x0F], Ok(u32::MAX), 5),
        (&[0xFF, 0xFF, 0xFF, 0xFF, 0x10], Err(LebError::Overflow), 0),
        (&[0x80, 0x80, 0x80, 0x80, 0x80, 0x00], Err(LebError::Overflow), 0),
        (&[0x80, 0x80], Err(LebError::UnexpectedEof), 0),
    ];
    for (bytes, value, end) in cases {
        let mut pos = 0;
        assert_eq!(read_u32(bytes, &mut pos), value);
        assert_eq!(pos, end);
    }
    let mut pos = 3;
    assert_eq!(read_u32(&[0x01], &mut pos), Err(LebError::UnexpectedEof));
    assert_eq!(pos, 3);
}

#[test]
fn leb128_faults_stop_the_module() {
    assert_eq!(
        failure(&[0x01, 0xFF, 0xFF, 0xFF, 0xFF, 0x1F]),
        (9, ParseErrorKind::Leb(LebError::Overflow))
    );
}

#[test]
fn every_fault_has_its_text() {
    let text = |kind: ParseErrorKind| kind.to_string();
    assert_eq!(text(ParseErrorKind::NotWasm), "not a WebAssembly module");
    assert_eq!(
        text(ParseErrorKind::UnsupportedVersion(20)),
        "unsupported binary format version 20"
    );
    assert_eq!(text(ParseErrorKind::UnexpectedEof), "unexpected end of module");
    assert_eq!(
        text(ParseErrorKind::Leb(LebError::Overflow)),
        LebError::Overflow.to_string()
    );
    assert_eq!(text(ParseErrorKind::UnknownSectionId(13)), "unknown section id 13");
    assert_eq!(
        text(ParseErrorKind::SectionOutOfOrder { previous: 7, found: 1 }),
        "section 1 appears after section 7, ids must increase"
    );
    assert_eq!(
        text(ParseErrorKind::SectionSizeMismatch(10)),
        "section 10 does not match its declared size"
    );
    assert_eq!(text(ParseErrorKind::InvalidValType(0x40)), "invalid value type byte 0x40");
    assert_eq!(
        text(ParseErrorKind::InvalidFuncType(0x05)),
        "expected a function type, found byte 0x05"
    );
    assert_eq!(text(ParseErrorKind::InvalidExternKind(0xFF)), "invalid extern kind 0xff");
    assert_eq!(text(ParseErrorKind::InvalidLimits(0x0A)), "invalid limits flags 0x0a");
    assert_eq!(text(ParseErrorKind::InvalidUtf8), "name is not valid UTF-8");
    assert_eq!(
        text(ParseErrorKind::FunctionCodeMismatch { declared: 2, bodies: 1 }),
        "function section declares 2 functions but the code section has 1 bodies"
    );
    assert_eq!(text(ParseErrorKind::TypeIndexOutOfRange(5)), "type index 5 is out of range");
    assert_eq!(
        text(ParseErrorKind::TooManyLocals(18_446_744_073_709_551_615)),
        "function declares 18446744073709551615 locals"
    );
    assert_eq!(text(ParseErrorKind::MissingEnd), "function body does not end with 'end'");
    let err = ParseError {
        offset: 1_203,
        kind: ParseErrorKind::InvalidValType(0),
    };
    assert_eq!(err.to_string(), "at byte 1203: invalid value type byte 0x00");
}

#[test]
fn a_squaring_module_lists_its_export() {
    let bytes = [
        0x00, 0x61, 0x73, 0x6D, 0x01, 0x00, 0x00, 0x00,
        0x01, 0x06, 0x01, 0x60, 0x01, 0x7F, 0x01, 0x7F,
        0x03, 0x02, 0x01, 0x00,
        0x07, 0x0A, 0x01, 0x06, 0x73, 0x71, 0x75, 0x61, 0x72, 0x65, 0x00, 0x00,
        0x0A, 0x09, 0x01, 0x07, 0x00, 0x20, 0x00, 0x20, 0x00, 0x6C, 0x0B,
    ];
    let m = parse(&bytes).unwrap();
    assert_eq!(m.describe_exports(), vec!["func square: (i32) -> i32"]);
}

#[test]
fn skipped_sections_bear_on_nothing_else() {
    let plain = identity_module();
    let expected = parse(&plain).unwrap();
    // Each skipped id where it stands in order, with content that means nothing.
    for (cut, id) in [(20, 4), (20, 5), (20, 6), (28, 9), (36, 11), (36, 12)] {
        let mut bytes = plain[..cut].to_vec();
        bytes.extend_from_slice(&[id, 0x03, 0xFF, 0xFF, 0xFF]);
        bytes.extend_from_slice(&plain[cut..]);
        let mut m = parse(&bytes).unwrap();
        assert_eq!(m.skipped_sections, vec![id]);
        assert_eq!(m.describe_exports(), expected.describe_exports());
        m.skipped_sections.clear();
        assert_eq!(m, expected);
    }
    // Out of order it is a defect.
    let mut bytes = plain[..28].to_vec();
    bytes.extend_from_slice(&[0x05, 0x00]);
    assert_eq!(
        parse(&bytes).unwrap_err().kind,
        ParseErrorKind::SectionOutOfOrder { previous: 7, found: 5 }
    );
}

#[test]
fn decoded_modules_are_well_formed() {
    let m = parse(&identity_module()).unwrap();
    for func in &m.funcs {
        assert!((func.type_index as usize) < m.types.len());
        assert_eq!(func.body.last(), Some(&0x0B));
    }
    for index in 0..m.func_count() {
        assert!(m.func_type(index).is_some());
    }
    assert!(m.func_type(m.func_count()).is_none());
}
