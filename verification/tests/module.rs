use wasm_fuel::{Export, ExternKind, Func, FuncType, Import, Module, ValType};

fn module() -> Module {
    Module {
        types: vec![
            FuncType {
                params: vec![ValType::I32, ValType::I32],
                results: vec![ValType::I32],
            },
            FuncType {
                params: vec![],
                results: vec![],
            },
        ],
        imports: vec![Import {
            module: "env".to_string(),
            name: "log".to_string(),
            kind: ExternKind::Func,
            type_index: Some(1),
        }],
        funcs: vec![Func {
            type_index: 0,
            locals: vec![ValType::I64],
            body: vec![0x0B],
        }],
        exports: vec![
            Export {
                name: "add".to_string(),
                kind: ExternKind::Func,
                index: 1,
            },
            Export {
                name: "mem".to_string(),
                kind: ExternKind::Memory,
                index: 0,
            },
        ],
        start: None,
        skipped_sections: vec![5],
        custom_sections: vec!["name".to_string()],
    }
}

#[test]
fn value_types_decode() {
    assert_eq!(ValType::from_byte(0x7F), Some(ValType::I32));
    assert_eq!(ValType::from_byte(0x7C), Some(ValType::F64));
    assert_eq!(ValType::from_byte(0x40), None);
    assert!(ValType::I64.is_integer());
    assert!(!ValType::F32.is_integer());
    assert_eq!(ValType::I32.to_string(), "i32");
}

#[test]
fn signatures_display_readably() {
    let signature = FuncType {
        params: vec![ValType::I32, ValType::I64],
        results: vec![ValType::I32],
    };
    assert_eq!(signature.to_string(), "(i32, i64) -> i32");

    let void = FuncType {
        params: vec![],
        results: vec![],
    };
    assert_eq!(void.to_string(), "() -> ()");
}

#[test]
fn function_indices_account_for_imports() {
    let m = module();
    assert_eq!(m.imported_func_count(), 1);
    assert_eq!(m.func_count(), 2);
    assert!(m.is_imported_func(0));
    assert!(!m.is_imported_func(1));
    // Index 0 is the import, so it has no body here.
    assert!(m.local_func(0).is_none());
    assert_eq!(m.local_func(1).unwrap().type_index, 0);
    assert!(m.local_func(2).is_none());
}

#[test]
fn signatures_resolve_for_imports_and_locals() {
    let m = module();
    assert_eq!(m.func_type(0).unwrap().to_string(), "() -> ()");
    assert_eq!(m.func_type(1).unwrap().to_string(), "(i32, i32) -> i32");
    assert!(m.func_type(9).is_none());
}

#[test]
fn exports_resolve_by_name_and_kind() {
    let m = module();
    assert_eq!(m.export_func("add"), Some(1));
    assert_eq!(m.export_func("mem"), None, "a memory is not a function");
    assert_eq!(m.export_func("nope"), None);
    assert_eq!(
        m.describe_exports(),
        vec![
            "func add: (i32, i32) -> i32".to_string(),
            "memory mem: #0".to_string()
        ]
    );
}

#[test]
fn extern_kinds_decode() {
    assert_eq!(ExternKind::from_byte(0x00), Some(ExternKind::Func));
    assert_eq!(ExternKind::from_byte(0x03), Some(ExternKind::Global));
    assert_eq!(ExternKind::from_byte(0x04), None);
    assert_eq!(ExternKind::Memory.name(), "memory");
}

#[test]
fn every_value_type_and_kind_has_its_byte_and_name() {
    let types = [
        (0x7F, ValType::I32, "i32", true),
        (0x7E, ValType::I64, "i64", true),
        (0x7D, ValType::F32, "f32", false),
        (0x7C, ValType::F64, "f64", false),
    ];
    for (byte, ty, name, integer) in types {
        assert_eq!(ValType::from_byte(byte), Some(ty));
        assert_eq!(ty.name(), name);
        assert_eq!(ty.to_string(), name);
        assert_eq!(ty.is_integer(), integer);
    }
    assert_eq!((0..=255u8).filter(|b| ValType::from_byte(*b).is_some()).count(), 4);
    let kinds = [
        (0x00, ExternKind::Func, "func"),
        (0x01, ExternKind::Table, "table"),
        (0x02, ExternKind::Memory, "memory"),
        (0x03, ExternKind::Global, "global"),
    ];
    for (byte, kind, name) in kinds {
        assert_eq!(ExternKind::from_byte(byte), Some(kind));
        assert_eq!(kind.name(), name);
    }
    assert_eq!((0..=255u8).filter(|b| ExternKind::from_byte(*b).is_some()).count(), 4);
}

#[test]
fn several_results_stand_in_parentheses() {
    let ty = FuncType {
        params: vec![ValType::F64],
        results: vec![ValType::I32, ValType::F32, ValType::I64],
    };
    assert_eq!(ty.to_string(), "(f64) -> (i32, f32, i64)");
}

#[test]
fn imports_of_other_kinds_take_no_function_index() {
    let mut m = module();
    m.imports.insert(
        0,
        Import {
            module: "env".to_string(),
            name: "memory".to_string(),
            kind: ExternKind::Memory,
            type_index: None,
        },
    );
    m.imports.push(Import {
        module: "env".to_string(),
        name: "add".to_string(),
        kind: ExternKind::Func,
        type_index: Some(0),
    });
    m.imports.push(Import {
        module: "env".to_string(),
        name: "lost".to_string(),
        kind: ExternKind::Func,
        type_index: Some(7),
    });
    assert_eq!(m.imported_func_count(), 3);
    assert_eq!(m.func_count(), 4);
    assert_eq!(m.func_type(0).unwrap().to_string(), "() -> ()");
    assert_eq!(m.func_type(1).unwrap().to_string(), "(i32, i32) -> i32");
    assert!(m.func_type(2).is_none());
    assert_eq!(m.func_type(3).unwrap().to_string(), "(i32, i32) -> i32");
    assert!(m.is_imported_func(2));
    assert!(!m.is_imported_func(3));
    assert_eq!(m.local_func(3).unwrap().body, vec![0x0B]);
}

#[test]
fn the_first_function_export_of_a_name_decides() {
    let mut m = module();
    for (kind, index) in [(ExternKind::Global, 4), (ExternKind::Func, 5), (ExternKind::Func, 6)] {
        m.exports.push(Export {
            name: "twice".to_string(),
            kind,
            index,
        });
    }
    assert_eq!(m.export_func("twice"), Some(5));
    assert_eq!(m.export_func("twic"), None);
    assert_eq!(m.export_func("twicE"), None);
}

#[test]
fn exports_without_a_signature_are_described_by_index() {
    let m = Module {
        exports: vec![
            Export {
                name: "f".to_string(),
                kind: ExternKind::Func,
                index: 4_294_967_295,
            },
            Export {
                name: "t".to_string(),
                kind: ExternKind::Table,
                index: 10,
            },
            Export {
                name: "g".to_string(),
                kind: ExternKind::Global,
                index: 907,
            },
        ],
        ..Module::default()
    };
    assert_eq!(
        m.describe_exports(),
        vec!["func f: #4294967295", "table t: #10", "global g: #907"]
    );
}

#[test]
fn the_default_module_is_empty() {
    let m = Module::default();
    assert_eq!(m.func_count(), 0);
    assert!(m.describe_exports().is_empty());
    assert_eq!(m.start, None);
    assert!(m.types.is_empty() && m.imports.is_empty() && m.funcs.is_empty());
    assert!(m.skipped_sections.is_empty() && m.custom_sections.is_empty());
}
