use sg::symbol::{is_lang_sym, resolve_lang_sym, select_lang_sym, ResolveError};

#[test]
fn language_symbols() {
    assert!(is_lang_sym("tree_sitter_rust"));
    assert!(is_lang_sym("tree_sitter_"));
    assert!(!is_lang_sym("tree_sitter_rust_external_scanner_scan"));
    assert!(!is_lang_sym("tree_sitter_ocaml_external_scanner_create"));
    assert!(!is_lang_sym("tree_sitter_ocaml_external_scanner_deserialize"));
    assert!(!is_lang_sym("tree_sitter_ocaml_external_scanner_destroy"));
    assert!(!is_lang_sym("tree_sitter_ocaml_external_scanner_reset"));
    assert!(!is_lang_sym("tree_sitter_ocaml_external_scanner_serialize"));
    assert!(!is_lang_sym("ts_language_version"));
    assert!(!is_lang_sym("tree_sitte"));
}

#[test]
fn first_language_symbol_wins() {
    let names = vec![
        Some("malloc".to_string()),
        None,
        Some("tree_sitter_ocaml_external_scanner_create".to_string()),
        Some("tree_sitter_ocaml".to_string()),
        Some("tree_sitter_ocaml_interface".to_string()),
    ];
    assert_eq!(select_lang_sym(&names), Some("tree_sitter_ocaml".to_string()));
}

#[test]
fn scanner_hooks_alone_give_nothing() {
    let names = vec![
        Some("tree_sitter_x_external_scanner_create".to_string()),
        Some("tree_sitter_x_external_scanner_scan".to_string()),
        None,
        Some("free".to_string()),
    ];
    assert_eq!(select_lang_sym(&names), None);
    assert_eq!(select_lang_sym(&Vec::new()), None);
}

#[test]
fn explicit_symbol_is_taken_unchecked() {
    let r = resolve_lang_sym(b"not an object", Some("my_entry".to_string()));
    assert_eq!(r.unwrap(), "my_entry");
}

#[test]
fn unreadable_module_is_a_parse_error() {
    let mut bytes = b"\x7fELF\x02\x01\x01".to_vec();
    bytes.resize(24, 0);
    let r = resolve_lang_sym(&bytes, None);
    assert!(matches!(r, Err(ResolveError::ModuleParse(_))));
}

#[test]
fn non_elf_module_is_a_parse_error() {
    let r = resolve_lang_sym(&[], None);
    assert!(matches!(r, Err(ResolveError::NotElf)));
    let r = resolve_lang_sym(&[0u8; 16], None);
    assert!(matches!(r, Err(ResolveError::NotElf)));
    let r = resolve_lang_sym(b"!<arch>\n", None);
    assert!(matches!(r, Err(ResolveError::NotElf)));
}

#[test]
fn elf_module_without_symbols_has_no_entry_point() {
    // A bare 64-bit ELF header: no program or section headers, so no
    // dynamic symbols.
    let mut bytes = vec![0x7f, b'E', b'L', b'F', 2, 1, 1, 0];
    bytes.resize(16, 0);
    bytes.extend_from_slice(&2u16.to_le_bytes()); // e_type
    bytes.extend_from_slice(&0x3eu16.to_le_bytes()); // e_machine
    bytes.extend_from_slice(&1u32.to_le_bytes()); // e_version
    bytes.extend_from_slice(&0u64.to_le_bytes()); // e_entry
    bytes.extend_from_slice(&0u64.to_le_bytes()); // e_phoff
    bytes.extend_from_slice(&0u64.to_le_bytes()); // e_shoff
    bytes.extend_from_slice(&0u32.to_le_bytes()); // e_flags
    bytes.extend_from_slice(&64u16.to_le_bytes()); // e_ehsize
    bytes.extend_from_slice(&56u16.to_le_bytes()); // e_phentsize
    bytes.extend_from_slice(&0u16.to_le_bytes()); // e_phnum
    bytes.extend_from_slice(&64u16.to_le_bytes()); // e_shentsize
    bytes.extend_from_slice(&0u16.to_le_bytes()); // e_shnum
    bytes.extend_from_slice(&0u16.to_le_bytes()); // e_shstrndx
    let r = resolve_lang_sym(&bytes, None);
    assert!(matches!(r, Err(ResolveError::NotFound)));
}
