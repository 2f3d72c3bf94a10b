use hack_assembler::symtab::{BindError, SymbolTable};

#[test]
fn has_initial_symbols() {
    let table = SymbolTable::new();
    assert!(table.contains("SP"));
    assert_eq!(Some(0), table.resolve("SP"));
}

#[test]
fn does_not_contain_missing_symbol() {
    let table = SymbolTable::new();
    assert!(!table.contains("something"));
}

#[test]
fn resolves_added_symbol() {
    let mut table = SymbolTable::new();
    assert_eq!(Ok(42), table.bind("something", 42));
    assert!(table.contains("something"));
    assert_eq!(Some(42), table.resolve("something"));
}

#[test]
fn is_case_sensitive() {
    let mut table = SymbolTable::new();
    assert_eq!(Ok(1337), table.bind("lowercase", 1337));
    assert!(!table.contains("LOWERCASE"));
}

#[test]
fn bind_to_existing_is_error() {
    let mut table = SymbolTable::new();
    assert_eq!(
        Err(BindError::AlreadyBound { symbol: "SP".to_string() }),
        table.bind("SP", 42)
    );
}

#[test]
fn resolve_or_bind() {
    let mut table = SymbolTable::new();
    table.bind("A", 1).ok();
    assert_eq!(Ok(1), table.resolve_or_bind("A"));
    assert_eq!(Ok(16), table.resolve_or_bind("B"));
    assert_eq!(Ok(17), table.resolve_or_bind("C"));
    for address in 18..u16::MAX {
        table.resolve_or_bind(format!("X{}", address).as_str()).ok();
    }
    assert_eq!(Err(BindError::TooManyBindings), table.resolve_or_bind("Z"));
}

#[test]
fn all_predefined_bindings_present() {
    let table = SymbolTable::new();
    for (name, address) in [
        ("R0", 0u16),
        ("R1", 1),
        ("R2", 2),
        ("R3", 3),
        ("R4", 4),
        ("R5", 5),
        ("R6", 6),
        ("R7", 7),
        ("R8", 8),
        ("R9", 9),
        ("R10", 10),
        ("R11", 11),
        ("R12", 12),
        ("R13", 13),
        ("R14", 14),
        ("R15", 15),
        ("SP", 0),
        ("LCL", 1),
        ("ARG", 2),
        ("THIS", 3),
        ("THAT", 4),
        ("SCREEN", 16384),
        ("KBD", 24576),
    ]
    .iter()
    {
        assert_eq!(Some(*address), table.resolve(name));
    }
}

#[test]
fn first_reference_allocation_is_monotonic() {
    let mut table = SymbolTable::new();
    assert_eq!(Ok(16), table.resolve_or_bind("X"));
    assert_eq!(Ok(17), table.resolve_or_bind("Y"));
    assert_eq!(Ok(16), table.resolve_or_bind("X"));
    assert_eq!(Some(16), table.resolve("X"));
    assert_eq!(Some(17), table.resolve("Y"));
}

#[test]
fn resolve_queries_exact_case() {
    let mut table = SymbolTable::new();
    assert_eq!(Ok(16), table.resolve_or_bind("var"));
    assert_eq!(None, table.resolve("VAR"));
    assert_eq!(None, table.resolve("Var"));
}

#[test]
fn bind_error_messages() {
    assert_eq!(
        "Unable to rebind symbol SP",
        BindError::AlreadyBound { symbol: "SP".to_string() }.message()
    );
    assert_eq!("Too many bindings", BindError::TooManyBindings.message());
}
