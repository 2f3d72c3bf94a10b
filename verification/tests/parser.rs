use hack_assembler::inst::Inst;
use hack_assembler::parser::{collect_labels, label_name, parse_inst, preprocess, ParseError};
use hack_assembler::symtab::{BindError, SymbolTable};

#[test]
fn whitespaces_trimmed() {
    assert_eq!(vec!["a", "b", "cd"], preprocess(" a\t \n\t b\r\n c d "));
}

#[test]
fn comments_removed() {
    assert_eq!(vec!["b"], preprocess("// x\n\t b // y\r\n // c d"))
}

#[test]
fn label_detected() {
    assert_eq!(None, label_name("not-a-label"));
    assert_eq!(Some("label".to_string()), label_name("(label)"));
}

#[test]
fn labels_collected() {
    let mut table = SymbolTable::new();
    let lines = preprocess("(a)\nb\nc\n \n(d)\ne");
    collect_labels(&lines, &mut table).unwrap();
    assert_eq!(Some(0), table.resolve("a"));
    assert_eq!(Some(2), table.resolve("d"));
}

#[test]
fn parse_a_inst() {
    let mut table = SymbolTable::new();
    assert_eq!(Ok(Inst::AInst { address: 42 }), parse_inst("@42", &mut table));
    assert_eq!(Err(ParseError::InvalidAddress), parse_inst("@70000", &mut table));
    table.bind("X", 42).ok();
    assert_eq!(Ok(Inst::AInst { address: 42 }), parse_inst("@X", &mut table));
    assert_eq!(Ok(Inst::AInst { address: 16 }), parse_inst("@Y", &mut table));
}

#[test]
fn parse_c_inst() {
    let mut table = SymbolTable::new();
    assert_eq!(
        Ok(Inst::CInst {
            comp: "A".to_string(),
            dest: None,
            jump: None,
        }),
        parse_inst("A", &mut table)
    );
    assert_eq!(
        Ok(Inst::CInst {
            comp: "1".to_string(),
            dest: Some("M".to_string()),
            jump: None,
        }),
        parse_inst("M = 1", &mut table)
    );
    assert_eq!(
        Ok(Inst::CInst {
            comp: "D".to_string(),
            dest: None,
            jump: Some("JMP".to_string()),
        }),
        parse_inst("D ; JMP", &mut table)
    );
}

#[test]
fn parse_unknown_inst() {
    let mut table = SymbolTable::new();
    assert_eq!(
        Err(ParseError::UnknownInst(";=;=".to_string())),
        parse_inst(";=;=", &mut table)
    );
}

#[test]
fn comment_marker_found_after_whitespace_removal() {
    // whitespace is stripped first, so `/ /` becomes a comment marker
    assert_eq!(vec!["a"], preprocess("a / / b"));
    assert_eq!(vec!["ab", "x"], preprocess("a b//c d\n\n x "));
}

#[test]
fn label_must_be_whole_line() {
    assert_eq!(Some("a1._$x".to_string()), label_name("(a1._$x)"));
    assert_eq!(None, label_name("()"));
    assert_eq!(None, label_name("(9a)"));
    assert_eq!(None, label_name("x(a)y"));
    assert_eq!(None, label_name("(a)b"));
}

#[test]
fn parse_a_inst_fifteen_bit_boundary() {
    let mut table = SymbolTable::new();
    assert_eq!(Ok(Inst::AInst { address: 32767 }), parse_inst("@32767", &mut table));
    assert_eq!(Err(ParseError::InvalidAddress), parse_inst("@32768", &mut table));
    assert_eq!(Ok(Inst::AInst { address: 0 }), parse_inst("@0000", &mut table));
}

#[test]
fn parse_c_inst_full_shape() {
    let mut table = SymbolTable::new();
    assert_eq!(
        Ok(Inst::CInst {
            comp: "M+1".to_string(),
            dest: Some("AMD".to_string()),
            jump: Some("JLT".to_string()),
        }),
        parse_inst("AMD=M+1;JLT", &mut table)
    );
    assert_eq!(
        Err(ParseError::UnknownInst("D;JM".to_string())),
        parse_inst("D;JM", &mut table)
    );
    assert_eq!(
        Err(ParseError::UnknownInst("D;JMPX".to_string())),
        parse_inst("D;JMPX", &mut table)
    );
    assert_eq!(
        Err(ParseError::UnknownInst("=1".to_string())),
        parse_inst("=1", &mut table)
    );
    assert_eq!(
        Err(ParseError::UnknownInst("@".to_string())),
        parse_inst("@", &mut table)
    );
    assert_eq!(
        Err(ParseError::UnknownInst("@1a".to_string())),
        parse_inst("@1a", &mut table)
    );
    assert_eq!(
        Err(ParseError::UnknownInst("@ 42".to_string())),
        parse_inst("@ 42", &mut table)
    );
}

#[test]
fn parse_error_messages() {
    assert_eq!("unable to parse address", ParseError::InvalidAddress.message());
    assert_eq!(
        "unknown instruction: ;=;=",
        ParseError::UnknownInst(";=;=".to_string()).message()
    );
    assert_eq!(
        "unable to bind symbol to address: Too many bindings",
        ParseError::BindError(BindError::TooManyBindings).message()
    );
}

#[test]
fn duplicate_label_stops_collection() {
    let mut table = SymbolTable::new();
    let lines = preprocess("(a)\nb\n(a)\nc");
    assert_eq!(
        Err(BindError::AlreadyBound { symbol: "a".to_string() }),
        collect_labels(&lines, &mut table)
    );
}
