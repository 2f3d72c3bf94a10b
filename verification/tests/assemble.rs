use hack_assembler::assemble::{assemble, AssembleError};
use hack_assembler::codegen::{CompileError, MissInfo};
use hack_assembler::parser::ParseError;
use hack_assembler::symtab::BindError;

#[test]
fn assembles_straight_line_program() {
    let text = "@2\nD=A // load the constant\n@3\nD=D+A\n@0\nM=D";
    assert_eq!(
        Ok(vec![
            0b0000000000000010,
            0b1110110000010000,
            0b0000000000000011,
            0b1110000010010000,
            0b0000000000000000,
            0b1110001100001000,
        ]),
        assemble(text)
    );
}

#[test]
fn assembles_labels_and_variables() {
    let text = "@i\nM=1\n(LOOP)\n@i\nM=M+1\n@LOOP\n0;JMP";
    assert_eq!(
        Ok(vec![
            0b0000000000010000,
            0b1110111111001000,
            0b0000000000010000,
            0b1111110111001000,
            0b0000000000000010,
            0b1110101010000111,
        ]),
        assemble(text)
    );
}

#[test]
fn empty_text_gives_no_words() {
    assert_eq!(Ok(vec![]), assemble(""));
    assert_eq!(Ok(vec![]), assemble("// nothing but comments\n   \n"));
}

#[test]
fn duplicate_label_is_reported() {
    assert_eq!(
        Err(AssembleError::Bind(BindError::AlreadyBound {
            symbol: "SP".to_string()
        })),
        assemble("(SP)\n@1")
    );
}

#[test]
fn oversized_literal_is_reported() {
    assert_eq!(
        Err(AssembleError::Parse(ParseError::InvalidAddress)),
        assemble("@70000")
    );
}

#[test]
fn unknown_line_is_reported() {
    assert_eq!(
        Err(AssembleError::Parse(ParseError::UnknownInst("foo".to_string()))),
        assemble("@1\nfoo\n@2")
    );
}

#[test]
fn table_miss_is_reported() {
    assert_eq!(
        Err(AssembleError::Compile(CompileError::LookupMiss(MissInfo::Comp(
            "AMD".to_string()
        )))),
        assemble("AMD")
    );
}

#[test]
fn error_messages_carry_context() {
    let e = assemble("AMD").unwrap_err();
    assert_eq!("Compilation error: Lookup table miss: computation `AMD'", e.message());
    let e = assemble("(SP)").unwrap_err();
    assert_eq!("Unable to collect labels: Unable to rebind symbol SP", e.message());
    let e = assemble("bar").unwrap_err();
    assert_eq!("Parse error: unknown instruction: bar", e.message());
}

#[test]
fn no_words_after_first_error() {
    // one bad line invalidates the whole run
    assert_eq!(
        Err(AssembleError::Parse(ParseError::UnknownInst("()".to_string()))),
        assemble("@1\n()\n@2")
    );
}
