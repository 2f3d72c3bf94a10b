use hack_assembler::codegen::{compile, CompileError, MissInfo};
use hack_assembler::inst::Inst;

#[test]
fn compile_a_inst() {
    assert_eq!(Ok(42), compile(Inst::AInst { address: 42 }));
    assert_eq!(Ok(1), compile(Inst::AInst { address: (1 << 15) + 1 }));
}

#[test]
fn compile_c_inst() {
    assert_eq!(
        Ok(0b1111010101000000),
        compile(Inst::CInst {
            comp: "D|M".to_string(),
            dest: None,
            jump: None,
        })
    );
    assert_eq!(
        Ok(0b1110010101101011),
        compile(Inst::CInst {
            comp: "D|A".to_string(),
            dest: Some("AM".to_string()),
            jump: Some("JGE".to_string()),
        })
    );
}

#[test]
fn compile_errors() {
    assert_eq!(
        Err(CompileError::LookupMiss(MissInfo::Comp("UNKNOWN".to_string()))),
        compile(Inst::CInst {
            comp: "UNKNOWN".to_string(),
            dest: None,
            jump: None,
        })
    );
    assert_eq!(
        Err(CompileError::LookupMiss(MissInfo::Dest("UNKNOWN".to_string()))),
        compile(Inst::CInst {
            comp: "D|M".to_string(),
            dest: Some("UNKNOWN".to_string()),
            jump: None,
        })
    );
    assert_eq!(
        Err(CompileError::LookupMiss(MissInfo::Jump("UNKNOWN".to_string()))),
        compile(Inst::CInst {
            comp: "D|M".to_string(),
            dest: None,
            jump: Some("UNKNOWN".to_string()),
        })
    );
}

#[test]
fn compile_a_inst_masks_to_fifteen_bits() {
    assert_eq!(Ok(0), compile(Inst::AInst { address: 1 << 15 }));
    assert_eq!(Ok(0x7fff), compile(Inst::AInst { address: u16::MAX }));
    assert_eq!(Ok(0x7fff), compile(Inst::AInst { address: 0x7fff }));
}

#[test]
fn compile_every_destination() {
    let cases = [
        ("M", 0b001u16),
        ("D", 0b010),
        ("MD", 0b011),
        ("A", 0b100),
        ("AM", 0b101),
        ("AD", 0b110),
        ("AMD", 0b111),
    ];
    for (dest, bits) in cases.iter() {
        assert_eq!(
            Ok(0b1110101010000000 + (bits << 3)),
            compile(Inst::CInst {
                comp: "0".to_string(),
                dest: Some(dest.to_string()),
                jump: None,
            })
        );
    }
}

#[test]
fn compile_every_jump() {
    let cases = [
        ("JGT", 0b001u16),
        ("JEQ", 0b010),
        ("JGE", 0b011),
        ("JLT", 0b100),
        ("JNE", 0b101),
        ("JLE", 0b110),
        ("JMP", 0b111),
    ];
    for (jump, bits) in cases.iter() {
        assert_eq!(
            Ok(0b1110101010000000 + bits),
            compile(Inst::CInst {
                comp: "0".to_string(),
                dest: None,
                jump: Some(jump.to_string()),
            })
        );
    }
}

#[test]
fn miss_messages_name_field_and_mnemonic() {
    assert_eq!(
        "computation `UNKNOWN'",
        MissInfo::Comp("UNKNOWN".to_string()).message()
    );
    assert_eq!(
        "Lookup table miss: destination `XY'",
        CompileError::LookupMiss(MissInfo::Dest("XY".to_string())).message()
    );
    assert_eq!(
        "Lookup table miss: jump specification `JXX'",
        CompileError::LookupMiss(MissInfo::Jump("JXX".to_string())).message()
    );
}
