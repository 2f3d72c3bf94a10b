//! Encoder: turns a decoded instruction into its 16-bit machine word.
//!
//! The computation, destination and jump mnemonics are mapped to their
//! bit patterns through fixed tables; a mnemonic without a table entry
//! is a hard error naming the failing field.

use vstd::prelude::*;

verus! {

use crate::inst::Inst;
use vstd::string::StringExecFns;

/// Which table lookup failed, with the offending mnemonic.
#[derive(Debug, PartialEq, Eq)]
pub enum MissInfo {
    Comp(String),
    Dest(String),
    Jump(String),
}

/// Error raised by the encoder.
#[derive(Debug, PartialEq, Eq)]
pub enum CompileError {
    LookupMiss(MissInfo),
}

/// Model-level counterpart of [`MissInfo`], over character sequences.
pub enum CodeMiss {
    Comp(Seq<char>),
    Dest(Seq<char>),
    Jump(Seq<char>),
}

/// The fixed computation table: the `a` bit and the six `c` bits as one
/// 7-bit field, keyed by the exact mnemonic.
pub open spec fn comp_code(s: Seq<char>) -> Option<u16> {
    if s == "0"@ {
        Some(0b0101010u16)
    } else if s == "1"@ {
        Some(0b0111111u16)
    } else if s == "-1"@ {
        Some(0b0111010u16)
    } else if s == "D"@ {
        Some(0b0001100u16)
    } else if s == "A"@ {
        Some(0b0110000u16)
    } else if s == "!D"@ {
        Some(0b0001101u16)
    } else if s == "!A"@ {
        Some(0b0110001u16)
    } else if s == "-D"@ {
        Some(0b0001111u16)
    } else if s == "-A"@ {
        Some(0b0110011u16)
    } else if s == "D+1"@ {
        Some(0b0011111u16)
    } else if s == "A+1"@ {
        Some(0b0110111u16)
    } else if s == "D-1"@ {
        Some(0b0001110u16)
    } else if s == "A-1"@ {
        Some(0b0110010u16)
    } else if s == "D+A"@ {
        Some(0b0000010u16)
    } else if s == "D-A"@ {
        Some(0b0010011u16)
    } else if s == "A-D"@ {
        Some(0b0000111u16)
    } else if s == "D&A"@ {
        Some(0b0000000u16)
    } else if s == "D|A"@ {
        Some(0b0010101u16)
    } else if s == "M"@ {
        Some(0b1110000u16)
    } else if s == "!M"@ {
        Some(0b1110001u16)
    } else if s == "-M"@ {
        Some(0b1110011u16)
    } else if s == "M+1"@ {
        Some(0b1110111u16)
    } else if s == "M-1"@ {
        Some(0b1110010u16)
    } else if s == "D+M"@ {
        Some(0b1000010u16)
    } else if s == "D-M"@ {
        Some(0b1010011u16)
    } else if s == "M-D"@ {
        Some(0b1000111u16)
    } else if s == "D&M"@ {
        Some(0b1000000u16)
    } else if s == "D|M"@ {
        Some(0b1010101u16)
    } else {
        None
    }
}

/// The fixed destination table: the three `d` bits.
pub open spec fn dest_code(s: Seq<char>) -> Option<u16> {
    if s == "M"@ {
        Some(0b001u16)
    } else if s == "D"@ {
        Some(0b010u16)
    } else if s == "MD"@ {
        Some(0b011u16)
    } else if s == "A"@ {
        Some(0b100u16)
    } else if s == "AM"@ {
        Some(0b101u16)
    } else if s == "AD"@ {
        Some(0b110u16)
    } else if s == "AMD"@ {
        Some(0b111u16)
    } else {
        None
    }
}

/// The fixed jump table: the three `j` bits.
pub open spec fn jump_code(s: Seq<char>) -> Option<u16> {
    if s == "JGT"@ {
        Some(0b001u16)
    } else if s == "JEQ"@ {
        Some(0b010u16)
    } else if s == "JGE"@ {
        Some(0b011u16)
    } else if s == "JLT"@ {
        Some(0b100u16)
    } else if s == "JNE"@ {
        Some(0b101u16)
    } else if s == "JLE"@ {
        Some(0b110u16)
    } else if s == "JMP"@ {
        Some(0b111u16)
    } else {
        None
    }
}

/// The word for an address load: tag bit 0, the address in the low 15
/// bits.
pub open spec fn a_word(address: u16) -> u16 {
    address & 0x7fff
}

/// The word for a compute instruction: the top three bits `111`, then
/// the 7-bit computation field, 3 destination bits, 3 jump bits.
pub open spec fn c_word(c: u16, d: u16, j: u16) -> u16 {
    (0xE000 + c * 64 + d * 8 + j) as u16
}

/// The encoding of a compute instruction's fields, or the first failing
/// table lookup. A missing destination or jump clause contributes zero
/// bits.
pub open spec fn encode_c(comp: Seq<char>, dest: Option<Seq<char>>, jump: Option<Seq<char>>) -> Result<
    u16,
    CodeMiss,
> {
    if comp_code(comp) is None {
        Err(CodeMiss::Comp(comp))
    } else if dest is Some && dest_code(dest->0) is None {
        Err(CodeMiss::Dest(dest->0))
    } else if jump is Some && jump_code(jump->0) is None {
        Err(CodeMiss::Jump(jump->0))
    } else {
        let c = comp_code(comp)->0;
        let d = if dest is Some {
            dest_code(dest->0)->0
        } else {
            0u16
        };
        let j = if jump is Some {
            jump_code(jump->0)->0
        } else {
            0u16
        };
        Ok(c_word(c, d, j))
    }
}

/// Whether an exec-level miss report matches the model-level one.
pub open spec fn miss_info_is(mi: MissInfo, m: CodeMiss) -> bool {
    match (mi, m) {
        (MissInfo::Comp(t), CodeMiss::Comp(s)) => t@ == s,
        (MissInfo::Dest(t), CodeMiss::Dest(s)) => t@ == s,
        (MissInfo::Jump(t), CodeMiss::Jump(s)) => t@ == s,
        _ => false,
    }
}

/// Character-by-character string equality.
fn str_eq(a: &str, b: &str) -> (r: bool)
    ensures
        r == (a@ == b@),
{
    let n = a.unicode_len();
    if n != b.unicode_len() {
        return false;
    }
    let mut i: usize = 0;
    while i < n
        invariant
            i <= n,
            n == a@.len(),
            n == b@.len(),
            forall|k: int| 0 <= k < i ==> a@[k] == b@[k],
        decreases n - i,
    {
        if a.get_char(i) != b.get_char(i) {
            return false;
        }
        i = i + 1;
    }
    proof {
        assert(a@ =~= b@);
    }
    true
}

/// The computation table, executable side.
fn comp_bits(s: &str) -> (r: Option<u16>)
    ensures
        r == comp_code(s@),
        r matches Some(c) ==> c <= 0x7f,
{
    if str_eq(s, "0") {
        Some(0b0101010)
    } else if str_eq(s, "1") {
        Some(0b0111111)
    } else if str_eq(s, "-1") {
        Some(0b0111010)
    } else if str_eq(s, "D") {
        Some(0b0001100)
    } else if str_eq(s, "A") {
        Some(0b0110000)
    } else if str_eq(s, "!D") {
        Some(0b0001101)
    } else if str_eq(s, "!A") {
        Some(0b0110001)
    } else if str_eq(s, "-D") {
        Some(0b0001111)
    } else if str_eq(s, "-A") {
        Some(0b0110011)
    } else if str_eq(s, "D+1") {
        Some(0b0011111)
    } else if str_eq(s, "A+1") {
        Some(0b0110111)
    } else if str_eq(s, "D-1") {
        Some(0b0001110)
    } else if str_eq(s, "A-1") {
        Some(0b0110010)
    } else if str_eq(s, "D+A") {
        Some(0b0000010)
    } else if str_eq(s, "D-A") {
        Some(0b0010011)
    } else if str_eq(s, "A-D") {
        Some(0b0000111)
    } else if str_eq(s, "D&A") {
        Some(0b0000000)
    } else if str_eq(s, "D|A") {
        Some(0b0010101)
    } else if str_eq(s, "M") {
        Some(0b1110000)
    } else if str_eq(s, "!M") {
        Some(0b1110001)
    } else if str_eq(s, "-M") {
        Some(0b1110011)
    } else if str_eq(s, "M+1") {
        Some(0b1110111)
    } else if str_eq(s, "M-1") {
        Some(0b1110010)
    } else if str_eq(s, "D+M") {
        Some(0b1000010)
    } else if str_eq(s, "D-M") {
        Some(0b1010011)
    } else if str_eq(s, "M-D") {
        Some(0b1000111)
    } else if str_eq(s, "D&M") {
        Some(0b1000000)
    } else if str_eq(s, "D|M") {
        Some(0b1010101)
    } else {
        None
    }
}

/// The destination table, executable side.
fn dest_bits(s: &str) -> (r: Option<u16>)
    ensures
        r == dest_code(s@),
        r matches Some(d) ==> d <= 0x7,
{
    if str_eq(s, "M") {
        Some(0b001)
    } else if str_eq(s, "D") {
        Some(0b010)
    } else if str_eq(s, "MD") {
        Some(0b011)
    } else if str_eq(s, "A") {
        Some(0b100)
    } else if str_eq(s, "AM") {
        Some(0b101)
    } else if str_eq(s, "AD") {
        Some(0b110)
    } else if str_eq(s, "AMD") {
        Some(0b111)
    } else {
        None
    }
}

/// The jump table, executable side.
fn jump_bits(s: &str) -> (r: Option<u16>)
    ensures
        r == jump_code(s@),
        r matches Some(j) ==> j <= 0x7,
{
    if str_eq(s, "JGT") {
        Some(0b001)
    } else if str_eq(s, "JEQ") {
        Some(0b010)
    } else if str_eq(s, "JGE") {
        Some(0b011)
    } else if str_eq(s, "JLT") {
        Some(0b100)
    } else if str_eq(s, "JNE") {
        Some(0b101)
    } else if str_eq(s, "JLE") {
        Some(0b110)
    } else if str_eq(s, "JMP") {
        Some(0b111)
    } else {
        None
    }
}

/// Encode one instruction as its 16-bit word, or report the first
/// mnemonic without a table entry, naming the failing field.
pub fn compile(inst: Inst) -> (r: Result<u16, CompileError>)
    ensures
        (match inst {
            Inst::AInst { address } => r == Ok::<u16, CompileError>(a_word(address)),
            Inst::CInst { comp, dest, jump } => {
                match encode_c(comp@, dest.deep_view(), jump.deep_view()) {
                    Ok(w) => r == Ok::<u16, CompileError>(w),
                    Err(m) => r matches Err(CompileError::LookupMiss(mi)) && miss_info_is(mi, m),
                }
            },
        }),
{
    match inst {
        Inst::AInst { address } => Ok(address & 0x7fff),
        Inst::CInst { comp, dest, jump } => {
            let c = match comp_bits(comp.as_str()) {
                Some(c) => c,
                None => {
                    return Err(CompileError::LookupMiss(MissInfo::Comp(comp)));
                },
            };
            let d = match &dest {
                None => 0u16,
                Some(ds) => match dest_bits(ds.as_str()) {
                    Some(d) => d,
                    None => {
                        return Err(CompileError::LookupMiss(MissInfo::Dest(dest.unwrap())));
                    },
                },
            };
            let j = match &jump {
                None => 0u16,
                Some(js) => match jump_bits(js.as_str()) {
                    Some(j) => j,
                    None => {
                        return Err(CompileError::LookupMiss(MissInfo::Jump(jump.unwrap())));
                    },
                },
            };
            Ok(0xE000 + c * 64 + d * 8 + j)
        },
    }
}


/// The diagnostic text for a miss, at the model level.
pub open spec fn miss_message(mi: MissInfo) -> Seq<char> {
    match mi {
        MissInfo::Comp(c) => "computation `"@ + c@ + "'"@,
        MissInfo::Dest(d) => "destination `"@ + d@ + "'"@,
        MissInfo::Jump(j) => "jump specification `"@ + j@ + "'"@,
    }
}

/// The diagnostic text for an encoding error, at the model level.
pub open spec fn compile_error_message(e: CompileError) -> Seq<char> {
    match e {
        CompileError::LookupMiss(mi) => "Lookup table miss: "@ + miss_message(mi),
    }
}

impl MissInfo {
    /// The diagnostic text naming the failing field and mnemonic.
    pub fn message(&self) -> (r: String)
        ensures
            r@ == miss_message(*self),
    {
        match self {
            MissInfo::Comp(c) => {
                let mut m = "computation `".to_owned();
                m.append(c.as_str());
                m.append("'");
                m
            },
            MissInfo::Dest(d) => {
                let mut m = "destination `".to_owned();
                m.append(d.as_str());
                m.append("'");
                m
            },
            MissInfo::Jump(j) => {
                let mut m = "jump specification `".to_owned();
                m.append(j.as_str());
                m.append("'");
                m
            },
        }
    }
}

impl CompileError {
    /// The diagnostic text for this error.
    pub fn message(&self) -> (r: String)
        ensures
            r@ == compile_error_message(*self),
    {
        match self {
            CompileError::LookupMiss(mi) => {
                let mut m = "Lookup table miss: ".to_owned();
                let inner = mi.message();
                m.append(inner.as_str());
                m
            },
        }
    }
}

} // verus!
