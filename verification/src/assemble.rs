//! The whole translation pipeline: normalize the text, collect labels,
//! then parse and encode every instruction line in order. Translation
//! stops at the first error; no partial output is handed out.

use vstd::prelude::*;

verus! {

use crate::codegen::CodeMiss;
use crate::codegen::CompileError;
use crate::codegen::a_word;
use crate::codegen::compile;
use crate::codegen::encode_c;
use crate::codegen::miss_info_is;
use crate::parser::ParseError;
use crate::parser::a_num_value;
use crate::parser::a_symbol;
use crate::parser::collect_labels;
use crate::parser::collect_pass;
use crate::parser::find_char;
use crate::parser::clean_lines;
use crate::parser::is_a_num_line;
use crate::parser::is_a_sym_line;
use crate::parser::is_label_line;
use crate::parser::label_name;
use crate::parser::parse_c;
use crate::parser::parse_inst;
use crate::parser::preprocess;
use crate::parser::preprocess_spec;
use crate::parser::split_lines;
use crate::symtab::BindError;
use crate::symtab::SymbolTable;
use crate::symtab::predefined_symbols;
use crate::symtab::rob_addr;
use crate::symtab::rob_map;
use crate::symtab::rob_next;
use crate::symtab::rob_ok;
use vstd::string::StringExecFns;

/// Error that stops a translation run.
#[derive(Debug, PartialEq, Eq)]
pub enum AssembleError {
    /// The label pass hit a name that is already bound.
    Bind(BindError),
    /// A line could not be classified or carries a bad address.
    Parse(ParseError),
    /// A mnemonic has no bit-pattern entry.
    Compile(CompileError),
}

/// Model-level counterpart of [`AssembleError`].
pub enum AsmErr {
    BadAddress,
    Exhausted,
    Rebound(Seq<char>),
    Unknown(Seq<char>),
    Miss(CodeMiss),
}

/// Whether an exec-level error report matches the model-level one.
pub open spec fn assemble_err_is(ae: AssembleError, e: AsmErr) -> bool {
    match (ae, e) {
        (AssembleError::Parse(ParseError::InvalidAddress), AsmErr::BadAddress) => true,
        (
            AssembleError::Parse(ParseError::BindError(BindError::TooManyBindings)),
            AsmErr::Exhausted,
        ) => true,
        (AssembleError::Bind(BindError::AlreadyBound { symbol }), AsmErr::Rebound(s)) => symbol@
            == s,
        (AssembleError::Parse(ParseError::UnknownInst(t)), AsmErr::Unknown(s)) => t@ == s,
        (AssembleError::Compile(CompileError::LookupMiss(mi)), AsmErr::Miss(cm)) => miss_info_is(
            mi,
            cm,
        ),
        _ => false,
    }
}

/// One instruction line of the second pass: its machine word and the
/// table state after it, or the error that stops the run.
pub open spec fn line_word(l: Seq<char>, m: Map<Seq<char>, u16>, next: u16) -> Result<
    (u16, Map<Seq<char>, u16>, u16),
    AsmErr,
> {
    if is_a_num_line(l) {
        if a_num_value(l) <= 0x7fff {
            Ok((a_word(a_num_value(l) as u16), m, next))
        } else {
            Err(AsmErr::BadAddress)
        }
    } else if is_a_sym_line(l) {
        if rob_ok(m, next, a_symbol(l)) {
            Ok(
                (
                    a_word(rob_addr(m, next, a_symbol(l))),
                    rob_map(m, next, a_symbol(l)),
                    rob_next(m, next, a_symbol(l)),
                ),
            )
        } else {
            Err(AsmErr::Exhausted)
        }
    } else {
        match parse_c(l) {
            None => Err(AsmErr::Unknown(l)),
            Some(parts) => match encode_c(parts.0, parts.1, parts.2) {
                Ok(w) => Ok((w, m, next)),
                Err(cm) => Err(AsmErr::Miss(cm)),
            },
        }
    }
}

/// The instruction pass over the normalized lines: label lines are
/// skipped, every other line is parsed and encoded in order, threading
/// the symbol table through. The result is the words emitted before the
/// first error, and that error if one occurred.
pub open spec fn inst_pass(lines: Seq<Seq<char>>, m: Map<Seq<char>, u16>, next: u16) -> (Seq<u16>, Option<
    AsmErr,
>)
    decreases lines.len(),
{
    if lines.len() == 0 {
        (Seq::empty(), None)
    } else if is_label_line(lines[0]) {
        inst_pass(lines.drop_first(), m, next)
    } else {
        match line_word(lines[0], m, next) {
            Ok((w, m2, nx)) => {
                let (ws, e) = inst_pass(lines.drop_first(), m2, nx);
                (seq![w] + ws, e)
            },
            Err(e) => (Seq::empty(), Some(e)),
        }
    }
}

/// What a full translation run returns, at the model level: the
/// normalized lines go through the label pass on the predefined table,
/// then through the instruction pass with the variable allocator at 16.
pub open spec fn assemble_spec(t: Seq<char>) -> Result<Seq<u16>, AsmErr> {
    let ls = preprocess_spec(t);
    let (m1, dup) = collect_pass(ls, predefined_symbols(), 0);
    match dup {
        Some(name) => Err(AsmErr::Rebound(name)),
        None => {
            let (ws, e) = inst_pass(ls, m1, 16);
            match e {
                Some(e2) => Err(e2),
                None => Ok(ws),
            }
        },
    }
}

proof fn lemma_split_lines_count(t: Seq<char>)
    ensures
        split_lines(t).len() <= t.len() + 1,
    decreases t.len(),
{
    crate::parser::lemma_find_char_props(t, '\n');
    match find_char(t, '\n') {
        None => {},
        Some(i) => {
            lemma_split_lines_count(t.subrange(i + 1, t.len() as int));
        },
    }
}

proof fn lemma_clean_lines_count(ls: Seq<Seq<char>>)
    ensures
        clean_lines(ls).len() <= ls.len(),
    decreases ls.len(),
{
    if ls.len() > 0 {
        lemma_clean_lines_count(ls.drop_first());
    }
}

/// Translate full source text into the machine words, one per
/// instruction line, stopping at the first error. The input must be
/// small enough that every instruction address fits in 16 bits.
#[verifier::loop_isolation(false)]
pub fn assemble(text: &str) -> (r: Result<Vec<u16>, AssembleError>)
    requires
        text@.len() <= 0xFFFE,
    ensures
        match assemble_spec(text@) {
            Ok(ws) => (r matches Ok(v) && v@ == ws),
            Err(e) => (r matches Err(ae) && assemble_err_is(ae, e)),
        },
{
    let lines = preprocess(text);
    proof {
        lemma_split_lines_count(text@);
        lemma_clean_lines_count(split_lines(text@));
    }
    let mut table = SymbolTable::new();
    match collect_labels(&lines, &mut table) {
        Err(e) => {
            return Err(AssembleError::Bind(e));
        },
        Ok(_) => {},
    }
    let ghost m1 = table@;
    let n = lines.len();
    let mut words: Vec<u16> = Vec::new();
    let mut i: usize = 0;
    proof {
        assert(lines.deep_view().subrange(0, n as int) =~= lines.deep_view());
    }
    while i < n
        invariant
            i <= n,
            n == lines@.len(),
            inst_pass(lines.deep_view(), m1, 16).0 == words@ + inst_pass(
                lines.deep_view().subrange(i as int, n as int),
                table@,
                table.next_free(),
            ).0,
            inst_pass(lines.deep_view(), m1, 16).1 == inst_pass(
                lines.deep_view().subrange(i as int, n as int),
                table@,
                table.next_free(),
            ).1,
        decreases n - i,
    {
        let ghost suffix = lines.deep_view().subrange(i as int, n as int);
        proof {
            assert(suffix[0] == lines.deep_view()[i as int]);
            assert(lines.deep_view()[i as int] == lines@[i as int]@);
            assert(suffix.drop_first() =~= lines.deep_view().subrange(i as int + 1, n as int));
        }
        let line = &lines[i];
        match label_name(line.as_str()) {
            Some(_) => {},
            None => {
                match parse_inst(line.as_str(), &mut table) {
                    Ok(inst) => {
                        match compile(inst) {
                            Ok(w) => {
                                let ghost prev = words@;
                                words.push(w);
                                proof {
                                    assert(words@ =~= prev + seq![w]);
                                    assert(prev + (seq![w] + inst_pass(
                                        suffix.drop_first(),
                                        table@,
                                        table.next_free(),
                                    ).0) =~= words@ + inst_pass(
                                        suffix.drop_first(),
                                        table@,
                                        table.next_free(),
                                    ).0);
                                }
                            },
                            Err(e) => {
                                return Err(AssembleError::Compile(e));
                            },
                        }
                    },
                    Err(e) => {
                        return Err(AssembleError::Parse(e));
                    },
                }
            },
        }
        i = i + 1;
    }
    proof {
        assert(lines.deep_view().subrange(n as int, n as int) =~= Seq::<Seq<char>>::empty());
        assert(words@ + Seq::<u16>::empty() =~= words@);
    }
    Ok(words)
}


/// The diagnostic text for a translation error, at the model level.
pub open spec fn assemble_error_message(e: AssembleError) -> Seq<char> {
    match e {
        AssembleError::Bind(b) => "Unable to collect labels: "@ + crate::symtab::bind_error_message(
            b,
        ),
        AssembleError::Parse(p) => "Parse error: "@ + crate::parser::parse_error_message(p),
        AssembleError::Compile(c) => "Compilation error: "@ + crate::codegen::compile_error_message(
            c,
        ),
    }
}

impl AssembleError {
    /// The diagnostic text for this error.
    pub fn message(&self) -> (r: String)
        ensures
            r@ == assemble_error_message(*self),
    {
        match self {
            AssembleError::Bind(b) => {
                let mut m = "Unable to collect labels: ".to_owned();
                let inner = b.message();
                m.append(inner.as_str());
                m
            },
            AssembleError::Parse(p) => {
                let mut m = "Parse error: ".to_owned();
                let inner = p.message();
                m.append(inner.as_str());
                m
            },
            AssembleError::Compile(c) => {
                let mut m = "Compilation error: ".to_owned();
                let inner = c.message();
                m.append(inner.as_str());
                m
            },
        }
    }
}

} // verus!
