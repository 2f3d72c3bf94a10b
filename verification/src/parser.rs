//! Line normalizer and instruction parser.
//!
//! `preprocess` turns raw source text into clean instruction/label lines:
//! per line, every whitespace character is removed, then everything from
//! the first `//` marker onward is cut, and lines left empty are dropped.
//! `label_name` recognizes label declarations, `collect_labels` runs the
//! label pass, and `parse_inst` classifies one line as an address load or
//! a compute instruction.

use vstd::prelude::*;

verus! {

use crate::inst::Inst;
use crate::symtab::BindError;
use crate::symtab::SymbolTable;
use crate::symtab::rob_addr;
use crate::symtab::rob_map;
use crate::symtab::rob_next;
use crate::symtab::rob_ok;
use vstd::string::StrSliceExecFns;
use vstd::string::StringExecFns;

/// Error raised while classifying a line.
#[derive(Debug, PartialEq, Eq)]
pub enum ParseError {
    /// A numeric address literal does not fit the 15-bit range.
    InvalidAddress,
    /// The symbol table refused a binding.
    BindError(BindError),
    /// The line matches neither instruction shape.
    UnknownInst(String),
}

/// The whitespace characters the normalizer removes.
pub open spec fn is_space(c: char) -> bool {
    ||| c == ' '
    ||| c == '\t'
    ||| c == '\n'
    ||| c == '\r'
    ||| c == '\u{b}'
    ||| c == '\u{c}'
    ||| c == '\u{85}'
    ||| c == '\u{a0}'
    ||| c == '\u{1680}'
    ||| (0x2000 <= c as u32 && c as u32 <= 0x200a)
    ||| c == '\u{2028}'
    ||| c == '\u{2029}'
    ||| c == '\u{202f}'
    ||| c == '\u{205f}'
    ||| c == '\u{3000}'
}

/// A line with all whitespace characters removed, order kept.
pub open spec fn strip_spaces(s: Seq<char>) -> Seq<char>
    decreases s.len(),
{
    if s.len() == 0 {
        Seq::empty()
    } else if is_space(s.last()) {
        strip_spaces(s.drop_last())
    } else {
        strip_spaces(s.drop_last()).push(s.last())
    }
}

/// The literal substring before the first `//` occurrence (the whole
/// line when there is none).
pub open spec fn cut_comment(s: Seq<char>) -> Seq<char>
    decreases s.len(),
{
    if s.len() == 0 {
        s
    } else if s.len() >= 2 && s[0] == '/' && s[1] == '/' {
        Seq::empty()
    } else {
        seq![s[0]] + cut_comment(s.drop_first())
    }
}

/// The index of the first occurrence of `c`, if any.
pub open spec fn find_char(s: Seq<char>, c: char) -> Option<int>
    decreases s.len(),
{
    if s.len() == 0 {
        None
    } else if s[0] == c {
        Some(0)
    } else {
        match find_char(s.drop_first(), c) {
            None => None,
            Some(j) => Some(j + 1),
        }
    }
}

/// The text split at every newline, in order. A text without newlines is
/// a single segment; each newline ends one segment and starts the next.
pub open spec fn split_lines(t: Seq<char>) -> Seq<Seq<char>>
    decreases t.len(),
{
    match find_char(t, '\n') {
        None => seq![t],
        Some(i) => if 0 <= i < t.len() {
            seq![t.subrange(0, i)] + split_lines(t.subrange(i + 1, t.len() as int))
        } else {
            seq![t]
        },
    }
}

/// One raw line after normalization: whitespace removed, then the
/// comment cut.
pub open spec fn clean_line(l: Seq<char>) -> Seq<char> {
    cut_comment(strip_spaces(l))
}

/// The normalized lines: each raw line cleaned, empty results dropped.
pub open spec fn clean_lines(ls: Seq<Seq<char>>) -> Seq<Seq<char>>
    decreases ls.len(),
{
    if ls.len() == 0 {
        Seq::empty()
    } else {
        (if clean_line(ls[0]).len() == 0 {
            Seq::<Seq<char>>::empty()
        } else {
            seq![clean_line(ls[0])]
        }) + clean_lines(ls.drop_first())
    }
}

/// What `preprocess` returns, at the model level.
pub open spec fn preprocess_spec(t: Seq<char>) -> Seq<Seq<char>> {
    clean_lines(split_lines(t))
}

/// Relies on `String::push`: appends exactly the given character.
#[verifier::external_body]
fn push_char(s: &mut String, c: char)
    ensures
        final(s)@ == old(s)@.push(c),
{
    s.push(c);
}

/// The characters of a string slice, as a vector.
fn chars_of(s: &str) -> (r: Vec<char>)
    ensures
        r@ == s@,
{
    let n = s.unicode_len();
    let mut r: Vec<char> = Vec::new();
    let mut i: usize = 0;
    while i < n
        invariant
            i <= n,
            n == s@.len(),
            r@ == s@.subrange(0, i as int),
        decreases n - i,
    {
        r.push(s.get_char(i));
        proof {
            assert(r@ =~= s@.subrange(0, i as int + 1));
        }
        i = i + 1;
    }
    proof {
        assert(r@ =~= s@);
    }
    r
}

/// Whether the character is whitespace, executable side.
fn space_char(c: char) -> (r: bool)
    ensures
        r == is_space(c),
{
    c == ' ' || c == '\t' || c == '\n' || c == '\r' || c == '\u{b}' || c == '\u{c}' || c
        == '\u{85}' || c == '\u{a0}' || c == '\u{1680}' || (0x2000 <= c as u32 && c as u32
        <= 0x200a) || c == '\u{2028}' || c == '\u{2029}' || c == '\u{202f}' || c == '\u{205f}' || c
        == '\u{3000}'
}

proof fn lemma_cut_comment_none(s: Seq<char>)
    requires
        forall|j: int| 0 <= j && j + 1 < s.len() ==> !(#[trigger] s[j] == '/' && s[j + 1] == '/'),
    ensures
        cut_comment(s) == s,
    decreases s.len(),
{
    if s.len() == 0 {
        assert(cut_comment(s) =~= s);
    } else {
        assert forall|j: int|
            0 <= j && j + 1 < s.drop_first().len() implies !(#[trigger] s.drop_first()[j] == '/'
            && s.drop_first()[j + 1] == '/') by {
            assert(s.drop_first()[j] == s[j + 1]);
            assert(s.drop_first()[j + 1] == s[j + 2]);
        }
        lemma_cut_comment_none(s.drop_first());
        assert(cut_comment(s) =~= s);
    }
}

proof fn lemma_cut_comment_at(s: Seq<char>, k: int)
    requires
        0 <= k,
        k + 1 < s.len(),
        s[k] == '/',
        s[k + 1] == '/',
        forall|j: int| 0 <= j < k ==> !(#[trigger] s[j] == '/' && s[j + 1] == '/'),
    ensures
        cut_comment(s) == s.subrange(0, k),
    decreases k,
{
    if k == 0 {
        assert(cut_comment(s) =~= s.subrange(0, 0));
    } else {
        assert(!(s[0] == '/' && s[1] == '/'));
        assert forall|j: int| 0 <= j < k - 1 implies !(#[trigger] s.drop_first()[j] == '/'
            && s.drop_first()[j + 1] == '/') by {
            assert(s.drop_first()[j] == s[j + 1]);
            assert(s.drop_first()[j + 1] == s[j + 2]);
        }
        assert(s.drop_first()[k - 1] == s[k]);
        assert(s.drop_first()[k] == s[k + 1]);
        lemma_cut_comment_at(s.drop_first(), k - 1);
        assert(cut_comment(s) =~= seq![s[0]] + s.drop_first().subrange(0, k - 1));
        assert(seq![s[0]] + s.drop_first().subrange(0, k - 1) =~= s.subrange(0, k));
    }
}

proof fn lemma_find_char_is(s: Seq<char>, c: char, i: int)
    requires
        0 <= i < s.len(),
        s[i] == c,
        forall|j: int| 0 <= j < i ==> s[j] != c,
    ensures
        find_char(s, c) == Some(i),
    decreases i,
{
    if i == 0 {
    } else {
        assert forall|j: int| 0 <= j < i - 1 implies s.drop_first()[j] != c by {
            assert(s.drop_first()[j] == s[j + 1]);
        }
        assert(s.drop_first()[i - 1] == s[i]);
        lemma_find_char_is(s.drop_first(), c, i - 1);
    }
}

proof fn lemma_find_char_none(s: Seq<char>, c: char)
    requires
        forall|j: int| 0 <= j < s.len() ==> s[j] != c,
    ensures
        find_char(s, c) is None,
    decreases s.len(),
{
    if s.len() == 0 {
    } else {
        assert forall|j: int| 0 <= j < s.drop_first().len() implies s.drop_first()[j] != c by {
            assert(s.drop_first()[j] == s[j + 1]);
        }
        lemma_find_char_none(s.drop_first(), c);
    }
}

/// Normalize raw source text: per line, remove every whitespace
/// character, cut everything from the first `//` onward, and drop lines
/// that end up empty. Order is kept.
pub fn preprocess(text: &str) -> (r: Vec<String>)
    ensures
        r.deep_view() == preprocess_spec(text@),
{
    let cs = chars_of(text);
    let n = cs.len();
    let mut out: Vec<String> = Vec::new();
    let mut pos: usize = 0;
    proof {
        assert(cs@.subrange(0, n as int) =~= cs@);
    }
    loop
        invariant_except_break
            preprocess_spec(text@) == out.deep_view() + clean_lines(
                split_lines(cs@.subrange(pos as int, n as int)),
            ),
        invariant
            pos <= n,
            n == cs@.len(),
            cs@ == text@,
        ensures
            preprocess_spec(text@) == out.deep_view(),
        decreases n - pos,
    {
        let ghost t = cs@.subrange(pos as int, n as int);
        // find the end of the current raw line
        let mut e: usize = pos;
        while e < n && cs[e] != '\n'
            invariant
                pos <= e <= n,
                n == cs@.len(),
                forall|j: int| pos <= j < e ==> cs@[j] != '\n',
            decreases n - e,
        {
            e = e + 1;
        }
        proof {
            if e < n {
                assert(t[e - pos] == cs@[e as int]);
                assert forall|j: int| 0 <= j < e - pos implies t[j] != '\n' by {
                    assert(t[j] == cs@[j + pos]);
                }
                lemma_find_char_is(t, '\n', e - pos);
            } else {
                assert forall|j: int| 0 <= j < t.len() implies t[j] != '\n' by {
                    assert(t[j] == cs@[j + pos]);
                }
                lemma_find_char_none(t, '\n');
            }
        }
        // strip whitespace from the raw line
        let mut stripped: Vec<char> = Vec::new();
        let mut j: usize = pos;
        proof {
            assert(cs@.subrange(pos as int, pos as int) =~= Seq::<char>::empty());
        }
        while j < e
            invariant
                pos <= j <= e <= n,
                n == cs@.len(),
                stripped@ == strip_spaces(cs@.subrange(pos as int, j as int)),
            decreases e - j,
        {
            let c = cs[j];
            proof {
                assert(cs@.subrange(pos as int, j as int + 1).drop_last() =~= cs@.subrange(
                    pos as int,
                    j as int,
                ));
                assert(cs@.subrange(pos as int, j as int + 1).last() == cs@[j as int]);
            }
            if !space_char(c) {
                stripped.push(c);
            }
            j = j + 1;
        }
        let ghost raw = cs@.subrange(pos as int, e as int);
        // cut the comment in the stripped line
        let m = stripped.len();
        let mut k: usize = 0;
        let mut marker = false;
        while !marker && m - k > 1
            invariant
                0 <= k <= m,
                m == stripped@.len(),
                marker ==> k + 1 < m && stripped@[k as int] == '/' && stripped@[k as int + 1]
                    == '/',
                forall|j2: int|
                    0 <= j2 < k ==> !(#[trigger] stripped@[j2] == '/' && stripped@[j2 + 1] == '/'),
            decreases m - k - (if marker {
                1int
            } else {
                0int
            }),
        {
            if stripped[k] == '/' && stripped[k + 1] == '/' {
                marker = true;
            } else {
                k = k + 1;
            }
        }
        let cut: usize = if marker {
            k
        } else {
            m
        };
        proof {
            if marker {
                lemma_cut_comment_at(stripped@, k as int);
            } else {
                assert forall|j2: int|
                    0 <= j2 && j2 + 1 < stripped@.len() implies !(#[trigger] stripped@[j2] == '/'
                    && stripped@[j2 + 1] == '/') by {}
                lemma_cut_comment_none(stripped@);
                assert(stripped@ =~= stripped@.subrange(0, m as int));
            }
            assert(clean_line(raw) == stripped@.subrange(0, cut as int));
        }
        // build the cleaned line and keep it when non-empty
        if cut > 0 {
            let mut line_s = String::new();
            let mut q: usize = 0;
            while q < cut
                invariant
                    0 <= q <= cut,
                    cut <= stripped@.len(),
                    line_s@ == stripped@.subrange(0, q as int),
                decreases cut - q,
            {
                push_char(&mut line_s, stripped[q]);
                proof {
                    assert(stripped@.subrange(0, q as int).push(stripped@[q as int])
                        =~= stripped@.subrange(0, q as int + 1));
                }
                q = q + 1;
            }
            let ghost prev = out.deep_view();
            out.push(line_s);
            proof {
                assert(out.deep_view() =~= prev + seq![line_s@]);
            }
        }
        proof {
            // one unfolding of the line-splitting and cleaning model
            if e < n {
                let rest = t.subrange((e - pos) as int + 1, t.len() as int);
                assert(split_lines(t) == seq![t.subrange(0, (e - pos) as int)] + split_lines(rest));
                assert(t.subrange(0, (e - pos) as int) =~= raw);
                let sl = seq![raw] + split_lines(rest);
                assert(sl.len() > 0 && sl[0] == raw);
                assert(sl.drop_first() =~= split_lines(rest));
                assert(clean_lines(sl) == (if clean_line(raw).len() == 0 {
                    Seq::<Seq<char>>::empty()
                } else {
                    seq![clean_line(raw)]
                }) + clean_lines(split_lines(rest)));
                assert(rest =~= cs@.subrange(e as int + 1, n as int));
            } else {
                assert(t =~= raw);
                assert(split_lines(t) == seq![raw]);
                let sl = seq![raw];
                assert(sl.drop_first() =~= Seq::<Seq<char>>::empty());
                assert(clean_lines(Seq::<Seq<char>>::empty()) == Seq::<Seq<char>>::empty());
                assert(clean_lines(sl) =~= (if clean_line(raw).len() == 0 {
                    Seq::<Seq<char>>::empty()
                } else {
                    seq![clean_line(raw)]
                }));
            }
        }
        if e < n {
            proof {
                assert(preprocess_spec(text@) =~= out.deep_view() + clean_lines(
                    split_lines(cs@.subrange(e as int + 1, n as int)),
                ));
            }
            pos = e + 1;
        } else {
            proof {
                assert(preprocess_spec(text@) =~= out.deep_view());
            }
            break ;
        }
    }
    out
}

/// No character of the line is whitespace.
pub open spec fn no_space(l: Seq<char>) -> bool {
    forall|i: int| 0 <= i < l.len() ==> !is_space(#[trigger] l[i])
}

/// No two adjacent characters of the line form the comment marker.
pub open spec fn no_marker(l: Seq<char>) -> bool {
    forall|j: int| 0 <= j && j + 1 < l.len() ==> !(#[trigger] l[j] == '/' && l[j + 1] == '/')
}

proof fn lemma_strip_no_space(s: Seq<char>)
    ensures
        no_space(strip_spaces(s)),
    decreases s.len(),
{
    if s.len() == 0 {
    } else {
        lemma_strip_no_space(s.drop_last());
    }
}

proof fn lemma_cut_prefix(s: Seq<char>)
    ensures
        cut_comment(s).len() <= s.len(),
        forall|i: int| 0 <= i < cut_comment(s).len() ==> #[trigger] cut_comment(s)[i] == s[i],
    decreases s.len(),
{
    if s.len() == 0 {
    } else if s.len() >= 2 && s[0] == '/' && s[1] == '/' {
    } else {
        lemma_cut_prefix(s.drop_first());
        assert forall|i: int| 0 <= i < cut_comment(s).len() implies #[trigger] cut_comment(s)[i]
            == s[i] by {
            if i > 0 {
                assert(cut_comment(s)[i] == cut_comment(s.drop_first())[i - 1]);
                assert(s.drop_first()[i - 1] == s[i]);
            }
        }
    }
}

proof fn lemma_cut_no_marker(s: Seq<char>)
    ensures
        no_marker(cut_comment(s)),
    decreases s.len(),
{
    if s.len() == 0 {
    } else if s.len() >= 2 && s[0] == '/' && s[1] == '/' {
    } else {
        lemma_cut_no_marker(s.drop_first());
        lemma_cut_prefix(s.drop_first());
        let r = cut_comment(s);
        assert forall|j: int| 0 <= j && j + 1 < r.len() implies !(#[trigger] r[j] == '/' && r[j + 1]
            == '/') by {
            if j == 0 {
                assert(r[0] == s[0]);
                assert(r[1] == cut_comment(s.drop_first())[0]);
                assert(cut_comment(s.drop_first())[0] == s.drop_first()[0]);
                assert(!(s[0] == '/' && s[1] == '/'));
            } else {
                assert(r[j] == cut_comment(s.drop_first())[j - 1]);
                assert(r[j + 1] == cut_comment(s.drop_first())[j]);
            }
        }
    }
}

proof fn lemma_clean_line_clean(l: Seq<char>)
    ensures
        no_space(clean_line(l)),
        no_marker(clean_line(l)),
{
    lemma_strip_no_space(l);
    lemma_cut_prefix(strip_spaces(l));
    lemma_cut_no_marker(strip_spaces(l));
    assert forall|i: int| 0 <= i < clean_line(l).len() implies !is_space(
        #[trigger] clean_line(l)[i],
    ) by {
        assert(clean_line(l)[i] == strip_spaces(l)[i]);
    }
}

proof fn lemma_clean_lines_clean(ls: Seq<Seq<char>>)
    ensures
        forall|k: int|
            0 <= k < clean_lines(ls).len() ==> {
                &&& (#[trigger] clean_lines(ls)[k]).len() > 0
                &&& no_space(clean_lines(ls)[k])
                &&& no_marker(clean_lines(ls)[k])
            },
    decreases ls.len(),
{
    if ls.len() == 0 {
    } else {
        lemma_clean_lines_clean(ls.drop_first());
        lemma_clean_line_clean(ls[0]);
        let c = clean_line(ls[0]);
        let head: Seq<Seq<char>> = if c.len() == 0 {
            Seq::<Seq<char>>::empty()
        } else {
            seq![c]
        };
        assert forall|k: int| 0 <= k < clean_lines(ls).len() implies {
            &&& (#[trigger] clean_lines(ls)[k]).len() > 0
            &&& no_space(clean_lines(ls)[k])
            &&& no_marker(clean_lines(ls)[k])
        } by {
            if k < head.len() {
                assert(clean_lines(ls)[k] == c);
            } else {
                assert(clean_lines(ls)[k] == clean_lines(ls.drop_first())[k - head.len()]);
            }
        }
    }
}

/// Law: for every input text, no normalized line is empty, holds a
/// whitespace character, or holds the `//` marker.
pub proof fn lemma_preprocess_clean(t: Seq<char>)
    ensures
        forall|k: int|
            0 <= k < preprocess_spec(t).len() ==> {
                &&& (#[trigger] preprocess_spec(t)[k]).len() > 0
                &&& no_space(preprocess_spec(t)[k])
                &&& no_marker(preprocess_spec(t)[k])
            },
{
    lemma_clean_lines_clean(split_lines(t));
}


/// ASCII letter.
pub open spec fn is_letter(c: char) -> bool {
    (65 <= c as u32 && c as u32 <= 90) || (97 <= c as u32 && c as u32 <= 122)
}

/// ASCII decimal digit.
pub open spec fn is_digit(c: char) -> bool {
    48 <= c as u32 && c as u32 <= 57
}

/// A character allowed after the first one of an identifier.
pub open spec fn is_ident_char(c: char) -> bool {
    is_letter(c) || is_digit(c) || c == '_' || c == '.' || c == '$'
}

/// An identifier: a letter, then letters, digits, `_`, `.` or `$`.
pub open spec fn is_ident(s: Seq<char>) -> bool {
    s.len() > 0 && is_letter(s[0]) && (forall|i: int|
        1 <= i < s.len() ==> is_ident_char(#[trigger] s[i]))
}

/// The bare name inside a label declaration.
pub open spec fn label_of(l: Seq<char>) -> Seq<char> {
    l.subrange(1, l.len() - 1)
}

/// A label declaration: exactly `(name)` with `name` an identifier.
pub open spec fn is_label_line(l: Seq<char>) -> bool {
    l.len() >= 3 && l[0] == '(' && l[l.len() - 1] == ')' && is_ident(label_of(l))
}

/// Whether the character is an ASCII letter, executable side.
fn letter_char(c: char) -> (r: bool)
    ensures
        r == is_letter(c),
{
    let u = c as u32;
    (65 <= u && u <= 90) || (97 <= u && u <= 122)
}

/// Whether the character is an ASCII digit, executable side.
fn digit_char(c: char) -> (r: bool)
    ensures
        r == is_digit(c),
{
    let u = c as u32;
    48 <= u && u <= 57
}

/// Whether the character may follow the first one of an identifier.
fn ident_char(c: char) -> (r: bool)
    ensures
        r == is_ident_char(c),
{
    letter_char(c) || digit_char(c) || c == '_' || c == '.' || c == '$'
}

/// Recognize a label declaration `(name)`; hand out the bare name.
/// Anything besides the parenthesized identifier makes the line no
/// label.
pub fn label_name(line: &str) -> (r: Option<String>)
    ensures
        is_label_line(line@) ==> (r matches Some(name) && name@ == label_of(line@)),
        !is_label_line(line@) ==> r is None,
{
    let cs = chars_of(line);
    let n = cs.len();
    if n < 3 {
        return None;
    }
    if cs[0] != '(' || cs[n - 1] != ')' {
        return None;
    }
    if !letter_char(cs[1]) {
        proof {
            assert(label_of(line@)[0] == line@[1]);
        }
        return None;
    }
    let mut i: usize = 2;
    while i < n - 1
        invariant
            2 <= i <= n - 1,
            n >= 3,
            n == cs@.len(),
            cs@ == line@,
            forall|k: int| 1 <= k < i ==> is_ident_char(#[trigger] cs@[k]),
        decreases n - i,
    {
        if !ident_char(cs[i]) {
            proof {
                assert(label_of(line@)[i - 1] == line@[i as int]);
            }
            return None;
        }
        i = i + 1;
    }
    proof {
        assert forall|k: int| 1 <= k < label_of(line@).len() implies is_ident_char(
            #[trigger] label_of(line@)[k],
        ) by {
            assert(label_of(line@)[k] == line@[k + 1]);
        }
        assert(label_of(line@)[0] == line@[1]);
        assert(is_label_line(line@));
    }
    Some(line.substring_char(1, n - 1).to_owned())
}

/// The label pass over normalized lines: every label line binds its
/// name to the current instruction address, every other line advances
/// that address by one. The result is the bindings at the end, or at
/// the first name found already bound, together with that name.
pub open spec fn collect_pass(lines: Seq<Seq<char>>, m: Map<Seq<char>, u16>, addr: u16) -> (Map<
    Seq<char>,
    u16,
>, Option<Seq<char>>)
    decreases lines.len(),
{
    if lines.len() == 0 {
        (m, None)
    } else {
        let l = lines[0];
        if is_label_line(l) {
            if m.contains_key(label_of(l)) {
                (m, Some(label_of(l)))
            } else {
                collect_pass(lines.drop_first(), m.insert(label_of(l), addr), addr)
            }
        } else {
            collect_pass(lines.drop_first(), m, (addr + 1) as u16)
        }
    }
}

/// Run the label pass over the normalized lines, binding each label to
/// the address of the instruction that follows it. Stops at the first
/// name that is already bound. The variable allocator is untouched.
pub fn collect_labels(lines: &Vec<String>, table: &mut SymbolTable) -> (r: Result<(), BindError>)
    requires
        lines@.len() <= 0xFFFF,
    ensures
        ({
            let (m2, err) = collect_pass(lines.deep_view(), old(table)@, 0);
            &&& final(table)@ == m2
            &&& final(table).next_free() == old(table).next_free()
            &&& match r {
                Ok(_) => err is None,
                Err(e) => err is Some && (e matches BindError::AlreadyBound { symbol } && symbol@
                    == err->0),
            }
        }),
{
    let n = lines.len();
    let mut addr: u16 = 0;
    let mut i: usize = 0;
    proof {
        assert(lines.deep_view().subrange(0, n as int) =~= lines.deep_view());
    }
    while i < n
        invariant
            i <= n,
            n == lines@.len(),
            n <= 0xFFFF,
            addr <= i,
            table.next_free() == old(table).next_free(),
            collect_pass(lines.deep_view(), old(table)@, 0) == collect_pass(
                lines.deep_view().subrange(i as int, n as int),
                table@,
                addr,
            ),
        decreases n - i,
    {
        let ghost suffix = lines.deep_view().subrange(i as int, n as int);
        proof {
            assert(suffix[0] == lines.deep_view()[i as int]);
            assert(lines.deep_view()[i as int] == lines@[i as int]@);
            assert(suffix.drop_first() =~= lines.deep_view().subrange(i as int + 1, n as int));
        }
        match label_name(lines[i].as_str()) {
            Some(name) => {
                match table.bind(name.as_str(), addr) {
                    Ok(_) => {},
                    Err(e) => {
                        return Err(e);
                    },
                }
            },
            None => {
                addr = addr + 1;
            },
        }
        i = i + 1;
    }
    proof {
        assert(lines.deep_view().subrange(n as int, n as int) =~= Seq::<Seq<char>>::empty());
    }
    Ok(())
}


/// A destination-clause character.
pub open spec fn is_dest_char(c: char) -> bool {
    c == 'A' || c == 'M' || c == 'D'
}

/// A character of a computation expression.
pub open spec fn is_comp_char(c: char) -> bool {
    c == '-' || c == '+' || c == '|' || c == '&' || c == '!' || c == '0' || c == '1' || c == 'A'
        || c == 'D' || c == 'M'
}

/// A character of a jump mnemonic.
pub open spec fn is_jump_char(c: char) -> bool {
    c == 'E' || c == 'G' || c == 'J' || c == 'L' || c == 'M' || c == 'N' || c == 'P' || c == 'Q'
        || c == 'T'
}

/// The sequence with leading whitespace removed.
pub open spec fn trim_start(s: Seq<char>) -> Seq<char>
    decreases s.len(),
{
    if s.len() > 0 && is_space(s[0]) {
        trim_start(s.drop_first())
    } else {
        s
    }
}

/// The sequence with trailing whitespace removed.
pub open spec fn trim_end(s: Seq<char>) -> Seq<char>
    decreases s.len(),
{
    if s.len() > 0 && is_space(s.last()) {
        trim_end(s.drop_last())
    } else {
        s
    }
}

/// The length of the longest computation-character prefix.
pub open spec fn comp_run(s: Seq<char>) -> int
    decreases s.len(),
{
    if s.len() > 0 && is_comp_char(s[0]) {
        1 + comp_run(s.drop_first())
    } else {
        0
    }
}

/// A destination mnemonic: one to three characters from A, M, D.
pub open spec fn is_dest(s: Seq<char>) -> bool {
    1 <= s.len() <= 3 && (forall|i: int| 0 <= i < s.len() ==> is_dest_char(#[trigger] s[i]))
}

/// A jump position: exactly three jump-class characters.
pub open spec fn is_jump3(s: Seq<char>) -> bool {
    s.len() == 3 && is_jump_char(s[0]) && is_jump_char(s[1]) && is_jump_char(s[2])
}

/// Split the optional destination clause off a compute line: at the
/// first `=`, the prefix (trailing whitespace dropped) must be a
/// destination mnemonic starting the line; what follows the `=`
/// (leading whitespace dropped) is the rest. Without `=`, the whole
/// line is the rest.
pub open spec fn c_dest_split(l: Seq<char>) -> Option<(Option<Seq<char>>, Seq<char>)> {
    match find_char(l, '=') {
        None => Some((None, l)),
        Some(i) => {
            let d = trim_end(l.subrange(0, i));
            if is_dest(d) {
                Some((Some(d), trim_start(l.subrange(i + 1, l.len() as int))))
            } else {
                None
            }
        },
    }
}

/// Parse a compute line into its fields: shapes `dest=comp;jump`,
/// `dest=comp`, `comp;jump` and `comp`, with optional whitespace around
/// `=` and `;`. The computation is the longest computation-character
/// run; it must reach either the line's end or a `;` followed by a
/// three-letter jump mnemonic that ends the line.
pub open spec fn parse_c(l: Seq<char>) -> Option<(Seq<char>, Option<Seq<char>>, Option<Seq<char>>)> {
    match c_dest_split(l) {
        None => None,
        Some((dest, r)) => {
            let k = comp_run(r);
            if k == 0 {
                None
            } else {
                let comp = r.subrange(0, k);
                let tail = r.subrange(k, r.len() as int);
                if tail.len() == 0 {
                    Some((comp, dest, None))
                } else {
                    let t1 = trim_start(tail);
                    if t1.len() > 0 && t1[0] == ';' {
                        let j = trim_start(t1.subrange(1, t1.len() as int));
                        if is_jump3(j) {
                            Some((comp, dest, Some(j)))
                        } else {
                            None
                        }
                    } else {
                        None
                    }
                }
            }
        },
    }
}

/// The numeric value of a decimal digit string.
pub open spec fn digits_value(s: Seq<char>) -> int
    decreases s.len(),
{
    if s.len() == 0 {
        0
    } else {
        digits_value(s.drop_last()) * 10 + (s.last() as u32 - 48)
    }
}

/// An address-load line with a numeric literal: `@` then digits only.
pub open spec fn is_a_num_line(l: Seq<char>) -> bool {
    l.len() >= 2 && l[0] == '@' && (forall|i: int| 1 <= i < l.len() ==> is_digit(#[trigger] l[i]))
}

/// The symbol part of an address-load line: everything after `@`.
pub open spec fn a_symbol(l: Seq<char>) -> Seq<char> {
    l.subrange(1, l.len() as int)
}

/// An address-load line with a symbol: `@` then an identifier.
pub open spec fn is_a_sym_line(l: Seq<char>) -> bool {
    l.len() >= 2 && l[0] == '@' && is_ident(a_symbol(l))
}

/// The numeric literal of an address-load line.
pub open spec fn a_num_value(l: Seq<char>) -> int {
    digits_value(l.subrange(1, l.len() as int))
}

/// Whether the character belongs to a computation, executable side.
fn comp_char(c: char) -> (r: bool)
    ensures
        r == is_comp_char(c),
{
    c == '-' || c == '+' || c == '|' || c == '&' || c == '!' || c == '0' || c == '1' || c == 'A'
        || c == 'D' || c == 'M'
}

/// Whether the character belongs to a destination, executable side.
fn dest_char(c: char) -> (r: bool)
    ensures
        r == is_dest_char(c),
{
    c == 'A' || c == 'M' || c == 'D'
}

/// Whether the character belongs to a jump mnemonic, executable side.
fn jump_char(c: char) -> (r: bool)
    ensures
        r == is_jump_char(c),
{
    c == 'E' || c == 'G' || c == 'J' || c == 'L' || c == 'M' || c == 'N' || c == 'P' || c == 'Q'
        || c == 'T'
}

pub proof fn lemma_find_char_props(s: Seq<char>, c: char)
    ensures
        match find_char(s, c) {
            None => forall|j: int| 0 <= j < s.len() ==> s[j] != c,
            Some(i) => 0 <= i < s.len() && s[i] == c && (forall|j: int| 0 <= j < i ==> s[j] != c),
        },
    decreases s.len(),
{
    if s.len() == 0 {
    } else if s[0] == c {
    } else {
        lemma_find_char_props(s.drop_first(), c);
        match find_char(s.drop_first(), c) {
            None => {
                assert forall|j: int| 0 <= j < s.len() implies s[j] != c by {
                    if j > 0 {
                        assert(s.drop_first()[j - 1] == s[j]);
                    }
                }
            },
            Some(i2) => {
                assert(s.drop_first()[i2] == s[i2 + 1]);
                assert forall|j: int| 0 <= j < i2 + 1 implies s[j] != c by {
                    if j > 0 {
                        assert(s.drop_first()[j - 1] == s[j]);
                    }
                }
            },
        }
    }
}

proof fn lemma_trim_end_prefix(s: Seq<char>)
    ensures
        trim_end(s).len() <= s.len(),
        forall|i: int| 0 <= i < trim_end(s).len() ==> #[trigger] trim_end(s)[i] == s[i],
    decreases s.len(),
{
    if s.len() > 0 && is_space(s.last()) {
        lemma_trim_end_prefix(s.drop_last());
        assert forall|i: int| 0 <= i < trim_end(s).len() implies #[trigger] trim_end(s)[i]
            == s[i] by {
            assert(trim_end(s)[i] == trim_end(s.drop_last())[i]);
            assert(s.drop_last()[i] == s[i]);
        }
    }
}

proof fn lemma_trim_end_at(s: Seq<char>, k: int)
    requires
        0 <= k <= s.len(),
        forall|j: int| k <= j < s.len() ==> is_space(#[trigger] s[j]),
        k > 0 ==> !is_space(s[k - 1]),
    ensures
        trim_end(s) == s.subrange(0, k),
    decreases s.len(),
{
    if k == s.len() {
        assert(trim_end(s) =~= s.subrange(0, k));
    } else {
        assert(s.last() == s[s.len() - 1]);
        assert(is_space(s.last()));
        assert forall|j: int| k <= j < s.drop_last().len() implies is_space(
            #[trigger] s.drop_last()[j],
        ) by {
            assert(s.drop_last()[j] == s[j]);
        }
        if k > 0 {
            assert(s.drop_last()[k - 1] == s[k - 1]);
        }
        lemma_trim_end_at(s.drop_last(), k);
        assert(s.drop_last().subrange(0, k) =~= s.subrange(0, k));
    }
}

proof fn lemma_trim_start_at(s: Seq<char>, k: int)
    requires
        0 <= k <= s.len(),
        forall|j: int| 0 <= j < k ==> is_space(#[trigger] s[j]),
        k < s.len() ==> !is_space(s[k]),
    ensures
        trim_start(s) == s.subrange(k, s.len() as int),
    decreases k,
{
    if k == 0 {
        assert(trim_start(s) =~= s.subrange(0, s.len() as int));
    } else {
        assert(is_space(s[0]));
        assert forall|j: int| 0 <= j < k - 1 implies is_space(#[trigger] s.drop_first()[j]) by {
            assert(s.drop_first()[j] == s[j + 1]);
        }
        if k < s.len() {
            assert(s.drop_first()[k - 1] == s[k]);
        }
        lemma_trim_start_at(s.drop_first(), k - 1);
        assert(s.drop_first().subrange(k - 1, s.drop_first().len() as int) =~= s.subrange(
            k,
            s.len() as int,
        ));
    }
}

proof fn lemma_comp_run_at(s: Seq<char>, k: int)
    requires
        0 <= k <= s.len(),
        forall|j: int| 0 <= j < k ==> is_comp_char(#[trigger] s[j]),
        k < s.len() ==> !is_comp_char(s[k]),
    ensures
        comp_run(s) == k,
    decreases k,
{
    if k == 0 {
    } else {
        assert(is_comp_char(s[0]));
        assert forall|j: int| 0 <= j < k - 1 implies is_comp_char(#[trigger] s.drop_first()[j]) by {
            assert(s.drop_first()[j] == s[j + 1]);
        }
        if k < s.len() {
            assert(s.drop_first()[k - 1] == s[k]);
        }
        lemma_comp_run_at(s.drop_first(), k - 1);
    }
}

proof fn lemma_parse_c_at_sign(l: Seq<char>)
    requires
        l.len() > 0,
        l[0] == '@',
    ensures
        parse_c(l) is None,
{
    lemma_find_char_props(l, '=');
    match find_char(l, '=') {
        None => {
            assert(!is_comp_char(l[0]));
            assert(comp_run(l) == 0);
        },
        Some(i) => {
            let pre = l.subrange(0, i);
            lemma_trim_end_prefix(pre);
            let d = trim_end(pre);
            if d.len() > 0 {
                assert(d[0] == pre[0]);
                assert(pre[0] == l[0]);
                assert(!is_dest_char(d[0]));
            }
            assert(!is_dest(d));
        },
    }
}

/// Parse the line as a compute instruction, or report it unknown.
#[verifier::rlimit(100)]
#[verifier::loop_isolation(false)]
fn parse_compute(line: &str) -> (r: Result<Inst, ParseError>)
    ensures
        match parse_c(line@) {
            Some(parts) => (r matches Ok(Inst::CInst { comp, dest, jump }) && comp@ == parts.0
                && dest.deep_view() == parts.1 && jump.deep_view() == parts.2),
            None => (r matches Err(ParseError::UnknownInst(s)) && s@ == line@),
        },
{
    let cs = chars_of(line);
    let n = cs.len();
    let mut eqi: usize = 0;
    while eqi < n && cs[eqi] != '='
        invariant
            0 <= eqi <= n,
            n == cs@.len(),
            forall|k: int| 0 <= k < eqi ==> cs@[k] != '=',
        decreases n - eqi,
    {
        eqi = eqi + 1;
    }
    let mut has_dest = false;
    let mut dest_end: usize = 0;
    let mut rstart: usize = 0;
    if eqi < n {
        proof {
            lemma_find_char_is(cs@, '=', eqi as int);
        }
        let mut k: usize = eqi;
        while k > 0 && space_char(cs[k - 1])
            invariant
                0 <= k <= eqi,
                eqi <= n,
                n == cs@.len(),
                forall|j: int| k <= j < eqi ==> is_space(#[trigger] cs@[j]),
            decreases k,
        {
            k = k - 1;
        }
        proof {
            let pre = cs@.subrange(0, eqi as int);
            assert forall|j: int| k <= j < pre.len() implies is_space(#[trigger] pre[j]) by {
                assert(pre[j] == cs@[j]);
            }
            if k > 0 {
                assert(pre[k - 1] == cs@[k - 1]);
            }
            lemma_trim_end_at(pre, k as int);
        }
        if k < 1 || k > 3 {
            proof {
                assert(!is_dest(trim_end(cs@.subrange(0, eqi as int))));
                assert(parse_c(line@) is None);
            }
            return Err(ParseError::UnknownInst(line.to_owned()));
        }
        let mut t: usize = 0;
        while t < k
            invariant
                0 <= t <= k,
                k <= eqi <= n,
                n == cs@.len(),
                forall|j: int| 0 <= j < t ==> is_dest_char(#[trigger] cs@[j]),
            decreases k - t,
        {
            if !dest_char(cs[t]) {
                proof {
                    let d = trim_end(cs@.subrange(0, eqi as int));
                    assert(d[t as int] == cs@.subrange(0, eqi as int)[t as int]);
                    assert(!is_dest(d));
                    assert(parse_c(line@) is None);
                }
                return Err(ParseError::UnknownInst(line.to_owned()));
            }
            t = t + 1;
        }
        proof {
            let d = trim_end(cs@.subrange(0, eqi as int));
            assert forall|j: int| 0 <= j < d.len() implies is_dest_char(#[trigger] d[j]) by {
                assert(d[j] == cs@.subrange(0, eqi as int)[j]);
                assert(cs@.subrange(0, eqi as int)[j] == cs@[j]);
            }
            assert(is_dest(d));
        }
        let mut p: usize = eqi + 1;
        while p < n && space_char(cs[p])
            invariant
                eqi + 1 <= p <= n,
                n == cs@.len(),
                forall|j: int| eqi + 1 <= j < p ==> is_space(#[trigger] cs@[j]),
            decreases n - p,
        {
            p = p + 1;
        }
        proof {
            let after = cs@.subrange(eqi as int + 1, n as int);
            assert forall|j: int| 0 <= j < p - eqi - 1 implies is_space(#[trigger] after[j]) by {
                assert(after[j] == cs@[j + eqi + 1]);
            }
            if p < n {
                assert(after[p - eqi - 1] == cs@[p as int]);
            }
            lemma_trim_start_at(after, p as int - eqi - 1);
            assert(after.subrange(p as int - eqi - 1, after.len() as int) =~= cs@.subrange(
                p as int,
                n as int,
            ));
        }
        has_dest = true;
        dest_end = k;
        rstart = p;
    } else {
        proof {
            lemma_find_char_none(cs@, '=');
        }
    }
    let ghost dspec: Option<Seq<char>> = if has_dest {
        Some(trim_end(cs@.subrange(0, eqi as int)))
    } else {
        None
    };
    let ghost rr: Seq<char> = cs@.subrange(rstart as int, n as int);
    proof {
        if !has_dest {
            assert(rr =~= cs@);
        }
        assert(c_dest_split(line@) == Some((dspec, rr)));
    }
    let mut m2: usize = rstart;
    while m2 < n && comp_char(cs[m2])
        invariant
            rstart <= m2 <= n,
            n == cs@.len(),
            forall|j: int| rstart <= j < m2 ==> is_comp_char(#[trigger] cs@[j]),
        decreases n - m2,
    {
        m2 = m2 + 1;
    }
    proof {
        assert forall|j: int| 0 <= j < m2 - rstart implies is_comp_char(#[trigger] rr[j]) by {
            assert(rr[j] == cs@[j + rstart]);
        }
        if m2 < n {
            assert(rr[m2 - rstart] == cs@[m2 as int]);
        }
        lemma_comp_run_at(rr, m2 as int - rstart as int);
    }
    if m2 == rstart {
        proof {
            assert(parse_c(line@) is None);
        }
        return Err(ParseError::UnknownInst(line.to_owned()));
    }
    let ghost comp_spec = rr.subrange(0, m2 as int - rstart as int);
    proof {
        assert(comp_spec =~= cs@.subrange(rstart as int, m2 as int));
        assert(rr.subrange(m2 as int - rstart as int, rr.len() as int) =~= cs@.subrange(
            m2 as int,
            n as int,
        ));
    }
    if m2 == n {
        proof {
            assert(rr.subrange(m2 as int - rstart as int, rr.len() as int).len() == 0);
            assert(parse_c(line@) == Some((comp_spec, dspec, Option::<Seq<char>>::None)));
        }
        let comp = line.substring_char(rstart, m2).to_owned();
        let dest = if has_dest {
            Some(line.substring_char(0, dest_end).to_owned())
        } else {
            None
        };
        proof {
            if has_dest {
                assert(line@.subrange(0, dest_end as int) =~= trim_end(
                    cs@.subrange(0, eqi as int),
                ));
            }
        }
        return Ok(Inst::CInst { comp, dest, jump: None });
    }
    let ghost tail = cs@.subrange(m2 as int, n as int);
    let mut q: usize = m2;
    while q < n && space_char(cs[q])
        invariant
            m2 <= q <= n,
            n == cs@.len(),
            forall|j: int| m2 <= j < q ==> is_space(#[trigger] cs@[j]),
        decreases n - q,
    {
        q = q + 1;
    }
    proof {
        assert forall|j: int| 0 <= j < q - m2 implies is_space(#[trigger] tail[j]) by {
            assert(tail[j] == cs@[j + m2]);
        }
        if q < n {
            assert(tail[q - m2] == cs@[q as int]);
        }
        lemma_trim_start_at(tail, q as int - m2 as int);
        assert(trim_start(tail) =~= cs@.subrange(q as int, n as int));
    }
    if q == n {
        proof {
            assert(trim_start(tail).len() == 0);
            assert(parse_c(line@) is None);
        }
        return Err(ParseError::UnknownInst(line.to_owned()));
    }
    if cs[q] != ';' {
        proof {
            assert(trim_start(tail)[0] == cs@[q as int]);
            assert(parse_c(line@) is None);
        }
        return Err(ParseError::UnknownInst(line.to_owned()));
    }
    let ghost t1 = trim_start(tail);
    proof {
        assert(t1.subrange(1, t1.len() as int) =~= cs@.subrange(q as int + 1, n as int));
    }
    let ghost after_semi = cs@.subrange(q as int + 1, n as int);
    let mut p2: usize = q + 1;
    while p2 < n && space_char(cs[p2])
        invariant
            q + 1 <= p2 <= n,
            n == cs@.len(),
            forall|j: int| q + 1 <= j < p2 ==> is_space(#[trigger] cs@[j]),
        decreases n - p2,
    {
        p2 = p2 + 1;
    }
    proof {
        assert forall|j: int| 0 <= j < p2 - q - 1 implies is_space(#[trigger] after_semi[j]) by {
            assert(after_semi[j] == cs@[j + q + 1]);
        }
        if p2 < n {
            assert(after_semi[p2 - q - 1] == cs@[p2 as int]);
        }
        lemma_trim_start_at(after_semi, p2 as int - q - 1);
        assert(trim_start(after_semi) =~= cs@.subrange(p2 as int, n as int));
    }
    let ghost jspec = cs@.subrange(p2 as int, n as int);
    if n - p2 != 3 {
        proof {
            assert(!is_jump3(jspec));
            assert(parse_c(line@) is None);
        }
        return Err(ParseError::UnknownInst(line.to_owned()));
    }
    if !jump_char(cs[p2]) || !jump_char(cs[p2 + 1]) || !jump_char(cs[p2 + 2]) {
        proof {
            assert(jspec[0] == cs@[p2 as int]);
            assert(jspec[1] == cs@[p2 as int + 1]);
            assert(jspec[2] == cs@[p2 as int + 2]);
            assert(!is_jump3(jspec));
            assert(parse_c(line@) is None);
        }
        return Err(ParseError::UnknownInst(line.to_owned()));
    }
    proof {
        assert(jspec[0] == cs@[p2 as int]);
        assert(jspec[1] == cs@[p2 as int + 1]);
        assert(jspec[2] == cs@[p2 as int + 2]);
        assert(is_jump3(jspec));
        assert(parse_c(line@) == Some((comp_spec, dspec, Some(jspec))));
    }
    let comp = line.substring_char(rstart, m2).to_owned();
    let dest = if has_dest {
        Some(line.substring_char(0, dest_end).to_owned())
    } else {
        None
    };
    proof {
        if has_dest {
            assert(line@.subrange(0, dest_end as int) =~= trim_end(cs@.subrange(0, eqi as int)));
        }
    }
    let jump = Some(line.substring_char(p2, n).to_owned());
    Ok(Inst::CInst { comp, dest, jump })
}

/// Classify one normalized line as an instruction. An address load is
/// `@` followed by an unsigned decimal literal (15 bits at most) or by
/// a symbol, which is resolved through the table, allocating a fresh
/// variable address on first reference. Anything else must parse as a
/// compute instruction, or the whole line is unknown.
#[verifier::loop_isolation(false)]
pub fn parse_inst(line: &str, table: &mut SymbolTable) -> (r: Result<Inst, ParseError>)
    ensures
        is_a_num_line(line@) ==> {
            &&& final(table)@ == old(table)@
            &&& final(table).next_free() == old(table).next_free()
            &&& (if a_num_value(line@) <= 0x7fff {
                (r matches Ok(Inst::AInst { address }) && address == a_num_value(line@))
            } else {
                r == Err::<Inst, ParseError>(ParseError::InvalidAddress)
            })
        },
        is_a_sym_line(line@) ==> {
            let m = old(table)@;
            let nf = old(table).next_free();
            let sym = a_symbol(line@);
            &&& rob_ok(m, nf, sym) ==> {
                &&& (r matches Ok(Inst::AInst { address }) && address == rob_addr(m, nf, sym))
                &&& final(table)@ == rob_map(m, nf, sym)
                &&& final(table).next_free() == rob_next(m, nf, sym)
            }
            &&& !rob_ok(m, nf, sym) ==> {
                &&& r == Err::<Inst, ParseError>(
                    ParseError::BindError(BindError::TooManyBindings),
                )
                &&& final(table)@ == m
                &&& final(table).next_free() == nf
            }
        },
        !is_a_num_line(line@) && !is_a_sym_line(line@) ==> {
            &&& final(table)@ == old(table)@
            &&& final(table).next_free() == old(table).next_free()
            &&& (match parse_c(line@) {
                Some(parts) => (r matches Ok(Inst::CInst { comp, dest, jump }) && comp@ == parts.0
                    && dest.deep_view() == parts.1 && jump.deep_view() == parts.2),
                None => (r matches Err(ParseError::UnknownInst(s)) && s@ == line@),
            })
        },
{
    let cs = chars_of(line);
    let n = cs.len();
    if n >= 1 && cs[0] == '@' {
        proof {
            lemma_parse_c_at_sign(line@);
        }
        if n >= 2 && digit_char(cs[1]) {
            let mut i: usize = 1;
            let mut v: u32 = 0;
            let mut big = false;
            proof {
                assert(cs@.subrange(1, 1) =~= Seq::<char>::empty());
            }
            while i < n
                invariant
                    1 <= i <= n,
                    n == cs@.len(),
                    cs@ == line@,
                    n >= 2,
                    cs@[0] == '@',
                    is_digit(cs@[1]),
                    forall|k: int| 1 <= k < i ==> is_digit(#[trigger] cs@[k]),
                    big ==> digits_value(cs@.subrange(1, i as int)) > 0x7fff,
                    !big ==> v == digits_value(cs@.subrange(1, i as int)) && v <= 0x7fff,
                decreases n - i,
            {
                let c = cs[i];
                if !digit_char(c) {
                    proof {
                        assert(!is_a_num_line(line@));
                        assert(a_symbol(line@)[0] == line@[1]);
                        assert(!is_letter(line@[1]));
                        assert(!is_a_sym_line(line@));
                    }
                    return parse_compute(line);
                }
                proof {
                    let pre = cs@.subrange(1, i as int);
                    let cur = cs@.subrange(1, i as int + 1);
                    assert(cur.drop_last() =~= pre);
                    assert(cur.last() == cs@[i as int]);
                }
                let d = (c as u32) - 48;
                if big {
                } else {
                    let nv = v * 10 + d;
                    if nv > 0x7fff {
                        big = true;
                    } else {
                        v = nv;
                    }
                }
                i = i + 1;
            }
            proof {
                assert(cs@.subrange(1, n as int) == line@.subrange(1, n as int));
                assert(is_a_num_line(line@));
            }
            if big {
                return Err(ParseError::InvalidAddress);
            }
            return Ok(Inst::AInst { address: v as u16 });
        }
        if n >= 2 && letter_char(cs[1]) {
            let mut i: usize = 2;
            while i < n
                invariant
                    2 <= i <= n,
                    n == cs@.len(),
                    cs@ == line@,
                    n >= 2,
                    cs@[0] == '@',
                    is_letter(cs@[1]),
                    forall|k: int| 2 <= k < i ==> is_ident_char(#[trigger] cs@[k]),
                decreases n - i,
            {
                if !ident_char(cs[i]) {
                    proof {
                        assert(a_symbol(line@)[i - 1] == line@[i as int]);
                        assert(!is_a_sym_line(line@));
                        assert(!is_digit(line@[i as int]));
                        assert(!is_a_num_line(line@));
                    }
                    return parse_compute(line);
                }
                i = i + 1;
            }
            proof {
                assert forall|k: int| 1 <= k < a_symbol(line@).len() implies is_ident_char(
                    #[trigger] a_symbol(line@)[k],
                ) by {
                    assert(a_symbol(line@)[k] == line@[k + 1]);
                }
                assert(a_symbol(line@)[0] == line@[1]);
                assert(is_a_sym_line(line@));
                assert(!is_digit(line@[1]));
                assert(!is_a_num_line(line@));
            }
            let sym = line.substring_char(1, n);
            proof {
                assert(sym@ == a_symbol(line@));
            }
            match table.resolve_or_bind(sym) {
                Ok(a) => {
                    return Ok(Inst::AInst { address: a });
                },
                Err(e) => {
                    return Err(ParseError::BindError(e));
                },
            }
        }
        proof {
            if n >= 2 {
                assert(!is_a_num_line(line@));
                assert(a_symbol(line@)[0] == line@[1]);
                assert(!is_a_sym_line(line@));
            } else {
                assert(!is_a_num_line(line@));
                assert(!is_a_sym_line(line@));
            }
        }
        return parse_compute(line);
    }
    // the line does not start with `@`: only the compute shape is left
    proof {
        assert(!is_a_num_line(line@));
        assert(!is_a_sym_line(line@));
    }
    parse_compute(line)
}


/// The diagnostic text for a parse error, at the model level.
pub open spec fn parse_error_message(e: ParseError) -> Seq<char> {
    match e {
        ParseError::InvalidAddress => "unable to parse address"@,
        ParseError::BindError(b) => "unable to bind symbol to address: "@
            + crate::symtab::bind_error_message(b),
        ParseError::UnknownInst(l) => "unknown instruction: "@ + l@,
    }
}

impl ParseError {
    /// The diagnostic text for this error.
    pub fn message(&self) -> (r: String)
        ensures
            r@ == parse_error_message(*self),
    {
        match self {
            ParseError::InvalidAddress => "unable to parse address".to_owned(),
            ParseError::BindError(b) => {
                let mut m = "unable to bind symbol to address: ".to_owned();
                let inner = b.message();
                m.append(inner.as_str());
                m
            },
            ParseError::UnknownInst(l) => {
                let mut m = "unknown instruction: ".to_owned();
                m.append(l.as_str());
                m
            },
        }
    }
}

} // verus!
