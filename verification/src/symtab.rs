//! Symbol table mapping symbolic names to 16-bit addresses.
//!
//! A fresh table holds the predefined bindings (register aliases, the
//! pointer names, `SCREEN` and `KBD`). Labels are bound explicitly, at
//! most once per name; variables are allocated consecutive addresses
//! starting at 16, in first-reference order.

use vstd::prelude::*;

verus! {

use vstd::hash_map::StringHashMap;
use vstd::string::StringExecFns;

/// Error returned when a name cannot be bound.
#[derive(Debug, PartialEq, Eq)]
pub enum BindError {
    /// The name already has a binding (a predefined one included).
    AlreadyBound { symbol: String },
    /// The variable allocator has no free address left.
    TooManyBindings,
}

/// The bindings every fresh table starts with.
pub open spec fn predefined_symbols() -> Map<Seq<char>, u16> {
    Map::empty()
        .insert("R0"@, 0u16)
        .insert("R1"@, 1u16)
        .insert("R2"@, 2u16)
        .insert("R3"@, 3u16)
        .insert("R4"@, 4u16)
        .insert("R5"@, 5u16)
        .insert("R6"@, 6u16)
        .insert("R7"@, 7u16)
        .insert("R8"@, 8u16)
        .insert("R9"@, 9u16)
        .insert("R10"@, 10u16)
        .insert("R11"@, 11u16)
        .insert("R12"@, 12u16)
        .insert("R13"@, 13u16)
        .insert("R14"@, 14u16)
        .insert("R15"@, 15u16)
        .insert("SP"@, 0u16)
        .insert("LCL"@, 1u16)
        .insert("ARG"@, 2u16)
        .insert("THIS"@, 3u16)
        .insert("THAT"@, 4u16)
        .insert("SCREEN"@, 16384u16)
        .insert("KBD"@, 24576u16)
}

/// An explicit binding succeeds exactly when the name is still free.
pub open spec fn bind_ok(m: Map<Seq<char>, u16>, symbol: Seq<char>) -> bool {
    !m.contains_key(symbol)
}

/// The bindings after an explicit binding attempt: extended by the new
/// entry when the name was free, unchanged otherwise.
pub open spec fn bind_map(m: Map<Seq<char>, u16>, symbol: Seq<char>, address: u16) -> Map<
    Seq<char>,
    u16,
> {
    if bind_ok(m, symbol) {
        m.insert(symbol, address)
    } else {
        m
    }
}

/// Resolve-or-allocate succeeds unless the name is unbound and the
/// allocator is exhausted.
pub open spec fn rob_ok(m: Map<Seq<char>, u16>, next: u16, symbol: Seq<char>) -> bool {
    m.contains_key(symbol) || next < 0xFFFF
}

/// The address resolve-or-allocate hands out: the existing binding, or
/// else the next free variable address.
pub open spec fn rob_addr(m: Map<Seq<char>, u16>, next: u16, symbol: Seq<char>) -> u16 {
    if m.contains_key(symbol) {
        m[symbol]
    } else {
        next
    }
}

/// The bindings after resolve-or-allocate.
pub open spec fn rob_map(m: Map<Seq<char>, u16>, next: u16, symbol: Seq<char>) -> Map<
    Seq<char>,
    u16,
> {
    if m.contains_key(symbol) {
        m
    } else {
        m.insert(symbol, next)
    }
}

/// The allocator counter after resolve-or-allocate.
pub open spec fn rob_next(m: Map<Seq<char>, u16>, next: u16, symbol: Seq<char>) -> u16 {
    if m.contains_key(symbol) {
        next
    } else {
        (next + 1) as u16
    }
}

/// Mapping from symbol name to 16-bit address, with a counter for the
/// next free variable slot.
pub struct SymbolTable {
    entries: StringHashMap<u16>,
    next_local: u16,
}

impl View for SymbolTable {
    type V = Map<Seq<char>, u16>;

    closed spec fn view(&self) -> Map<Seq<char>, u16> {
        self.entries@
    }
}

impl SymbolTable {
    /// The next address the variable allocator will hand out.
    pub closed spec fn next_free(&self) -> u16 {
        self.next_local
    }

    /// A fresh table: the predefined bindings, allocator at 16.
    pub fn new() -> (t: SymbolTable)
        ensures
            t@ == predefined_symbols(),
            t.next_free() == 16,
    {
        let mut entries = StringHashMap::<u16>::new();
        entries.insert("R0".to_owned(), 0);
        entries.insert("R1".to_owned(), 1);
        entries.insert("R2".to_owned(), 2);
        entries.insert("R3".to_owned(), 3);
        entries.insert("R4".to_owned(), 4);
        entries.insert("R5".to_owned(), 5);
        entries.insert("R6".to_owned(), 6);
        entries.insert("R7".to_owned(), 7);
        entries.insert("R8".to_owned(), 8);
        entries.insert("R9".to_owned(), 9);
        entries.insert("R10".to_owned(), 10);
        entries.insert("R11".to_owned(), 11);
        entries.insert("R12".to_owned(), 12);
        entries.insert("R13".to_owned(), 13);
        entries.insert("R14".to_owned(), 14);
        entries.insert("R15".to_owned(), 15);
        entries.insert("SP".to_owned(), 0);
        entries.insert("LCL".to_owned(), 1);
        entries.insert("ARG".to_owned(), 2);
        entries.insert("THIS".to_owned(), 3);
        entries.insert("THAT".to_owned(), 4);
        entries.insert("SCREEN".to_owned(), 16384);
        entries.insert("KBD".to_owned(), 24576);
        proof {
            assert(entries@ =~= predefined_symbols());
        }
        SymbolTable { entries, next_local: 16 }
    }

    /// Bind `symbol` to `address`; fails when the name is already bound.
    pub fn bind(&mut self, symbol: &str, address: u16) -> (r: Result<u16, BindError>)
        ensures
            final(self)@ == bind_map(old(self)@, symbol@, address),
            final(self).next_free() == old(self).next_free(),
            bind_ok(old(self)@, symbol@) ==> r == Ok::<u16, BindError>(address),
            !bind_ok(old(self)@, symbol@) ==> (r matches Err(BindError::AlreadyBound {
                symbol: s,
            }) && s@ == symbol@),
    {
        if self.entries.contains_key(symbol) {
            Err(BindError::AlreadyBound { symbol: symbol.to_owned() })
        } else {
            self.entries.insert(symbol.to_owned(), address);
            Ok(address)
        }
    }

    /// Whether the name has a binding.
    pub fn contains(&self, symbol: &str) -> (r: bool)
        ensures
            r == self@.contains_key(symbol@),
    {
        self.entries.contains_key(symbol)
    }

    /// Look the name up without mutating anything.
    pub fn resolve(&self, symbol: &str) -> (r: Option<u16>)
        ensures
            self@.contains_key(symbol@) ==> r == Some(self@[symbol@]),
            !self@.contains_key(symbol@) ==> r is None,
    {
        match self.entries.get(symbol) {
            Some(address) => Some(*address),
            None => None,
        }
    }

    /// Return the existing binding, or allocate the next free variable
    /// address for the name; fails only when the allocator is exhausted.
    pub fn resolve_or_bind(&mut self, symbol: &str) -> (r: Result<u16, BindError>)
        ensures
            rob_ok(old(self)@, old(self).next_free(), symbol@) ==> {
                &&& r == Ok::<u16, BindError>(
                    rob_addr(old(self)@, old(self).next_free(), symbol@),
                )
                &&& final(self)@ == rob_map(old(self)@, old(self).next_free(), symbol@)
                &&& final(self).next_free() == rob_next(
                    old(self)@,
                    old(self).next_free(),
                    symbol@,
                )
            },
            !rob_ok(old(self)@, old(self).next_free(), symbol@) ==> {
                &&& r == Err::<u16, BindError>(BindError::TooManyBindings)
                &&& final(self)@ == old(self)@
                &&& final(self).next_free() == old(self).next_free()
            },
    {
        match self.entries.get(symbol) {
            Some(address) => Ok(*address),
            None => {
                if self.next_local == 0xFFFF {
                    Err(BindError::TooManyBindings)
                } else {
                    let address = self.next_local;
                    self.next_local = self.next_local + 1;
                    self.entries.insert(symbol.to_owned(), address);
                    Ok(address)
                }
            },
        }
    }
}


/// Law: variable allocation is first-reference and monotonic. From any
/// table state with two fresh names, referencing the first allocates
/// the current counter value, referencing the second allocates the next
/// one, and referencing the first again returns its original address
/// and changes nothing. A fresh table starts the counter at 16.
pub proof fn lemma_first_reference_allocation(
    m: Map<Seq<char>, u16>,
    next: u16,
    x: Seq<char>,
    y: Seq<char>,
)
    requires
        !m.contains_key(x),
        !m.contains_key(y),
        x != y,
        next + 1 < 0xFFFF,
    ensures
        ({
            let m1 = rob_map(m, next, x);
            let n1 = rob_next(m, next, x);
            let m2 = rob_map(m1, n1, y);
            let n2 = rob_next(m1, n1, y);
            &&& rob_ok(m, next, x) && rob_addr(m, next, x) == next
            &&& rob_ok(m1, n1, y) && rob_addr(m1, n1, y) == next + 1
            &&& rob_ok(m2, n2, x) && rob_addr(m2, n2, x) == next
            &&& rob_map(m2, n2, x) == m2 && rob_next(m2, n2, x) == n2
        }),
{
}

/// Law: on a fresh table the first two distinct fresh names get the
/// addresses 16 and 17, in reference order, and referencing the first
/// name again still answers 16.
pub proof fn lemma_allocation_starts_at_16(x: Seq<char>, y: Seq<char>)
    requires
        !predefined_symbols().contains_key(x),
        !predefined_symbols().contains_key(y),
        x != y,
    ensures
        ({
            let m = predefined_symbols();
            let m1 = rob_map(m, 16, x);
            let n1 = rob_next(m, 16, x);
            let m2 = rob_map(m1, n1, y);
            let n2 = rob_next(m1, n1, y);
            &&& rob_addr(m, 16, x) == 16
            &&& rob_addr(m1, n1, y) == 17
            &&& rob_addr(m2, n2, x) == 16
        }),
{
    lemma_first_reference_allocation(predefined_symbols(), 16, x, y);
}

/// Law: a name that already has a binding (the predefined ones
/// included) can never be rebound, and the failed attempt leaves the
/// bindings unchanged.
pub proof fn lemma_bound_names_immutable(m: Map<Seq<char>, u16>, symbol: Seq<char>, address: u16)
    requires
        m.contains_key(symbol),
    ensures
        !bind_ok(m, symbol),
        bind_map(m, symbol, address) == m,
{
}

/// Law: lookup goes by the exact character sequence, so binding one
/// name never makes a different name (a differently-cased one included)
/// resolvable.
pub proof fn lemma_lookup_exact(m: Map<Seq<char>, u16>, s: Seq<char>, t: Seq<char>, address: u16)
    requires
        s != t,
        !m.contains_key(t),
    ensures
        !bind_map(m, s, address).contains_key(t),
{
}

/// The stack-pointer alias is predefined at address 0, so binding it
/// afresh always fails.
pub proof fn lemma_sp_predefined()
    ensures
        predefined_symbols().contains_key("SP"@),
        predefined_symbols()["SP"@] == 0,
        !bind_ok(predefined_symbols(), "SP"@),
{
    broadcast use vstd::string::group_string_axioms;

    reveal_strlit("SP");
    reveal_strlit("LCL");
    reveal_strlit("ARG");
    reveal_strlit("THIS");
    reveal_strlit("THAT");
    reveal_strlit("SCREEN");
    reveal_strlit("KBD");
    assert("SP"@.len() == 2);
    assert("LCL"@.len() == 3);
    assert("SP"@ != "LCL"@);
    assert("SP"@ != "ARG"@);
    assert("SP"@ != "THIS"@);
    assert("SP"@ != "THAT"@);
    assert("SP"@ != "SCREEN"@);
    assert("SP"@ != "KBD"@);
}

/// The diagnostic text for a binding error, at the model level.
pub open spec fn bind_error_message(e: BindError) -> Seq<char> {
    match e {
        BindError::AlreadyBound { symbol } => "Unable to rebind symbol "@ + symbol@,
        BindError::TooManyBindings => "Too many bindings"@,
    }
}

impl BindError {
    /// The diagnostic text for this error.
    pub fn message(&self) -> (r: String)
        ensures
            r@ == bind_error_message(*self),
    {
        match self {
            BindError::AlreadyBound { symbol } => {
                let mut m = "Unable to rebind symbol ".to_owned();
                m.append(symbol.as_str());
                m
            },
            BindError::TooManyBindings => "Too many bindings".to_owned(),
        }
    }
}

} // verus!
