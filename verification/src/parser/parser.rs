use crate::error::AsmError;
use crate::parser::expression::{Expression, ExpressionType, Instr};
use crate::parser::tokenizer::{views, Tok, Token};
use vstd::hash_map::StringHashMap;
use vstd::prelude::*;

verus! {

/// The architecture's reserved bindings: five pointers, sixteen general
/// registers, the display base and the input device.
pub open spec fn reserved() -> Map<Seq<char>, u32> {
    Map::<Seq<char>, u32>::empty().insert("SP"@, 0).insert("LCL"@, 1).insert("ARG"@, 2).insert(
        "THIS"@,
        3,
    ).insert("THAT"@, 4).insert("R0"@, 0).insert("R1"@, 1).insert("R2"@, 2).insert(
        "R3"@,
        3,
    ).insert("R4"@, 4).insert("R5"@, 5).insert("R6"@, 6).insert("R7"@, 7).insert(
        "R8"@,
        8,
    ).insert("R9"@, 9).insert("R10"@, 10).insert("R11"@, 11).insert("R12"@, 12).insert(
        "R13"@,
        13,
    ).insert("R14"@, 14).insert("R15"@, 15).insert("SCREEN"@, 16384).insert("KBD"@, 24576)
}

/// Every address in the table fits the 15-bit address space.
pub open spec fn table_wf(m: Map<Seq<char>, u32>) -> bool {
    forall|k: Seq<char>| #[trigger] m.contains_key(k) ==> m[k] <= 32767
}

/// The label sweep: binds each declared label to its captured address,
/// first declaration winning, and never over a name already present.
pub open spec fn reg_labels(ts: Seq<Tok>, m: Map<Seq<char>, u32>) -> Result<
    Map<Seq<char>, u32>,
    AsmError,
>
    decreases ts.len(),
{
    if ts.len() == 0 {
        Ok(m)
    } else {
        match ts[0] {
            Tok::LabelDeclaration(n, a) => {
                if m.contains_key(n) {
                    reg_labels(ts.skip(1), m)
                } else if a > 32767 {
                    Err(AsmError::Structure)
                } else {
                    reg_labels(ts.skip(1), m.insert(n, a as u32))
                }
            },
            _ => reg_labels(ts.skip(1), m),
        }
    }
}

/// The variable sweep: allocates each address symbol not already bound a
/// fresh address, counting up from `next` in first-occurrence order.
pub open spec fn reg_vars(ts: Seq<Tok>, m: Map<Seq<char>, u32>, next: nat) -> Result<
    Map<Seq<char>, u32>,
    AsmError,
>
    decreases ts.len(),
{
    if ts.len() == 0 {
        Ok(m)
    } else {
        match ts[0] {
            Tok::AddressSymbol(n) => {
                if m.contains_key(n) {
                    reg_vars(ts.skip(1), m, next)
                } else if next > 32767 {
                    Err(AsmError::Structure)
                } else {
                    reg_vars(ts.skip(1), m.insert(n, next as u32), next + 1)
                }
            },
            _ => reg_vars(ts.skip(1), m, next),
        }
    }
}

/// The full registration: reserved names, then the label sweep, then the
/// variable sweep from the fixed base address 16.
pub open spec fn register_spec(ts: Seq<Tok>) -> Result<Map<Seq<char>, u32>, AsmError> {
    match reg_labels(ts, reserved()) {
        Err(e) => Err(e),
        Ok(m) => reg_vars(ts, m, 16),
    }
}

/// The resolution sweep: every address symbol is replaced by its bound
/// address, and token adjacency is checked against the grammar.
pub open spec fn parse_toks(ts: Seq<Tok>, m: Map<Seq<char>, u32>) -> Result<Seq<Instr>, AsmError>
    decreases ts.len(),
{
    if ts.len() == 0 {
        Ok(Seq::empty())
    } else {
        match ts[0] {
            Tok::AddressSymbol(n) => {
                if !m.contains_key(n) {
                    Err(AsmError::UnknownSymbol)
                } else {
                    match parse_toks(ts.skip(1), m) {
                        Err(e) => Err(e),
                        Ok(rest) => Ok(seq![Instr::Address { value: m[n] as nat }] + rest),
                    }
                }
            },
            Tok::AddressLiteral(v) => {
                if v > 32767 {
                    Err(AsmError::Structure)
                } else {
                    match parse_toks(ts.skip(1), m) {
                        Err(e) => Err(e),
                        Ok(rest) => Ok(seq![Instr::Address { value: v }] + rest),
                    }
                }
            },
            Tok::Destination(d) => {
                if ts.len() < 2 {
                    Err(AsmError::Structure)
                } else {
                    match ts[1] {
                        Tok::Computation(c) => match parse_toks(ts.skip(2), m) {
                            Err(e) => Err(e),
                            Ok(rest) => Ok(seq![Instr::Compute { dest: d, comp: c }] + rest),
                        },
                        _ => Err(AsmError::Structure),
                    }
                }
            },
            Tok::Computation(c) => {
                if ts.len() < 2 {
                    Err(AsmError::Structure)
                } else {
                    match ts[1] {
                        Tok::Jump(j) => match parse_toks(ts.skip(2), m) {
                            Err(e) => Err(e),
                            Ok(rest) => Ok(seq![Instr::Jump { comp: c, jump: j }] + rest),
                        },
                        _ => Err(AsmError::Structure),
                    }
                }
            },
            Tok::LabelDeclaration(_, _) => parse_toks(ts.skip(1), m),
            Tok::LineBoundary => parse_toks(ts.skip(1), m),
            Tok::Jump(_) => Err(AsmError::Structure),
        }
    }
}

/// Registration followed by resolution over the same token stream.
pub open spec fn parse_all(ts: Seq<Tok>) -> Result<Seq<Instr>, AsmError> {
    match register_spec(ts) {
        Err(e) => Err(e),
        Ok(m) => parse_toks(ts, m),
    }
}

/// The symbol table: names bound to 15-bit addresses, with the counter
/// for the next free variable slot.
pub struct SymTable {
    entries: StringHashMap<u32>,
    address: u32,
}

impl View for SymTable {
    type V = Map<Seq<char>, u32>;

    closed spec fn view(&self) -> Map<Seq<char>, u32> {
        self.entries@
    }
}

impl SymTable {
    /// The next free variable address.
    pub closed spec fn next_addr(&self) -> u32 {
        self.address
    }

    /// A table holding exactly the reserved bindings, ready to allocate
    /// variables from the fixed base address.
    pub fn new() -> (t: SymTable)
        ensures
            t@ == reserved(),
            t.next_addr() == 16,
    {
        let mut table = SymTable { entries: StringHashMap::new(), address: 16 };
        table.add_defaults();
        table
    }

    fn add_defaults(&mut self)
        requires
            old(self)@ == Map::<Seq<char>, u32>::empty(),
        ensures
            final(self)@ == reserved(),
            final(self).address == old(self).address,
    {
        self.set(String::from_str("SP"), 0);
        self.set(String::from_str("LCL"), 1);
        self.set(String::from_str("ARG"), 2);
        self.set(String::from_str("THIS"), 3);
        self.set(String::from_str("THAT"), 4);
        self.set(String::from_str("R0"), 0);
        self.set(String::from_str("R1"), 1);
        self.set(String::from_str("R2"), 2);
        self.set(String::from_str("R3"), 3);
        self.set(String::from_str("R4"), 4);
        self.set(String::from_str("R5"), 5);
        self.set(String::from_str("R6"), 6);
        self.set(String::from_str("R7"), 7);
        self.set(String::from_str("R8"), 8);
        self.set(String::from_str("R9"), 9);
        self.set(String::from_str("R10"), 10);
        self.set(String::from_str("R11"), 11);
        self.set(String::from_str("R12"), 12);
        self.set(String::from_str("R13"), 13);
        self.set(String::from_str("R14"), 14);
        self.set(String::from_str("R15"), 15);
        self.set(String::from_str("SCREEN"), 16384);
        self.set(String::from_str("KBD"), 24576);
    }

    /// The address bound to `key`, when there is one.
    pub fn get(&self, key: String) -> (r: Option<&u32>)
        ensures
            match r {
                Some(v) => self@.contains_key(key@) && *v == self@[key@],
                None => !self@.contains_key(key@),
            },
    {
        self.entries.get(key.as_str())
    }

    /// Binds `key` to the next free variable address and advances the
    /// counter.
    pub fn add(&mut self, key: String)
        requires
            old(self).next_addr() < u32::MAX,
        ensures
            final(self)@ == old(self)@.insert(key@, old(self).next_addr()),
            final(self).next_addr() == old(self).next_addr() + 1,
    {
        let addr = self.address;
        self.set(key, addr);
        self.address = addr + 1;
    }

    fn set(&mut self, key: String, value: u32)
        ensures
            final(self)@ == old(self)@.insert(key@, value),
            final(self).address == old(self).address,
    {
        self.entries.insert(key, value);
    }
}

/// The resolver: owns the symbol table of one compilation and turns the
/// token stream into resolved instruction records.
pub struct Parser {
    sym_table: SymTable,
}

impl Parser {
    /// The table this parser has built so far.
    pub closed spec fn table_view(&self) -> Map<Seq<char>, u32> {
        self.sym_table@
    }

    /// A parser that has seen no source yet: only the reserved names are
    /// bound, and no variable has been allocated.
    pub closed spec fn fresh(&self) -> bool {
        self.sym_table@ == reserved() && self.sym_table.next_addr() == 16
    }

    pub fn new() -> (p: Parser)
        ensures
            p.fresh(),
    {
        Parser { sym_table: SymTable::new() }
    }

    /// Runs both registration sweeps, then resolves the token stream into
    /// instruction records, halting at the first error.
    pub fn parse(&mut self, tokens: &Vec<Token>) -> (r: Result<Vec<Expression>, AsmError>)
        requires
            old(self).fresh(),
        ensures
            match r {
                Ok(es) => match parse_all(views(tokens@)) {
                    Ok(ms) => es@.len() == ms.len() && forall|j: int|
                        0 <= j < ms.len() ==> (#[trigger] es@[j]).model() == Some(ms[j]),
                    Err(_) => false,
                },
                Err(e) => parse_all(views(tokens@)) == Err::<Seq<Instr>, AsmError>(e),
            },
    {
        let ghost ts = views(tokens@);
        match self.register_symbols(tokens) {
            Err(e) => {
                return Err(e);
            },
            Ok(_) => {},
        }
        let ghost m = self.sym_table@;
        let mut expressions: Vec<Expression> = Vec::new();
        let ghost mut ms_acc: Seq<Instr> = Seq::empty();
        let mut i: usize = 0;
        proof {
            assert(ts.skip(0) =~= ts);
            match parse_toks(ts, m) {
                Ok(ms2) => {
                    assert(ms_acc + ms2 =~= ms2);
                },
                Err(_) => {},
            }
        }
        while i < tokens.len()
            invariant
                i <= tokens@.len(),
                ts == views(tokens@),
                ts.len() == tokens@.len(),
                table_wf(m),
                self.sym_table@ == m,
                register_spec(ts) == Ok::<Map<Seq<char>, u32>, AsmError>(m),
                expressions@.len() == ms_acc.len(),
                forall|j: int|
                    0 <= j < ms_acc.len() ==> (#[trigger] expressions@[j]).model() == Some(
                        ms_acc[j],
                    ),
                match parse_toks(ts.skip(i as int), m) {
                    Ok(ms2) => parse_toks(ts, m) == Ok::<Seq<Instr>, AsmError>(ms_acc + ms2),
                    Err(e) => parse_toks(ts, m) == Err::<Seq<Instr>, AsmError>(e),
                },
            decreases tokens@.len() - i,
        {
            proof {
                assert(ts.skip(i as int)[0] == ts[i as int]);
                assert(ts[i as int] == tokens@[i as int]@);
                assert(ts.skip(i as int).skip(1) =~= ts.skip(i + 1));
                if i + 2 <= ts.len() {
                    assert(ts.skip(i as int).skip(2) =~= ts.skip(i + 2));
                }
                if ts.skip(i as int).len() >= 2 {
                    assert(ts.skip(i as int)[1] == ts[i + 1]);
                }
            }
            match &tokens[i] {
                Token::AddressSymbol(s) => {
                    match self.sym_table.get(s.clone()) {
                        Some(e) => {
                            let value = *e;
                            let ghost ins = Instr::Address { value: value as nat };
                            let mut toks: Vec<Token> = Vec::new();
                            toks.push(Token::AddressLiteral(value));
                            let ex = Expression::new(ExpressionType::ACommand, toks);
                            expressions.push(ex);
                            proof {
                                assert(ex.model() == Some(ins));
                                let acc0 = ms_acc;
                                ms_acc = ms_acc + seq![ins];
                                match parse_toks(ts.skip(i + 1), m) {
                                    Ok(ms2) => {
                                        assert((acc0 + seq![ins]) + ms2 =~= acc0 + (seq![ins]
                                            + ms2));
                                    },
                                    Err(_) => {},
                                }
                            }
                            i += 1;
                        },
                        None => {
                            return Err(AsmError::UnknownSymbol);
                        },
                    }
                },
                Token::AddressLiteral(v) => {
                    if *v > 32767 {
                        return Err(AsmError::Structure);
                    }
                    let ghost ins = Instr::Address { value: *v as nat };
                    let mut toks: Vec<Token> = Vec::new();
                    toks.push(Token::AddressLiteral(*v));
                    let ex = Expression::new(ExpressionType::ACommand, toks);
                    expressions.push(ex);
                    proof {
                        assert(ex.model() == Some(ins));
                        let acc0 = ms_acc;
                        ms_acc = ms_acc + seq![ins];
                        match parse_toks(ts.skip(i + 1), m) {
                            Ok(ms2) => {
                                assert((acc0 + seq![ins]) + ms2 =~= acc0 + (seq![ins] + ms2));
                            },
                            Err(_) => {},
                        }
                    }
                    i += 1;
                },
                Token::Destination(s) => {
                    if i + 1 >= tokens.len() {
                        return Err(AsmError::Structure);
                    }
                    match &tokens[i + 1] {
                        Token::Computation(c) => {
                            let ghost ins = Instr::Compute { dest: s@, comp: c@ };
                            let mut toks: Vec<Token> = Vec::new();
                            toks.push(Token::Destination(s.clone()));
                            toks.push(Token::Computation(c.clone()));
                            let ex = Expression::new(ExpressionType::CCommand, toks);
                            expressions.push(ex);
                            proof {
                                assert(ex.model() == Some(ins));
                                let acc0 = ms_acc;
                                ms_acc = ms_acc + seq![ins];
                                match parse_toks(ts.skip(i + 2), m) {
                                    Ok(ms2) => {
                                        assert((acc0 + seq![ins]) + ms2 =~= acc0 + (seq![ins]
                                            + ms2));
                                    },
                                    Err(_) => {},
                                }
                            }
                            i += 2;
                        },
                        _ => {
                            return Err(AsmError::Structure);
                        },
                    }
                },
                Token::Computation(c) => {
                    if i + 1 >= tokens.len() {
                        return Err(AsmError::Structure);
                    }
                    match &tokens[i + 1] {
                        Token::Jump(j) => {
                            let ghost ins = Instr::Jump { comp: c@, jump: j@ };
                            let mut toks: Vec<Token> = Vec::new();
                            toks.push(Token::Computation(c.clone()));
                            toks.push(Token::Jump(j.clone()));
                            let ex = Expression::new(ExpressionType::JCommand, toks);
                            expressions.push(ex);
                            proof {
                                assert(ex.model() == Some(ins));
                                let acc0 = ms_acc;
                                ms_acc = ms_acc + seq![ins];
                                match parse_toks(ts.skip(i + 2), m) {
                                    Ok(ms2) => {
                                        assert((acc0 + seq![ins]) + ms2 =~= acc0 + (seq![ins]
                                            + ms2));
                                    },
                                    Err(_) => {},
                                }
                            }
                            i += 2;
                        },
                        _ => {
                            return Err(AsmError::Structure);
                        },
                    }
                },
                Token::LabelDeclaration(_, _) => {
                    i += 1;
                },
                Token::LineBoundary => {
                    i += 1;
                },
                Token::Jump(_) => {
                    return Err(AsmError::Structure);
                },
            }
        }
        proof {
            assert(ts.skip(i as int).len() == 0);
            assert(ms_acc + Seq::<Instr>::empty() =~= ms_acc);
        }
        Ok(expressions)
    }

    /// The two registration sweeps over the full token stream: label
    /// declarations first, then variable allocation in first-use order.
    fn register_symbols(&mut self, tokens: &Vec<Token>) -> (r: Result<(), AsmError>)
        requires
            old(self).sym_table@ == reserved(),
            old(self).sym_table.next_addr() == 16,
        ensures
            match r {
                Ok(_) => register_spec(views(tokens@)) == Ok::<Map<Seq<char>, u32>, AsmError>(
                    final(self).sym_table@,
                ) && table_wf(final(self).sym_table@),
                Err(e) => register_spec(views(tokens@)) == Err::<Map<Seq<char>, u32>, AsmError>(e),
            },
    {
        let ghost ts = views(tokens@);
        proof {
            lemma_reserved_wf();
            assert(ts.skip(0) =~= ts);
        }
        let mut i: usize = 0;
        while i < tokens.len()
            invariant
                i <= tokens@.len(),
                ts == views(tokens@),
                ts.len() == tokens@.len(),
                table_wf(self.sym_table@),
                self.sym_table.next_addr() == 16,
                reg_labels(ts, reserved()) == reg_labels(ts.skip(i as int), self.sym_table@),
            decreases tokens@.len() - i,
        {
            proof {
                assert(ts.skip(i as int)[0] == ts[i as int]);
                assert(ts[i as int] == tokens@[i as int]@);
                assert(ts.skip(i as int).skip(1) =~= ts.skip(i + 1));
            }
            match &tokens[i] {
                Token::LabelDeclaration(s, a) => {
                    let absent = self.sym_table.get(s.clone()).is_none();
                    if absent {
                        if *a > 32767 {
                            return Err(AsmError::Structure);
                        }
                        self.sym_table.set(s.clone(), *a);
                    }
                },
                _ => {},
            }
            i += 1;
        }
        proof {
            assert(ts.skip(i as int).len() == 0);
        }
        let ghost m1 = self.sym_table@;
        let mut i: usize = 0;
        proof {
            assert(ts.skip(0) =~= ts);
        }
        while i < tokens.len()
            invariant
                i <= tokens@.len(),
                ts == views(tokens@),
                ts.len() == tokens@.len(),
                table_wf(self.sym_table@),
                16 <= self.sym_table.next_addr() <= 32768,
                reg_labels(ts, reserved()) == Ok::<Map<Seq<char>, u32>, AsmError>(m1),
                reg_vars(ts, m1, 16) == reg_vars(
                    ts.skip(i as int),
                    self.sym_table@,
                    self.sym_table.next_addr() as nat,
                ),
            decreases tokens@.len() - i,
        {
            proof {
                assert(ts.skip(i as int)[0] == ts[i as int]);
                assert(ts[i as int] == tokens@[i as int]@);
                assert(ts.skip(i as int).skip(1) =~= ts.skip(i + 1));
            }
            match &tokens[i] {
                Token::AddressSymbol(s) => {
                    let absent = self.sym_table.get(s.clone()).is_none();
                    if absent {
                        if self.sym_table.address > 32767 {
                            return Err(AsmError::Structure);
                        }
                        self.sym_table.add(s.clone());
                    }
                },
                _ => {},
            }
            i += 1;
        }
        proof {
            assert(ts.skip(i as int).len() == 0);
        }
        Ok(())
    }
}

/// The reserved table respects the 15-bit address space.
pub proof fn lemma_reserved_wf()
    ensures
        table_wf(reserved()),
{
}

/// The address of the first label declaration of `n`, when there is one.
pub open spec fn first_label(ts: Seq<Tok>, n: Seq<char>) -> Option<nat>
    decreases ts.len(),
{
    if ts.len() == 0 {
        None
    } else {
        match ts[0] {
            Tok::LabelDeclaration(n2, a) => if n2 == n {
                Some(a)
            } else {
                first_label(ts.skip(1), n)
            },
            _ => first_label(ts.skip(1), n),
        }
    }
}

/// The distinct address symbols of `ts` whose names are not in `dom`,
/// in order of first occurrence.
pub open spec fn fresh_symbols(ts: Seq<Tok>, dom: Set<Seq<char>>) -> Seq<Seq<char>>
    decreases ts.len(),
{
    if ts.len() == 0 {
        Seq::empty()
    } else {
        match ts[0] {
            Tok::AddressSymbol(n) => if dom.contains(n) {
                fresh_symbols(ts.skip(1), dom)
            } else {
                seq![n] + fresh_symbols(ts.skip(1), dom.insert(n))
            },
            _ => fresh_symbols(ts.skip(1), dom),
        }
    }
}

/// The label sweep never rebinds a name that is already bound.
proof fn lemma_reg_labels_preserves(ts: Seq<Tok>, m: Map<Seq<char>, u32>, k: Seq<char>)
    requires
        m.contains_key(k),
    ensures
        match reg_labels(ts, m) {
            Ok(m2) => m2.contains_key(k) && m2[k] == m[k],
            Err(_) => true,
        },
    decreases ts.len(),
{
    if ts.len() == 0 {
    } else {
        match ts[0] {
            Tok::LabelDeclaration(n, a) => {
                if m.contains_key(n) {
                    lemma_reg_labels_preserves(ts.skip(1), m, k);
                } else if a > 32767 {
                } else {
                    lemma_reg_labels_preserves(ts.skip(1), m.insert(n, a as u32), k);
                }
            },
            _ => {
                lemma_reg_labels_preserves(ts.skip(1), m, k);
            },
        }
    }
}

/// The variable sweep never rebinds a name that is already bound.
proof fn lemma_reg_vars_preserves(ts: Seq<Tok>, m: Map<Seq<char>, u32>, next: nat, k: Seq<char>)
    requires
        m.contains_key(k),
    ensures
        match reg_vars(ts, m, next) {
            Ok(m2) => m2.contains_key(k) && m2[k] == m[k],
            Err(_) => true,
        },
    decreases ts.len(),
{
    if ts.len() == 0 {
    } else {
        match ts[0] {
            Tok::AddressSymbol(n) => {
                if m.contains_key(n) {
                    lemma_reg_vars_preserves(ts.skip(1), m, next, k);
                } else if next > 32767 {
                } else {
                    lemma_reg_vars_preserves(ts.skip(1), m.insert(n, next as u32), next + 1, k);
                }
            },
            _ => {
                lemma_reg_vars_preserves(ts.skip(1), m, next, k);
            },
        }
    }
}

/// The label sweep binds an unbound name to its first declared address.
proof fn lemma_reg_labels_binds(ts: Seq<Tok>, m: Map<Seq<char>, u32>, n: Seq<char>, a: nat)
    requires
        !m.contains_key(n),
        first_label(ts, n) == Some(a),
    ensures
        match reg_labels(ts, m) {
            Ok(m2) => m2.contains_key(n) && m2[n] as nat == a,
            Err(_) => true,
        },
    decreases ts.len(),
{
    if ts.len() == 0 {
    } else {
        match ts[0] {
            Tok::LabelDeclaration(n2, a2) => {
                if n2 == n {
                    if a > 32767 {
                    } else {
                        lemma_reg_labels_preserves(ts.skip(1), m.insert(n, a as u32), n);
                    }
                } else {
                    if m.contains_key(n2) {
                        lemma_reg_labels_binds(ts.skip(1), m, n, a);
                    } else if a2 > 32767 {
                    } else {
                        lemma_reg_labels_binds(ts.skip(1), m.insert(n2, a2 as u32), n, a);
                    }
                }
            },
            _ => {
                lemma_reg_labels_binds(ts.skip(1), m, n, a);
            },
        }
    }
}

/// The variable sweep allocates the fresh symbols consecutive addresses
/// in first-occurrence order: the symbol at position `idx` of the fresh
/// list receives `next + idx`.
proof fn lemma_reg_vars_alloc(ts: Seq<Tok>, m: Map<Seq<char>, u32>, next: nat, idx: int)
    requires
        0 <= idx < fresh_symbols(ts, m.dom()).len(),
    ensures
        match reg_vars(ts, m, next) {
            Ok(m2) => {
                let s = fresh_symbols(ts, m.dom())[idx];
                m2.contains_key(s) && m2[s] as nat == next + idx
            },
            Err(_) => true,
        },
    decreases ts.len(),
{
    if ts.len() == 0 {
    } else {
        match ts[0] {
            Tok::AddressSymbol(n) => {
                if m.contains_key(n) {
                    lemma_reg_vars_alloc(ts.skip(1), m, next, idx);
                } else if next > 32767 {
                } else {
                    let m2 = m.insert(n, next as u32);
                    assert(m2.dom() =~= m.dom().insert(n));
                    if idx == 0 {
                        lemma_reg_vars_preserves(ts.skip(1), m2, next + 1, n);
                    } else {
                        lemma_reg_vars_alloc(ts.skip(1), m2, next + 1, idx - 1);
                    }
                }
            },
            _ => {
                lemma_reg_vars_alloc(ts.skip(1), m, next, idx);
            },
        }
    }
}

/// A label declared anywhere in the stream resolves to the address it
/// captured at its first declaration: a use before the declaration sees
/// the same binding as a use after it, since the label sweep runs over
/// the whole stream before any symbol is resolved.
pub proof fn lemma_label_forward_reference(ts: Seq<Tok>, n: Seq<char>, a: nat)
    requires
        !reserved().contains_key(n),
        first_label(ts, n) == Some(a),
    ensures
        match register_spec(ts) {
            Ok(m) => m.contains_key(n) && m[n] as nat == a,
            Err(_) => true,
        },
{
    lemma_reg_labels_binds(ts, reserved(), n, a);
    match reg_labels(ts, reserved()) {
        Ok(lm) => {
            lemma_reg_vars_preserves(ts, lm, 16, n);
        },
        Err(_) => {},
    }
}

/// Undeclared symbols receive consecutive addresses from the fixed base
/// 16, in order of first occurrence: the symbol at position `idx` of the
/// fresh list is bound to `16 + idx`. Resolution reads the finished
/// table, so every reference to the symbol goes through this one
/// binding.
pub proof fn lemma_variable_allocation_order(ts: Seq<Tok>, idx: int)
    requires
        match reg_labels(ts, reserved()) {
            Ok(lm) => 0 <= idx < fresh_symbols(ts, lm.dom()).len(),
            Err(_) => false,
        },
    ensures
        match (reg_labels(ts, reserved()), register_spec(ts)) {
            (Ok(lm), Ok(m)) => {
                let s = fresh_symbols(ts, lm.dom())[idx];
                m.contains_key(s) && m[s] as nat == 16 + idx
            },
            (Ok(_), Err(_)) => true,
            (Err(_), _) => true,
        },
{
    match reg_labels(ts, reserved()) {
        Ok(lm) => {
            lemma_reg_vars_alloc(ts, lm, 16, idx);
        },
        Err(_) => {},
    }
}

/// No declaration or allocation ever overrides a reserved name: after
/// both sweeps it still holds its architecture binding.
pub proof fn lemma_reserved_binding(ts: Seq<Tok>, n: Seq<char>)
    requires
        reserved().contains_key(n),
    ensures
        match register_spec(ts) {
            Ok(m) => m.contains_key(n) && m[n] == reserved()[n],
            Err(_) => true,
        },
{
    lemma_reg_labels_preserves(ts, reserved(), n);
    match reg_labels(ts, reserved()) {
        Ok(lm) => {
            lemma_reg_vars_preserves(ts, lm, 16, n);
        },
        Err(_) => {},
    }
}

/// The display base name used as an address symbol resolves to its
/// architecture address, never to a fresh variable slot.
pub proof fn lemma_screen_binding(ts: Seq<Tok>)
    ensures
        match register_spec(ts) {
            Ok(m) => m.contains_key("SCREEN"@) && m["SCREEN"@] == 16384,
            Err(_) => true,
        },
{
    reveal_strlit("SCREEN");
    reveal_strlit("KBD");
    assert("SCREEN"@.len() == 6);
    assert("KBD"@.len() == 3);
    assert(reserved()["SCREEN"@] == 16384);
    lemma_reserved_binding(ts, "SCREEN"@);
}

} // verus!
