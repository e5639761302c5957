use crate::binary::{bits, lemma_bits_01, lemma_bits_index, lemma_bits_len, push_bits};
use crate::error::AsmError;
use crate::parser::tokenizer::{Tok, Token};
use crate::text::{str_eq, string_from_range};
use vstd::arithmetic::power2::pow2;
use vstd::prelude::*;

verus! {

/// The 6-bit code of a computation mnemonic, or `None` when the mnemonic
/// is not in the fixed table.
pub open spec fn comp_code(s: Seq<char>) -> Option<u8> {
    if s == "0"@ {
        Some(0b101010u8)
    } else if s == "1"@ {
        Some(0b111111u8)
    } else if s == "-1"@ {
        Some(0b111010u8)
    } else if s == "D"@ {
        Some(0b001100u8)
    } else if s == "A"@ || s == "M"@ {
        Some(0b110000u8)
    } else if s == "!D"@ {
        Some(0b001101u8)
    } else if s == "!A"@ || s == "!M"@ {
        Some(0b110001u8)
    } else if s == "-D"@ {
        Some(0b001111u8)
    } else if s == "-A"@ || s == "-M"@ {
        Some(0b110011u8)
    } else if s == "D+1"@ {
        Some(0b011111u8)
    } else if s == "A+1"@ || s == "M+1"@ {
        Some(0b110111u8)
    } else if s == "D-1"@ {
        Some(0b001110u8)
    } else if s == "A-1"@ || s == "M-1"@ {
        Some(0b110010u8)
    } else if s == "D+A"@ || s == "D+M"@ || s == "A+D"@ || s == "M+D"@ {
        Some(0b000010u8)
    } else if s == "D-A"@ || s == "D-M"@ {
        Some(0b010011u8)
    } else if s == "A-D"@ || s == "M-D"@ {
        Some(0b000111u8)
    } else if s == "D&A"@ || s == "D&M"@ {
        Some(0b000000u8)
    } else if s == "D|A"@ || s == "D|M"@ {
        Some(0b010101u8)
    } else {
        None
    }
}

/// The 3-bit code of a destination mask; an empty or unrecognized mask
/// stores nowhere and encodes as zero.
pub open spec fn dest_code(s: Seq<char>) -> u8 {
    if s == "M"@ {
        0b001u8
    } else if s == "D"@ {
        0b010u8
    } else if s == "MD"@ {
        0b011u8
    } else if s == "A"@ {
        0b100u8
    } else if s == "AM"@ {
        0b101u8
    } else if s == "AD"@ {
        0b110u8
    } else if s == "AMD"@ {
        0b111u8
    } else {
        0b000u8
    }
}

/// The 3-bit code of a jump condition, or `None` when the condition is
/// not in the fixed table.
pub open spec fn jump_code(s: Seq<char>) -> Option<u8> {
    if s == "JNG"@ {
        Some(0b000u8)
    } else if s == "JGT"@ {
        Some(0b001u8)
    } else if s == "JEQ"@ {
        Some(0b010u8)
    } else if s == "JGE"@ {
        Some(0b011u8)
    } else if s == "JLT"@ {
        Some(0b100u8)
    } else if s == "JNE"@ {
        Some(0b101u8)
    } else if s == "JLE"@ {
        Some(0b110u8)
    } else if s == "JMP"@ {
        Some(0b111u8)
    } else {
        None
    }
}

pub fn comp_to_code(s: &str) -> (r: Option<u8>)
    ensures
        r == comp_code(s@),
{
    if str_eq(s, "0") {
        Some(0b101010u8)
    } else if str_eq(s, "1") {
        Some(0b111111u8)
    } else if str_eq(s, "-1") {
        Some(0b111010u8)
    } else if str_eq(s, "D") {
        Some(0b001100u8)
    } else if str_eq(s, "A") || str_eq(s, "M") {
        Some(0b110000u8)
    } else if str_eq(s, "!D") {
        Some(0b001101u8)
    } else if str_eq(s, "!A") || str_eq(s, "!M") {
        Some(0b110001u8)
    } else if str_eq(s, "-D") {
        Some(0b001111u8)
    } else if str_eq(s, "-A") || str_eq(s, "-M") {
        Some(0b110011u8)
    } else if str_eq(s, "D+1") {
        Some(0b011111u8)
    } else if str_eq(s, "A+1") || str_eq(s, "M+1") {
        Some(0b110111u8)
    } else if str_eq(s, "D-1") {
        Some(0b001110u8)
    } else if str_eq(s, "A-1") || str_eq(s, "M-1") {
        Some(0b110010u8)
    } else if str_eq(s, "D+A") || str_eq(s, "D+M") || str_eq(s, "A+D") || str_eq(s, "M+D") {
        Some(0b000010u8)
    } else if str_eq(s, "D-A") || str_eq(s, "D-M") {
        Some(0b010011u8)
    } else if str_eq(s, "A-D") || str_eq(s, "M-D") {
        Some(0b000111u8)
    } else if str_eq(s, "D&A") || str_eq(s, "D&M") {
        Some(0b000000u8)
    } else if str_eq(s, "D|A") || str_eq(s, "D|M") {
        Some(0b010101u8)
    } else {
        None
    }
}

pub fn dest_to_code(s: &str) -> (r: u8)
    ensures
        r == dest_code(s@),
{
    if str_eq(s, "M") {
        0b001u8
    } else if str_eq(s, "D") {
        0b010u8
    } else if str_eq(s, "MD") {
        0b011u8
    } else if str_eq(s, "A") {
        0b100u8
    } else if str_eq(s, "AM") {
        0b101u8
    } else if str_eq(s, "AD") {
        0b110u8
    } else if str_eq(s, "AMD") {
        0b111u8
    } else {
        0b000u8
    }
}

pub fn jump_to_code(s: &str) -> (r: Option<u8>)
    ensures
        r == jump_code(s@),
{
    if str_eq(s, "JNG") {
        Some(0b000u8)
    } else if str_eq(s, "JGT") {
        Some(0b001u8)
    } else if str_eq(s, "JEQ") {
        Some(0b010u8)
    } else if str_eq(s, "JGE") {
        Some(0b011u8)
    } else if str_eq(s, "JLT") {
        Some(0b100u8)
    } else if str_eq(s, "JNE") {
        Some(0b101u8)
    } else if str_eq(s, "JLE") {
        Some(0b110u8)
    } else if str_eq(s, "JMP") {
        Some(0b111u8)
    } else {
        None
    }
}

/// Whether a computation mnemonic reads the secondary (memory) operand.
pub fn contains_m(s: &str) -> (r: bool)
    ensures
        r == s@.contains('M'),
{
    let n = s.unicode_len();
    let mut i: usize = 0;
    while i < n
        invariant
            n == s@.len(),
            i <= n,
            forall|j: int| 0 <= j < i ==> s@[j] != 'M',
        decreases n - i,
    {
        if s.get_char(i) == 'M' {
            proof {
                assert(s@.contains('M'));
            }
            return true;
        }
        i += 1;
    }
    proof {
        assert(!s@.contains('M'));
    }
    false
}

/// A fully resolved instruction record: the mathematical shape that the
/// encoder consumes.
pub enum Instr {
    Address { value: nat },
    Compute { dest: Seq<char>, comp: Seq<char> },
    Jump { comp: Seq<char>, jump: Seq<char> },
}

/// The 16-character word of an address instruction.
pub open spec fn a_word(v: nat) -> Seq<char> {
    seq!['0'] + bits(v, 15)
}

/// The 16-character word of a compute or jump instruction, from its
/// secondary-operand flag and its three code fields.
pub open spec fn c_word(m: bool, cc: u8, dc: u8, jc: u8) -> Seq<char> {
    seq!['1', '1', '1'] + seq![
        if m {
            '1'
        } else {
            '0'
        },
    ] + bits(cc as nat, 6) + bits(dc as nat, 3) + bits(jc as nat, 3)
}

/// The word of a compute or jump instruction given its three mnemonics;
/// meaningful only when the computation and jump codes exist.
pub open spec fn c_word_of(comp: Seq<char>, dest: Seq<char>, jump: Seq<char>) -> Seq<char> {
    match (comp_code(comp), jump_code(jump)) {
        (Some(cc), Some(jc)) => c_word(comp.contains('M'), cc, dest_code(dest), jc),
        _ => Seq::empty(),
    }
}

/// The encoder: deterministic and total for well-formed records; an
/// unknown computation or jump mnemonic is a fatal encoding error.
pub open spec fn encode_spec(i: Instr) -> Result<Seq<char>, AsmError> {
    match i {
        Instr::Address { value } => Ok(a_word(value)),
        Instr::Compute { dest, comp } => match comp_code(comp) {
            Some(cc) => Ok(c_word(comp.contains('M'), cc, dest_code(dest), 0)),
            None => Err(AsmError::Encoding),
        },
        Instr::Jump { comp, jump } => match (comp_code(comp), jump_code(jump)) {
            (Some(cc), Some(jc)) => Ok(c_word(comp.contains('M'), cc, 0, jc)),
            (None, _) => Err(AsmError::Encoding),
            (Some(_), None) => Err(AsmError::Encoding),
        },
    }
}

/// The three mnemonic fields of a compute or jump instruction, gathered
/// before encoding. An absent destination or jump is the empty mask
/// `""` or the null condition `"JNG"`, both of which encode as zero.
pub struct AsmCommandDescriptor<'a> {
    pub comp: &'a str,
    pub dest: &'a str,
    pub jump: &'a str,
}

impl<'a> AsmCommandDescriptor<'a> {
    pub fn new() -> (r: AsmCommandDescriptor<'a>)
        ensures
            r.comp@ == Seq::<char>::empty(),
            r.dest@ == Seq::<char>::empty(),
            r.jump@ == Seq::<char>::empty(),
    {
        proof {
            reveal_strlit("");
        }
        AsmCommandDescriptor { comp: "", dest: "", jump: "" }
    }

    /// Emits the 16-character binary word of this descriptor.
    pub fn into_hack(self) -> (r: String)
        requires
            comp_code(self.comp@) is Some,
            jump_code(self.jump@) is Some,
        ensures
            r@ == c_word_of(self.comp@, self.dest@, self.jump@),
    {
        broadcast use lemma_bits_len;

        let cc = comp_to_code(self.comp).unwrap();
        let dc = dest_to_code(self.dest);
        let jc = jump_to_code(self.jump).unwrap();
        let m = contains_m(self.comp);
        let mut w: Vec<char> = Vec::new();
        w.push('1');
        w.push('1');
        w.push('1');
        w.push(
            if m {
                '1'
            } else {
                '0'
            },
        );
        push_bits(&mut w, cc as u32, 6);
        push_bits(&mut w, dc as u32, 3);
        push_bits(&mut w, jc as u32, 3);
        proof {
            assert(w@ =~= c_word(self.comp@.contains('M'), cc, dc, jc));
        }
        string_from_range(&w, 0, w.len())
    }
}

/// The three classes of instruction record.
#[derive(Clone, Copy, Debug)]
pub enum ExpressionType {
    ACommand,
    CCommand,
    JCommand,
}

/// A resolved, typed instruction record: an instruction class together
/// with the tokens that carry its resolved operands.
pub struct Expression {
    pub e_type: ExpressionType,
    pub tokens: Vec<Token>,
}

impl Expression {
    pub fn new(e_type: ExpressionType, tokens: Vec<Token>) -> (r: Expression)
        ensures
            r.e_type == e_type,
            r.tokens == tokens,
    {
        Expression { e_type, tokens }
    }

    /// The instruction record that this expression denotes, when its
    /// class and token shapes agree and every operand is in range.
    pub open spec fn model(&self) -> Option<Instr> {
        match self.e_type {
            ExpressionType::ACommand => {
                if self.tokens@.len() == 1 {
                    match self.tokens@[0]@ {
                        Tok::AddressLiteral(v) => if v <= 32767 {
                            Some(Instr::Address { value: v })
                        } else {
                            None
                        },
                        _ => None,
                    }
                } else {
                    None
                }
            },
            ExpressionType::CCommand => {
                if self.tokens@.len() == 2 {
                    match (self.tokens@[0]@, self.tokens@[1]@) {
                        (Tok::Destination(d), Tok::Computation(c)) => Some(
                            Instr::Compute { dest: d, comp: c },
                        ),
                        _ => None,
                    }
                } else {
                    None
                }
            },
            ExpressionType::JCommand => {
                if self.tokens@.len() == 2 {
                    match (self.tokens@[0]@, self.tokens@[1]@) {
                        (Tok::Computation(c), Tok::Jump(j)) => Some(
                            Instr::Jump { comp: c, jump: j },
                        ),
                        _ => None,
                    }
                } else {
                    None
                }
            },
        }
    }

    /// Whether this record denotes an instruction whose mnemonics are all
    /// in the fixed tables, so that encoding must succeed.
    pub fn can_encode(&self) -> (b: bool)
        ensures
            b == self.encodable(),
    {
        match self.e_type {
            ExpressionType::ACommand => {
                if self.tokens.len() != 1 {
                    return false;
                }
                match &self.tokens[0] {
                    Token::AddressLiteral(x) => *x <= 32767,
                    _ => false,
                }
            },
            ExpressionType::CCommand => {
                if self.tokens.len() != 2 {
                    return false;
                }
                match (&self.tokens[0], &self.tokens[1]) {
                    (Token::Destination(_), Token::Computation(c)) => comp_to_code(
                        c.as_str(),
                    ).is_some(),
                    _ => false,
                }
            },
            ExpressionType::JCommand => {
                if self.tokens.len() != 2 {
                    return false;
                }
                match (&self.tokens[0], &self.tokens[1]) {
                    (Token::Computation(c), Token::Jump(j)) => comp_to_code(c.as_str()).is_some()
                        && jump_to_code(j.as_str()).is_some(),
                    _ => false,
                }
            },
        }
    }
}

/// Encoding of an instruction record into its binary word.
pub trait Evaluate {
    /// Whether the record is well formed and every mnemonic it uses is
    /// in its fixed table.
    spec fn encodable(&self) -> bool;

    /// The 16-character word that the record encodes to.
    spec fn encoded(&self) -> Seq<char>;

    fn evaluate(&self) -> (r: String)
        requires
            self.encodable(),
        ensures
            r@ == self.encoded(),
    ;
}

impl Evaluate for Expression {
    open spec fn encodable(&self) -> bool {
        match self.model() {
            Some(i) => encode_spec(i) is Ok,
            None => false,
        }
    }

    open spec fn encoded(&self) -> Seq<char> {
        match self.model() {
            Some(i) => match encode_spec(i) {
                Ok(w) => w,
                Err(_) => Seq::empty(),
            },
            None => Seq::empty(),
        }
    }

    fn evaluate(&self) -> (r: String) {
        match self.e_type {
            ExpressionType::ACommand => {
                let x = match &self.tokens[0] {
                    Token::AddressLiteral(x) => *x,
                    _ => unreached(),
                };
                let mut w: Vec<char> = Vec::new();
                w.push('0');
                push_bits(&mut w, x, 15);
                proof {
                    assert(w@ =~= a_word(x as nat));
                }
                string_from_range(&w, 0, w.len())
            },
            ExpressionType::CCommand => {
                let (d, c) = match (&self.tokens[0], &self.tokens[1]) {
                    (Token::Destination(d), Token::Computation(c)) => (d, c),
                    _ => unreached(),
                };
                let mut cmd = AsmCommandDescriptor::new();
                cmd.dest = d.as_str();
                cmd.comp = c.as_str();
                cmd.jump = "JNG";
                cmd.into_hack()
            },
            ExpressionType::JCommand => {
                let (c, j) = match (&self.tokens[0], &self.tokens[1]) {
                    (Token::Computation(c), Token::Jump(j)) => (c, j),
                    _ => unreached(),
                };
                let mut cmd = AsmCommandDescriptor::new();
                cmd.comp = c.as_str();
                cmd.jump = j.as_str();
                let ghost dv = cmd.dest@;
                let r = cmd.into_hack();
                proof {
                    reveal_strlit("");
                    reveal_strlit("M");
                    reveal_strlit("D");
                    reveal_strlit("MD");
                    reveal_strlit("A");
                    reveal_strlit("AM");
                    reveal_strlit("AD");
                    reveal_strlit("AMD");
                    assert(dest_code(dv) == 0);
                }
                r
            },
        }
    }
}

/// Every word that the encoder emits has exactly 16 characters, each of
/// which is `0` or `1`.
pub proof fn lemma_word_wellformed(i: Instr)
    ensures
        match encode_spec(i) {
            Ok(w) => w.len() == 16 && forall|j: int| 0 <= j < 16 ==> w[j] == '0' || w[j] == '1',
            Err(_) => true,
        },
{
    broadcast use lemma_bits_len;

    match encode_spec(i) {
        Ok(w) => {
            match i {
                Instr::Address { value } => {
                    assert forall|j: int| 0 <= j < 16 implies w[j] == '0' || w[j] == '1' by {
                        if j >= 1 {
                            lemma_bits_01(value, 15, j - 1);
                            assert(w[j] == bits(value, 15)[j - 1]);
                        }
                    }
                },
                Instr::Compute { dest, comp } => {
                    lemma_c_word_wellformed(
                        comp.contains('M'),
                        comp_code(comp)->0,
                        dest_code(dest),
                        0,
                    );
                },
                Instr::Jump { comp, jump } => {
                    lemma_c_word_wellformed(comp.contains('M'), comp_code(comp)->0, 0, jump_code(
                        jump,
                    )->0);
                },
            }
        },
        Err(_) => {},
    }
}

proof fn lemma_c_word_wellformed(m: bool, cc: u8, dc: u8, jc: u8)
    ensures
        c_word(m, cc, dc, jc).len() == 16,
        forall|j: int|
            0 <= j < 16 ==> c_word(m, cc, dc, jc)[j] == '0' || c_word(m, cc, dc, jc)[j] == '1',
{
    broadcast use lemma_bits_len;

    let w = c_word(m, cc, dc, jc);
    assert forall|j: int| 0 <= j < 16 implies w[j] == '0' || w[j] == '1' by {
        if 4 <= j < 10 {
            lemma_bits_01(cc as nat, 6, j - 4);
            assert(w[j] == bits(cc as nat, 6)[j - 4]);
        } else if 10 <= j < 13 {
            lemma_bits_01(dc as nat, 3, j - 10);
            assert(w[j] == bits(dc as nat, 3)[j - 10]);
        } else if 13 <= j < 16 {
            lemma_bits_01(jc as nat, 3, j - 13);
            assert(w[j] == bits(jc as nat, 3)[j - 13]);
        }
    }
}

/// The word of an address instruction starts with `0`, and its low
/// fifteen bits are the binary expansion of the operand: for `i < 15`,
/// the character at distance `i` from the right is `1` exactly when
/// `v / 2^i` is odd.
pub proof fn lemma_address_word_bit(v: nat, i: nat)
    requires
        v <= 32767,
        i < 15,
    ensures
        encode_spec(Instr::Address { value: v }) == Ok::<Seq<char>, AsmError>(a_word(v)),
        a_word(v).len() == 16,
        a_word(v)[0] == '0',
        a_word(v)[15 - i] == (if (v / pow2(i)) % 2 == 1 {
            '1'
        } else {
            '0'
        }),
{
    broadcast use lemma_bits_len;

    lemma_bits_index(v, 15, i);
    assert(a_word(v)[15 - i] == bits(v, 15)[14 - i]);
}

/// A compute or jump word begins with `111`, and its fourth character,
/// the secondary-operand flag, is `1` exactly when the computation
/// mnemonic contains the letter `M`.
pub proof fn lemma_compute_word_flags(i: Instr)
    requires
        !(i is Address),
        encode_spec(i) is Ok,
    ensures
        match encode_spec(i) {
            Ok(w) => {
                &&& w[0] == '1'
                &&& w[1] == '1'
                &&& w[2] == '1'
                &&& (w[3] == '1' <==> match i {
                    Instr::Compute { comp, .. } => comp.contains('M'),
                    Instr::Jump { comp, .. } => comp.contains('M'),
                    Instr::Address { .. } => false,
                })
            },
            Err(_) => true,
        },
{
    broadcast use lemma_bits_len;

}

} // verus!
