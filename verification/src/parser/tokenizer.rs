use crate::error::AsmError;
use crate::text::{
    char_is_digit, chars_of, find_comment, find_comment_in, find_in, find_k, is_digit_char,
    lemma_find_k, parse_digits, str_val, string_from_range, FindKind,
};
use vstd::prelude::*;

verus! {

/// The mathematical shape of one lexical token.
pub enum Tok {
    AddressLiteral(nat),
    AddressSymbol(Seq<char>),
    LabelDeclaration(Seq<char>, nat),
    Destination(Seq<char>),
    Computation(Seq<char>),
    Jump(Seq<char>),
    LineBoundary,
}

/// One lexical token of the assembly source.
///
/// An address instruction yields either a literal operand or a symbolic
/// one; a label declaration carries the address of the next instruction
/// slot; a computation line yields a destination/computation pair or a
/// computation/jump pair.
#[derive(Debug)]
pub enum Token {
    AddressLiteral(u32),
    AddressSymbol(String),
    LabelDeclaration(String, u32),
    Destination(String),
    Computation(String),
    Jump(String),
    LineBoundary,
}

impl View for Token {
    type V = Tok;

    open spec fn view(&self) -> Tok {
        match self {
            Token::AddressLiteral(v) => Tok::AddressLiteral(*v as nat),
            Token::AddressSymbol(s) => Tok::AddressSymbol(s@),
            Token::LabelDeclaration(s, a) => Tok::LabelDeclaration(s@, *a as nat),
            Token::Destination(s) => Tok::Destination(s@),
            Token::Computation(s) => Tok::Computation(s@),
            Token::Jump(s) => Tok::Jump(s@),
            Token::LineBoundary => Tok::LineBoundary,
        }
    }
}

/// The views of a token sequence.
pub open spec fn views(ts: Seq<Token>) -> Seq<Tok> {
    ts.map_values(|t: Token| t@)
}

pub broadcast proof fn lemma_views_add(a: Seq<Token>, b: Seq<Token>)
    ensures
        #[trigger] views(a + b) == views(a) + views(b),
{
    assert(views(a + b) =~= views(a) + views(b));
}

/// The source with every space removed.
pub open spec fn strip_spaces(s: Seq<char>) -> Seq<char>
    decreases s.len(),
{
    if s.len() == 0 {
        Seq::empty()
    } else if s.last() == ' ' {
        strip_spaces(s.drop_last())
    } else {
        strip_spaces(s.drop_last()).push(s.last())
    }
}

/// The tokens of one space-free, newline-free logical line, together with
/// the instruction count after the line. `count` is the number of
/// instructions emitted so far; a label declaration binds to it.
pub open spec fn line_toks(line: Seq<char>, count: nat) -> Result<(Seq<Tok>, nat), AsmError> {
    let l = line.take(find_comment(line));
    if l.len() == 0 {
        Ok((Seq::empty(), count))
    } else if l[0] == '@' {
        let rest = l.skip(1);
        let idlen = find_k(FindKind::NonId, rest);
        let id = rest.take(idlen);
        if idlen == 0 {
            Err(AsmError::Lexical)
        } else if is_digit_char(id[0]) {
            if find_k(FindKind::NonDigit, id) < id.len() {
                Err(AsmError::Lexical)
            } else if str_val(id) > u32::MAX {
                Err(AsmError::Lexical)
            } else {
                Ok((seq![Tok::AddressLiteral(str_val(id))], count + 1))
            }
        } else {
            Ok((seq![Tok::AddressSymbol(id)], count + 1))
        }
    } else if l[0] == '(' {
        let rest = l.skip(1);
        let j = find_k(FindKind::RightParen, rest);
        if j == rest.len() {
            Err(AsmError::Lexical)
        } else if j == 0 {
            Err(AsmError::Lexical)
        } else if count > u32::MAX {
            Err(AsmError::Lexical)
        } else {
            Ok((seq![Tok::LabelDeclaration(rest.take(j), count)], count))
        }
    } else {
        let k = find_k(FindKind::Separator, l);
        if k == l.len() {
            Ok((seq![Tok::Computation(l)], count + 1))
        } else if l[k] == '=' {
            let d = l.take(k);
            let c = l.skip(k + 1);
            if c.len() == 0 {
                Err(AsmError::Lexical)
            } else {
                Ok((seq![Tok::Destination(d), Tok::Computation(c)], count + 1))
            }
        } else {
            let c = l.take(k);
            let j = l.skip(k + 1);
            if c.len() == 0 || j.len() == 0 {
                Err(AsmError::Lexical)
            } else {
                Ok((seq![Tok::Computation(c), Tok::Jump(j)], count + 1))
            }
        }
    }
}

/// The token stream of a space-free source, scanned line by line.
pub open spec fn scan_lines(s: Seq<char>, count: nat) -> Result<Seq<Tok>, AsmError>
    decreases s.len(),
{
    if s.len() == 0 {
        Ok(Seq::empty())
    } else {
        let k = find_k(FindKind::Newline, s);
        match line_toks(s.take(k), count) {
            Err(e) => Err(e),
            Ok((ts, c2)) => {
                let rest = if 0 <= k < s.len() {
                    s.skip(k + 1)
                } else {
                    Seq::<char>::empty()
                };
                match scan_lines(rest, c2) {
                    Err(e) => Err(e),
                    Ok(ts2) => Ok(ts + ts2),
                }
            },
        }
    }
}

/// The token stream of a raw source text.
pub open spec fn scan_all(s: Seq<char>) -> Result<Seq<Tok>, AsmError> {
    scan_lines(strip_spaces(s), 0)
}

/// The lexical scanner: a cursor over the space-free character buffer,
/// dispatching on the first character of each logical line.
pub struct Tokenizer {
    raw: Vec<char>,
    current_index: usize,
    line: usize,
}

impl Tokenizer {
    pub fn new() -> Tokenizer {
        Tokenizer { raw: Vec::new(), current_index: 0, line: 0 }
    }

    /// Scans the whole source into its token sequence, or reports the
    /// first malformed token.
    pub fn tokenize(&mut self, source: String) -> (r: Result<Vec<Token>, AsmError>)
        ensures
            match r {
                Ok(ts) => scan_all(source@) == Ok::<Seq<Tok>, AsmError>(views(ts@)),
                Err(e) => scan_all(source@) == Err::<Seq<Tok>, AsmError>(e),
            },
    {
        broadcast use lemma_views_add;

        let cs = chars_of(source.as_str());
        let v = strip(&cs);
        let mut tokens: Vec<Token> = Vec::new();
        let mut p: usize = 0;
        let mut count: usize = 0;
        proof {
            assert(v@.skip(0) =~= v@);
            match scan_lines(v@, 0) {
                Ok(ts2) => {
                    assert(views(tokens@) + ts2 =~= ts2);
                },
                Err(_) => {},
            }
        }
        while p < v.len()
            invariant
                p <= v@.len(),
                count <= p,
                v@ == strip_spaces(source@),
                match scan_lines(v@.skip(p as int), count as nat) {
                    Ok(ts2) => scan_lines(v@, 0) == Ok::<Seq<Tok>, AsmError>(views(tokens@) + ts2),
                    Err(e) => scan_lines(v@, 0) == Err::<Seq<Tok>, AsmError>(e),
                },
            decreases v@.len() - p,
        {
            let k = find_in(&v, p, v.len(), FindKind::Newline);
            let ghost s_p = v@.skip(p as int);
            proof {
                assert(s_p =~= v@.subrange(p as int, v@.len() as int));
                assert(s_p.take(k - p) =~= v@.subrange(p as int, k as int));
            }
            match scan_line(&v, p, k, count) {
                Err(e) => {
                    proof {
                        assert(scan_lines(s_p, count as nat) == Err::<Seq<Tok>, AsmError>(e));
                    }
                    return Err(e);
                },
                Ok((mut ts, c2)) => {
                    let ghost line_seq = views(ts@);
                    let ghost done = tokens@;
                    proof {
                        if k < v.len() {
                            assert(s_p.skip(k - p + 1) =~= v@.skip((k + 1) as int));
                        } else {
                            assert(v@.skip(k as int) =~= Seq::<char>::empty());
                        }
                    }
                    tokens.append(&mut ts);
                    count = c2;
                    p = if k < v.len() {
                        k + 1
                    } else {
                        k
                    };
                    proof {
                        assert(views(tokens@) == views(done) + line_seq);
                        match scan_lines(v@.skip(p as int), count as nat) {
                            Ok(ts2) => {
                                assert((views(done) + line_seq) + ts2 =~= views(done) + (line_seq
                                    + ts2));
                            },
                            Err(_) => {},
                        }
                    }
                },
            }
        }
        proof {
            assert(v@.skip(p as int) =~= Seq::<char>::empty());
            assert(views(tokens@) + Seq::<Tok>::empty() =~= views(tokens@));
        }
        self.raw = v;
        self.current_index = p;
        self.line = count;
        Ok(tokens)
    }
}

/// Removes every space from the buffer.
fn strip(v: &Vec<char>) -> (r: Vec<char>)
    ensures
        r@ == strip_spaces(v@),
{
    let mut r: Vec<char> = Vec::new();
    let mut i: usize = 0;
    while i < v.len()
        invariant
            i <= v@.len(),
            r@ == strip_spaces(v@.subrange(0, i as int)),
        decreases v@.len() - i,
    {
        let ghost next = v@.subrange(0, (i + 1) as int);
        proof {
            assert(next.drop_last() =~= v@.subrange(0, i as int));
            assert(next.last() == v@[i as int]);
        }
        let c = v[i];
        if c != ' ' {
            r.push(c);
        }
        i += 1;
    }
    proof {
        assert(v@.subrange(0, v@.len() as int) =~= v@);
    }
    r
}

/// Scans one logical line `v[from..to]` (newline-free), given the number
/// of instructions emitted so far. Returns the line's tokens and the new
/// instruction count.
fn scan_line(v: &Vec<char>, from: usize, to: usize, count: usize) -> (r: Result<
    (Vec<Token>, usize),
    AsmError,
>)
    requires
        from <= to <= v@.len(),
        count < usize::MAX,
    ensures
        match r {
            Ok((ts, c2)) => line_toks(v@.subrange(from as int, to as int), count as nat) == Ok::<
                (Seq<Tok>, nat),
                AsmError,
            >((views(ts@), c2 as nat)) && c2 <= count + 1 && (to == from ==> c2 == count),
            Err(e) => line_toks(v@.subrange(from as int, to as int), count as nat) == Err::<
                (Seq<Tok>, nat),
                AsmError,
            >(e),
        },
{
    let ghost line = v@.subrange(from as int, to as int);
    let to2 = find_comment_in(v, from, to);
    let ghost l = v@.subrange(from as int, to2 as int);
    proof {
        assert(line.take(find_comment(line)) =~= l);
    }
    if to2 == from {
        let ts: Vec<Token> = Vec::new();
        proof {
            assert(views(ts@) =~= Seq::<Tok>::empty());
        }
        return Ok((ts, count));
    }
    let c0 = v[from];
    proof {
        assert(l[0] == v@[from as int]);
    }
    if c0 == '@' {
        proof {
            assert(l.skip(1) =~= v@.subrange((from + 1) as int, to2 as int));
        }
        let id_end = find_in(v, from + 1, to2, FindKind::NonId);
        let ghost rest = l.skip(1);
        let ghost id = rest.take(find_k(FindKind::NonId, rest));
        proof {
            assert(id =~= v@.subrange((from + 1) as int, id_end as int));
        }
        if id_end == from + 1 {
            return Err(AsmError::Lexical);
        }
        proof {
            assert(id[0] == v@[(from + 1) as int]);
        }
        if char_is_digit(v[from + 1]) {
            let nd = find_in(v, from + 1, id_end, FindKind::NonDigit);
            proof {
                assert(find_k(FindKind::NonDigit, id) == nd - (from + 1));
            }
            if nd < id_end {
                return Err(AsmError::Lexical);
            }
            proof {
                lemma_find_k(FindKind::NonDigit, id);
                assert forall|j: int| from + 1 <= j < id_end implies is_digit_char(v@[j]) by {
                    assert(id[j - (from + 1)] == v@[j]);
                }
            }
            match parse_digits(v, from + 1, id_end) {
                None => {
                    return Err(AsmError::Lexical);
                },
                Some(x) => {
                    let mut ts: Vec<Token> = Vec::new();
                    ts.push(Token::AddressLiteral(x));
                    proof {
                        assert(views(ts@) =~= seq![Tok::AddressLiteral(x as nat)]);
                    }
                    return Ok((ts, count + 1));
                },
            }
        } else {
            let s = string_from_range(v, from + 1, id_end);
            let mut ts: Vec<Token> = Vec::new();
            ts.push(Token::AddressSymbol(s));
            proof {
                assert(views(ts@) =~= seq![Tok::AddressSymbol(id)]);
            }
            return Ok((ts, count + 1));
        }
    } else if c0 == '(' {
        proof {
            assert(l.skip(1) =~= v@.subrange((from + 1) as int, to2 as int));
        }
        let j = find_in(v, from + 1, to2, FindKind::RightParen);
        let ghost rest = l.skip(1);
        if j == to2 {
            return Err(AsmError::Lexical);
        }
        if j == from + 1 {
            return Err(AsmError::Lexical);
        }
        if count > (u32::MAX as usize) {
            return Err(AsmError::Lexical);
        }
        let name = string_from_range(v, from + 1, j);
        proof {
            assert(rest.take(find_k(FindKind::RightParen, rest)) =~= v@.subrange(
                (from + 1) as int,
                j as int,
            ));
        }
        let mut ts: Vec<Token> = Vec::new();
        ts.push(Token::LabelDeclaration(name, count as u32));
        proof {
            assert(views(ts@) =~= seq![
                Tok::LabelDeclaration(rest.take(find_k(FindKind::RightParen, rest)), count as nat),
            ]);
        }
        return Ok((ts, count));
    } else {
        let k = find_in(v, from, to2, FindKind::Separator);
        proof {
            assert(find_k(FindKind::Separator, l) == k - from);
        }
        if k == to2 {
            let s = string_from_range(v, from, to2);
            let mut ts: Vec<Token> = Vec::new();
            ts.push(Token::Computation(s));
            proof {
                assert(views(ts@) =~= seq![Tok::Computation(l)]);
            }
            return Ok((ts, count + 1));
        }
        proof {
            assert(l[k - from] == v@[k as int]);
            assert(l.take(k - from) =~= v@.subrange(from as int, k as int));
            assert(l.skip(k - from + 1) =~= v@.subrange((k + 1) as int, to2 as int));
        }
        if v[k] == '=' {
            if k + 1 == to2 {
                return Err(AsmError::Lexical);
            }
            let d = string_from_range(v, from, k);
            let c = string_from_range(v, k + 1, to2);
            let mut ts: Vec<Token> = Vec::new();
            ts.push(Token::Destination(d));
            ts.push(Token::Computation(c));
            proof {
                assert(views(ts@) =~= seq![
                    Tok::Destination(l.take(k - from)),
                    Tok::Computation(l.skip(k - from + 1)),
                ]);
            }
            return Ok((ts, count + 1));
        } else {
            if k == from {
                return Err(AsmError::Lexical);
            }
            if k + 1 == to2 {
                return Err(AsmError::Lexical);
            }
            let c = string_from_range(v, from, k);
            let j = string_from_range(v, k + 1, to2);
            let mut ts: Vec<Token> = Vec::new();
            ts.push(Token::Computation(c));
            ts.push(Token::Jump(j));
            proof {
                assert(views(ts@) =~= seq![
                    Tok::Computation(l.take(k - from)),
                    Tok::Jump(l.skip(k - from + 1)),
                ]);
            }
            return Ok((ts, count + 1));
        }
    }
}

} // verus!
