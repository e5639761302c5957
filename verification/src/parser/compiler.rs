use crate::error::AsmError;
use crate::parser::expression::{encode_spec, Evaluate, Instr};
use crate::parser::parser::{parse_all, Parser};
use crate::parser::tokenizer::{scan_all, views, Tokenizer};
use vstd::prelude::*;

verus! {

/// The words of the resolved instructions, joined by single newlines;
/// halts at the first record whose mnemonics cannot be encoded.
pub open spec fn encode_join(ms: Seq<Instr>) -> Result<Seq<char>, AsmError>
    decreases ms.len(),
{
    if ms.len() == 0 {
        Ok(Seq::empty())
    } else {
        match encode_spec(ms[0]) {
            Err(e) => Err(e),
            Ok(w) => match encode_join(ms.skip(1)) {
                Err(e) => Err(e),
                Ok(r) => Ok(
                    if ms.len() == 1 {
                        w
                    } else {
                        w + seq!['\n'] + r
                    },
                ),
            },
        }
    }
}

/// The whole pipeline on one source text: scan, register both sweeps,
/// resolve, and encode.
pub open spec fn compile_spec(s: Seq<char>) -> Result<Seq<char>, AsmError> {
    match scan_all(s) {
        Err(e) => Err(e),
        Ok(ts) => match parse_all(ts) {
            Err(e) => Err(e),
            Ok(ms) => encode_join(ms),
        },
    }
}

/// Translates one assembly source into its binary program image, one
/// 16-character word per instruction, joined by newlines; halts with the
/// first error the pipeline meets.
pub fn compile(source: String) -> (r: Result<String, AsmError>)
    ensures
        match r {
            Ok(out) => compile_spec(source@) == Ok::<Seq<char>, AsmError>(out@),
            Err(e) => compile_spec(source@) == Err::<Seq<char>, AsmError>(e),
        },
{
    let ghost src = source@;
    let mut tokenizer = Tokenizer::new();
    let tokens = match tokenizer.tokenize(source.clone()) {
        Ok(t) => t,
        Err(e) => {
            return Err(e);
        },
    };
    let ghost ts = views(tokens@);
    let mut parser = Parser::new();
    let expressions = match parser.parse(&tokens) {
        Ok(es) => es,
        Err(e) => {
            return Err(e);
        },
    };
    let ghost ms = match parse_all(ts) {
        Ok(ms) => ms,
        Err(_) => Seq::empty(),
    };
    let mut buffer = String::new();
    let mut i: usize = 0;
    proof {
        assert(ms.skip(0) =~= ms);
    }
    while i < expressions.len()
        invariant
            src == source@,
            i <= expressions@.len(),
            expressions@.len() == ms.len(),
            forall|j: int|
                0 <= j < ms.len() ==> (#[trigger] expressions@[j]).model() == Some(ms[j]),
            compile_spec(src) == encode_join(ms),
            i == 0 ==> buffer@ == Seq::<char>::empty(),
            match encode_join(ms.skip(i as int)) {
                Err(e) => encode_join(ms) == Err::<Seq<char>, AsmError>(e),
                Ok(r2) => encode_join(ms) == Ok::<Seq<char>, AsmError>(
                    if i == 0 {
                        r2
                    } else if i == ms.len() {
                        buffer@
                    } else {
                        buffer@ + seq!['\n'] + r2
                    },
                ),
            },
        decreases expressions@.len() - i,
    {
        proof {
            assert(ms.skip(i as int)[0] == ms[i as int]);
            assert(ms.skip(i as int).skip(1) =~= ms.skip(i + 1));
        }
        let ex = &expressions[i];
        if !ex.can_encode() {
            proof {
                assert(expressions@[i as int].model() == Some(ms[i as int]));
                assert(encode_spec(ms[i as int]) is Err);
            }
            return Err(AsmError::Encoding);
        }
        let ghost buf0 = buffer@;
        if i > 0 {
            buffer.push('\n');
            proof {
                assert(buffer@ =~= buf0 + seq!['\n']);
            }
        }
        let ghost buf_sep = buffer@;
        let w = ex.evaluate();
        buffer.append(w.as_str());
        proof {
            let wv = w@;
            assert(buffer@ == buf_sep + wv);
            match encode_join(ms.skip(i + 1)) {
                Ok(r2) => {
                    if i == 0 {
                        assert(buf_sep + wv =~= wv);
                        if i + 1 < ms.len() {
                            assert((buf_sep + wv) + seq!['\n'] + r2 =~= (wv + seq!['\n']) + r2);
                        }
                    } else {
                        if i + 1 < ms.len() {
                            assert(((buf_sep + wv) + seq!['\n']) + r2 =~= buf0 + seq!['\n'] + ((wv
                                + seq!['\n']) + r2));
                        } else {
                            assert(buf_sep + wv =~= buf0 + seq!['\n'] + wv);
                        }
                    }
                },
                Err(_) => {},
            }
        }
        i += 1;
    }
    proof {
        assert(ms.skip(i as int).len() == 0);
    }
    Ok(buffer)
}

/// Translation is a pure function of the source text: re-running the
/// pipeline on the same source always yields the same outcome.
pub proof fn lemma_compile_deterministic(s1: Seq<char>, s2: Seq<char>)
    requires
        s1 == s2,
    ensures
        compile_spec(s1) == compile_spec(s2),
{
}

} // verus!
