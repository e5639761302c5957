use hack_assembler::error::AsmError;
use hack_assembler::parser::compiler::compile;
use hack_assembler::parser::expression::{
    AsmCommandDescriptor, Evaluate, Expression, ExpressionType,
};
use hack_assembler::parser::parser::{Parser, SymTable};
use hack_assembler::parser::tokenizer::{Token, Tokenizer};

#[test]
fn six_word_program() {
    let out = compile(String::from("@2\nD=A\n@3\nD=D+A\n@0\nM=D\n")).unwrap();
    assert_eq!(
        out,
        "0000000000000010\n1110110000010000\n0000000000000011\n1110000010010000\n0000000000000000\n1110001100001000"
    );
}

#[test]
fn every_word_is_sixteen_binary_chars() {
    let out = compile(String::from("@SCREEN\nAMD=D|A\n@KBD\nD;JNE\n@R7\n!M;JMP\n")).unwrap();
    for word in out.split('\n') {
        assert_eq!(word.len(), 16);
        assert!(word.chars().all(|c| c == '0' || c == '1'));
    }
}

#[test]
fn compilation_is_deterministic() {
    let src = "@loopy\n(loopy)\nD=D+1\n@loopy\n0;JMP\n";
    let first = compile(String::from(src));
    let second = compile(String::from(src));
    assert_eq!(first, second);
}

#[test]
fn address_literal_low_bits() {
    assert_eq!(compile(String::from("@0\n")).unwrap(), "0000000000000000");
    assert_eq!(compile(String::from("@1\n")).unwrap(), "0000000000000001");
    assert_eq!(compile(String::from("@21845\n")).unwrap(), "0101010101010101");
    assert_eq!(compile(String::from("@32767\n")).unwrap(), "0111111111111111");
}

#[test]
fn address_literal_out_of_range() {
    assert_eq!(compile(String::from("@32768\n")), Err(AsmError::Structure));
    assert_eq!(compile(String::from("@40000\n")), Err(AsmError::Structure));
}

#[test]
fn secondary_operand_flag_follows_m() {
    // Same computation through the direct and the memory operand.
    assert_eq!(compile(String::from("D=A\n")).unwrap(), "1110110000010000");
    assert_eq!(compile(String::from("D=M\n")).unwrap(), "1111110000010000");
    let with_m = compile(String::from("MD=M+1\n")).unwrap();
    let without_m = compile(String::from("MD=A+1\n")).unwrap();
    assert_eq!(&with_m[..4], "1111");
    assert_eq!(&without_m[..4], "1110");
    assert_eq!(&with_m[4..], &without_m[4..]);
}

#[test]
fn orphan_computation_is_structure_error() {
    assert_eq!(compile(String::from("D+1\n")), Err(AsmError::Structure));
}

#[test]
fn reserved_screen_is_not_reallocated() {
    // SCREEN keeps its architecture address; the first fresh symbol
    // still receives the base variable address 16.
    let out = compile(String::from("@SCREEN\n@fresh\n")).unwrap();
    assert_eq!(out, "0100000000000000\n0000000000010000");
}

#[test]
fn variables_allocated_in_first_use_order() {
    let out = compile(String::from("@first\n@second\n@first\n")).unwrap();
    assert_eq!(
        out,
        "0000000000010000\n0000000000010001\n0000000000010000"
    );
}

#[test]
fn forward_label_reference() {
    // The label is declared after its first use and resolves to the
    // address of the instruction that follows the declaration.
    let out = compile(String::from("@END\n0;JMP\n(END)\n@END\n0;JMP\n")).unwrap();
    assert_eq!(
        out,
        "0000000000000010\n1110101010000111\n0000000000000010\n1110101010000111"
    );
}

#[test]
fn label_wins_over_variable_allocation() {
    // A declared name never takes a variable slot, wherever it is used.
    let out = compile(String::from("@var\n@mark\n(mark)\n@var\n")).unwrap();
    assert_eq!(
        out,
        "0000000000010000\n0000000000000010\n0000000000010000"
    );
}

#[test]
fn comments_and_spaces_are_elided() {
    let out = compile(String::from("// header\n  @2  // operand\n D = A \n\n")).unwrap();
    assert_eq!(out, "0000000000000010\n1110110000010000");
}

#[test]
fn empty_source_compiles_to_empty_image() {
    assert_eq!(compile(String::from("")).unwrap(), "");
}

#[test]
fn unknown_computation_is_encoding_error() {
    assert_eq!(compile(String::from("D=Q\n")), Err(AsmError::Encoding));
}

#[test]
fn unknown_jump_is_encoding_error() {
    assert_eq!(compile(String::from("0;JXX\n")), Err(AsmError::Encoding));
}

#[test]
fn empty_address_operand_is_lexical_error() {
    assert_eq!(compile(String::from("@\n")), Err(AsmError::Lexical));
}

#[test]
fn unterminated_label_is_lexical_error() {
    assert_eq!(compile(String::from("(LOOP\n")), Err(AsmError::Lexical));
}

#[test]
fn empty_computation_is_lexical_error() {
    assert_eq!(compile(String::from("D=\n")), Err(AsmError::Lexical));
}

#[test]
fn empty_jump_is_lexical_error() {
    assert_eq!(compile(String::from("D;\n")), Err(AsmError::Lexical));
}

#[test]
fn non_numeric_literal_is_lexical_error() {
    assert_eq!(compile(String::from("@12x4\n")), Err(AsmError::Lexical));
}

#[test]
fn tokenizer_produces_typed_tokens() {
    let mut tokenizer = Tokenizer::new();
    let tokens = tokenizer
        .tokenize(String::from("@5\n@sym\n(mark)\nD=A\n0;JMP\n"))
        .unwrap();
    assert_eq!(tokens.len(), 7);
    assert!(matches!(tokens[0], Token::AddressLiteral(5)));
    assert!(matches!(&tokens[1], Token::AddressSymbol(s) if s == "sym"));
    assert!(matches!(&tokens[2], Token::LabelDeclaration(s, 2) if s == "mark"));
    assert!(matches!(&tokens[3], Token::Destination(s) if s == "D"));
    assert!(matches!(&tokens[4], Token::Computation(s) if s == "A"));
    assert!(matches!(&tokens[5], Token::Computation(s) if s == "0"));
    assert!(matches!(&tokens[6], Token::Jump(s) if s == "JMP"));
}

#[test]
fn symbol_table_reserved_names() {
    let table = SymTable::new();
    assert_eq!(table.get(String::from("SP")), Some(&0));
    assert_eq!(table.get(String::from("LCL")), Some(&1));
    assert_eq!(table.get(String::from("ARG")), Some(&2));
    assert_eq!(table.get(String::from("THIS")), Some(&3));
    assert_eq!(table.get(String::from("THAT")), Some(&4));
    assert_eq!(table.get(String::from("R0")), Some(&0));
    assert_eq!(table.get(String::from("R15")), Some(&15));
    assert_eq!(table.get(String::from("SCREEN")), Some(&16384));
    assert_eq!(table.get(String::from("KBD")), Some(&24576));
    assert_eq!(table.get(String::from("missing")), None);
}

#[test]
fn symbol_table_allocates_sequentially() {
    let mut table = SymTable::new();
    table.add(String::from("x"));
    table.add(String::from("y"));
    assert_eq!(table.get(String::from("x")), Some(&16));
    assert_eq!(table.get(String::from("y")), Some(&17));
}

#[test]
fn parser_rejects_destination_without_computation() {
    let mut parser = Parser::new();
    let tokens = vec![Token::Destination(String::from("D"))];
    assert!(matches!(parser.parse(&tokens), Err(AsmError::Structure)));
}

#[test]
fn parser_rejects_lone_jump_token() {
    let mut parser = Parser::new();
    let tokens = vec![Token::Jump(String::from("JMP"))];
    assert!(matches!(parser.parse(&tokens), Err(AsmError::Structure)));
}

#[test]
fn parser_resolves_symbols_before_encoding() {
    let mut parser = Parser::new();
    let tokens = vec![
        Token::AddressSymbol(String::from("SCREEN")),
        Token::LineBoundary,
        Token::AddressLiteral(7),
    ];
    let expressions = parser.parse(&tokens).unwrap();
    assert_eq!(expressions.len(), 2);
    assert_eq!(expressions[0].evaluate(), "0100000000000000");
    assert_eq!(expressions[1].evaluate(), "0000000000000111");
}

#[test]
fn expression_evaluates_each_class() {
    let a = Expression::new(
        ExpressionType::ACommand,
        vec![Token::AddressLiteral(2)],
    );
    assert!(a.can_encode());
    assert_eq!(a.evaluate(), "0000000000000010");

    let c = Expression::new(
        ExpressionType::CCommand,
        vec![
            Token::Destination(String::from("MD")),
            Token::Computation(String::from("M-1")),
        ],
    );
    assert!(c.can_encode());
    assert_eq!(c.evaluate(), "1111110010011000");

    let j = Expression::new(
        ExpressionType::JCommand,
        vec![
            Token::Computation(String::from("D")),
            Token::Jump(String::from("JGT")),
        ],
    );
    assert!(j.can_encode());
    assert_eq!(j.evaluate(), "1110001100000001");

    let bad = Expression::new(
        ExpressionType::CCommand,
        vec![
            Token::Destination(String::from("D")),
            Token::Computation(String::from("Q")),
        ],
    );
    assert!(!bad.can_encode());
}

#[test]
fn descriptor_encodes_all_three_fields() {
    let mut cmd = AsmCommandDescriptor::new();
    cmd.comp = "D+1";
    cmd.dest = "M";
    cmd.jump = "JGT";
    assert_eq!(cmd.into_hack(), "1110011111001001");
}
