use hack_assembler::parser::compiler::compile;

const ADD_ASM: &str = "// Computes R0 = 2 + 3\n\n@2\nD=A\n@3\nD=D+A\n@0\nM=D\n";

const ADD_HACK: &str = "0000000000000010\n1110110000010000\n0000000000000011\n1110000010010000\n0000000000000000\n1110001100001000";

const MAX_ASM: &str = "// Computes R2 = max(R0, R1)\n\n   @R0\n   D=M              // D = first number\n   @R1\n   D=D-M            // D = first number - second number\n   @OUTPUT_FIRST\n   D;JGT            // if D > 0 goto output_first\n   @R1\n   D=M              // D = second number\n   @OUTPUT_D\n   0;JMP            // goto output_d\n(OUTPUT_FIRST)\n   @R0\n   D=M              // D = first number\n(OUTPUT_D)\n   @R2\n   M=D              // M[2] = D (greatest number)\n(INFINITE_LOOP)\n   @INFINITE_LOOP\n   0;JMP            // infinite loop\n";

const MAX_HACK: &str = "0000000000000000\n1111110000010000\n0000000000000001\n1111010011010000\n0000000000001010\n1110001100000001\n0000000000000001\n1111110000010000\n0000000000001100\n1110101010000111\n0000000000000000\n1111110000010000\n0000000000000010\n1110001100001000\n0000000000001110\n1110101010000111";

const MAXL_ASM: &str = "// Symbol-less version of the Max program.\n\n@0\nD=M\n@1\nD=D-M\n@10\nD;JGT\n@1\nD=M\n@12\n0;JMP\n@0\nD=M\n@2\nM=D\n@14\n0;JMP\n";

const MAXL_HACK: &str = "0000000000000000\n1111110000010000\n0000000000000001\n1111010011010000\n0000000000001010\n1110001100000001\n0000000000000001\n1111110000010000\n0000000000001100\n1110101010000111\n0000000000000000\n1111110000010000\n0000000000000010\n1110001100001000\n0000000000001110\n1110101010000111";

const RECT_ASM: &str = "// Draws a rectangle at the top-left corner of the screen,\n// 16 pixels wide and R0 pixels high.\n\n   @0\n   D=M\n   @INFINITE_LOOP\n   D;JLE \n   @counter\n   M=D\n   @SCREEN\n   D=A\n   @address\n   M=D\n(LOOP)\n   @address\n   A=M\n   M=-1\n   @address\n   D=M\n   @32\n   D=D+A\n   @address\n   M=D\n   @counter\n   MD=M-1\n   @LOOP\n   D;JGT\n(INFINITE_LOOP)\n   @INFINITE_LOOP\n   0;JMP\n";

const RECT_HACK: &str = "0000000000000000\n1111110000010000\n0000000000010111\n1110001100000110\n0000000000010000\n1110001100001000\n0100000000000000\n1110110000010000\n0000000000010001\n1110001100001000\n0000000000010001\n1111110000100000\n1110111010001000\n0000000000010001\n1111110000010000\n0000000000100000\n1110000010010000\n0000000000010001\n1110001100001000\n0000000000010000\n1111110010011000\n0000000000001010\n1110001100000001\n0000000000010111\n1110101010000111";

#[test]
fn test_compiler_for_add_asm() {
    assert_eq!(compile(String::from(ADD_ASM)).unwrap(), ADD_HACK);
}

#[test]
fn test_compiler_for_max_asm() {
    let hack: Vec<String> = MAX_HACK.split('\n').map(|s| String::from(s)).collect();

    compile(String::from(MAX_ASM)).unwrap().split('\n').enumerate().for_each(|(i, s)| {
        println!("index={} cmd={}", i, s);
        assert_eq!(s, hack.get(i).unwrap().as_str());
    });
}

#[test]
fn test_compiler_for_maxl_asm() {
    assert_eq!(compile(String::from(MAXL_ASM)).unwrap(), MAXL_HACK);
}

#[test]
fn test_compiler_for_rect_asm() {
    assert_eq!(compile(String::from(RECT_ASM)).unwrap(), RECT_HACK);
}
