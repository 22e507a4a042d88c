use bf_frontend::frontend::parser::{BrainfuckParser, ParseError};
use bf_frontend::frontend::tokenizer::{BrainfuckTokenizer, Token, TokenizerConfig};
use bf_frontend::ir::{CodeBlock, Instruction, Program};

fn parse_text(text: &str) -> Result<Program, ParseError> {
    let tokens = BrainfuckTokenizer::new(TokenizerConfig::new())
        .tokenize(text.as_bytes())
        .unwrap();
    BrainfuckParser::parse(tokens)
}

fn block(instructions: Vec<Instruction>) -> CodeBlock {
    let mut b = CodeBlock::new();
    for i in instructions {
        b.add_instruction(i);
    }
    b
}

#[test]
fn empty_loop() {
    let expected = Program::new(block(vec![Instruction::Loop(CodeBlock::new())]));
    assert_eq!(parse_text("[]").unwrap(), expected);
}

#[test]
fn unmatched_loop_end() {
    assert_eq!(parse_text("]").unwrap_err(), ParseError::UnmatchedEndOfLoop);
    assert_eq!(parse_text("+][").unwrap_err(), ParseError::UnmatchedEndOfLoop);
}

#[test]
fn unmatched_loop_start() {
    assert_eq!(parse_text("[").unwrap_err(), ParseError::UnmatchedStartOfLoop);
    assert_eq!(parse_text("[[]").unwrap_err(), ParseError::UnmatchedStartOfLoop);
}

#[test]
fn sample_program_tree() {
    let body = block(vec![
        Instruction::Add(-1),
        Instruction::Move(-1),
        Instruction::Add(1),
        Instruction::Move(1),
    ]);
    let expected = Program::new(block(vec![
        Instruction::Add(1),
        Instruction::Add(1),
        Instruction::Move(1),
        Instruction::Loop(body),
        Instruction::Output,
    ]));
    assert_eq!(parse_text("++>[-<+>].").unwrap(), expected);
}

#[test]
fn empty_program() {
    assert_eq!(BrainfuckParser::parse(Vec::new()).unwrap(), Program::new(CodeBlock::new()));
}

#[test]
fn input_instruction() {
    let expected = Program::new(block(vec![Instruction::Input, Instruction::Output]));
    assert_eq!(BrainfuckParser::parse(vec![Token::Input, Token::Output]).unwrap(), expected);
}

#[test]
fn nested_loops_follow_nesting() {
    let inner = block(vec![Instruction::Loop(CodeBlock::new())]);
    let expected = Program::new(block(vec![
        Instruction::Loop(block(vec![Instruction::Loop(inner), Instruction::Add(1)])),
        Instruction::Loop(CodeBlock::new()),
    ]));
    assert_eq!(parse_text("[[[]]+][]").unwrap(), expected);
}

#[test]
fn parsing_twice_gives_equal_trees() {
    let text = "a,[>+<-]b>.[[-]]";
    assert_eq!(parse_text(text).unwrap(), parse_text(text).unwrap());
}
