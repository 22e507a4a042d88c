use bf_frontend::frontend::tokenizer::{BrainfuckTokenizer, Token, TokenizeError, TokenizerConfig};
use encoding::Encoding;

fn tokenizer() -> BrainfuckTokenizer {
    BrainfuckTokenizer::new(TokenizerConfig::new())
}

fn sample_tokens() -> Vec<Token> {
    vec![
        Token::Increase,
        Token::Increase,
        Token::MoveRight,
        Token::LoopLeft,
        Token::Decrease,
        Token::MoveLeft,
        Token::Increase,
        Token::MoveRight,
        Token::LoopRight,
        Token::Output,
    ]
}

#[test]
fn test_tokenize() {
    let input = "++>[-<+>].";
    let tokenizer = BrainfuckTokenizer::new(TokenizerConfig::new());
    let tokens = tokenizer.tokenize(input.as_bytes());

    assert!(tokens.is_ok());
    assert_eq!(tokens.unwrap(), sample_tokens());
}

#[test]
fn test_tokenize_with_meaningless_chars() {
    let input = "++>[-<+>].meaningless";
    let tokenizer = BrainfuckTokenizer::new(TokenizerConfig::new());
    let tokens = tokenizer.tokenize(input.as_bytes());

    assert!(tokens.is_ok());
    assert_eq!(tokens.unwrap(), sample_tokens());
}

#[test]
fn test_tokenize_with_wrong_encoding() {
    let input = encoding::all::GBK
        .encode("++>[-<+>].你好", encoding::EncoderTrap::Strict)
        .unwrap();
    let tokenizer = BrainfuckTokenizer::new(TokenizerConfig::new());
    let tokens = tokenizer.tokenize(input.as_slice());

    assert!(tokens.is_err());
    assert_eq!(
        tokens.unwrap_err().message(),
        "Cannot decode the input into UTF-8: invalid sequence".to_string()
    );
}

#[test]
fn ignored_characters_are_dropped() {
    let t = tokenizer();
    assert_eq!(t.tokenize("a+b-c".as_bytes()).unwrap(), t.tokenize("+-".as_bytes()).unwrap());
    assert_eq!(t.tokenize("+-".as_bytes()).unwrap(), vec![Token::Increase, Token::Decrease]);
}

#[test]
fn order_follows_symbols() {
    let t = tokenizer();
    assert_eq!(
        t.tokenize(" ,x . y ] z [ <\n>".as_bytes()).unwrap(),
        vec![
            Token::Input,
            Token::Output,
            Token::LoopRight,
            Token::LoopLeft,
            Token::MoveLeft,
            Token::MoveRight,
        ]
    );
}

#[test]
fn empty_input_gives_no_tokens() {
    assert_eq!(tokenizer().tokenize(&[]).unwrap(), Vec::<Token>::new());
    assert_eq!(tokenizer().tokenize("no symbols here".as_bytes()).unwrap(), Vec::<Token>::new());
}

#[test]
fn invalid_utf8_names_the_encoding() {
    let r = tokenizer().tokenize(&[b'+', 0xff, b'-']);
    match r {
        Err(TokenizeError::Decode(name, msg)) => {
            assert_eq!(name, "UTF-8");
            assert_eq!(msg, "invalid sequence");
        }
        other => panic!("unexpected result: {:?}", other),
    }
}

#[test]
fn truncated_utf8_is_rejected() {
    let r = tokenizer().tokenize(&[b'+', 0xe4, 0xbd]);
    assert!(matches!(r, Err(TokenizeError::Decode(ref name, _)) if name == "UTF-8"));
}

#[test]
fn multibyte_text_decodes_and_is_skipped() {
    let t = tokenizer();
    assert_eq!(
        t.tokenize("é>你好<".as_bytes()).unwrap(),
        vec![Token::MoveRight, Token::MoveLeft]
    );
}

#[test]
fn tokenize_text_scans_characters() {
    assert_eq!(
        tokenizer().tokenize_text("→[+]←"),
        vec![Token::LoopLeft, Token::Increase, Token::LoopRight]
    );
}

#[test]
fn classify_each_symbol() {
    let pairs = [
        ('>', Token::MoveRight),
        ('<', Token::MoveLeft),
        ('+', Token::Increase),
        ('-', Token::Decrease),
        ('.', Token::Output),
        (',', Token::Input),
        ('[', Token::LoopLeft),
        (']', Token::LoopRight),
    ];
    for (c, tok) in pairs {
        assert_eq!(BrainfuckTokenizer::classify(c), Some(tok));
    }
    assert_eq!(BrainfuckTokenizer::classify('a'), None);
    assert_eq!(BrainfuckTokenizer::classify(' '), None);
}

#[test]
fn io_error_message() {
    let e = TokenizeError::Io(std::io::Error::new(std::io::ErrorKind::Other, "broken"));
    assert_eq!(e.message(), "Failed to read the provided input");
}
