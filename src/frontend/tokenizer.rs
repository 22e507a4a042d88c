use encoding::Encoding;
use vstd::prelude::*;
use vstd::string::{StrSliceExecFns, StringExecFns};

verus! {

/// Options of the tokenizer; none are defined yet, and text is read as UTF-8.
#[derive(Debug, Default)]
pub struct TokenizerConfig;

impl TokenizerConfig {
    pub fn new() -> Self {
        Self
    }
}

/// One symbol of the instruction language.
#[derive(Debug, PartialEq, Eq, Clone, Copy)]
pub enum Token {
    MoveRight,
    MoveLeft,
    Increase,
    Decrease,
    Output,
    Input,
    LoopLeft,
    LoopRight,
}

/// Declares `std::io::Error`, which a read failure carries; the library only
/// passes such a value along and relies on nothing inside it.
#[verifier::external_type_specification]
#[verifier::external_body]
pub struct ExIoError(std::io::Error);

/// Why input could not be turned into tokens.
#[derive(Debug)]
pub enum TokenizeError {
    /// The input could not be read; carries the reader's error.
    Io(std::io::Error),
    /// The input is not valid text: the encoding tried and the decoder's message.
    Decode(String, String),
}

impl TokenizeError {
    /// The message that describes the failure.
    pub fn message(&self) -> (r: String)
        ensures
            match self {
                TokenizeError::Io(_) => r@ == "Failed to read the provided input"@,
                TokenizeError::Decode(name, msg) => r@ == "Cannot decode the input into "@ + name@
                    + ": "@ + msg@,
            },
    {
        match self {
            TokenizeError::Io(_) => String::from_str("Failed to read the provided input"),
            TokenizeError::Decode(name, msg) => {
                let mut r = String::from_str("Cannot decode the input into ");
                r.append(name.as_str());
                r.append(": ");
                r.append(msg.as_str());
                r
            },
        }
    }
}

/// Turns source text into tokens.
pub struct BrainfuckTokenizer {
    #[allow(dead_code)]
    config: TokenizerConfig,
}

/// The token that a character stands for, if it is one of the eight symbols.
pub open spec fn token_of(c: char) -> Option<Token> {
    if c == '>' {
        Some(Token::MoveRight)
    } else if c == '<' {
        Some(Token::MoveLeft)
    } else if c == '+' {
        Some(Token::Increase)
    } else if c == '-' {
        Some(Token::Decrease)
    } else if c == '.' {
        Some(Token::Output)
    } else if c == ',' {
        Some(Token::Input)
    } else if c == '[' {
        Some(Token::LoopLeft)
    } else if c == ']' {
        Some(Token::LoopRight)
    } else {
        None
    }
}

/// The tokens of a text: one per symbol character, in order; other characters give none.
pub open spec fn tokens_of(s: Seq<char>) -> Seq<Token>
    decreases s.len(),
{
    if s.len() == 0 {
        Seq::empty()
    } else {
        match token_of(s.last()) {
            Some(t) => tokens_of(s.drop_last()).push(t),
            None => tokens_of(s.drop_last()),
        }
    }
}

/// The characters of a text that are symbols, in order.
pub open spec fn symbols(s: Seq<char>) -> Seq<char> {
    s.filter(|c: char| token_of(c) is Some)
}

/// Characters other than the eight symbols contribute nothing: a text gives the
/// same tokens as its symbol characters alone.
pub proof fn lemma_ignored_characters(s: Seq<char>)
    ensures
        tokens_of(s) == tokens_of(symbols(s)),
    decreases s.len(),
{
    reveal(Seq::filter);
    if s.len() > 0 {
        lemma_ignored_characters(s.drop_last());
        let f = symbols(s.drop_last());
        if token_of(s.last()) is Some {
            assert(symbols(s) == f.push(s.last()));
            assert(symbols(s).drop_last() == f);
        } else {
            assert(symbols(s) == f);
        }
    }
}

/// The tokens stand in the order of the symbols they come from, whatever other
/// characters lie between them.
pub proof fn lemma_tokens_in_order(s: Seq<char>)
    ensures
        tokens_of(s) == symbols(s).map_values(|c: char| token_of(c)->Some_0),
    decreases s.len(),
{
    reveal(Seq::filter);
    if s.len() > 0 {
        lemma_tokens_in_order(s.drop_last());
        let f = symbols(s.drop_last());
        if token_of(s.last()) is Some {
            assert(symbols(s) == f.push(s.last()));
            assert(f.push(s.last()).map_values(|c: char| token_of(c)->Some_0) == f.map_values(
                |c: char| token_of(c)->Some_0,
            ).push(token_of(s.last())->Some_0));
        } else {
            assert(symbols(s) == f);
        }
    }
}

/// The text that a byte sequence decodes to as UTF-8, or `None` where it is not
/// well-formed UTF-8.
pub uninterp spec fn utf8_decoded(bytes: Seq<u8>) -> Option<Seq<char>>;

/// Relies on `encoding::all::UTF_8.decode` with `DecoderTrap::Strict`: it returns
/// the decoded text, or the decoder's message where the bytes are not valid UTF-8,
/// and the outcome depends on the bytes alone. Empty input decodes to empty text.
#[verifier::external_body]
fn decode_utf8(bytes: &[u8]) -> (r: Result<String, String>)
    ensures
        match r {
            Ok(text) => utf8_decoded(bytes@) == Some(text@),
            Err(_) => utf8_decoded(bytes@) is None,
        },
        bytes@.len() == 0 ==> r is Ok && r->Ok_0@.len() == 0,
{
    encoding::all::UTF_8.decode(bytes, encoding::DecoderTrap::Strict).map_err(|m| m.into_owned())
}

impl BrainfuckTokenizer {
    pub fn new(config: TokenizerConfig) -> Self {
        Self { config }
    }

    /// Classifies one character.
    pub fn classify(c: char) -> (r: Option<Token>)
        ensures
            r == token_of(c),
    {
        match c {
            '>' => Some(Token::MoveRight),
            '<' => Some(Token::MoveLeft),
            '+' => Some(Token::Increase),
            '-' => Some(Token::Decrease),
            '.' => Some(Token::Output),
            ',' => Some(Token::Input),
            '[' => Some(Token::LoopLeft),
            ']' => Some(Token::LoopRight),
            _ => None,
        }
    }

    /// Scans decoded text into tokens, skipping every character that is not a symbol.
    pub fn tokenize_text(&self, text: &str) -> (r: Vec<Token>)
        ensures
            r@ == tokens_of(text@),
    {
        let mut tokens: Vec<Token> = Vec::new();
        let n: usize = text.unicode_len();
        let mut i: usize = 0;
        while i < n
            invariant
                n == text@.len(),
                i <= n,
                tokens@ == tokens_of(text@.take(i as int)),
            decreases n - i,
        {
            let c = text.get_char(i);
            assert(text@.take(i + 1).drop_last() == text@.take(i as int));
            if let Some(t) = Self::classify(c) {
                tokens.push(t);
            }
            i = i + 1;
        }
        assert(text@.take(n as int) == text@);
        tokens
    }

    /// Decodes the input as UTF-8 and scans it into tokens.
    pub fn tokenize(&self, input: &[u8]) -> (r: Result<Vec<Token>, TokenizeError>)
        ensures
            match utf8_decoded(input@) {
                Some(text) => r is Ok && r->Ok_0@ == tokens_of(text),
                None => r matches Err(TokenizeError::Decode(name, _)) && name@ == "UTF-8"@,
            },
    {
        match decode_utf8(input) {
            Ok(text) => Ok(self.tokenize_text(text.as_str())),
            Err(msg) => Err(TokenizeError::Decode(String::from_str("UTF-8"), msg)),
        }
    }
}

} // verus!
