use asm6502::lexer::Lexer;
use asm6502::lexer::TokenValue;

#[test]
fn lexer_misc_chars() {
    let string = String::from(".< >()\n#~");
    let mut lexer = Lexer::new("test", &string);
    assert_eq!(lexer.next().unwrap().value, TokenValue::Dot);
    assert_eq!(lexer.next().unwrap().value, TokenValue::LT);
    assert_eq!(lexer.next().unwrap().value, TokenValue::GT);
    assert_eq!(lexer.next().unwrap().value, TokenValue::LParen);
    assert_eq!(lexer.next().unwrap().value, TokenValue::RParen);
    assert_eq!(lexer.next().unwrap().value, TokenValue::Newline);
    assert_eq!(lexer.next().unwrap().value, TokenValue::Hash);
    assert_eq!(
        lexer.next().unwrap().value,
        TokenValue::Error(String::from("Invalid token '~'"))
    );
    assert!(if let None = lexer.next() { true } else { false });
}

#[test]
fn lexer_symbols() {
    let string = String::from("hewwo HEWWO _underscore");
    let mut lexer = Lexer::new("test", &string);
    assert_eq!(
        lexer.next().unwrap().value,
        TokenValue::Symbol(String::from("hewwo"))
    );
    assert_eq!(
        lexer.next().unwrap().value,
        TokenValue::Symbol(String::from("HEWWO"))
    );
    assert_eq!(
        lexer.next().unwrap().value,
        TokenValue::Symbol(String::from("_underscore"))
    );
    assert!(if let None = lexer.next() { true } else { false });
}

#[test]
fn lexer_numbers() {
    let string = String::from("%00101010 052 42 $2a $2A");
    let mut lexer = Lexer::new("test", &string);
    assert_eq!(lexer.next().unwrap().value, TokenValue::Bin(42));
    assert_eq!(lexer.next().unwrap().value, TokenValue::Oct(42));
    assert_eq!(lexer.next().unwrap().value, TokenValue::Dec(42));
    assert_eq!(lexer.next().unwrap().value, TokenValue::Hex(42));
    assert_eq!(lexer.next().unwrap().value, TokenValue::Hex(42));
    assert!(if let None = lexer.next() { true } else { false });
}

#[test]
fn lexer_strings() {
    let string = String::from(
        "\"hewwo\" \"this is a string\" \"this\nis\na\nmultiline\nstring\n\" \"this is an invalid string",
    );
    let mut lexer = Lexer::new("test", &string);
    assert_eq!(
        lexer.next().unwrap().value,
        TokenValue::String(String::from("hewwo"))
    );
    assert_eq!(
        lexer.next().unwrap().value,
        TokenValue::String(String::from("this is a string"))
    );
    assert_eq!(
        lexer.next().unwrap().value,
        TokenValue::String(String::from("this\nis\na\nmultiline\nstring\n"))
    );
    assert_eq!(
        lexer.next().unwrap().value,
        TokenValue::Error(String::from("\"this is an invalid string"))
    );
    assert!(if let None = lexer.next() { true } else { false });
}

#[test]
fn lexer_bare_zero_is_decimal() {
    // A lone `0` is a decimal zero, not an octal literal.
    let mut lexer = Lexer::new("test", "0");
    assert_eq!(lexer.next().unwrap().value, TokenValue::Dec(0));
    assert!(lexer.next().is_none());
    // A `0` with octal digits after it is octal.
    let mut lexer = Lexer::new("test", "017");
    assert_eq!(lexer.next().unwrap().value, TokenValue::Oct(15));
    // A `0` followed by a non-octal digit degrades to zero, leaving the rest.
    let mut lexer = Lexer::new("test", "08");
    assert_eq!(lexer.next().unwrap().value, TokenValue::Dec(0));
    assert_eq!(lexer.next().unwrap().value, TokenValue::Dec(8));
}

#[test]
fn lexer_number_overflow() {
    let mut lexer = Lexer::new("test", "$10000");
    assert_eq!(
        lexer.next().unwrap().value,
        TokenValue::Error(String::from("'10000' is an invalid 16 bit integer"))
    );
    // A radix prefix with no digits is refused with an empty digit run.
    let mut lexer = Lexer::new("test", "%2");
    assert_eq!(
        lexer.next().unwrap().value,
        TokenValue::Error(String::from("'' is an invalid 16 bit integer"))
    );
    assert_eq!(lexer.next().unwrap().value, TokenValue::Dec(2));
    // The largest 16-bit values of each radix still scan.
    let mut lexer = Lexer::new("test", "$FFFF 65535 %1111111111111111 0177777");
    assert_eq!(lexer.next().unwrap().value, TokenValue::Hex(0xFFFF));
    assert_eq!(lexer.next().unwrap().value, TokenValue::Dec(65535));
    assert_eq!(lexer.next().unwrap().value, TokenValue::Bin(0xFFFF));
    assert_eq!(lexer.next().unwrap().value, TokenValue::Oct(0xFFFF));
}

#[test]
fn lexer_comments_and_positions() {
    let mut lexer = Lexer::new("prog.s", "lda ; comment\nrts");
    assert_eq!(lexer.get_filename().as_str(), "prog.s");
    assert_eq!(lexer.get_lino(), 1);
    let t = lexer.next().unwrap();
    assert_eq!(t.value, TokenValue::Symbol(String::from("lda")));
    assert_eq!(t.lino, 1);
    assert_eq!(t.charpos, 0);
    // The comment swallows its newline.
    let t = lexer.next().unwrap();
    assert_eq!(t.value, TokenValue::Symbol(String::from("rts")));
    assert_eq!(t.lino, 2);
    assert_eq!(t.charpos, 0);
    assert_eq!(lexer.get_lino(), 2);
    assert!(lexer.next().is_none());
}

#[test]
fn lexer_peek_save_recall() {
    let mut lexer = Lexer::new("test", "lda #5");
    let peeked = lexer.peek().unwrap();
    assert_eq!(peeked.value, TokenValue::Symbol(String::from("lda")));
    // Peeking does not consume.
    assert_eq!(
        lexer.next().unwrap().value,
        TokenValue::Symbol(String::from("lda"))
    );
    let state = lexer.save();
    assert_eq!(lexer.next().unwrap().value, TokenValue::Hash);
    assert_eq!(lexer.next().unwrap().value, TokenValue::Dec(5));
    // Rewinding replays the tokens.
    lexer.recall(state);
    assert_eq!(lexer.next().unwrap().value, TokenValue::Hash);
    assert_eq!(lexer.next().unwrap().value, TokenValue::Dec(5));
    assert!(lexer.next().is_none());
}
