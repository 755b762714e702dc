use asm6502::lexer::Lexer;
use asm6502::parser::parse;
use asm6502::parser::parse_line;
use asm6502::parser::Address;
use asm6502::parser::AddressingMode;
use asm6502::parser::ImmediateValue;
use asm6502::parser::LineValue;
use asm6502::parser::Pragma;

#[test]
fn parser_labels_opcodes() {
    let string = String::from(
        "
		this_is_a_label: BRK
			INX
			INY

		label_without_an_opcode:
	",
    );
    let mut lexer = Lexer::new("test", &string);
    let lines = match parse(&mut lexer) {
        Ok(v) => v,
        Err(_) => panic!("Lines should parse"),
    };
    assert_eq!(
        lines
            .iter()
            .map(|v| { v.label.as_str() })
            .collect::<Vec<&str>>(),
        vec!["this_is_a_label", "", "", "label_without_an_opcode"]
    );
}

#[test]
fn parser_word_immediate_rejected() {
    // An immediate operand of 16 bits is refused by the parser itself.
    let mut lexer = Lexer::new("test", "LDA #$100\n");
    let e = parse(&mut lexer).unwrap_err();
    assert_eq!(e.message.as_str(), "Cannot use word as immediate value");
    assert_eq!(e.filename.as_str(), "test");
}

#[test]
fn parser_immediate_byte_boundary() {
    // 255 is accepted as an immediate, 256 is not.
    let mut lexer = Lexer::new("test", "LDA #255\n");
    let lines = parse(&mut lexer).unwrap();
    match &lines[0].value {
        LineValue::Instruction(i) => match &i.addr_mode {
            AddressingMode::Immediate(ImmediateValue::Literal(n)) => assert_eq!(*n, 255),
            other => panic!("wrong mode: {:?}", other),
        },
        other => panic!("wrong line value: {:?}", other),
    }
    let mut lexer = Lexer::new("test", "LDA #256\n");
    let e = parse(&mut lexer).unwrap_err();
    assert_eq!(e.message.as_str(), "Cannot use word as immediate value");
}

#[test]
fn parser_zero_page_versus_absolute() {
    // Literals up to $FF pick zero-page, larger ones absolute, labels
    // always absolute.
    let mut lexer = Lexer::new("test", "LDA $FF\nLDA $0100\nLDA somewhere\n");
    let lines = parse(&mut lexer).unwrap();
    let mode = |i: usize| match &lines[i].value {
        LineValue::Instruction(ins) => &ins.addr_mode,
        other => panic!("wrong line value: {:?}", other),
    };
    assert!(matches!(mode(0), AddressingMode::ZeroPage(Address::Literal(0xFF))));
    assert!(matches!(mode(1), AddressingMode::Absolute(Address::Literal(0x100))));
    assert!(matches!(mode(2), AddressingMode::Absolute(Address::Label(_))));
}

#[test]
fn parser_indexed_and_indirect_modes() {
    let src = "LDA $10,X\nLDA $1234,Y\nLDA ($10,X)\nLDA ($10),Y\nJMP ($1234)\n";
    let mut lexer = Lexer::new("test", src);
    let lines = parse(&mut lexer).unwrap();
    let mode = |i: usize| match &lines[i].value {
        LineValue::Instruction(ins) => &ins.addr_mode,
        other => panic!("wrong line value: {:?}", other),
    };
    assert!(matches!(mode(0), AddressingMode::ZeroPageX(Address::Literal(0x10))));
    assert!(matches!(mode(1), AddressingMode::AbsoluteY(Address::Literal(0x1234))));
    assert!(matches!(mode(2), AddressingMode::IndirectX(Address::Literal(0x10))));
    assert!(matches!(mode(3), AddressingMode::IndirectY(Address::Literal(0x10))));
    assert!(matches!(mode(4), AddressingMode::Indirect(Address::Literal(0x1234))));
}

#[test]
fn parser_low_high_byte_operands() {
    let mut lexer = Lexer::new("test", "LDA #<target\nLDA #>target\n");
    let lines = parse(&mut lexer).unwrap();
    match &lines[0].value {
        LineValue::Instruction(i) => match &i.addr_mode {
            AddressingMode::Immediate(ImmediateValue::LowByte(l)) => {
                assert_eq!(l.as_str(), "target")
            }
            other => panic!("wrong mode: {:?}", other),
        },
        other => panic!("wrong line value: {:?}", other),
    }
    match &lines[1].value {
        LineValue::Instruction(i) => match &i.addr_mode {
            AddressingMode::Immediate(ImmediateValue::HighByte(l)) => {
                assert_eq!(l.as_str(), "target")
            }
            other => panic!("wrong mode: {:?}", other),
        },
        other => panic!("wrong line value: {:?}", other),
    }
}

#[test]
fn parser_pragmas() {
    let src = ".byte 7\n.bytes 1, 2 \"AB\"\n.word $1234\n.origin $0200\n.define alias other\n";
    let mut lexer = Lexer::new("test", src);
    let lines = parse(&mut lexer).unwrap();
    match &lines[0].value {
        LineValue::Pragma(Pragma::Byte(7)) => {}
        other => panic!("wrong pragma: {:?}", other),
    }
    match &lines[1].value {
        LineValue::Pragma(Pragma::Bytes(v)) => assert_eq!(v, &vec![1u8, 2, 0x41, 0x42]),
        other => panic!("wrong pragma: {:?}", other),
    }
    match &lines[2].value {
        LineValue::Pragma(Pragma::Word(Address::Literal(0x1234))) => {}
        other => panic!("wrong pragma: {:?}", other),
    }
    match &lines[3].value {
        LineValue::Pragma(Pragma::Origin(Address::Literal(0x200))) => {}
        other => panic!("wrong pragma: {:?}", other),
    }
    match &lines[4].value {
        LineValue::Pragma(Pragma::Define(name, Address::Label(v))) => {
            assert_eq!(name.as_str(), "alias");
            assert_eq!(v.as_str(), "other");
        }
        other => panic!("wrong pragma: {:?}", other),
    }
}

#[test]
fn parser_invalid_pragma() {
    let mut lexer = Lexer::new("test", ".frobnicate 1\n");
    let e = parse(&mut lexer).unwrap_err();
    assert_eq!(e.message.as_str(), "Invalid pragma");
}

#[test]
fn parser_expected_end_of_line() {
    let mut lexer = Lexer::new("test", "LDA #1 ,\n");
    let e = parse(&mut lexer).unwrap_err();
    assert_eq!(e.message.as_str(), "Expected end of line");
}

#[test]
fn parser_expected_register_errors() {
    let mut lexer = Lexer::new("test", "LDA $10,Z\n");
    let e = parse(&mut lexer).unwrap_err();
    assert_eq!(e.message.as_str(), "Expected X or Y register");
    let mut lexer = Lexer::new("test", "LDA ($10,Y)\n");
    let e = parse(&mut lexer).unwrap_err();
    assert_eq!(e.message.as_str(), "Expected X register");
}

#[test]
fn parser_line_by_line() {
    let mut lexer = Lexer::new("test", "\n\nINX\n");
    let line = parse_line(&mut lexer).unwrap().unwrap();
    assert_eq!(line.lino, 3);
    assert_eq!(line.label.as_str(), "");
    match &line.value {
        LineValue::Instruction(i) => assert_eq!(i.opcode.as_str(), "INX"),
        other => panic!("wrong line value: {:?}", other),
    }
    assert!(parse_line(&mut lexer).unwrap().is_none());
}
