use asm6502::lexer::Lexer;
use asm6502::parser::ParseError;
use asm6502::pass_1::first_pass;
use asm6502::pass_1::FirstPassResult;
use asm6502::pass_2::second_pass;
use asm6502::pass_2::AssemblerResult;

fn run_first_pass(name: &str, src: &str) -> Result<FirstPassResult, ParseError> {
    let mut lexer = Lexer::new(name, src);
    first_pass(&mut lexer)
}

fn assemble(name: &str, src: &str) -> Result<AssemblerResult, ParseError> {
    second_pass(run_first_pass(name, src)?)
}

fn fresh_total() -> AssemblerResult {
    AssemblerResult {
        filename: String::from("total"),
        start: 0xFFFF,
        end: 0,
        bytes: vec![0u8; 0x10000],
    }
}

#[test]
fn immediate_load() {
    // "LDA #$42" assembles to A9 42 at addresses 0 and 1.
    let img = assemble("a", "LDA #$42\n").unwrap();
    assert_eq!(img.bytes[0], 0xA9);
    assert_eq!(img.bytes[1], 0x42);
    assert_eq!(img.start, 0);
    assert_eq!(img.end, 1);
}

#[test]
fn labelled_load_and_branch() {
    // The label binds address 0 and the line is laid out as usual; the
    // branch displacement counts from the byte after the branch.
    let img = assemble("a", "start: LDA #$00\n       BEQ start\n").unwrap();
    assert_eq!(&img.bytes[0..4], &[0xA9, 0x00, 0xF0, 0xFC]);
    assert_eq!(img.start, 0);
    assert_eq!(img.end, 3);
    let fp = run_first_pass("a", "start: LDA #$00\n       BEQ start\n").unwrap();
    assert_eq!(fp.symbol_table.get("start"), Some(0));
}

#[test]
fn byte_pragmas() {
    let img = assemble("a", ".byte 1\n.byte 2\n.byte 3\n").unwrap();
    assert_eq!(&img.bytes[0..3], &[1, 2, 3]);
    assert_eq!(img.start, 0);
    assert_eq!(img.end, 2);
}

#[test]
fn word_of_own_label() {
    let fp = run_first_pass("a", ".origin $0200\nlabel: .word label\n").unwrap();
    assert_eq!(fp.symbol_table.get("label"), Some(0x0200));
    let img = second_pass(fp).unwrap();
    assert_eq!(img.bytes[0x0200], 0x00);
    assert_eq!(img.bytes[0x0201], 0x02);
    assert_eq!(img.start, 0x0200);
    assert_eq!(img.end, 0x0201);
}

#[test]
fn merge_overlap_rejected() {
    // Two files whose written ranges overlap cannot be merged.
    let a = assemble("a", ".origin $0000\n.bytes 1 2 3 4\n").unwrap();
    let b = assemble("b", ".origin $0002\n.bytes 5 6 7 8\n").unwrap();
    let mut total = fresh_total();
    total.merge(&a).unwrap();
    let e = total.merge(&b).unwrap_err();
    assert_eq!(e.as_str(), "Could not merge total with b (possible overwriting)");
}

#[test]
fn merge_disjoint_ranges() {
    let a = assemble("a", ".origin $0000\n.bytes 1 2 3 4\n").unwrap();
    let b = assemble("b", ".origin $0010\n.bytes 5 6\n").unwrap();
    let mut total = fresh_total();
    total.merge(&a).unwrap();
    total.merge(&b).unwrap();
    assert_eq!(total.start, 0);
    assert_eq!(total.end, 0x11);
    assert_eq!(&total.bytes[0..4], &[1, 2, 3, 4]);
    assert_eq!(&total.bytes[0x10..0x12], &[5, 6]);
    assert_eq!(total.bytes[4], 0);
}

#[test]
fn branch_displacement_window() {
    // -128 is the farthest backward branch...
    let img = assemble("a", "start:\n.origin $7E\nBEQ start\n").unwrap();
    assert_eq!(img.bytes[0x7E], 0xF0);
    assert_eq!(img.bytes[0x7F], 0x80);
    // ...and -129 is out of reach.
    let e = assemble("a", "start:\n.origin $7F\nBEQ start\n").unwrap_err();
    assert_eq!(e.message.as_str(), "Label 'start' is too far away");
    // +127 is the farthest forward branch...
    let img = assemble("a", "BEQ target\n.origin $81\ntarget:\n").unwrap();
    assert_eq!(img.bytes[0], 0xF0);
    assert_eq!(img.bytes[1], 0x7F);
    // ...and +128 is out of reach.
    let e = assemble("a", "BEQ target\n.origin $82\ntarget:\n").unwrap_err();
    assert_eq!(e.message.as_str(), "Label 'target' is too far away");
}

#[test]
fn branch_literal_displacement() {
    // A zero-page literal after a branch is taken as the raw displacement
    // byte; an absolute literal is refused.
    let img = assemble("a", "BNE $10\n").unwrap();
    assert_eq!(img.bytes[0], 0xD0);
    assert_eq!(img.bytes[1], 0x10);
    let e = assemble("a", "BNE $300\n").unwrap_err();
    assert_eq!(e.message.as_str(), "Branching out of bounds");
}

#[test]
fn written_range_tracks_bytes() {
    // No bytes written: the canonical empty range.
    let img = assemble("a", "\n\n").unwrap();
    assert_eq!(img.start, 0xFFFF);
    assert_eq!(img.end, 0);
    // A single byte: start and end coincide.
    let img = assemble("a", ".byte 9\n").unwrap();
    assert_eq!(img.start, 0);
    assert_eq!(img.end, 0);
}

#[test]
fn second_pass_is_pure() {
    // The same source assembles to byte-identical images, twice over.
    let src = "start: LDX #$08\nloop: DEX\nBNE loop\nSTX $0200\nRTS\n";
    let a = assemble("a", src).unwrap();
    let b = assemble("a", src).unwrap();
    assert_eq!(a.start, b.start);
    assert_eq!(a.end, b.end);
    assert_eq!(a.bytes, b.bytes);
}

#[test]
fn repeated_symbol_rejected() {
    let e = run_first_pass("a", "dup:\ndup:\n").unwrap_err();
    assert_eq!(e.message.as_str(), "Repeated symbol");
    let e = run_first_pass("a", ".define dup 1\ndup:\n").unwrap_err();
    assert_eq!(e.message.as_str(), "Repeated symbol");
}

#[test]
fn symbol_table_bindings() {
    let fp = run_first_pass("a", "first:\n.origin $0100\nsecond:\n.define third $1234\n")
        .unwrap();
    assert_eq!(fp.symbol_table.len(), 3);
    assert_eq!(fp.symbol_table.get("first"), Some(0));
    assert_eq!(fp.symbol_table.get("second"), Some(0x0100));
    assert_eq!(fp.symbol_table.get("third"), Some(0x1234));
    assert_eq!(fp.symbol_table.get("absent"), None);
}

#[test]
fn addressing_forms_encode() {
    let src = "ASL\nINX\nLDA $10\nSTA $0200\nLDA ($10,X)\nLDA ($10),Y\nJMP ($0300)\nLDX $10,Y\nJSR $0234\nBRK\n";
    let img = assemble("a", src).unwrap();
    let expect: &[u8] = &[
        0x0A, // ASL (accumulator)
        0xE8, // INX
        0xA5, 0x10, // LDA $10
        0x8D, 0x00, 0x02, // STA $0200
        0xA1, 0x10, // LDA ($10,X)
        0xB1, 0x10, // LDA ($10),Y
        0x6C, 0x00, 0x03, // JMP ($0300)
        0xB6, 0x10, // LDX $10,Y
        0x20, 0x34, 0x02, // JSR $0234
        0x00, // BRK (with one reserved byte after it)
    ];
    assert_eq!(&img.bytes[0..expect.len()], expect);
    // BRK reserves two bytes: the next free address is one past its pad.
    assert_eq!(img.end, (expect.len() - 1) as u16);
}

#[test]
fn low_and_high_bytes_resolve() {
    let img = assemble("a", ".define target $1234\nLDA #<target\nLDX #>target\n").unwrap();
    assert_eq!(&img.bytes[0..4], &[0xA9, 0x34, 0xA2, 0x12]);
}

#[test]
fn bytes_pragma_with_strings() {
    let img = assemble("a", ".bytes \"AB\" 3, 4\n").unwrap();
    assert_eq!(&img.bytes[0..4], &[0x41, 0x42, 3, 4]);
}

#[test]
fn invalid_opcode_and_argument() {
    let e = run_first_pass("a", "xyz\n").unwrap_err();
    assert_eq!(e.message.as_str(), "Invalid opcode 'xyz'");
    let e = run_first_pass("a", "BRK #1\n").unwrap_err();
    assert_eq!(e.message.as_str(), "Invalid argument for opcode 'BRK'");
    // STA has no immediate form.
    let e = run_first_pass("a", "STA #1\n").unwrap_err();
    assert_eq!(e.message.as_str(), "Invalid argument for opcode 'STA'");
    // The cc=01 family has no zero-page,Y form.
    let e = run_first_pass("a", "LDA $10,Y\n").unwrap_err();
    assert_eq!(e.message.as_str(), "Invalid argument for opcode 'LDA'");
}

#[test]
fn undeclared_label_rejected() {
    let e = assemble("a", "JMP nowhere\n").unwrap_err();
    assert_eq!(e.message.as_str(), "Undeclared label 'nowhere' used as value");
}

#[test]
fn byte_context_needs_byte_value() {
    let e = assemble("a", ".define big $0200\nLDA #big\n").unwrap_err();
    assert_eq!(e.message.as_str(), "Expected byte, found word big");
}

#[test]
fn overwrite_detected() {
    let e = assemble("a", ".byte 1\n.origin 0\n.byte 2\n").unwrap_err();
    assert_eq!(e.message.as_str(), "This line overrides previously written code");
}

#[test]
fn pragma_forward_references_rejected() {
    let e = run_first_pass("a", ".origin later\nlater:\n").unwrap_err();
    assert_eq!(
        e.message.as_str(),
        "Setting origin to value of undefined label later"
    );
    let e = run_first_pass("a", ".define alias later\nlater:\n").unwrap_err();
    assert_eq!(
        e.message.as_str(),
        "Setting label alias to value of undefined label later"
    );
}

#[test]
fn include_is_not_implemented() {
    let e = run_first_pass("a", ".include \"other.s\"\n").unwrap_err();
    assert_eq!(e.message.as_str(), ".include is not implemented");
}

#[test]
fn instruction_cannot_cross_top_of_memory() {
    let e = run_first_pass("a", ".origin $FFFF\nLDA #1\n").unwrap_err();
    assert_eq!(
        e.message.as_str(),
        "Instruction runs past the end of the address space"
    );
    // A one-byte instruction still fits in the last cell; BRK writes only
    // its opcode there.
    let img = assemble("a", ".origin $FFFF\nBRK\n").unwrap();
    assert_eq!(img.bytes[0xFFFF], 0x00);
    assert_eq!(img.start, 0xFFFF);
    assert_eq!(img.end, 0xFFFF);
}

#[test]
fn mnemonics_match_case_insensitively() {
    let a = assemble("a", "lda #$42\nRtS\n").unwrap();
    assert_eq!(&a.bytes[0..3], &[0xA9, 0x42, 0x60]);
}

#[test]
fn error_records_carry_file_and_line() {
    let e = assemble("prog.s", "INX\nJMP nowhere\nINY\n").unwrap_err();
    assert_eq!(e.filename.as_str(), "prog.s");
    assert_eq!(e.lino, 2);
}

#[test]
fn word_literal_little_endian() {
    let img = assemble("a", ".word $ABCD\n").unwrap();
    assert_eq!(&img.bytes[0..2], &[0xCD, 0xAB]);
    assert_eq!(img.start, 0);
    assert_eq!(img.end, 1);
}

#[test]
fn origin_through_label() {
    // `.origin` may name an already bound label.
    let img = assemble("a", "base:\n.origin $10\ntop:\n.origin base\n.byte 1\n").unwrap();
    assert_eq!(img.bytes[0], 1);
    assert_eq!(img.start, 0);
    assert_eq!(img.end, 0);
    let fp = run_first_pass("a", "base:\n.origin $10\ntop:\n.origin base\n.byte 1\n").unwrap();
    assert_eq!(fp.symbol_table.get("top"), Some(0x10));
}
