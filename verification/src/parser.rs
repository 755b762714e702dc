//! The parser: turns the token stream into lines of 6502 assembly.
//!
//! Each executable parsing function is specified against a functional model:
//! `spec_parse_line` (and its helpers) says, for a given text and scanner
//! position, exactly which line is parsed, or which error is raised, and
//! where the scanner stands afterwards.

use vstd::prelude::*;

use crate::lexer::Lexer;
use crate::lexer::LexState;
use crate::lexer::TokenValue;
use crate::lexer::TokenValueModel;
use crate::lexer::lemma_spec_next;
use crate::lexer::spec_next;
use crate::lexer::wf_state;
use crate::lexer::wf_text;
use crate::text::str_eq;

verus! {

// ---------------------------------------------------------------------------
// The abstract syntax of a line, and its models
// ---------------------------------------------------------------------------

/// An immediate operand.
#[derive(Debug)]
pub enum ImmediateValue {
    Literal(u8),
    Label(String),
    LowByte(String),
    HighByte(String),
}

pub ghost enum ImmediateValueModel {
    Literal(u8),
    Label(Seq<char>),
    LowByte(Seq<char>),
    HighByte(Seq<char>),
}

impl View for ImmediateValue {
    type V = ImmediateValueModel;

    open spec fn view(&self) -> ImmediateValueModel {
        match self {
            ImmediateValue::Literal(n) => ImmediateValueModel::Literal(*n),
            ImmediateValue::Label(s) => ImmediateValueModel::Label(s@),
            ImmediateValue::LowByte(s) => ImmediateValueModel::LowByte(s@),
            ImmediateValue::HighByte(s) => ImmediateValueModel::HighByte(s@),
        }
    }
}

/// An address operand: a 16-bit literal or a label reference.
#[derive(Debug)]
pub enum Address {
    Literal(u16),
    Label(String),
}

pub ghost enum AddressModel {
    Literal(u16),
    Label(Seq<char>),
}

impl View for Address {
    type V = AddressModel;

    open spec fn view(&self) -> AddressModel {
        match self {
            Address::Literal(n) => AddressModel::Literal(*n),
            Address::Label(s) => AddressModel::Label(s@),
        }
    }
}

/// An addressing mode, as chosen by the parser.
#[derive(Debug)]
pub enum AddressingMode {
    Implicit,
    Immediate(ImmediateValue),
    ZeroPage(Address),
    ZeroPageX(Address),
    ZeroPageY(Address),
    Absolute(Address),
    AbsoluteX(Address),
    AbsoluteY(Address),
    IndirectX(Address),
    IndirectY(Address),
    Indirect(Address),
}

pub ghost enum AddressingModeModel {
    Implicit,
    Immediate(ImmediateValueModel),
    ZeroPage(AddressModel),
    ZeroPageX(AddressModel),
    ZeroPageY(AddressModel),
    Absolute(AddressModel),
    AbsoluteX(AddressModel),
    AbsoluteY(AddressModel),
    IndirectX(AddressModel),
    IndirectY(AddressModel),
    Indirect(AddressModel),
}

impl View for AddressingMode {
    type V = AddressingModeModel;

    open spec fn view(&self) -> AddressingModeModel {
        match self {
            AddressingMode::Implicit => AddressingModeModel::Implicit,
            AddressingMode::Immediate(i) => AddressingModeModel::Immediate(i@),
            AddressingMode::ZeroPage(a) => AddressingModeModel::ZeroPage(a@),
            AddressingMode::ZeroPageX(a) => AddressingModeModel::ZeroPageX(a@),
            AddressingMode::ZeroPageY(a) => AddressingModeModel::ZeroPageY(a@),
            AddressingMode::Absolute(a) => AddressingModeModel::Absolute(a@),
            AddressingMode::AbsoluteX(a) => AddressingModeModel::AbsoluteX(a@),
            AddressingMode::AbsoluteY(a) => AddressingModeModel::AbsoluteY(a@),
            AddressingMode::IndirectX(a) => AddressingModeModel::IndirectX(a@),
            AddressingMode::IndirectY(a) => AddressingModeModel::IndirectY(a@),
            AddressingMode::Indirect(a) => AddressingModeModel::Indirect(a@),
        }
    }
}

/// An instruction: a mnemonic and its addressing mode.
#[derive(Debug)]
pub struct Instruction {
    pub opcode: String,
    pub addr_mode: AddressingMode,
}

pub ghost struct InstructionModel {
    pub opcode: Seq<char>,
    pub addr_mode: AddressingModeModel,
}

impl View for Instruction {
    type V = InstructionModel;

    open spec fn view(&self) -> InstructionModel {
        InstructionModel { opcode: self.opcode@, addr_mode: self.addr_mode@ }
    }
}

/// An assembler pragma.
#[derive(Debug)]
pub enum Pragma {
    Byte(u8),
    Bytes(Vec<u8>),
    Word(Address),
    Origin(Address),
    Define(String, Address),
    Include(String),
}

pub ghost enum PragmaModel {
    Byte(u8),
    Bytes(Seq<u8>),
    Word(AddressModel),
    Origin(AddressModel),
    Define(Seq<char>, AddressModel),
    Include(Seq<char>),
}

impl View for Pragma {
    type V = PragmaModel;

    open spec fn view(&self) -> PragmaModel {
        match self {
            Pragma::Byte(n) => PragmaModel::Byte(*n),
            Pragma::Bytes(v) => PragmaModel::Bytes(v@),
            Pragma::Word(a) => PragmaModel::Word(a@),
            Pragma::Origin(a) => PragmaModel::Origin(a@),
            Pragma::Define(s, a) => PragmaModel::Define(s@, a@),
            Pragma::Include(s) => PragmaModel::Include(s@),
        }
    }
}

/// The body of a line: nothing, an instruction, or a pragma.
#[derive(Debug)]
pub enum LineValue {
    Empty,
    Instruction(Instruction),
    Pragma(Pragma),
}

pub ghost enum LineValueModel {
    Empty,
    Instruction(InstructionModel),
    Pragma(PragmaModel),
}

impl View for LineValue {
    type V = LineValueModel;

    open spec fn view(&self) -> LineValueModel {
        match self {
            LineValue::Empty => LineValueModel::Empty,
            LineValue::Instruction(i) => LineValueModel::Instruction(i@),
            LineValue::Pragma(p) => LineValueModel::Pragma(p@),
        }
    }
}

/// One parsed line of 6502 assembly.
#[derive(Debug)]
pub struct Line {
    pub lino: u32,
    /// The label binding of the line, or the empty string for none.
    pub label: String,
    pub value: LineValue,
}

pub ghost struct LineModel {
    pub lino: int,
    pub label: Seq<char>,
    pub value: LineValueModel,
}

impl View for Line {
    type V = LineModel;

    open spec fn view(&self) -> LineModel {
        LineModel { lino: self.lino as int, label: self.label@, value: self.value@ }
    }
}

/// An error raised while scanning, parsing or assembling.
#[derive(Debug)]
pub struct ParseError {
    pub filename: String,
    pub lino: u32,
    pub message: String,
}

/// The mathematical value of an error: its line and message.  The file name
/// is attached by the function that raises the error.
pub ghost struct ErrModel {
    pub lino: int,
    pub msg: Seq<char>,
}

pub open spec fn em(lino: int, msg: Seq<char>) -> ErrModel {
    ErrModel { lino, msg }
}

/// `e` carries the modelled error `me` for file `fname`.
pub open spec fn err_matches(e: ParseError, me: ErrModel, fname: Seq<char>) -> bool {
    &&& e.lino == me.lino
    &&& e.message@ == me.msg
    &&& e.filename@ == fname
}

impl ParseError {
    /// An error at the scanner's current line, in the scanner's file.
    pub fn new<T>(lexer: &Lexer, message: &str) -> (r: Result<T, ParseError>)
        ensures
            r matches Err(e) && err_matches(e, em(lexer.st().lino, message@), lexer.filename_view()),
    {
        Err(
            ParseError {
                filename: lexer.get_filename().clone(),
                lino: lexer.get_lino(),
                message: message.to_owned(),
            },
        )
    }
}

// ---------------------------------------------------------------------------
// Token classification helpers
// ---------------------------------------------------------------------------

/// The numeric value of a token, for any of the four literal radixes.
pub open spec fn tvm_num(v: TokenValueModel) -> Option<u16> {
    match v {
        TokenValueModel::Bin(n) => Option::Some(n),
        TokenValueModel::Oct(n) => Option::Some(n),
        TokenValueModel::Dec(n) => Option::Some(n),
        TokenValueModel::Hex(n) => Option::Some(n),
        _ => Option::None,
    }
}

/// The address a token denotes: a numeric literal or a label name.
pub open spec fn tvm_addr(v: TokenValueModel) -> Option<AddressModel> {
    match v {
        TokenValueModel::Bin(n) => Option::Some(AddressModel::Literal(n)),
        TokenValueModel::Oct(n) => Option::Some(AddressModel::Literal(n)),
        TokenValueModel::Dec(n) => Option::Some(AddressModel::Literal(n)),
        TokenValueModel::Hex(n) => Option::Some(AddressModel::Literal(n)),
        TokenValueModel::Symbol(s) => Option::Some(AddressModel::Label(s)),
        _ => Option::None,
    }
}

/// Addresses in the zero page get the short addressing modes.
pub open spec fn is_zero_page(a: AddressModel) -> bool {
    a matches AddressModel::Literal(n) && n <= 255
}

// ---------------------------------------------------------------------------
// The parser model
// ---------------------------------------------------------------------------

/// The immediate operand parsed after a `#` (already consumed at `st1`).
pub open spec fn spec_parse_operand_imm(s: Seq<char>, st1: LexState) -> (
    Result<AddressingModeModel, ErrModel>,
    LexState,
) {
    let (t2, st2) = spec_next(s, st1);
    match t2 {
        Option::None => (Result::Err(em(st2.lino, "Missing operand"@)), st2),
        Option::Some(tok2) => {
            if tvm_num(tok2.value) is Some {
                let n = tvm_num(tok2.value)->Some_0;
                if n < 256 {
                    (
                        Result::Ok(
                            AddressingModeModel::Immediate(ImmediateValueModel::Literal(n as u8)),
                        ),
                        st2,
                    )
                } else {
                    (Result::Err(em(st2.lino, "Cannot use word as immediate value"@)), st2)
                }
            } else if tok2.value is Symbol {
                (
                    Result::Ok(
                        AddressingModeModel::Immediate(
                            ImmediateValueModel::Label(tok2.value->Symbol_0),
                        ),
                    ),
                    st2,
                )
            } else if tok2.value is LT || tok2.value is GT {
                let (t3, st3) = spec_next(s, st2);
                match t3 {
                    Option::Some(tok3) => match tok3.value {
                        TokenValueModel::Symbol(name) => (
                            Result::Ok(
                                AddressingModeModel::Immediate(
                                    if tok2.value is LT {
                                        ImmediateValueModel::LowByte(name)
                                    } else {
                                        ImmediateValueModel::HighByte(name)
                                    },
                                ),
                            ),
                            st3,
                        ),
                        _ => (Result::Err(em(st2.lino, "Expected label"@)), st2),
                    },
                    Option::None => (Result::Err(em(st2.lino, "Unexpected EOF"@)), st2),
                }
            } else {
                (Result::Err(em(st2.lino, "Expected literal, label, '<', or '>'"@)), st2)
            }
        },
    }
}

/// The continuation of indirect addressing `(a` at `st2`: either `,X)`,
/// `),Y`, or `)` alone.
pub open spec fn spec_parse_operand_ind_tail(s: Seq<char>, st2: LexState, a: AddressModel) -> (
    Result<AddressingModeModel, ErrModel>,
    LexState,
) {
    let (t3, st3) = spec_next(s, st2);
    if t3 matches Option::Some(tok3) && tok3.value is Comma {
        // `(a, X)`
        let (t4, st4) = spec_next(s, st3);
        match t4 {
            Option::None => (Result::Err(em(st3.lino, "Unexpected EOF"@)), st3),
            Option::Some(tok4) => match tok4.value {
                TokenValueModel::Symbol(x) => {
                    if x == "x"@ || x == "X"@ {
                        let (t5, st5) = spec_next(s, st4);
                        match t5 {
                            Option::None => (Result::Err(em(st4.lino, "Unexpected EOF"@)), st4),
                            Option::Some(tok5) => {
                                if tok5.value is RParen {
                                    (Result::Ok(AddressingModeModel::IndirectX(a)), st5)
                                } else {
                                    (
                                        Result::Err(em(st4.lino, "Expected right parenthesis"@)),
                                        st4,
                                    )
                                }
                            },
                        }
                    } else {
                        (Result::Err(em(st4.lino, "Expected X register"@)), st4)
                    }
                },
                _ => (Result::Err(em(st3.lino, "Expected X register"@)), st3),
            },
        }
    } else if t3 matches Option::Some(tok3) && tok3.value is RParen {
        // `(a), Y` or `(a)`
        let (t4, st4) = spec_next(s, st3);
        if t4 matches Option::Some(tok4) && tok4.value is Comma {
            let (t5, st5) = spec_next(s, st4);
            match t5 {
                Option::None => (Result::Err(em(st4.lino, "Unexpected EOF"@)), st4),
                Option::Some(tok5) => match tok5.value {
                    TokenValueModel::Symbol(y) => {
                        if y == "y"@ || y == "Y"@ {
                            (Result::Ok(AddressingModeModel::IndirectY(a)), st5)
                        } else {
                            (Result::Err(em(st5.lino, "Expected Y register"@)), st5)
                        }
                    },
                    _ => (Result::Err(em(st4.lino, "Expected Y register"@)), st4),
                },
            }
        } else {
            (Result::Ok(AddressingModeModel::Indirect(a)), st3)
        }
    } else {
        (Result::Err(em(st2.lino, "Expected right parenthesis or comma"@)), st2)
    }
}

/// Indirect addressing parsed after a `(` (already consumed at `st1`).
pub open spec fn spec_parse_operand_ind(s: Seq<char>, st1: LexState) -> (
    Result<AddressingModeModel, ErrModel>,
    LexState,
) {
    let (t2, st2) = spec_next(s, st1);
    match t2 {
        Option::None => (Result::Err(em(st2.lino, "Missing address"@)), st2),
        Option::Some(tok2) => match tvm_addr(tok2.value) {
            Option::None => (Result::Err(em(st2.lino, "Expected address"@)), st2),
            Option::Some(a) => spec_parse_operand_ind_tail(s, st2, a),
        },
    }
}

/// The optional `,X` / `,Y` index after a bare address `a` (consumed at
/// `st1`): zero-page modes for literals up to 255, absolute modes otherwise.
pub open spec fn spec_parse_operand_bare_tail(s: Seq<char>, st1: LexState, a: AddressModel) -> (
    Result<AddressingModeModel, ErrModel>,
    LexState,
) {
    let (t2, st2) = spec_next(s, st1);
    if t2 matches Option::Some(tok2) && tok2.value is Comma {
        let (t3, st3) = spec_next(s, st2);
        match t3 {
            Option::None => (Result::Err(em(st2.lino, "Unexpected EOF"@)), st2),
            Option::Some(tok3) => match tok3.value {
                TokenValueModel::Symbol(r) => {
                    if r == "x"@ || r == "X"@ {
                        if is_zero_page(a) {
                            (Result::Ok(AddressingModeModel::ZeroPageX(a)), st3)
                        } else {
                            (Result::Ok(AddressingModeModel::AbsoluteX(a)), st3)
                        }
                    } else if r == "y"@ || r == "Y"@ {
                        if is_zero_page(a) {
                            (Result::Ok(AddressingModeModel::ZeroPageY(a)), st3)
                        } else {
                            (Result::Ok(AddressingModeModel::AbsoluteY(a)), st3)
                        }
                    } else {
                        (Result::Err(em(st3.lino, "Expected X or Y register"@)), st3)
                    }
                },
                _ => (Result::Err(em(st2.lino, "Expected X or Y register"@)), st2),
            },
        }
    } else {
        if is_zero_page(a) {
            (Result::Ok(AddressingModeModel::ZeroPage(a)), st1)
        } else {
            (Result::Ok(AddressingModeModel::Absolute(a)), st1)
        }
    }
}

/// The addressing mode (and operand) parsed after a mnemonic, starting from
/// `st`; `mode0` is the mode the instruction already carries, kept when the
/// line ends with no operand.
pub open spec fn spec_parse_operand(s: Seq<char>, st: LexState, mode0: AddressingModeModel) -> (
    Result<AddressingModeModel, ErrModel>,
    LexState,
) {
    let (t1, st1) = spec_next(s, st);
    if t1 matches Option::Some(tok1) && tok1.value is Hash {
        spec_parse_operand_imm(s, st1)
    } else if t1 matches Option::Some(tok1) && tok1.value is LParen {
        spec_parse_operand_ind(s, st1)
    } else {
        match t1 {
            Option::None => (Result::Ok(mode0), st),
            Option::Some(tok1) => match tvm_addr(tok1.value) {
                Option::None => (Result::Ok(mode0), st),
                Option::Some(a) => spec_parse_operand_bare_tail(s, st1, a),
            },
        }
    }
}

/// How a bare address chooses its addressing mode when no `,X` or `,Y`
/// index follows: a literal up to `$FF` becomes zero-page, a larger
/// literal becomes absolute, and a label always becomes absolute.
pub proof fn lemma_address_mode_selection(s: Seq<char>, st1: LexState, a: AddressModel)
    requires
        !(spec_next(s, st1).0 matches Option::Some(tok) && tok.value is Comma),
    ensures
        ({
            let (r, st2) = spec_parse_operand_bare_tail(s, st1, a);
            &&& st2 == st1
            &&& (a matches AddressModel::Literal(n) && n <= 255 ==> r == Result::<
                AddressingModeModel,
                ErrModel,
            >::Ok(AddressingModeModel::ZeroPage(a)))
            &&& (a matches AddressModel::Literal(n) && n > 255 ==> r == Result::<
                AddressingModeModel,
                ErrModel,
            >::Ok(AddressingModeModel::Absolute(a)))
            &&& (a is Label ==> r == Result::<AddressingModeModel, ErrModel>::Ok(
                AddressingModeModel::Absolute(a),
            ))
        }),
{
}

/// The items of a `.bytes` pragma from `st` on, appended to `acc`: numeric
/// literals contribute one byte each, strings their UTF-8 bytes, commas
/// between items are skipped; a newline or the end of the text stops the
/// list without being consumed.
pub open spec fn spec_parse_bytes(s: Seq<char>, st: LexState, acc: Seq<u8>) -> (
    Result<Seq<u8>, ErrModel>,
    LexState,
)
    decreases s.len() - st.pos,
    when wf_text(s) && wf_state(s, st)
    via spec_parse_bytes_decreases
{
    let (t, st1) = spec_next(s, st);
    match t {
        Option::None => (Result::Ok(acc), st),
        Option::Some(tok) => {
            if tok.value is Newline {
                (Result::Ok(acc), st)
            } else {
                if tvm_num(tok.value) is Some {
                    let n = tvm_num(tok.value)->Some_0;
                    if n < 256 {
                        let (tc, stc) = spec_next(s, st1);
                        let st_after = if tc matches Option::Some(c) && c.value is Comma {
                            stc
                        } else {
                            st1
                        };
                        spec_parse_bytes(s, st_after, acc.push(n as u8))
                    } else {
                        (Result::Err(em(st1.lino, "Cannot use word as immediate value"@)), st1)
                    }
                } else if tok.value is String {
                    let txt = tok.value->String_0;
                    let (tc, stc) = spec_next(s, st1);
                    let st_after = if tc matches Option::Some(c) && c.value is Comma {
                        stc
                    } else {
                        st1
                    };
                    spec_parse_bytes(s, st_after, acc + vstd::utf8::encode_utf8(txt))
                } else {
                    (Result::Err(em(st1.lino, "Invalid byte"@)), st1)
                }
            }
        },
    }
}

#[via_fn]
proof fn spec_parse_bytes_decreases(s: Seq<char>, st: LexState, acc: Seq<u8>) {
    lemma_spec_next(s, st);
    let (t, st1) = spec_next(s, st);
    if t is Some {
        lemma_spec_next(s, st1);
    }
}

/// The `.byte` pragma's argument, from `st1`.
pub open spec fn spec_pragma_byte(s: Seq<char>, st1: LexState) -> (
    Result<PragmaModel, ErrModel>,
    LexState,
) {
    let (t2, st2) = spec_next(s, st1);
    match t2 {
        Option::None => (Result::Err(em(st2.lino, "Expected byte after .byte"@)), st2),
        Option::Some(tok2) => {
            if tvm_num(tok2.value) is Some {
                let n = tvm_num(tok2.value)->Some_0;
                if n < 256 {
                    (Result::Ok(PragmaModel::Byte(n as u8)), st2)
                } else {
                    (Result::Err(em(st2.lino, "Cannot use word as immediate value"@)), st2)
                }
            } else {
                (Result::Err(em(st2.lino, "Expected byte after .byte"@)), st2)
            }
        },
    }
}

/// The `.word` pragma's argument, from `st1`.
pub open spec fn spec_pragma_word(s: Seq<char>, st1: LexState) -> (
    Result<PragmaModel, ErrModel>,
    LexState,
) {
    let (t2, st2) = spec_next(s, st1);
    match t2 {
        Option::None => (
            Result::Err(em(st2.lino, "Expected address or label after .word"@)),
            st2,
        ),
        Option::Some(tok2) => match tvm_addr(tok2.value) {
            Option::Some(a) => (Result::Ok(PragmaModel::Word(a)), st2),
            Option::None => (
                Result::Err(em(st2.lino, "Expected address or label after .word"@)),
                st2,
            ),
        },
    }
}

/// The `.origin` pragma's argument, from `st1`.
pub open spec fn spec_pragma_origin(s: Seq<char>, st1: LexState) -> (
    Result<PragmaModel, ErrModel>,
    LexState,
) {
    let (t2, st2) = spec_next(s, st1);
    match t2 {
        Option::None => (
            Result::Err(em(st2.lino, "Expected address or label after .origin"@)),
            st2,
        ),
        Option::Some(tok2) => match tvm_addr(tok2.value) {
            Option::Some(a) => (Result::Ok(PragmaModel::Origin(a)), st2),
            Option::None => (
                Result::Err(em(st2.lino, "Expected address or label after .origin"@)),
                st2,
            ),
        },
    }
}

/// The `.define` pragma's arguments, from `st1`.
pub open spec fn spec_pragma_define(s: Seq<char>, st1: LexState) -> (
    Result<PragmaModel, ErrModel>,
    LexState,
) {
    let (t2, st2) = spec_next(s, st1);
    match t2 {
        Option::None => (Result::Err(em(st1.lino, "Unexpected EOF"@)), st1),
        Option::Some(tok2) => match tok2.value {
            TokenValueModel::Symbol(label) => {
                let (t3, st3) = spec_next(s, st2);
                match t3 {
                    Option::None => (
                        Result::Err(
                            em(st3.lino, "Expected address or label after .define [label]"@),
                        ),
                        st3,
                    ),
                    Option::Some(tok3) => match tvm_addr(tok3.value) {
                        Option::Some(a) => (Result::Ok(PragmaModel::Define(label, a)), st3),
                        Option::None => (
                            Result::Err(
                                em(st3.lino, "Expected address or label after .define [label]"@),
                            ),
                            st3,
                        ),
                    },
                }
            },
            _ => (Result::Err(em(st1.lino, "Expected label after .define"@)), st1),
        },
    }
}

/// The `.include` pragma's argument, from `st1`.
pub open spec fn spec_pragma_include(s: Seq<char>, st1: LexState) -> (
    Result<PragmaModel, ErrModel>,
    LexState,
) {
    let (t2, st2) = spec_next(s, st1);
    if t2 matches Option::Some(tok2) && tok2.value is String {
        (Result::Ok(PragmaModel::Include(t2->Some_0.value->String_0)), st2)
    } else {
        (Result::Err(em(st1.lino, "Expected string with include path"@)), st1)
    }
}

/// The pragma parsed after the `.`, starting from `st`.
pub open spec fn spec_parse_pragma(s: Seq<char>, st: LexState) -> (
    Result<PragmaModel, ErrModel>,
    LexState,
) {
    let (t1, st1) = spec_next(s, st);
    match t1 {
        Option::None => (Result::Err(em(st.lino, "Unexpected EOF"@)), st),
        Option::Some(tok1) => match tok1.value {
            TokenValueModel::Symbol(name) => {
                if name == "byte"@ {
                    spec_pragma_byte(s, st1)
                } else if name == "bytes"@ {
                    let (r, st2) = spec_parse_bytes(s, st1, Seq::empty());
                    match r {
                        Result::Ok(bytes) => (Result::Ok(PragmaModel::Bytes(bytes)), st2),
                        Result::Err(e) => (Result::Err(e), st2),
                    }
                } else if name == "word"@ {
                    spec_pragma_word(s, st1)
                } else if name == "origin"@ {
                    spec_pragma_origin(s, st1)
                } else if name == "define"@ {
                    spec_pragma_define(s, st1)
                } else if name == "include"@ {
                    spec_pragma_include(s, st1)
                } else {
                    (Result::Err(em(st1.lino, "Invalid pragma"@)), st1)
                }
            },
            _ => (Result::Err(em(st.lino, "Expected pragma after dot"@)), st),
        },
    }
}

/// The body of a line: an instruction if a symbol comes first, a pragma
/// after a dot, and nothing otherwise.
pub open spec fn spec_parse_post_label(s: Seq<char>, st: LexState) -> (
    Result<LineValueModel, ErrModel>,
    LexState,
) {
    let (t1, st1) = spec_next(s, st);
    match t1 {
        Option::Some(tok1) => match tok1.value {
            TokenValueModel::Symbol(name) => {
                let (r, st2) = spec_parse_operand(s, st1, AddressingModeModel::Implicit);
                match r {
                    Result::Ok(mode) => (
                        Result::Ok(
                            LineValueModel::Instruction(
                                InstructionModel { opcode: name, addr_mode: mode },
                            ),
                        ),
                        st2,
                    ),
                    Result::Err(e) => (Result::Err(e), st2),
                }
            },
            TokenValueModel::Dot => {
                let (r, st2) = spec_parse_pragma(s, st1);
                match r {
                    Result::Ok(p) => (Result::Ok(LineValueModel::Pragma(p)), st2),
                    Result::Err(e) => (Result::Err(e), st2),
                }
            },
            _ => (Result::Ok(LineValueModel::Empty), st),
        },
        Option::None => (Result::Ok(LineValueModel::Empty), st),
    }
}

/// The scanner position after skipping the newline tokens at `st`.
pub open spec fn spec_skip_newlines(s: Seq<char>, st: LexState) -> LexState
    decreases s.len() - st.pos,
    when wf_text(s) && wf_state(s, st)
    via spec_skip_newlines_decreases
{
    let (t, st1) = spec_next(s, st);
    if t matches Option::Some(tok) && tok.value is Newline {
        spec_skip_newlines(s, st1)
    } else {
        st
    }
}

#[via_fn]
proof fn spec_skip_newlines_decreases(s: Seq<char>, st: LexState) {
    lemma_spec_next(s, st);
}

/// The optional `label:` prefix at `st1`: a symbol followed by a colon is
/// the line's label; a symbol not followed by a colon is rewound and left
/// for the body.
pub open spec fn spec_parse_label(s: Seq<char>, st1: LexState) -> (Seq<char>, LexState) {
    let (t1, st2) = spec_next(s, st1);
    match t1 {
        Option::Some(tok1) => {
            if tok1.value is Symbol {
                let (t2, st3) = spec_next(s, st2);
                if t2 matches Option::Some(tok2) && tok2.value is Colon {
                    (tok1.value->Symbol_0, st3)
                } else {
                    (Seq::<char>::empty(), st1)
                }
            } else {
                (Seq::<char>::empty(), st1)
            }
        },
        Option::None => (Seq::<char>::empty(), st1),
    }
}

/// The end of a line at `st4`: a newline is consumed, the end of the input
/// is accepted, anything else is an error.
pub open spec fn spec_finish_line(
    s: Seq<char>,
    st4: LexState,
    lino: int,
    label: Seq<char>,
    v: LineValueModel,
) -> (Result<Option<LineModel>, ErrModel>, LexState) {
    let (t5, st5) = spec_next(s, st4);
    match t5 {
        Option::None => (
            Result::Ok(Option::Some(LineModel { lino, label, value: v })),
            st4,
        ),
        Option::Some(tok5) => {
            if tok5.value is Newline {
                (Result::Ok(Option::Some(LineModel { lino, label, value: v })), st5)
            } else {
                (Result::Err(em(st4.lino, "Expected end of line"@)), st4)
            }
        },
    }
}

/// The next line parsed from `st`: `Ok(None)` at the end of the input,
/// otherwise an optional `label:`, an optional body, and a newline (or the
/// end of the input).
pub open spec fn spec_parse_line(s: Seq<char>, st: LexState) -> (
    Result<Option<LineModel>, ErrModel>,
    LexState,
) {
    let st1 = spec_skip_newlines(s, st);
    let lino = st1.lino;
    let (t1, st2) = spec_next(s, st1);
    match t1 {
        Option::None => (Result::Ok(Option::None), st1),
        Option::Some(tok1) => {
            let lbl = spec_parse_label(s, st1);
            let (r, st4) = spec_parse_post_label(s, lbl.1);
            match r {
                Result::Err(e) => (Result::Err(e), st4),
                Result::Ok(v) => spec_finish_line(s, st4, lino, lbl.0, v),
            }
        },
    }
}

// ---------------------------------------------------------------------------
// State lemmas: the parser model moves forward and stays well formed
// ---------------------------------------------------------------------------

pub proof fn lemma_spec_parse_operand_st(s: Seq<char>, st: LexState, mode0: AddressingModeModel)
    requires
        wf_text(s),
        wf_state(s, st),
    ensures
        ({
            let (r, st2) = spec_parse_operand(s, st, mode0);
            &&& wf_state(s, st2)
            &&& st.pos <= st2.pos
        }),
{
    lemma_spec_next(s, st);
    let (t1, st1) = spec_next(s, st);
    if t1 is Some {
        lemma_spec_next(s, st1);
        let (t2, st2) = spec_next(s, st1);
        if t2 is Some {
            lemma_spec_next(s, st2);
            let (t3, st3) = spec_next(s, st2);
            if t3 is Some {
                lemma_spec_next(s, st3);
                let (t4, st4) = spec_next(s, st3);
                if t4 is Some {
                    lemma_spec_next(s, st4);
                    let (t5, st5) = spec_next(s, st4);
                    if t5 is Some {
                        lemma_spec_next(s, st5);
                    }
                }
            }
        }
    }
}

pub proof fn lemma_spec_parse_bytes_st(s: Seq<char>, st: LexState, acc: Seq<u8>)
    requires
        wf_text(s),
        wf_state(s, st),
    ensures
        ({
            let (r, st2) = spec_parse_bytes(s, st, acc);
            &&& wf_state(s, st2)
            &&& st.pos <= st2.pos
        }),
    decreases s.len() - st.pos,
{
    lemma_spec_next(s, st);
    let (t, st1) = spec_next(s, st);
    if t is Some {
        lemma_spec_next(s, st1);
        let (tc, stc) = spec_next(s, st1);
        let tok = t->Some_0;
        if !(tok.value is Newline) {
            let st_after = if tc matches Option::Some(c) && c.value is Comma {
                stc
            } else {
                st1
            };
            if tvm_num(tok.value) is Some {
                let n = tvm_num(tok.value)->Some_0;
                if n < 256 {
                    lemma_spec_parse_bytes_st(s, st_after, acc.push(n as u8));
                }
            } else if tok.value is String {
                lemma_spec_parse_bytes_st(
                    s,
                    st_after,
                    acc + vstd::utf8::encode_utf8(tok.value->String_0),
                );
            }
        }
    }
}

pub proof fn lemma_spec_parse_pragma_st(s: Seq<char>, st: LexState)
    requires
        wf_text(s),
        wf_state(s, st),
    ensures
        ({
            let (r, st2) = spec_parse_pragma(s, st);
            &&& wf_state(s, st2)
            &&& st.pos <= st2.pos
        }),
{
    lemma_spec_next(s, st);
    let (t1, st1) = spec_next(s, st);
    if t1 is Some {
        lemma_spec_next(s, st1);
        let (t2, st2) = spec_next(s, st1);
        if t2 is Some {
            lemma_spec_next(s, st2);
            let (t3, st3) = spec_next(s, st2);
            if t3 is Some {
                lemma_spec_next(s, st3);
            }
        }
        lemma_spec_parse_bytes_st(s, st1, Seq::empty());
    }
}

pub proof fn lemma_spec_parse_post_label_st(s: Seq<char>, st: LexState)
    requires
        wf_text(s),
        wf_state(s, st),
    ensures
        ({
            let (r, st2) = spec_parse_post_label(s, st);
            &&& wf_state(s, st2)
            &&& st.pos <= st2.pos
            &&& ({
                let t1 = spec_next(s, st).0;
                t1 matches Option::Some(tok) && (tok.value is Symbol || tok.value is Dot)
                    ==> st2.pos > st.pos
            })
        }),
{
    lemma_spec_next(s, st);
    let (t1, st1) = spec_next(s, st);
    if t1 is Some {
        lemma_spec_parse_operand_st(s, st1, AddressingModeModel::Implicit);
        lemma_spec_parse_pragma_st(s, st1);
    }
}

pub proof fn lemma_spec_skip_newlines_st(s: Seq<char>, st: LexState)
    requires
        wf_text(s),
        wf_state(s, st),
    ensures
        ({
            let st1 = spec_skip_newlines(s, st);
            &&& wf_state(s, st1)
            &&& st.pos <= st1.pos
            &&& !(spec_next(s, st1).0 matches Option::Some(tok) && tok.value is Newline)
        }),
    decreases s.len() - st.pos,
{
    lemma_spec_next(s, st);
    let (t, st1) = spec_next(s, st);
    if t matches Option::Some(tok) && tok.value is Newline {
        lemma_spec_skip_newlines_st(s, st1);
    }
}

pub proof fn lemma_spec_parse_line_st(s: Seq<char>, st: LexState)
    requires
        wf_text(s),
        wf_state(s, st),
    ensures
        ({
            let (r, st2) = spec_parse_line(s, st);
            &&& wf_state(s, st2)
            &&& st.pos <= st2.pos
            &&& (r matches Result::Ok(Option::Some(_)) ==> st2.pos > st.pos)
        }),
{
    lemma_spec_skip_newlines_st(s, st);
    let st1 = spec_skip_newlines(s, st);
    lemma_spec_next(s, st1);
    let (t1, st2) = spec_next(s, st1);
    if t1 is Some {
        lemma_spec_next(s, st2);
        let (t2, st3) = spec_next(s, st2);
        let lbl = spec_parse_label(s, st1);
        lemma_spec_parse_post_label_st(s, lbl.1);
        let (r, st4) = spec_parse_post_label(s, lbl.1);
        lemma_spec_next(s, st4);
    }
}

/// The whole input parsed from `st`, the lines appended to `acc`.
pub open spec fn spec_parse(s: Seq<char>, st: LexState, acc: Seq<LineModel>) -> (
    Result<Seq<LineModel>, ErrModel>,
    LexState,
)
    decreases s.len() - st.pos,
    when wf_text(s) && wf_state(s, st)
    via spec_parse_decreases
{
    let (r, st1) = spec_parse_line(s, st);
    match r {
        Result::Err(e) => (Result::Err(e), st1),
        Result::Ok(Option::None) => (Result::Ok(acc), st1),
        Result::Ok(Option::Some(line)) => spec_parse(s, st1, acc.push(line)),
    }
}

#[via_fn]
proof fn spec_parse_decreases(s: Seq<char>, st: LexState, acc: Seq<LineModel>) {
    lemma_spec_parse_line_st(s, st);
}


// ---------------------------------------------------------------------------
// Print-and-reparse round trips
// ---------------------------------------------------------------------------
//
// A line can be printed back canonically from its parsed form; the
// canonical text parses to the very same line.  The statements below cover
// the instruction forms one operand shape at a time: no operand (with and
// without a line label), an immediate byte literal, a bare literal address
// (zero-page below $100, absolute from $100 on), and a bare label operand
// (always absolute).

/// A first piece of the print-and-reparse round trip: a parsed line that
/// holds only a mnemonic (an implicit instruction, no label) prints
/// canonically as the mnemonic followed by a newline, and that text parses
/// back to the very same line.  The text carries the scanner's sentinel
/// space at its end, as every scanned text does.
pub proof fn lemma_implicit_line_round_trip(name: Seq<char>)
    requires
        name.len() >= 1,
        crate::lexer::is_sym_start(name[0]),
        forall|i: int| 0 <= i < name.len() ==> crate::lexer::is_sym_char(#[trigger] name[i]),
        name.len() + 3 < 0x1_0000_0000,
    ensures
        ({
            let s = name.push('\n').push(' ');
            let st0 = LexState { pos: 0, lino: 1, charpos: 0 };
            spec_parse_line(s, st0) == (
                Result::<Option<LineModel>, ErrModel>::Ok(
                    Option::Some(
                        LineModel {
                            lino: 1,
                            label: Seq::<char>::empty(),
                            value: LineValueModel::Instruction(
                                InstructionModel {
                                    opcode: name,
                                    addr_mode: AddressingModeModel::Implicit,
                                },
                            ),
                        },
                    ),
                ),
                LexState { pos: name.len() + 1int, lino: 2, charpos: 0 },
            )
        }),
{
    let s = name.push('\n').push(' ');
    let st0 = LexState { pos: 0, lino: 1, charpos: 0 };
    assert(s.len() == name.len() + 2);
    assert(s[s.len() - 1] == ' ');
    assert(forall|i: int| 0 <= i < name.len() ==> s[i] == #[trigger] name[i]);
    assert(s[name.len() as int] == '\n');
    assert(wf_text(s));
    assert(wf_state(s, st0));
    // The first token is the mnemonic, the second the newline.
    crate::lexer::lemma_spec_next_symbol(s, st0, name.len() as int);
    assert(s.subrange(0, name.len() as int) =~= name);
    let st2 = LexState { pos: name.len() as int, lino: 1, charpos: name.len() as int };
    assert(wf_state(s, st2));
    crate::lexer::lemma_spec_next_newline(s, st2);
    // No leading newlines to skip, no colon, so no label; the mnemonic
    // becomes an instruction, the newline after it has no operand to
    // offer, and it closes the line.
    assert(spec_skip_newlines(s, st0) == st0);
    assert(spec_parse_label(s, st0) == (Seq::<char>::empty(), st0));
    assert(spec_parse_operand(s, st2, AddressingModeModel::Implicit) == (
        Result::<AddressingModeModel, ErrModel>::Ok(AddressingModeModel::Implicit),
        st2,
    ));
}

/// The labelled counterpart of `lemma_implicit_line_round_trip`: a parsed
/// line holding a label and a bare mnemonic prints canonically as
/// `label:mnemonic` followed by a newline, and that text parses back to the
/// very same line.
pub proof fn lemma_labelled_implicit_line_round_trip(label: Seq<char>, name: Seq<char>)
    requires
        label.len() >= 1,
        crate::lexer::is_sym_start(label[0]),
        forall|i: int| 0 <= i < label.len() ==> crate::lexer::is_sym_char(#[trigger] label[i]),
        name.len() >= 1,
        crate::lexer::is_sym_start(name[0]),
        forall|i: int| 0 <= i < name.len() ==> crate::lexer::is_sym_char(#[trigger] name[i]),
        label.len() + name.len() + 4 < 0x1_0000_0000,
    ensures
        ({
            let s = label + seq![':'] + name + seq!['\n', ' '];
            let st0 = LexState { pos: 0, lino: 1, charpos: 0 };
            spec_parse_line(s, st0) == (
                Result::<Option<LineModel>, ErrModel>::Ok(
                    Option::Some(
                        LineModel {
                            lino: 1,
                            label: label,
                            value: LineValueModel::Instruction(
                                InstructionModel {
                                    opcode: name,
                                    addr_mode: AddressingModeModel::Implicit,
                                },
                            ),
                        },
                    ),
                ),
                LexState { pos: label.len() + name.len() + 2int, lino: 2, charpos: 0 },
            )
        }),
{
    let s = label + seq![':'] + name + seq!['\n', ' '];
    let st0 = LexState { pos: 0, lino: 1, charpos: 0 };
    let ll = label.len() as int;
    let nl = name.len() as int;
    assert(s.len() == ll + nl + 3);
    assert(forall|i: int| 0 <= i < ll ==> s[i] == #[trigger] label[i]);
    assert(s[ll] == ':');
    assert(forall|i: int| 0 <= i < nl ==> s[ll + 1 + i] == #[trigger] name[i]);
    assert(s[ll + 1 + nl] == '\n');
    assert(s[s.len() - 1] == ' ');
    assert(wf_text(s));
    // The four tokens: the label, the colon, the mnemonic, the newline.
    assert forall|j: int| 0 <= j < ll implies crate::lexer::is_sym_char(#[trigger] s[j]) by {
        assert(s[j] == label[j]);
    }
    crate::lexer::lemma_spec_next_symbol(s, st0, ll);
    assert(s.subrange(0, ll) =~= label);
    let st2 = LexState { pos: ll, lino: 1, charpos: ll };
    crate::lexer::lemma_spec_next_colon(s, st2);
    let st3 = LexState { pos: ll + 1, lino: 1, charpos: ll + 1 };
    assert forall|j: int| ll + 1 <= j < ll + 1 + nl implies crate::lexer::is_sym_char(
        #[trigger] s[j],
    ) by {
        assert(s[j] == name[j - ll - 1]);
    }
    assert(crate::lexer::is_sym_start(s[ll + 1]));
    crate::lexer::lemma_spec_next_symbol(s, st3, ll + 1 + nl);
    assert(s.subrange(ll + 1, ll + 1 + nl) =~= name);
    let st4 = LexState { pos: ll + 1 + nl, lino: 1, charpos: ll + 1 + nl };
    crate::lexer::lemma_spec_next_newline(s, st4);
    // No leading newlines; the label binds; the mnemonic becomes an
    // implicit instruction; the newline closes the line.
    assert(spec_skip_newlines(s, st0) == st0);
    assert(spec_parse_label(s, st0) == (label, st3));
    assert(spec_parse_operand(s, st4, AddressingModeModel::Implicit) == (
        Result::<AddressingModeModel, ErrModel>::Ok(AddressingModeModel::Implicit),
        st4,
    ));
}

/// The immediate-operand piece of the print-and-reparse round trip: a
/// parsed line holding a mnemonic with an immediate byte literal prints
/// canonically as `mnemonic#$<hex>` and a newline, and that text parses
/// back to the very same line.
#[verifier::rlimit(100)]
pub proof fn lemma_immediate_line_round_trip(name: Seq<char>, b: u8)
    requires
        name.len() >= 1,
        crate::lexer::is_sym_start(name[0]),
        forall|i: int| 0 <= i < name.len() ==> crate::lexer::is_sym_char(#[trigger] name[i]),
        name.len() + 10 < 0x1_0000_0000,
    ensures
        ({
            let s = name + seq!['#', '$'] + crate::lexer::print_hex_digits(b as nat) + seq![
                '\n',
                ' ',
            ];
            let st0 = LexState { pos: 0, lino: 1, charpos: 0 };
            let hl = crate::lexer::print_hex_digits(b as nat).len() as int;
            spec_parse_line(s, st0) == (
                Result::<Option<LineModel>, ErrModel>::Ok(
                    Option::Some(
                        LineModel {
                            lino: 1,
                            label: Seq::<char>::empty(),
                            value: LineValueModel::Instruction(
                                InstructionModel {
                                    opcode: name,
                                    addr_mode: AddressingModeModel::Immediate(
                                        ImmediateValueModel::Literal(b),
                                    ),
                                },
                            ),
                        },
                    ),
                ),
                LexState { pos: name.len() + 3 + hl, lino: 2, charpos: 0 },
            )
        }),
{
    crate::lexer::lemma_print_hex_digits(b as nat);
    crate::lexer::lemma_print_hex_digits_len(b as nat);
    let hx = crate::lexer::print_hex_digits(b as nat);
    let hl = hx.len() as int;
    let s = name + seq!['#', '$'] + hx + seq!['\n', ' '];
    let st0 = LexState { pos: 0, lino: 1, charpos: 0 };
    let nl = name.len() as int;
    assert(s.len() == nl + 4 + hl);
    assert(forall|i: int| 0 <= i < nl ==> s[i] == #[trigger] name[i]);
    assert(s[nl] == '#');
    assert(s[nl + 1] == '$');
    assert(forall|i: int| 0 <= i < hl ==> s[nl + 2 + i] == #[trigger] hx[i]);
    assert(s[nl + 2 + hl] == '\n');
    assert(s[s.len() - 1] == ' ');
    assert(wf_text(s));
    // The four tokens: the mnemonic, the hash, the literal, the newline.
    assert forall|j: int| 0 <= j < nl implies crate::lexer::is_sym_char(#[trigger] s[j]) by {
        assert(s[j] == name[j]);
    }
    crate::lexer::lemma_spec_next_symbol(s, st0, nl);
    assert(s.subrange(0, nl) =~= name);
    let st_s = LexState { pos: nl, lino: 1, charpos: nl };
    crate::lexer::lemma_spec_next_hash(s, st_s);
    let st_h = LexState { pos: nl + 1, lino: 1, charpos: nl + 1 };
    assert forall|j: int| nl + 2 <= j < nl + 2 + hl implies crate::lexer::is_hex_digit(
        #[trigger] s[j],
    ) by {
        assert(s[j] == hx[j - nl - 2]);
    }
    assert(s.subrange(nl + 2, nl + 2 + hl) =~= hx);
    crate::lexer::lemma_spec_next_hex(s, st_h, nl + 2 + hl);
    let st_x = LexState { pos: nl + 2 + hl, lino: 1, charpos: nl + 2 + hl };
    crate::lexer::lemma_spec_next_newline(s, st_x);
    // No label, a `#` immediate with a byte literal, and the closing
    // newline.
    assert(spec_skip_newlines(s, st0) == st0);
    assert(spec_parse_label(s, st0) == (Seq::<char>::empty(), st0));
    assert(spec_parse_operand_imm(s, st_h) == (
        Result::<AddressingModeModel, ErrModel>::Ok(
            AddressingModeModel::Immediate(ImmediateValueModel::Literal(b)),
        ),
        st_x,
    ));
}

/// The address-operand piece of the print-and-reparse round trip: a parsed
/// line holding a mnemonic with a bare literal address prints canonically
/// as `mnemonic$<hex>` and a newline, and that text parses back to the very
/// same line — the zero page below `$100`, absolute from `$100` on.
#[verifier::rlimit(100)]
pub proof fn lemma_address_line_round_trip(name: Seq<char>, n: u16)
    requires
        name.len() >= 1,
        crate::lexer::is_sym_start(name[0]),
        forall|i: int| 0 <= i < name.len() ==> crate::lexer::is_sym_char(#[trigger] name[i]),
        name.len() + 10 < 0x1_0000_0000,
    ensures
        ({
            let s = name + seq!['$'] + crate::lexer::print_hex_digits(n as nat) + seq!['\n', ' '];
            let st0 = LexState { pos: 0, lino: 1, charpos: 0 };
            let hl = crate::lexer::print_hex_digits(n as nat).len() as int;
            spec_parse_line(s, st0) == (
                Result::<Option<LineModel>, ErrModel>::Ok(
                    Option::Some(
                        LineModel {
                            lino: 1,
                            label: Seq::<char>::empty(),
                            value: LineValueModel::Instruction(
                                InstructionModel {
                                    opcode: name,
                                    addr_mode: if n <= 255 {
                                        AddressingModeModel::ZeroPage(AddressModel::Literal(n))
                                    } else {
                                        AddressingModeModel::Absolute(AddressModel::Literal(n))
                                    },
                                },
                            ),
                        },
                    ),
                ),
                LexState { pos: name.len() + 2 + hl, lino: 2, charpos: 0 },
            )
        }),
{
    crate::lexer::lemma_print_hex_digits(n as nat);
    crate::lexer::lemma_print_hex_digits_len(n as nat);
    let hx = crate::lexer::print_hex_digits(n as nat);
    let hl = hx.len() as int;
    let s = name + seq!['$'] + hx + seq!['\n', ' '];
    let st0 = LexState { pos: 0, lino: 1, charpos: 0 };
    let nl = name.len() as int;
    assert(s.len() == nl + 3 + hl);
    assert(forall|i: int| 0 <= i < nl ==> s[i] == #[trigger] name[i]);
    assert(s[nl] == '$');
    assert(forall|i: int| 0 <= i < hl ==> s[nl + 1 + i] == #[trigger] hx[i]);
    assert(s[nl + 1 + hl] == '\n');
    assert(s[s.len() - 1] == ' ');
    assert(wf_text(s));
    // The three tokens: the mnemonic, the literal, the newline.
    assert forall|j: int| 0 <= j < nl implies crate::lexer::is_sym_char(#[trigger] s[j]) by {
        assert(s[j] == name[j]);
    }
    crate::lexer::lemma_spec_next_symbol(s, st0, nl);
    assert(s.subrange(0, nl) =~= name);
    let st_s = LexState { pos: nl, lino: 1, charpos: nl };
    assert forall|j: int| nl + 1 <= j < nl + 1 + hl implies crate::lexer::is_hex_digit(
        #[trigger] s[j],
    ) by {
        assert(s[j] == hx[j - nl - 1]);
    }
    assert(s.subrange(nl + 1, nl + 1 + hl) =~= hx);
    crate::lexer::lemma_spec_next_hex(s, st_s, nl + 1 + hl);
    let st_x = LexState { pos: nl + 1 + hl, lino: 1, charpos: nl + 1 + hl };
    crate::lexer::lemma_spec_next_newline(s, st_x);
    // No label, a bare address with no index after it, and the closing
    // newline.
    assert(spec_skip_newlines(s, st0) == st0);
    assert(spec_parse_label(s, st0) == (Seq::<char>::empty(), st0));
    assert(spec_parse_operand_bare_tail(s, st_x, AddressModel::Literal(n)) == (
        Result::<AddressingModeModel, ErrModel>::Ok(
            if n <= 255 {
                AddressingModeModel::ZeroPage(AddressModel::Literal(n))
            } else {
                AddressingModeModel::Absolute(AddressModel::Literal(n))
            },
        ),
        st_x,
    ));
}

/// The label-operand piece of the print-and-reparse round trip: a parsed
/// line holding a mnemonic with a bare label operand prints canonically as
/// the mnemonic, one space, the label, and a newline — and that text
/// parses back to the very same line, the label operand always absolute.
#[verifier::rlimit(100)]
pub proof fn lemma_label_operand_round_trip(name: Seq<char>, label: Seq<char>)
    requires
        name.len() >= 1,
        crate::lexer::is_sym_start(name[0]),
        forall|i: int| 0 <= i < name.len() ==> crate::lexer::is_sym_char(#[trigger] name[i]),
        label.len() >= 1,
        crate::lexer::is_sym_start(label[0]),
        forall|i: int| 0 <= i < label.len() ==> crate::lexer::is_sym_char(#[trigger] label[i]),
        name.len() + label.len() + 4 < 0x1_0000_0000,
    ensures
        ({
            let s = name + seq![' '] + label + seq!['\n', ' '];
            let st0 = LexState { pos: 0, lino: 1, charpos: 0 };
            spec_parse_line(s, st0) == (
                Result::<Option<LineModel>, ErrModel>::Ok(
                    Option::Some(
                        LineModel {
                            lino: 1,
                            label: Seq::<char>::empty(),
                            value: LineValueModel::Instruction(
                                InstructionModel {
                                    opcode: name,
                                    addr_mode: AddressingModeModel::Absolute(
                                        AddressModel::Label(label),
                                    ),
                                },
                            ),
                        },
                    ),
                ),
                LexState { pos: name.len() + label.len() + 2int, lino: 2, charpos: 0 },
            )
        }),
{
    let s = name + seq![' '] + label + seq!['\n', ' '];
    let st0 = LexState { pos: 0, lino: 1, charpos: 0 };
    let nl = name.len() as int;
    let ll = label.len() as int;
    assert(s.len() == nl + ll + 3);
    assert(forall|i: int| 0 <= i < nl ==> s[i] == #[trigger] name[i]);
    assert(s[nl] == ' ');
    assert(forall|i: int| 0 <= i < ll ==> s[nl + 1 + i] == #[trigger] label[i]);
    assert(s[nl + 1 + ll] == '\n');
    assert(s[s.len() - 1] == ' ');
    assert(wf_text(s));
    // The three tokens: the mnemonic, the label after one space, the
    // newline.
    assert forall|j: int| 0 <= j < nl implies crate::lexer::is_sym_char(#[trigger] s[j]) by {
        assert(s[j] == name[j]);
    }
    crate::lexer::lemma_spec_next_symbol(s, st0, nl);
    assert(s.subrange(0, nl) =~= name);
    let st_s = LexState { pos: nl, lino: 1, charpos: nl };
    assert forall|j: int| nl + 1 <= j < nl + 1 + ll implies crate::lexer::is_sym_char(
        #[trigger] s[j],
    ) by {
        assert(s[j] == label[j - nl - 1]);
    }
    assert(crate::lexer::is_sym_start(s[nl + 1]));
    crate::lexer::lemma_spec_next_symbol_after_space(s, st_s, nl + 1 + ll);
    assert(s.subrange(nl + 1, nl + 1 + ll) =~= label);
    let st_l = LexState { pos: nl + 1 + ll, lino: 1, charpos: nl + 1 + ll };
    crate::lexer::lemma_spec_next_newline(s, st_l);
    // No line label (the mnemonic is not followed by a colon), a bare
    // label address with no index, and the closing newline.
    assert(spec_skip_newlines(s, st0) == st0);
    assert(spec_parse_label(s, st0) == (Seq::<char>::empty(), st0));
    assert(spec_parse_operand_bare_tail(s, st_l, AddressModel::Label(label)) == (
        Result::<AddressingModeModel, ErrModel>::Ok(
            AddressingModeModel::Absolute(AddressModel::Label(label)),
        ),
        st_l,
    ));
}

// ---------------------------------------------------------------------------
// Model helpers for executable results
// ---------------------------------------------------------------------------

pub open spec fn opt_line_model(l: Option<Line>) -> Option<LineModel> {
    match l {
        Option::Some(line) => Option::Some(line@),
        Option::None => Option::None,
    }
}

pub open spec fn lines_model(v: Seq<Line>) -> Seq<LineModel> {
    v.map_values(|l: Line| l@)
}

// ---------------------------------------------------------------------------
// The executable parser
// ---------------------------------------------------------------------------

/// Checks that a literal fits in a byte; values 256 and above are refused
/// with "Cannot use word as immediate value".
pub(crate) fn check_overflow(lexer: &Lexer, n: u16) -> (r: Result<u8, ParseError>)
    ensures
        match r {
            Result::Ok(b) => n < 256 && b == n as u8,
            Result::Err(e) => n >= 256 && err_matches(
                e,
                em(lexer.st().lino, "Cannot use word as immediate value"@),
                lexer.filename_view(),
            ),
        },
{
    if n < 256 {
        Ok(n as u8)
    } else {
        ParseError::new(lexer, "Cannot use word as immediate value")
    }
}

/// The immediate operand after a consumed `#`.
fn parse_operand_imm(lexer: &mut Lexer, instr: &mut Instruction) -> (r: Result<(), ParseError>)
    requires
        old(lexer).wf(),
    ensures
        final(lexer).wf(),
        final(lexer).text() == old(lexer).text(),
        final(lexer).filename_view() == old(lexer).filename_view(),
        final(instr)@.opcode == old(instr)@.opcode,
        ({
            let (res, st2) = spec_parse_operand_imm(old(lexer).text(), old(lexer).st());
            &&& final(lexer).st() == st2
            &&& match (r, res) {
                (Result::Ok(()), Result::Ok(m)) => final(instr)@.addr_mode == m,
                (Result::Err(e), Result::Err(me)) => err_matches(
                    e,
                    me,
                    old(lexer).filename_view(),
                ) && final(instr)@ == old(instr)@,
                _ => false,
            }
        }),
{
    let operand = lexer.next();
    match operand {
        Option::None => ParseError::new(lexer, "Missing operand"),
        Option::Some(token) => match token.value {
            TokenValue::Bin(n) | TokenValue::Oct(n) | TokenValue::Dec(n) | TokenValue::Hex(n) =>
                match check_overflow(lexer, n) {
                Result::Ok(b) => {
                    instr.addr_mode = AddressingMode::Immediate(ImmediateValue::Literal(b));
                    Ok(())
                },
                Result::Err(e) => Err(e),
            },
            TokenValue::Symbol(name) => {
                instr.addr_mode = AddressingMode::Immediate(ImmediateValue::Label(name));
                Ok(())
            },
            TokenValue::LT => {
                let p = lexer.peek();
                match p {
                    Option::None => ParseError::new(lexer, "Unexpected EOF"),
                    Option::Some(t3) => match t3.value {
                        TokenValue::Symbol(name) => {
                            let _ = lexer.next();
                            instr.addr_mode = AddressingMode::Immediate(
                                ImmediateValue::LowByte(name),
                            );
                            Ok(())
                        },
                        _ => ParseError::new(lexer, "Expected label"),
                    },
                }
            },
            TokenValue::GT => {
                let p = lexer.peek();
                match p {
                    Option::None => ParseError::new(lexer, "Unexpected EOF"),
                    Option::Some(t3) => match t3.value {
                        TokenValue::Symbol(name) => {
                            let _ = lexer.next();
                            instr.addr_mode = AddressingMode::Immediate(
                                ImmediateValue::HighByte(name),
                            );
                            Ok(())
                        },
                        _ => ParseError::new(lexer, "Expected label"),
                    },
                }
            },
            _ => ParseError::new(lexer, "Expected literal, label, '<', or '>'"),
        },
    }
}

/// The continuation of indirect addressing once the address is read.
fn parse_operand_ind_tail(lexer: &mut Lexer, instr: &mut Instruction, addr: Address) -> (r:
    Result<(), ParseError>)
    requires
        old(lexer).wf(),
    ensures
        final(lexer).wf(),
        final(lexer).text() == old(lexer).text(),
        final(lexer).filename_view() == old(lexer).filename_view(),
        final(instr)@.opcode == old(instr)@.opcode,
        ({
            let (res, st2) = spec_parse_operand_ind_tail(old(lexer).text(), old(lexer).st(), addr@);
            &&& final(lexer).st() == st2
            &&& match (r, res) {
                (Result::Ok(()), Result::Ok(m)) => final(instr)@.addr_mode == m,
                (Result::Err(e), Result::Err(me)) => err_matches(
                    e,
                    me,
                    old(lexer).filename_view(),
                ) && final(instr)@ == old(instr)@,
                _ => false,
            }
        }),
{
    let pc = lexer.peek();
    let comma = match &pc {
        Option::Some(t) => match &t.value {
            TokenValue::Comma => true,
            _ => false,
        },
        Option::None => false,
    };
    let rparen = match &pc {
        Option::Some(t) => match &t.value {
            TokenValue::RParen => true,
            _ => false,
        },
        Option::None => false,
    };
    if comma {
        // Indirect X: `(addr, X)`
        let _ = lexer.next();
        let px = lexer.peek();
        match px {
            Option::None => ParseError::new(lexer, "Unexpected EOF"),
            Option::Some(t4) => match t4.value {
                TokenValue::Symbol(x) => {
                    let _ = lexer.next();
                    if !(str_eq(x.as_str(), "x") || str_eq(x.as_str(), "X")) {
                        return ParseError::new(lexer, "Expected X register");
                    }
                    let pr = lexer.peek();
                    match pr {
                        Option::None => ParseError::new(lexer, "Unexpected EOF"),
                        Option::Some(t5) => match &t5.value {
                            TokenValue::RParen => {
                                let _ = lexer.next();
                                instr.addr_mode = AddressingMode::IndirectX(addr);
                                Ok(())
                            },
                            _ => ParseError::new(lexer, "Expected right parenthesis"),
                        },
                    }
                },
                _ => ParseError::new(lexer, "Expected X register"),
            },
        }
    } else if rparen {
        // Indirect Y (`(addr), Y`) or plain indirect (`(addr)`)
        let _ = lexer.next();
        let pc2 = lexer.peek();
        let comma2 = match &pc2 {
            Option::Some(t) => match &t.value {
                TokenValue::Comma => true,
                _ => false,
            },
            Option::None => false,
        };
        if comma2 {
            let _ = lexer.next();
            let py = lexer.peek();
            match py {
                Option::None => ParseError::new(lexer, "Unexpected EOF"),
                Option::Some(t5) => match t5.value {
                    TokenValue::Symbol(y) => {
                        let _ = lexer.next();
                        if !(str_eq(y.as_str(), "y") || str_eq(y.as_str(), "Y")) {
                            return ParseError::new(lexer, "Expected Y register");
                        }
                        instr.addr_mode = AddressingMode::IndirectY(addr);
                        Ok(())
                    },
                    _ => ParseError::new(lexer, "Expected Y register"),
                },
            }
        } else {
            instr.addr_mode = AddressingMode::Indirect(addr);
            Ok(())
        }
    } else {
        ParseError::new(lexer, "Expected right parenthesis or comma")
    }
}

/// The optional `,X` / `,Y` index after a bare address.
fn parse_operand_bare_tail(lexer: &mut Lexer, instr: &mut Instruction, addr: Address) -> (r:
    Result<(), ParseError>)
    requires
        old(lexer).wf(),
    ensures
        final(lexer).wf(),
        final(lexer).text() == old(lexer).text(),
        final(lexer).filename_view() == old(lexer).filename_view(),
        final(instr)@.opcode == old(instr)@.opcode,
        ({
            let (res, st2) = spec_parse_operand_bare_tail(
                old(lexer).text(),
                old(lexer).st(),
                addr@,
            );
            &&& final(lexer).st() == st2
            &&& match (r, res) {
                (Result::Ok(()), Result::Ok(m)) => final(instr)@.addr_mode == m,
                (Result::Err(e), Result::Err(me)) => err_matches(
                    e,
                    me,
                    old(lexer).filename_view(),
                ) && final(instr)@ == old(instr)@,
                _ => false,
            }
        }),
{
    let zp = match &addr {
        Address::Literal(n) => *n <= 255,
        Address::Label(_) => false,
    };
    let pc = lexer.peek();
    let comma = match &pc {
        Option::Some(t) => match &t.value {
            TokenValue::Comma => true,
            _ => false,
        },
        Option::None => false,
    };
    if comma {
        let _ = lexer.next();
        let pr = lexer.peek();
        match pr {
            Option::None => ParseError::new(lexer, "Unexpected EOF"),
            Option::Some(t3) => match t3.value {
                TokenValue::Symbol(reg) => {
                    let _ = lexer.next();
                    if str_eq(reg.as_str(), "x") || str_eq(reg.as_str(), "X") {
                        instr.addr_mode = if zp {
                            AddressingMode::ZeroPageX(addr)
                        } else {
                            AddressingMode::AbsoluteX(addr)
                        };
                        Ok(())
                    } else if str_eq(reg.as_str(), "y") || str_eq(reg.as_str(), "Y") {
                        instr.addr_mode = if zp {
                            AddressingMode::ZeroPageY(addr)
                        } else {
                            AddressingMode::AbsoluteY(addr)
                        };
                        Ok(())
                    } else {
                        ParseError::new(lexer, "Expected X or Y register")
                    }
                },
                _ => ParseError::new(lexer, "Expected X or Y register"),
            },
        }
    } else {
        instr.addr_mode = if zp {
            AddressingMode::ZeroPage(addr)
        } else {
            AddressingMode::Absolute(addr)
        };
        Ok(())
    }
}

/// Parses the operand after a mnemonic and stores the addressing mode it
/// chooses into `instr`, as `spec_parse_operand` describes.
#[verifier::rlimit(50)]
fn parse_operand(lexer: &mut Lexer, instr: &mut Instruction) -> (r: Result<(), ParseError>)
    requires
        old(lexer).wf(),
    ensures
        final(lexer).wf(),
        final(lexer).text() == old(lexer).text(),
        final(lexer).filename_view() == old(lexer).filename_view(),
        final(instr)@.opcode == old(instr)@.opcode,
        ({
            let (res, st2) = spec_parse_operand(
                old(lexer).text(),
                old(lexer).st(),
                old(instr)@.addr_mode,
            );
            &&& final(lexer).st() == st2
            &&& match (r, res) {
                (Result::Ok(()), Result::Ok(m)) => final(instr)@.addr_mode == m,
                (Result::Err(e), Result::Err(me)) => err_matches(
                    e,
                    me,
                    old(lexer).filename_view(),
                ) && final(instr)@ == old(instr)@,
                _ => false,
            }
        }),
{
    let p1 = lexer.peek();
    let hash = match &p1 {
        Option::Some(t) => match &t.value {
            TokenValue::Hash => true,
            _ => false,
        },
        Option::None => false,
    };
    let lparen = match &p1 {
        Option::Some(t) => match &t.value {
            TokenValue::LParen => true,
            _ => false,
        },
        Option::None => false,
    };
    if hash {
        let _ = lexer.next();
        parse_operand_imm(lexer, instr)
    } else if lparen {
        let _ = lexer.next();
        let at = lexer.next();
        match at {
            Option::None => ParseError::new(lexer, "Missing address"),
            Option::Some(token) => match token.value {
                TokenValue::Bin(n) | TokenValue::Oct(n) | TokenValue::Dec(n) | TokenValue::Hex(
                    n,
                ) => parse_operand_ind_tail(lexer, instr, Address::Literal(n)),
                TokenValue::Symbol(name) => parse_operand_ind_tail(
                    lexer,
                    instr,
                    Address::Label(name),
                ),
                _ => ParseError::new(lexer, "Expected address"),
            },
        }
    } else {
        match p1 {
            Option::None => Ok(()),
            Option::Some(token) => match token.value {
                TokenValue::Bin(n) | TokenValue::Oct(n) | TokenValue::Dec(n) | TokenValue::Hex(
                    n,
                ) => {
                    let _ = lexer.next();
                    parse_operand_bare_tail(lexer, instr, Address::Literal(n))
                },
                TokenValue::Symbol(name) => {
                    let _ = lexer.next();
                    parse_operand_bare_tail(lexer, instr, Address::Label(name))
                },
                _ => Ok(()),
            },
        }
    }
}


/// The `.byte` pragma's argument.
fn parse_pragma_byte(lexer: &mut Lexer) -> (r: Result<Pragma, ParseError>)
    requires
        old(lexer).wf(),
    ensures
        final(lexer).wf(),
        final(lexer).text() == old(lexer).text(),
        final(lexer).filename_view() == old(lexer).filename_view(),
        ({
            let (res, st2) = spec_pragma_byte(old(lexer).text(), old(lexer).st());
            &&& final(lexer).st() == st2
            &&& match (r, res) {
                (Result::Ok(p), Result::Ok(mp)) => p@ == mp,
                (Result::Err(e), Result::Err(me)) => err_matches(
                    e,
                    me,
                    old(lexer).filename_view(),
                ),
                _ => false,
            }
        }),
{
    let t = lexer.next();
    match t {
        Option::None => ParseError::new(lexer, "Expected byte after .byte"),
        Option::Some(token) => match token.value {
            TokenValue::Bin(n) | TokenValue::Oct(n) | TokenValue::Dec(n) | TokenValue::Hex(n) =>
                match check_overflow(lexer, n) {
                Result::Ok(b) => Ok(Pragma::Byte(b)),
                Result::Err(e) => Err(e),
            },
            _ => ParseError::new(lexer, "Expected byte after .byte"),
        },
    }
}

/// The items of a `.bytes` pragma, gathered until the next newline.
fn parse_pragma_bytes(lexer: &mut Lexer) -> (r: Result<Pragma, ParseError>)
    requires
        old(lexer).wf(),
    ensures
        final(lexer).wf(),
        final(lexer).text() == old(lexer).text(),
        final(lexer).filename_view() == old(lexer).filename_view(),
        ({
            let (res, st2) = spec_parse_bytes(old(lexer).text(), old(lexer).st(), Seq::empty());
            &&& final(lexer).st() == st2
            &&& match (r, res) {
                (Result::Ok(p), Result::Ok(mb)) => p@ == PragmaModel::Bytes(mb),
                (Result::Err(e), Result::Err(me)) => err_matches(
                    e,
                    me,
                    old(lexer).filename_view(),
                ),
                _ => false,
            }
        }),
{
    let ghost s = old(lexer).text();
    let ghost st0 = old(lexer).st();
    let mut bytes: Vec<u8> = Vec::new();
    loop
        invariant
            s == old(lexer).text(),
            st0 == old(lexer).st(),
            lexer.wf(),
            lexer.text() == s,
            lexer.filename_view() == old(lexer).filename_view(),
            spec_parse_bytes(s, st0, Seq::empty()) == spec_parse_bytes(s, lexer.st(), bytes@),
        decreases s.len() - lexer.st().pos,
    {
        let ghost st_a = lexer.st();
        let p = lexer.peek();
        match p {
            Option::None => {
                return Ok(Pragma::Bytes(bytes));
            },
            Option::Some(token) => {
                match &token.value {
                    TokenValue::Newline => {
                        return Ok(Pragma::Bytes(bytes));
                    },
                    _ => {},
                }
                let _ = lexer.next();
                proof {
                    lemma_spec_next(s, st_a);
                }
                match token.value {
                    TokenValue::Bin(n) | TokenValue::Oct(n) | TokenValue::Dec(n)
                        | TokenValue::Hex(n) => {
                        match check_overflow(lexer, n) {
                            Result::Ok(b) => {
                                bytes.push(b);
                            },
                            Result::Err(e) => {
                                return Err(e);
                            },
                        }
                    },
                    TokenValue::String(txt) => {
                        let ghost bytes0 = bytes@;
                        let bs = txt.as_str().as_bytes();
                        let mut k: usize = 0;
                        while k < bs.len()
                            invariant
                                k <= bs@.len(),
                                bs@ == vstd::utf8::encode_utf8(txt@),
                                bytes@ == bytes0 + bs@.subrange(0, k as int),
                            decreases bs@.len() - k,
                        {
                            proof {
                                assert(bs@.subrange(0, k + 1) =~= bs@.subrange(0, k as int).push(
                                    bs@[k as int],
                                ));
                            }
                            bytes.push(*vstd::slice::slice_index_get(bs, k));
                            k = k + 1;
                        }
                        proof {
                            assert(bytes@ =~= bytes0 + vstd::utf8::encode_utf8(txt@));
                        }
                    },
                    _ => {
                        return ParseError::new(lexer, "Invalid byte");
                    },
                }
                // Skip one comma between items, if present.
                let ghost st_b = lexer.st();
                let pc = lexer.peek();
                let comma = match &pc {
                    Option::Some(t) => match &t.value {
                        TokenValue::Comma => true,
                        _ => false,
                    },
                    Option::None => false,
                };
                if comma {
                    let _ = lexer.next();
                    proof {
                        lemma_spec_next(s, st_b);
                    }
                }
            },
        }
    }
}

/// The `.word` pragma's argument.
fn parse_pragma_word(lexer: &mut Lexer) -> (r: Result<Pragma, ParseError>)
    requires
        old(lexer).wf(),
    ensures
        final(lexer).wf(),
        final(lexer).text() == old(lexer).text(),
        final(lexer).filename_view() == old(lexer).filename_view(),
        ({
            let (res, st2) = spec_pragma_word(old(lexer).text(), old(lexer).st());
            &&& final(lexer).st() == st2
            &&& match (r, res) {
                (Result::Ok(p), Result::Ok(mp)) => p@ == mp,
                (Result::Err(e), Result::Err(me)) => err_matches(
                    e,
                    me,
                    old(lexer).filename_view(),
                ),
                _ => false,
            }
        }),
{
    let t = lexer.next();
    match t {
        Option::None => ParseError::new(lexer, "Expected address or label after .word"),
        Option::Some(token) => match token.value {
            TokenValue::Bin(n) | TokenValue::Oct(n) | TokenValue::Dec(n) | TokenValue::Hex(n) =>
                Ok(Pragma::Word(Address::Literal(n))),
            TokenValue::Symbol(name) => Ok(Pragma::Word(Address::Label(name))),
            _ => ParseError::new(lexer, "Expected address or label after .word"),
        },
    }
}

/// The `.origin` pragma's argument.
fn parse_pragma_origin(lexer: &mut Lexer) -> (r: Result<Pragma, ParseError>)
    requires
        old(lexer).wf(),
    ensures
        final(lexer).wf(),
        final(lexer).text() == old(lexer).text(),
        final(lexer).filename_view() == old(lexer).filename_view(),
        ({
            let (res, st2) = spec_pragma_origin(old(lexer).text(), old(lexer).st());
            &&& final(lexer).st() == st2
            &&& match (r, res) {
                (Result::Ok(p), Result::Ok(mp)) => p@ == mp,
                (Result::Err(e), Result::Err(me)) => err_matches(
                    e,
                    me,
                    old(lexer).filename_view(),
                ),
                _ => false,
            }
        }),
{
    let t = lexer.next();
    match t {
        Option::None => ParseError::new(lexer, "Expected address or label after .origin"),
        Option::Some(token) => match token.value {
            TokenValue::Bin(n) | TokenValue::Oct(n) | TokenValue::Dec(n) | TokenValue::Hex(n) =>
                Ok(Pragma::Origin(Address::Literal(n))),
            TokenValue::Symbol(name) => Ok(Pragma::Origin(Address::Label(name))),
            _ => ParseError::new(lexer, "Expected address or label after .origin"),
        },
    }
}

/// The `.define` pragma's arguments: a fresh label and its value.
fn parse_pragma_define(lexer: &mut Lexer) -> (r: Result<Pragma, ParseError>)
    requires
        old(lexer).wf(),
    ensures
        final(lexer).wf(),
        final(lexer).text() == old(lexer).text(),
        final(lexer).filename_view() == old(lexer).filename_view(),
        ({
            let (res, st2) = spec_pragma_define(old(lexer).text(), old(lexer).st());
            &&& final(lexer).st() == st2
            &&& match (r, res) {
                (Result::Ok(p), Result::Ok(mp)) => p@ == mp,
                (Result::Err(e), Result::Err(me)) => err_matches(
                    e,
                    me,
                    old(lexer).filename_view(),
                ),
                _ => false,
            }
        }),
{
    let p = lexer.peek();
    let label = match p {
        Option::None => {
            return ParseError::new(lexer, "Unexpected EOF");
        },
        Option::Some(t) => match t.value {
            TokenValue::Symbol(name) => {
                let _ = lexer.next();
                name
            },
            _ => {
                return ParseError::new(lexer, "Expected label after .define");
            },
        },
    };
    let t = lexer.next();
    match t {
        Option::None => ParseError::new(lexer, "Expected address or label after .define [label]"),
        Option::Some(token) => match token.value {
            TokenValue::Bin(n) | TokenValue::Oct(n) | TokenValue::Dec(n) | TokenValue::Hex(n) =>
                Ok(Pragma::Define(label, Address::Literal(n))),
            TokenValue::Symbol(name) => Ok(Pragma::Define(label, Address::Label(name))),
            _ => ParseError::new(lexer, "Expected address or label after .define [label]"),
        },
    }
}

/// The `.include` pragma's argument: a string path.
fn parse_pragma_include(lexer: &mut Lexer) -> (r: Result<Pragma, ParseError>)
    requires
        old(lexer).wf(),
    ensures
        final(lexer).wf(),
        final(lexer).text() == old(lexer).text(),
        final(lexer).filename_view() == old(lexer).filename_view(),
        ({
            let (res, st2) = spec_pragma_include(old(lexer).text(), old(lexer).st());
            &&& final(lexer).st() == st2
            &&& match (r, res) {
                (Result::Ok(p), Result::Ok(mp)) => p@ == mp,
                (Result::Err(e), Result::Err(me)) => err_matches(
                    e,
                    me,
                    old(lexer).filename_view(),
                ),
                _ => false,
            }
        }),
{
    let p = lexer.peek();
    match p {
        Option::None => ParseError::new(lexer, "Expected string with include path"),
        Option::Some(t) => match t.value {
            TokenValue::String(path) => {
                let _ = lexer.next();
                Ok(Pragma::Include(path))
            },
            _ => ParseError::new(lexer, "Expected string with include path"),
        },
    }
}

/// Parses the pragma after a consumed `.`, as `spec_parse_pragma` describes.
fn parse_pragma(lexer: &mut Lexer) -> (r: Result<Pragma, ParseError>)
    requires
        old(lexer).wf(),
    ensures
        final(lexer).wf(),
        final(lexer).text() == old(lexer).text(),
        final(lexer).filename_view() == old(lexer).filename_view(),
        ({
            let (res, st2) = spec_parse_pragma(old(lexer).text(), old(lexer).st());
            &&& final(lexer).st() == st2
            &&& match (r, res) {
                (Result::Ok(p), Result::Ok(mp)) => p@ == mp,
                (Result::Err(e), Result::Err(me)) => err_matches(
                    e,
                    me,
                    old(lexer).filename_view(),
                ),
                _ => false,
            }
        }),
{
    let p = lexer.peek();
    let name = match p {
        Option::None => {
            return ParseError::new(lexer, "Unexpected EOF");
        },
        Option::Some(t) => match t.value {
            TokenValue::Symbol(name) => {
                let _ = lexer.next();
                name
            },
            _ => {
                return ParseError::new(lexer, "Expected pragma after dot");
            },
        },
    };
    if str_eq(name.as_str(), "byte") {
        parse_pragma_byte(lexer)
    } else if str_eq(name.as_str(), "bytes") {
        parse_pragma_bytes(lexer)
    } else if str_eq(name.as_str(), "word") {
        parse_pragma_word(lexer)
    } else if str_eq(name.as_str(), "origin") {
        parse_pragma_origin(lexer)
    } else if str_eq(name.as_str(), "define") {
        parse_pragma_define(lexer)
    } else if str_eq(name.as_str(), "include") {
        parse_pragma_include(lexer)
    } else {
        ParseError::new(lexer, "Invalid pragma")
    }
}

/// Parses the body of a line: an instruction, a pragma, or nothing.
fn parse_post_label(lexer: &mut Lexer) -> (r: Result<LineValue, ParseError>)
    requires
        old(lexer).wf(),
    ensures
        final(lexer).wf(),
        final(lexer).text() == old(lexer).text(),
        final(lexer).filename_view() == old(lexer).filename_view(),
        ({
            let (res, st2) = spec_parse_post_label(old(lexer).text(), old(lexer).st());
            &&& final(lexer).st() == st2
            &&& match (r, res) {
                (Result::Ok(v), Result::Ok(mv)) => v@ == mv,
                (Result::Err(e), Result::Err(me)) => err_matches(
                    e,
                    me,
                    old(lexer).filename_view(),
                ),
                _ => false,
            }
        }),
{
    let p = lexer.peek();
    match p {
        Option::Some(token) => match token.value {
            TokenValue::Symbol(name) => {
                let _ = lexer.next();
                let mut instr = Instruction { opcode: name, addr_mode: AddressingMode::Implicit };
                match parse_operand(lexer, &mut instr) {
                    Result::Ok(_) => Ok(LineValue::Instruction(instr)),
                    Result::Err(e) => Err(e),
                }
            },
            TokenValue::Dot => {
                let _ = lexer.next();
                match parse_pragma(lexer) {
                    Result::Ok(pr) => Ok(LineValue::Pragma(pr)),
                    Result::Err(e) => Err(e),
                }
            },
            _ => Ok(LineValue::Empty),
        },
        Option::None => Ok(LineValue::Empty),
    }
}

/// Consumes a `label:` prefix if one stands at the scanner, handing back
/// the label (or the empty string), as `spec_parse_label` describes.
fn parse_label(lexer: &mut Lexer) -> (label: String)
    requires
        old(lexer).wf(),
    ensures
        final(lexer).wf(),
        final(lexer).text() == old(lexer).text(),
        final(lexer).filename_view() == old(lexer).filename_view(),
        ({
            let lbl = spec_parse_label(old(lexer).text(), old(lexer).st());
            label@ == lbl.0 && final(lexer).st() == lbl.1
        }),
{
    let state = lexer.save();
    let p = lexer.peek();
    match p {
        Option::Some(token) => match token.value {
            TokenValue::Symbol(name) => {
                let _ = lexer.next();
                let pc = lexer.peek();
                let colon = match &pc {
                    Option::Some(t) => match &t.value {
                        TokenValue::Colon => true,
                        _ => false,
                    },
                    Option::None => false,
                };
                if colon {
                    let _ = lexer.next();
                    name
                } else {
                    lexer.recall(state);
                    String::new()
                }
            },
            _ => String::new(),
        },
        Option::None => String::new(),
    }
}

/// Consumes the newline that ends a line (accepting the end of the input)
/// and builds the `Line`, as `spec_finish_line` describes.
fn finish_line(lexer: &mut Lexer, lino: u32, label: String, value: LineValue) -> (r: Result<
    Option<Line>,
    ParseError,
>)
    requires
        old(lexer).wf(),
    ensures
        final(lexer).wf(),
        final(lexer).text() == old(lexer).text(),
        final(lexer).filename_view() == old(lexer).filename_view(),
        ({
            let (res, st2) = spec_finish_line(
                old(lexer).text(),
                old(lexer).st(),
                lino as int,
                label@,
                value@,
            );
            &&& final(lexer).st() == st2
            &&& match (r, res) {
                (Result::Ok(l), Result::Ok(ml)) => opt_line_model(l) == ml,
                (Result::Err(e), Result::Err(me)) => err_matches(
                    e,
                    me,
                    old(lexer).filename_view(),
                ),
                _ => false,
            }
        }),
{
    let p5 = lexer.peek();
    match p5 {
        Option::None => {},
        Option::Some(t5) => match &t5.value {
            TokenValue::Newline => {
                let _ = lexer.next();
            },
            _ => {
                return ParseError::new(lexer, "Expected end of line");
            },
        },
    }
    Ok(Option::Some(Line { lino, label, value }))
}

/// Parses the next line of 6502 assembly, as `spec_parse_line` describes;
/// `Ok(None)` at the end of the input.
pub fn parse_line(lexer: &mut Lexer) -> (r: Result<Option<Line>, ParseError>)
    requires
        old(lexer).wf(),
    ensures
        final(lexer).wf(),
        final(lexer).text() == old(lexer).text(),
        final(lexer).filename_view() == old(lexer).filename_view(),
        ({
            let (res, st2) = spec_parse_line(old(lexer).text(), old(lexer).st());
            &&& final(lexer).st() == st2
            &&& match (r, res) {
                (Result::Ok(l), Result::Ok(ml)) => opt_line_model(l) == ml,
                (Result::Err(e), Result::Err(me)) => err_matches(
                    e,
                    me,
                    old(lexer).filename_view(),
                ),
                _ => false,
            }
        }),
{
    let ghost s = old(lexer).text();
    let ghost st0 = old(lexer).st();
    // Skip leading newlines.
    loop
        invariant
            s == old(lexer).text(),
            st0 == old(lexer).st(),
            lexer.wf(),
            lexer.text() == s,
            lexer.filename_view() == old(lexer).filename_view(),
            spec_skip_newlines(s, st0) == spec_skip_newlines(s, lexer.st()),
        ensures
            lexer.wf(),
            lexer.text() == s,
            lexer.filename_view() == old(lexer).filename_view(),
            lexer.st() == spec_skip_newlines(s, st0),
        decreases s.len() - lexer.st().pos,
    {
        let ghost st_a = lexer.st();
        let p = lexer.peek();
        match p {
            Option::Some(t) => match &t.value {
                TokenValue::Newline => {
                    let _ = lexer.next();
                    proof {
                        lemma_spec_next(s, st_a);
                    }
                },
                _ => {
                    break;
                },
            },
            Option::None => {
                break;
            },
        }
    }
    let lino = lexer.get_lino();
    let p = lexer.peek();
    let at_end = match &p {
        Option::None => true,
        Option::Some(_) => false,
    };
    if at_end {
        return Ok(Option::None);
    }
    let label = parse_label(lexer);
    let value = match parse_post_label(lexer) {
        Result::Ok(v) => v,
        Result::Err(e) => {
            return Err(e);
        },
    };
    finish_line(lexer, lino, label, value)
}

/// Parses a whole 6502 assembly file into its lines, as `spec_parse`
/// describes.
pub fn parse(lexer: &mut Lexer) -> (r: Result<Vec<Line>, ParseError>)
    requires
        old(lexer).wf(),
    ensures
        final(lexer).wf(),
        final(lexer).text() == old(lexer).text(),
        final(lexer).filename_view() == old(lexer).filename_view(),
        ({
            let (res, st2) = spec_parse(old(lexer).text(), old(lexer).st(), Seq::empty());
            &&& final(lexer).st() == st2
            &&& match (r, res) {
                (Result::Ok(lines), Result::Ok(ml)) => lines_model(lines@) == ml,
                (Result::Err(e), Result::Err(me)) => err_matches(
                    e,
                    me,
                    old(lexer).filename_view(),
                ),
                _ => false,
            }
        }),
{
    let ghost s = old(lexer).text();
    let ghost st0 = old(lexer).st();
    let mut lines: Vec<Line> = Vec::new();
    proof {
        assert(lines_model(Seq::<Line>::empty()) =~= Seq::<LineModel>::empty());
    }
    loop
        invariant
            s == old(lexer).text(),
            st0 == old(lexer).st(),
            lexer.wf(),
            lexer.text() == s,
            lexer.filename_view() == old(lexer).filename_view(),
            spec_parse(s, st0, Seq::empty()) == spec_parse(s, lexer.st(), lines_model(lines@)),
        decreases s.len() - lexer.st().pos,
    {
        let ghost st_a = lexer.st();
        proof {
            lemma_spec_parse_line_st(s, st_a);
        }
        match parse_line(lexer) {
            Result::Ok(Option::Some(line)) => {
                proof {
                    assert(lines_model(lines@.push(line)) =~= lines_model(lines@).push(line@));
                }
                lines.push(line);
            },
            Result::Ok(Option::None) => {
                return Ok(lines);
            },
            Result::Err(e) => {
                return Err(e);
            },
        }
    }
}

} // verus!
