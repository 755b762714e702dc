//! The first pass: lays out the parsed lines, chooses each instruction's
//! opcode byte from its mnemonic and addressing mode, and builds the symbol
//! table binding label names to 16-bit addresses.
//!
//! The executable pass is specified against a functional model:
//! `spec_first_pass` folds `spec_parse_line` and `spec_fp_step` over the
//! source text and says exactly which annotated lines and symbol bindings
//! come out, or which error stops the pass.

use vstd::prelude::*;

use crate::lexer::Lexer;
use crate::lexer::LexState;
use crate::lexer::wf_state;
use crate::lexer::wf_text;
use crate::text::eq_ignore_ascii_case;
use crate::text::str_eq;
use crate::text::str_eq_ignore_ascii_case;
use crate::parser::AddressModel;
use crate::parser::AddressingModeModel;
use crate::parser::ImmediateValueModel;
use crate::parser::Address;
use crate::parser::AddressingMode;
use crate::parser::ImmediateValue;
use crate::parser::Instruction;
use crate::parser::Line;
use crate::parser::LineModel;
use crate::parser::LineValue;
use crate::parser::LineValueModel;
use crate::parser::ParseError;
use crate::parser::Pragma;
use crate::parser::PragmaModel;
use crate::parser::check_overflow;
use crate::parser::em;
use crate::parser::err_matches;
use crate::parser::ErrModel;
use crate::parser::parse_line;
use crate::parser::spec_parse_line;
use crate::parser::lemma_spec_parse_line_st;

verus! {

// ---------------------------------------------------------------------------
// Annotated lines
// ---------------------------------------------------------------------------

/// The operand of an encoded instruction, as far as pass 1 can resolve it;
/// label references wait for pass 2.
#[derive(Debug)]
pub enum InstructionArg {
    NoArgs,
    ByteArg(u8),
    ByteLabelArg(String),
    RelativeLabelArg(String),
    ByteLabelLowArg(String),
    ByteLabelHighArg(String),
    WordArg(u16),
    WordLabelArg(String),
}

pub ghost enum InstructionArgModel {
    NoArgs,
    ByteArg(u8),
    ByteLabelArg(Seq<char>),
    RelativeLabelArg(Seq<char>),
    ByteLabelLowArg(Seq<char>),
    ByteLabelHighArg(Seq<char>),
    WordArg(u16),
    WordLabelArg(Seq<char>),
}

impl View for InstructionArg {
    type V = InstructionArgModel;

    open spec fn view(&self) -> InstructionArgModel {
        match self {
            InstructionArg::NoArgs => InstructionArgModel::NoArgs,
            InstructionArg::ByteArg(n) => InstructionArgModel::ByteArg(*n),
            InstructionArg::ByteLabelArg(s) => InstructionArgModel::ByteLabelArg(s@),
            InstructionArg::RelativeLabelArg(s) => InstructionArgModel::RelativeLabelArg(s@),
            InstructionArg::ByteLabelLowArg(s) => InstructionArgModel::ByteLabelLowArg(s@),
            InstructionArg::ByteLabelHighArg(s) => InstructionArgModel::ByteLabelHighArg(s@),
            InstructionArg::WordArg(n) => InstructionArgModel::WordArg(*n),
            InstructionArg::WordLabelArg(s) => InstructionArgModel::WordLabelArg(s@),
        }
    }
}

/// One unit of output of pass 1: a byte to place at `addr` (an opcode or a
/// data byte) together with its not yet encoded operand.
#[derive(Debug)]
pub struct AnnotatedLine {
    /// The address the byte is loaded at.
    pub addr: u16,
    /// The byte itself.
    pub opcode: u8,
    /// The operand, occupying the following one or two addresses.
    pub arg: InstructionArg,
    /// The source line, for diagnostics.
    pub lino: u32,
}

pub ghost struct AnnotatedLineModel {
    pub addr: u16,
    pub opcode: u8,
    pub arg: InstructionArgModel,
    pub lino: int,
}

impl View for AnnotatedLine {
    type V = AnnotatedLineModel;

    open spec fn view(&self) -> AnnotatedLineModel {
        AnnotatedLineModel {
            addr: self.addr,
            opcode: self.opcode,
            arg: self.arg@,
            lino: self.lino as int,
        }
    }
}

pub open spec fn alines_model(v: Seq<AnnotatedLine>) -> Seq<AnnotatedLineModel> {
    v.map_values(|l: AnnotatedLine| l@)
}

/// How many operand bytes follow the byte at `addr`.
pub open spec fn width_of(arg: InstructionArgModel) -> int {
    match arg {
        InstructionArgModel::NoArgs => 0,
        InstructionArgModel::ByteArg(_) => 1,
        InstructionArgModel::ByteLabelArg(_) => 1,
        InstructionArgModel::RelativeLabelArg(_) => 1,
        InstructionArgModel::ByteLabelLowArg(_) => 1,
        InstructionArgModel::ByteLabelHighArg(_) => 1,
        InstructionArgModel::WordArg(_) => 2,
        InstructionArgModel::WordLabelArg(_) => 2,
    }
}

/// The line and its operand lie inside the 16-bit address space: no wrap
/// within an instruction.
pub open spec fn line_fits(l: AnnotatedLineModel) -> bool {
    l.addr + width_of(l.arg) <= 0xFFFF
}

/// The 16-bit address counter wraps around the end of the address space.
pub open spec fn wrap16(n: int) -> int {
    n % 0x10000
}

// ---------------------------------------------------------------------------
// The symbol table
// ---------------------------------------------------------------------------

/// The symbol table: label names bound to 16-bit addresses, each name bound
/// at most once.  Its mathematical value is the map from names to addresses.
#[derive(Debug)]
pub struct SymbolTable {
    entries: Vec<(String, u16)>,
}

/// The map a list of bindings denotes; a later binding would win, but a well
/// formed table never binds a name twice.
pub open spec fn map_of(entries: Seq<(String, u16)>) -> Map<Seq<char>, u16>
    decreases entries.len(),
{
    if entries.len() == 0 {
        Map::empty()
    } else {
        map_of(entries.drop_last()).insert(entries.last().0@, entries.last().1)
    }
}

impl View for SymbolTable {
    type V = Map<Seq<char>, u16>;

    closed spec fn view(&self) -> Map<Seq<char>, u16> {
        map_of(self.entries@)
    }
}

proof fn lemma_map_of_contains(entries: Seq<(String, u16)>, k: Seq<char>)
    ensures
        map_of(entries).contains_key(k) <==> exists|i: int|
            0 <= i < entries.len() && #[trigger] entries[i].0@ == k,
    decreases entries.len(),
{
    if entries.len() > 0 {
        lemma_map_of_contains(entries.drop_last(), k);
        if entries.last().0@ == k {
            assert(entries[entries.len() - 1].0@ == k);
        } else if map_of(entries).contains_key(k) {
            let i = choose|i: int| 0 <= i < entries.drop_last().len() && #[trigger] entries.drop_last()[i].0@
                == k;
            assert(entries[i].0@ == k);
        } else {
            assert forall|i: int| 0 <= i < entries.len() implies #[trigger] entries[i].0@ != k by {
                if i < entries.len() - 1 {
                    assert(entries.drop_last()[i].0@ == entries[i].0@);
                }
            }
        }
    }
}

proof fn lemma_map_of_get(entries: Seq<(String, u16)>, i: int)
    requires
        0 <= i < entries.len(),
        forall|j: int| i < j < entries.len() ==> #[trigger] entries[j].0@ != entries[i].0@,
    ensures
        map_of(entries).contains_key(entries[i].0@),
        map_of(entries)[entries[i].0@] == entries[i].1,
    decreases entries.len(),
{
    if i == entries.len() - 1 {
    } else {
        assert forall|j: int| i < j < entries.drop_last().len() implies #[trigger] entries.drop_last()[j].0@
            != entries.drop_last()[i].0@ by {
            assert(entries.drop_last()[j].0@ == entries[j].0@);
        }
        assert(entries.drop_last()[i] == entries[i]);
        lemma_map_of_get(entries.drop_last(), i);
        assert(entries.last().0@ != entries[i].0@);
    }
}

impl SymbolTable {
    /// No name is bound twice.
    pub closed spec fn wf(&self) -> bool {
        forall|i: int, j: int|
            0 <= i < j < self.entries@.len() ==> #[trigger] self.entries@[i].0@
                != #[trigger] self.entries@[j].0@
    }

    /// The bound names, in binding order.
    pub closed spec fn names(&self) -> Seq<Seq<char>> {
        self.entries@.map_values(|e: (String, u16)| e.0@)
    }

    /// An empty symbol table.
    pub fn new() -> (t: SymbolTable)
        ensures
            t.wf(),
            t@ == Map::<Seq<char>, u16>::empty(),
            t.names() == Seq::<Seq<char>>::empty(),
    {
        let t = SymbolTable { entries: Vec::new() };
        proof {
            assert(t.names() =~= Seq::<Seq<char>>::empty());
        }
        t
    }

    /// Whether `name` is bound.
    pub fn contains(&self, name: &str) -> (r: bool)
        requires
            self.wf(),
        ensures
            r == self@.contains_key(name@),
    {
        let mut i: usize = 0;
        let n = self.entries.len();
        loop
            invariant
                i <= n,
                n == self.entries@.len(),
                forall|j: int| 0 <= j < i ==> #[trigger] self.entries@[j].0@ != name@,
            ensures
                i <= n,
                (i < n && self.entries@[i as int].0@ == name@) || (i == n && forall|j: int|
                    0 <= j < n ==> #[trigger] self.entries@[j].0@ != name@),
            decreases n - i,
        {
            if i >= n {
                break;
            }
            if str_eq(self.entries[i].0.as_str(), name) {
                break;
            }
            i = i + 1;
        }
        proof {
            lemma_map_of_contains(self.entries@, name@);
        }
        i < n
    }

    /// The address bound to `name`, if any.
    pub fn get(&self, name: &str) -> (r: Option<u16>)
        requires
            self.wf(),
        ensures
            r == (if self@.contains_key(name@) {
                Option::Some(self@[name@])
            } else {
                Option::<u16>::None
            }),
    {
        let mut i: usize = 0;
        let n = self.entries.len();
        loop
            invariant
                i <= n,
                n == self.entries@.len(),
                self.wf(),
                forall|j: int| 0 <= j < i ==> #[trigger] self.entries@[j].0@ != name@,
            ensures
                i <= n,
                (i < n && self.entries@[i as int].0@ == name@) || (i == n && forall|j: int|
                    0 <= j < n ==> #[trigger] self.entries@[j].0@ != name@),
            decreases n - i,
        {
            if i >= n {
                break;
            }
            if str_eq(self.entries[i].0.as_str(), name) {
                break;
            }
            i = i + 1;
        }
        proof {
            lemma_map_of_contains(self.entries@, name@);
            if i < n {
                lemma_map_of_get(self.entries@, i as int);
            }
        }
        if i < n {
            Option::Some(self.entries[i].1)
        } else {
            Option::None
        }
    }

    /// The number of bound names.
    pub fn len(&self) -> (n: usize)
        ensures
            n == self.names().len(),
    {
        self.entries.len()
    }
}

/// Binds `key` to `value`; refused when `key` is already bound.
pub fn add_symbol(symbol_table: &mut SymbolTable, key: String, value: u16) -> (ok: bool)
    requires
        old(symbol_table).wf(),
    ensures
        final(symbol_table).wf(),
        ok == !old(symbol_table)@.contains_key(key@),
        ok ==> final(symbol_table)@ == old(symbol_table)@.insert(key@, value),
        !ok ==> *final(symbol_table) == *old(symbol_table),
{
    if symbol_table.contains(key.as_str()) {
        false
    } else {
        proof {
            lemma_map_of_contains(symbol_table.entries@, key@);
            assert(symbol_table.entries@.push((key, value)).drop_last() =~= symbol_table.entries@);
        }
        symbol_table.entries.push((key, value));
        true
    }
}

/// Each name in a well formed symbol table appears exactly once.
pub proof fn lemma_symbol_names_unique(t: &SymbolTable)
    requires
        t.wf(),
    ensures
        forall|i: int, j: int|
            0 <= i < j < t.names().len() ==> #[trigger] t.names()[i] != #[trigger] t.names()[j],
{
}


// ---------------------------------------------------------------------------
// Opcode selection: messages and operand builders
// ---------------------------------------------------------------------------

pub open spec fn invalid_opcode_msg(name: Seq<char>) -> Seq<char> {
    "Invalid opcode '"@ + name + "'"@
}

pub open spec fn invalid_arg_msg(name: Seq<char>) -> Seq<char> {
    "Invalid argument for opcode '"@ + name + "'"@
}

pub open spec fn cannot_word_msg() -> Seq<char> {
    "Cannot use word as immediate value"@
}

/// The operand byte of a one-byte address position: literals must fit in a
/// byte, labels wait for pass 2.
pub open spec fn spec_byte_arg(a: AddressModel) -> Result<InstructionArgModel, Seq<char>> {
    match a {
        AddressModel::Literal(n) => if n < 256 {
            Result::Ok(InstructionArgModel::ByteArg(n as u8))
        } else {
            Result::Err(cannot_word_msg())
        },
        AddressModel::Label(l) => Result::Ok(InstructionArgModel::ByteLabelArg(l)),
    }
}

/// The operand of a two-byte address position.
pub open spec fn spec_word_arg(a: AddressModel) -> InstructionArgModel {
    match a {
        AddressModel::Literal(n) => InstructionArgModel::WordArg(n),
        AddressModel::Label(l) => InstructionArgModel::WordLabelArg(l),
    }
}

/// The operand of an immediate position.
pub open spec fn spec_imm_arg(i: ImmediateValueModel) -> InstructionArgModel {
    match i {
        ImmediateValueModel::Literal(n) => InstructionArgModel::ByteArg(n),
        ImmediateValueModel::Label(l) => InstructionArgModel::ByteLabelArg(l),
        ImmediateValueModel::LowByte(l) => InstructionArgModel::ByteLabelLowArg(l),
        ImmediateValueModel::HighByte(l) => InstructionArgModel::ByteLabelHighArg(l),
    }
}

// ---------------------------------------------------------------------------
// Opcode selection: the 6502 encoding families
// ---------------------------------------------------------------------------
//
// Most instructions encode as `aaa bbb cc`: `cc` picks the family, `aaa`
// the operation (fixed in `base`), and `bbb` the addressing mode.  `bbb`
// occupies bits 4-2, so the mode contributes `4 * bbb` to the opcode.
// An encoder yields the opcode byte, the operand, and the instruction's
// total length in bytes, or the message of the error that refuses it.

/// The `cc = 01` family (ORA, AND, EOR, ADC, STA, LDA, CMP, SBC).
/// `imm_ok` is false only for STA, which has no immediate form.
pub open spec fn spec_encode_c01(
    name: Seq<char>,
    base: u8,
    imm_ok: bool,
    mode: AddressingModeModel,
) -> Result<(u8, InstructionArgModel, int), Seq<char>> {
    match mode {
        AddressingModeModel::IndirectX(a) => match spec_byte_arg(a) {
            Result::Ok(g) => Result::Ok(((base + 0x00) as u8, g, 2)),
            Result::Err(m) => Result::Err(m),
        },
        AddressingModeModel::ZeroPage(a) => match spec_byte_arg(a) {
            Result::Ok(g) => Result::Ok(((base + 0x04) as u8, g, 2)),
            Result::Err(m) => Result::Err(m),
        },
        AddressingModeModel::Immediate(i) => if imm_ok {
            Result::Ok(((base + 0x08) as u8, spec_imm_arg(i), 2))
        } else {
            Result::Err(invalid_arg_msg(name))
        },
        AddressingModeModel::Absolute(a) => Result::Ok(
            ((base + 0x0C) as u8, spec_word_arg(a), 3),
        ),
        AddressingModeModel::IndirectY(a) => match spec_byte_arg(a) {
            Result::Ok(g) => Result::Ok(((base + 0x10) as u8, g, 2)),
            Result::Err(m) => Result::Err(m),
        },
        AddressingModeModel::ZeroPageX(a) => match spec_byte_arg(a) {
            Result::Ok(g) => Result::Ok(((base + 0x14) as u8, g, 2)),
            Result::Err(m) => Result::Err(m),
        },
        AddressingModeModel::AbsoluteY(a) => Result::Ok(
            ((base + 0x18) as u8, spec_word_arg(a), 3),
        ),
        AddressingModeModel::AbsoluteX(a) => Result::Ok(
            ((base + 0x1C) as u8, spec_word_arg(a), 3),
        ),
        _ => Result::Err(invalid_arg_msg(name)),
    }
}

/// The `cc = 10` family (ASL, ROL, LSR, ROR, STX, LDX, DEC, INC).
/// `use_y`: the indexed forms use Y (STX, LDX); `imm`: an immediate form
/// exists (LDX); `acc`: an accumulator (implicit) form exists (the shifts);
/// `absx`: the indexed absolute form exists.
pub open spec fn spec_encode_c10(
    name: Seq<char>,
    base: u8,
    use_y: bool,
    imm: bool,
    acc: bool,
    absx: bool,
    mode: AddressingModeModel,
) -> Result<(u8, InstructionArgModel, int), Seq<char>> {
    match mode {
        AddressingModeModel::Immediate(i) => if imm {
            Result::Ok(((base + 0x00) as u8, spec_imm_arg(i), 2))
        } else {
            Result::Err(invalid_arg_msg(name))
        },
        AddressingModeModel::ZeroPage(a) => match spec_byte_arg(a) {
            Result::Ok(g) => Result::Ok(((base + 0x04) as u8, g, 2)),
            Result::Err(m) => Result::Err(m),
        },
        AddressingModeModel::Implicit => if acc {
            Result::Ok(((base + 0x08) as u8, InstructionArgModel::NoArgs, 1))
        } else {
            Result::Err(invalid_arg_msg(name))
        },
        AddressingModeModel::Absolute(a) => Result::Ok(
            ((base + 0x0C) as u8, spec_word_arg(a), 3),
        ),
        AddressingModeModel::ZeroPageX(a) => if !use_y {
            match spec_byte_arg(a) {
                Result::Ok(g) => Result::Ok(((base + 0x14) as u8, g, 2)),
                Result::Err(m) => Result::Err(m),
            }
        } else {
            Result::Err(invalid_arg_msg(name))
        },
        AddressingModeModel::ZeroPageY(a) => if use_y {
            match spec_byte_arg(a) {
                Result::Ok(g) => Result::Ok(((base + 0x14) as u8, g, 2)),
                Result::Err(m) => Result::Err(m),
            }
        } else {
            Result::Err(invalid_arg_msg(name))
        },
        AddressingModeModel::AbsoluteX(a) => if !use_y && absx {
            Result::Ok(((base + 0x1C) as u8, spec_word_arg(a), 3))
        } else {
            Result::Err(invalid_arg_msg(name))
        },
        AddressingModeModel::AbsoluteY(a) => if use_y && absx {
            Result::Ok(((base + 0x1C) as u8, spec_word_arg(a), 3))
        } else {
            Result::Err(invalid_arg_msg(name))
        },
        _ => Result::Err(invalid_arg_msg(name)),
    }
}

/// The `cc = 00` family (STY, LDY, CPY, CPX).  `imm`: an immediate form
/// exists; `zpx` / `absx`: the X-indexed forms exist.
pub open spec fn spec_encode_c00(
    name: Seq<char>,
    base: u8,
    imm: bool,
    zpx: bool,
    absx: bool,
    mode: AddressingModeModel,
) -> Result<(u8, InstructionArgModel, int), Seq<char>> {
    match mode {
        AddressingModeModel::Immediate(i) => if imm {
            Result::Ok(((base + 0x00) as u8, spec_imm_arg(i), 2))
        } else {
            Result::Err(invalid_arg_msg(name))
        },
        AddressingModeModel::ZeroPage(a) => match spec_byte_arg(a) {
            Result::Ok(g) => Result::Ok(((base + 0x04) as u8, g, 2)),
            Result::Err(m) => Result::Err(m),
        },
        AddressingModeModel::Absolute(a) => Result::Ok(
            ((base + 0x0C) as u8, spec_word_arg(a), 3),
        ),
        AddressingModeModel::ZeroPageX(a) => if zpx {
            match spec_byte_arg(a) {
                Result::Ok(g) => Result::Ok(((base + 0x14) as u8, g, 2)),
                Result::Err(m) => Result::Err(m),
            }
        } else {
            Result::Err(invalid_arg_msg(name))
        },
        AddressingModeModel::AbsoluteX(a) => if absx {
            Result::Ok(((base + 0x1C) as u8, spec_word_arg(a), 3))
        } else {
            Result::Err(invalid_arg_msg(name))
        },
        _ => Result::Err(invalid_arg_msg(name)),
    }
}

/// BIT: zero page and absolute only.
pub open spec fn spec_encode_bit(name: Seq<char>, mode: AddressingModeModel) -> Result<
    (u8, InstructionArgModel, int),
    Seq<char>,
> {
    match mode {
        AddressingModeModel::ZeroPage(a) => match spec_byte_arg(a) {
            Result::Ok(g) => Result::Ok((0x24u8, g, 2)),
            Result::Err(m) => Result::Err(m),
        },
        AddressingModeModel::Absolute(a) => Result::Ok((0x2Cu8, spec_word_arg(a), 3)),
        _ => Result::Err(invalid_arg_msg(name)),
    }
}

/// JMP: absolute (`0x4C`) and indirect (`0x6C`).
pub open spec fn spec_encode_jmp(name: Seq<char>, mode: AddressingModeModel) -> Result<
    (u8, InstructionArgModel, int),
    Seq<char>,
> {
    match mode {
        AddressingModeModel::Absolute(a) => Result::Ok((0x4Cu8, spec_word_arg(a), 3)),
        AddressingModeModel::Indirect(a) => Result::Ok((0x6Cu8, spec_word_arg(a), 3)),
        _ => Result::Err(invalid_arg_msg(name)),
    }
}

/// JSR: absolute only, three bytes.
pub open spec fn spec_encode_jsr(name: Seq<char>, mode: AddressingModeModel) -> Result<
    (u8, InstructionArgModel, int),
    Seq<char>,
> {
    match mode {
        AddressingModeModel::Absolute(a) => Result::Ok((0x20u8, spec_word_arg(a), 3)),
        _ => Result::Err(invalid_arg_msg(name)),
    }
}

/// BRK: implicit; it reserves two bytes but emits only the opcode.
pub open spec fn spec_encode_brk(name: Seq<char>, mode: AddressingModeModel) -> Result<
    (u8, InstructionArgModel, int),
    Seq<char>,
> {
    match mode {
        AddressingModeModel::Implicit => Result::Ok((0x00u8, InstructionArgModel::NoArgs, 2)),
        _ => Result::Err(invalid_arg_msg(name)),
    }
}

/// A branch: two bytes; a label becomes a relative reference for pass 2, a
/// zero-page literal stands for the displacement byte itself.
pub open spec fn spec_encode_branch(name: Seq<char>, op: u8, mode: AddressingModeModel) -> Result<
    (u8, InstructionArgModel, int),
    Seq<char>,
> {
    match mode {
        AddressingModeModel::ZeroPage(a) => match spec_byte_arg(a) {
            Result::Ok(g) => Result::Ok((op, g, 2)),
            Result::Err(m) => Result::Err(m),
        },
        AddressingModeModel::Absolute(a) => match a {
            AddressModel::Literal(_) => Result::Err("Branching out of bounds"@),
            AddressModel::Label(l) => Result::Ok(
                (op, InstructionArgModel::RelativeLabelArg(l), 2),
            ),
        },
        _ => Result::Err(invalid_arg_msg(name)),
    }
}

/// A one-byte implicit instruction.
pub open spec fn spec_encode_implicit(name: Seq<char>, op: u8, mode: AddressingModeModel)
    -> Result<(u8, InstructionArgModel, int), Seq<char>> {
    match mode {
        AddressingModeModel::Implicit => Result::Ok((op, InstructionArgModel::NoArgs, 1)),
        _ => Result::Err(invalid_arg_msg(name)),
    }
}

// ---------------------------------------------------------------------------
// Opcode selection: mnemonic dispatch
// ---------------------------------------------------------------------------

/// Shorthand for a case-insensitive mnemonic match.
pub open spec fn is_mnemonic(name: Seq<char>, kw: Seq<char>) -> bool {
    eq_ignore_ascii_case(name, kw)
}

/// The `cc = 01` and `cc = 10` mnemonics, or `None` for other names.
pub open spec fn spec_dispatch_alu(name: Seq<char>, mode: AddressingModeModel) -> Option<
    Result<(u8, InstructionArgModel, int), Seq<char>>,
> {
    if is_mnemonic(name, "ora"@) {
        Option::Some(spec_encode_c01(name, 0x01, true, mode))
    } else if is_mnemonic(name, "and"@) {
        Option::Some(spec_encode_c01(name, 0x21, true, mode))
    } else if is_mnemonic(name, "eor"@) {
        Option::Some(spec_encode_c01(name, 0x41, true, mode))
    } else if is_mnemonic(name, "adc"@) {
        Option::Some(spec_encode_c01(name, 0x61, true, mode))
    } else if is_mnemonic(name, "sta"@) {
        Option::Some(spec_encode_c01(name, 0x81, false, mode))
    } else if is_mnemonic(name, "lda"@) {
        Option::Some(spec_encode_c01(name, 0xA1, true, mode))
    } else if is_mnemonic(name, "cmp"@) {
        Option::Some(spec_encode_c01(name, 0xC1, true, mode))
    } else if is_mnemonic(name, "sbc"@) {
        Option::Some(spec_encode_c01(name, 0xE1, true, mode))
    } else if is_mnemonic(name, "asl"@) {
        Option::Some(spec_encode_c10(name, 0x02, false, false, true, true, mode))
    } else if is_mnemonic(name, "rol"@) {
        Option::Some(spec_encode_c10(name, 0x22, false, false, true, true, mode))
    } else if is_mnemonic(name, "lsr"@) {
        Option::Some(spec_encode_c10(name, 0x42, false, false, true, true, mode))
    } else if is_mnemonic(name, "ror"@) {
        Option::Some(spec_encode_c10(name, 0x62, false, false, true, true, mode))
    } else if is_mnemonic(name, "stx"@) {
        Option::Some(spec_encode_c10(name, 0x82, true, false, false, false, mode))
    } else if is_mnemonic(name, "ldx"@) {
        Option::Some(spec_encode_c10(name, 0xA2, true, true, false, true, mode))
    } else if is_mnemonic(name, "dec"@) {
        Option::Some(spec_encode_c10(name, 0xC2, false, false, false, true, mode))
    } else if is_mnemonic(name, "inc"@) {
        Option::Some(spec_encode_c10(name, 0xE2, false, false, false, true, mode))
    } else {
        Option::None
    }
}

/// The `cc = 00` mnemonics, BIT, the jumps and BRK, or `None`.
pub open spec fn spec_dispatch_cmp_jump(name: Seq<char>, mode: AddressingModeModel) -> Option<
    Result<(u8, InstructionArgModel, int), Seq<char>>,
> {
    if is_mnemonic(name, "sty"@) {
        Option::Some(spec_encode_c00(name, 0x80, false, true, false, mode))
    } else if is_mnemonic(name, "ldy"@) {
        Option::Some(spec_encode_c00(name, 0xA0, true, true, true, mode))
    } else if is_mnemonic(name, "cpy"@) {
        Option::Some(spec_encode_c00(name, 0xC0, true, false, false, mode))
    } else if is_mnemonic(name, "cpx"@) {
        Option::Some(spec_encode_c00(name, 0xE0, true, false, false, mode))
    } else if is_mnemonic(name, "bit"@) {
        Option::Some(spec_encode_bit(name, mode))
    } else if is_mnemonic(name, "jmp"@) {
        Option::Some(spec_encode_jmp(name, mode))
    } else if is_mnemonic(name, "brk"@) {
        Option::Some(spec_encode_brk(name, mode))
    } else if is_mnemonic(name, "jsr"@) {
        Option::Some(spec_encode_jsr(name, mode))
    } else {
        Option::None
    }
}

/// The branch mnemonics, or `None`.
pub open spec fn spec_dispatch_branch(name: Seq<char>, mode: AddressingModeModel) -> Option<
    Result<(u8, InstructionArgModel, int), Seq<char>>,
> {
    if is_mnemonic(name, "bpl"@) {
        Option::Some(spec_encode_branch(name, 0x10, mode))
    } else if is_mnemonic(name, "bmi"@) {
        Option::Some(spec_encode_branch(name, 0x30, mode))
    } else if is_mnemonic(name, "bvc"@) {
        Option::Some(spec_encode_branch(name, 0x50, mode))
    } else if is_mnemonic(name, "bvs"@) {
        Option::Some(spec_encode_branch(name, 0x70, mode))
    } else if is_mnemonic(name, "bcc"@) {
        Option::Some(spec_encode_branch(name, 0x90, mode))
    } else if is_mnemonic(name, "bcs"@) {
        Option::Some(spec_encode_branch(name, 0xB0, mode))
    } else if is_mnemonic(name, "bne"@) {
        Option::Some(spec_encode_branch(name, 0xD0, mode))
    } else if is_mnemonic(name, "beq"@) {
        Option::Some(spec_encode_branch(name, 0xF0, mode))
    } else {
        Option::None
    }
}

/// The one-byte implicit mnemonics, or `None`.
pub open spec fn spec_dispatch_implicit(name: Seq<char>, mode: AddressingModeModel) -> Option<
    Result<(u8, InstructionArgModel, int), Seq<char>>,
> {
    if is_mnemonic(name, "rti"@) {
        Option::Some(spec_encode_implicit(name, 0x40, mode))
    } else if is_mnemonic(name, "rts"@) {
        Option::Some(spec_encode_implicit(name, 0x60, mode))
    } else if is_mnemonic(name, "php"@) {
        Option::Some(spec_encode_implicit(name, 0x08, mode))
    } else if is_mnemonic(name, "plp"@) {
        Option::Some(spec_encode_implicit(name, 0x28, mode))
    } else if is_mnemonic(name, "pha"@) {
        Option::Some(spec_encode_implicit(name, 0x48, mode))
    } else if is_mnemonic(name, "pla"@) {
        Option::Some(spec_encode_implicit(name, 0x68, mode))
    } else if is_mnemonic(name, "clc"@) {
        Option::Some(spec_encode_implicit(name, 0x18, mode))
    } else if is_mnemonic(name, "sec"@) {
        Option::Some(spec_encode_implicit(name, 0x38, mode))
    } else if is_mnemonic(name, "cli"@) {
        Option::Some(spec_encode_implicit(name, 0x58, mode))
    } else if is_mnemonic(name, "sei"@) {
        Option::Some(spec_encode_implicit(name, 0x78, mode))
    } else if is_mnemonic(name, "clv"@) {
        Option::Some(spec_encode_implicit(name, 0xB8, mode))
    } else if is_mnemonic(name, "cld"@) {
        Option::Some(spec_encode_implicit(name, 0xD8, mode))
    } else if is_mnemonic(name, "sed"@) {
        Option::Some(spec_encode_implicit(name, 0xF8, mode))
    } else if is_mnemonic(name, "inx"@) {
        Option::Some(spec_encode_implicit(name, 0xE8, mode))
    } else if is_mnemonic(name, "dex"@) {
        Option::Some(spec_encode_implicit(name, 0xCA, mode))
    } else if is_mnemonic(name, "iny"@) {
        Option::Some(spec_encode_implicit(name, 0xC8, mode))
    } else if is_mnemonic(name, "dey"@) {
        Option::Some(spec_encode_implicit(name, 0x88, mode))
    } else if is_mnemonic(name, "tax"@) {
        Option::Some(spec_encode_implicit(name, 0xAA, mode))
    } else if is_mnemonic(name, "txa"@) {
        Option::Some(spec_encode_implicit(name, 0x8A, mode))
    } else if is_mnemonic(name, "tay"@) {
        Option::Some(spec_encode_implicit(name, 0xA8, mode))
    } else if is_mnemonic(name, "tya"@) {
        Option::Some(spec_encode_implicit(name, 0x98, mode))
    } else if is_mnemonic(name, "tsx"@) {
        Option::Some(spec_encode_implicit(name, 0xBA, mode))
    } else if is_mnemonic(name, "txs"@) {
        Option::Some(spec_encode_implicit(name, 0x9A, mode))
    } else {
        Option::None
    }
}

/// The opcode byte, operand and length of `(mnemonic, addressing mode)`, by
/// the MOS 6502 instruction tables; unknown mnemonics and unsupported
/// combinations yield their error messages.
pub open spec fn spec_encode_instruction(name: Seq<char>, mode: AddressingModeModel) -> Result<
    (u8, InstructionArgModel, int),
    Seq<char>,
> {
    match spec_dispatch_alu(name, mode) {
        Option::Some(r) => r,
        Option::None => match spec_dispatch_cmp_jump(name, mode) {
            Option::Some(r) => r,
            Option::None => match spec_dispatch_branch(name, mode) {
                Option::Some(r) => r,
                Option::None => match spec_dispatch_implicit(name, mode) {
                    Option::Some(r) => r,
                    Option::None => Result::Err(invalid_opcode_msg(name)),
                },
            },
        },
    }
}


// ---------------------------------------------------------------------------
// The executable opcode encoder
// ---------------------------------------------------------------------------

/// An executable result agrees with its modelled counterpart.
pub open spec fn encode_result_matches(
    r: Result<(u8, InstructionArg, u8), ParseError>,
    m: Result<(u8, InstructionArgModel, int), Seq<char>>,
    lino: int,
    fname: Seq<char>,
) -> bool {
    match (r, m) {
        (Result::Ok(t), Result::Ok(mt)) => t.0 == mt.0 && t.1@ == mt.1 && t.2 as int == mt.2,
        (Result::Err(e), Result::Err(msg)) => err_matches(e, em(lino, msg), fname),
        _ => false,
    }
}

/// "Invalid argument for opcode '<name>'", at the scanner's current line.
fn invalid_arg_error<T>(lexer: &Lexer, name: &String) -> (r: Result<T, ParseError>)
    ensures
        r matches Err(e) && err_matches(
            e,
            em(lexer.st().lino, invalid_arg_msg(name@)),
            lexer.filename_view(),
        ),
{
    let mut m = "Invalid argument for opcode '".to_owned();
    m.append(name.as_str());
    m.append("'");
    Err(
        ParseError {
            filename: lexer.get_filename().clone(),
            lino: lexer.get_lino(),
            message: m,
        },
    )
}

/// The operand of a one-byte address position.
fn ex_byte_arg(lexer: &Lexer, a: &Address) -> (r: Result<InstructionArg, ParseError>)
    ensures
        match (r, spec_byte_arg(a@)) {
            (Result::Ok(arg), Result::Ok(g)) => arg@ == g,
            (Result::Err(e), Result::Err(m)) => err_matches(
                e,
                em(lexer.st().lino, m),
                lexer.filename_view(),
            ),
            _ => false,
        },
{
    match a {
        Address::Literal(n) => match check_overflow(lexer, *n) {
            Result::Ok(b) => Ok(InstructionArg::ByteArg(b)),
            Result::Err(e) => Err(e),
        },
        Address::Label(l) => Ok(InstructionArg::ByteLabelArg(l.clone())),
    }
}

/// The operand of a two-byte address position.
fn ex_word_arg(a: &Address) -> (r: InstructionArg)
    ensures
        r@ == spec_word_arg(a@),
{
    match a {
        Address::Literal(n) => InstructionArg::WordArg(*n),
        Address::Label(l) => InstructionArg::WordLabelArg(l.clone()),
    }
}

/// The operand of an immediate position.
fn ex_imm_arg(i: &ImmediateValue) -> (r: InstructionArg)
    ensures
        r@ == spec_imm_arg(i@),
{
    match i {
        ImmediateValue::Literal(n) => InstructionArg::ByteArg(*n),
        ImmediateValue::Label(l) => InstructionArg::ByteLabelArg(l.clone()),
        ImmediateValue::LowByte(l) => InstructionArg::ByteLabelLowArg(l.clone()),
        ImmediateValue::HighByte(l) => InstructionArg::ByteLabelHighArg(l.clone()),
    }
}

fn encode_c01(lexer: &Lexer, name: &String, base: u8, imm_ok: bool, mode: &AddressingMode) -> (r:
    Result<(u8, InstructionArg, u8), ParseError>)
    requires
        base <= 0xE2,
    ensures
        encode_result_matches(
            r,
            spec_encode_c01(name@, base, imm_ok, mode@),
            lexer.st().lino,
            lexer.filename_view(),
        ),
{
    match mode {
        AddressingMode::IndirectX(a) => match ex_byte_arg(lexer, a) {
            Result::Ok(g) => Ok((base + 0x00, g, 2)),
            Result::Err(e) => Err(e),
        },
        AddressingMode::ZeroPage(a) => match ex_byte_arg(lexer, a) {
            Result::Ok(g) => Ok((base + 0x04, g, 2)),
            Result::Err(e) => Err(e),
        },
        AddressingMode::Immediate(i) => if imm_ok {
            Ok((base + 0x08, ex_imm_arg(i), 2))
        } else {
            invalid_arg_error(lexer, name)
        },
        AddressingMode::Absolute(a) => Ok((base + 0x0C, ex_word_arg(a), 3)),
        AddressingMode::IndirectY(a) => match ex_byte_arg(lexer, a) {
            Result::Ok(g) => Ok((base + 0x10, g, 2)),
            Result::Err(e) => Err(e),
        },
        AddressingMode::ZeroPageX(a) => match ex_byte_arg(lexer, a) {
            Result::Ok(g) => Ok((base + 0x14, g, 2)),
            Result::Err(e) => Err(e),
        },
        AddressingMode::AbsoluteY(a) => Ok((base + 0x18, ex_word_arg(a), 3)),
        AddressingMode::AbsoluteX(a) => Ok((base + 0x1C, ex_word_arg(a), 3)),
        _ => invalid_arg_error(lexer, name),
    }
}

fn encode_c10(
    lexer: &Lexer,
    name: &String,
    base: u8,
    use_y: bool,
    imm: bool,
    acc: bool,
    absx: bool,
    mode: &AddressingMode,
) -> (r: Result<(u8, InstructionArg, u8), ParseError>)
    requires
        base <= 0xE2,
    ensures
        encode_result_matches(
            r,
            spec_encode_c10(name@, base, use_y, imm, acc, absx, mode@),
            lexer.st().lino,
            lexer.filename_view(),
        ),
{
    match mode {
        AddressingMode::Immediate(i) => if imm {
            Ok((base + 0x00, ex_imm_arg(i), 2))
        } else {
            invalid_arg_error(lexer, name)
        },
        AddressingMode::ZeroPage(a) => match ex_byte_arg(lexer, a) {
            Result::Ok(g) => Ok((base + 0x04, g, 2)),
            Result::Err(e) => Err(e),
        },
        AddressingMode::Implicit => if acc {
            Ok((base + 0x08, InstructionArg::NoArgs, 1))
        } else {
            invalid_arg_error(lexer, name)
        },
        AddressingMode::Absolute(a) => Ok((base + 0x0C, ex_word_arg(a), 3)),
        AddressingMode::ZeroPageX(a) => if !use_y {
            match ex_byte_arg(lexer, a) {
                Result::Ok(g) => Ok((base + 0x14, g, 2)),
                Result::Err(e) => Err(e),
            }
        } else {
            invalid_arg_error(lexer, name)
        },
        AddressingMode::ZeroPageY(a) => if use_y {
            match ex_byte_arg(lexer, a) {
                Result::Ok(g) => Ok((base + 0x14, g, 2)),
                Result::Err(e) => Err(e),
            }
        } else {
            invalid_arg_error(lexer, name)
        },
        AddressingMode::AbsoluteX(a) => if !use_y && absx {
            Ok((base + 0x1C, ex_word_arg(a), 3))
        } else {
            invalid_arg_error(lexer, name)
        },
        AddressingMode::AbsoluteY(a) => if use_y && absx {
            Ok((base + 0x1C, ex_word_arg(a), 3))
        } else {
            invalid_arg_error(lexer, name)
        },
        _ => invalid_arg_error(lexer, name),
    }
}

fn encode_c00(
    lexer: &Lexer,
    name: &String,
    base: u8,
    imm: bool,
    zpx: bool,
    absx: bool,
    mode: &AddressingMode,
) -> (r: Result<(u8, InstructionArg, u8), ParseError>)
    requires
        base <= 0xE2,
    ensures
        encode_result_matches(
            r,
            spec_encode_c00(name@, base, imm, zpx, absx, mode@),
            lexer.st().lino,
            lexer.filename_view(),
        ),
{
    match mode {
        AddressingMode::Immediate(i) => if imm {
            Ok((base + 0x00, ex_imm_arg(i), 2))
        } else {
            invalid_arg_error(lexer, name)
        },
        AddressingMode::ZeroPage(a) => match ex_byte_arg(lexer, a) {
            Result::Ok(g) => Ok((base + 0x04, g, 2)),
            Result::Err(e) => Err(e),
        },
        AddressingMode::Absolute(a) => Ok((base + 0x0C, ex_word_arg(a), 3)),
        AddressingMode::ZeroPageX(a) => if zpx {
            match ex_byte_arg(lexer, a) {
                Result::Ok(g) => Ok((base + 0x14, g, 2)),
                Result::Err(e) => Err(e),
            }
        } else {
            invalid_arg_error(lexer, name)
        },
        AddressingMode::AbsoluteX(a) => if absx {
            Ok((base + 0x1C, ex_word_arg(a), 3))
        } else {
            invalid_arg_error(lexer, name)
        },
        _ => invalid_arg_error(lexer, name),
    }
}

fn encode_bit(lexer: &Lexer, name: &String, mode: &AddressingMode) -> (r: Result<
    (u8, InstructionArg, u8),
    ParseError,
>)
    ensures
        encode_result_matches(
            r,
            spec_encode_bit(name@, mode@),
            lexer.st().lino,
            lexer.filename_view(),
        ),
{
    match mode {
        AddressingMode::ZeroPage(a) => match ex_byte_arg(lexer, a) {
            Result::Ok(g) => Ok((0x24, g, 2)),
            Result::Err(e) => Err(e),
        },
        AddressingMode::Absolute(a) => Ok((0x2C, ex_word_arg(a), 3)),
        _ => invalid_arg_error(lexer, name),
    }
}

fn encode_jmp(lexer: &Lexer, name: &String, mode: &AddressingMode) -> (r: Result<
    (u8, InstructionArg, u8),
    ParseError,
>)
    ensures
        encode_result_matches(
            r,
            spec_encode_jmp(name@, mode@),
            lexer.st().lino,
            lexer.filename_view(),
        ),
{
    match mode {
        AddressingMode::Absolute(a) => Ok((0x4C, ex_word_arg(a), 3)),
        AddressingMode::Indirect(a) => Ok((0x6C, ex_word_arg(a), 3)),
        _ => invalid_arg_error(lexer, name),
    }
}

fn encode_jsr(lexer: &Lexer, name: &String, mode: &AddressingMode) -> (r: Result<
    (u8, InstructionArg, u8),
    ParseError,
>)
    ensures
        encode_result_matches(
            r,
            spec_encode_jsr(name@, mode@),
            lexer.st().lino,
            lexer.filename_view(),
        ),
{
    match mode {
        AddressingMode::Absolute(a) => Ok((0x20, ex_word_arg(a), 3)),
        _ => invalid_arg_error(lexer, name),
    }
}

fn encode_brk(lexer: &Lexer, name: &String, mode: &AddressingMode) -> (r: Result<
    (u8, InstructionArg, u8),
    ParseError,
>)
    ensures
        encode_result_matches(
            r,
            spec_encode_brk(name@, mode@),
            lexer.st().lino,
            lexer.filename_view(),
        ),
{
    match mode {
        AddressingMode::Implicit => Ok((0x00, InstructionArg::NoArgs, 2)),
        _ => invalid_arg_error(lexer, name),
    }
}

fn encode_branch(lexer: &Lexer, name: &String, op: u8, mode: &AddressingMode) -> (r: Result<
    (u8, InstructionArg, u8),
    ParseError,
>)
    ensures
        encode_result_matches(
            r,
            spec_encode_branch(name@, op, mode@),
            lexer.st().lino,
            lexer.filename_view(),
        ),
{
    match mode {
        AddressingMode::ZeroPage(a) => match ex_byte_arg(lexer, a) {
            Result::Ok(g) => Ok((op, g, 2)),
            Result::Err(e) => Err(e),
        },
        AddressingMode::Absolute(a) => match a {
            Address::Literal(_) => ParseError::new(lexer, "Branching out of bounds"),
            Address::Label(l) => Ok((op, InstructionArg::RelativeLabelArg(l.clone()), 2)),
        },
        _ => invalid_arg_error(lexer, name),
    }
}

fn encode_implicit(lexer: &Lexer, name: &String, op: u8, mode: &AddressingMode) -> (r: Result<
    (u8, InstructionArg, u8),
    ParseError,
>)
    ensures
        encode_result_matches(
            r,
            spec_encode_implicit(name@, op, mode@),
            lexer.st().lino,
            lexer.filename_view(),
        ),
{
    match mode {
        AddressingMode::Implicit => Ok((op, InstructionArg::NoArgs, 1)),
        _ => invalid_arg_error(lexer, name),
    }
}

fn dispatch_alu(lexer: &Lexer, name: &String, mode: &AddressingMode) -> (r: Option<
    Result<(u8, InstructionArg, u8), ParseError>,
>)
    ensures
        match (r, spec_dispatch_alu(name@, mode@)) {
            (Option::None, Option::None) => true,
            (Option::Some(res), Option::Some(mres)) => encode_result_matches(
                res,
                mres,
                lexer.st().lino,
                lexer.filename_view(),
            ),
            _ => false,
        },
{
    if str_eq_ignore_ascii_case(name.as_str(), "ora") {
        Option::Some(encode_c01(lexer, name, 0x01, true, mode))
    } else if str_eq_ignore_ascii_case(name.as_str(), "and") {
        Option::Some(encode_c01(lexer, name, 0x21, true, mode))
    } else if str_eq_ignore_ascii_case(name.as_str(), "eor") {
        Option::Some(encode_c01(lexer, name, 0x41, true, mode))
    } else if str_eq_ignore_ascii_case(name.as_str(), "adc") {
        Option::Some(encode_c01(lexer, name, 0x61, true, mode))
    } else if str_eq_ignore_ascii_case(name.as_str(), "sta") {
        Option::Some(encode_c01(lexer, name, 0x81, false, mode))
    } else if str_eq_ignore_ascii_case(name.as_str(), "lda") {
        Option::Some(encode_c01(lexer, name, 0xA1, true, mode))
    } else if str_eq_ignore_ascii_case(name.as_str(), "cmp") {
        Option::Some(encode_c01(lexer, name, 0xC1, true, mode))
    } else if str_eq_ignore_ascii_case(name.as_str(), "sbc") {
        Option::Some(encode_c01(lexer, name, 0xE1, true, mode))
    } else if str_eq_ignore_ascii_case(name.as_str(), "asl") {
        Option::Some(encode_c10(lexer, name, 0x02, false, false, true, true, mode))
    } else if str_eq_ignore_ascii_case(name.as_str(), "rol") {
        Option::Some(encode_c10(lexer, name, 0x22, false, false, true, true, mode))
    } else if str_eq_ignore_ascii_case(name.as_str(), "lsr") {
        Option::Some(encode_c10(lexer, name, 0x42, false, false, true, true, mode))
    } else if str_eq_ignore_ascii_case(name.as_str(), "ror") {
        Option::Some(encode_c10(lexer, name, 0x62, false, false, true, true, mode))
    } else if str_eq_ignore_ascii_case(name.as_str(), "stx") {
        Option::Some(encode_c10(lexer, name, 0x82, true, false, false, false, mode))
    } else if str_eq_ignore_ascii_case(name.as_str(), "ldx") {
        Option::Some(encode_c10(lexer, name, 0xA2, true, true, false, true, mode))
    } else if str_eq_ignore_ascii_case(name.as_str(), "dec") {
        Option::Some(encode_c10(lexer, name, 0xC2, false, false, false, true, mode))
    } else if str_eq_ignore_ascii_case(name.as_str(), "inc") {
        Option::Some(encode_c10(lexer, name, 0xE2, false, false, false, true, mode))
    } else {
        Option::None
    }
}

fn dispatch_cmp_jump(lexer: &Lexer, name: &String, mode: &AddressingMode) -> (r: Option<
    Result<(u8, InstructionArg, u8), ParseError>,
>)
    ensures
        match (r, spec_dispatch_cmp_jump(name@, mode@)) {
            (Option::None, Option::None) => true,
            (Option::Some(res), Option::Some(mres)) => encode_result_matches(
                res,
                mres,
                lexer.st().lino,
                lexer.filename_view(),
            ),
            _ => false,
        },
{
    if str_eq_ignore_ascii_case(name.as_str(), "sty") {
        Option::Some(encode_c00(lexer, name, 0x80, false, true, false, mode))
    } else if str_eq_ignore_ascii_case(name.as_str(), "ldy") {
        Option::Some(encode_c00(lexer, name, 0xA0, true, true, true, mode))
    } else if str_eq_ignore_ascii_case(name.as_str(), "cpy") {
        Option::Some(encode_c00(lexer, name, 0xC0, true, false, false, mode))
    } else if str_eq_ignore_ascii_case(name.as_str(), "cpx") {
        Option::Some(encode_c00(lexer, name, 0xE0, true, false, false, mode))
    } else if str_eq_ignore_ascii_case(name.as_str(), "bit") {
        Option::Some(encode_bit(lexer, name, mode))
    } else if str_eq_ignore_ascii_case(name.as_str(), "jmp") {
        Option::Some(encode_jmp(lexer, name, mode))
    } else if str_eq_ignore_ascii_case(name.as_str(), "brk") {
        Option::Some(encode_brk(lexer, name, mode))
    } else if str_eq_ignore_ascii_case(name.as_str(), "jsr") {
        Option::Some(encode_jsr(lexer, name, mode))
    } else {
        Option::None
    }
}

fn dispatch_branch(lexer: &Lexer, name: &String, mode: &AddressingMode) -> (r: Option<
    Result<(u8, InstructionArg, u8), ParseError>,
>)
    ensures
        match (r, spec_dispatch_branch(name@, mode@)) {
            (Option::None, Option::None) => true,
            (Option::Some(res), Option::Some(mres)) => encode_result_matches(
                res,
                mres,
                lexer.st().lino,
                lexer.filename_view(),
            ),
            _ => false,
        },
{
    if str_eq_ignore_ascii_case(name.as_str(), "bpl") {
        Option::Some(encode_branch(lexer, name, 0x10, mode))
    } else if str_eq_ignore_ascii_case(name.as_str(), "bmi") {
        Option::Some(encode_branch(lexer, name, 0x30, mode))
    } else if str_eq_ignore_ascii_case(name.as_str(), "bvc") {
        Option::Some(encode_branch(lexer, name, 0x50, mode))
    } else if str_eq_ignore_ascii_case(name.as_str(), "bvs") {
        Option::Some(encode_branch(lexer, name, 0x70, mode))
    } else if str_eq_ignore_ascii_case(name.as_str(), "bcc") {
        Option::Some(encode_branch(lexer, name, 0x90, mode))
    } else if str_eq_ignore_ascii_case(name.as_str(), "bcs") {
        Option::Some(encode_branch(lexer, name, 0xB0, mode))
    } else if str_eq_ignore_ascii_case(name.as_str(), "bne") {
        Option::Some(encode_branch(lexer, name, 0xD0, mode))
    } else if str_eq_ignore_ascii_case(name.as_str(), "beq") {
        Option::Some(encode_branch(lexer, name, 0xF0, mode))
    } else {
        Option::None
    }
}

#[verifier::rlimit(50)]
fn dispatch_implicit(lexer: &Lexer, name: &String, mode: &AddressingMode) -> (r: Option<
    Result<(u8, InstructionArg, u8), ParseError>,
>)
    ensures
        match (r, spec_dispatch_implicit(name@, mode@)) {
            (Option::None, Option::None) => true,
            (Option::Some(res), Option::Some(mres)) => encode_result_matches(
                res,
                mres,
                lexer.st().lino,
                lexer.filename_view(),
            ),
            _ => false,
        },
{
    if str_eq_ignore_ascii_case(name.as_str(), "rti") {
        Option::Some(encode_implicit(lexer, name, 0x40, mode))
    } else if str_eq_ignore_ascii_case(name.as_str(), "rts") {
        Option::Some(encode_implicit(lexer, name, 0x60, mode))
    } else if str_eq_ignore_ascii_case(name.as_str(), "php") {
        Option::Some(encode_implicit(lexer, name, 0x08, mode))
    } else if str_eq_ignore_ascii_case(name.as_str(), "plp") {
        Option::Some(encode_implicit(lexer, name, 0x28, mode))
    } else if str_eq_ignore_ascii_case(name.as_str(), "pha") {
        Option::Some(encode_implicit(lexer, name, 0x48, mode))
    } else if str_eq_ignore_ascii_case(name.as_str(), "pla") {
        Option::Some(encode_implicit(lexer, name, 0x68, mode))
    } else if str_eq_ignore_ascii_case(name.as_str(), "clc") {
        Option::Some(encode_implicit(lexer, name, 0x18, mode))
    } else if str_eq_ignore_ascii_case(name.as_str(), "sec") {
        Option::Some(encode_implicit(lexer, name, 0x38, mode))
    } else if str_eq_ignore_ascii_case(name.as_str(), "cli") {
        Option::Some(encode_implicit(lexer, name, 0x58, mode))
    } else if str_eq_ignore_ascii_case(name.as_str(), "sei") {
        Option::Some(encode_implicit(lexer, name, 0x78, mode))
    } else if str_eq_ignore_ascii_case(name.as_str(), "clv") {
        Option::Some(encode_implicit(lexer, name, 0xB8, mode))
    } else if str_eq_ignore_ascii_case(name.as_str(), "cld") {
        Option::Some(encode_implicit(lexer, name, 0xD8, mode))
    } else if str_eq_ignore_ascii_case(name.as_str(), "sed") {
        Option::Some(encode_implicit(lexer, name, 0xF8, mode))
    } else if str_eq_ignore_ascii_case(name.as_str(), "inx") {
        Option::Some(encode_implicit(lexer, name, 0xE8, mode))
    } else if str_eq_ignore_ascii_case(name.as_str(), "dex") {
        Option::Some(encode_implicit(lexer, name, 0xCA, mode))
    } else if str_eq_ignore_ascii_case(name.as_str(), "iny") {
        Option::Some(encode_implicit(lexer, name, 0xC8, mode))
    } else if str_eq_ignore_ascii_case(name.as_str(), "dey") {
        Option::Some(encode_implicit(lexer, name, 0x88, mode))
    } else if str_eq_ignore_ascii_case(name.as_str(), "tax") {
        Option::Some(encode_implicit(lexer, name, 0xAA, mode))
    } else if str_eq_ignore_ascii_case(name.as_str(), "txa") {
        Option::Some(encode_implicit(lexer, name, 0x8A, mode))
    } else if str_eq_ignore_ascii_case(name.as_str(), "tay") {
        Option::Some(encode_implicit(lexer, name, 0xA8, mode))
    } else if str_eq_ignore_ascii_case(name.as_str(), "tya") {
        Option::Some(encode_implicit(lexer, name, 0x98, mode))
    } else if str_eq_ignore_ascii_case(name.as_str(), "tsx") {
        Option::Some(encode_implicit(lexer, name, 0xBA, mode))
    } else if str_eq_ignore_ascii_case(name.as_str(), "txs") {
        Option::Some(encode_implicit(lexer, name, 0x9A, mode))
    } else {
        Option::None
    }
}

/// Selects the opcode byte, operand and length for `(mnemonic, mode)`, as
/// `spec_encode_instruction` describes.
fn encode_instruction(lexer: &Lexer, name: &String, mode: &AddressingMode) -> (r: Result<
    (u8, InstructionArg, u8),
    ParseError,
>)
    ensures
        encode_result_matches(
            r,
            spec_encode_instruction(name@, mode@),
            lexer.st().lino,
            lexer.filename_view(),
        ),
{
    match dispatch_alu(lexer, name, mode) {
        Option::Some(res) => res,
        Option::None => match dispatch_cmp_jump(lexer, name, mode) {
            Option::Some(res) => res,
            Option::None => match dispatch_branch(lexer, name, mode) {
                Option::Some(res) => res,
                Option::None => match dispatch_implicit(lexer, name, mode) {
                    Option::Some(res) => res,
                    Option::None => {
                        let mut m = "Invalid opcode '".to_owned();
                        m.append(name.as_str());
                        m.append("'");
                        Err(
                            ParseError {
                                filename: lexer.get_filename().clone(),
                                lino: lexer.get_lino(),
                                message: m,
                            },
                        )
                    },
                },
            },
        },
    }
}


// ---------------------------------------------------------------------------
// One line of the first pass
// ---------------------------------------------------------------------------

pub open spec fn repeated_symbol_msg() -> Seq<char> {
    "Repeated symbol"@
}

pub open spec fn undef_origin_msg(label: Seq<char>) -> Seq<char> {
    "Setting origin to value of undefined label "@ + label
}

pub open spec fn undef_define_msg(label: Seq<char>, src: Seq<char>) -> Seq<char> {
    "Setting label "@ + label + " to value of undefined label "@ + src
}

pub open spec fn include_msg() -> Seq<char> {
    ".include is not implemented"@
}

pub open spec fn too_long_msg() -> Seq<char> {
    "Instruction runs past the end of the address space"@
}

/// What one parsed line contributes: emitted lines, the new symbol table,
/// and the new address counter.
pub ghost struct FpStep {
    pub lines: Seq<AnnotatedLineModel>,
    pub table: Map<Seq<char>, u16>,
    pub addr: int,
}

/// Data bytes placed one per address from `addr` on, the counter wrapping
/// around the end of the address space.
pub open spec fn spec_emit_bytes(bs: Seq<u8>, addr: int, lino: int) -> Seq<AnnotatedLineModel> {
    Seq::new(
        bs.len(),
        |i: int|
            AnnotatedLineModel {
                addr: wrap16(addr + i) as u16,
                opcode: bs[i],
                arg: InstructionArgModel::NoArgs,
                lino,
            },
    )
}

/// The two little-endian bytes of a `.word` value.
pub open spec fn word_bytes(v: u16) -> Seq<u8> {
    seq![(v % 256) as u8, (v / 256) as u8]
}

/// What one pragma contributes, at address counter `addr` with symbol
/// table `table`; errors are reported at `err_lino`.
pub open spec fn spec_fp_pragma(
    p: PragmaModel,
    lino: int,
    addr: int,
    table: Map<Seq<char>, u16>,
    err_lino: int,
) -> Result<FpStep, ErrModel> {
    match p {
            PragmaModel::Byte(b) => Result::Ok(
                FpStep {
                    lines: spec_emit_bytes(seq![b], addr, lino),
                    table,
                    addr: wrap16(addr + 1),
                },
            ),
            PragmaModel::Bytes(bs) => Result::Ok(
                FpStep {
                    lines: spec_emit_bytes(bs, addr, lino),
                    table,
                    addr: wrap16(addr + bs.len()),
                },
            ),
            PragmaModel::Word(w) => match w {
                AddressModel::Label(l) => if table.contains_key(l) {
                    Result::Ok(
                        FpStep {
                            lines: spec_emit_bytes(word_bytes(table[l]), addr, lino),
                            table,
                            addr: wrap16(addr + 2),
                        },
                    )
                } else {
                    Result::Err(em(err_lino, undef_origin_msg(l)))
                },
                AddressModel::Literal(v) => Result::Ok(
                    FpStep {
                        lines: spec_emit_bytes(word_bytes(v), addr, lino),
                        table,
                        addr: wrap16(addr + 2),
                    },
                ),
            },
            PragmaModel::Origin(a) => match a {
                AddressModel::Label(l) => if table.contains_key(l) {
                    Result::Ok(FpStep { lines: Seq::empty(), table, addr: table[l] as int })
                } else {
                    Result::Err(em(err_lino, undef_origin_msg(l)))
                },
                AddressModel::Literal(n) => Result::Ok(
                    FpStep { lines: Seq::empty(), table, addr: n as int },
                ),
            },
            PragmaModel::Define(label, a) => match a {
                AddressModel::Label(s) => if !table.contains_key(s) {
                    Result::Err(em(err_lino, undef_define_msg(label, s)))
                } else if table.contains_key(label) {
                    Result::Err(em(err_lino, repeated_symbol_msg()))
                } else {
                    Result::Ok(
                        FpStep {
                            lines: Seq::empty(),
                            table: table.insert(label, table[s]),
                            addr,
                        },
                    )
                },
                AddressModel::Literal(n) => if table.contains_key(label) {
                    Result::Err(em(err_lino, repeated_symbol_msg()))
                } else {
                    Result::Ok(
                        FpStep { lines: Seq::empty(), table: table.insert(label, n), addr },
                    )
                },
            },
            PragmaModel::Include(_) => Result::Err(em(err_lino, include_msg())),
    }
}

/// What one parsed line contributes to the first pass, at address counter
/// `addr` with symbol table `table`; errors are reported at `err_lino`, the
/// line the scanner stands on after the line was parsed.
///
/// A line with a label first binds the label to the current address, and
/// its body is then laid out as usual.  An instruction may not run past the end of the
/// address space; the data pragmas wrap the counter instead, one byte at a
/// time.  `.origin`, `.word` and `.define` may name only labels that are
/// already bound, and a label may not be bound twice.
pub open spec fn spec_fp_step(line: LineModel, addr: int, table: Map<Seq<char>, u16>, err_lino: int)
    -> Result<FpStep, ErrModel> {
    if line.label.len() > 0 && table.contains_key(line.label) {
        Result::Err(em(err_lino, repeated_symbol_msg()))
    } else {
        let table = if line.label.len() > 0 {
            table.insert(line.label, addr as u16)
        } else {
            table
        };
        match line.value {
            LineValueModel::Empty => Result::Ok(FpStep { lines: Seq::empty(), table, addr }),
            LineValueModel::Instruction(instr) => match spec_encode_instruction(
                instr.opcode,
                instr.addr_mode,
            ) {
                Result::Err(m) => Result::Err(em(err_lino, m)),
                Result::Ok(enc) => {
                    if addr + width_of(enc.1) > 0xFFFF {
                        Result::Err(em(err_lino, too_long_msg()))
                    } else {
                        Result::Ok(
                            FpStep {
                                lines: seq![
                                    AnnotatedLineModel {
                                        addr: addr as u16,
                                        opcode: enc.0,
                                        arg: enc.1,
                                        lino: line.lino,
                                    },
                                ],
                                table,
                                addr: wrap16(addr + enc.2),
                            },
                        )
                    }
                },
            },
            LineValueModel::Pragma(p) => spec_fp_pragma(p, line.lino, addr, table, err_lino),
        }
    }
}

/// The whole first pass from `st` on: parsed lines folded through
/// `spec_fp_step`, the emitted lines appended to `acc`.
pub open spec fn spec_first_pass(
    s: Seq<char>,
    st: LexState,
    addr: int,
    table: Map<Seq<char>, u16>,
    acc: Seq<AnnotatedLineModel>,
) -> (Result<(Seq<AnnotatedLineModel>, Map<Seq<char>, u16>), ErrModel>, LexState)
    decreases s.len() - st.pos,
    when wf_text(s) && wf_state(s, st)
    via spec_first_pass_decreases
{
    let (r, st1) = spec_parse_line(s, st);
    match r {
        Result::Err(e) => (Result::Err(e), st1),
        Result::Ok(Option::None) => (Result::Ok((acc, table)), st1),
        Result::Ok(Option::Some(line)) => match spec_fp_step(line, addr, table, st1.lino) {
            Result::Err(e) => (Result::Err(e), st1),
            Result::Ok(step) => spec_first_pass(s, st1, step.addr, step.table, acc + step.lines),
        },
    }
}

#[via_fn]
proof fn spec_first_pass_decreases(
    s: Seq<char>,
    st: LexState,
    addr: int,
    table: Map<Seq<char>, u16>,
    acc: Seq<AnnotatedLineModel>,
) {
    lemma_spec_parse_line_st(s, st);
}

// ---------------------------------------------------------------------------
// Address wrapping facts
// ---------------------------------------------------------------------------

proof fn lemma_wrap16_bound(x: int)
    ensures
        0 <= wrap16(x) < 0x10000,
{
    vstd::arithmetic::div_mod::lemma_mod_bound(x, 0x10000);
}

proof fn lemma_wrap16_id(x: int)
    requires
        0 <= x < 0x10000,
    ensures
        wrap16(x) == x,
{
    vstd::arithmetic::div_mod::lemma_small_mod(x as nat, 0x10000nat);
}

proof fn lemma_wrap16_add(x: int, y: int)
    requires
        0 <= y < 0x10000,
    ensures
        wrap16(wrap16(x) + y) == wrap16(x + y),
{
    vstd::arithmetic::div_mod::lemma_add_mod_noop(x, y, 0x10000);
    vstd::arithmetic::div_mod::lemma_small_mod(y as nat, 0x10000nat);
}

/// Wrapped addition of the 16-bit address counter.
fn wrap_add(addr: u16, k: u16) -> (r: u16)
    ensures
        r as int == wrap16(addr + k),
{
    proof {
        lemma_wrap16_bound(addr + k);
    }
    (((addr as u32) + (k as u32)) % 0x10000) as u16
}


// ---------------------------------------------------------------------------
// The executable first pass
// ---------------------------------------------------------------------------

fn arg_width(arg: &InstructionArg) -> (w: u8)
    ensures
        w as int == width_of(arg@),
{
    match arg {
        InstructionArg::NoArgs => 0,
        InstructionArg::ByteArg(_) => 1,
        InstructionArg::ByteLabelArg(_) => 1,
        InstructionArg::RelativeLabelArg(_) => 1,
        InstructionArg::ByteLabelLowArg(_) => 1,
        InstructionArg::ByteLabelHighArg(_) => 1,
        InstructionArg::WordArg(_) => 2,
        InstructionArg::WordLabelArg(_) => 2,
    }
}

/// "Setting origin to value of undefined label <label>".
fn undef_origin_error<T>(lexer: &Lexer, label: &String) -> (r: Result<T, ParseError>)
    ensures
        r matches Err(e) && err_matches(
            e,
            em(lexer.st().lino, undef_origin_msg(label@)),
            lexer.filename_view(),
        ),
{
    let mut m = "Setting origin to value of undefined label ".to_owned();
    m.append(label.as_str());
    Err(
        ParseError {
            filename: lexer.get_filename().clone(),
            lino: lexer.get_lino(),
            message: m,
        },
    )
}

/// "Setting label <label> to value of undefined label <src>".
fn undef_define_error<T>(lexer: &Lexer, label: &String, src: &String) -> (r: Result<T, ParseError>)
    ensures
        r matches Err(e) && err_matches(
            e,
            em(lexer.st().lino, undef_define_msg(label@, src@)),
            lexer.filename_view(),
        ),
{
    let mut m = "Setting label ".to_owned();
    m.append(label.as_str());
    m.append(" to value of undefined label ");
    m.append(src.as_str());
    Err(
        ParseError {
            filename: lexer.get_filename().clone(),
            lino: lexer.get_lino(),
            message: m,
        },
    )
}

/// Emits the data bytes `bs` one per address from `addr` on, and returns
/// the wrapped address counter after them.
fn emit_data_bytes(lines: &mut Vec<AnnotatedLine>, bs: &Vec<u8>, addr: u16, lino: u32) -> (r: u16)
    ensures
        r as int == wrap16(addr + bs@.len()),
        alines_model(final(lines)@) == alines_model(old(lines)@) + spec_emit_bytes(
            bs@,
            addr as int,
            lino as int,
        ),
{
    let ghost lines0 = old(lines)@;
    let mut cur: u16 = addr;
    let mut i: usize = 0;
    proof {
        lemma_wrap16_id(addr as int);
    }
    while i < bs.len()
        invariant
            i <= bs@.len(),
            cur as int == wrap16(addr + i),
            alines_model(lines@) == alines_model(lines0) + spec_emit_bytes(
                bs@,
                addr as int,
                lino as int,
            ).subrange(0, i as int),
        decreases bs@.len() - i,
    {
        proof {
            assert(spec_emit_bytes(bs@, addr as int, lino as int).subrange(0, i + 1)
                =~= spec_emit_bytes(bs@, addr as int, lino as int).subrange(0, i as int).push(
                spec_emit_bytes(bs@, addr as int, lino as int)[i as int],
            ));
        }
        let b = *vstd::slice::slice_index_get(bs.as_slice(), i);
        let line = AnnotatedLine { addr: cur, opcode: b, arg: InstructionArg::NoArgs, lino };
        proof {
            assert(alines_model(lines@.push(line)) =~= alines_model(lines@).push(line@));
        }
        lines.push(line);
        proof {
            lemma_wrap16_add(addr + i, 1);
        }
        cur = wrap_add(cur, 1);
        i = i + 1;
    }
    proof {
        assert(spec_emit_bytes(bs@, addr as int, lino as int).subrange(0, bs@.len() as int)
            =~= spec_emit_bytes(bs@, addr as int, lino as int));
    }
    cur
}

/// What one pragma contributes, as the pragma case of `spec_fp_step`
/// describes: the new address counter, with bytes emitted and symbols bound
/// along the way.
fn fp_pragma(
    lexer: &Lexer,
    p: Pragma,
    lino: u32,
    addr: u16,
    symbol_table: &mut SymbolTable,
    lines: &mut Vec<AnnotatedLine>,
) -> (r: Result<u16, ParseError>)
    requires
        old(symbol_table).wf(),
    ensures
        final(symbol_table).wf(),
        match (r, spec_fp_pragma(p@, lino as int, addr as int, old(symbol_table)@, lexer.st().lino)) {
            (Result::Ok(a2), Result::Ok(step)) => {
                &&& a2 as int == step.addr
                &&& final(symbol_table)@ == step.table
                &&& alines_model(final(lines)@) == alines_model(old(lines)@) + step.lines
            },
            (Result::Err(e), Result::Err(me)) => err_matches(e, me, lexer.filename_view()),
            _ => false,
        },
{
    match p {
        Pragma::Byte(b) => {
            let mut wb: Vec<u8> = Vec::new();
            wb.push(b);
            proof {
                assert(wb@ =~= seq![b]);
            }
            Ok(emit_data_bytes(lines, &wb, addr, lino))
        },
        Pragma::Bytes(bs) => Ok(emit_data_bytes(lines, &bs, addr, lino)),
        Pragma::Word(w) => {
            let v: u16 = match &w {
                Address::Label(l) => match symbol_table.get(l.as_str()) {
                    Option::Some(v) => v,
                    Option::None => {
                        return undef_origin_error(lexer, l);
                    },
                },
                Address::Literal(v) => *v,
            };
            let mut wb: Vec<u8> = Vec::new();
            wb.push((v % 256) as u8);
            wb.push((v / 256) as u8);
            proof {
                assert(wb@ =~= word_bytes(v));
            }
            Ok(emit_data_bytes(lines, &wb, addr, lino))
        },
        Pragma::Origin(a) => match &a {
            Address::Label(l) => match symbol_table.get(l.as_str()) {
                Option::Some(v) => Ok(v),
                Option::None => undef_origin_error(lexer, l),
            },
            Address::Literal(n) => Ok(*n),
        },
        Pragma::Define(label, a) => match a {
            Address::Label(src) => match symbol_table.get(src.as_str()) {
                Option::None => undef_define_error(lexer, &label, &src),
                Option::Some(v) => {
                    if add_symbol(symbol_table, label, v) {
                        Ok(addr)
                    } else {
                        ParseError::new(lexer, "Repeated symbol")
                    }
                },
            },
            Address::Literal(n) => {
                if add_symbol(symbol_table, label, n) {
                    Ok(addr)
                } else {
                    ParseError::new(lexer, "Repeated symbol")
                }
            },
        },
        Pragma::Include(_) => ParseError::new(lexer, ".include is not implemented"),
    }
}

/// What one parsed line contributes, as `spec_fp_step` describes.
fn fp_step(
    lexer: &Lexer,
    line: Line,
    addr: u16,
    symbol_table: &mut SymbolTable,
    lines: &mut Vec<AnnotatedLine>,
) -> (r: Result<u16, ParseError>)
    requires
        old(symbol_table).wf(),
    ensures
        final(symbol_table).wf(),
        match (r, spec_fp_step(line@, addr as int, old(symbol_table)@, lexer.st().lino)) {
            (Result::Ok(a2), Result::Ok(step)) => {
                &&& a2 as int == step.addr
                &&& final(symbol_table)@ == step.table
                &&& alines_model(final(lines)@) == alines_model(old(lines)@) + step.lines
            },
            (Result::Err(e), Result::Err(me)) => err_matches(e, me, lexer.filename_view()),
            _ => false,
        },
{
    let Line { lino, label, value } = line;
    if !label.as_str().is_empty() {
        // A labelled line first binds the label to the current address.
        if !add_symbol(symbol_table, label, addr) {
            return ParseError::new(lexer, "Repeated symbol");
        }
    }
    {
        match value {
            LineValue::Empty => {
                proof {
                    assert(alines_model(lines@) =~= alines_model(lines@)
                        + Seq::<AnnotatedLineModel>::empty());
                }
                Ok(addr)
            },
            LineValue::Instruction(instr) => {
                let Instruction { opcode: name, addr_mode } = instr;
                match encode_instruction(lexer, &name, &addr_mode) {
                    Result::Err(e) => Err(e),
                    Result::Ok((op, arg, size)) => {
                        let w = arg_width(&arg);
                        if (addr as u32) + (w as u32) > 0xFFFF {
                            ParseError::new(
                                lexer,
                                "Instruction runs past the end of the address space",
                            )
                        } else {
                            let aline = AnnotatedLine { addr, opcode: op, arg, lino };
                            proof {
                                assert(alines_model(lines@.push(aline)) =~= alines_model(lines@)
                                    .push(aline@));
                                assert(alines_model(lines@).push(aline@) =~= alines_model(lines@)
                                    + seq![aline@]);
                            }
                            lines.push(aline);
                            Ok(wrap_add(addr, size as u16))
                        }
                    },
                }
            },
            LineValue::Pragma(p) => fp_pragma(lexer, p, lino, addr, symbol_table, lines),
        }
    }
}


// ---------------------------------------------------------------------------
// No line wraps within an instruction
// ---------------------------------------------------------------------------

proof fn lemma_fp_pragma_fits(
    p: PragmaModel,
    lino: int,
    addr: int,
    table: Map<Seq<char>, u16>,
    err_lino: int,
)
    requires
        0 <= addr <= 0xFFFF,
    ensures
        spec_fp_pragma(p, lino, addr, table, err_lino) matches Result::Ok(step) ==> {
            &&& forall|i: int| 0 <= i < step.lines.len() ==> line_fits(#[trigger] step.lines[i])
            &&& 0 <= step.addr <= 0xFFFF
        },
{
    if spec_fp_pragma(p, lino, addr, table, err_lino) is Ok {
        let step = spec_fp_pragma(p, lino, addr, table, err_lino)->Ok_0;
        assert forall|i: int| 0 <= i < step.lines.len() implies line_fits(
            #[trigger] step.lines[i],
        ) by {
            lemma_wrap16_bound(addr + i);
        }
        lemma_wrap16_bound(addr + 1);
        lemma_wrap16_bound(addr + 2);
        match p {
            PragmaModel::Bytes(bs) => {
                lemma_wrap16_bound(addr + bs.len());
            },
            _ => {},
        }
    }
}

proof fn lemma_fp_step_fits(
    line: LineModel,
    addr: int,
    table: Map<Seq<char>, u16>,
    err_lino: int,
)
    requires
        0 <= addr <= 0xFFFF,
    ensures
        spec_fp_step(line, addr, table, err_lino) matches Result::Ok(step) ==> {
            &&& forall|i: int| 0 <= i < step.lines.len() ==> line_fits(#[trigger] step.lines[i])
            &&& 0 <= step.addr <= 0xFFFF
        },
{
    match line.value {
        LineValueModel::Instruction(instr) => {
            match spec_encode_instruction(instr.opcode, instr.addr_mode) {
                Result::Ok(enc) => {
                    lemma_wrap16_bound(addr + enc.2);
                },
                Result::Err(_) => {},
            }
        },
        LineValueModel::Pragma(p) => {
            lemma_fp_pragma_fits(p, line.lino, addr, table, err_lino);
        },
        LineValueModel::Empty => {},
    }
}

/// Every line that the first pass emits lies inside the address space
/// together with its operand: `addr + width <= 0xFFFF`.
pub proof fn lemma_spec_first_pass_fits(
    s: Seq<char>,
    st: LexState,
    addr: int,
    table: Map<Seq<char>, u16>,
    acc: Seq<AnnotatedLineModel>,
)
    requires
        wf_text(s),
        wf_state(s, st),
        0 <= addr <= 0xFFFF,
        forall|i: int| 0 <= i < acc.len() ==> line_fits(#[trigger] acc[i]),
    ensures
        spec_first_pass(s, st, addr, table, acc).0 matches Result::Ok(out) ==> forall|i: int|
            0 <= i < out.0.len() ==> line_fits(#[trigger] out.0[i]),
    decreases s.len() - st.pos,
{
    lemma_spec_parse_line_st(s, st);
    let (r, st1) = spec_parse_line(s, st);
    match r {
        Result::Ok(Option::Some(line)) => {
            lemma_fp_step_fits(line, addr, table, st1.lino);
            match spec_fp_step(line, addr, table, st1.lino) {
                Result::Ok(step) => {
                    assert forall|i: int| 0 <= i < (acc + step.lines).len() implies line_fits(
                        #[trigger] (acc + step.lines)[i],
                    ) by {
                        if i < acc.len() {
                            assert((acc + step.lines)[i] == acc[i]);
                        } else {
                            assert((acc + step.lines)[i] == step.lines[i - acc.len()]);
                        }
                    }
                    lemma_spec_first_pass_fits(s, st1, step.addr, step.table, acc + step.lines);
                },
                Result::Err(_) => {},
            }
        },
        _ => {},
    }
}

// ---------------------------------------------------------------------------
// The whole first pass
// ---------------------------------------------------------------------------

/// The result of the first pass: the annotated lines and the symbol table
/// of one source file.
#[derive(Debug)]
pub struct FirstPassResult {
    /// The name of the source file, carried for diagnostics.
    pub filename: String,
    pub lines: Vec<AnnotatedLine>,
    pub symbol_table: SymbolTable,
}

/// Runs the first pass over the scanner's text: parses every line, lays the
/// code out and builds the symbol table, exactly as `spec_first_pass`
/// describes.  Every emitted line fits the address space (no wrap within an
/// instruction), and the symbol table binds each name at most once.
pub fn first_pass(lexer: &mut Lexer) -> (r: Result<FirstPassResult, ParseError>)
    requires
        old(lexer).wf(),
    ensures
        final(lexer).wf(),
        final(lexer).text() == old(lexer).text(),
        final(lexer).filename_view() == old(lexer).filename_view(),
        ({
            let (res, st2) = spec_first_pass(
                old(lexer).text(),
                old(lexer).st(),
                0,
                Map::empty(),
                Seq::empty(),
            );
            &&& final(lexer).st() == st2
            &&& match (r, res) {
                (Result::Ok(fp), Result::Ok(out)) => {
                    &&& alines_model(fp.lines@) == out.0
                    &&& fp.symbol_table@ == out.1
                    &&& fp.symbol_table.wf()
                    &&& fp.filename@ == old(lexer).filename_view()
                    &&& forall|i: int| 0 <= i < out.0.len() ==> line_fits(#[trigger] out.0[i])
                },
                (Result::Err(e), Result::Err(me)) => err_matches(
                    e,
                    me,
                    old(lexer).filename_view(),
                ),
                _ => false,
            }
        }),
{
    let ghost s = old(lexer).text();
    let ghost st0 = old(lexer).st();
    proof {
        lemma_spec_first_pass_fits(s, st0, 0, Map::empty(), Seq::empty());
    }
    let mut symbol_table = SymbolTable::new();
    let mut lines: Vec<AnnotatedLine> = Vec::new();
    let mut addr: u16 = 0;
    proof {
        assert(alines_model(Seq::<AnnotatedLine>::empty()) =~= Seq::<
            AnnotatedLineModel,
        >::empty());
    }
    loop
        invariant
            s == old(lexer).text(),
            st0 == old(lexer).st(),
            lexer.wf(),
            lexer.text() == s,
            lexer.filename_view() == old(lexer).filename_view(),
            symbol_table.wf(),
            spec_first_pass(s, st0, 0, Map::empty(), Seq::empty()) == spec_first_pass(
                s,
                lexer.st(),
                addr as int,
                symbol_table@,
                alines_model(lines@),
            ),
            spec_first_pass(s, st0, 0, Map::empty(), Seq::empty()).0 matches Result::Ok(out)
                ==> forall|i: int| 0 <= i < out.0.len() ==> line_fits(#[trigger] out.0[i]),
        decreases s.len() - lexer.st().pos,
    {
        let ghost st_a = lexer.st();
        proof {
            lemma_spec_parse_line_st(s, st_a);
        }
        match parse_line(lexer) {
            Result::Err(e) => {
                return Err(e);
            },
            Result::Ok(Option::None) => {
                let filename = lexer.get_filename().clone();
                return Ok(FirstPassResult { filename, lines, symbol_table });
            },
            Result::Ok(Option::Some(line)) => {
                match fp_step(lexer, line, addr, &mut symbol_table, &mut lines) {
                    Result::Ok(a2) => {
                        addr = a2;
                    },
                    Result::Err(e) => {
                        return Err(e);
                    },
                }
            },
        }
    }
}


} // verus!
