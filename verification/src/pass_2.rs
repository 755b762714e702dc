//! The second pass: writes opcode and operand bytes into a 64 KiB canvas,
//! resolving label references against the symbol table, refusing to
//! overwrite non-zero bytes, and tracking the written range; and the merger
//! that folds the canvases of separate source files together.
//!
//! The executable pass is specified against a functional model:
//! `spec_second_pass` folds `spec_sp_line` over the annotated lines and
//! says exactly which bytes the image holds, or which error stops the
//! encoding.  The pass is a pure function of its input.

use vstd::prelude::*;

use crate::parser::ErrModel;
use crate::parser::ParseError;
use crate::parser::em;
use crate::pass_1::AnnotatedLineModel;
use crate::pass_1::FirstPassResult;
use crate::pass_1::InstructionArgModel;
use crate::pass_1::alines_model;
use crate::pass_1::line_fits;
use crate::pass_1::AnnotatedLine;
use crate::pass_1::InstructionArg;
use crate::pass_1::SymbolTable;

verus! {

// ---------------------------------------------------------------------------
// Images and canvases
// ---------------------------------------------------------------------------

/// The assembled image of one source file (or of several, merged): a 64 KiB
/// canvas and the closed range `[start, end]` actually written.  The empty
/// image has `start = 0xFFFF` and `end = 0`; `start > end` encodes "no
/// bytes written".
#[derive(Debug)]
pub struct AssemblerResult {
    /// The name of the source file, carried for diagnostics.
    pub filename: String,
    pub start: u16,
    pub end: u16,
    /// The full 64 KiB canvas.
    pub bytes: Vec<u8>,
}

pub ghost struct AssemblerResultModel {
    pub filename: Seq<char>,
    pub start: u16,
    pub end: u16,
    pub bytes: Seq<u8>,
}

impl View for AssemblerResult {
    type V = AssemblerResultModel;

    open spec fn view(&self) -> AssemblerResultModel {
        AssemblerResultModel {
            filename: self.filename@,
            start: self.start,
            end: self.end,
            bytes: self.bytes@,
        }
    }
}

impl AssemblerResult {
    /// The canvas covers the whole 16-bit address space.
    pub open spec fn wf(&self) -> bool {
        self.bytes@.len() == 0x10000
    }
}

/// The working state of the second pass: the range written so far and the
/// canvas.
pub ghost struct Canvas {
    pub start: int,
    pub end: int,
    pub bytes: Seq<u8>,
}

/// The canvas every encoding starts from: all zero, range empty.
pub open spec fn empty_canvas() -> Canvas {
    Canvas { start: 0xFFFF, end: 0, bytes: Seq::new(0x10000, |i: int| 0u8) }
}

pub open spec fn canvas_wf(cv: Canvas) -> bool {
    &&& cv.bytes.len() == 0x10000
    &&& 0 <= cv.start <= 0xFFFF
    &&& 0 <= cv.end <= 0xFFFF
}

// ---------------------------------------------------------------------------
// One line of the second pass
// ---------------------------------------------------------------------------

pub open spec fn overwrite_msg() -> Seq<char> {
    "This line overrides previously written code"@
}

pub open spec fn undeclared_msg(label: Seq<char>) -> Seq<char> {
    "Undeclared label '"@ + label + "' used as value"@
}

pub open spec fn byte_for_word_msg(label: Seq<char>) -> Seq<char> {
    "Expected byte, found word "@ + label
}

pub open spec fn too_far_msg(label: Seq<char>) -> Seq<char> {
    "Label '"@ + label + "' is too far away"@
}

/// The displacement byte of a branch: the two's complement of `diff`.
pub open spec fn rel_byte(diff: int) -> u8 {
    (if diff < 0 {
        diff + 256
    } else {
        diff
    }) as u8
}

/// Writes one byte at `i`, provided the cell still holds zero; a non-zero
/// cell means the line overrides previously written code.
pub open spec fn write_byte(cv: Canvas, i: int, b: u8, lino: int) -> Result<Canvas, ErrModel> {
    if cv.bytes[i] != 0 {
        Result::Err(em(lino, overwrite_msg()))
    } else {
        Result::Ok(Canvas { start: cv.start, end: cv.end, bytes: cv.bytes.update(i, b) })
    }
}

/// Writes the two operand bytes of a word, low byte first.
pub open spec fn write_word_operand(cv: Canvas, addr: int, v: u16, lino: int) -> Result<
    Canvas,
    ErrModel,
> {
    match write_byte(cv, addr + 1, (v % 256) as u8, lino) {
        Result::Err(e) => Result::Err(e),
        Result::Ok(cv2) => write_byte(cv2, addr + 2, (v / 256) as u8, lino),
    }
}

/// Encodes one annotated line onto the canvas: places the opcode byte at
/// its address, resolves and places the operand, and widens the written
/// range; zero cells only, and every label must resolve.
pub open spec fn spec_sp_line(l: AnnotatedLineModel, table: Map<Seq<char>, u16>, cv: Canvas)
    -> Result<Canvas, ErrModel> {
    match write_byte(cv, l.addr as int, l.opcode, l.lino) {
        Result::Err(e) => Result::Err(e),
        Result::Ok(cv1) => {
            let start1 = if l.addr < cv.start {
                l.addr as int
            } else {
                cv.start
            };
            let cv1 = Canvas { start: start1, end: cv1.end, bytes: cv1.bytes };
            let last = l.addr + width_arg(l.arg);
            let written: Result<Canvas, ErrModel> = match l.arg {
                InstructionArgModel::NoArgs => Result::Ok(cv1),
                InstructionArgModel::ByteArg(n) => write_byte(cv1, l.addr + 1, n, l.lino),
                InstructionArgModel::WordArg(n) => write_word_operand(cv1, l.addr as int, n, l.lino),
                InstructionArgModel::ByteLabelArg(label) => if table.contains_key(label) {
                    if table[label] < 256 {
                        write_byte(cv1, l.addr + 1, table[label] as u8, l.lino)
                    } else {
                        Result::Err(em(l.lino, byte_for_word_msg(label)))
                    }
                } else {
                    Result::Err(em(l.lino, undeclared_msg(label)))
                },
                InstructionArgModel::ByteLabelLowArg(label) => if table.contains_key(label) {
                    write_byte(cv1, l.addr + 1, (table[label] % 256) as u8, l.lino)
                } else {
                    Result::Err(em(l.lino, undeclared_msg(label)))
                },
                InstructionArgModel::ByteLabelHighArg(label) => if table.contains_key(label) {
                    write_byte(cv1, l.addr + 1, (table[label] / 256) as u8, l.lino)
                } else {
                    Result::Err(em(l.lino, undeclared_msg(label)))
                },
                InstructionArgModel::WordLabelArg(label) => if table.contains_key(label) {
                    write_word_operand(cv1, l.addr as int, table[label], l.lino)
                } else {
                    Result::Err(em(l.lino, undeclared_msg(label)))
                },
                InstructionArgModel::RelativeLabelArg(label) => if table.contains_key(label) {
                    let diff = table[label] - l.addr - 2;
                    if -128 <= diff <= 127 {
                        write_byte(cv1, l.addr + 1, rel_byte(diff), l.lino)
                    } else {
                        Result::Err(em(l.lino, too_far_msg(label)))
                    }
                } else {
                    Result::Err(em(l.lino, undeclared_msg(label)))
                },
            };
            match written {
                Result::Err(e) => Result::Err(e),
                Result::Ok(cv2) => Result::Ok(
                    Canvas {
                        start: cv2.start,
                        end: if cv2.end < last {
                            last
                        } else {
                            cv2.end
                        },
                        bytes: cv2.bytes,
                    },
                ),
            }
        },
    }
}

/// `width_of`, under a local name to keep `spec_sp_line` readable.
pub open spec fn width_arg(arg: InstructionArgModel) -> int {
    crate::pass_1::width_of(arg)
}

/// The lines from index `i` on, encoded onto `cv` in order.
pub open spec fn spec_sp_from(
    lines: Seq<AnnotatedLineModel>,
    i: int,
    table: Map<Seq<char>, u16>,
    cv: Canvas,
) -> Result<Canvas, ErrModel>
    decreases lines.len() - i,
{
    if i < lines.len() {
        match spec_sp_line(lines[i], table, cv) {
            Result::Err(e) => Result::Err(e),
            Result::Ok(cv2) => spec_sp_from(lines, i + 1, table, cv2),
        }
    } else {
        Result::Ok(cv)
    }
}

/// The whole second pass: all lines encoded onto the empty canvas.
pub open spec fn spec_second_pass(lines: Seq<AnnotatedLineModel>, table: Map<Seq<char>, u16>)
    -> Result<Canvas, ErrModel> {
    spec_sp_from(lines, 0, table, empty_canvas())
}


// ---------------------------------------------------------------------------
// Range facts (the written range is exactly meaningful)
// ---------------------------------------------------------------------------

proof fn lemma_sp_line_range(l: AnnotatedLineModel, table: Map<Seq<char>, u16>, cv: Canvas)
    requires
        canvas_wf(cv),
        line_fits(l),
    ensures
        spec_sp_line(l, table, cv) matches Result::Ok(cv2) ==> {
            &&& canvas_wf(cv2)
            &&& cv2.start <= cv.start
            &&& cv2.end >= cv.end
            &&& cv2.start <= l.addr
            &&& cv2.end >= l.addr + width_arg(l.arg)
        },
{
}

proof fn lemma_sp_from_range(
    lines: Seq<AnnotatedLineModel>,
    i: int,
    table: Map<Seq<char>, u16>,
    cv: Canvas,
)
    requires
        canvas_wf(cv),
        0 <= i,
        forall|j: int| 0 <= j < lines.len() ==> line_fits(#[trigger] lines[j]),
    ensures
        spec_sp_from(lines, i, table, cv) matches Result::Ok(cv2) ==> {
            &&& canvas_wf(cv2)
            &&& cv2.start <= cv.start
            &&& cv2.end >= cv.end
            &&& (i < lines.len() ==> cv2.start <= cv2.end)
        },
    decreases lines.len() - i,
{
    if i < lines.len() {
        lemma_sp_line_range(lines[i], table, cv);
        match spec_sp_line(lines[i], table, cv) {
            Result::Ok(cv2) => {
                lemma_sp_from_range(lines, i + 1, table, cv2);
            },
            Result::Err(_) => {},
        }
    }
}

/// The written range `[start, end]` of a successful second pass satisfies
/// `start <= end` exactly when at least one byte was written (that is, when
/// there was at least one line); an empty input leaves the canonical empty
/// range `start = 0xFFFF`, `end = 0`.
pub proof fn lemma_second_pass_range(lines: Seq<AnnotatedLineModel>, table: Map<Seq<char>, u16>)
    requires
        forall|j: int| 0 <= j < lines.len() ==> line_fits(#[trigger] lines[j]),
    ensures
        spec_second_pass(lines, table) matches Result::Ok(cv) ==> {
            &&& (lines.len() > 0 ==> 0 <= cv.start <= cv.end <= 0xFFFF)
            &&& (lines.len() == 0 ==> cv.start == 0xFFFF && cv.end == 0)
        },
{
    lemma_sp_from_range(lines, 0, table, empty_canvas());
}

/// One encoded line touches only cells inside the (widened) written range,
/// so cells outside it keep their contents.
proof fn lemma_sp_line_zero_outside(l: AnnotatedLineModel, table: Map<Seq<char>, u16>, cv: Canvas)
    requires
        canvas_wf(cv),
        line_fits(l),
        forall|j: int| 0 <= j < 0x10000 && !(cv.start <= j <= cv.end) ==> cv.bytes[j] == 0,
    ensures
        spec_sp_line(l, table, cv) matches Result::Ok(cv2) ==> forall|j: int|
            0 <= j < 0x10000 && !(cv2.start <= j <= cv2.end) ==> cv2.bytes[j] == 0,
{
    lemma_sp_line_range(l, table, cv);
    match spec_sp_line(l, table, cv) {
        Result::Ok(cv2) => {
            assert forall|j: int| 0 <= j < 0x10000 && !(cv2.start <= j <= cv2.end) implies cv2
                .bytes[j] == 0 by {
                assert(!(cv.start <= j <= cv.end));
                assert(!(l.addr <= j <= l.addr + width_arg(l.arg)));
            }
        },
        Result::Err(_) => {},
    }
}

proof fn lemma_sp_from_zero_outside(
    lines: Seq<AnnotatedLineModel>,
    i: int,
    table: Map<Seq<char>, u16>,
    cv: Canvas,
)
    requires
        canvas_wf(cv),
        0 <= i,
        forall|j: int| 0 <= j < lines.len() ==> line_fits(#[trigger] lines[j]),
        forall|j: int| 0 <= j < 0x10000 && !(cv.start <= j <= cv.end) ==> cv.bytes[j] == 0,
    ensures
        spec_sp_from(lines, i, table, cv) matches Result::Ok(cv2) ==> forall|j: int|
            0 <= j < 0x10000 && !(cv2.start <= j <= cv2.end) ==> cv2.bytes[j] == 0,
    decreases lines.len() - i,
{
    if i < lines.len() {
        lemma_sp_line_range(lines[i], table, cv);
        lemma_sp_line_zero_outside(lines[i], table, cv);
        match spec_sp_line(lines[i], table, cv) {
            Result::Ok(cv2) => {
                lemma_sp_from_zero_outside(lines, i + 1, table, cv2);
            },
            Result::Err(_) => {},
        }
    }
}

/// Every cell outside the written range `[start, end]` of a successful
/// second pass holds zero.
pub proof fn lemma_second_pass_zero_outside(
    lines: Seq<AnnotatedLineModel>,
    table: Map<Seq<char>, u16>,
)
    requires
        forall|j: int| 0 <= j < lines.len() ==> line_fits(#[trigger] lines[j]),
    ensures
        spec_second_pass(lines, table) matches Result::Ok(cv) ==> forall|j: int|
            0 <= j < 0x10000 && !(cv.start <= j <= cv.end) ==> cv.bytes[j] == 0,
{
    lemma_sp_from_zero_outside(lines, 0, table, empty_canvas());
}

/// The second pass is a pure function of its input: equal lines and equal
/// symbol tables assemble to identical images.
pub proof fn lemma_second_pass_pure(
    lines1: Seq<AnnotatedLineModel>,
    table1: Map<Seq<char>, u16>,
    lines2: Seq<AnnotatedLineModel>,
    table2: Map<Seq<char>, u16>,
)
    requires
        lines1 == lines2,
        table1 == table2,
    ensures
        spec_second_pass(lines1, table1) == spec_second_pass(lines2, table2),
{
}

/// A branch line is encoded exactly when its displacement, measured from
/// the byte after the two-byte instruction, lies in `[-128, 127]`; the
/// encoded byte is the displacement's two's complement.
pub proof fn lemma_branch_displacement_window(
    l: AnnotatedLineModel,
    label: Seq<char>,
    table: Map<Seq<char>, u16>,
    cv: Canvas,
)
    requires
        canvas_wf(cv),
        line_fits(l),
        l.arg == InstructionArgModel::RelativeLabelArg(label),
        table.contains_key(label),
        cv.bytes[l.addr as int] == 0,
        cv.bytes[l.addr + 1] == 0,
    ensures
        spec_sp_line(l, table, cv) is Ok <==> -128 <= table[label] - l.addr - 2 <= 127,
        spec_sp_line(l, table, cv) matches Result::Ok(cv2) ==> cv2.bytes[l.addr + 1] == rel_byte(
            table[label] - l.addr - 2,
        ),
{
}

// ---------------------------------------------------------------------------
// The executable second pass
// ---------------------------------------------------------------------------

/// A fresh all-zero 64 KiB canvas.
fn zero_canvas() -> (v: Vec<u8>)
    ensures
        v@ == empty_canvas().bytes,
{
    let mut v: Vec<u8> = Vec::new();
    let mut i: usize = 0;
    while i < 0x10000
        invariant
            i <= 0x10000,
            v@.len() == i,
            forall|j: int| 0 <= j < i ==> v@[j] == 0u8,
        decreases 0x10000 - i,
    {
        v.push(0);
        i = i + 1;
    }
    proof {
        assert(v@ =~= empty_canvas().bytes);
    }
    v
}

/// An error record of the second pass, in file `fname` at line `lino`.
fn sp_error<T>(fname: &String, lino: u32, message: String) -> (r: Result<T, ParseError>)
    ensures
        r matches Err(e) && e.filename@ == fname@ && e.lino == lino && e.message@ == message@,
{
    Err(ParseError { filename: fname.clone(), lino, message })
}

/// "Undeclared label '<label>' used as value".
fn undeclared_message(label: &String) -> (m: String)
    ensures
        m@ == undeclared_msg(label@),
{
    let mut m = "Undeclared label '".to_owned();
    m.append(label.as_str());
    m.append("' used as value");
    m
}

/// Encodes one annotated line onto the canvas, as `spec_sp_line` describes.
#[verifier::rlimit(100)]
fn sp_line(
    fname: &String,
    line: &AnnotatedLine,
    table: &SymbolTable,
    start: &mut u16,
    end: &mut u16,
    bytes: &mut Vec<u8>,
) -> (r: Result<(), ParseError>)
    requires
        table.wf(),
        old(bytes)@.len() == 0x10000,
        line_fits(line@),
    ensures
        ({
            let cv0 = Canvas {
                start: *old(start) as int,
                end: *old(end) as int,
                bytes: old(bytes)@,
            };
            match (r, spec_sp_line(line@, table@, cv0)) {
                (Result::Ok(()), Result::Ok(cv2)) => {
                    &&& *final(start) as int == cv2.start
                    &&& *final(end) as int == cv2.end
                    &&& final(bytes)@ == cv2.bytes
                },
                (Result::Err(e), Result::Err(me)) => e.filename@ == fname@ && e.lino == me.lino
                    && e.message@ == me.msg && final(bytes)@.len() == 0x10000,
                _ => false,
            }
        }),
{
    let ai = line.addr as usize;
    if bytes[ai] != 0 {
        return sp_error(fname, line.lino, "This line overrides previously written code".to_owned());
    }
    bytes[ai] = line.opcode;
    if line.addr < *start {
        *start = line.addr;
    }
    let last: u16;
    match &line.arg {
        InstructionArg::NoArgs => {
            last = line.addr;
        },
        InstructionArg::ByteArg(n) => {
            last = line.addr + 1;
            if bytes[last as usize] != 0 {
                return sp_error(
                    fname,
                    line.lino,
                    "This line overrides previously written code".to_owned(),
                );
            }
            bytes[last as usize] = *n;
        },
        InstructionArg::WordArg(n) => {
            last = line.addr + 2;
            if bytes[ai + 1] != 0 {
                return sp_error(
                    fname,
                    line.lino,
                    "This line overrides previously written code".to_owned(),
                );
            }
            bytes[ai + 1] = (*n % 256) as u8;
            if bytes[last as usize] != 0 {
                return sp_error(
                    fname,
                    line.lino,
                    "This line overrides previously written code".to_owned(),
                );
            }
            bytes[last as usize] = (*n / 256) as u8;
        },
        InstructionArg::ByteLabelArg(label) => {
            last = line.addr + 1;
            match table.get(label.as_str()) {
                Option::Some(v) => {
                    if v < 256 {
                        if bytes[last as usize] != 0 {
                            return sp_error(
                                fname,
                                line.lino,
                                "This line overrides previously written code".to_owned(),
                            );
                        }
                        bytes[last as usize] = v as u8;
                    } else {
                        let mut m = "Expected byte, found word ".to_owned();
                        m.append(label.as_str());
                        return sp_error(fname, line.lino, m);
                    }
                },
                Option::None => {
                    return sp_error(fname, line.lino, undeclared_message(label));
                },
            }
        },
        InstructionArg::ByteLabelLowArg(label) => {
            last = line.addr + 1;
            match table.get(label.as_str()) {
                Option::Some(v) => {
                    if bytes[last as usize] != 0 {
                        return sp_error(
                            fname,
                            line.lino,
                            "This line overrides previously written code".to_owned(),
                        );
                    }
                    bytes[last as usize] = (v % 256) as u8;
                },
                Option::None => {
                    return sp_error(fname, line.lino, undeclared_message(label));
                },
            }
        },
        InstructionArg::ByteLabelHighArg(label) => {
            last = line.addr + 1;
            match table.get(label.as_str()) {
                Option::Some(v) => {
                    if bytes[last as usize] != 0 {
                        return sp_error(
                            fname,
                            line.lino,
                            "This line overrides previously written code".to_owned(),
                        );
                    }
                    bytes[last as usize] = (v / 256) as u8;
                },
                Option::None => {
                    return sp_error(fname, line.lino, undeclared_message(label));
                },
            }
        },
        InstructionArg::WordLabelArg(label) => {
            last = line.addr + 2;
            match table.get(label.as_str()) {
                Option::Some(v) => {
                    if bytes[ai + 1] != 0 {
                        return sp_error(
                            fname,
                            line.lino,
                            "This line overrides previously written code".to_owned(),
                        );
                    }
                    bytes[ai + 1] = (v % 256) as u8;
                    if bytes[last as usize] != 0 {
                        return sp_error(
                            fname,
                            line.lino,
                            "This line overrides previously written code".to_owned(),
                        );
                    }
                    bytes[last as usize] = (v / 256) as u8;
                },
                Option::None => {
                    return sp_error(fname, line.lino, undeclared_message(label));
                },
            }
        },
        InstructionArg::RelativeLabelArg(label) => {
            last = line.addr + 1;
            match table.get(label.as_str()) {
                Option::Some(v) => {
                    let diff: i32 = (v as i32) - (line.addr as i32) - 2;
                    if -128 <= diff && diff <= 127 {
                        if bytes[last as usize] != 0 {
                            return sp_error(
                                fname,
                                line.lino,
                                "This line overrides previously written code".to_owned(),
                            );
                        }
                        let b: u8 = (if diff < 0 {
                            diff + 256
                        } else {
                            diff
                        }) as u8;
                        bytes[last as usize] = b;
                    } else {
                        let mut m = "Label '".to_owned();
                        m.append(label.as_str());
                        m.append("' is too far away");
                        return sp_error(fname, line.lino, m);
                    }
                },
                Option::None => {
                    return sp_error(fname, line.lino, undeclared_message(label));
                },
            }
        },
    }
    if *end < last {
        *end = last;
    }
    Ok(())
}

/// Runs the second pass: encodes the annotated lines into a 64 KiB image,
/// exactly as `spec_second_pass` describes, resolving labels against the
/// symbol table.  On success the written range `[start, end]` is proper
/// (`start <= end`) exactly when there was at least one line; with no lines
/// it is the canonical empty range `start = 0xFFFF`, `end = 0`.
pub fn second_pass(first_pass: FirstPassResult) -> (r: Result<AssemblerResult, ParseError>)
    requires
        first_pass.symbol_table.wf(),
        forall|i: int|
            0 <= i < alines_model(first_pass.lines@).len() ==> line_fits(
                #[trigger] alines_model(first_pass.lines@)[i],
            ),
    ensures
        ({
            let res = spec_second_pass(alines_model(first_pass.lines@), first_pass.symbol_table@);
            match (r, res) {
                (Result::Ok(img), Result::Ok(cv)) => {
                    &&& img.wf()
                    &&& img@.filename == first_pass.filename@
                    &&& img@.start as int == cv.start
                    &&& img@.end as int == cv.end
                    &&& img@.bytes == cv.bytes
                    &&& (first_pass.lines@.len() > 0 ==> img@.start <= img@.end)
                    &&& (first_pass.lines@.len() == 0 ==> img@.start == 0xFFFF && img@.end == 0)
                },
                (Result::Err(e), Result::Err(me)) => e.filename@ == first_pass.filename@ && e.lino
                    == me.lino && e.message@ == me.msg,
                _ => false,
            }
        }),
{
    let FirstPassResult { filename, lines, symbol_table } = first_pass;
    proof {
        lemma_second_pass_range(alines_model(lines@), symbol_table@);
    }
    let mut start: u16 = 0xFFFF;
    let mut end: u16 = 0;
    let mut bytes = zero_canvas();
    let mut i: usize = 0;
    loop
        invariant
            lines@ == first_pass.lines@,
            symbol_table == first_pass.symbol_table,
            filename@ == first_pass.filename@,
            symbol_table.wf(),
            forall|j: int|
                0 <= j < alines_model(lines@).len() ==> line_fits(
                    #[trigger] alines_model(lines@)[j],
                ),
            i <= lines@.len(),
            bytes@.len() == 0x10000,
            spec_second_pass(alines_model(lines@), symbol_table@) == spec_sp_from(
                alines_model(lines@),
                i as int,
                symbol_table@,
                Canvas { start: start as int, end: end as int, bytes: bytes@ },
            ),
            spec_second_pass(alines_model(lines@), symbol_table@) matches Result::Ok(cv) ==> {
                &&& (lines@.len() > 0 ==> 0 <= cv.start <= cv.end <= 0xFFFF)
                &&& (lines@.len() == 0 ==> cv.start == 0xFFFF && cv.end == 0)
            },
        decreases lines@.len() - i,
    {
        if i >= lines.len() {
            return Ok(AssemblerResult { filename, start, end, bytes });
        }
        let line = &lines[i];
        proof {
            assert(alines_model(lines@)[i as int] == line@);
        }
        match sp_line(&filename, line, &symbol_table, &mut start, &mut end, &mut bytes) {
            Result::Ok(()) => {
                i = i + 1;
            },
            Result::Err(e) => {
                return Err(e);
            },
        }
    }
}

// ---------------------------------------------------------------------------
// Merging images
// ---------------------------------------------------------------------------

/// The second image overlaps the first's non-empty written range.
pub open spec fn merge_overlaps(a: AssemblerResultModel, o: AssemblerResultModel) -> bool {
    ((o.start <= a.start && a.start <= o.end) || (o.start <= a.end && a.end <= o.end)) && !(a.start
        == 0xFFFF && a.end == 0)
}

pub open spec fn merge_err_msg(a: Seq<char>, o: Seq<char>) -> Seq<char> {
    "Could not merge "@ + a + " with "@ + o + " (possible overwriting)"@
}

/// The merge of `o` into `a`: refused on overlap, and otherwise the union
/// of the ranges, with `o`'s bytes copied over its own range.
pub open spec fn spec_merge(a: AssemblerResultModel, o: AssemblerResultModel) -> Result<
    AssemblerResultModel,
    Seq<char>,
> {
    if merge_overlaps(a, o) {
        Result::Err(merge_err_msg(a.filename, o.filename))
    } else {
        Result::Ok(
            AssemblerResultModel {
                filename: a.filename,
                start: if o.start < a.start {
                    o.start
                } else {
                    a.start
                },
                end: if o.end > a.end {
                    o.end
                } else {
                    a.end
                },
                bytes: Seq::new(
                    0x10000,
                    |j: int|
                        if o.start <= j <= o.end {
                            o.bytes[j]
                        } else {
                            a.bytes[j]
                        },
                ),
            },
        )
    }
}

impl AssemblerResult {
    /// Merges `other` into `self`, as `spec_merge` describes: refused (and
    /// `self` left unchanged) when `other`'s written range overlaps
    /// `self`'s non-empty one; otherwise the ranges union and `other`'s
    /// bytes are copied over its own range.
    pub fn merge(&mut self, other: &AssemblerResult) -> (r: Result<(), String>)
        requires
            old(self).wf(),
            other.wf(),
        ensures
            final(self).wf(),
            match (r, spec_merge(old(self)@, other@)) {
                (Result::Ok(()), Result::Ok(m)) => final(self)@ == m,
                (Result::Err(s), Result::Err(ms)) => s@ == ms && final(self)@ == old(self)@,
                _ => false,
            },
    {
        if ((other.start <= self.start && self.start <= other.end) || (other.start <= self.end
            && self.end <= other.end)) && !(self.start == 0xFFFF && self.end == 0) {
            let mut m = "Could not merge ".to_owned();
            m.append(self.filename.as_str());
            m.append(" with ");
            m.append(other.filename.as_str());
            m.append(" (possible overwriting)");
            Err(m)
        } else {
            if other.start < self.start {
                self.start = other.start;
            }
            if other.end > self.end {
                self.end = other.end;
            }
            let mut i: usize = other.start as usize;
            while i <= other.end as usize
                invariant
                    other.wf(),
                    self.bytes@.len() == 0x10000,
                    other.start as int <= i,
                    i <= 0x10000,
                    i as int <= other.end + 1 || i as int == other.start as int,
                    self.filename@ == old(self)@.filename,
                    self.start == (if other.start < old(self).start {
                        other.start
                    } else {
                        old(self).start
                    }),
                    self.end == (if other.end > old(self).end {
                        other.end
                    } else {
                        old(self).end
                    }),
                    forall|j: int|
                        0 <= j < 0x10000 ==> #[trigger] self.bytes@[j] == (if other.start <= j
                            < i {
                            other.bytes@[j]
                        } else {
                            old(self).bytes@[j]
                        }),
                decreases other.end + 1 - i,
            {
                let b = other.bytes[i];
                self.bytes[i] = b;
                i = i + 1;
            }
            proof {
                assert(self.bytes@ =~= spec_merge(old(self)@, other@)->Ok_0.bytes);
            }
            Ok(())
        }
    }
}

} // verus!
