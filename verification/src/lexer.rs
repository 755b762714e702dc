//! The scanner: splits the source text into tokens.
//!
//! The executable `Lexer` is specified against a functional model of the
//! scanner: `spec_next` says, for a given text and scanner position, exactly
//! which token comes next and where the scanner stands afterwards.  The text
//! held by a `Lexer` always ends in one appended space, which guarantees that
//! every token is followed by at least one more character; `spec_next` is
//! stated for such texts only (see `wf_text`).

use vstd::prelude::*;

use crate::text::str_eq;

verus! {

// ---------------------------------------------------------------------------
// Token values and their models
// ---------------------------------------------------------------------------

/// The value carried by a token.
#[derive(Debug)]
pub enum TokenValue {
    /// A scan error, carrying its message.
    Error(String),
    // Parentheses
    LParen,
    RParen,
    // Miscellaneous characters
    Colon,
    Comma,
    Newline,
    LT,
    GT,
    Dot,
    Hash,
    /// A symbol: labels, opcodes, pragma names.
    Symbol(String),
    // Numeric literals, by radix prefix
    Bin(u16),
    Oct(u16),
    Dec(u16),
    Hex(u16),
    /// A quoted string.
    String(String),
}

/// The mathematical value of a `TokenValue`: the same variants over
/// sequences of characters.
pub ghost enum TokenValueModel {
    Error(Seq<char>),
    LParen,
    RParen,
    Colon,
    Comma,
    Newline,
    LT,
    GT,
    Dot,
    Hash,
    Symbol(Seq<char>),
    Bin(u16),
    Oct(u16),
    Dec(u16),
    Hex(u16),
    String(Seq<char>),
}

impl View for TokenValue {
    type V = TokenValueModel;

    open spec fn view(&self) -> TokenValueModel {
        match self {
            TokenValue::Error(s) => TokenValueModel::Error(s@),
            TokenValue::LParen => TokenValueModel::LParen,
            TokenValue::RParen => TokenValueModel::RParen,
            TokenValue::Colon => TokenValueModel::Colon,
            TokenValue::Comma => TokenValueModel::Comma,
            TokenValue::Newline => TokenValueModel::Newline,
            TokenValue::LT => TokenValueModel::LT,
            TokenValue::GT => TokenValueModel::GT,
            TokenValue::Dot => TokenValueModel::Dot,
            TokenValue::Hash => TokenValueModel::Hash,
            TokenValue::Symbol(s) => TokenValueModel::Symbol(s@),
            TokenValue::Bin(n) => TokenValueModel::Bin(*n),
            TokenValue::Oct(n) => TokenValueModel::Oct(*n),
            TokenValue::Dec(n) => TokenValueModel::Dec(*n),
            TokenValue::Hex(n) => TokenValueModel::Hex(*n),
            TokenValue::String(s) => TokenValueModel::String(s@),
        }
    }
}

/// A token, carrying the position of its first character.
#[derive(Debug)]
pub struct Token {
    /// Character offset of the token's first character in the scanned text.
    pub pos: usize,
    /// 1-based line number of the token's first character.
    pub lino: u32,
    /// 0-based column of the token's first character; columns restart at 0
    /// after each newline.
    pub charpos: u32,
    /// The value of the token.
    pub value: TokenValue,
}

/// The mathematical value of a `Token`.
pub ghost struct TokenModel {
    pub pos: int,
    pub lino: int,
    pub charpos: int,
    pub value: TokenValueModel,
}

impl View for Token {
    type V = TokenModel;

    open spec fn view(&self) -> TokenModel {
        TokenModel {
            pos: self.pos as int,
            lino: self.lino as int,
            charpos: self.charpos as int,
            value: self.value@,
        }
    }
}

/// The model of an optional token.
pub open spec fn opt_token_model(t: Option<Token>) -> Option<TokenModel> {
    match t {
        Option::Some(tok) => Option::Some(tok@),
        Option::None => Option::None,
    }
}

// ---------------------------------------------------------------------------
// Scanner positions
// ---------------------------------------------------------------------------

/// A saved scanner position, used to rewind after lookahead.
#[derive(Debug, Clone, Copy, PartialEq, Eq, Structural)]
pub struct LexerState {
    pub pos: usize,
    pub lino: u32,
    pub charpos: u32,
}

/// The mathematical value of a scanner position.
pub ghost struct LexState {
    pub pos: int,
    pub lino: int,
    pub charpos: int,
}

impl View for LexerState {
    type V = LexState;

    open spec fn view(&self) -> LexState {
        LexState { pos: self.pos as int, lino: self.lino as int, charpos: self.charpos as int }
    }
}

/// A scannable text: non-empty, ending in the appended sentinel space, and
/// short enough that the 32-bit line and column counters cannot overflow.
pub open spec fn wf_text(s: Seq<char>) -> bool {
    &&& s.len() >= 1
    &&& s[s.len() - 1] == ' '
    &&& s.len() + 1 < 0x1_0000_0000
}

/// A valid scanner position within text `s`.
pub open spec fn wf_state(s: Seq<char>, st: LexState) -> bool {
    &&& 0 <= st.pos <= s.len()
    &&& 1 <= st.lino <= st.pos + 1
    &&& 0 <= st.charpos <= st.pos
}

// ---------------------------------------------------------------------------
// Character classes
// ---------------------------------------------------------------------------

pub open spec fn is_sym_start(c: char) -> bool {
    ('a' <= c && c <= 'z') || ('A' <= c && c <= 'Z') || c == '_'
}

pub open spec fn is_sym_char(c: char) -> bool {
    is_sym_start(c) || ('0' <= c && c <= '9')
}

pub open spec fn is_bin_digit(c: char) -> bool {
    c == '0' || c == '1'
}

pub open spec fn is_oct_digit(c: char) -> bool {
    '0' <= c && c <= '7'
}

pub open spec fn is_dec_digit(c: char) -> bool {
    '0' <= c && c <= '9'
}

pub open spec fn is_hex_digit(c: char) -> bool {
    ('0' <= c && c <= '9') || ('a' <= c && c <= 'f') || ('A' <= c && c <= 'F')
}

/// The continuation class of a symbol, as a predicate value.
pub open spec fn sym_pred() -> spec_fn(char) -> bool {
    |ch: char| is_sym_char(ch)
}

/// The digit class of the given radix, as a predicate value.
pub open spec fn radix_pred(radix: u32) -> spec_fn(char) -> bool {
    if radix == 2 {
        |ch: char| is_bin_digit(ch)
    } else if radix == 8 {
        |ch: char| is_oct_digit(ch)
    } else if radix == 10 {
        |ch: char| is_dec_digit(ch)
    } else {
        |ch: char| is_hex_digit(ch)
    }
}

/// Everything but a double quote, as a predicate value.
pub open spec fn nonquote_pred() -> spec_fn(char) -> bool {
    |ch: char| ch != '"'
}

// ---------------------------------------------------------------------------
// Runs of characters
// ---------------------------------------------------------------------------

/// The first index at or after `i` whose character fails `p`, or the length
/// of `s` if every character from `i` on satisfies `p`.
pub open spec fn scan_end(s: Seq<char>, i: int, p: spec_fn(char) -> bool) -> int
    decreases s.len() - i,
{
    if i < s.len() && p(s[i]) {
        scan_end(s, i + 1, p)
    } else {
        i
    }
}

pub proof fn lemma_scan_end(s: Seq<char>, i: int, p: spec_fn(char) -> bool)
    requires
        0 <= i <= s.len(),
    ensures
        i <= scan_end(s, i, p) <= s.len(),
        forall|j: int| i <= j < scan_end(s, i, p) ==> p(#[trigger] s[j]),
        scan_end(s, i, p) < s.len() ==> !p(s[scan_end(s, i, p)]),
    decreases s.len() - i,
{
    if i < s.len() && p(s[i]) {
        lemma_scan_end(s, i + 1, p);
    }
}

/// Stepping the start of a run over a character that satisfies `p` does not
/// move its end.
pub proof fn lemma_scan_end_step(s: Seq<char>, i: int, p: spec_fn(char) -> bool)
    requires
        0 <= i < s.len(),
        p(s[i]),
    ensures
        scan_end(s, i, p) == scan_end(s, i + 1, p),
{
}

// ---------------------------------------------------------------------------
// Numeric values
// ---------------------------------------------------------------------------

/// The value of one digit character; hexadecimal letters of either case are
/// accepted, anything else counts 0.
pub open spec fn digit_val(c: char) -> int {
    if '0' <= c && c <= '9' {
        c as u32 - '0' as u32
    } else if 'a' <= c && c <= 'f' {
        c as u32 - 'a' as u32 + 10
    } else if 'A' <= c && c <= 'F' {
        c as u32 - 'A' as u32 + 10
    } else {
        0
    }
}

/// The value of a digit string read in the given radix.
pub open spec fn radix_val(s: Seq<char>, radix: int) -> int
    decreases s.len(),
{
    if s.len() == 0 {
        0
    } else {
        radix_val(s.drop_last(), radix) * radix + digit_val(s.last())
    }
}

pub proof fn lemma_radix_val_nonneg(s: Seq<char>, radix: int)
    requires
        radix >= 2,
    ensures
        radix_val(s, radix) >= 0,
    decreases s.len(),
{
    if s.len() > 0 {
        lemma_radix_val_nonneg(s.drop_last(), radix);
        assert(digit_val(s.last()) >= 0);
    }
}

/// Extending a digit string can only increase its value.
pub proof fn lemma_radix_val_extend(a: Seq<char>, b: Seq<char>, radix: int)
    requires
        radix >= 2,
    ensures
        radix_val(a, radix) <= radix_val(a + b, radix),
    decreases b.len(),
{
    if b.len() == 0 {
        assert(a + b =~= a);
    } else {
        lemma_radix_val_extend(a, b.drop_last(), radix);
        assert((a + b).drop_last() =~= a + b.drop_last());
        assert((a + b).len() > 0);
        lemma_radix_val_nonneg((a + b).drop_last(), radix);
        assert(radix_val(a + b, radix) == radix_val((a + b).drop_last(), radix) * radix + digit_val(
            (a + b).last(),
        ));
        assert(radix_val((a + b).drop_last(), radix) * radix >= radix_val(
            (a + b).drop_last(),
            radix,
        )) by (nonlinear_arith)
            requires
                radix >= 2,
                radix_val((a + b).drop_last(), radix) >= 0,
        ;
        assert(digit_val((a + b).last()) >= 0);
    }
}

/// The message a malformed or overflowing numeric literal scans to.
pub open spec fn invalid_int_msg(txt: Seq<char>) -> Seq<char> {
    "'"@ + txt + "' is an invalid 16 bit integer"@
}

/// The token value of a numeric literal whose digit run is `txt`: its value
/// in the given radix if the run is non-empty and fits 16 bits, and an error
/// otherwise.  `mk` builds the radix-specific token variant.
pub open spec fn num_token_value(txt: Seq<char>, radix: int, mk: spec_fn(u16) -> TokenValueModel)
    -> TokenValueModel {
    if txt.len() == 0 || radix_val(txt, radix) > 0xFFFF {
        TokenValueModel::Error(invalid_int_msg(txt))
    } else {
        mk(radix_val(txt, radix) as u16)
    }
}

// ---------------------------------------------------------------------------
// Whitespace and comments
// ---------------------------------------------------------------------------

/// The scanner position after skipping spaces, tabs and `;` comments
/// (a comment runs through and consumes its terminating newline).
pub open spec fn spec_skip_ws(s: Seq<char>, pos: int, lino: int, charpos: int, com: bool)
    -> LexState
    decreases s.len() - pos,
{
    if pos < s.len() {
        let c = s[pos];
        if com && c == '\n' {
            spec_skip_ws(s, pos + 1, lino + 1, 0, false)
        } else if c == ' ' || c == '\t' || com {
            spec_skip_ws(s, pos + 1, lino, charpos + 1, com)
        } else if c == ';' {
            spec_skip_ws(s, pos + 1, lino, charpos + 1, true)
        } else {
            LexState { pos, lino, charpos }
        }
    } else {
        LexState { pos, lino, charpos }
    }
}

pub proof fn lemma_spec_skip_ws(s: Seq<char>, pos: int, lino: int, charpos: int, com: bool)
    requires
        0 <= pos <= s.len(),
        1 <= lino <= pos + 1,
        0 <= charpos <= pos,
    ensures
        ({
            let r = spec_skip_ws(s, pos, lino, charpos, com);
            &&& pos <= r.pos <= s.len()
            &&& 1 <= r.lino <= r.pos + 1
            &&& 0 <= r.charpos <= r.pos
            &&& r.pos < s.len() ==> s[r.pos] != ' ' && s[r.pos] != '\t' && s[r.pos] != ';'
        }),
    decreases s.len() - pos,
{
    if pos < s.len() {
        let c = s[pos];
        if com && c == '\n' {
            lemma_spec_skip_ws(s, pos + 1, lino + 1, 0, false);
        } else if c == ' ' || c == '\t' || com {
            lemma_spec_skip_ws(s, pos + 1, lino, charpos + 1, com);
        } else if c == ';' {
            lemma_spec_skip_ws(s, pos + 1, lino, charpos + 1, true);
        }
    }
}

// ---------------------------------------------------------------------------
// Line and column bookkeeping inside string literals
// ---------------------------------------------------------------------------

/// Line and column counters after scanning `content`: each newline advances
/// the line and restarts the column at 0, any other character advances the
/// column.
pub open spec fn advance_text_pos(content: Seq<char>, lino: int, charpos: int) -> (int, int)
    decreases content.len(),
{
    if content.len() == 0 {
        (lino, charpos)
    } else {
        let r = advance_text_pos(content.drop_last(), lino, charpos);
        if content.last() == '\n' {
            (r.0 + 1, 0)
        } else {
            (r.0, r.1 + 1)
        }
    }
}

pub proof fn lemma_advance_text_pos(content: Seq<char>, lino: int, charpos: int)
    requires
        lino >= 1,
        charpos >= 0,
    ensures
        ({
            let r = advance_text_pos(content, lino, charpos);
            &&& lino <= r.0 <= lino + content.len()
            &&& 0 <= r.1 <= charpos + content.len()
        }),
    decreases content.len(),
{
    if content.len() > 0 {
        lemma_advance_text_pos(content.drop_last(), lino, charpos);
    }
}

// ---------------------------------------------------------------------------
// The scanner model
// ---------------------------------------------------------------------------

/// A token at position `st1` with value `v`.
pub open spec fn tok_at(st1: LexState, v: TokenValueModel) -> TokenModel {
    TokenModel { pos: st1.pos, lino: st1.lino, charpos: st1.charpos, value: v }
}

/// The next token of text `s` from position `st`, with the position after
/// it; `None` exactly when only whitespace and comments remain.
pub open spec fn spec_next(s: Seq<char>, st: LexState) -> (Option<TokenModel>, LexState) {
    let st1 = spec_skip_ws(s, st.pos, st.lino, st.charpos, false);
    let start = st1.pos;
    let lino = st1.lino;
    let cp = st1.charpos;
    if start >= s.len() {
        (Option::None, st1)
    } else {
        let c = s[start];
        if c == '(' {
            (
                Option::Some(tok_at(st1, TokenValueModel::LParen)),
                LexState { pos: start + 1, lino, charpos: cp + 1 },
            )
        } else if c == ')' {
            (
                Option::Some(tok_at(st1, TokenValueModel::RParen)),
                LexState { pos: start + 1, lino, charpos: cp + 1 },
            )
        } else if c == ':' {
            (
                Option::Some(tok_at(st1, TokenValueModel::Colon)),
                LexState { pos: start + 1, lino, charpos: cp + 1 },
            )
        } else if c == ',' {
            (
                Option::Some(tok_at(st1, TokenValueModel::Comma)),
                LexState { pos: start + 1, lino, charpos: cp + 1 },
            )
        } else if c == '\n' {
            (
                Option::Some(tok_at(st1, TokenValueModel::Newline)),
                LexState { pos: start + 1, lino: lino + 1, charpos: 0 },
            )
        } else if c == '<' {
            (
                Option::Some(tok_at(st1, TokenValueModel::LT)),
                LexState { pos: start + 1, lino, charpos: cp + 1 },
            )
        } else if c == '>' {
            (
                Option::Some(tok_at(st1, TokenValueModel::GT)),
                LexState { pos: start + 1, lino, charpos: cp + 1 },
            )
        } else if c == '.' {
            (
                Option::Some(tok_at(st1, TokenValueModel::Dot)),
                LexState { pos: start + 1, lino, charpos: cp + 1 },
            )
        } else if c == '#' {
            (
                Option::Some(tok_at(st1, TokenValueModel::Hash)),
                LexState { pos: start + 1, lino, charpos: cp + 1 },
            )
        } else if is_sym_start(c) {
            let end = scan_end(s, start, sym_pred());
            (
                Option::Some(tok_at(st1, TokenValueModel::Symbol(s.subrange(start, end)))),
                LexState { pos: end, lino, charpos: cp + (end - start) },
            )
        } else if c == '%' {
            let end = scan_end(s, start + 1, radix_pred(2));
            let txt = s.subrange(start + 1, end);
            (
                Option::Some(
                    tok_at(st1, num_token_value(txt, 2, |n: u16| TokenValueModel::Bin(n))),
                ),
                LexState { pos: end, lino, charpos: cp + (end - start) },
            )
        } else if c == '0' {
            let end = scan_end(s, start + 1, radix_pred(8));
            if end == start + 1 {
                // A lone `0` (no octal digits follow) reads as decimal zero.
                (
                    Option::Some(tok_at(st1, TokenValueModel::Dec(0))),
                    LexState { pos: start + 1, lino, charpos: cp + 1 },
                )
            } else {
                let txt = s.subrange(start + 1, end);
                (
                    Option::Some(
                        tok_at(st1, num_token_value(txt, 8, |n: u16| TokenValueModel::Oct(n))),
                    ),
                    LexState { pos: end, lino, charpos: cp + (end - start) },
                )
            }
        } else if '1' <= c && c <= '9' {
            let end = scan_end(s, start + 1, radix_pred(10));
            let txt = s.subrange(start, end);
            (
                Option::Some(
                    tok_at(st1, num_token_value(txt, 10, |n: u16| TokenValueModel::Dec(n))),
                ),
                LexState { pos: end, lino, charpos: cp + (end - start) },
            )
        } else if c == '$' {
            let end = scan_end(s, start + 1, radix_pred(16));
            let txt = s.subrange(start + 1, end);
            (
                Option::Some(
                    tok_at(st1, num_token_value(txt, 16, |n: u16| TokenValueModel::Hex(n))),
                ),
                LexState { pos: end, lino, charpos: cp + (end - start) },
            )
        } else if c == '"' {
            let q = scan_end(s, start + 1, nonquote_pred());
            if q < s.len() {
                // Closing quote found: the characters between the quotes.
                let content = s.subrange(start + 1, q);
                let r = advance_text_pos(content, lino, cp + 1);
                (
                    Option::Some(tok_at(st1, TokenValueModel::String(content))),
                    LexState { pos: q + 1, lino: r.0, charpos: r.1 },
                )
            } else {
                // No closing quote before the end of the text: an error
                // carrying the partial content, opening quote included.
                let content = s.subrange(start, s.len() - 1);
                let r = advance_text_pos(s.subrange(start + 1, s.len() - 1), lino, cp + 1);
                (
                    Option::Some(tok_at(st1, TokenValueModel::Error(content))),
                    LexState { pos: s.len() - 1, lino: r.0, charpos: r.1 },
                )
            }
        } else {
            // Any other character is an error token of exactly one character.
            (
                Option::Some(
                    tok_at(
                        st1,
                        TokenValueModel::Error(
                            "Invalid token '"@ + s.subrange(start, start + 1) + "'"@,
                        ),
                    ),
                ),
                LexState { pos: start + 1, lino, charpos: cp + 1 },
            )
        }
    }
}

/// The scanner model only moves forward, stays inside the text, keeps
/// positions well formed, and consumes at least one character whenever it
/// yields a token; it yields `None` only at the very end of the text.
pub proof fn lemma_spec_next(s: Seq<char>, st: LexState)
    requires
        wf_text(s),
        wf_state(s, st),
    ensures
        ({
            let (t, st2) = spec_next(s, st);
            &&& wf_state(s, st2)
            &&& st.pos <= st2.pos
            &&& (t is Some ==> st2.pos > st.pos)
            &&& (t is None ==> st2.pos == s.len())
        }),
{
    lemma_spec_skip_ws(s, st.pos, st.lino, st.charpos, false);
    let st1 = spec_skip_ws(s, st.pos, st.lino, st.charpos, false);
    let start = st1.pos;
    if start < s.len() {
        let c = s[start];
        // The sentinel space ends the text, and skipping whitespace never
        // stops on a space, so at least one character follows.
        assert(s[s.len() - 1] == ' ');
        assert(c != ' ');
        assert(start < s.len() - 1);
        if is_sym_start(c) {
            let p = sym_pred();
            lemma_scan_end(s, start, p);
            assert(scan_end(s, start, p) > start);
            assert(p(s[start]));
        } else if c == '%' {
            lemma_scan_end(s, start + 1, radix_pred(2));
        } else if c == '0' {
            lemma_scan_end(s, start + 1, radix_pred(8));
        } else if '1' <= c && c <= '9' {
            lemma_scan_end(s, start + 1, radix_pred(10));
        } else if c == '$' {
            lemma_scan_end(s, start + 1, radix_pred(16));
        } else if c == '"' {
            let p = nonquote_pred();
            lemma_scan_end(s, start + 1, p);
            let q = scan_end(s, start + 1, p);
            if q < s.len() {
                let content = s.subrange(start + 1, q);
                lemma_advance_text_pos(content, st1.lino, st1.charpos + 1);
            } else {
                let content = s.subrange(start + 1, s.len() - 1);
                lemma_advance_text_pos(content, st1.lino, st1.charpos + 1);
            }
        }
    }
}


// ---------------------------------------------------------------------------
// Executable character classes and digit readers
// ---------------------------------------------------------------------------

fn ex_is_sym_start(c: char) -> (b: bool)
    ensures
        b == is_sym_start(c),
{
    ('a' <= c && c <= 'z') || ('A' <= c && c <= 'Z') || c == '_'
}

fn ex_is_sym_char(c: char) -> (b: bool)
    ensures
        b == is_sym_char(c),
{
    ex_is_sym_start(c) || ('0' <= c && c <= '9')
}

fn ex_is_digit(c: char, radix: u32) -> (b: bool)
    requires
        radix == 2 || radix == 8 || radix == 10 || radix == 16,
    ensures
        b == radix_pred(radix)(c),
{
    if radix == 2 {
        c == '0' || c == '1'
    } else if radix == 8 {
        '0' <= c && c <= '7'
    } else if radix == 10 {
        '0' <= c && c <= '9'
    } else {
        ('0' <= c && c <= '9') || ('a' <= c && c <= 'f') || ('A' <= c && c <= 'F')
    }
}

fn digit_of(c: char) -> (d: u32)
    ensures
        d == digit_val(c),
        d <= 15,
{
    if '0' <= c && c <= '9' {
        (c as u32) - ('0' as u32)
    } else if 'a' <= c && c <= 'f' {
        (c as u32) - ('a' as u32) + 10
    } else if 'A' <= c && c <= 'F' {
        (c as u32) - ('A' as u32) + 10
    } else {
        0
    }
}

/// The end of the run of digits of the given radix starting at `from`.
fn find_run_end(s: &String, from: usize, radix: u32) -> (j: usize)
    requires
        from <= s@.len(),
        radix == 2 || radix == 8 || radix == 10 || radix == 16,
    ensures
        from <= j <= s@.len(),
        j == scan_end(s@, from as int, radix_pred(radix)),
{
    let len = s.as_str().unicode_len();
    let mut j = from;
    loop
        invariant
            from <= j <= len,
            len == s@.len(),
            radix == 2 || radix == 8 || radix == 10 || radix == 16,
            scan_end(s@, from as int, radix_pred(radix)) == scan_end(s@, j as int, radix_pred(radix)),
        ensures
            from <= j <= len,
            j == scan_end(s@, from as int, radix_pred(radix)),
        decreases len - j,
    {
        if j >= len {
            break;
        }
        let c = s.as_str().get_char(j);
        if !ex_is_digit(c, radix) {
            break;
        }
        j = j + 1;
    }
    j
}

/// The value of the digit run `s[from..to]` in the given radix, or `None`
/// when it does not fit 16 bits.
fn digit_run_value(s: &String, from: usize, to: usize, radix: u32) -> (v: Option<u32>)
    requires
        from <= to <= s@.len(),
        radix == 2 || radix == 8 || radix == 10 || radix == 16,
    ensures
        ({
            let txt = s@.subrange(from as int, to as int);
            match v {
                Option::Some(n) => n == radix_val(txt, radix as int) && n <= 0xFFFF,
                Option::None => radix_val(txt, radix as int) > 0xFFFF,
            }
        }),
{
    let mut acc: u32 = 0;
    let mut i = from;
    while i < to
        invariant
            from <= i <= to,
            to <= s@.len(),
            radix == 2 || radix == 8 || radix == 10 || radix == 16,
            acc == radix_val(s@.subrange(from as int, i as int), radix as int),
            acc <= 0xFFFF,
        decreases to - i,
    {
        let c = s.as_str().get_char(i);
        let d = digit_of(c);
        proof {
            assert(acc * radix <= 0xFFFF * 16) by (nonlinear_arith)
                requires
                    acc <= 0xFFFF,
                    radix <= 16,
            ;
        }
        let acc2 = acc * radix + d;
        proof {
            assert(s@.subrange(from as int, i + 1).drop_last() =~= s@.subrange(
                from as int,
                i as int,
            ));
            assert(s@.subrange(from as int, i + 1).last() == s@[i as int]);
        }
        if acc2 > 0xFFFF {
            proof {
                assert(s@.subrange(from as int, to as int) =~= s@.subrange(from as int, i + 1)
                    + s@.subrange(i + 1, to as int));
                lemma_radix_val_extend(
                    s@.subrange(from as int, i + 1),
                    s@.subrange(i + 1, to as int),
                    radix as int,
                );
            }
            return Option::None;
        }
        acc = acc2;
        i = i + 1;
    }
    Option::Some(acc)
}

// ---------------------------------------------------------------------------
// The scanner
// ---------------------------------------------------------------------------

/// The scanner: hands out the tokens of one source text, in order.
pub struct Lexer {
    filename: String,
    // The position of the scanner within the text
    state: LexerState,
    // The scanned text, with one space appended
    string: String,
}

impl Lexer {
    /// The scanned text, sentinel space included.
    pub closed spec fn text(&self) -> Seq<char> {
        self.string@
    }

    /// The name of the file the text came from.
    pub closed spec fn filename_view(&self) -> Seq<char> {
        self.filename@
    }

    /// The current position of the scanner.
    pub closed spec fn st(&self) -> LexState {
        self.state@
    }

    /// The scanner's invariant.
    pub open spec fn wf(&self) -> bool {
        &&& wf_text(self.text())
        &&& wf_state(self.text(), self.st())
    }

    /// Creates a scanner over `string`, positioned at its start.  A space is
    /// appended to the text so that every token is followed by at least one
    /// character.
    pub fn new(filename: &str, string: &str) -> (l: Lexer)
        requires
            string@.len() + 2 < 0x1_0000_0000,
        ensures
            l.wf(),
            l.text() == string@.push(' '),
            l.filename_view() == filename@,
            l.st() == (LexState { pos: 0, lino: 1, charpos: 0 }),
    {
        let mut s = string.to_owned();
        s.append(" ");
        proof {
            reveal_strlit(" ");
            assert(s@ =~= string@.push(' '));
        }
        Lexer {
            filename: filename.to_owned(),
            state: LexerState { pos: 0, lino: 1, charpos: 0 },
            string: s,
        }
    }

    /// Returns the next token without consuming it.
    pub fn peek(&mut self) -> (t: Option<Token>)
        requires
            old(self).wf(),
        ensures
            final(self).wf(),
            final(self).text() == old(self).text(),
            final(self).filename_view() == old(self).filename_view(),
            final(self).st() == old(self).st(),
            opt_token_model(t) == spec_next(old(self).text(), old(self).st()).0,
    {
        let state = self.state;
        let token = self.next();
        self.state = state;
        token
    }

    /// The line the scanner currently stands on.
    pub fn get_lino(&self) -> (l: u32)
        ensures
            l == self.st().lino,
    {
        self.state.lino
    }

    /// The name of the file the text came from.
    pub fn get_filename(&self) -> (f: &String)
        ensures
            f@ == self.filename_view(),
    {
        &self.filename
    }

    /// The current position, to be handed back to `recall`.
    pub fn save(&self) -> (st: LexerState)
        ensures
            st@ == self.st(),
    {
        self.state
    }

    /// Rewinds the scanner to a position saved earlier on the same text.
    pub fn recall(&mut self, state: LexerState)
        requires
            wf_text(old(self).text()),
            wf_state(old(self).text(), state@),
        ensures
            final(self).wf(),
            final(self).text() == old(self).text(),
            final(self).filename_view() == old(self).filename_view(),
            final(self).st() == state@,
    {
        self.state = state;
    }

    /// Skips spaces, tabs and `;` comments; a comment runs through and
    /// consumes its terminating newline.
    fn skip_whitespace(&mut self)
        requires
            old(self).wf(),
        ensures
            final(self).wf(),
            final(self).text() == old(self).text(),
            final(self).filename_view() == old(self).filename_view(),
            final(self).st() == spec_skip_ws(
                old(self).text(),
                old(self).st().pos,
                old(self).st().lino,
                old(self).st().charpos,
                false,
            ),
    {
        let len = self.string.as_str().unicode_len();
        let mut in_comment = false;
        loop
            invariant
                self.string@ == old(self).string@,
                self.filename@ == old(self).filename@,
                len == self.string@.len(),
                wf_text(self.string@),
                wf_state(self.string@, self.state@),
                spec_skip_ws(
                    old(self).text(),
                    old(self).st().pos,
                    old(self).st().lino,
                    old(self).st().charpos,
                    false,
                ) == spec_skip_ws(
                    self.string@,
                    self.state.pos as int,
                    self.state.lino as int,
                    self.state.charpos as int,
                    in_comment,
                ),
            ensures
                self.string@ == old(self).string@,
                self.filename@ == old(self).filename@,
                wf_state(self.string@, self.state@),
                self.state@ == spec_skip_ws(
                    old(self).text(),
                    old(self).st().pos,
                    old(self).st().lino,
                    old(self).st().charpos,
                    false,
                ),
            decreases len - self.state.pos,
        {
            if self.state.pos >= len {
                break;
            }
            let c = self.string.as_str().get_char(self.state.pos);
            if in_comment && c == '\n' {
                self.state.pos = self.state.pos + 1;
                self.state.charpos = 0;
                self.state.lino = self.state.lino + 1;
                in_comment = false;
            } else if c == ' ' || c == '\t' || in_comment {
                self.state.pos = self.state.pos + 1;
                self.state.charpos = self.state.charpos + 1;
            } else if c == ';' {
                in_comment = true;
                self.state.pos = self.state.pos + 1;
                self.state.charpos = self.state.charpos + 1;
            } else {
                break;
            }
        }
    }

    /// The message of a malformed or overflowing numeric literal whose digit
    /// run is `self.text()[from..to]`.
    fn invalid_int_message(&self, from: usize, to: usize) -> (m: String)
        requires
            from <= to <= self.text().len(),
        ensures
            m@ == invalid_int_msg(self.text().subrange(from as int, to as int)),
    {
        let mut m = "'".to_owned();
        m.append(self.string.as_str().substring_char(from, to));
        m.append("' is an invalid 16 bit integer");
        m
    }

    /// Consumes and returns the next token; `None` exactly when only
    /// whitespace and comments remain.
    pub fn next(&mut self) -> (t: Option<Token>)
        requires
            old(self).wf(),
        ensures
            final(self).wf(),
            final(self).text() == old(self).text(),
            final(self).filename_view() == old(self).filename_view(),
            ({
                let (mt, st2) = spec_next(old(self).text(), old(self).st());
                opt_token_model(t) == mt && final(self).st() == st2
            }),
    {
        self.skip_whitespace();
        let ghost s = self.string@;
        proof {
            lemma_spec_skip_ws(
                s,
                old(self).st().pos,
                old(self).st().lino,
                old(self).st().charpos,
                false,
            );
        }
        let len = self.string.as_str().unicode_len();
        let pos0 = self.state.pos;
        let lino0 = self.state.lino;
        let cp0 = self.state.charpos;
        if pos0 >= len {
            return Option::None;
        }
        let c = self.string.as_str().get_char(pos0);
        proof {
            assert(s[s.len() - 1] == ' ');
            assert(c != ' ');
            assert(pos0 < len - 1);
        }
        if c == '(' {
            self.state.pos = pos0 + 1;
            self.state.charpos = cp0 + 1;
            return Option::Some(
                Token { pos: pos0, lino: lino0, charpos: cp0, value: TokenValue::LParen },
            );
        } else if c == ')' {
            self.state.pos = pos0 + 1;
            self.state.charpos = cp0 + 1;
            return Option::Some(
                Token { pos: pos0, lino: lino0, charpos: cp0, value: TokenValue::RParen },
            );
        } else if c == ':' {
            self.state.pos = pos0 + 1;
            self.state.charpos = cp0 + 1;
            return Option::Some(
                Token { pos: pos0, lino: lino0, charpos: cp0, value: TokenValue::Colon },
            );
        } else if c == ',' {
            self.state.pos = pos0 + 1;
            self.state.charpos = cp0 + 1;
            return Option::Some(
                Token { pos: pos0, lino: lino0, charpos: cp0, value: TokenValue::Comma },
            );
        } else if c == '\n' {
            self.state.pos = pos0 + 1;
            self.state.lino = lino0 + 1;
            self.state.charpos = 0;
            return Option::Some(
                Token { pos: pos0, lino: lino0, charpos: cp0, value: TokenValue::Newline },
            );
        } else if c == '<' {
            self.state.pos = pos0 + 1;
            self.state.charpos = cp0 + 1;
            return Option::Some(
                Token { pos: pos0, lino: lino0, charpos: cp0, value: TokenValue::LT },
            );
        } else if c == '>' {
            self.state.pos = pos0 + 1;
            self.state.charpos = cp0 + 1;
            return Option::Some(
                Token { pos: pos0, lino: lino0, charpos: cp0, value: TokenValue::GT },
            );
        } else if c == '.' {
            self.state.pos = pos0 + 1;
            self.state.charpos = cp0 + 1;
            return Option::Some(
                Token { pos: pos0, lino: lino0, charpos: cp0, value: TokenValue::Dot },
            );
        } else if c == '#' {
            self.state.pos = pos0 + 1;
            self.state.charpos = cp0 + 1;
            return Option::Some(
                Token { pos: pos0, lino: lino0, charpos: cp0, value: TokenValue::Hash },
            );
        } else if ex_is_sym_start(c) {
            let mut j = pos0 + 1;
            proof {
                assert(sym_pred()(s[pos0 as int]));
            }
            loop
                invariant
                    pos0 < j <= len,
                    len == s.len(),
                    s == self.string@,
                    scan_end(s, pos0 as int, sym_pred()) == scan_end(s, j as int, sym_pred()),
                ensures
                    pos0 < j <= len,
                    j == scan_end(s, pos0 as int, sym_pred()),
                decreases len - j,
            {
                if j >= len {
                    break;
                }
                let cj = self.string.as_str().get_char(j);
                if !ex_is_sym_char(cj) {
                    break;
                }
                j = j + 1;
            }
            let text = self.string.as_str().substring_char(pos0, j).to_owned();
            self.state.pos = j;
            self.state.charpos = cp0 + ((j - pos0) as u32);
            return Option::Some(
                Token { pos: pos0, lino: lino0, charpos: cp0, value: TokenValue::Symbol(text) },
            );
        } else if c == '%' {
            let j = find_run_end(&self.string, pos0 + 1, 2);
            let value = if j == pos0 + 1 {
                TokenValue::Error(self.invalid_int_message(pos0 + 1, j))
            } else {
                match digit_run_value(&self.string, pos0 + 1, j, 2) {
                    Option::Some(n) => TokenValue::Bin(n as u16),
                    Option::None => TokenValue::Error(self.invalid_int_message(pos0 + 1, j)),
                }
            };
            self.state.pos = j;
            self.state.charpos = cp0 + ((j - pos0) as u32);
            return Option::Some(Token { pos: pos0, lino: lino0, charpos: cp0, value });
        } else if c == '0' {
            let j = find_run_end(&self.string, pos0 + 1, 8);
            if j == pos0 + 1 {
                // A lone `0`: no octal digits follow, so it reads as decimal.
                self.state.pos = pos0 + 1;
                self.state.charpos = cp0 + 1;
                return Option::Some(
                    Token { pos: pos0, lino: lino0, charpos: cp0, value: TokenValue::Dec(0) },
                );
            }
            let value = match digit_run_value(&self.string, pos0 + 1, j, 8) {
                Option::Some(n) => TokenValue::Oct(n as u16),
                Option::None => TokenValue::Error(self.invalid_int_message(pos0 + 1, j)),
            };
            self.state.pos = j;
            self.state.charpos = cp0 + ((j - pos0) as u32);
            return Option::Some(Token { pos: pos0, lino: lino0, charpos: cp0, value });
        } else if '1' <= c && c <= '9' {
            let j = find_run_end(&self.string, pos0 + 1, 10);
            proof {
                assert(radix_pred(10)(s[pos0 as int]));
                lemma_scan_end_step(s, pos0 as int, radix_pred(10));
            }
            let value = match digit_run_value(&self.string, pos0, j, 10) {
                Option::Some(n) => TokenValue::Dec(n as u16),
                Option::None => TokenValue::Error(self.invalid_int_message(pos0, j)),
            };
            self.state.pos = j;
            self.state.charpos = cp0 + ((j - pos0) as u32);
            return Option::Some(Token { pos: pos0, lino: lino0, charpos: cp0, value });
        } else if c == '$' {
            let j = find_run_end(&self.string, pos0 + 1, 16);
            let value = if j == pos0 + 1 {
                TokenValue::Error(self.invalid_int_message(pos0 + 1, j))
            } else {
                match digit_run_value(&self.string, pos0 + 1, j, 16) {
                    Option::Some(n) => TokenValue::Hex(n as u16),
                    Option::None => TokenValue::Error(self.invalid_int_message(pos0 + 1, j)),
                }
            };
            self.state.pos = j;
            self.state.charpos = cp0 + ((j - pos0) as u32);
            return Option::Some(Token { pos: pos0, lino: lino0, charpos: cp0, value });
        } else if c == '"' {
            let mut j = pos0 + 1;
            let mut lino_cur = lino0;
            let mut cp_cur = cp0 + 1;
            loop
                invariant
                    pos0 + 1 <= j <= len - 1,
                    len == s.len(),
                    s == self.string@,
                    wf_text(s),
                    scan_end(s, pos0 as int + 1, nonquote_pred()) == scan_end(
                        s,
                        j as int,
                        nonquote_pred(),
                    ),
                    (lino_cur as int, cp_cur as int) == advance_text_pos(
                        s.subrange(pos0 as int + 1, j as int),
                        lino0 as int,
                        cp0 as int + 1,
                    ),
                    1 <= lino_cur <= j,
                    cp_cur <= j,
                ensures
                    pos0 + 1 <= j <= len - 1,
                    scan_end(s, pos0 as int + 1, nonquote_pred()) == scan_end(
                        s,
                        j as int,
                        nonquote_pred(),
                    ),
                    (lino_cur as int, cp_cur as int) == advance_text_pos(
                        s.subrange(pos0 as int + 1, j as int),
                        lino0 as int,
                        cp0 as int + 1,
                    ),
                    1 <= lino_cur <= j,
                    cp_cur <= j,
                    j < len - 1 ==> s[j as int] == '"',
                decreases len - 1 - j,
            {
                if j >= len - 1 {
                    break;
                }
                let cj = self.string.as_str().get_char(j);
                if cj == '"' {
                    break;
                }
                proof {
                    assert(s.subrange(pos0 as int + 1, j + 1).drop_last() =~= s.subrange(
                        pos0 as int + 1,
                        j as int,
                    ));
                    assert(s.subrange(pos0 as int + 1, j + 1).last() == s[j as int]);
                }
                if cj == '\n' {
                    lino_cur = lino_cur + 1;
                    cp_cur = 0;
                } else {
                    cp_cur = cp_cur + 1;
                }
                j = j + 1;
            }
            if j < len - 1 {
                // The loop stopped on the closing quote.
                proof {
                    assert(s[j as int] == '"');
                    assert(scan_end(s, pos0 as int + 1, nonquote_pred()) == j);
                }
                let content = self.string.as_str().substring_char(pos0 + 1, j).to_owned();
                self.state.pos = j + 1;
                self.state.lino = lino_cur;
                self.state.charpos = cp_cur;
                return Option::Some(
                    Token {
                        pos: pos0,
                        lino: lino0,
                        charpos: cp0,
                        value: TokenValue::String(content),
                    },
                );
            } else {
                // The text ended before a closing quote.
                proof {
                    assert(j == len - 1);
                    assert(s[j as int] == ' ');
                    assert(nonquote_pred()(s[j as int]));
                    assert(scan_end(s, j as int, nonquote_pred()) == scan_end(
                        s,
                        j + 1,
                        nonquote_pred(),
                    ));
                    assert(scan_end(s, pos0 as int + 1, nonquote_pred()) == s.len());
                }
                let content = self.string.as_str().substring_char(pos0, len - 1).to_owned();
                self.state.pos = len - 1;
                self.state.lino = lino_cur;
                self.state.charpos = cp_cur;
                return Option::Some(
                    Token {
                        pos: pos0,
                        lino: lino0,
                        charpos: cp0,
                        value: TokenValue::Error(content),
                    },
                );
            }
        } else {
            let mut m = "Invalid token '".to_owned();
            m.append(self.string.as_str().substring_char(pos0, pos0 + 1));
            m.append("'");
            self.state.pos = pos0 + 1;
            self.state.charpos = cp0 + 1;
            return Option::Some(
                Token { pos: pos0, lino: lino0, charpos: cp0, value: TokenValue::Error(m) },
            );
        }
    }
}


/// A run of `p`-characters from `i` to `q`, ended by a non-`p` character
/// (or by the end of the text), scans exactly to `q`.
pub proof fn lemma_scan_end_interval(s: Seq<char>, i: int, q: int, p: spec_fn(char) -> bool)
    requires
        0 <= i <= q <= s.len(),
        forall|j: int| i <= j < q ==> p(#[trigger] s[j]),
        q < s.len() ==> !p(s[q]),
    ensures
        scan_end(s, i, p) == q,
    decreases q - i,
{
    if i < q {
        lemma_scan_end_interval(s, i + 1, q, p);
    }
}

/// The token at a symbol-start character whose symbol run ends at `q`.
pub proof fn lemma_spec_next_symbol(s: Seq<char>, st: LexState, q: int)
    requires
        wf_text(s),
        wf_state(s, st),
        st.pos < q <= s.len(),
        is_sym_start(s[st.pos]),
        forall|j: int| st.pos <= j < q ==> is_sym_char(#[trigger] s[j]),
        q < s.len() ==> !is_sym_char(s[q]),
    ensures
        spec_next(s, st) == (
            Option::Some(
                tok_at(st, TokenValueModel::Symbol(s.subrange(st.pos, q))),
            ),
            LexState { pos: q, lino: st.lino, charpos: st.charpos + (q - st.pos) },
        ),
{
    lemma_scan_end_interval(s, st.pos, q, sym_pred());
}

/// The symbol token after exactly one separating space.
pub proof fn lemma_spec_next_symbol_after_space(s: Seq<char>, st: LexState, q: int)
    requires
        wf_text(s),
        wf_state(s, st),
        st.pos + 1 < q <= s.len(),
        s[st.pos] == ' ',
        is_sym_start(s[st.pos + 1]),
        forall|j: int| st.pos + 1 <= j < q ==> is_sym_char(#[trigger] s[j]),
        q < s.len() ==> !is_sym_char(s[q]),
    ensures
        spec_next(s, st) == (
            Option::Some(
                tok_at(
                    LexState { pos: st.pos + 1, lino: st.lino, charpos: st.charpos + 1 },
                    TokenValueModel::Symbol(s.subrange(st.pos + 1, q)),
                ),
            ),
            LexState { pos: q, lino: st.lino, charpos: st.charpos + (q - st.pos) },
        ),
{
    assert(spec_skip_ws(s, st.pos, st.lino, st.charpos, false) == spec_skip_ws(
        s,
        st.pos + 1,
        st.lino,
        st.charpos + 1,
        false,
    ));
    assert(spec_skip_ws(s, st.pos + 1, st.lino, st.charpos + 1, false) == LexState {
        pos: st.pos + 1,
        lino: st.lino,
        charpos: st.charpos + 1,
    });
    lemma_scan_end_interval(s, st.pos + 1, q, sym_pred());
}

/// The token at a hash character.
pub proof fn lemma_spec_next_hash(s: Seq<char>, st: LexState)
    requires
        wf_text(s),
        wf_state(s, st),
        st.pos < s.len(),
        s[st.pos] == '#',
    ensures
        spec_next(s, st) == (
            Option::Some(tok_at(st, TokenValueModel::Hash)),
            LexState { pos: st.pos + 1, lino: st.lino, charpos: st.charpos + 1 },
        ),
{
}

/// The token at a `$` whose hexadecimal digit run ends at `q` and whose
/// value fits 16 bits.
pub proof fn lemma_spec_next_hex(s: Seq<char>, st: LexState, q: int)
    requires
        wf_text(s),
        wf_state(s, st),
        st.pos + 1 < q <= s.len(),
        s[st.pos] == '$',
        forall|j: int| st.pos + 1 <= j < q ==> is_hex_digit(#[trigger] s[j]),
        q < s.len() ==> !is_hex_digit(s[q]),
        0 <= radix_val(s.subrange(st.pos + 1, q), 16) <= 0xFFFF,
    ensures
        spec_next(s, st) == (
            Option::Some(
                tok_at(
                    st,
                    TokenValueModel::Hex(radix_val(s.subrange(st.pos + 1, q), 16) as u16),
                ),
            ),
            LexState { pos: q, lino: st.lino, charpos: st.charpos + (q - st.pos) },
        ),
{
    lemma_scan_end_interval(s, st.pos + 1, q, radix_pred(16));
}

/// The digit character of one hexadecimal digit value.
pub open spec fn hex_digit_char(d: int) -> char {
    if d == 0 {
        '0'
    } else if d == 1 {
        '1'
    } else if d == 2 {
        '2'
    } else if d == 3 {
        '3'
    } else if d == 4 {
        '4'
    } else if d == 5 {
        '5'
    } else if d == 6 {
        '6'
    } else if d == 7 {
        '7'
    } else if d == 8 {
        '8'
    } else if d == 9 {
        '9'
    } else if d == 10 {
        'a'
    } else if d == 11 {
        'b'
    } else if d == 12 {
        'c'
    } else if d == 13 {
        'd'
    } else if d == 14 {
        'e'
    } else {
        'f'
    }
}

/// The canonical hexadecimal digit string of `n`: lower case, no leading
/// zeros (a single `0` for zero).
pub open spec fn print_hex_digits(n: nat) -> Seq<char>
    decreases n,
{
    if n < 16 {
        seq![hex_digit_char(n as int)]
    } else {
        print_hex_digits(n / 16).push(hex_digit_char((n % 16) as int))
    }
}

/// Printing a number in hexadecimal and reading the digits back yields the
/// number: the printer inverts `radix_val`.
pub proof fn lemma_print_hex_digits(n: nat)
    ensures
        print_hex_digits(n).len() >= 1,
        forall|i: int|
            0 <= i < print_hex_digits(n).len() ==> is_hex_digit(#[trigger] print_hex_digits(n)[i]),
        radix_val(print_hex_digits(n), 16) == n,
    decreases n,
{
    if n < 16 {
        assert(radix_val(Seq::<char>::empty(), 16) == 0);
        assert(seq![hex_digit_char(n as int)].drop_last() =~= Seq::<char>::empty());
        assert(digit_val(hex_digit_char(n as int)) == n);
        assert(radix_val(seq![hex_digit_char(n as int)], 16) == radix_val(
            seq![hex_digit_char(n as int)].drop_last(),
            16,
        ) * 16 + digit_val(seq![hex_digit_char(n as int)].last()));
    } else {
        lemma_print_hex_digits(n / 16);
        let d = (n % 16) as int;
        assert(print_hex_digits(n) == print_hex_digits(n / 16).push(hex_digit_char(d)));
        assert(print_hex_digits(n).drop_last() =~= print_hex_digits(n / 16));
        assert(print_hex_digits(n).last() == hex_digit_char(d));
        assert(digit_val(hex_digit_char(d)) == d);
        assert(radix_val(print_hex_digits(n), 16) == radix_val(
            print_hex_digits(n).drop_last(),
            16,
        ) * 16 + digit_val(print_hex_digits(n).last()));
        assert(radix_val(print_hex_digits(n).drop_last(), 16) == n / 16);
        vstd::arithmetic::div_mod::lemma_fundamental_div_mod(n as int, 16);
        assert(n == 16 * (n / 16) + n % 16);
    }
}

/// How many digits the hexadecimal print of a 16-bit value can have.
pub proof fn lemma_print_hex_digits_len(n: nat)
    ensures
        n < 16 ==> print_hex_digits(n).len() == 1,
        n < 0x100 ==> print_hex_digits(n).len() <= 2,
        n < 0x1000 ==> print_hex_digits(n).len() <= 3,
        n < 0x10000 ==> print_hex_digits(n).len() <= 4,
    decreases n,
{
    if n >= 16 {
        lemma_print_hex_digits_len(n / 16);
        assert(n < 0x100 ==> n / 16 < 16) by (nonlinear_arith);
        assert(n < 0x1000 ==> n / 16 < 0x100) by (nonlinear_arith);
        assert(n < 0x10000 ==> n / 16 < 0x1000) by (nonlinear_arith);
    }
}

/// The token at a colon character.
pub proof fn lemma_spec_next_colon(s: Seq<char>, st: LexState)
    requires
        wf_text(s),
        wf_state(s, st),
        st.pos < s.len(),
        s[st.pos] == ':',
    ensures
        spec_next(s, st) == (
            Option::Some(tok_at(st, TokenValueModel::Colon)),
            LexState { pos: st.pos + 1, lino: st.lino, charpos: st.charpos + 1 },
        ),
{
}

/// The token at a newline character.
pub proof fn lemma_spec_next_newline(s: Seq<char>, st: LexState)
    requires
        wf_text(s),
        wf_state(s, st),
        st.pos < s.len(),
        s[st.pos] == '\n',
    ensures
        spec_next(s, st) == (
            Option::Some(tok_at(st, TokenValueModel::Newline)),
            LexState { pos: st.pos + 1, lino: st.lino + 1, charpos: 0 },
        ),
{
}


// ---------------------------------------------------------------------------
// Equality of token values
// ---------------------------------------------------------------------------

impl PartialEq for TokenValue {
    /// Two token values are equal when they are the same variant with the
    /// same payload.
    fn eq(&self, other: &TokenValue) -> (r: bool) {
        match (self, other) {
            (TokenValue::Error(a), TokenValue::Error(b)) => str_eq(a.as_str(), b.as_str()),
            (TokenValue::LParen, TokenValue::LParen) => true,
            (TokenValue::RParen, TokenValue::RParen) => true,
            (TokenValue::Colon, TokenValue::Colon) => true,
            (TokenValue::Comma, TokenValue::Comma) => true,
            (TokenValue::Newline, TokenValue::Newline) => true,
            (TokenValue::LT, TokenValue::LT) => true,
            (TokenValue::GT, TokenValue::GT) => true,
            (TokenValue::Dot, TokenValue::Dot) => true,
            (TokenValue::Hash, TokenValue::Hash) => true,
            (TokenValue::Symbol(a), TokenValue::Symbol(b)) => str_eq(a.as_str(), b.as_str()),
            (TokenValue::Bin(a), TokenValue::Bin(b)) => a == b,
            (TokenValue::Oct(a), TokenValue::Oct(b)) => a == b,
            (TokenValue::Dec(a), TokenValue::Dec(b)) => a == b,
            (TokenValue::Hex(a), TokenValue::Hex(b)) => a == b,
            (TokenValue::String(a), TokenValue::String(b)) => str_eq(a.as_str(), b.as_str()),
            _ => false,
        }
    }
}

impl vstd::std_specs::cmp::PartialEqSpecImpl for TokenValue {
    open spec fn obeys_eq_spec() -> bool {
        true
    }

    open spec fn eq_spec(&self, other: &TokenValue) -> bool {
        self@ == other@
    }
}

} // verus!
