//! The statement and argument model of the source assembly, its canonical
//! rendering, and the line-oriented parser that produces it.
use vstd::prelude::*;
use vstd::string::*;

use crate::error::{Error, ErrorKind};
use crate::text::{
    all_dec_digits, all_hex_digits, append_int, append_nat, append_str, chars_of, dec, digits_val,
    digit_char, int_text, is_dec_digit, is_hex_digit, lemma_dec_digits,
};

verus! {

/// A general-purpose register of the source architecture, `x0` to `x31`.
#[derive(Clone, Copy, Debug)]
pub struct Register(u8);

impl View for Register {
    type V = nat;

    closed spec fn view(&self) -> nat {
        self.0 as nat
    }
}

impl Register {
    /// The register with the given index, if it names one of the 32 registers.
    pub fn new(index: u8) -> (r: Option<Register>)
        ensures
            r is Some <==> index < 32,
            r matches Some(reg) ==> reg@ == index as nat,
    {
        if index < 32 {
            Some(Register(index))
        } else {
            None
        }
    }

    /// The index of the register.
    pub fn index(&self) -> (r: u8)
        ensures
            r as nat == self@,
    {
        self.0
    }

    /// Canonical text of the register, `x` followed by its index.
    pub fn to_string(&self) -> (r: String)
        ensures
            r@ == reg_text(self@),
    {
        let mut s = String::new();
        append_reg(&mut s, self);
        s
    }
}

/// One operand of a directive or an instruction.
#[derive(Debug)]
pub enum Argument {
    Register(Register),
    Number(i64),
    RegOffset(Register, i64),
    StringLiteral(String),
    Symbol(String),
    HiDataRef(String),
    LoDataRef(String),
    Difference(String, String),
}

/// One logical line of the source assembly.
#[derive(Debug)]
pub enum Statement {
    Label(String),
    Directive(String, Vec<Argument>),
    Instruction(String, Vec<Argument>),
}

/// Mathematical value of an [`Argument`].
pub enum ArgModel {
    Register(nat),
    Number(int),
    RegOffset(nat, int),
    StringLiteral(Seq<char>),
    Symbol(Seq<char>),
    HiDataRef(Seq<char>),
    LoDataRef(Seq<char>),
    Difference(Seq<char>, Seq<char>),
}

/// Mathematical value of a [`Statement`].
pub enum StmtModel {
    Label(Seq<char>),
    Directive(Seq<char>, Seq<ArgModel>),
    Instruction(Seq<char>, Seq<ArgModel>),
}

impl View for Argument {
    type V = ArgModel;

    open spec fn view(&self) -> ArgModel {
        match self {
            Argument::Register(r) => ArgModel::Register(r@),
            Argument::Number(n) => ArgModel::Number(*n as int),
            Argument::RegOffset(r, o) => ArgModel::RegOffset(r@, *o as int),
            Argument::StringLiteral(s) => ArgModel::StringLiteral(s@),
            Argument::Symbol(s) => ArgModel::Symbol(s@),
            Argument::HiDataRef(s) => ArgModel::HiDataRef(s@),
            Argument::LoDataRef(s) => ArgModel::LoDataRef(s@),
            Argument::Difference(a, b) => ArgModel::Difference(a@, b@),
        }
    }
}

pub open spec fn args_view(args: Seq<Argument>) -> Seq<ArgModel> {
    args.map_values(|a: Argument| a@)
}

impl View for Statement {
    type V = StmtModel;

    open spec fn view(&self) -> StmtModel {
        match self {
            Statement::Label(l) => StmtModel::Label(l@),
            Statement::Directive(d, args) => StmtModel::Directive(d@, args_view(args@)),
            Statement::Instruction(i, args) => StmtModel::Instruction(i@, args_view(args@)),
        }
    }
}

pub open spec fn stmts_view(s: Seq<Statement>) -> Seq<StmtModel> {
    s.map_values(|st: Statement| st@)
}

/// Canonical text of register `i`.
pub open spec fn reg_text(i: nat) -> Seq<char> {
    seq!['x'] + dec(i)
}

/// Canonical text of an argument.
pub open spec fn arg_text(a: ArgModel) -> Seq<char> {
    match a {
        ArgModel::Register(r) => reg_text(r),
        ArgModel::Number(n) => int_text(n),
        ArgModel::RegOffset(r, o) => int_text(o) + seq!['('] + reg_text(r) + seq![')'],
        ArgModel::StringLiteral(s) => seq!['"'] + s + seq!['"'],
        ArgModel::Symbol(s) => s,
        ArgModel::HiDataRef(s) => seq!['%', 'h', 'i', '('] + s + seq![')'],
        ArgModel::LoDataRef(s) => seq!['%', 'l', 'o', '('] + s + seq![')'],
        ArgModel::Difference(a, b) => a + seq![' ', '-', ' '] + b,
    }
}

/// Canonical text of an argument list: the arguments joined by `", "`.
pub open spec fn args_text(args: Seq<ArgModel>) -> Seq<char>
    decreases args.len(),
{
    if args.len() == 0 {
        Seq::empty()
    } else if args.len() == 1 {
        arg_text(args[0])
    } else {
        args_text(args.drop_last()) + seq![',', ' '] + arg_text(args.last())
    }
}

/// Canonical text of a statement, ending in a newline.
pub open spec fn stmt_text(s: StmtModel) -> Seq<char> {
    match s {
        StmtModel::Label(l) => l + seq![':', '\n'],
        StmtModel::Directive(d, args) => seq![' ', ' ', '.'] + d + seq![' '] + args_text(args)
            + seq!['\n'],
        StmtModel::Instruction(i, args) => seq![' ', ' '] + i + seq![' '] + args_text(args) + seq![
            '\n',
        ],
    }
}

/// Appends the canonical text of a register.
pub fn append_reg(out: &mut String, r: &Register)
    ensures
        final(out)@ == old(out)@ + reg_text(r@),
{
    out.append("x");
    proof { reveal_strlit("x"); }
    append_nat(out, r.0 as u64);
    assert(final(out)@ =~= old(out)@ + reg_text(r@));
}

impl Argument {
    /// Appends the canonical text of the argument.
    pub fn append_to(&self, out: &mut String)
        ensures
            final(out)@ == old(out)@ + arg_text(self@),
    {
        match self {
            Argument::Register(r) => append_reg(out, r),
            Argument::Number(n) => append_int(out, *n),
            Argument::RegOffset(r, o) => {
                append_int(out, *o);
                append_str(out, "(");
                append_reg(out, r);
                append_str(out, ")");
                proof {
                    reveal_strlit("(");
                    reveal_strlit(")");
                }
            },
            Argument::StringLiteral(s) => {
                append_str(out, "\"");
                append_str(out, s.as_str());
                append_str(out, "\"");
                proof {
                    reveal_strlit("\"");
                }
            },
            Argument::Symbol(s) => append_str(out, s.as_str()),
            Argument::HiDataRef(s) => {
                append_str(out, "%hi(");
                append_str(out, s.as_str());
                append_str(out, ")");
                proof {
                    reveal_strlit("%hi(");
                    reveal_strlit(")");
                }
            },
            Argument::LoDataRef(s) => {
                append_str(out, "%lo(");
                append_str(out, s.as_str());
                append_str(out, ")");
                proof {
                    reveal_strlit("%lo(");
                    reveal_strlit(")");
                }
            },
            Argument::Difference(a, b) => {
                append_str(out, a.as_str());
                append_str(out, " - ");
                append_str(out, b.as_str());
                proof {
                    reveal_strlit(" - ");
                }
            },
        }
        assert(final(out)@ =~= old(out)@ + arg_text(self@));
    }

    /// Canonical text of the argument.
    pub fn to_string(&self) -> (r: String)
        ensures
            r@ == arg_text(self@),
    {
        let mut s = String::new();
        self.append_to(&mut s);
        assert(s@ =~= arg_text(self@));
        s
    }
}

/// Canonical text of an argument list: the arguments joined by `", "`.
pub fn format_arguments(args: &Vec<Argument>) -> (r: String)
    ensures
        r@ == args_text(args_view(args@)),
{
    let mut s = String::new();
    let mut i: usize = 0;
    while i < args.len()
        invariant
            i <= args@.len(),
            s@ == args_text(args_view(args@.subrange(0, i as int))),
        decreases args@.len() - i,
    {
        let ghost before = s@;
        if i > 0 {
            append_str(&mut s, ", ");
            proof { reveal_strlit(", "); }
        }
        args[i].append_to(&mut s);
        i = i + 1;
        proof {
            let pre = args_view(args@.subrange(0, i - 1));
            let cur = args_view(args@.subrange(0, i as int));
            assert(cur.drop_last() =~= pre);
            assert(cur.last() == args@[i - 1]@);
            if i == 1 {
                assert(before =~= Seq::<char>::empty());
            }
            assert(s@ =~= args_text(cur));
        }
    }
    assert(args@.subrange(0, args@.len() as int) =~= args@);
    s
}

impl Statement {
    /// Canonical text of the statement, ending in a newline.
    pub fn to_string(&self) -> (r: String)
        ensures
            r@ == stmt_text(self@),
    {
        let mut s = String::new();
        match self {
            Statement::Label(l) => {
                append_str(&mut s, l.as_str());
                append_str(&mut s, ":\n");
                proof { reveal_strlit(":\n"); }
            },
            Statement::Directive(d, args) => {
                append_str(&mut s, "  .");
                append_str(&mut s, d.as_str());
                append_str(&mut s, " ");
                let a = format_arguments(args);
                append_str(&mut s, a.as_str());
                append_str(&mut s, "\n");
                proof {
                    reveal_strlit("  .");
                    reveal_strlit(" ");
                    reveal_strlit("\n");
                }
            },
            Statement::Instruction(i, args) => {
                append_str(&mut s, "  ");
                append_str(&mut s, i.as_str());
                append_str(&mut s, " ");
                let a = format_arguments(args);
                append_str(&mut s, a.as_str());
                append_str(&mut s, "\n");
                proof {
                    reveal_strlit("  ");
                    reveal_strlit(" ");
                    reveal_strlit("\n");
                }
            },
        }
        assert(s@ =~= stmt_text(self@));
        s
    }
}

pub open spec fn is_ws(c: char) -> bool {
    c == ' ' || c == '\t' || c == '\r'
}

pub open spec fn trim_start(s: Seq<char>) -> Seq<char>
    decreases s.len(),
{
    if s.len() > 0 && is_ws(s[0]) {
        trim_start(s.drop_first())
    } else {
        s
    }
}

pub open spec fn trim_end(s: Seq<char>) -> Seq<char>
    decreases s.len(),
{
    if s.len() > 0 && is_ws(s.last()) {
        trim_end(s.drop_last())
    } else {
        s
    }
}

/// `s` without the white space around it.
pub open spec fn trim(s: Seq<char>) -> Seq<char> {
    trim_end(trim_start(s))
}

/// The pieces of `s[start..]` between occurrences of `sep`, scanning from
/// `i`; where `quotes` holds, a separator between double quotes does not
/// count (`in_quote` says whether the scan is inside quotes).
pub open spec fn split_from(
    s: Seq<char>,
    sep: char,
    quotes: bool,
    i: int,
    start: int,
    in_quote: bool,
) -> Seq<Seq<char>>
    decreases s.len() - i,
{
    if i >= s.len() || i < 0 {
        seq![s.subrange(start, s.len() as int)]
    } else if quotes && s[i] == '"' {
        split_from(s, sep, quotes, i + 1, start, !in_quote)
    } else if s[i] == sep && !in_quote {
        seq![s.subrange(start, i)] + split_from(s, sep, quotes, i + 1, i + 1, false)
    } else {
        split_from(s, sep, quotes, i + 1, start, in_quote)
    }
}

/// The pieces of `s` between occurrences of `sep`.
pub open spec fn split(s: Seq<char>, sep: char, quotes: bool) -> Seq<Seq<char>> {
    split_from(s, sep, quotes, 0, 0, false)
}

pub open spec fn is_alnum(c: char) -> bool {
    ('a' <= c <= 'z') || ('A' <= c <= 'Z') || is_dec_digit(c)
}

pub open spec fn is_sym_char(c: char) -> bool {
    is_alnum(c) || c == '_' || c == '.' || c == '$' || c == '@'
}

/// A symbol: symbol characters, not starting with a digit.
pub open spec fn is_symbol(s: Seq<char>) -> bool {
    s.len() > 0 && !is_dec_digit(s[0]) && forall|i: int|
        0 <= i < s.len() ==> is_sym_char(#[trigger] s[i])
}

/// Register names of the calling convention, by register; the last one is a
/// second name of register 8.
pub open spec fn abi_name(k: nat) -> Seq<char> {
    if k == 0 {
        "zero"@
    } else if k == 1 {
        "ra"@
    } else if k == 2 {
        "sp"@
    } else if k == 3 {
        "gp"@
    } else if k == 4 {
        "tp"@
    } else if k == 5 {
        "t0"@
    } else if k == 6 {
        "t1"@
    } else if k == 7 {
        "t2"@
    } else if k == 8 {
        "s0"@
    } else if k == 9 {
        "s1"@
    } else if k == 10 {
        "a0"@
    } else if k == 11 {
        "a1"@
    } else if k == 12 {
        "a2"@
    } else if k == 13 {
        "a3"@
    } else if k == 14 {
        "a4"@
    } else if k == 15 {
        "a5"@
    } else if k == 16 {
        "a6"@
    } else if k == 17 {
        "a7"@
    } else if k == 18 {
        "s2"@
    } else if k == 19 {
        "s3"@
    } else if k == 20 {
        "s4"@
    } else if k == 21 {
        "s5"@
    } else if k == 22 {
        "s6"@
    } else if k == 23 {
        "s7"@
    } else if k == 24 {
        "s8"@
    } else if k == 25 {
        "s9"@
    } else if k == 26 {
        "s10"@
    } else if k == 27 {
        "s11"@
    } else if k == 28 {
        "t3"@
    } else if k == 29 {
        "t4"@
    } else if k == 30 {
        "t5"@
    } else if k == 31 {
        "t6"@
    } else {
        "fp"@
    }
}

pub open spec fn abi_index(k: nat) -> nat {
    if k == 32 {
        8
    } else {
        k
    }
}

/// The first calling-convention name from position `k` on that equals `t`.
pub open spec fn abi_from(t: Seq<char>, k: nat) -> Option<nat>
    decreases 33 - k,
{
    if k >= 33 {
        None
    } else if t == abi_name(k) {
        Some(abi_index(k))
    } else {
        abi_from(t, k + 1)
    }
}

/// The register that `t` names: `x0` to `x31` in canonical decimal, or a
/// calling-convention name.
pub open spec fn reg_of(t: Seq<char>) -> Option<nat> {
    if 2 <= t.len() <= 3 && t[0] == 'x' && all_dec_digits(t.drop_first()) && (t.len() == 2 || t[1]
        != '0') && digits_val(t.drop_first(), 10) < 32 {
        Some(digits_val(t.drop_first(), 10))
    } else {
        abi_from(t, 0)
    }
}

pub open spec fn is_hex_prefix(b: Seq<char>) -> bool {
    b.len() > 2 && b[0] == '0' && (b[1] == 'x' || b[1] == 'X')
}

/// The value of an unsigned decimal or `0x` hexadecimal literal.
pub open spec fn magnitude_of(b: Seq<char>) -> Option<nat> {
    if is_hex_prefix(b) && all_hex_digits(b.skip(2)) {
        Some(digits_val(b.skip(2), 16))
    } else if b.len() > 0 && all_dec_digits(b) {
        Some(digits_val(b, 10))
    } else {
        None
    }
}

/// The value of an integer literal with an optional `-`, where it fits in 64 bits.
pub open spec fn int_of(t: Seq<char>) -> Option<int> {
    let neg = t.len() > 0 && t[0] == '-';
    let body = if neg {
        t.drop_first()
    } else {
        t
    };
    match magnitude_of(body) {
        Some(m) => {
            let v = if neg {
                -m
            } else {
                m as int
            };
            if i64::MIN <= v <= i64::MAX {
                Some(v)
            } else {
                None
            }
        },
        None => None,
    }
}

/// Position of the first `c` in `t` at or after `k`, if any.
pub open spec fn find_from(t: Seq<char>, c: char, k: int) -> Option<int>
    decreases t.len() - k,
{
    if k < 0 || k >= t.len() {
        None
    } else if t[k] == c {
        Some(k)
    } else {
        find_from(t, c, k + 1)
    }
}

/// Position of the first `c` in `t`, if any.
pub open spec fn find(t: Seq<char>, c: char) -> Option<int> {
    find_from(t, c, 0)
}

pub open spec fn wrapped(t: Seq<char>, prefix: Seq<char>) -> bool {
    t.len() >= prefix.len() + 1 && t.subrange(0, prefix.len() as int) == prefix && t.last() == ')'
}

/// A string literal, or an address component of a symbol.
pub open spec fn arg_delimited(t: Seq<char>) -> Option<ArgModel> {
    let hi = seq!['%', 'h', 'i', '('];
    let lo = seq!['%', 'l', 'o', '('];
    if t.len() >= 2 && t[0] == '"' && t.last() == '"' && find(t.subrange(1, t.len() - 1), '"')
        is None {
        Some(ArgModel::StringLiteral(t.subrange(1, t.len() - 1)))
    } else if wrapped(t, hi) && is_symbol(t.subrange(4, t.len() - 1)) {
        Some(ArgModel::HiDataRef(t.subrange(4, t.len() - 1)))
    } else if wrapped(t, lo) && is_symbol(t.subrange(4, t.len() - 1)) {
        Some(ArgModel::LoDataRef(t.subrange(4, t.len() - 1)))
    } else {
        None
    }
}

/// An indexed memory operand `offset(register)`, or a difference of two symbols.
pub open spec fn arg_compound(t: Seq<char>) -> Option<ArgModel> {
    if t.len() > 0 && t.last() == ')' && find(t, '(') is Some && int_of(
        t.subrange(0, find(t, '(')->Some_0),
    ) is Some && reg_of(t.subrange(find(t, '(')->Some_0 + 1, t.len() - 1)) is Some {
        let p = find(t, '(')->Some_0;
        Some(
            ArgModel::RegOffset(
                reg_of(t.subrange(p + 1, t.len() - 1))->Some_0,
                int_of(t.subrange(0, p))->Some_0,
            ),
        )
    } else if find(t, '-') is Some && is_symbol(trim(t.subrange(0, find(t, '-')->Some_0)))
        && is_symbol(trim(t.subrange(find(t, '-')->Some_0 + 1, t.len() as int))) {
        let p = find(t, '-')->Some_0;
        Some(
            ArgModel::Difference(
                trim(t.subrange(0, p)),
                trim(t.subrange(p + 1, t.len() as int)),
            ),
        )
    } else {
        None
    }
}

/// The argument that a trimmed operand text stands for.
pub open spec fn arg_of(t: Seq<char>) -> Option<ArgModel> {
    if arg_delimited(t) is Some {
        arg_delimited(t)
    } else if int_of(t) is Some {
        Some(ArgModel::Number(int_of(t)->Some_0))
    } else if arg_compound(t) is Some {
        arg_compound(t)
    } else if reg_of(t) is Some {
        Some(ArgModel::Register(reg_of(t)->Some_0))
    } else if is_symbol(t) {
        Some(ArgModel::Symbol(t))
    } else {
        None
    }
}

/// The arguments of a comma-separated operand list, if each operand parses.
pub open spec fn args_of_pieces(pieces: Seq<Seq<char>>) -> Option<Seq<ArgModel>>
    decreases pieces.len(),
{
    if pieces.len() == 0 {
        Some(Seq::empty())
    } else {
        match (args_of_pieces(pieces.drop_last()), arg_of(trim(pieces.last()))) {
            (Some(a), Some(b)) => Some(a.push(b)),
            _ => None,
        }
    }
}

/// The arguments of an operand list; an empty text has none.
pub open spec fn args_of(rest: Seq<char>) -> Option<Seq<ArgModel>> {
    if rest.len() == 0 {
        Some(Seq::empty())
    } else {
        args_of_pieces(split(rest, ',', true))
    }
}

pub open spec fn is_mnemonic(s: Seq<char>) -> bool {
    s.len() > 0 && forall|i: int|
        0 <= i < s.len() ==> (is_alnum(#[trigger] s[i]) || s[i] == '_' || s[i] == '.')
}

/// Position of the first white space in `line` at or after `k`, or the length.
pub open spec fn word_end_from(line: Seq<char>, k: int) -> int
    decreases line.len() - k,
{
    if k < 0 || k >= line.len() {
        line.len() as int
    } else if is_ws(line[k]) {
        k
    } else {
        word_end_from(line, k + 1)
    }
}

/// Length of the first word of `line`: up to the first white space.
pub open spec fn word_end(line: Seq<char>) -> int {
    word_end_from(line, 0)
}

/// The statements of one trimmed, non-empty line: none for a comment, one
/// label, directive or instruction otherwise; `None` if the line does not
/// follow the grammar.
pub open spec fn parse_line_spec(line: Seq<char>) -> Option<Seq<StmtModel>> {
    if line[0] == '#' {
        Some(Seq::empty())
    } else if line.last() == ':' && is_symbol(line.drop_last()) {
        Some(seq![StmtModel::Label(line.drop_last())])
    } else {
        let p = word_end(line);
        let head = line.subrange(0, p);
        let rest = trim(line.subrange(p, line.len() as int));
        if head[0] == '.' {
            if head.len() > 1 && is_mnemonic(head.drop_first()) && args_of(rest) is Some {
                Some(seq![StmtModel::Directive(head.drop_first(), args_of(rest)->Some_0)])
            } else {
                None
            }
        } else if is_mnemonic(head) && args_of(rest) is Some {
            Some(seq![StmtModel::Instruction(head, args_of(rest)->Some_0)])
        } else {
            None
        }
    }
}

/// The statements of the given source lines in order, or the first
/// non-empty trimmed line that does not parse.
pub open spec fn parse_lines(ls: Seq<Seq<char>>) -> Result<Seq<StmtModel>, Seq<char>>
    decreases ls.len(),
{
    if ls.len() == 0 {
        Ok(Seq::empty())
    } else {
        let t = trim(ls[0]);
        if t.len() == 0 {
            parse_lines(ls.drop_first())
        } else {
            match parse_line_spec(t) {
                None => Err(t),
                Some(st) => match parse_lines(ls.drop_first()) {
                    Ok(r) => Ok(st + r),
                    Err(e) => Err(e),
                },
            }
        }
    }
}

/// The statements of a source text, or its first line that does not parse.
pub open spec fn parse_text(s: Seq<char>) -> Result<Seq<StmtModel>, Seq<char>> {
    parse_lines(split(s, '\n', false))
}

/// The calling-convention name at position `k`.
fn abi_str(k: usize) -> (r: &'static str)
    requires
        k < 33,
    ensures
        r@ == abi_name(k as nat),
{
    if k == 0 {
        "zero"
    } else if k == 1 {
        "ra"
    } else if k == 2 {
        "sp"
    } else if k == 3 {
        "gp"
    } else if k == 4 {
        "tp"
    } else if k == 5 {
        "t0"
    } else if k == 6 {
        "t1"
    } else if k == 7 {
        "t2"
    } else if k == 8 {
        "s0"
    } else if k == 9 {
        "s1"
    } else if k == 10 {
        "a0"
    } else if k == 11 {
        "a1"
    } else if k == 12 {
        "a2"
    } else if k == 13 {
        "a3"
    } else if k == 14 {
        "a4"
    } else if k == 15 {
        "a5"
    } else if k == 16 {
        "a6"
    } else if k == 17 {
        "a7"
    } else if k == 18 {
        "s2"
    } else if k == 19 {
        "s3"
    } else if k == 20 {
        "s4"
    } else if k == 21 {
        "s5"
    } else if k == 22 {
        "s6"
    } else if k == 23 {
        "s7"
    } else if k == 24 {
        "s8"
    } else if k == 25 {
        "s9"
    } else if k == 26 {
        "s10"
    } else if k == 27 {
        "s11"
    } else if k == 28 {
        "t3"
    } else if k == 29 {
        "t4"
    } else if k == 30 {
        "t5"
    } else if k == 31 {
        "t6"
    } else {
        "fp"
    }
}

fn is_ws_char(c: char) -> (r: bool)
    ensures
        r == is_ws(c),
{
    c == ' ' || c == '\t' || c == '\r'
}

fn is_alnum_char(c: char) -> (r: bool)
    ensures
        r == is_alnum(c),
{
    ('a' <= c && c <= 'z') || ('A' <= c && c <= 'Z') || ('0' <= c && c <= '9')
}

fn is_sym_char_exec(c: char) -> (r: bool)
    ensures
        r == is_sym_char(c),
{
    is_alnum_char(c) || c == '_' || c == '.' || c == '$' || c == '@'
}

/// The range of `v[from..to]` without the white space around it.
fn trim_range(v: &Vec<char>, from: usize, to: usize) -> (r: (usize, usize))
    requires
        from <= to <= v@.len(),
    ensures
        from <= r.0 <= r.1 <= to,
        v@.subrange(r.0 as int, r.1 as int) == trim(v@.subrange(from as int, to as int)),
{
    let mut a = from;
    while a < to && is_ws_char(v[a])
        invariant
            from <= a <= to <= v@.len(),
            trim_start(v@.subrange(from as int, to as int)) == trim_start(
                v@.subrange(a as int, to as int),
            ),
        decreases to - a,
    {
        assert(v@.subrange(a as int, to as int).drop_first() =~= v@.subrange(a + 1, to as int));
        a = a + 1;
    }
    let mut b = to;
    while b > a && is_ws_char(v[b - 1])
        invariant
            from <= a <= b <= to <= v@.len(),
            trim_end(v@.subrange(a as int, to as int)) == trim_end(v@.subrange(a as int, b as int)),
        decreases b - a,
    {
        assert(v@.subrange(a as int, b as int).drop_last() =~= v@.subrange(a as int, b - 1));
        b = b - 1;
    }
    (a, b)
}

/// Position of the first `c` in `v[from..to]`.
fn find_char(v: &Vec<char>, from: usize, to: usize, c: char) -> (r: Option<usize>)
    requires
        from <= to <= v@.len(),
    ensures
        match r {
            Some(i) => from <= i < to && v@[i as int] == c && find(
                v@.subrange(from as int, to as int),
                c,
            ) == Some((i - from) as int),
            None => find(v@.subrange(from as int, to as int), c) is None,
        },
{
    let ghost t = v@.subrange(from as int, to as int);
    let mut i = from;
    while i < to
        invariant
            from <= i <= to <= v@.len(),
            t == v@.subrange(from as int, to as int),
            find(t, c) == find_from(t, c, i - from),
        decreases to - i,
    {
        if v[i] == c {
            return Some(i);
        }
        i = i + 1;
    }
    None
}

fn check_symbol(v: &Vec<char>, from: usize, to: usize) -> (r: bool)
    requires
        from <= to <= v@.len(),
    ensures
        r == is_symbol(v@.subrange(from as int, to as int)),
{
    let ghost t = v@.subrange(from as int, to as int);
    if from == to || ('0' <= v[from] && v[from] <= '9') {
        return false;
    }
    let mut i = from;
    while i < to
        invariant
            from <= i <= to <= v@.len(),
            t == v@.subrange(from as int, to as int),
            forall|k: int| 0 <= k < i - from ==> is_sym_char(#[trigger] t[k]),
        decreases to - i,
    {
        if !is_sym_char_exec(v[i]) {
            assert(!is_sym_char(t[i - from]));
            return false;
        }
        i = i + 1;
    }
    true
}

fn check_mnemonic(v: &Vec<char>, from: usize, to: usize) -> (r: bool)
    requires
        from <= to <= v@.len(),
    ensures
        r == is_mnemonic(v@.subrange(from as int, to as int)),
{
    let ghost t = v@.subrange(from as int, to as int);
    if from == to {
        return false;
    }
    let mut i = from;
    while i < to
        invariant
            from <= i <= to <= v@.len(),
            t == v@.subrange(from as int, to as int),
            forall|k: int|
                0 <= k < i - from ==> (is_alnum(#[trigger] t[k]) || t[k] == '_' || t[k] == '.'),
        decreases to - i,
    {
        let c = v[i];
        if !(is_alnum_char(c) || c == '_' || c == '.') {
            assert(t[i - from] == c);
            return false;
        }
        i = i + 1;
    }
    true
}

/// A run of digits is worth at least each of its prefixes.
proof fn lemma_digits_val_prefix(s: Seq<char>, base: nat, k: int)
    requires
        0 <= k <= s.len(),
        base >= 1,
    ensures
        digits_val(s.subrange(0, k), base) <= digits_val(s, base),
    decreases s.len(),
{
    if k < s.len() {
        lemma_digits_val_prefix(s.drop_last(), base, k);
        assert(s.drop_last().subrange(0, k) =~= s.subrange(0, k));
        let d = digits_val(s.drop_last(), base);
        assert(d <= d * base) by (nonlinear_arith)
            requires base >= 1;
    } else {
        assert(s.subrange(0, k) =~= s);
    }
}

const MAGNITUDE_CAP: u64 = 0x8000_0000_0000_0000;

/// The value of the digits `v[from..to]` in `base`, if all are digits of the
/// base, they are not empty, and the value is at most `2^63`.
fn parse_digits(v: &Vec<char>, from: usize, to: usize, base: u64) -> (r: Option<u64>)
    requires
        from <= to <= v@.len(),
        base == 10 || base == 16,
    ensures
        ({
            let t = v@.subrange(from as int, to as int);
            let ok = t.len() > 0 && (if base == 16 {
                all_hex_digits(t)
            } else {
                all_dec_digits(t)
            });
            match r {
                Some(m) => ok && m as nat == digits_val(t, base as nat) && m <= MAGNITUDE_CAP,
                None => !ok || digits_val(t, base as nat) > MAGNITUDE_CAP,
            }
        }),
{
    let ghost t = v@.subrange(from as int, to as int);
    if from == to {
        return None;
    }
    let mut acc: u64 = 0;
    let mut i = from;
    while i < to
        invariant
            from <= i <= to <= v@.len(),
            base == 10 || base == 16,
            t == v@.subrange(from as int, to as int),
            acc as nat == digits_val(t.subrange(0, i - from), base as nat),
            acc <= MAGNITUDE_CAP,
            forall|k: int|
                0 <= k < i - from ==> (if base == 16 {
                    is_hex_digit(#[trigger] t[k])
                } else {
                    is_dec_digit(t[k])
                }),
        decreases to - i,
    {
        let c = v[i];
        let d: u64 = if '0' <= c && c <= '9' {
            (c as u32 - '0' as u32) as u64
        } else if base == 16 && 'a' <= c && c <= 'f' {
            (c as u32 - 'a' as u32 + 10) as u64
        } else if base == 16 && 'A' <= c && c <= 'F' {
            (c as u32 - 'A' as u32 + 10) as u64
        } else {
            assert(t[i - from] == c);
            return None;
        };
        let ghost pre = t.subrange(0, i - from);
        let ghost cur = t.subrange(0, i + 1 - from);
        assert(cur.drop_last() =~= pre);
        assert(cur.last() == c);
        let lim: u64 = (MAGNITUDE_CAP - d) / base;
        let ghost (ai, bi, di, li, ci) = (
            acc as int,
            base as int,
            d as int,
            lim as int,
            MAGNITUDE_CAP as int,
        );
        assert(li == (ci - di) / bi);
        if acc > lim {
            proof {
                assert(ai * bi + di > ci) by (nonlinear_arith)
                    requires
                        ai > li,
                        li == (ci - di) / bi,
                        bi >= 1,
                        di < bi,
                        ci >= di,
                ;
                lemma_digits_val_prefix(t, base as nat, i + 1 - from);
            }
            return None;
        }
        assert(ai * bi + di <= ci) by (nonlinear_arith)
            requires
                ai <= li,
                li == (ci - di) / bi,
                bi >= 1,
                di < bi,
                ci >= di,
        ;
        acc = acc * base + d;
        i = i + 1;
    }
    assert(t.subrange(0, t.len() as int) =~= t);
    Some(acc)
}

/// The value of the integer literal `v[from..to]`.
fn parse_int(v: &Vec<char>, from: usize, to: usize) -> (r: Option<i64>)
    requires
        from <= to <= v@.len(),
    ensures
        match r {
            Some(n) => int_of(v@.subrange(from as int, to as int)) == Some(n as int),
            None => int_of(v@.subrange(from as int, to as int)) is None,
        },
{
    let ghost t = v@.subrange(from as int, to as int);
    let neg = from < to && v[from] == '-';
    let start = if neg {
        from + 1
    } else {
        from
    };
    let ghost body = v@.subrange(start as int, to as int);
    assert(body =~= (if neg {
        t.drop_first()
    } else {
        t
    }));
    let hex = to - start > 2 && v[start] == '0' && (v[start + 1] == 'x' || v[start + 1] == 'X');
    let m = if hex {
        assert(body.skip(2) =~= v@.subrange(start + 2, to as int));
        match parse_digits(v, start + 2, to, 16) {
            Some(m) => m,
            None => return None,
        }
    } else {
        match parse_digits(v, start, to, 10) {
            Some(m) => m,
            None => return None,
        }
    };
    if neg {
        Some((-(m as i128)) as i64)
    } else if m <= 0x7fff_ffff_ffff_ffff {
        Some(m as i64)
    } else {
        None
    }
}

/// The register that `v[from..to]` names.
fn parse_reg(v: &Vec<char>, from: usize, to: usize) -> (r: Option<Register>)
    requires
        from <= to <= v@.len(),
    ensures
        match r {
            Some(reg) => reg_of(v@.subrange(from as int, to as int)) == Some(reg@),
            None => reg_of(v@.subrange(from as int, to as int)) is None,
        },
{
    let ghost t = v@.subrange(from as int, to as int);
    let len = to - from;
    if 2 <= len && len <= 3 && v[from] == 'x' && (len == 2 || v[from + 1] != '0') {
        assert(t.drop_first() =~= v@.subrange(from + 1, to as int));
        if let Some(n) = parse_digits(v, from + 1, to, 10) {
            if n < 32 {
                return Some(Register(n as u8));
            }
        }
    }
    let mut k: usize = 0;
    while k < 33
        invariant
            k <= 33,
            from <= to <= v@.len(),
            t == v@.subrange(from as int, to as int),
            reg_of(t) == abi_from(t, k as nat),
        decreases 33 - k,
    {
        if crate::text::chars_match(v, from, to, abi_str(k)) {
            let idx: u8 = if k == 32 {
                8
            } else {
                k as u8
            };
            return Some(Register(idx));
        }
        k = k + 1;
    }
    None
}

/// The text `line[from..to]` as a string of its own.
fn substring(line: &str, v: &Vec<char>, from: usize, to: usize) -> (r: String)
    requires
        v@ == line@,
        from <= to <= v@.len(),
    ensures
        r@ == v@.subrange(from as int, to as int),
{
    String::from_str(line.substring_char(from, to))
}

fn parse_delimited(line: &str, v: &Vec<char>, from: usize, to: usize) -> (r: Option<Argument>)
    requires
        v@ == line@,
        from <= to <= v@.len(),
    ensures
        match r {
            Some(a) => arg_delimited(v@.subrange(from as int, to as int)) == Some(a@),
            None => arg_delimited(v@.subrange(from as int, to as int)) is None,
        },
{
    let ghost t = v@.subrange(from as int, to as int);
    let len = to - from;
    if len >= 2 && v[from] == '"' && v[to - 1] == '"' {
        assert(t.subrange(1, t.len() - 1) =~= v@.subrange(from + 1, to - 1));
        if find_char(v, from + 1, to - 1, '"').is_none() {
            return Some(Argument::StringLiteral(substring(line, v, from + 1, to - 1)));
        }
    }
    if len >= 5 && v[from] == '%' && v[from + 2] == 'i' && v[from + 1] == 'h' && v[from + 3] == '('
        && v[to - 1] == ')' {
        assert(t.subrange(0, 4) =~= seq!['%', 'h', 'i', '(']);
        assert(t.subrange(4, t.len() - 1) =~= v@.subrange(from + 4, to - 1));
        if check_symbol(v, from + 4, to - 1) {
            return Some(Argument::HiDataRef(substring(line, v, from + 4, to - 1)));
        }
    }
    if len >= 5 && v[from] == '%' && v[from + 1] == 'l' && v[from + 2] == 'o' && v[from + 3] == '('
        && v[to - 1] == ')' {
        assert(t.subrange(0, 4) =~= seq!['%', 'l', 'o', '(']);
        assert(t.subrange(4, t.len() - 1) =~= v@.subrange(from + 4, to - 1));
        if check_symbol(v, from + 4, to - 1) {
            return Some(Argument::LoDataRef(substring(line, v, from + 4, to - 1)));
        }
    }
    proof {
        let hi = seq!['%', 'h', 'i', '('];
        let lo = seq!['%', 'l', 'o', '('];
        if wrapped(t, hi) {
            assert(t[0] == hi[0] && t[1] == hi[1] && t[2] == hi[2] && t[3] == hi[3]);
            assert(t.subrange(4, t.len() - 1) =~= v@.subrange(from + 4, to - 1));
        }
        if wrapped(t, lo) {
            assert(t[0] == lo[0] && t[1] == lo[1] && t[2] == lo[2] && t[3] == lo[3]);
            assert(t.subrange(4, t.len() - 1) =~= v@.subrange(from + 4, to - 1));
        }
    }
    None
}

fn parse_compound(line: &str, v: &Vec<char>, from: usize, to: usize) -> (r: Option<Argument>)
    requires
        v@ == line@,
        from <= to <= v@.len(),
    ensures
        match r {
            Some(a) => arg_compound(v@.subrange(from as int, to as int)) == Some(a@),
            None => arg_compound(v@.subrange(from as int, to as int)) is None,
        },
{
    let ghost t = v@.subrange(from as int, to as int);
    let len = to - from;
    if len > 0 && v[to - 1] == ')' {
        if let Some(p) = find_char(v, from, to, '(') {
            assert(p < to - 1);
            assert(t.subrange(0, p - from) =~= v@.subrange(from as int, p as int));
            assert(t.subrange(p - from + 1, t.len() - 1) =~= v@.subrange(p + 1, to - 1));
            if let Some(off) = parse_int(v, from, p) {
                if let Some(reg) = parse_reg(v, p + 1, to - 1) {
                    return Some(Argument::RegOffset(reg, off));
                }
            }
        }
    }
    if let Some(p) = find_char(v, from, to, '-') {
        let (a1, b1) = trim_range(v, from, p);
        let (a2, b2) = trim_range(v, p + 1, to);
        assert(t.subrange(0, p - from) =~= v@.subrange(from as int, p as int));
        assert(t.subrange(p - from + 1, t.len() as int) =~= v@.subrange(p + 1, to as int));
        if check_symbol(v, a1, b1) && check_symbol(v, a2, b2) {
            return Some(
                Argument::Difference(substring(line, v, a1, b1), substring(line, v, a2, b2)),
            );
        }
    }
    None
}

/// The argument that the trimmed operand text `v[from..to]` stands for.
fn parse_argument(line: &str, v: &Vec<char>, from: usize, to: usize) -> (r: Option<Argument>)
    requires
        v@ == line@,
        from <= to <= v@.len(),
    ensures
        match r {
            Some(a) => arg_of(v@.subrange(from as int, to as int)) == Some(a@),
            None => arg_of(v@.subrange(from as int, to as int)) is None,
        },
{
    if let Some(a) = parse_delimited(line, v, from, to) {
        return Some(a);
    }
    if let Some(n) = parse_int(v, from, to) {
        return Some(Argument::Number(n));
    }
    if let Some(a) = parse_compound(line, v, from, to) {
        return Some(a);
    }
    if let Some(reg) = parse_reg(v, from, to) {
        return Some(Argument::Register(reg));
    }
    if check_symbol(v, from, to) {
        return Some(Argument::Symbol(substring(line, v, from, to)));
    }
    None
}

/// The ranges of the pieces of `v[from..to]` between occurrences of `sep`.
fn split_ranges(v: &Vec<char>, from: usize, to: usize, sep: char, quotes: bool) -> (r: Vec<
    (usize, usize),
>)
    requires
        from <= to <= v@.len(),
    ensures
        r@.len() == split(v@.subrange(from as int, to as int), sep, quotes).len(),
        forall|k: int|
            0 <= k < r@.len() ==> {
                &&& from <= (#[trigger] r@[k]).0 <= r@[k].1 <= to
                &&& v@.subrange(r@[k].0 as int, r@[k].1 as int) == split(
                    v@.subrange(from as int, to as int),
                    sep,
                    quotes,
                )[k]
            },
{
    let ghost t = v@.subrange(from as int, to as int);
    let mut out: Vec<(usize, usize)> = Vec::new();
    let ghost mut pieces: Seq<Seq<char>> = Seq::empty();
    let mut start = from;
    let mut in_quote = false;
    let mut i = from;
    while i < to
        invariant
            from <= start <= i <= to <= v@.len(),
            t == v@.subrange(from as int, to as int),
            out@.len() == pieces.len(),
            forall|k: int|
                0 <= k < out@.len() ==> {
                    &&& from <= (#[trigger] out@[k]).0 <= out@[k].1 <= to
                    &&& v@.subrange(out@[k].0 as int, out@[k].1 as int) == pieces[k]
                },
            pieces + split_from(t, sep, quotes, i - from, start - from, in_quote) == split(
                t,
                sep,
                quotes,
            ),
        decreases to - i,
    {
        let c = v[i];
        if quotes && c == '"' {
            in_quote = !in_quote;
        } else if c == sep && !in_quote {
            out.push((start, i));
            proof {
                let piece = t.subrange(start - from, i - from);
                assert(piece =~= v@.subrange(start as int, i as int));
                assert(pieces.push(piece) + split_from(t, sep, quotes, i + 1 - from, i + 1 - from, false)
                    =~= pieces + split_from(t, sep, quotes, i - from, start - from, in_quote));
                pieces = pieces.push(piece);
            }
            start = i + 1;
        }
        i = i + 1;
    }
    out.push((start, to));
    proof {
        let piece = t.subrange(start - from, t.len() as int);
        assert(piece =~= v@.subrange(start as int, to as int));
        assert(pieces.push(piece) =~= pieces + split_from(t, sep, quotes, i - from, start - from, in_quote));
        pieces = pieces.push(piece);
    }
    out
}

/// An operand that does not parse makes the whole list fail.
proof fn lemma_args_none_extends(s: Seq<Seq<char>>, k: int)
    requires
        0 <= k <= s.len(),
        args_of_pieces(s.subrange(0, k)) is None,
    ensures
        args_of_pieces(s) is None,
    decreases s.len() - k,
{
    if k < s.len() {
        let next = s.subrange(0, k + 1);
        assert(next.drop_last() =~= s.subrange(0, k));
        lemma_args_none_extends(s, k + 1);
    } else {
        assert(s.subrange(0, k) =~= s);
    }
}

/// The arguments of the operand list `v[from..to]`.
fn parse_args(line: &str, v: &Vec<char>, from: usize, to: usize) -> (r: Option<Vec<Argument>>)
    requires
        v@ == line@,
        from <= to <= v@.len(),
    ensures
        match r {
            Some(args) => args_of(v@.subrange(from as int, to as int)) == Some(args_view(args@)),
            None => args_of(v@.subrange(from as int, to as int)) is None,
        },
{
    let ghost t = v@.subrange(from as int, to as int);
    let mut args: Vec<Argument> = Vec::new();
    if from == to {
        assert(args_view(args@) =~= Seq::<ArgModel>::empty());
        return Some(args);
    }
    let ranges = split_ranges(v, from, to, ',', true);
    let ghost pieces = split(t, ',', true);
    let mut k: usize = 0;
    while k < ranges.len()
        invariant
            k <= ranges@.len() == pieces.len(),
            v@ == line@,
            pieces == split(t, ',', true),
            from < to <= v@.len(),
            t == v@.subrange(from as int, to as int),
            forall|j: int|
                0 <= j < ranges@.len() ==> {
                    &&& from <= (#[trigger] ranges@[j]).0 <= ranges@[j].1 <= to
                    &&& v@.subrange(ranges@[j].0 as int, ranges@[j].1 as int) == pieces[j]
                },
            args_of_pieces(pieces.subrange(0, k as int)) == Some(args_view(args@)),
        decreases ranges@.len() - k,
    {
        let (a, b) = ranges[k];
        let (a1, b1) = trim_range(v, a, b);
        let ghost cur = pieces.subrange(0, k + 1);
        assert(cur.drop_last() =~= pieces.subrange(0, k as int));
        assert(cur.last() == pieces[k as int]);
        match parse_argument(line, v, a1, b1) {
            Some(arg) => {
                assert(v@.subrange(a as int, b as int) == pieces[k as int]);
                args.push(arg);
                assert(args_view(args@) =~= args_view(args@).drop_last().push(arg@));
                assert(args_view(args@).drop_last() =~= args_view(args@.drop_last()));
            },
            None => {
                proof {
                    assert(v@.subrange(a as int, b as int) == pieces[k as int]);
                    assert(arg_of(trim(cur.last())) is None);
                    assert(args_of_pieces(cur) is None);
                    lemma_args_none_extends(pieces, k + 1);
                    assert(t.len() != 0);
                    assert(args_of(t) is None);
                }
                return None;
            },
        }
        k = k + 1;
    }
    assert(pieces.subrange(0, pieces.len() as int) =~= pieces);
    Some(args)
}

/// Parses one trimmed, non-empty source line into its statements: none for a
/// comment, one label, directive or instruction otherwise.
pub fn parse_line(line: &str) -> (r: Result<Vec<Statement>, Error>)
    requires
        line@.len() > 0,
    ensures
        match r {
            Ok(st) => parse_line_spec(line@) == Some(stmts_view(st@)),
            Err(e) => parse_line_spec(line@) is None && e@ == (ErrorKind::Syntax, line@),
        },
{
    let v = chars_of(line);
    let n = v.len();
    let mut out: Vec<Statement> = Vec::new();
    if v[0] == '#' {
        assert(stmts_view(out@) =~= Seq::<StmtModel>::empty());
        return Ok(out);
    }
    if v[n - 1] == ':' && check_symbol(&v, 0, n - 1) {
        assert(v@.subrange(0, n - 1) =~= v@.drop_last());
        out.push(Statement::Label(substring(line, &v, 0, n - 1)));
        assert(stmts_view(out@) =~= seq![StmtModel::Label(line@.drop_last())]);
        return Ok(out);
    }
    proof {
        if v@.last() == ':' {
            assert(v@.subrange(0, n - 1) =~= v@.drop_last());
        }
    }
    let mut p: usize = 0;
    while p < n && !is_ws_char(v[p])
        invariant
            p <= n == v@.len(),
            word_end(v@) == word_end_from(v@, p as int),
        decreases n - p,
    {
        p = p + 1;
    }
    let (a, b) = trim_range(&v, p, n);
    let ghost head = v@.subrange(0, p as int);
    let ghost rest = trim(v@.subrange(p as int, n as int));
    if v[0] == '.' {
        assert(head.drop_first() =~= v@.subrange(1, p as int));
        if p > 1 && check_mnemonic(&v, 1, p) {
            if let Some(args) = parse_args(line, &v, a, b) {
                out.push(Statement::Directive(substring(line, &v, 1, p), args));
                assert(stmts_view(out@) =~= parse_line_spec(line@)->Some_0);
                return Ok(out);
            }
        }
    } else if check_mnemonic(&v, 0, p) {
        if let Some(args) = parse_args(line, &v, a, b) {
            out.push(Statement::Instruction(substring(line, &v, 0, p), args));
            assert(stmts_view(out@) =~= parse_line_spec(line@)->Some_0);
            return Ok(out);
        }
    }
    Err(Error::new(ErrorKind::Syntax, line))
}

/// The statements `acc` put before the outcome of parsing the remaining lines.
pub open spec fn prepend(acc: Seq<StmtModel>, rest: Result<Seq<StmtModel>, Seq<char>>) -> Result<
    Seq<StmtModel>,
    Seq<char>,
> {
    match rest {
        Ok(r) => Ok(acc + r),
        Err(e) => Err(e),
    }
}

/// Parses a whole source text: splits it into lines, trims each, skips the
/// empty ones and parses the others in order. The first line that does not
/// parse fails the whole text.
pub fn parse_asm(input: &str) -> (r: Result<Vec<Statement>, Error>)
    ensures
        match r {
            Ok(st) => parse_text(input@) == Ok::<Seq<StmtModel>, Seq<char>>(stmts_view(st@)),
            Err(e) => e.kind == ErrorKind::Syntax && parse_text(input@) == Err::<
                Seq<StmtModel>,
                Seq<char>,
            >(e.subject@),
        },
{
    let v = chars_of(input);
    let n = v.len();
    let ranges = split_ranges(&v, 0, n, '\n', false);
    assert(v@.subrange(0, n as int) =~= input@);
    let ghost ls = split(input@, '\n', false);
    let mut out: Vec<Statement> = Vec::new();
    let mut k: usize = 0;
    assert(ls.skip(0) =~= ls);
    assert(stmts_view(out@) =~= Seq::<StmtModel>::empty());
    assert(Seq::<StmtModel>::empty() + Seq::<StmtModel>::empty() =~= Seq::<StmtModel>::empty());
    while k < ranges.len()
        invariant
            k <= ranges@.len() == ls.len(),
            v@ == input@,
            n == v@.len(),
            ls == split(input@, '\n', false),
            forall|j: int|
                0 <= j < ranges@.len() ==> {
                    &&& 0 <= (#[trigger] ranges@[j]).0 <= ranges@[j].1 <= n
                    &&& v@.subrange(ranges@[j].0 as int, ranges@[j].1 as int) == ls[j]
                },
            parse_lines(ls) == prepend(stmts_view(out@), parse_lines(ls.skip(k as int))),
        decreases ranges@.len() - k,
    {
        let (a, b) = ranges[k];
        let (a1, b1) = trim_range(&v, a, b);
        assert(ls.skip(k as int).drop_first() =~= ls.skip(k + 1));
        assert(ls.skip(k as int)[0] == ls[k as int]);
        assert(v@.subrange(a as int, b as int) == ls[k as int]);
        if a1 < b1 {
            let line = input.substring_char(a1, b1);
            match parse_line(line) {
                Ok(mut st) => {
                    let ghost before = out@;
                    let ghost stv = stmts_view(st@);
                    assert(line@ == trim(ls[k as int]));
                    out.append(&mut st);
                    proof {
                        assert(stmts_view(out@) =~= stmts_view(before) + stv);
                        let rest = parse_lines(ls.skip(k + 1));
                        assert(parse_lines(ls.skip(k as int)) == match rest {
                            Ok(x) => Ok(stv + x),
                            Err(e) => Err::<Seq<StmtModel>, Seq<char>>(e),
                        });
                        match rest {
                            Ok(x) => {
                                assert(stmts_view(before) + (stv + x) =~= stmts_view(out@) + x);
                            },
                            Err(_) => {},
                        }
                    }
                },
                Err(e) => {
                    return Err(e);
                },
            }
        } else {
            assert(trim(ls[k as int]).len() == 0);
        }
        k = k + 1;
    }
    assert(ls.skip(k as int) =~= Seq::<Seq<char>>::empty());
    assert(stmts_view(out@) + Seq::<StmtModel>::empty() =~= stmts_view(out@));
    Ok(out)
}

/// The arguments whose canonical text parses back to them: registers of the
/// register file, numbers of 64 bits, string literals without a double
/// quote, and symbols that are not register names.
pub open spec fn arg_wf(a: ArgModel) -> bool {
    match a {
        ArgModel::Register(r) => r < 32,
        ArgModel::Number(n) => i64::MIN <= n <= i64::MAX,
        ArgModel::RegOffset(r, o) => r < 32 && i64::MIN <= o <= i64::MAX,
        ArgModel::StringLiteral(s) => forall|i: int| 0 <= i < s.len() ==> s[i] != '"',
        ArgModel::Symbol(s) => is_symbol(s) && reg_of(s) is None,
        ArgModel::HiDataRef(s) => is_symbol(s),
        ArgModel::LoDataRef(s) => is_symbol(s),
        ArgModel::Difference(a, b) => is_symbol(a) && is_symbol(b),
    }
}

proof fn lemma_find_none(t: Seq<char>, c: char, k: int)
    requires
        0 <= k,
        forall|i: int| k <= i < t.len() ==> t[i] != c,
    ensures
        find_from(t, c, k) is None,
    decreases t.len() - k,
{
    if k < t.len() {
        lemma_find_none(t, c, k + 1);
    }
}

proof fn lemma_find_at(t: Seq<char>, c: char, k: int, p: int)
    requires
        0 <= k <= p < t.len(),
        t[p] == c,
        forall|i: int| k <= i < p ==> t[i] != c,
    ensures
        find_from(t, c, k) == Some(p),
    decreases p - k,
{
    if k < p {
        lemma_find_at(t, c, k + 1, p);
    }
}

/// The decimal text of a 64-bit integer parses back to it.
proof fn lemma_int_text(n: int)
    requires
        i64::MIN <= n <= i64::MAX,
    ensures
        int_of(int_text(n)) == Some(n),
        int_text(n).len() > 0,
        forall|i: int|
            0 <= i < int_text(n).len() ==> is_dec_digit(#[trigger] int_text(n)[i]) || (i == 0
                && int_text(n)[i] == '-'),
        int_text(n)[0] == '-' <==> n < 0,
{
    let m: nat = if n < 0 {
        (-n) as nat
    } else {
        n as nat
    };
    lemma_dec_digits(m);
    let d = dec(m);
    let t = int_text(n);
    if n < 0 {
        assert(t.drop_first() =~= d);
        assert forall|i: int| 0 <= i < t.len() implies is_dec_digit(#[trigger] t[i]) || (i == 0
            && t[i] == '-') by {
            if i > 0 {
                assert(t[i] == d[i - 1]);
            }
        }
    }
    if d.len() > 2 {
        assert(is_dec_digit(d[1]));
    }
}

/// The canonical text of a register names it.
proof fn lemma_reg_text(r: nat)
    requires
        r < 32,
    ensures
        reg_of(reg_text(r)) == Some(r),
        reg_text(r)[0] == 'x',
        reg_text(r).len() >= 2,
        forall|i: int| 1 <= i < reg_text(r).len() ==> is_dec_digit(#[trigger] reg_text(r)[i]),
{
    lemma_dec_digits(r);
    let t = reg_text(r);
    assert(t.drop_first() =~= dec(r));
    if r >= 10 {
        assert(dec(r) == dec(r / 10).push(digit_char(r % 10)));
        assert(dec(r / 10).len() == 1);
    }
    assert forall|i: int| 1 <= i < t.len() implies is_dec_digit(#[trigger] t[i]) by {
        assert(t[i] == dec(r)[i - 1]);
    }
}

proof fn lemma_trim_symbol(a: Seq<char>)
    requires
        is_symbol(a),
    ensures
        trim(a.push(' ')) == a,
        trim(seq![' '] + a) == a,
{
    assert(!is_ws(a[0]));
    assert(!is_ws(a.last()));
    let p = a.push(' ');
    assert(p[0] == a[0]);
    assert(trim_start(p) == p);
    assert(p.drop_last() =~= a);
    assert(trim_end(p) == trim_end(a));
    let q = seq![' '] + a;
    assert(q.drop_first() =~= a);
    assert(trim_start(q) == trim_start(a));
}

proof fn lemma_round_trip_register(r: nat)
    requires
        arg_wf(ArgModel::Register(r)),
    ensures
        arg_of(arg_text(ArgModel::Register(r))) == Some(ArgModel::Register(r)),
{
    let t = arg_text(ArgModel::Register(r));
    lemma_reg_text(r);
    if t.len() >= 4 {
        assert(t.subrange(0, 4)[0] == t[0]);
    }
    assert(!is_dec_digit(t[0]));
    lemma_find_none(t, '-', 0);
    lemma_find_none(t, '(', 0);
    assert(arg_delimited(t) is None);
    assert(int_of(t) is None);
    assert(arg_compound(t) is None);
}

proof fn lemma_round_trip_number(n: int)
    requires
        arg_wf(ArgModel::Number(n)),
    ensures
        arg_of(arg_text(ArgModel::Number(n))) == Some(ArgModel::Number(n)),
{
    let t = arg_text(ArgModel::Number(n));
    lemma_int_text(n);
    if t.len() >= 4 {
        assert(t.subrange(0, 4)[0] == t[0]);
    }
    assert(arg_delimited(t) is None);
}

proof fn lemma_round_trip_reg_offset(r: nat, o: int)
    requires
        arg_wf(ArgModel::RegOffset(r, o)),
    ensures
        arg_of(arg_text(ArgModel::RegOffset(r, o))) == Some(ArgModel::RegOffset(r, o)),
{
    let t = arg_text(ArgModel::RegOffset(r, o));
    lemma_int_text(o);
    lemma_reg_text(r);
    let it = int_text(o);
    let rt = reg_text(r);
    let p = it.len() as int;
    assert(t == it + seq!['('] + rt + seq![')']);
    assert(t[0] == it[0]);
    if t.len() >= 4 {
        assert(t.subrange(0, 4)[0] == t[0]);
    }
    assert(arg_delimited(t) is None);
    assert(t[p] == '(');
    assert forall|i: int| 0 <= i < p implies t[i] != '(' by {
        assert(t[i] == it[i]);
    }
    lemma_find_at(t, '(', 0, p);
    assert(t.subrange(0, p) =~= it);
    assert(t.subrange(p + 1, t.len() - 1) =~= rt);
    let neg = t.len() > 0 && t[0] == '-';
    let body = if neg {
        t.drop_first()
    } else {
        t
    };
    let q = if neg {
        p - 1
    } else {
        p
    };
    assert(body[q] == '(');
    assert(!is_dec_digit(body[q]));
    if body.len() > 2 && body[0] == '0' {
        if q > 1 {
            assert(body[1] == t[if neg {
                2int
            } else {
                1int
            }]);
            assert(is_dec_digit(body[1]));
        }
        if q == 1 {
            assert(body[1] == '(');
        }
        if q == 0 {
            assert(body[0] == '(');
        }
    }
    assert(magnitude_of(body) is None);
    assert(int_of(t) is None);
}

proof fn lemma_round_trip_string_literal(s: Seq<char>)
    requires
        arg_wf(ArgModel::StringLiteral(s)),
    ensures
        arg_of(arg_text(ArgModel::StringLiteral(s))) == Some(ArgModel::StringLiteral(s)),
{
    let t = arg_text(ArgModel::StringLiteral(s));
    assert(t.subrange(1, t.len() - 1) =~= s);
    lemma_find_none(s, '"', 0);
}

proof fn lemma_round_trip_symbol(s: Seq<char>)
    requires
        arg_wf(ArgModel::Symbol(s)),
    ensures
        arg_of(arg_text(ArgModel::Symbol(s))) == Some(ArgModel::Symbol(s)),
{
    let t = arg_text(ArgModel::Symbol(s));
    assert(is_sym_char(s[0]));
    assert(is_sym_char(s.last()));
    if t.len() >= 4 {
        assert(t.subrange(0, 4)[0] == t[0]);
    }
    assert(arg_delimited(t) is None);
    assert(int_of(t) is None);
    assert forall|i: int| 0 <= i < s.len() implies s[i] != '-' by {
        assert(is_sym_char(s[i]));
    }
    lemma_find_none(s, '-', 0);
    assert(arg_compound(t) is None);
}

proof fn lemma_round_trip_hi_data_ref(s: Seq<char>)
    requires
        arg_wf(ArgModel::HiDataRef(s)),
    ensures
        arg_of(arg_text(ArgModel::HiDataRef(s))) == Some(ArgModel::HiDataRef(s)),
{
    let t = arg_text(ArgModel::HiDataRef(s));
    let hi = seq!['%', 'h', 'i', '('];
    assert(t.subrange(0, 4) =~= hi);
    assert(t.subrange(4, t.len() - 1) =~= s);
}

proof fn lemma_round_trip_lo_data_ref(s: Seq<char>)
    requires
        arg_wf(ArgModel::LoDataRef(s)),
    ensures
        arg_of(arg_text(ArgModel::LoDataRef(s))) == Some(ArgModel::LoDataRef(s)),
{
    let t = arg_text(ArgModel::LoDataRef(s));
    let hi = seq!['%', 'h', 'i', '('];
    let lo = seq!['%', 'l', 'o', '('];
    assert(t.subrange(0, 4) =~= lo);
    assert(t.subrange(0, 4)[1] != hi[1]);
    assert(t.subrange(4, t.len() - 1) =~= s);
}

proof fn lemma_round_trip_difference(x: Seq<char>, y: Seq<char>)
    requires
        arg_wf(ArgModel::Difference(x, y)),
    ensures
        arg_of(arg_text(ArgModel::Difference(x, y))) == Some(ArgModel::Difference(x, y)),
{
    let t = arg_text(ArgModel::Difference(x, y));
    assert(is_sym_char(x[0]));
    assert(is_sym_char(y.last()));
    assert(t[0] == x[0]);
    assert(t.last() == y.last());
    if t.len() >= 4 {
        assert(t.subrange(0, 4)[0] == t[0]);
    }
    assert(arg_delimited(t) is None);
    assert(int_of(t) is None);
    let p = x.len() + 1int;
    assert forall|i: int| 0 <= i < p implies t[i] != '-' by {
        if i < x.len() {
            assert(t[i] == x[i]);
            assert(is_sym_char(x[i]));
        }
    }
    assert(t[p] == '-');
    lemma_find_at(t, '-', 0, p);
    assert(t.subrange(0, p) =~= x.push(' '));
    assert(t.subrange(p + 1, t.len() as int) =~= seq![' '] + y);
    lemma_trim_symbol(x);
    lemma_trim_symbol(y);
    assert(arg_compound(t) == Some(ArgModel::Difference(x, y)));
}

/// Rendering an argument and parsing the text as an operand gives the
/// argument back.
pub proof fn lemma_argument_round_trip(a: ArgModel)
    requires
        arg_wf(a),
    ensures
        arg_of(arg_text(a)) == Some(a),
{
    match a {
        ArgModel::Register(r) => lemma_round_trip_register(r),
        ArgModel::Number(n) => lemma_round_trip_number(n),
        ArgModel::RegOffset(r, o) => lemma_round_trip_reg_offset(r, o),
        ArgModel::StringLiteral(s) => lemma_round_trip_string_literal(s),
        ArgModel::Symbol(s) => lemma_round_trip_symbol(s),
        ArgModel::HiDataRef(s) => lemma_round_trip_hi_data_ref(s),
        ArgModel::LoDataRef(s) => lemma_round_trip_lo_data_ref(s),
        ArgModel::Difference(x, y) => lemma_round_trip_difference(x, y),
    }
}

/// Characters that the text of an argument other than a string literal uses.
pub open spec fn is_operand_char(c: char) -> bool {
    is_sym_char(c) || c == '-' || c == '(' || c == ')' || c == '%' || c == ' '
}

/// An argument whose text parses back to it and stays on one line.
pub open spec fn arg_plain(a: ArgModel) -> bool {
    arg_wf(a) && match a {
        ArgModel::StringLiteral(s) => forall|i: int| 0 <= i < s.len() ==> s[i] != '\n',
        _ => true,
    }
}

/// Whether scanning `s` from `i`, inside quotes where `q` holds, meets no
/// separator outside quotes (the scan of [`split_from`]).
pub open spec fn no_open_sep(s: Seq<char>, sep: char, quotes: bool, i: int, q: bool) -> bool
    decreases s.len() - i,
{
    if i >= s.len() || i < 0 {
        true
    } else if quotes && s[i] == '"' {
        no_open_sep(s, sep, quotes, i + 1, !q)
    } else if s[i] == sep && !q {
        false
    } else {
        no_open_sep(s, sep, quotes, i + 1, q)
    }
}

/// Whether the scan of `s` from `i`, inside quotes where `q` holds, ends
/// inside quotes.
pub open spec fn end_state(s: Seq<char>, quotes: bool, i: int, q: bool) -> bool
    decreases s.len() - i,
{
    if i >= s.len() || i < 0 {
        q
    } else if quotes && s[i] == '"' {
        end_state(s, quotes, i + 1, !q)
    } else {
        end_state(s, quotes, i + 1, q)
    }
}

proof fn lemma_scan_plain(s: Seq<char>, sep: char, quotes: bool, i: int, q: bool)
    requires
        0 <= i,
        forall|k: int| i <= k < s.len() ==> s[k] != '"' && (q || s[k] != sep),
    ensures
        no_open_sep(s, sep, quotes, i, q),
        end_state(s, quotes, i, q) == q,
    decreases s.len() - i,
{
    if i < s.len() {
        lemma_scan_plain(s, sep, quotes, i + 1, q);
    }
}

proof fn lemma_scan_shift(s: Seq<char>, off: int, t: Seq<char>, sep: char, j: int, q: bool)
    requires
        0 <= off,
        0 <= j,
        off + t.len() == s.len(),
        s.subrange(off, s.len() as int) == t,
    ensures
        no_open_sep(s, sep, true, off + j, q) == no_open_sep(t, sep, true, j, q),
        end_state(s, true, off + j, q) == end_state(t, true, j, q),
    decreases t.len() - j,
{
    if j < t.len() {
        assert(s[off + j] == t[j]);
        lemma_scan_shift(s, off, t, sep, j + 1, !q);
        lemma_scan_shift(s, off, t, sep, j + 1, q);
    }
}

proof fn lemma_end_state_concat(a: Seq<char>, b: Seq<char>, i: int, q: bool)
    requires
        0 <= i <= a.len(),
    ensures
        end_state(a + b, true, i, q) == end_state(b, true, 0, end_state(a, true, i, q)),
    decreases a.len() - i,
{
    if i < a.len() {
        assert((a + b)[i] == a[i]);
        lemma_end_state_concat(a, b, i + 1, !q);
        lemma_end_state_concat(a, b, i + 1, q);
    } else {
        assert((a + b).subrange(a.len() as int, (a + b).len() as int) =~= b);
        lemma_scan_shift(a + b, a.len() as int, b, ',', 0, q);
    }
}

proof fn lemma_operand_text(a: ArgModel)
    requires
        arg_wf(a),
        !(a is StringLiteral),
    ensures
        arg_text(a).len() > 0,
        forall|i: int| 0 <= i < arg_text(a).len() ==> is_operand_char(#[trigger] arg_text(a)[i]),
        !is_ws(arg_text(a)[0]),
        !is_ws(arg_text(a).last()),
{
    let t = arg_text(a);
    match a {
        ArgModel::Register(r) => {
            lemma_reg_text(r);
        },
        ArgModel::Number(n) => {
            lemma_int_text(n);
        },
        ArgModel::RegOffset(r, o) => {
            lemma_int_text(o);
            lemma_reg_text(r);
            let it = int_text(o);
            let rt = reg_text(r);
            assert forall|i: int| 0 <= i < t.len() implies is_operand_char(#[trigger] t[i]) by {
                if i < it.len() {
                    assert(t[i] == it[i]);
                } else if i > it.len() && i < t.len() - 1 {
                    assert(t[i] == rt[i - it.len() - 1]);
                }
            }
            assert(t[0] == it[0]);
        },
        ArgModel::StringLiteral(_) => {},
        ArgModel::Symbol(x) => {
            assert(is_sym_char(x[0]));
            assert(is_sym_char(x.last()));
        },
        ArgModel::HiDataRef(x) => {
            assert forall|i: int| 0 <= i < t.len() implies is_operand_char(#[trigger] t[i]) by {
                if 4 <= i < t.len() - 1 {
                    assert(t[i] == x[i - 4]);
                }
            }
        },
        ArgModel::LoDataRef(x) => {
            assert forall|i: int| 0 <= i < t.len() implies is_operand_char(#[trigger] t[i]) by {
                if 4 <= i < t.len() - 1 {
                    assert(t[i] == x[i - 4]);
                }
            }
        },
        ArgModel::Difference(x, y) => {
            assert(is_sym_char(x[0]));
            assert(is_sym_char(y.last()));
            assert(t[0] == x[0]);
            assert(t.last() == y.last());
            assert forall|i: int| 0 <= i < t.len() implies is_operand_char(#[trigger] t[i]) by {
                if i < x.len() {
                    assert(t[i] == x[i]);
                } else if i >= x.len() + 3 {
                    assert(t[i] == y[i - x.len() - 3]);
                }
            }
        },
    }
}

/// What the line and operand scans need of the text of one argument.
proof fn lemma_arg_text_facts(a: ArgModel)
    requires
        arg_plain(a),
    ensures
        arg_text(a).len() > 0,
        !is_ws(arg_text(a)[0]),
        !is_ws(arg_text(a).last()),
        arg_text(a).last() != ':',
        forall|i: int| 0 <= i < arg_text(a).len() ==> #[trigger] arg_text(a)[i] != '\n',
        no_open_sep(arg_text(a), ',', true, 0, false),
        !end_state(arg_text(a), true, 0, false),
{
    let t = arg_text(a);
    if let ArgModel::StringLiteral(s) = a {
        assert(t[0] == '"');
        assert forall|i: int| 0 <= i < t.len() implies #[trigger] t[i] != '\n' by {
            if 0 < i < t.len() - 1 {
                assert(t[i] == s[i - 1]);
            }
        }
        let u = t.drop_last();
        assert forall|k: int| 1 <= k < u.len() implies u[k] != '"' by {
            assert(u[k] == s[k - 1]);
        }
        lemma_scan_plain(u, ',', true, 1, true);
        lemma_end_state_concat(u, seq!['"'], 1, true);
        assert(u + seq!['"'] =~= t);
        lemma_no_open_sep_last_quote(u, 1, true);
        assert(end_state(seq!['"'], true, 1, false) == false);
        assert(end_state(seq!['"'], true, 0, true) == false);
        assert(end_state(t, true, 0, false) == end_state(t, true, 1, true));
        assert(no_open_sep(t, ',', true, 0, false) == no_open_sep(t, ',', true, 1, true));
    } else {
        lemma_operand_text(a);
        assert(!is_operand_char(':'));
        assert forall|k: int| 0 <= k < t.len() implies t[k] != '"' && t[k] != ',' by {
            assert(is_operand_char(t[k]));
        }
        lemma_scan_plain(t, ',', true, 0, false);
    }
}

proof fn lemma_no_open_sep_last_quote(u: Seq<char>, i: int, q: bool)
    requires
        0 <= i <= u.len(),
        no_open_sep(u, ',', true, i, q),
    ensures
        no_open_sep(u + seq!['"'], ',', true, i, q),
    decreases u.len() - i,
{
    let t = u + seq!['"'];
    if i < u.len() {
        assert(t[i] == u[i]);
        if u[i] == '"' {
            lemma_no_open_sep_last_quote(u, i + 1, !q);
        } else {
            lemma_no_open_sep_last_quote(u, i + 1, q);
        }
    } else {
        assert(t[i] == '"');
        assert(no_open_sep(t, ',', true, i + 1, !q));
    }
}

/// What the line and operand scans need of the text of an argument list.
proof fn lemma_args_text_facts(args: Seq<ArgModel>)
    requires
        forall|k: int| 0 <= k < args.len() ==> arg_plain(#[trigger] args[k]),
    ensures
        forall|i: int| 0 <= i < args_text(args).len() ==> #[trigger] args_text(args)[i] != '\n',
        !end_state(args_text(args), true, 0, false),
        args.len() > 0 ==> args_text(args).len() > 0 && !is_ws(args_text(args)[0]) && !is_ws(
            args_text(args).last(),
        ) && args_text(args).last() != ':',
    decreases args.len(),
{
    let t = args_text(args);
    if args.len() == 0 {
    } else if args.len() == 1 {
        lemma_arg_text_facts(args[0]);
    } else {
        let pre = args.drop_last();
        assert forall|k: int| 0 <= k < pre.len() implies arg_plain(#[trigger] pre[k]) by {
            assert(pre[k] == args[k]);
        }
        lemma_args_text_facts(pre);
        lemma_arg_text_facts(args.last());
        let x = args_text(pre);
        let y = arg_text(args.last());
        let mid = seq![',', ' '];
        assert(t =~= x + (mid + y));
        assert forall|i: int| 0 <= i < t.len() implies #[trigger] t[i] != '\n' by {
            if i < x.len() {
                assert(t[i] == x[i]);
            } else if i >= x.len() + 2 {
                assert(t[i] == y[i - x.len() - 2]);
            }
        }
        lemma_end_state_concat(x, mid + y, 0, false);
        lemma_end_state_concat(mid, y, 0, false);
        assert(mid[0] == ',' && mid[1] == ' ');
        assert(end_state(mid, true, 2, false) == false);
        assert(end_state(mid, true, 1, false) == false);
        assert(end_state(mid, true, 0, false) == false);
        assert(t[0] == x[0]);
        assert(t.last() == y.last());
    }
}

/// Splitting text whose scan meets no separator outside quotes gives the one
/// piece that starts at `start`.
proof fn lemma_split_none(s: Seq<char>, sep: char, quotes: bool, i: int, start: int, q: bool)
    requires
        0 <= start <= i <= s.len(),
        no_open_sep(s, sep, quotes, i, q),
    ensures
        split_from(s, sep, quotes, i, start, q) == seq![s.subrange(start, s.len() as int)],
    decreases s.len() - i,
{
    if i < s.len() {
        if quotes && s[i] == '"' {
            lemma_split_none(s, sep, quotes, i + 1, start, !q);
        } else {
            lemma_split_none(s, sep, quotes, i + 1, start, q);
        }
    }
}

/// Splitting `x + [sep] + y`, where the scan of `x` ends outside quotes and
/// that of `y` meets no separator outside quotes, gives the pieces of `x`
/// and then `y`.
proof fn lemma_split_append(
    x: Seq<char>,
    y: Seq<char>,
    sep: char,
    quotes: bool,
    i: int,
    start: int,
    q: bool,
)
    requires
        0 <= start <= i <= x.len(),
        !end_state(x, quotes, i, q),
        no_open_sep(x + seq![sep] + y, sep, quotes, x.len() + 1int, false),
        sep != '"',
    ensures
        split_from(x + seq![sep] + y, sep, quotes, i, start, q) == split_from(
            x,
            sep,
            quotes,
            i,
            start,
            q,
        ).push(y),
    decreases x.len() - i,
{
    let s = x + seq![sep] + y;
    let n = x.len() as int;
    if i == n {
        assert(s[i] == sep);
        lemma_split_none(s, sep, quotes, i + 1, i + 1, false);
        assert(s.subrange(i + 1, s.len() as int) =~= y);
        assert(s.subrange(start, i) =~= x.subrange(start, n));
        assert(seq![s.subrange(start, i)] + seq![y] =~= seq![x.subrange(start, n)].push(y));
    } else {
        assert(s[i] == x[i]);
        if quotes && x[i] == '"' {
            lemma_split_append(x, y, sep, quotes, i + 1, start, !q);
        } else if x[i] == sep && !q {
            lemma_split_append(x, y, sep, quotes, i + 1, i + 1, false);
            assert(s.subrange(start, i) =~= x.subrange(start, i));
            let rest = split_from(x, sep, quotes, i + 1, i + 1, false);
            assert(seq![x.subrange(start, i)] + rest.push(y) =~= (seq![x.subrange(start, i)]
                + rest).push(y));
        } else {
            lemma_split_append(x, y, sep, quotes, i + 1, start, q);
        }
    }
}

/// The operand list text of arguments parses back to them.
proof fn lemma_args_round_trip(args: Seq<ArgModel>)
    requires
        forall|k: int| 0 <= k < args.len() ==> arg_plain(#[trigger] args[k]),
    ensures
        args_of(args_text(args)) == Some(args),
    decreases args.len(),
{
    if args.len() == 0 {
        assert(args_text(args).len() == 0);
        assert(args =~= Seq::<ArgModel>::empty());
    } else if args.len() == 1 {
        let t = arg_text(args[0]);
        lemma_arg_text_facts(args[0]);
        lemma_split_none(t, ',', true, 0, 0, false);
        assert(t.subrange(0, t.len() as int) =~= t);
        assert(trim_start(t) == t);
        assert(trim_end(t) == t);
        lemma_argument_round_trip(args[0]);
        let ps = split(t, ',', true);
        assert(ps.drop_last() =~= Seq::<Seq<char>>::empty());
        assert(seq![args[0]] =~= args);
        assert(Seq::<ArgModel>::empty().push(args[0]) =~= args);
        assert(ps == seq![t]);
        assert(ps.last() == t);
        assert(args_of_pieces(ps.drop_last()) == Some(Seq::<ArgModel>::empty()));
        assert(args_of_pieces(ps) == Some(Seq::<ArgModel>::empty().push(args[0])));
        assert(t.len() > 0);
    } else {
        let pre = args.drop_last();
        assert forall|k: int| 0 <= k < pre.len() implies arg_plain(#[trigger] pre[k]) by {
            assert(pre[k] == args[k]);
        }
        lemma_args_round_trip(pre);
        lemma_args_text_facts(pre);
        let last = args.last();
        lemma_arg_text_facts(last);
        lemma_argument_round_trip(last);
        let x = args_text(pre);
        let t = arg_text(last);
        let y = seq![' '] + t;
        let s = x + seq![','] + y;
        assert(args_text(args) =~= s);
        assert(s.subrange(x.len() + 2int, s.len() as int) =~= t);
        lemma_scan_shift(s, x.len() + 2int, t, ',', 0, false);
        assert(s[x.len() + 1int] == ' ');
        lemma_split_append(x, y, ',', true, 0, 0, false);
        let ps = split(x, ',', true);
        assert(split(args_text(args), ',', true) == ps.push(y));
        assert(ps.push(y).drop_last() =~= ps);
        assert(y.drop_first() =~= t);
        assert(trim_start(y) == trim_start(t));
        assert(trim_start(t) == t);
        assert(trim_end(t) == t);
        assert(pre.push(last) =~= args);
        assert(trim(y) == t);
        assert(args_of_pieces(ps.push(y)) == Some(pre.push(last)));
        assert(args_text(args).len() > 0);
    }
}

/// A statement whose text parses back to it: a label named by a symbol, or a
/// directive or an instruction with a plain name and arguments that parse
/// back and stay on one line (an instruction's name does not start with `.`,
/// which marks a directive).
pub open spec fn stmt_plain(s: StmtModel) -> bool {
    match s {
        StmtModel::Label(l) => is_symbol(l),
        StmtModel::Directive(d, args) => is_mnemonic(d) && forall|k: int|
            0 <= k < args.len() ==> arg_plain(#[trigger] args[k]),
        StmtModel::Instruction(i, args) => is_mnemonic(i) && i[0] != '.' && forall|k: int|
            0 <= k < args.len() ==> arg_plain(#[trigger] args[k]),
    }
}

proof fn lemma_word_end_at(line: Seq<char>, k: int, p: int)
    requires
        0 <= k <= p <= line.len(),
        forall|i: int| k <= i < p ==> !is_ws(line[i]),
        p == line.len() || is_ws(line[p]),
    ensures
        word_end_from(line, k) == p,
    decreases p - k,
{
    if k < p {
        lemma_word_end_at(line, k + 1, p);
    }
}

/// The line `h`, then a space and `a` where `a` is not empty, splits into
/// the word `h` and the rest `a`.
proof fn lemma_head_and_rest(h: Seq<char>, a: Seq<char>)
    requires
        h.len() > 0,
        forall|i: int| 0 <= i < h.len() ==> !is_ws(#[trigger] h[i]),
        a.len() > 0 ==> !is_ws(a[0]) && !is_ws(a.last()),
    ensures
        ({
            let m = if a.len() > 0 {
                h + seq![' '] + a
            } else {
                h
            };
            &&& word_end(m) == h.len()
            &&& m.subrange(0, h.len() as int) == h
            &&& trim(m.subrange(h.len() as int, m.len() as int)) == a
            &&& m[0] == h[0]
            &&& m.last() == if a.len() > 0 {
                a.last()
            } else {
                h.last()
            }
            &&& trim(seq![' ', ' '] + (h + seq![' '] + a)) == m
        }),
{
    let m = if a.len() > 0 {
        h + seq![' '] + a
    } else {
        h
    };
    assert forall|i: int| 0 <= i < h.len() implies !is_ws(m[i]) by {
        assert(m[i] == h[i]);
    }
    lemma_word_end_at(m, 0, h.len() as int);
    assert(m.subrange(0, h.len() as int) =~= h);
    let r = m.subrange(h.len() as int, m.len() as int);
    if a.len() > 0 {
        assert(r =~= seq![' '] + a);
        assert(r.drop_first() =~= a);
        assert(trim_start(a) == a);
        assert(trim_end(a) == a);
        assert(m.last() == a.last());
    } else {
        assert(r =~= Seq::<char>::empty());
    }
    let full = h + seq![' '] + a;
    let sp = seq![' ', ' '] + full;
    assert(sp.drop_first().drop_first() =~= full);
    assert(sp[0] == ' ');
    assert(sp.drop_first()[0] == ' ');
    assert(trim_start(sp) == trim_start(sp.drop_first()));
    assert(trim_start(sp.drop_first()) == trim_start(full));
    assert(full[0] == h[0]);
    assert(trim_start(full) == full);
    assert(!is_ws(h.last()));
    assert(!is_ws(m.last()));
    assert(trim_end(m) == m);
    if a.len() == 0 {
        assert(full.drop_last() =~= h);
        assert(full.last() == ' ');
        assert(trim_end(full) == trim_end(h));
    } else {
        assert(full =~= m);
    }
    assert(trim(sp) == m);
}

proof fn lemma_scan_unquoted(s: Seq<char>, sep: char, i: int)
    requires
        0 <= i,
        forall|k: int| i <= k < s.len() ==> s[k] != sep,
    ensures
        no_open_sep(s, sep, false, i, false),
        !end_state(s, false, i, false),
    decreases s.len() - i,
{
    if i < s.len() {
        lemma_scan_unquoted(s, sep, i + 1);
    }
}

/// Splitting the text of a single line, ended by a newline, gives that line
/// and an empty one; parsing them gives the line's statement.
proof fn lemma_single_line(line: Seq<char>, st: StmtModel)
    requires
        forall|k: int| 0 <= k < line.len() ==> line[k] != '\n',
        trim(line).len() > 0,
        parse_line_spec(trim(line)) == Some(seq![st]),
    ensures
        parse_text(line + seq!['\n']) == Ok::<Seq<StmtModel>, Seq<char>>(seq![st]),
{
    let e = Seq::<char>::empty();
    lemma_scan_unquoted(line, '\n', 0);
    lemma_split_append(line, e, '\n', false, 0, 0, false);
    assert(line + seq!['\n'] + e =~= line + seq!['\n']);
    lemma_split_none(line, '\n', false, 0, 0, false);
    assert(line.subrange(0, line.len() as int) =~= line);
    let ls = seq![line, e];
    assert(split(line + seq!['\n'], '\n', false) =~= ls);
    assert(ls.drop_first() =~= seq![e]);
    assert(seq![e].drop_first() =~= Seq::<Seq<char>>::empty());
    assert(trim(e) =~= e);
    assert(parse_lines(Seq::<Seq<char>>::empty()) == Ok::<Seq<StmtModel>, Seq<char>>(
        Seq::empty(),
    ));
    assert(parse_lines(seq![e]) == Ok::<Seq<StmtModel>, Seq<char>>(Seq::empty()));
    assert(ls[0] == line);
    assert(seq![st] + Seq::<StmtModel>::empty() =~= seq![st]);
    assert(parse_lines(ls) == Ok::<Seq<StmtModel>, Seq<char>>(seq![st]));
}

proof fn lemma_label_round_trip(l: Seq<char>)
    requires
        stmt_plain(StmtModel::Label(l)),
    ensures
        parse_text(stmt_text(StmtModel::Label(l))) == Ok::<Seq<StmtModel>, Seq<char>>(seq![StmtModel::Label(l)]),
{
    let s = StmtModel::Label(l);
    let line = l + seq![':'];
    assert(stmt_text(s) =~= line + seq!['\n']);
    assert(is_sym_char(l[0]));
    assert(line[0] == l[0]);
    assert forall|k: int| 0 <= k < line.len() implies line[k] != '\n' by {
        if k < l.len() {
            assert(line[k] == l[k]);
            assert(is_sym_char(l[k]));
        }
    }
    assert(trim_start(line) == line);
    assert(trim_end(line) == line);
    assert(line.drop_last() =~= l);
    assert(parse_line_spec(line) == Some(seq![s]));
    lemma_single_line(line, s);
}

proof fn lemma_directive_round_trip(d: Seq<char>, args: Seq<ArgModel>)
    requires
        stmt_plain(StmtModel::Directive(d, args)),
    ensures
        parse_text(stmt_text(StmtModel::Directive(d, args))) == Ok::<Seq<StmtModel>, Seq<char>>(seq![StmtModel::Directive(d, args)]),
{
    let s = StmtModel::Directive(d, args);
    lemma_args_text_facts(args);
    lemma_args_round_trip(args);
    let a = args_text(args);
    let h = seq!['.'] + d;
    assert forall|i: int| 0 <= i < h.len() implies !is_ws(#[trigger] h[i]) by {
        if i > 0 {
            assert(h[i] == d[i - 1]);
        }
    }
    lemma_head_and_rest(h, a);
    let m = if a.len() > 0 {
        h + seq![' '] + a
    } else {
        h
    };
    let line = seq![' ', ' '] + (h + seq![' '] + a);
    assert(stmt_text(s) =~= line + seq!['\n']);
    assert(h.drop_first() =~= d);
    assert(m.last() != ':') by {
        if a.len() > 0 {
        } else {
            assert(h.last() == d.last());
        }
    }
    assert forall|k: int| 0 <= k < line.len() implies line[k] != '\n' by {
        if 3 <= k < 2 + h.len() {
            assert(line[k] == d[k - 3]);
        } else if k >= 3 + h.len() {
            assert(line[k] == a[k - 3 - h.len()]);
        }
    }
    assert(trim(line) == m);
    assert(parse_line_spec(m) == Some(seq![s]));
    lemma_single_line(line, s);
}

proof fn lemma_instruction_round_trip(i: Seq<char>, args: Seq<ArgModel>)
    requires
        stmt_plain(StmtModel::Instruction(i, args)),
    ensures
        parse_text(stmt_text(StmtModel::Instruction(i, args))) == Ok::<Seq<StmtModel>, Seq<char>>(seq![StmtModel::Instruction(i, args)]),
{
    let s = StmtModel::Instruction(i, args);
    lemma_args_text_facts(args);
    lemma_args_round_trip(args);
    let a = args_text(args);
    assert forall|k: int| 0 <= k < i.len() implies !is_ws(#[trigger] i[k]) by {
        assert(is_alnum(i[k]) || i[k] == '_' || i[k] == '.');
    }
    lemma_head_and_rest(i, a);
    let m = if a.len() > 0 {
        i + seq![' '] + a
    } else {
        i
    };
    let line = seq![' ', ' '] + (i + seq![' '] + a);
    assert(stmt_text(s) =~= line + seq!['\n']);
    assert(is_alnum(i[0]) || i[0] == '_');
    assert(m.last() != ':') by {
        if a.len() > 0 {
        } else {
            assert(is_alnum(i.last()) || i.last() == '_' || i.last() == '.');
        }
    }
    assert forall|k: int| 0 <= k < line.len() implies line[k] != '\n' by {
        if 2 <= k < 2 + i.len() {
            assert(line[k] == i[k - 2]);
            assert(is_alnum(i[k - 2]) || i[k - 2] == '_' || i[k - 2] == '.');
        } else if k >= 3 + i.len() {
            assert(line[k] == a[k - 3 - i.len()]);
        }
    }
    assert(trim(line) == m);
    assert(parse_line_spec(m) == Some(seq![s]));
    lemma_single_line(line, s);
}

/// The text of a statement parses back to the statement: the rendering
/// changes nothing that the parser keeps.
pub proof fn lemma_statement_round_trip(s: StmtModel)
    requires
        stmt_plain(s),
    ensures
        parse_text(stmt_text(s)) == Ok::<Seq<StmtModel>, Seq<char>>(seq![s]),
{
    match s {
        StmtModel::Label(l) => lemma_label_round_trip(l),
        StmtModel::Directive(d, args) => lemma_directive_round_trip(d, args),
        StmtModel::Instruction(i, args) => lemma_instruction_round_trip(i, args),
    }
}

proof fn lemma_abi_from_in_range(t: Seq<char>, k: nat)
    ensures
        abi_from(t, k) matches Some(r) ==> r < 32,
    decreases 33 - k,
{
    if k < 33 {
        lemma_abi_from_in_range(t, k + 1);
    }
}

/// Every argument the operand parser produces parses back from its text.
proof fn lemma_parsed_arg_wf(t: Seq<char>)
    ensures
        arg_of(t) matches Some(a) ==> arg_wf(a),
{
    lemma_abi_from_in_range(t, 0);
    if arg_compound(t) is Some && arg_delimited(t) is None && int_of(t) is None {
        if t.len() > 0 && t.last() == ')' && find(t, '(') is Some {
            let p = find(t, '(')->Some_0;
            lemma_abi_from_in_range(t.subrange(p + 1, t.len() - 1), 0);
        }
    }
    if t.len() >= 2 && find(t.subrange(1, t.len() - 1), '"') is None {
        let s = t.subrange(1, t.len() - 1);
        assert forall|i: int| 0 <= i < s.len() implies s[i] != '"' by {
            if s[i] == '"' {
                lemma_find_some(s, '"', 0, i);
            }
        }
    }
}

proof fn lemma_find_some(t: Seq<char>, c: char, k: int, p: int)
    requires
        0 <= k <= p < t.len(),
        t[p] == c,
    ensures
        find_from(t, c, k) is Some,
    decreases p - k,
{
    if k < p && t[k] != c {
        lemma_find_some(t, c, k + 1, p);
    }
}

proof fn lemma_parsed_args_wf(pieces: Seq<Seq<char>>)
    ensures
        args_of_pieces(pieces) matches Some(args) ==> forall|k: int|
            0 <= k < args.len() ==> arg_wf(#[trigger] args[k]),
    decreases pieces.len(),
{
    if pieces.len() > 0 {
        lemma_parsed_args_wf(pieces.drop_last());
        lemma_parsed_arg_wf(trim(pieces.last()));
    }
}

/// Whether no string literal among the statement's arguments holds a newline.
pub open spec fn strings_on_one_line(s: StmtModel) -> bool {
    match s {
        StmtModel::Label(_) => true,
        StmtModel::Directive(_, args) => args_on_one_line(args),
        StmtModel::Instruction(_, args) => args_on_one_line(args),
    }
}

pub open spec fn args_on_one_line(args: Seq<ArgModel>) -> bool {
    forall|k: int|
        0 <= k < args.len() ==> (#[trigger] args[k] is StringLiteral ==> forall|i: int|
            0 <= i < args[k]->StringLiteral_0.len() ==> args[k]->StringLiteral_0[i] != '\n')
}

/// A line that parses to a statement is rendered as text that parses back
/// to the same statement, unless a string literal of it holds a newline.
pub proof fn lemma_parsed_line_renders_back(line: Seq<char>, s: StmtModel)
    requires
        line.len() > 0,
        parse_line_spec(line) == Some(seq![s]),
        strings_on_one_line(s),
    ensures
        parse_text(stmt_text(s)) == Ok::<Seq<StmtModel>, Seq<char>>(seq![s]),
{
    assert(seq![s][0] == s);
    if !(line[0] == '#') && !(line.last() == ':' && is_symbol(line.drop_last())) {
        let p = word_end(line);
        let rest = trim(line.subrange(p, line.len() as int));
        if rest.len() > 0 {
            lemma_parsed_args_wf(split(rest, ',', true));
        }
    }
    lemma_statement_round_trip(s);
}

} // verus!
