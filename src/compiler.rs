//! Lowering of parsed statements into the target machine's assembly, and the
//! fixed preamble and helper routines that surround every translated program.
use vstd::prelude::*;
use vstd::string::*;

use crate::asm_parser::{
    append_reg, args_view, parse_asm, parse_text, reg_text, stmts_view, ArgModel, Argument,
    Register, Statement, StmtModel,
};
use crate::error::{Error, ErrorKind};
use crate::text::{append_nat, append_str, dec, str_eq};

verus! {

/// `n` reduced to 32 bits, as the target machine's field elements hold it.
pub open spec fn wrap32(n: int) -> nat {
    (n % 0x1_0000_0000) as nat
}

/// The immediate value of an argument that stands for a number. Address
/// components of a symbol are not resolved and stand for zero; a symbol
/// difference cannot be encoded.
pub open spec fn number_arg(a: ArgModel) -> Result<nat, ErrorKind> {
    match a {
        ArgModel::Number(n) => Ok(wrap32(n)),
        ArgModel::HiDataRef(_) => Ok(0),
        ArgModel::LoDataRef(_) => Ok(0),
        ArgModel::Difference(_, _) => Err(ErrorKind::UnsupportedEncoding),
        _ => Err(ErrorKind::ShapeMismatch),
    }
}

pub open spec fn shape_rrr(args: Seq<ArgModel>) -> Option<(nat, nat, nat)> {
    if args.len() == 3 && args[0] is Register && args[1] is Register && args[2] is Register {
        Some((args[0]->Register_0, args[1]->Register_0, args[2]->Register_0))
    } else {
        None
    }
}

pub open spec fn shape_rri(args: Seq<ArgModel>) -> Result<(nat, nat, nat), ErrorKind> {
    if args.len() == 3 && args[0] is Register && args[1] is Register {
        match number_arg(args[2]) {
            Ok(n) => Ok((args[0]->Register_0, args[1]->Register_0, n)),
            Err(e) => Err(e),
        }
    } else {
        Err(ErrorKind::ShapeMismatch)
    }
}

pub open spec fn shape_ri(args: Seq<ArgModel>) -> Result<(nat, nat), ErrorKind> {
    if args.len() == 2 && args[0] is Register {
        match number_arg(args[1]) {
            Ok(n) => Ok((args[0]->Register_0, n)),
            Err(e) => Err(e),
        }
    } else {
        Err(ErrorKind::ShapeMismatch)
    }
}

pub open spec fn shape_rr(args: Seq<ArgModel>) -> Option<(nat, nat)> {
    if args.len() == 2 && args[0] is Register && args[1] is Register {
        Some((args[0]->Register_0, args[1]->Register_0))
    } else {
        None
    }
}

pub open spec fn shape_rrl(args: Seq<ArgModel>) -> Option<(nat, nat, Seq<char>)> {
    if args.len() == 3 && args[0] is Register && args[1] is Register && args[2] is Symbol {
        Some((args[0]->Register_0, args[1]->Register_0, args[2]->Symbol_0))
    } else {
        None
    }
}

pub open spec fn shape_rl(args: Seq<ArgModel>) -> Option<(nat, Seq<char>)> {
    if args.len() == 2 && args[0] is Register && args[1] is Symbol {
        Some((args[0]->Register_0, args[1]->Symbol_0))
    } else {
        None
    }
}

pub open spec fn shape_l(args: Seq<ArgModel>) -> Option<Seq<char>> {
    if args.len() == 1 && args[0] is Symbol {
        Some(args[0]->Symbol_0)
    } else {
        None
    }
}

/// Register and indexed memory operand; the offset is reduced to 32 bits.
pub open spec fn shape_rro(args: Seq<ArgModel>) -> Option<(nat, nat, nat)> {
    if args.len() == 2 && args[0] is Register && args[1] is RegOffset {
        Some((args[0]->Register_0, args[1]->RegOffset_0, wrap32(args[1]->RegOffset_1)))
    } else {
        None
    }
}

/// The text of a register.
pub open spec fn r(i: nat) -> Seq<char> {
    reg_text(i)
}

/// Three registers: `rd`, `op1`, `r1`, `op2`, `r2` (add, xor).
pub open spec fn lower_rrr(args: Seq<ArgModel>, op1: Seq<char>, op2: Seq<char>) -> Result<
    Seq<char>,
    ErrorKind,
> {
    match shape_rrr(args) {
        Some(t) => Ok(r(t.0) + op1 + r(t.1) + op2 + r(t.2) + "\n"@),
        None => Err(ErrorKind::ShapeMismatch),
    }
}

/// Wrapped addition of an immediate.
pub open spec fn lower_addi(args: Seq<ArgModel>) -> Result<Seq<char>, ErrorKind> {
    match shape_rri(args) {
        Ok(t) => Ok(r(t.0) + " <=X= wrap "@ + r(t.1) + " + "@ + dec(t.2) + "\n"@),
        Err(e) => Err(e),
    }
}

/// A branch on the difference of two registers; `swap` takes it the other way.
pub open spec fn lower_branch(args: Seq<ArgModel>, op: Seq<char>, swap: bool) -> Result<
    Seq<char>,
    ErrorKind,
> {
    match shape_rrl(args) {
        Some(t) => {
            let (a, b) = if swap {
                (t.1, t.0)
            } else {
                (t.0, t.1)
            };
            Ok(op + r(a) + " - "@ + r(b) + ", "@ + t.2 + "\n"@)
        },
        None => Err(ErrorKind::ShapeMismatch),
    }
}

/// A branch on one register against zero.
pub open spec fn lower_branch_zero(args: Seq<ArgModel>, op: Seq<char>) -> Result<
    Seq<char>,
    ErrorKind,
> {
    match shape_rl(args) {
        Some(t) => Ok(op + r(t.0) + ", "@ + t.1 + "\n"@),
        None => Err(ErrorKind::ShapeMismatch),
    }
}

/// A jump or a call to a label.
pub open spec fn lower_jump(args: Seq<ArgModel>, op: Seq<char>) -> Result<Seq<char>, ErrorKind> {
    match shape_l(args) {
        Some(l) => Ok(op + l + "\n"@),
        None => Err(ErrorKind::ShapeMismatch),
    }
}

/// An instruction without operands, translated to a fixed text.
pub open spec fn lower_fixed(args: Seq<ArgModel>, text: Seq<char>) -> Result<
    Seq<char>,
    ErrorKind,
> {
    if args.len() == 0 {
        Ok(text)
    } else {
        Err(ErrorKind::ShapeMismatch)
    }
}

/// A constant load; `upper` shifts the constant left by 12 bits first.
pub open spec fn lower_load_imm(args: Seq<ArgModel>, upper: bool) -> Result<
    Seq<char>,
    ErrorKind,
> {
    match shape_ri(args) {
        Ok(t) => {
            let v = if upper {
                wrap32((t.1 * 4096) as int)
            } else {
                t.1
            };
            Ok(r(t.0) + " <=X= "@ + dec(v) + "\n"@)
        },
        Err(e) => Err(e),
    }
}

/// A memory access: the address into the address register, then the load
/// into the first register or the store of it.
pub open spec fn lower_mem(args: Seq<ArgModel>, store: bool) -> Result<Seq<char>, ErrorKind> {
    match shape_rro(args) {
        Some(t) => {
            let addr = "addr <=X= wrap "@ + r(t.1) + " + "@ + dec(t.2) + "\n"@;
            if store {
                Ok(addr + "mstore "@ + r(t.0) + "\n"@)
            } else {
                Ok(addr + r(t.0) + " <=X= mload\n"@)
            }
        },
        None => Err(ErrorKind::ShapeMismatch),
    }
}

/// Two registers: `rd`, `op`, `rs` (mv, seqz).
pub open spec fn lower_rr(args: Seq<ArgModel>, op: Seq<char>) -> Result<Seq<char>, ErrorKind> {
    match shape_rr(args) {
        Some(t) => Ok(r(t.0) + op + r(t.1) + "\n"@),
        None => Err(ErrorKind::ShapeMismatch),
    }
}

/// A left shift by at most 16 bits, as a multiplication that drops the bits
/// beyond 32; wider shifts are not supported.
pub open spec fn lower_slli(args: Seq<ArgModel>) -> Result<Seq<char>, ErrorKind> {
    match shape_rri(args) {
        Ok(t) => if t.2 <= 16 {
            Ok(r(t.0) + " <=Y= wrap16 "@ + r(t.1) + " * "@ + dec(pow2(t.2)) + "\n"@)
        } else {
            Err(ErrorKind::UnsupportedEncoding)
        },
        Err(e) => Err(e),
    }
}

/// The translation of one source instruction: the target machine's text,
/// one or more lines each ending in a newline, or why there is none.
pub open spec fn lower(instr: Seq<char>, args: Seq<ArgModel>) -> Result<Seq<char>, ErrorKind> {
    if instr == "add"@ {
        lower_rrr(args, " <=X= wrap "@, " + "@)
    } else if instr == "addi"@ {
        lower_addi(args)
    } else if instr == "beq"@ {
        lower_branch(args, "branch_if_zero "@, false)
    } else if instr == "beqz"@ {
        lower_branch_zero(args, "branch_if_zero "@)
    } else if instr == "bgeu"@ {
        lower_branch(args, "branch_if_positive "@, false)
    } else if instr == "bltu"@ {
        lower_branch(args, "branch_if_positive "@, true)
    } else if instr == "bne"@ {
        lower_branch(args, "branch_if_nonzero "@, false)
    } else if instr == "bnez"@ {
        lower_branch_zero(args, "branch_if_nonzero "@)
    } else if instr == "j"@ {
        lower_jump(args, "jump "@)
    } else if instr == "call"@ {
        lower_jump(args, "call "@)
    } else if instr == "ecall"@ {
        lower_fixed(args, "x10 <= ${ }\n"@)
    } else if instr == "li"@ {
        lower_load_imm(args, false)
    } else if instr == "lui"@ {
        lower_load_imm(args, true)
    } else if instr == "lw"@ {
        lower_mem(args, false)
    } else if instr == "sw"@ {
        lower_mem(args, true)
    } else if instr == "mv"@ {
        lower_rr(args, " <=X= "@)
    } else if instr == "ret"@ {
        lower_fixed(args, "ret\n"@)
    } else if instr == "seqz"@ {
        lower_rr(args, " <=Y= is_equal_zero "@)
    } else if instr == "slli"@ {
        lower_slli(args)
    } else if instr == "unimp"@ {
        Ok("fail\n"@)
    } else if instr == "xor"@ {
        lower_rrr(args, " <=X= xor "@, ", "@)
    } else {
        Err(ErrorKind::UnsupportedMnemonic)
    }
}

/// Whether an executable result agrees with a lowering outcome for `instr`.
pub open spec fn agrees(r: Result<String, Error>, l: Result<Seq<char>, ErrorKind>, instr: Seq<char>) -> bool {
    match r {
        Ok(s) => l == Ok::<Seq<char>, ErrorKind>(s@),
        Err(e) => l == Err::<Seq<char>, ErrorKind>(e.kind) && e.subject@ == instr,
    }
}


/// Two to the power `n`.
pub open spec fn pow2(n: nat) -> nat
    decreases n,
{
    if n == 0 {
        1
    } else {
        2 * pow2((n - 1) as nat)
    }
}

/// The 32-bit value of a number: `n` modulo `2^32`.
fn wrap_to_u32(n: i64) -> (r: u64)
    ensures
        r as nat == wrap32(n as int),
        r < 0x1_0000_0000,
{
    if n >= 0 {
        let m = n as u64;
        let r = m % 0x1_0000_0000;
        r
    } else {
        let m: u64 = (-(n as i128)) as u64;
        let k = m % 0x1_0000_0000;
        let r = if k == 0 { 0 } else { 0x1_0000_0000 - k };
        proof {
            let ni = n as int;
            let K: int = 0x1_0000_0000;
            assert(ni == -(m as int));
            assert((m as int) == (m as int / K) * K + k as int) by (nonlinear_arith)
                requires K == 0x1_0000_0000, k as int == (m as int) % K;
            let q = m as int / K;
            if k == 0 {
                assert(ni == (-q) * K) by (nonlinear_arith)
                    requires ni == -(m as int), (m as int) == q * K + 0;
                vstd::arithmetic::div_mod::lemma_mod_multiples_basic(-q, K);
            } else {
                assert(ni == (-q - 1) * K + (K - k as int)) by (nonlinear_arith)
                    requires ni == -(m as int), (m as int) == q * K + k as int;
                vstd::arithmetic::div_mod::lemma_mod_multiples_vanish(-q - 1, K - k as int, K);
                vstd::arithmetic::div_mod::lemma_small_mod((K - k as int) as nat, K as nat);
            }
        }
        r
    }
}

/// The immediate value of an argument that stands for a number.
fn to_number(x: &Argument) -> (r: Result<u64, ErrorKind>)
    ensures
        r matches Ok(n) ==> n < 0x1_0000_0000,
        match r {
            Ok(n) => number_arg(x@) == Ok::<nat, ErrorKind>(n as nat),
            Err(e) => number_arg(x@) == Err::<nat, ErrorKind>(e),
        },
{
    match x {
        Argument::Number(n) => Ok(wrap_to_u32(*n)),
        Argument::HiDataRef(_) => Ok(0),
        Argument::LoDataRef(_) => Ok(0),
        Argument::Difference(_, _) => Err(ErrorKind::UnsupportedEncoding),
        _ => Err(ErrorKind::ShapeMismatch),
    }
}

fn rri(args: &Vec<Argument>) -> (r: Result<(Register, Register, u64), ErrorKind>)
    ensures
        r matches Ok(t) ==> t.2 < 0x1_0000_0000,
        match r {
            Ok(t) => shape_rri(args_view(args@)) == Ok::<(nat, nat, nat), ErrorKind>(
                (t.0@, t.1@, t.2 as nat),
            ),
            Err(e) => shape_rri(args_view(args@)) == Err::<(nat, nat, nat), ErrorKind>(e),
        },
{
    if args.len() == 3 {
        if let (Argument::Register(r1), Argument::Register(r2)) = (&args[0], &args[1]) {
            let n = to_number(&args[2])?;
            return Ok((*r1, *r2, n));
        }
    }
    Err(ErrorKind::ShapeMismatch)
}

fn rrr(args: &Vec<Argument>) -> (r: Option<(Register, Register, Register)>)
    ensures
        match r {
            Some(t) => shape_rrr(args_view(args@)) == Some((t.0@, t.1@, t.2@)),
            None => shape_rrr(args_view(args@)) is None,
        },
{
    if args.len() == 3 {
        if let (Argument::Register(r1), Argument::Register(r2), Argument::Register(r3)) = (
            &args[0],
            &args[1],
            &args[2],
        ) {
            return Some((*r1, *r2, *r3));
        }
    }
    None
}

fn ri(args: &Vec<Argument>) -> (r: Result<(Register, u64), ErrorKind>)
    ensures
        r matches Ok(t) ==> t.1 < 0x1_0000_0000,
        match r {
            Ok(t) => shape_ri(args_view(args@)) == Ok::<(nat, nat), ErrorKind>((t.0@, t.1 as nat)),
            Err(e) => shape_ri(args_view(args@)) == Err::<(nat, nat), ErrorKind>(e),
        },
{
    if args.len() == 2 {
        if let Argument::Register(r1) = &args[0] {
            let n = to_number(&args[1])?;
            return Ok((*r1, n));
        }
    }
    Err(ErrorKind::ShapeMismatch)
}

fn rr(args: &Vec<Argument>) -> (r: Option<(Register, Register)>)
    ensures
        match r {
            Some(t) => shape_rr(args_view(args@)) == Some((t.0@, t.1@)),
            None => shape_rr(args_view(args@)) is None,
        },
{
    if args.len() == 2 {
        if let (Argument::Register(r1), Argument::Register(r2)) = (&args[0], &args[1]) {
            return Some((*r1, *r2));
        }
    }
    None
}

fn rrl(args: &Vec<Argument>) -> (r: Option<(Register, Register, &String)>)
    ensures
        match r {
            Some(t) => shape_rrl(args_view(args@)) == Some((t.0@, t.1@, t.2@)),
            None => shape_rrl(args_view(args@)) is None,
        },
{
    if args.len() == 3 {
        if let (Argument::Register(r1), Argument::Register(r2), Argument::Symbol(l)) = (
            &args[0],
            &args[1],
            &args[2],
        ) {
            return Some((*r1, *r2, l));
        }
    }
    None
}

fn rl(args: &Vec<Argument>) -> (r: Option<(Register, &String)>)
    ensures
        match r {
            Some(t) => shape_rl(args_view(args@)) == Some((t.0@, t.1@)),
            None => shape_rl(args_view(args@)) is None,
        },
{
    if args.len() == 2 {
        if let (Argument::Register(r1), Argument::Symbol(l)) = (&args[0], &args[1]) {
            return Some((*r1, l));
        }
    }
    None
}

fn label_only(args: &Vec<Argument>) -> (r: Option<&String>)
    ensures
        match r {
            Some(l) => shape_l(args_view(args@)) == Some(l@),
            None => shape_l(args_view(args@)) is None,
        },
{
    if args.len() == 1 {
        if let Argument::Symbol(l) = &args[0] {
            return Some(l);
        }
    }
    None
}

fn rro(args: &Vec<Argument>) -> (r: Option<(Register, Register, u64)>)
    ensures
        match r {
            Some(t) => shape_rro(args_view(args@)) == Some((t.0@, t.1@, t.2 as nat)),
            None => shape_rro(args_view(args@)) is None,
        },
{
    if args.len() == 2 {
        if let (Argument::Register(r1), Argument::RegOffset(r2, off)) = (&args[0], &args[1]) {
            return Some((*r1, *r2, wrap_to_u32(*off)));
        }
    }
    None
}

fn fail_with(kind: ErrorKind, instr: &str) -> (r: Result<String, Error>)
    ensures
        r matches Err(e) && e@ == (kind, instr@),
{
    Err(Error::new(kind, instr))
}

fn emit_rrr(instr: &str, args: &Vec<Argument>, op1: &str, op2: &str) -> (r: Result<String, Error>)
    ensures
        agrees(r, lower_rrr(args_view(args@), op1@, op2@), instr@),
{
    match rrr(args) {
        Some((rd, r1, r2)) => {
            let mut s = rd.to_string();
            append_str(&mut s, op1);
            append_reg(&mut s, &r1);
            append_str(&mut s, op2);
            append_reg(&mut s, &r2);
            append_str(&mut s, "\n");
            Ok(s)
        },
        None => fail_with(ErrorKind::ShapeMismatch, instr),
    }
}

fn emit_addi(instr: &str, args: &Vec<Argument>) -> (r: Result<String, Error>)
    ensures
        agrees(r, lower_addi(args_view(args@)), instr@),
{
    match rri(args) {
        Ok((rd, rs, imm)) => {
            let mut s = rd.to_string();
            append_str(&mut s, " <=X= wrap ");
            append_reg(&mut s, &rs);
            append_str(&mut s, " + ");
            append_nat(&mut s, imm);
            append_str(&mut s, "\n");
            Ok(s)
        },
        Err(e) => fail_with(e, instr),
    }
}

fn emit_branch(instr: &str, args: &Vec<Argument>, op: &str, swap: bool) -> (r: Result<
    String,
    Error,
>)
    ensures
        agrees(r, lower_branch(args_view(args@), op@, swap), instr@),
{
    match rrl(args) {
        Some((r1, r2, l)) => {
            let (a, b) = if swap {
                (r2, r1)
            } else {
                (r1, r2)
            };
            let mut s = String::from_str(op);
            append_reg(&mut s, &a);
            append_str(&mut s, " - ");
            append_reg(&mut s, &b);
            append_str(&mut s, ", ");
            append_str(&mut s, l.as_str());
            append_str(&mut s, "\n");
            Ok(s)
        },
        None => fail_with(ErrorKind::ShapeMismatch, instr),
    }
}

fn emit_branch_zero(instr: &str, args: &Vec<Argument>, op: &str) -> (r: Result<String, Error>)
    ensures
        agrees(r, lower_branch_zero(args_view(args@), op@), instr@),
{
    match rl(args) {
        Some((r1, l)) => {
            let mut s = String::from_str(op);
            append_reg(&mut s, &r1);
            append_str(&mut s, ", ");
            append_str(&mut s, l.as_str());
            append_str(&mut s, "\n");
            Ok(s)
        },
        None => fail_with(ErrorKind::ShapeMismatch, instr),
    }
}

fn emit_jump(instr: &str, args: &Vec<Argument>, op: &str) -> (r: Result<String, Error>)
    ensures
        agrees(r, lower_jump(args_view(args@), op@), instr@),
{
    match label_only(args) {
        Some(l) => {
            let mut s = String::from_str(op);
            append_str(&mut s, l.as_str());
            append_str(&mut s, "\n");
            Ok(s)
        },
        None => fail_with(ErrorKind::ShapeMismatch, instr),
    }
}

fn emit_fixed(instr: &str, args: &Vec<Argument>, text: &str) -> (r: Result<String, Error>)
    ensures
        agrees(r, lower_fixed(args_view(args@), text@), instr@),
{
    if args.len() == 0 {
        Ok(String::from_str(text))
    } else {
        fail_with(ErrorKind::ShapeMismatch, instr)
    }
}

fn emit_load_imm(instr: &str, args: &Vec<Argument>, upper: bool) -> (r: Result<String, Error>)
    ensures
        agrees(r, lower_load_imm(args_view(args@), upper), instr@),
{
    match ri(args) {
        Ok((rd, imm)) => {
            let v = if upper {
                (imm * 4096) % 0x1_0000_0000
            } else {
                imm
            };
            let mut s = rd.to_string();
            append_str(&mut s, " <=X= ");
            append_nat(&mut s, v);
            append_str(&mut s, "\n");
            Ok(s)
        },
        Err(e) => fail_with(e, instr),
    }
}

fn emit_mem(instr: &str, args: &Vec<Argument>, store: bool) -> (r: Result<String, Error>)
    ensures
        agrees(r, lower_mem(args_view(args@), store), instr@),
{
    match rro(args) {
        Some((r1, r2, off)) => {
            let mut s = String::from_str("addr <=X= wrap ");
            append_reg(&mut s, &r2);
            append_str(&mut s, " + ");
            append_nat(&mut s, off);
            append_str(&mut s, "\n");
            if store {
                append_str(&mut s, "mstore ");
                append_reg(&mut s, &r1);
                append_str(&mut s, "\n");
            } else {
                append_reg(&mut s, &r1);
                append_str(&mut s, " <=X= mload\n");
            }
            Ok(s)
        },
        None => fail_with(ErrorKind::ShapeMismatch, instr),
    }
}

fn emit_rr(instr: &str, args: &Vec<Argument>, op: &str) -> (r: Result<String, Error>)
    ensures
        agrees(r, lower_rr(args_view(args@), op@), instr@),
{
    match rr(args) {
        Some((rd, rs)) => {
            let mut s = rd.to_string();
            append_str(&mut s, op);
            append_reg(&mut s, &rs);
            append_str(&mut s, "\n");
            Ok(s)
        },
        None => fail_with(ErrorKind::ShapeMismatch, instr),
    }
}

fn emit_slli(instr: &str, args: &Vec<Argument>) -> (r: Result<String, Error>)
    ensures
        agrees(r, lower_slli(args_view(args@)), instr@),
{
    match rri(args) {
        Ok((rd, rs, amount)) => {
            if amount <= 16 {
                let factor = power_of_two(amount);
                let mut s = rd.to_string();
                append_str(&mut s, " <=Y= wrap16 ");
                append_reg(&mut s, &rs);
                append_str(&mut s, " * ");
                append_nat(&mut s, factor);
                append_str(&mut s, "\n");
                Ok(s)
            } else {
                fail_with(ErrorKind::UnsupportedEncoding, instr)
            }
        },
        Err(e) => fail_with(e, instr),
    }
}

/// Translates one source instruction into the target machine's text.
pub fn process_instruction(instr: &str, args: &Vec<Argument>) -> (r: Result<String, Error>)
    ensures
        agrees(r, lower(instr@, args_view(args@)), instr@),
{
    if str_eq(instr, "add") {
        emit_rrr(instr, args, " <=X= wrap ", " + ")
    } else if str_eq(instr, "addi") {
        emit_addi(instr, args)
    } else if str_eq(instr, "beq") {
        emit_branch(instr, args, "branch_if_zero ", false)
    } else if str_eq(instr, "beqz") {
        emit_branch_zero(instr, args, "branch_if_zero ")
    } else if str_eq(instr, "bgeu") {
        emit_branch(instr, args, "branch_if_positive ", false)
    } else if str_eq(instr, "bltu") {
        emit_branch(instr, args, "branch_if_positive ", true)
    } else if str_eq(instr, "bne") {
        emit_branch(instr, args, "branch_if_nonzero ", false)
    } else if str_eq(instr, "bnez") {
        emit_branch_zero(instr, args, "branch_if_nonzero ")
    } else if str_eq(instr, "j") {
        emit_jump(instr, args, "jump ")
    } else if str_eq(instr, "call") {
        emit_jump(instr, args, "call ")
    } else if str_eq(instr, "ecall") {
        emit_fixed(instr, args, "x10 <= ${ }\n")
    } else if str_eq(instr, "li") {
        emit_load_imm(instr, args, false)
    } else if str_eq(instr, "lui") {
        emit_load_imm(instr, args, true)
    } else if str_eq(instr, "lw") {
        emit_mem(instr, args, false)
    } else if str_eq(instr, "sw") {
        emit_mem(instr, args, true)
    } else if str_eq(instr, "mv") {
        emit_rr(instr, args, " <=X= ")
    } else if str_eq(instr, "ret") {
        emit_fixed(instr, args, "ret\n")
    } else if str_eq(instr, "seqz") {
        emit_rr(instr, args, " <=Y= is_equal_zero ")
    } else if str_eq(instr, "slli") {
        emit_slli(instr, args)
    } else if str_eq(instr, "unimp") {
        Ok(String::from_str("fail\n"))
    } else if str_eq(instr, "xor") {
        emit_rrr(instr, args, " <=X= xor ", ", ")
    } else {
        fail_with(ErrorKind::UnsupportedMnemonic, instr)
    }
}


/// `2^n` for a shift amount of at most 16.
fn power_of_two(n: u64) -> (r: u64)
    requires
        n <= 16,
    ensures
        r as nat == pow2(n as nat),
        r <= 65536,
    decreases n,
{
    proof { lemma_pow2_bound(n as nat); }
    if n == 0 {
        1
    } else {
        2 * power_of_two(n - 1)
    }
}

proof fn lemma_pow2_bound(n: nat)
    requires
        n <= 16,
    ensures
        pow2(n) <= 65536,
    decreases 16 - n,
{
    if n < 16 {
        lemma_pow2_bound(n + 1);
        assert(pow2(n + 1) == 2 * pow2(n));
    } else {
        reveal_with_fuel(pow2, 17);
    }
}

/// Each newline of `s` followed by the two-space indentation of a new line.
pub open spec fn expand(s: Seq<char>) -> Seq<char>
    decreases s.len(),
{
    if s.len() == 0 {
        Seq::empty()
    } else {
        expand(s.drop_last()) + (if s.last() == '\n' {
            seq!['\n', ' ', ' ']
        } else {
            seq![s.last()]
        })
    }
}

/// The lowered text `s`, which ends in a newline, with every line indented
/// by two spaces.
pub open spec fn indent(s: Seq<char>) -> Seq<char> {
    seq![' ', ' '] + expand(s.drop_last()) + seq!['\n']
}

/// The target text of one statement: a label becomes `name::`, a directive
/// nothing, an instruction its indented lowering.
pub open spec fn statement_output(s: StmtModel) -> Result<Seq<char>, ErrorKind> {
    match s {
        StmtModel::Label(l) => Ok(l + seq![':', ':', '\n']),
        StmtModel::Directive(_, _) => Ok(Seq::empty()),
        StmtModel::Instruction(i, args) => match lower(i, args) {
            Ok(t) => Ok(indent(t)),
            Err(e) => Err(e),
        },
    }
}

/// The mnemonic that a failure of `statement_output` concerns.
pub open spec fn statement_subject(s: StmtModel) -> Seq<char> {
    match s {
        StmtModel::Instruction(i, _) => i,
        _ => Seq::empty(),
    }
}

/// Every successful lowering is non-empty text that ends in a newline.
pub proof fn lemma_lower_ends_in_newline(instr: Seq<char>, args: Seq<ArgModel>)
    ensures
        lower(instr, args) matches Ok(t) ==> t.len() > 0 && t.last() == '\n',
{
    reveal_strlit("\n");
    reveal_strlit("x10 <= ${ }\n");
    reveal_strlit("ret\n");
    reveal_strlit("fail\n");
    reveal_strlit(" <=X= mload\n");
}

fn indent_lowered(t: &String) -> (r: String)
    requires
        t@.len() > 0,
        t@.last() == '\n',
    ensures
        r@ == indent(t@),
{
    let v = crate::text::chars_of(t.as_str());
    let n = v.len() - 1;
    let mut out = String::from_str("  ");
    proof { reveal_strlit("  "); }
    let mut i: usize = 0;
    while i < n
        invariant
            v@ == t@,
            n == v@.len() - 1,
            i <= n,
            out@ == seq![' ', ' '] + expand(v@.subrange(0, i as int)),
        decreases n - i,
    {
        if v[i] == '\n' {
            append_str(&mut out, "\n  ");
            proof { reveal_strlit("\n  "); }
        } else {
            append_str(&mut out, t.as_str().substring_char(i, i + 1));
        }
        i = i + 1;
        proof {
            let cur = v@.subrange(0, i as int);
            assert(cur.drop_last() =~= v@.subrange(0, i - 1));
            assert(out@ =~= seq![' ', ' '] + expand(cur));
        }
    }
    append_str(&mut out, "\n");
    proof {
        reveal_strlit("\n");
        assert(v@.subrange(0, n as int) =~= t@.drop_last());
    }
    assert(out@ =~= indent(t@));
    out
}

/// Translates one statement into the target machine's text.
pub fn process_statement(s: &Statement) -> (r: Result<String, Error>)
    ensures
        match r {
            Ok(out) => statement_output(s@) == Ok::<Seq<char>, ErrorKind>(out@),
            Err(e) => statement_output(s@) == Err::<Seq<char>, ErrorKind>(e.kind)
                && e.subject@ == statement_subject(s@),
        },
{
    match s {
        Statement::Label(l) => {
            let mut out = String::from_str(l.as_str());
            append_str(&mut out, "::\n");
            proof { reveal_strlit("::\n"); }
            assert(out@ =~= l@ + seq![':', ':', '\n']);
            Ok(out)
        },
        Statement::Directive(_, _) => {
            let out = String::new();
            assert(out@ =~= Seq::<char>::empty());
            Ok(out)
        },
        Statement::Instruction(i, args) => {
            proof { lemma_lower_ends_in_newline(i@, args_view(args@)); }
            match process_instruction(i.as_str(), args) {
                Ok(t) => Ok(indent_lowered(&t)),
                Err(e) => Err(e),
            }
        },
    }
}

/// Declarations that open the target program: the program counter and the
/// three helper registers.
pub open spec fn preamble_head() -> Seq<char> {
    PREAMBLE_HEAD@
}

/// The rest of the fixed preamble: the address register, the constraint
/// program and the instruction set of the target machine.
pub open spec fn preamble_tail() -> Seq<char> {
    PREAMBLE_TAIL@
}

/// `reg x0;` to `reg x{n-1};`, one per line.
pub open spec fn register_decls(n: nat) -> Seq<char>
    decreases n,
{
    if n == 0 {
        Seq::empty()
    } else {
        register_decls((n - 1) as nat) + seq!['r', 'e', 'g', ' '] + reg_text((n - 1) as nat) + seq![
            ';',
            '\n',
        ]
    }
}

/// The complete fixed preamble of every translated program.
pub open spec fn preamble_text() -> Seq<char> {
    preamble_head() + register_decls(32) + preamble_tail()
}

/// Helper routines that every program is linked with: a memory fill and the
/// trap targets of the native toolchain's panic machinery.
pub open spec fn library_text() -> Seq<char> {
    LIBRARY_ROUTINES@
}

pub const PREAMBLE_HEAD: &'static str = r#"
reg pc[@pc];
reg X[<=];
reg Y[<=];
reg Z[<=];
"#;

pub const PREAMBLE_TAIL: &'static str = r#"
reg ADDR;

pil{
    x0 = 0;
}

pil{
// ============== iszero check for X =======================
    col witness XInv;
    col witness XIsZero;
    XIsZero = 1 - X * XInv;
    XIsZero * X = 0;
    XIsZero * (1 - XIsZero) = 0;

// =============== read-write memory =======================
    // Read-write memory. Columns are sorted by m_addr and
    // then by m_step. m_change is 1 if and only if m_addr changes
    // in the next row.
    col witness m_addr;
    col witness m_step;
    col witness m_change;
    col witness m_value;
    // If we have an operation at all (needed because this needs to be a permutation)
    col witness m_op;
    // If the operation is a write operation.
    col witness m_is_write;
    col witness m_is_read;

    // positive numbers (assumed to be much smaller than the field order)
    col fixed POSITIVE(i) { i + 1 };
    col fixed FIRST = [1];
    col fixed LAST(i) { FIRST(i + 1) };
    col fixed STEP(i) { i };

    m_change * (1 - m_change) = 0;

    // if m_change is zero, m_addr has to stay the same.
    (m_addr' - m_addr) * (1 - m_change) = 0;

    // Except for the last row, if m_change is 1, then m_addr has to increase,
    // if it is zero, m_step has to increase.
    (1 - LAST) { m_change * (m_addr' - m_addr) + (1 - m_change) * (m_step' - m_step) } in POSITIVE;

    m_op * (1 - m_op) = 0;
    m_is_write * (1 - m_is_write) = 0;
    m_is_read * (1 - m_is_read) = 0;
    // m_is_write can only be 1 if m_op is 1.
    m_is_write * (1 - m_op) = 0;
    m_is_read * (1 - m_op) = 0;
    m_is_read * m_is_write = 0;


    // If the next line is a read and we stay at the same address, then the
    // value cannot change.
    (1 - m_is_write') * (1 - m_change) * (m_value' - m_value) = 0;

    // If the next line is a read and we have an address change,
    // then the value is zero.
    (1 - m_is_write') * m_change * m_value' = 0;
}

// ============== memory instructions ==============

instr mstore <=X= val { { ADDR, STEP, X } is m_is_write { m_addr, m_step, m_value } }
instr mload r <=X= { { ADDR, STEP, X } is m_is_read { m_addr, m_step, m_value } }

// ============== control-flow instructions ==============

instr jump l: label { pc' = l }
instr call l: label { pc' = l, x1' = pc + 1, x6' = l }
instr ret { pc' = x1 }

instr branch_if_nonzero <=X= c, l: label { pc' = (1 - XIsZero) * l + XIsZero * (pc + 1) }}
instr branch_if_zero <=X= c, l: label { pc' = XIsZero * l + (1 - XIsZero) * (pc + 1) }}

// input X is required to be the difference of two 32-bit unsigend values.
// i.e. -2**32 < X < 2**32
instr branch_if_positive <=X= c, l: label {
    X = Xhi * 2**16 + Xlo - wrap_bit * 2**32 + 1,
    pc' = wrap_bit * l + (1 - wrap_bit) * (pc + 1)
}

// ================= logical instructions =================

instr is_equal_zero <=X= v, t <= Y { Y = XIsZero }

// ================= arith/bitwise instructions =================

instr xor <=X= a, <=Y= b, c <= Z {
    {X, Y, Z} in 1 { binary.X, binary.Y, binary.RESULT, 1 }
}
// we wanted better synatx: { binary(X, Y, Z) }
// maybe alternate syntax: instr xor a(Y), b(Z) -> X


// ================== wrapping instructions ==============

// Wraps a value in Y to 32 bits.
// Requires 0 <= Y < 2**33
instr wrap <=Y= v, x <= X { Y = X + wrap_bit * 2**32, X = Xhi * 2**16 + Xlo }
pil{
    Xlo in bytes2;
    Xhi in bytes2;
    col commit wrap_bit;
    wrap_bit * (1 - wrap_bit) = 0;
}

// ======================= assertions =========================

instr fail { 1 = 0; }

// Removes up to 16 bits beyond 32
// TODO is this really safe?
instr wrap16 <=X= v, t <=Y= { X = Xupper * 2*32 + Xhi * 2**16 + Xlo, Y = Xhi * 2**16 + Xlo }
pil{
    col commit Xupper;
    Xupper in bytes2;
}

// set the stack pointer.
// TODO other things to initialize?
x2 <=X= 0x10000
    "#;

pub const LIBRARY_ROUTINES: &'static str = r#"
memset@plt:
# a4: number of bytes
# a0: memory location
# a1: value
# We assume the value is zero and a4 is a multiple of 4
   beqz a4, ___end_memset
   sw a1, 0(a0)
   addi a4, a4, -4
   j memset@plt
___end_memset:
  ret

_ZN4core9panicking18panic_bounds_check17hdf372c1f1d454407E:
_ZN4core9panicking5panic17h3bc01ca1a5023c7aE:
_ZN4core5slice5index24slice_end_index_len_fail17hdcde4291d30716baE:
  unimp
    "#;

/// The fixed preamble of the target program.
pub fn preamble() -> (r: String)
    ensures
        r@ == preamble_text(),
{
    let mut s = String::from_str(PREAMBLE_HEAD);
    let mut i: u64 = 0;
    while i < 32
        invariant
            i <= 32,
            s@ == preamble_head() + register_decls(i as nat),
        decreases 32 - i,
    {
        append_str(&mut s, "reg ");
        append_str(&mut s, "x");
        append_nat(&mut s, i);
        append_str(&mut s, ";\n");
        proof {
            reveal_strlit("reg ");
            reveal_strlit("x");
            reveal_strlit(";\n");
        }
        i = i + 1;
        assert(s@ =~= preamble_head() + register_decls(i as nat));
    }
    append_str(&mut s, PREAMBLE_TAIL);
    s
}

/// The helper routines appended to every source program.
pub fn library_routines() -> (r: String)
    ensures
        r@ == library_text(),
{
    String::from_str(LIBRARY_ROUTINES)
}

/// The translations of the given statements in order, or the first failure
/// with the mnemonic it concerns.
pub open spec fn statements_output(st: Seq<StmtModel>) -> Result<Seq<char>, (ErrorKind, Seq<char>)>
    decreases st.len(),
{
    if st.len() == 0 {
        Ok(Seq::empty())
    } else {
        match statements_output(st.drop_last()) {
            Err(e) => Err(e),
            Ok(x) => match statement_output(st.last()) {
                Ok(y) => Ok(x + y),
                Err(k) => Err((k, statement_subject(st.last()))),
            },
        }
    }
}

/// The whole target program for a source text: the preamble, then the
/// translation of every statement of the source followed by the helper
/// routines. A syntax error names its line, any other failure its mnemonic.
pub open spec fn compile_text(data: Seq<char>) -> Result<Seq<char>, (ErrorKind, Seq<char>)> {
    match parse_text(data + library_text()) {
        Err(line) => Err((ErrorKind::Syntax, line)),
        Ok(st) => match statements_output(st) {
            Ok(body) => Ok(preamble_text() + body),
            Err(e) => Err(e),
        },
    }
}

/// A failure of a later statement leaves an earlier failure in place.
proof fn lemma_statements_error_extends(st: Seq<StmtModel>, k: int)
    requires
        0 <= k <= st.len(),
        statements_output(st.subrange(0, k)) is Err,
    ensures
        statements_output(st) == statements_output(st.subrange(0, k)),
    decreases st.len() - k,
{
    if k < st.len() {
        assert(st.subrange(0, k + 1).drop_last() =~= st.subrange(0, k));
        lemma_statements_error_extends(st, k + 1);
    } else {
        assert(st.subrange(0, k) =~= st);
    }
}

/// Translates a source text into the complete target program.
pub fn compile_riscv_asm(data: &str) -> (r: Result<String, Error>)
    ensures
        match r {
            Ok(out) => compile_text(data@) == Ok::<Seq<char>, (ErrorKind, Seq<char>)>(out@),
            Err(e) => compile_text(data@) == Err::<Seq<char>, (ErrorKind, Seq<char>)>(e@),
        },
{
    let mut source = String::from_str(data);
    let lib = library_routines();
    source.append(lib.as_str());
    let statements = match parse_asm(source.as_str()) {
        Ok(st) => st,
        Err(e) => return Err(e),
    };
    let ghost sv = stmts_view(statements@);
    let mut out = preamble();
    let mut k: usize = 0;
    assert(sv.subrange(0, 0) =~= Seq::<StmtModel>::empty());
    while k < statements.len()
        invariant
            k <= statements@.len(),
            sv == stmts_view(statements@),
            parse_text(data@ + library_text()) == Ok::<Seq<StmtModel>, Seq<char>>(sv),
            statements_output(sv.subrange(0, k as int)) matches Ok(body) && out@ == preamble_text()
                + body,
        decreases statements@.len() - k,
    {
        let ghost cur = sv.subrange(0, k + 1);
        assert(cur.drop_last() =~= sv.subrange(0, k as int));
        assert(cur.last() == statements@[k as int]@);
        match process_statement(&statements[k]) {
            Ok(text) => {
                let ghost before = out@;
                out.append(text.as_str());
                proof {
                    let body = statements_output(sv.subrange(0, k as int))->Ok_0;
                    assert(out@ =~= preamble_text() + (body + text@));
                }
            },
            Err(e) => {
                proof { lemma_statements_error_extends(sv, k + 1); }
                return Err(e);
            },
        }
        k = k + 1;
    }
    assert(sv.subrange(0, k as int) =~= sv);
    Ok(out)
}

/// The mnemonics that the lowering table covers.
pub open spec fn is_supported(instr: Seq<char>) -> bool {
    instr == "add"@ || instr == "addi"@ || instr == "beq"@ || instr == "beqz"@ || instr
        == "bgeu"@ || instr == "bltu"@ || instr == "bne"@ || instr == "bnez"@ || instr == "j"@
        || instr == "call"@ || instr == "ecall"@ || instr == "li"@ || instr == "lui"@ || instr
        == "lw"@ || instr == "sw"@ || instr == "mv"@ || instr == "ret"@ || instr == "seqz"@
        || instr == "slli"@ || instr == "unimp"@ || instr == "xor"@
}

/// The mnemonics of the lowering table are pairwise different.
proof fn reveal_mnemonics()
    ensures
        "add"@ != "beq"@,
        "add"@ != "bne"@,
        "add"@ != "lui"@,
        "add"@ != "ret"@,
        "add"@ != "xor"@,
        "addi"@ != "beqz"@,
        "addi"@ != "bgeu"@,
        "addi"@ != "bltu"@,
        "addi"@ != "bnez"@,
        "addi"@ != "call"@,
        "addi"@ != "seqz"@,
        "addi"@ != "slli"@,
        "beq"@ != "bne"@,
        "beq"@ != "lui"@,
        "beq"@ != "ret"@,
        "beq"@ != "xor"@,
        "beqz"@ != "bgeu"@,
        "beqz"@ != "bltu"@,
        "beqz"@ != "bnez"@,
        "beqz"@ != "call"@,
        "beqz"@ != "seqz"@,
        "beqz"@ != "slli"@,
        "bgeu"@ != "bltu"@,
        "bgeu"@ != "bnez"@,
        "bgeu"@ != "call"@,
        "bgeu"@ != "seqz"@,
        "bgeu"@ != "slli"@,
        "bltu"@ != "bnez"@,
        "bltu"@ != "call"@,
        "bltu"@ != "seqz"@,
        "bltu"@ != "slli"@,
        "bne"@ != "lui"@,
        "bne"@ != "ret"@,
        "bne"@ != "xor"@,
        "bnez"@ != "call"@,
        "bnez"@ != "seqz"@,
        "bnez"@ != "slli"@,
        "call"@ != "seqz"@,
        "call"@ != "slli"@,
        "ecall"@ != "unimp"@,
        "li"@ != "lw"@,
        "li"@ != "sw"@,
        "li"@ != "mv"@,
        "lui"@ != "ret"@,
        "lui"@ != "xor"@,
        "lw"@ != "sw"@,
        "lw"@ != "mv"@,
        "sw"@ != "mv"@,
        "ret"@ != "xor"@,
        "seqz"@ != "slli"@,
        "add"@ != "addi"@,
        "add"@ != "beqz"@,
        "add"@ != "bgeu"@,
        "add"@ != "bltu"@,
        "add"@ != "bnez"@,
        "add"@ != "j"@,
        "add"@ != "call"@,
        "add"@ != "ecall"@,
        "add"@ != "li"@,
        "add"@ != "lw"@,
        "add"@ != "sw"@,
        "add"@ != "mv"@,
        "add"@ != "seqz"@,
        "add"@ != "slli"@,
        "add"@ != "unimp"@,
        "addi"@ != "beq"@,
        "addi"@ != "bne"@,
        "addi"@ != "j"@,
        "addi"@ != "ecall"@,
        "addi"@ != "li"@,
        "addi"@ != "lui"@,
        "addi"@ != "lw"@,
        "addi"@ != "sw"@,
        "addi"@ != "mv"@,
        "addi"@ != "ret"@,
        "addi"@ != "unimp"@,
        "addi"@ != "xor"@,
        "beq"@ != "beqz"@,
        "beq"@ != "bgeu"@,
        "beq"@ != "bltu"@,
        "beq"@ != "bnez"@,
        "beq"@ != "j"@,
        "beq"@ != "call"@,
        "beq"@ != "ecall"@,
        "beq"@ != "li"@,
        "beq"@ != "lw"@,
        "beq"@ != "sw"@,
        "beq"@ != "mv"@,
        "beq"@ != "seqz"@,
        "beq"@ != "slli"@,
        "beq"@ != "unimp"@,
        "beqz"@ != "bne"@,
        "beqz"@ != "j"@,
        "beqz"@ != "ecall"@,
        "beqz"@ != "li"@,
        "beqz"@ != "lui"@,
        "beqz"@ != "lw"@,
        "beqz"@ != "sw"@,
        "beqz"@ != "mv"@,
        "beqz"@ != "ret"@,
        "beqz"@ != "unimp"@,
        "beqz"@ != "xor"@,
        "bgeu"@ != "bne"@,
        "bgeu"@ != "j"@,
        "bgeu"@ != "ecall"@,
        "bgeu"@ != "li"@,
        "bgeu"@ != "lui"@,
        "bgeu"@ != "lw"@,
        "bgeu"@ != "sw"@,
        "bgeu"@ != "mv"@,
        "bgeu"@ != "ret"@,
        "bgeu"@ != "unimp"@,
        "bgeu"@ != "xor"@,
        "bltu"@ != "bne"@,
        "bltu"@ != "j"@,
        "bltu"@ != "ecall"@,
        "bltu"@ != "li"@,
        "bltu"@ != "lui"@,
        "bltu"@ != "lw"@,
        "bltu"@ != "sw"@,
        "bltu"@ != "mv"@,
        "bltu"@ != "ret"@,
        "bltu"@ != "unimp"@,
        "bltu"@ != "xor"@,
        "bne"@ != "bnez"@,
        "bne"@ != "j"@,
        "bne"@ != "call"@,
        "bne"@ != "ecall"@,
        "bne"@ != "li"@,
        "bne"@ != "lw"@,
        "bne"@ != "sw"@,
        "bne"@ != "mv"@,
        "bne"@ != "seqz"@,
        "bne"@ != "slli"@,
        "bne"@ != "unimp"@,
        "bnez"@ != "j"@,
        "bnez"@ != "ecall"@,
        "bnez"@ != "li"@,
        "bnez"@ != "lui"@,
        "bnez"@ != "lw"@,
        "bnez"@ != "sw"@,
        "bnez"@ != "mv"@,
        "bnez"@ != "ret"@,
        "bnez"@ != "unimp"@,
        "bnez"@ != "xor"@,
        "j"@ != "call"@,
        "j"@ != "ecall"@,
        "j"@ != "li"@,
        "j"@ != "lui"@,
        "j"@ != "lw"@,
        "j"@ != "sw"@,
        "j"@ != "mv"@,
        "j"@ != "ret"@,
        "j"@ != "seqz"@,
        "j"@ != "slli"@,
        "j"@ != "unimp"@,
        "j"@ != "xor"@,
        "call"@ != "ecall"@,
        "call"@ != "li"@,
        "call"@ != "lui"@,
        "call"@ != "lw"@,
        "call"@ != "sw"@,
        "call"@ != "mv"@,
        "call"@ != "ret"@,
        "call"@ != "unimp"@,
        "call"@ != "xor"@,
        "ecall"@ != "li"@,
        "ecall"@ != "lui"@,
        "ecall"@ != "lw"@,
        "ecall"@ != "sw"@,
        "ecall"@ != "mv"@,
        "ecall"@ != "ret"@,
        "ecall"@ != "seqz"@,
        "ecall"@ != "slli"@,
        "ecall"@ != "xor"@,
        "li"@ != "lui"@,
        "li"@ != "ret"@,
        "li"@ != "seqz"@,
        "li"@ != "slli"@,
        "li"@ != "unimp"@,
        "li"@ != "xor"@,
        "lui"@ != "lw"@,
        "lui"@ != "sw"@,
        "lui"@ != "mv"@,
        "lui"@ != "seqz"@,
        "lui"@ != "slli"@,
        "lui"@ != "unimp"@,
        "lw"@ != "ret"@,
        "lw"@ != "seqz"@,
        "lw"@ != "slli"@,
        "lw"@ != "unimp"@,
        "lw"@ != "xor"@,
        "sw"@ != "ret"@,
        "sw"@ != "seqz"@,
        "sw"@ != "slli"@,
        "sw"@ != "unimp"@,
        "sw"@ != "xor"@,
        "mv"@ != "ret"@,
        "mv"@ != "seqz"@,
        "mv"@ != "slli"@,
        "mv"@ != "unimp"@,
        "mv"@ != "xor"@,
        "ret"@ != "seqz"@,
        "ret"@ != "slli"@,
        "ret"@ != "unimp"@,
        "seqz"@ != "unimp"@,
        "seqz"@ != "xor"@,
        "slli"@ != "unimp"@,
        "slli"@ != "xor"@,
        "unimp"@ != "xor"@,
{
    reveal_strlit("add");
    reveal_strlit("addi");
    reveal_strlit("beq");
    reveal_strlit("beqz");
    reveal_strlit("bgeu");
    reveal_strlit("bltu");
    reveal_strlit("bne");
    reveal_strlit("bnez");
    reveal_strlit("j");
    reveal_strlit("call");
    reveal_strlit("ecall");
    reveal_strlit("li");
    reveal_strlit("lui");
    reveal_strlit("lw");
    reveal_strlit("sw");
    reveal_strlit("mv");
    reveal_strlit("ret");
    reveal_strlit("seqz");
    reveal_strlit("slli");
    reveal_strlit("unimp");
    reveal_strlit("xor");
    assert("add"@.len() != "addi"@.len());
    assert("beq"@.len() != "beqz"@.len());
    assert("bne"@.len() != "bnez"@.len());
    assert("add"@[0] != "beq"@[0]);
    assert("add"@[0] != "bne"@[0]);
    assert("add"@[0] != "lui"@[0]);
    assert("add"@[0] != "ret"@[0]);
    assert("add"@[0] != "xor"@[0]);
    assert("addi"@[0] != "beqz"@[0]);
    assert("addi"@[0] != "bgeu"@[0]);
    assert("addi"@[0] != "bltu"@[0]);
    assert("addi"@[0] != "bnez"@[0]);
    assert("addi"@[0] != "call"@[0]);
    assert("addi"@[0] != "seqz"@[0]);
    assert("addi"@[0] != "slli"@[0]);
    assert("beq"@[1] != "bne"@[1]);
    assert("beq"@[0] != "lui"@[0]);
    assert("beq"@[0] != "ret"@[0]);
    assert("beq"@[0] != "xor"@[0]);
    assert("beqz"@[1] != "bgeu"@[1]);
    assert("beqz"@[1] != "bltu"@[1]);
    assert("beqz"@[1] != "bnez"@[1]);
    assert("beqz"@[0] != "call"@[0]);
    assert("beqz"@[0] != "seqz"@[0]);
    assert("beqz"@[0] != "slli"@[0]);
    assert("bgeu"@[1] != "bltu"@[1]);
    assert("bgeu"@[1] != "bnez"@[1]);
    assert("bgeu"@[0] != "call"@[0]);
    assert("bgeu"@[0] != "seqz"@[0]);
    assert("bgeu"@[0] != "slli"@[0]);
    assert("bltu"@[1] != "bnez"@[1]);
    assert("bltu"@[0] != "call"@[0]);
    assert("bltu"@[0] != "seqz"@[0]);
    assert("bltu"@[0] != "slli"@[0]);
    assert("bne"@[0] != "lui"@[0]);
    assert("bne"@[0] != "ret"@[0]);
    assert("bne"@[0] != "xor"@[0]);
    assert("bnez"@[0] != "call"@[0]);
    assert("bnez"@[0] != "seqz"@[0]);
    assert("bnez"@[0] != "slli"@[0]);
    assert("call"@[0] != "seqz"@[0]);
    assert("call"@[0] != "slli"@[0]);
    assert("ecall"@[0] != "unimp"@[0]);
    assert("li"@[1] != "lw"@[1]);
    assert("li"@[0] != "sw"@[0]);
    assert("li"@[0] != "mv"@[0]);
    assert("lui"@[0] != "ret"@[0]);
    assert("lui"@[0] != "xor"@[0]);
    assert("lw"@[0] != "sw"@[0]);
    assert("lw"@[0] != "mv"@[0]);
    assert("sw"@[0] != "mv"@[0]);
    assert("ret"@[0] != "xor"@[0]);
    assert("seqz"@[1] != "slli"@[1]);
}

/// `add rd, r1, r2` binds `rd` to the wrapped sum of `r1` and `r2`, a single
/// target instruction.
pub proof fn lemma_add_lowering(rd: nat, r1: nat, r2: nat)
    ensures
        lower(
            "add"@,
            seq![ArgModel::Register(rd), ArgModel::Register(r1), ArgModel::Register(r2)],
        ) == Ok::<Seq<char>, ErrorKind>(
            reg_text(rd) + " <=X= wrap "@ + reg_text(r1) + " + "@ + reg_text(r2) + "\n"@,
        ),
{
}

/// `sw r1, offset(r2)` is two target instructions: the address into the
/// address register, then the store of `r1`.
pub proof fn lemma_store_lowering(r1: nat, r2: nat, offset: int)
    ensures
        lower("sw"@, seq![ArgModel::Register(r1), ArgModel::RegOffset(r2, offset)]) == Ok::<
            Seq<char>,
            ErrorKind,
        >(
            ("addr <=X= wrap "@ + reg_text(r2) + " + "@ + dec(wrap32(offset)) + "\n"@) + (
            "mstore "@ + reg_text(r1) + "\n"@),
        ),
{
    reveal_mnemonics();
    let args = seq![ArgModel::Register(r1), ArgModel::RegOffset(r2, offset)];
    assert(shape_rro(args) == Some((r1, r2, wrap32(offset))));
    let a = "addr <=X= wrap "@ + reg_text(r2) + " + "@ + dec(wrap32(offset)) + "\n"@;
    assert(a + "mstore "@ + reg_text(r1) + "\n"@ =~= a + ("mstore "@ + reg_text(r1) + "\n"@));
}

/// `beqz r, l` and `bnez r, l` produce the same test of `r` against zero,
/// the one branching on zero, the other on non-zero.
pub proof fn lemma_zero_branches(r: nat, l: Seq<char>)
    ensures
        ({
            let args = seq![ArgModel::Register(r), ArgModel::Symbol(l)];
            let rest = reg_text(r) + ", "@ + l + "\n"@;
            &&& lower("beqz"@, args) == Ok::<Seq<char>, ErrorKind>("branch_if_zero "@ + rest)
            &&& lower("bnez"@, args) == Ok::<Seq<char>, ErrorKind>("branch_if_nonzero "@ + rest)
        }),
{
    let args = seq![ArgModel::Register(r), ArgModel::Symbol(l)];
    let rest = reg_text(r) + ", "@ + l + "\n"@;
    reveal_mnemonics();
    assert(shape_rl(args) == Some((r, l)));
    assert("branch_if_zero "@ + reg_text(r) + ", "@ + l + "\n"@ =~= "branch_if_zero "@ + rest);
    assert("branch_if_nonzero "@ + reg_text(r) + ", "@ + l + "\n"@ =~= "branch_if_nonzero "@
        + rest);
}

/// A mnemonic outside the table fails as unsupported, whatever its arguments.
pub proof fn lemma_unknown_mnemonic(instr: Seq<char>, args: Seq<ArgModel>)
    requires
        !is_supported(instr),
    ensures
        lower(instr, args) == Err::<Seq<char>, ErrorKind>(ErrorKind::UnsupportedMnemonic),
{
}

/// A left shift by more than 16 bits is not supported; one by at most 16
/// bits is a multiplication by `2^amount` that drops the bits beyond 32.
pub proof fn lemma_shift_limit(rd: nat, rs: nat, amount: int)
    requires
        0 <= amount < 0x1_0000_0000,
    ensures
        ({
            let args = seq![ArgModel::Register(rd), ArgModel::Register(rs), ArgModel::Number(amount)];
            &&& amount > 16 ==> lower("slli"@, args) == Err::<Seq<char>, ErrorKind>(
                ErrorKind::UnsupportedEncoding,
            )
            &&& amount <= 16 ==> lower("slli"@, args) == Ok::<Seq<char>, ErrorKind>(
                reg_text(rd) + " <=Y= wrap16 "@ + reg_text(rs) + " * "@ + dec(pow2(amount as nat))
                    + "\n"@,
            )
        }),
        pow2(16) == 65536,
{
    let args = seq![ArgModel::Register(rd), ArgModel::Register(rs), ArgModel::Number(amount)];
    reveal_mnemonics();
    vstd::arithmetic::div_mod::lemma_small_mod(amount as nat, 0x1_0000_0000);
    assert(shape_rri(args) == Ok::<(nat, nat, nat), ErrorKind>((rd, rs, amount as nat)));
    reveal_with_fuel(pow2, 17);
}

} // verus!
