//! The macro expander: it rewrites each source line on its own. A line that
//! begins with one of the macro opcodes `goto`, `jneq`, `jeq`, `add` and `sub`
//! becomes the base instructions that stand for it; every other line stays as
//! it is.

use vstd::prelude::*;
use vstd::string::*;
use crate::number::{parse_i32, parse_int};
use crate::text::{
    concat_lines, fields, is_space, is_whitespace, join_lines, lines, same_chars, split_fields,
    split_lines, starts_with, texts, to_chars, trim, trim_bounds,
};

verus! {

/// Why a macro line could not be expanded.
#[derive(Debug, PartialEq, Eq)]
pub enum ExpandError {
    /// An operand has not the form that its place asks for.
    Validation {
        /// The operand as it stands in the line.
        token: String,
    },
    /// The line holds fewer operands than its macro takes.
    MissingOperand,
}

/// The model of an [`ExpandError`].
pub enum Failure {
    Validation { token: Seq<char> },
    MissingOperand,
}

impl View for ExpandError {
    type V = Failure;

    open spec fn view(&self) -> Failure {
        match self {
            ExpandError::Validation { token } => Failure::Validation { token: token@ },
            ExpandError::MissingOperand => Failure::MissingOperand,
        }
    }
}

/// The model of an expansion that gives a text.
pub open spec fn outcome(r: Result<String, ExpandError>) -> Result<Seq<char>, Failure> {
    match r {
        Ok(s) => Ok(s@),
        Err(e) => Err(e@),
    }
}

/// The model of an expansion that gives lines.
pub open spec fn outcome_lines(r: Result<Vec<String>, ExpandError>) -> Result<
    Seq<Seq<char>>,
    Failure,
> {
    match r {
        Ok(v) => Ok(texts(v@)),
        Err(e) => Err(e@),
    }
}

/// The failure that reports `token`.
pub open spec fn invalid(token: Seq<char>) -> Failure {
    Failure::Validation { token }
}

/// The diagnostic for an operand that failed validation.
pub open spec fn parse_error_text(token: Seq<char>) -> Seq<char> {
    "parse error on "@ + token
}

/// The diagnostic of a failure.
pub open spec fn failure_text(f: Failure) -> Seq<char> {
    match f {
        Failure::Validation { token } => parse_error_text(token),
        Failure::MissingOperand => "missing operand"@,
    }
}

/// Whether `line` is an instance of the macro `opcode`: it begins with the
/// opcode, and white space or the end of the line follows.
pub open spec fn has_opcode(line: Seq<char>, opcode: Seq<char>) -> bool {
    opcode.is_prefix_of(line) && (line.len() == opcode.len() || is_space(
        line[opcode.len() as int],
    ))
}

/// What follows the opcode in `line`, without the white space around it.
pub open spec fn operands(line: Seq<char>, opcode: Seq<char>) -> Seq<char> {
    trim(line.skip(opcode.len() as int))
}

/// Whether `token` has the form of a register name: it begins with `reg`.
pub open spec fn is_register(token: Seq<char>) -> bool {
    "reg"@.is_prefix_of(token)
}

/// Whether `token` has the form of a label reference: it begins with `$`.
pub open spec fn is_label_ref(token: Seq<char>) -> bool {
    token.len() > 0 && token[0] == '$'
}

/// Whether `token` is a signed 32-bit decimal literal.
pub open spec fn is_number(token: Seq<char>) -> bool {
    parse_i32(token) is Some
}

/// A validated token: the token itself where it passes, else the failure that
/// reports it.
pub open spec fn checked(token: Seq<char>, passes: bool) -> Result<Seq<char>, Failure> {
    if passes {
        Ok(token)
    } else {
        Err(invalid(token))
    }
}

/// The expansion of a `goto` line: its operand, then the opcode `goto`. Any
/// other line is its own expansion.
pub open spec fn expand_goto(line: Seq<char>) -> Seq<char> {
    if has_opcode(line, "goto"@) {
        join_lines(seq![operands(line, "goto"@), "goto"@])
    } else {
        line
    }
}

/// The branch on a comparison with zero: the register is moved to the
/// compare register `reg3`, then come the label reference and the jump; a
/// blank line closes the group.
pub open spec fn zero_branch(jump: Seq<char>, reg: Seq<char>, label: Seq<char>) -> Result<
    Seq<char>,
    Failure,
> {
    if is_register(reg) {
        Ok(join_lines(seq![reg + "_to_reg3"@, label, jump, seq!['\n']]))
    } else {
        Err(invalid(reg))
    }
}

/// The branch that the operands `rest` of a conditional macro stand for,
/// ending in the jump `jump`.
///
/// The third operand must be a label reference. Where the second denotes
/// zero, the branch is the [`zero_branch`]. Else the register is moved to the
/// left register `reg1`, the number is loaded and moved from `reg0` to the
/// right register `reg2`, and `sub`, the label reference and the jump follow;
/// a blank line closes the group.
pub open spec fn branch(jump: Seq<char>, rest: Seq<char>) -> Result<Seq<char>, Failure> {
    let args = fields(rest);
    if args.len() < 3 {
        Err(Failure::MissingOperand)
    } else if !is_label_ref(args[2]) {
        Err(invalid(args[2]))
    } else if parse_i32(args[1]) == Some(0int) {
        zero_branch(jump, args[0], args[2])
    } else if !is_register(args[0]) {
        Err(invalid(args[0]))
    } else if !is_number(args[1]) {
        Err(invalid(args[1]))
    } else {
        Ok(
            join_lines(
                seq![
                    args[0] + "_to_reg1"@,
                    args[1],
                    "reg0_to_reg2"@,
                    "sub"@,
                    args[2],
                    jump,
                    seq!['\n'],
                ],
            ),
        )
    }
}

/// The expansion of a line by the conditional macro `instr` with the jump
/// `jump`: the [`branch`] of its operands where the line is an instance of the
/// macro, else the line with a line feed behind it.
pub open spec fn expand_cond(instr: Seq<char>, jump: Seq<char>, line: Seq<char>) -> Result<
    Seq<char>,
    Failure,
> {
    if has_opcode(line, instr) {
        branch(jump, operands(line, instr))
    } else {
        Ok(line.push('\n'))
    }
}

/// The lines that load the operand `token` into the register `dest`: from the
/// input where the operand is `in`, from a register where it has the form of
/// one, and else as a number, which is loaded and moved from `reg0`.
pub open spec fn load_operand(token: Seq<char>, dest: Seq<char>) -> Result<
    Seq<Seq<char>>,
    Failure,
> {
    if token == "in"@ {
        Ok(seq!["in_to_"@ + dest])
    } else if is_register(token) {
        Ok(seq![token + "_to_"@ + dest])
    } else if is_number(token) {
        Ok(seq![token, "reg0_to_"@ + dest])
    } else {
        Err(invalid(token))
    }
}

/// The arithmetic that the operands `rest` of the macro `instr` stand for: the
/// first operand is loaded into `reg1`, the second into `reg2`, and the
/// opcode follows; a blank line closes the group.
pub open spec fn arithmetic(instr: Seq<char>, rest: Seq<char>) -> Result<Seq<char>, Failure> {
    let args = fields(rest);
    if args.len() < 2 {
        Err(Failure::MissingOperand)
    } else {
        match load_operand(args[0], "reg1"@) {
            Err(e) => Err(e),
            Ok(left) => match load_operand(args[1], "reg2"@) {
                Err(e) => Err(e),
                Ok(right) => Ok(join_lines(left + right + seq![instr, seq!['\n']])),
            },
        }
    }
}

/// The expansion of a line by the arithmetic macro `instr`: the
/// [`arithmetic`] of its operands where the line is an instance of the macro,
/// else the line itself.
pub open spec fn expand_math(instr: Seq<char>, line: Seq<char>) -> Result<Seq<char>, Failure> {
    if has_opcode(line, instr) {
        arithmetic(instr, operands(line, instr))
    } else {
        Ok(line)
    }
}

/// Whether `line` is an instance of one of the five macros.
pub open spec fn is_macro(line: Seq<char>) -> bool {
    has_opcode(line, "goto"@) || has_opcode(line, "jneq"@) || has_opcode(line, "jeq"@)
        || has_opcode(line, "add"@) || has_opcode(line, "sub"@)
}

/// The text that takes the place of one source line: its lines, each with a
/// line feed behind it.
pub open spec fn expand_line(line: Seq<char>) -> Result<Seq<char>, Failure> {
    if has_opcode(line, "goto"@) {
        Ok(expand_goto(line).push('\n'))
    } else if has_opcode(line, "jneq"@) {
        expand_cond("jneq"@, "jnz"@, line)
    } else if has_opcode(line, "jeq"@) {
        expand_cond("jeq"@, "jz"@, line)
    } else if has_opcode(line, "add"@) {
        expand_math("add"@, line)
    } else if has_opcode(line, "sub"@) {
        expand_math("sub"@, line)
    } else {
        Ok(line.push('\n'))
    }
}

/// The expansions of the given lines, one behind the other; the failure of
/// the first line that has one.
pub open spec fn expand_all(source: Seq<Seq<char>>) -> Result<Seq<char>, Failure>
    decreases source.len(),
{
    if source.len() == 0 {
        Ok(Seq::empty())
    } else {
        match expand_all(source.drop_last()) {
            Err(e) => Err(e),
            Ok(head) => match expand_line(source.last()) {
                Err(e) => Err(e),
                Ok(tail) => Ok(head + tail),
            },
        }
    }
}

impl ExpandError {
    /// The diagnostic line for this failure.
    pub fn message(&self) -> (text: String)
        ensures
            text@ == failure_text(self@),
    {
        match self {
            ExpandError::Validation { token } => String::from_str("parse error on ").concat(
                token.as_str(),
            ),
            ExpandError::MissingOperand => String::from_str("missing operand"),
        }
    }
}

/// The operands of `line` where it is an instance of the macro `opcode`.
pub fn strip_instr<'a>(line: &'a str, opcode: &str) -> (r: Option<&'a str>)
    ensures
        match r {
            Some(rest) => has_opcode(line@, opcode@) && rest@ == operands(line@, opcode@),
            None => !has_opcode(line@, opcode@),
        },
{
    let v = to_chars(line);
    let op = to_chars(opcode);
    if !starts_with(&v, &op) {
        return None;
    }
    if v.len() > op.len() && !is_whitespace(v[op.len()]) {
        return None;
    }
    let (a, b) = trim_bounds(&v, op.len());
    Some(line.substring_char(a, b))
}

/// Expands a `goto` line into its operand and the opcode `goto`; hands any
/// other line back.
pub fn gen_goto(line: String) -> (out: String)
    ensures
        out@ == expand_goto(line@),
{
    match strip_instr(line.as_str(), "goto") {
        Some(l) => {
            let parts = vec![String::from_str(l), String::from_str("goto")];
            assert(texts(parts@) =~= seq![operands(line@, "goto"@), "goto"@]);
            concat_lines(parts)
        },
        None => line,
    }
}

/// Hands `token` back where it is a signed 32-bit decimal literal.
pub fn assert_num(token: String) -> (r: Result<String, ExpandError>)
    ensures
        outcome(r) == checked(token@, is_number(token@)),
{
    match parse_int(token.as_str()) {
        Some(_) => Ok(token),
        None => Err(ExpandError::Validation { token }),
    }
}

/// Hands `token` back where it has the form of a register name.
pub fn assert_reg(token: String) -> (r: Result<String, ExpandError>)
    ensures
        outcome(r) == checked(token@, is_register(token@)),
{
    let v = to_chars(token.as_str());
    let reg = to_chars("reg");
    if starts_with(&v, &reg) {
        Ok(token)
    } else {
        Err(ExpandError::Validation { token })
    }
}

/// Hands `token` back where it has the form of a label reference.
pub fn assert_label_callsite(token: &str) -> (r: Result<String, ExpandError>)
    ensures
        outcome(r) == checked(token@, is_label_ref(token@)),
{
    let v = to_chars(token);
    if v.len() > 0 && v[0] == '$' {
        Ok(String::from_str(token))
    } else {
        Err(ExpandError::Validation { token: String::from_str(token) })
    }
}

/// Expands a `jneq` line into a branch that ends in `jnz`.
pub fn gen_jneq(line: &str) -> (r: Result<String, ExpandError>)
    ensures
        outcome(r) == expand_cond("jneq"@, "jnz"@, line@),
{
    gen_cond("jneq", "jnz", line)
}

/// Expands a `jeq` line into a branch that ends in `jz`.
pub fn gen_jeq(line: &str) -> (r: Result<String, ExpandError>)
    ensures
        outcome(r) == expand_cond("jeq"@, "jz"@, line@),
{
    gen_cond("jeq", "jz", line)
}

/// The branch on a comparison with zero, which needs no subtraction.
pub fn gen_zero_cond(asm_opcode: &str, reg: &str, label: &str) -> (r: Result<String, ExpandError>)
    ensures
        outcome(r) == zero_branch(asm_opcode@, reg@, label@),
{
    match assert_reg(String::from_str(reg)) {
        Ok(name) => {
            proof {
                reveal_strlit("\n");
                assert("\n"@ =~= seq!['\n']);
            }
            let parts = vec![
                name.concat("_to_reg3"),
                String::from_str(label),
                String::from_str(asm_opcode),
                String::from_str("\n"),
            ];
            assert(texts(parts@) =~= seq![reg@ + "_to_reg3"@, label@, asm_opcode@, seq!['\n']]);
            Ok(concat_lines(parts))
        },
        Err(e) => Err(e),
    }
}

/// Expands a line of the conditional macro `instr` into a branch that ends in
/// `asm_opcode`; puts a line feed behind any other line.
pub fn gen_cond(instr: &str, asm_opcode: &str, line: &str) -> (r: Result<String, ExpandError>)
    ensures
        outcome(r) == expand_cond(instr@, asm_opcode@, line@),
{
    proof {
        reveal_strlit("\n");
        assert("\n"@ =~= seq!['\n']);
    }
    match strip_instr(line, instr) {
        Some(l) => {
            let chars = to_chars(l);
            let args = split_fields(&chars, 0, chars.len());
            assert(chars@.subrange(0, chars@.len() as int) =~= l@);
            if args.len() < 3 {
                return Err(ExpandError::MissingOperand);
            }
            let reg = args[0].as_str();
            let val = args[1].as_str();
            let label = args[2].as_str();
            if let Err(e) = assert_label_callsite(label) {
                return Err(e);
            }
            let zero = match parse_int(val) {
                Some(n) => n == 0,
                None => false,
            };
            if zero {
                return gen_zero_cond(asm_opcode, reg, label);
            }
            let name = match assert_reg(String::from_str(reg)) {
                Ok(name) => name,
                Err(e) => {
                    return Err(e);
                },
            };
            let number = match assert_num(String::from_str(val)) {
                Ok(number) => number,
                Err(e) => {
                    return Err(e);
                },
            };
            let parts = vec![
                name.concat("_to_reg1"),
                number,
                String::from_str("reg0_to_reg2"),
                String::from_str("sub"),
                String::from_str(label),
                String::from_str(asm_opcode),
                String::from_str("\n"),
            ];
            assert(texts(parts@) =~= seq![
                reg@ + "_to_reg1"@,
                val@,
                "reg0_to_reg2"@,
                "sub"@,
                label@,
                asm_opcode@,
                seq!['\n'],
            ]);
            Ok(concat_lines(parts))
        },
        None => {
            let out = String::from_str(line).concat("\n");
            assert(out@ =~= line@.push('\n'));
            Ok(out)
        },
    }
}

/// The lines that load the operand `reg_or_imm` into the register `dest_reg`.
pub fn gen_load_register_or_immediate(reg_or_imm: &str, dest_reg: &str) -> (r: Result<
    Vec<String>,
    ExpandError,
>)
    ensures
        outcome_lines(r) == load_operand(reg_or_imm@, dest_reg@),
{
    let v = to_chars(reg_or_imm);
    let input = to_chars("in");
    let reg = to_chars("reg");
    if same_chars(&v, &input) {
        let out = vec![String::from_str("in_to_").concat(dest_reg)];
        assert(texts(out@) =~= seq!["in_to_"@ + dest_reg@]);
        Ok(out)
    } else if starts_with(&v, &reg) {
        let out = vec![String::from_str(reg_or_imm).concat("_to_").concat(dest_reg)];
        assert(texts(out@) =~= seq![reg_or_imm@ + "_to_"@ + dest_reg@]);
        Ok(out)
    } else {
        match assert_num(String::from_str(reg_or_imm)) {
            Ok(number) => {
                let out = vec![number, String::from_str("reg0_to_").concat(dest_reg)];
                assert(texts(out@) =~= seq![reg_or_imm@, "reg0_to_"@ + dest_reg@]);
                Ok(out)
            },
            Err(e) => Err(e),
        }
    }
}

/// Expands a line of the arithmetic macro `instr`; hands any other line back.
pub fn gen_math(instr: &str, line: &str) -> (r: Result<String, ExpandError>)
    ensures
        outcome(r) == expand_math(instr@, line@),
{
    match strip_instr(line, instr) {
        Some(l) => {
            let chars = to_chars(l);
            let args = split_fields(&chars, 0, chars.len());
            assert(chars@.subrange(0, chars@.len() as int) =~= l@);
            if args.len() < 2 {
                return Err(ExpandError::MissingOperand);
            }
            let lhs = args[0].as_str();
            let rhs = args[1].as_str();
            let left = match gen_load_register_or_immediate(lhs, "reg1") {
                Ok(left) => left,
                Err(e) => {
                    return Err(e);
                },
            };
            let right = match gen_load_register_or_immediate(rhs, "reg2") {
                Ok(right) => right,
                Err(e) => {
                    return Err(e);
                },
            };
            let mut instrs = left;
            let mut i: usize = 0;
            while i < right.len()
                invariant
                    i <= right.len(),
                    texts(instrs@) == texts(left@) + texts(right@).take(i as int),
                decreases right.len() - i,
            {
                let item = right[i].clone();
                assert(texts(instrs@.push(item)) =~= texts(instrs@) + seq![right@[i as int]@]);
                assert(texts(right@).take(i + 1) =~= texts(right@).take(i as int) + seq![
                    right@[i as int]@,
                ]);
                instrs.push(item);
                i += 1;
            }
            assert(texts(right@).take(i as int) =~= texts(right@));
            proof {
                reveal_strlit("\n");
                assert("\n"@ =~= seq!['\n']);
            }
            let ghost before = texts(instrs@);
            instrs.push(String::from_str(instr));
            instrs.push(String::from_str("\n"));
            assert(texts(instrs@) =~= before + seq![instr@, seq!['\n']]);
            Ok(concat_lines(instrs))
        },
        None => Ok(String::from_str(line)),
    }
}

/// Expands an `add` line.
pub fn gen_add(line: &str) -> (r: Result<String, ExpandError>)
    ensures
        outcome(r) == expand_math("add"@, line@),
{
    gen_math("add", line)
}

/// Expands a `sub` line.
pub fn gen_sub(line: &str) -> (r: Result<String, ExpandError>)
    ensures
        outcome(r) == expand_math("sub"@, line@),
{
    gen_math("sub", line)
}

/// The text that takes the place of one source line.
pub fn gen_line(line: &str) -> (r: Result<String, ExpandError>)
    ensures
        outcome(r) == expand_line(line@),
{
    proof {
        reveal_strlit("\n");
        assert("\n"@ =~= seq!['\n']);
    }
    if strip_instr(line, "goto").is_some() {
        let out = gen_goto(String::from_str(line)).concat("\n");
        assert(out@ =~= expand_goto(line@).push('\n'));
        Ok(out)
    } else if strip_instr(line, "jneq").is_some() {
        gen_jneq(line)
    } else if strip_instr(line, "jeq").is_some() {
        gen_jeq(line)
    } else if strip_instr(line, "add").is_some() {
        gen_add(line)
    } else if strip_instr(line, "sub").is_some() {
        gen_sub(line)
    } else {
        let out = String::from_str(line).concat("\n");
        assert(out@ =~= line@.push('\n'));
        Ok(out)
    }
}

/// Expands the macros of a source text, line by line.
///
/// Gives the expansions of the lines one behind the other, or the failure of
/// the first line that cannot be expanded.
pub fn translate_tokens(input: String) -> (r: Result<String, ExpandError>)
    ensures
        outcome(r) == expand_all(lines(input@)),
{
    let source = split_lines(input.as_str());
    let mut out = String::new();
    let mut i: usize = 0;
    assert(texts(source@).take(0) =~= Seq::<Seq<char>>::empty());
    while i < source.len()
        invariant
            i <= source.len(),
            texts(source@) == lines(input@),
            expand_all(texts(source@).take(i as int)) == Ok::<Seq<char>, Failure>(out@),
        decreases source.len() - i,
    {
        proof {
            let next = texts(source@).take(i + 1);
            assert(next.drop_last() =~= texts(source@).take(i as int));
            assert(next.last() == source@[i as int]@);
        }
        match gen_line(source[i].as_str()) {
            Ok(text) => {
                out.append(text.as_str());
            },
            Err(e) => {
                proof {
                    lemma_expand_all_fails(texts(source@), i as int);
                }
                return Err(e);
            },
        }
        i += 1;
    }
    assert(texts(source@).take(i as int) =~= texts(source@));
    Ok(out)
}

/// Where the lines before line `k` expand and line `k` does not, the whole
/// fails as line `k` does.
pub proof fn lemma_expand_all_fails(source: Seq<Seq<char>>, k: int)
    requires
        0 <= k < source.len(),
        expand_all(source.take(k)) is Ok,
        expand_line(source[k]) is Err,
    ensures
        expand_all(source) == Err::<Seq<char>, Failure>(expand_line(source[k])->Err_0),
    decreases source.len(),
{
    if k == source.len() - 1 {
        assert(source.drop_last() =~= source.take(k));
    } else {
        assert(source.drop_last().take(k) =~= source.take(k));
        lemma_expand_all_fails(source.drop_last(), k);
    }
}

} // verus!
