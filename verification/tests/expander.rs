use macro_asm::expand::{
    assert_label_callsite, assert_num, assert_reg, gen_add, gen_cond, gen_goto, gen_jeq, gen_jneq,
    gen_line, gen_load_register_or_immediate, gen_math, gen_sub, gen_zero_cond, strip_instr,
    translate_tokens, ExpandError,
};
use macro_asm::listing::remove_newlines;

fn invalid(token: &str) -> ExpandError {
    ExpandError::Validation { token: token.to_string() }
}

#[test]
fn strip_instr_gives_the_trimmed_operands() {
    assert_eq!(strip_instr("goto   5  ", "goto"), Some("5"));
    assert_eq!(strip_instr("goto\t5", "goto"), Some("5"));
    assert_eq!(strip_instr("add reg1 3", "add"), Some("reg1 3"));
    assert_eq!(strip_instr("goto", "goto"), Some(""));
    assert_eq!(strip_instr("goto \u{3000} ", "goto"), Some(""));
}

#[test]
fn strip_instr_wants_the_opcode_to_end() {
    assert_eq!(strip_instr("gotox", "goto"), None);
    assert_eq!(strip_instr("address", "add"), None);
    assert_eq!(strip_instr(" goto 5", "goto"), None);
    assert_eq!(strip_instr("got", "goto"), None);
    assert_eq!(strip_instr("", "goto"), None);
}

#[test]
fn gen_goto_puts_the_operand_first() {
    assert_eq!(gen_goto("goto 5".to_string()), "5\ngoto");
    assert_eq!(gen_goto("goto $loop".to_string()), "$loop\ngoto");
    assert_eq!(gen_goto("goto".to_string()), "\ngoto");
}

#[test]
fn gen_goto_leaves_other_lines() {
    assert_eq!(gen_goto("nop".to_string()), "nop");
    assert_eq!(gen_goto("gotox".to_string()), "gotox");
    assert_eq!(gen_goto("".to_string()), "");
}

#[test]
fn assert_num_hands_literals_back_unchanged() {
    for token in ["0", "3", "-7", "+15", "007", "2147483647", "-2147483648", "-0"] {
        assert_eq!(assert_num(token.to_string()), Ok(token.to_string()));
    }
}

#[test]
fn assert_num_rejects_what_is_no_literal() {
    for token in ["", "-", "+", "xyz", "12a", "1 ", " 1", "2147483648", "-2147483649", "1.5", "--1"] {
        assert_eq!(assert_num(token.to_string()), Err(invalid(token)));
    }
}

#[test]
fn assert_reg_goes_by_the_prefix() {
    assert_eq!(assert_reg("reg1".to_string()), Ok("reg1".to_string()));
    assert_eq!(assert_reg("reg".to_string()), Ok("reg".to_string()));
    assert_eq!(assert_reg("register".to_string()), Ok("register".to_string()));
    assert_eq!(assert_reg("re".to_string()), Err(invalid("re")));
    assert_eq!(assert_reg("in".to_string()), Err(invalid("in")));
    assert_eq!(assert_reg("".to_string()), Err(invalid("")));
}

#[test]
fn assert_label_callsite_goes_by_the_sigil() {
    assert_eq!(assert_label_callsite("$loop"), Ok("$loop".to_string()));
    assert_eq!(assert_label_callsite("$"), Ok("$".to_string()));
    assert_eq!(assert_label_callsite("loop"), Err(invalid("loop")));
    assert_eq!(assert_label_callsite("@loop"), Err(invalid("@loop")));
    assert_eq!(assert_label_callsite(""), Err(invalid("")));
}

#[test]
fn gen_zero_cond_moves_to_the_compare_register() {
    assert_eq!(
        gen_zero_cond("jnz", "reg4", "$loop"),
        Ok("reg4_to_reg3\n$loop\njnz\n\n".to_string())
    );
    assert_eq!(gen_zero_cond("jz", "r4", "$loop"), Err(invalid("r4")));
}

#[test]
fn gen_cond_subtracts_a_number_that_is_not_zero() {
    assert_eq!(
        gen_cond("jneq", "jnz", "jneq reg1 5 $start"),
        Ok("reg1_to_reg1\n5\nreg0_to_reg2\nsub\n$start\njnz\n\n".to_string())
    );
    assert_eq!(
        gen_jeq("jeq reg2 -7 $end"),
        Ok("reg2_to_reg1\n-7\nreg0_to_reg2\nsub\n$end\njz\n\n".to_string())
    );
}

#[test]
fn gen_cond_takes_the_short_form_for_zero() {
    assert_eq!(gen_jneq("jneq reg4 0 $loop"), Ok("reg4_to_reg3\n$loop\njnz\n\n".to_string()));
    assert_eq!(gen_jeq("jeq reg4 +0 $loop"), Ok("reg4_to_reg3\n$loop\njz\n\n".to_string()));
    assert_eq!(gen_jeq("jeq reg4 000 $loop extra"), Ok("reg4_to_reg3\n$loop\njz\n\n".to_string()));
}

#[test]
fn gen_cond_reports_the_label_first() {
    assert_eq!(gen_jneq("jneq r1 x loop"), Err(invalid("loop")));
    assert_eq!(gen_jneq("jneq r1 x $loop"), Err(invalid("r1")));
    assert_eq!(gen_jneq("jneq r1 0 $loop"), Err(invalid("r1")));
    assert_eq!(gen_jneq("jneq reg1 x $loop"), Err(invalid("x")));
    assert_eq!(gen_jneq("jneq reg1  $loop"), Err(invalid("")));
}

#[test]
fn gen_cond_needs_three_operands() {
    assert_eq!(gen_jneq("jneq"), Err(ExpandError::MissingOperand));
    assert_eq!(gen_jneq("jneq reg1"), Err(ExpandError::MissingOperand));
    assert_eq!(gen_jeq("jeq reg1 5"), Err(ExpandError::MissingOperand));
}

#[test]
fn gen_cond_ends_other_lines_with_a_line_feed() {
    assert_eq!(gen_jneq("nop"), Ok("nop\n".to_string()));
    assert_eq!(gen_jneq("jeq reg1 0 $l"), Ok("jeq reg1 0 $l\n".to_string()));
    assert_eq!(gen_jeq("jeqx reg1 0 $l"), Ok("jeqx reg1 0 $l\n".to_string()));
    assert_eq!(gen_cond("jneq", "jnz", ""), Ok("\n".to_string()));
}

#[test]
fn gen_load_register_or_immediate_tells_three_kinds_apart() {
    assert_eq!(gen_load_register_or_immediate("in", "reg1"), Ok(vec!["in_to_reg1".to_string()]));
    assert_eq!(
        gen_load_register_or_immediate("reg7", "reg2"),
        Ok(vec!["reg7_to_reg2".to_string()])
    );
    assert_eq!(
        gen_load_register_or_immediate("-12", "reg2"),
        Ok(vec!["-12".to_string(), "reg0_to_reg2".to_string()])
    );
    assert_eq!(gen_load_register_or_immediate("inx", "reg1"), Err(invalid("inx")));
    assert_eq!(gen_load_register_or_immediate("", "reg1"), Err(invalid("")));
}

#[test]
fn gen_math_loads_both_operands() {
    assert_eq!(gen_add("add in reg4"), Ok("in_to_reg1\nreg4_to_reg2\nadd\n\n".to_string()));
    assert_eq!(gen_sub("sub reg4 reg5"), Ok("reg4_to_reg1\nreg5_to_reg2\nsub\n\n".to_string()));
    assert_eq!(
        gen_math("add", "add 1 2"),
        Ok("1\nreg0_to_reg1\n2\nreg0_to_reg2\nadd\n\n".to_string())
    );
}

#[test]
fn gen_math_reports_the_left_operand_first() {
    assert_eq!(gen_add("add x y"), Err(invalid("x")));
    assert_eq!(gen_add("add reg1 y"), Err(invalid("y")));
    assert_eq!(gen_add("add reg1  3"), Err(invalid("")));
    assert_eq!(gen_sub("sub"), Err(ExpandError::MissingOperand));
    assert_eq!(gen_sub("sub reg1"), Err(ExpandError::MissingOperand));
}

#[test]
fn gen_math_leaves_other_lines() {
    assert_eq!(gen_add("address"), Ok("address".to_string()));
    assert_eq!(gen_sub("add reg1 3"), Ok("add reg1 3".to_string()));
    assert_eq!(gen_math("add", "# add 1 2"), Ok("# add 1 2".to_string()));
}

#[test]
fn gen_line_picks_one_rule() {
    assert_eq!(gen_line("goto 5"), Ok("5\ngoto\n".to_string()));
    assert_eq!(gen_line("goto add 1 2"), Ok("add 1 2\ngoto\n".to_string()));
    assert_eq!(gen_line("jneq reg4 0 $loop"), Ok("reg4_to_reg3\n$loop\njnz\n\n".to_string()));
    assert_eq!(gen_line("jeq reg4 0 $loop"), Ok("reg4_to_reg3\n$loop\njz\n\n".to_string()));
    assert_eq!(gen_line("sub reg1 in"), Ok("reg1_to_reg1\nin_to_reg2\nsub\n\n".to_string()));
}

#[test]
fn lines_that_are_no_macro_pass_through() {
    for line in ["nop", "reg1_to_reg2", "42", "", "  add reg1 3", "# add reg1 3", "@loop", "$loop", "jnz"] {
        assert_eq!(gen_line(line), Ok(format!("{}\n", line)));
        assert_eq!(translate_tokens(line.to_string()), Ok(if line.is_empty() {
            String::new()
        } else {
            format!("{}\n", line)
        }));
    }
}

#[test]
fn translate_tokens_expands_line_by_line() {
    assert_eq!(
        translate_tokens("@start\nadd reg1 1\njneq reg1 5 $start\n".to_string()),
        Ok("@start\nreg1_to_reg1\n1\nreg0_to_reg2\nadd\n\nreg1_to_reg1\n5\nreg0_to_reg2\nsub\n$start\njnz\n\n"
            .to_string())
    );
    assert_eq!(translate_tokens(String::new()), Ok(String::new()));
    assert_eq!(translate_tokens("goto 3\r\nnop".to_string()), Ok("3\ngoto\nnop\n".to_string()));
}

#[test]
fn translate_tokens_stops_at_the_first_bad_line() {
    assert_eq!(translate_tokens("nop\nadd reg1 xyz\nadd q 1\n".to_string()), Err(invalid("xyz")));
    assert_eq!(
        translate_tokens("sub\nadd reg1 xyz\n".to_string()),
        Err(ExpandError::MissingOperand)
    );
}

#[test]
fn add_with_an_immediate_gives_four_lines() {
    let expanded = translate_tokens("add reg1 3\n".to_string()).unwrap();
    assert_eq!(remove_newlines(expanded), "reg1_to_reg1\n3\nreg0_to_reg2\nadd");
}

#[test]
fn branch_on_zero_gives_three_lines() {
    let expanded = translate_tokens("jneq reg4 0 $loop\n".to_string()).unwrap();
    assert_eq!(remove_newlines(expanded), "reg4_to_reg3\n$loop\njnz");
}

#[test]
fn message_names_the_token() {
    assert_eq!(invalid("xyz").message(), "parse error on xyz");
    assert_eq!(invalid("").message(), "parse error on ");
    assert_eq!(ExpandError::MissingOperand.message(), "missing operand");
}
