use macro_asm::labels::{
    get_if_label, is_empty_or_comment_or_label, label_to_linum, labels_to_comments, make_label_map,
};
use macro_asm::expand::ExpandError;
use macro_asm::listing::{assemble, remove_newlines};

#[test]
fn is_empty_or_comment_or_label_knows_what_takes_no_slot() {
    assert!(is_empty_or_comment_or_label(""));
    assert!(is_empty_or_comment_or_label("# a comment"));
    assert!(is_empty_or_comment_or_label("#"));
    assert!(is_empty_or_comment_or_label("@loop"));
    assert!(!is_empty_or_comment_or_label("$loop"));
    assert!(!is_empty_or_comment_or_label("nop"));
    assert!(!is_empty_or_comment_or_label(" "));
    assert!(!is_empty_or_comment_or_label(" # indented"));
}

#[test]
fn make_label_map_points_to_the_next_instruction() {
    let table = make_label_map(&"@a\nfoo\n#c\n\n@b\nbar\n$a\n@c".to_string());
    assert_eq!(table.len(), 3);
    assert_eq!(table.get("a"), Some(&0));
    assert_eq!(table.get("b"), Some(&1));
    assert_eq!(table.get("c"), Some(&3));
    assert_eq!(table.get("foo"), None);
    assert_eq!(table.get("@a"), None);
}

#[test]
fn make_label_map_lets_the_last_definition_win() {
    let table = make_label_map(&"@a\nfoo\n@a\nbar".to_string());
    assert_eq!(table.len(), 1);
    assert_eq!(table.get("a"), Some(&1));
}

#[test]
fn make_label_map_of_no_labels_is_empty() {
    assert!(make_label_map(&String::new()).is_empty());
    assert!(make_label_map(&"nop\n$a\n# @b".to_string()).is_empty());
}

#[test]
fn get_if_label_looks_only_definitions_up() {
    let positions = make_label_map(&"nop\n@@x\nnop\n@nop".to_string());
    assert_eq!(positions.get("@x"), Some(&1));
    assert_eq!(get_if_label(&positions, "@x"), Some(1));
    assert_eq!(get_if_label(&positions, "nop"), None);
    assert_eq!(get_if_label(&positions, "$x"), None);
    assert_eq!(get_if_label(&positions, ""), None);
}

#[test]
fn label_to_linum_keeps_the_reference_as_a_comment() {
    assert_eq!(label_to_linum("@a\nfoo\n$a".to_string()), "@a\nfoo\n0 # $a");
    assert_eq!(label_to_linum("$end\nfoo\n@end".to_string()), "2 # $end\nfoo\n@end");
}

#[test]
fn label_to_linum_leaves_unknown_references() {
    assert_eq!(label_to_linum("@a\nfoo\n$zz\n$".to_string()), "@a\nfoo\n$zz\n$");
    assert_eq!(label_to_linum("a $a\n@a".to_string()), "a $a\n@a");
}

#[test]
fn label_to_linum_writes_the_index_in_decimal() {
    let mut source = String::new();
    for _ in 0..123 {
        source.push_str("nop\n");
    }
    source.push_str("@far\n$far");
    let out = label_to_linum(source);
    assert!(out.ends_with("nop\n@far\n123 # $far"));
}

#[test]
fn labels_to_comments_turns_definitions_into_comments() {
    assert_eq!(labels_to_comments("@a\nfoo\n$a\n@".to_string()), "#a\nfoo\n$a\n#");
    assert_eq!(labels_to_comments("nop @a".to_string()), "nop @a");
}

#[test]
fn remove_newlines_drops_every_empty_line() {
    assert_eq!(remove_newlines("a\n\n\nb\n".to_string()), "a\nb");
    assert_eq!(remove_newlines("\n\n".to_string()), "");
    assert_eq!(remove_newlines(String::new()), "");
    assert_eq!(remove_newlines("a\r\n\r\nb".to_string()), "a\nb");
    assert_eq!(remove_newlines(" \n".to_string()), " ");
}

#[test]
fn remove_newlines_twice_is_once() {
    for text in ["a\n\n\nb\n", "", "\n", "a", "a\r\nb\n\n", "x\n\ny\r", "\r\n\r\n"] {
        let once = remove_newlines(text.to_string());
        assert_eq!(remove_newlines(once.clone()), once);
    }
}

#[test]
fn remove_newlines_eats_a_carriage_return_before_a_line_feed() {
    let once = remove_newlines("a\r\r\nb".to_string());
    assert_eq!(once, "a\r\nb");
    assert_eq!(remove_newlines(once), "a\nb");
}

#[test]
fn loop_with_a_label_assembles() {
    assert_eq!(
        assemble("@start\nadd reg1 1\njneq reg1 5 $start\n".to_string()),
        Ok("#start\nreg1_to_reg1\n1\nreg0_to_reg2\nadd\nreg1_to_reg1\n5\nreg0_to_reg2\nsub\n0 # $start\njnz"
            .to_string())
    );
}

#[test]
fn add_assembles_to_four_lines() {
    assert_eq!(
        assemble("add reg1 3\n".to_string()),
        Ok("reg1_to_reg1\n3\nreg0_to_reg2\nadd".to_string())
    );
}

#[test]
fn bad_number_is_fatal() {
    let failure = assemble("add reg1 xyz\n".to_string()).unwrap_err();
    assert_eq!(failure, ExpandError::Validation { token: "xyz".to_string() });
    assert_eq!(failure.message(), "parse error on xyz");
}

#[test]
fn a_label_resolves_to_the_index_of_the_line_behind_it() {
    let listing = assemble("nop\nnop\n# note\n@here\n\nadd reg1 reg2\ngoto $here\n$here".to_string())
        .unwrap();
    let instructions: Vec<&str> = listing.lines().filter(|l| !l.starts_with('#')).collect();
    assert_eq!(instructions[2], "reg1_to_reg1");
    assert_eq!(instructions[5], "2 # $here");
    assert_eq!(instructions[7], "2 # $here");
}

#[test]
fn a_label_at_the_end_points_past_the_program() {
    assert_eq!(assemble("nop\n$end\n@end".to_string()), Ok("nop\n2 # $end\n#end".to_string()));
}

#[test]
fn assemble_of_nothing_is_nothing() {
    assert_eq!(assemble(String::new()), Ok(String::new()));
}
