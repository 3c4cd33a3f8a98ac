//! What holds of the assembler as a whole: laws that relate its stages, each
//! stated over the models that the stages' contracts use.

use vstd::prelude::*;
use crate::expand::{
    checked, expand_all, expand_cond, expand_goto, expand_line, expand_math, is_macro, is_number,
    Failure,
};
use crate::labels::{
    comment_all, comment_text, label_table, last_index, lemma_label_table, lemma_last_index,
    position, resolve_all, resolve_line, resolve_text, slot_count, takes_no_slot, to_comment,
};
use crate::listing::{compact_text, non_blank};
use crate::number::{decimal, is_digit, lemma_decimal_is_digits, parse_i32};
use crate::text::{
    join_lines, lemma_join_lines_push, lemma_span_len, lemma_span_len_bounds, lines, span_len,
    strip_cr,
};

verus! {

/// Whether `line` holds no line feed.
pub open spec fn newline_free(line: Seq<char>) -> bool {
    forall|k: int| 0 <= k < line.len() ==> line[k] != '\n'
}

/// Whether `line` ends with a carriage return.
pub open spec fn ends_with_cr(line: Seq<char>) -> bool {
    line.len() > 0 && line.last() == '\r'
}

/// Whether joining the lines `ls` keeps every carriage return apart from the
/// line feeds: no line but the last ends with a carriage return.
pub open spec fn joins_cleanly(ls: Seq<Seq<char>>) -> bool {
    forall|i: int| 0 <= i < ls.len() - 1 ==> !ends_with_cr(#[trigger] ls[i])
}

/// The lines `ls`, each with a line feed behind it, one behind the other.
pub open spec fn terminated(ls: Seq<Seq<char>>) -> Seq<char>
    decreases ls.len(),
{
    if ls.len() == 0 {
        Seq::empty()
    } else {
        terminated(ls.drop_last()) + ls.last().push('\n')
    }
}

/// The lines among `ls` that take an instruction slot, in their order.
pub open spec fn instructions(ls: Seq<Seq<char>>) -> Seq<Seq<char>>
    decreases ls.len(),
{
    if ls.len() == 0 {
        ls
    } else if takes_no_slot(ls.last()) {
        instructions(ls.drop_last())
    } else {
        instructions(ls.drop_last()).push(ls.last())
    }
}

/// Whether every line of `ls` is free of line feeds and does not end with a
/// carriage return, so that joining and splitting again gives the same lines.
pub open spec fn clean(ls: Seq<Seq<char>>) -> bool {
    forall|i: int| 0 <= i < ls.len() ==> newline_free(#[trigger] ls[i]) && !ends_with_cr(ls[i])
}

/// The lines `ls`, each resolved against `table`.
pub open spec fn resolved(table: Map<Seq<char>, nat>, ls: Seq<Seq<char>>) -> Seq<Seq<char>> {
    Seq::new(ls.len(), |i: int| resolve_line(table, ls[i]))
}

/// No line of a text holds a line feed.
pub proof fn lemma_lines_are_newline_free(text: Seq<char>)
    ensures
        forall|i: int| 0 <= i < lines(text).len() ==> newline_free(#[trigger] lines(text)[i]),
    decreases text.len(),
{
    if text.len() > 0 {
        lemma_span_len_bounds(text, '\n');
        let n = span_len(text, '\n') as int;
        if n < text.len() {
            let head = strip_cr(text.take(n));
            let rest = lines(text.skip(n + 1));
            lemma_lines_are_newline_free(text.skip(n + 1));
            assert forall|k: int| 0 <= k < head.len() implies head[k] != '\n' by {
                assert(head[k] == text[k]);
            }
            assert forall|i: int| 0 <= i < lines(text).len() implies newline_free(
                #[trigger] lines(text)[i],
            ) by {
                if i > 0 {
                    assert(lines(text)[i] == rest[i - 1]);
                }
            }
        }
    }
}

/// Every line that `non_blank` keeps is one of the given lines and is not
/// empty.
pub proof fn lemma_non_blank(ls: Seq<Seq<char>>)
    ensures
        forall|j: int|
            0 <= j < non_blank(ls).len() ==> (#[trigger] non_blank(ls)[j]).len() > 0 && exists|
                i: int,
            |
                0 <= i < ls.len() && ls[i] == non_blank(ls)[j],
    decreases ls.len(),
{
    if ls.len() > 0 {
        let prev = ls.drop_last();
        lemma_non_blank(prev);
        assert forall|j: int| 0 <= j < non_blank(ls).len() implies (#[trigger] non_blank(
            ls,
        )[j]).len() > 0 && exists|i: int| 0 <= i < ls.len() && ls[i] == non_blank(ls)[j] by {
            if j < non_blank(prev).len() {
                assert(non_blank(ls)[j] == non_blank(prev)[j]);
                let i = choose|i: int| 0 <= i < prev.len() && prev[i] == non_blank(prev)[j];
                assert(ls[i] == non_blank(ls)[j]);
            } else {
                assert(ls[ls.len() - 1] == non_blank(ls)[j]);
            }
        }
    }
}

/// Where no line is empty, `non_blank` keeps them all.
pub proof fn lemma_non_blank_keeps_filled(ls: Seq<Seq<char>>)
    requires
        forall|i: int| 0 <= i < ls.len() ==> (#[trigger] ls[i]).len() > 0,
    ensures
        non_blank(ls) == ls,
    decreases ls.len(),
{
    if ls.len() > 0 {
        lemma_non_blank_keeps_filled(ls.drop_last());
        assert(ls.drop_last().push(ls.last()) =~= ls);
    }
}

/// What splitting gives of the joined lines `ls`: every line but the last
/// without the carriage return at its end, if it has one, and the last line
/// as it is, unless it is empty: the split does not show an empty last line.
pub open spec fn rejoined(ls: Seq<Seq<char>>) -> Seq<Seq<char>> {
    let shown = if ls.len() > 0 && ls.last().len() == 0 {
        ls.len() - 1
    } else {
        ls.len() as int
    };
    Seq::new(
        shown as nat,
        |i: int|
            if i < ls.len() - 1 {
                strip_cr(ls[i])
            } else {
                ls[i]
            },
    )
}

/// The lines `ls`, each without the carriage return at its end, if it has
/// one.
pub open spec fn stripped(ls: Seq<Seq<char>>) -> Seq<Seq<char>> {
    Seq::new(ls.len(), |i: int| strip_cr(ls[i]))
}

/// The length of the lines `ls` as a text in which a line feed follows each.
pub open spec fn extent(ls: Seq<Seq<char>>) -> nat {
    if ls.len() == 0 {
        0
    } else {
        join_lines(ls).len() + 1
    }
}

/// Splitting what was joined gives the lines as [`rejoined`] describes.
pub proof fn lemma_lines_of_joined_any(ls: Seq<Seq<char>>)
    requires
        forall|i: int| 0 <= i < ls.len() ==> newline_free(#[trigger] ls[i]),
    ensures
        lines(join_lines(ls)) == rejoined(ls),
    decreases ls.len(),
{
    if ls.len() == 0 {
        assert(rejoined(ls) =~= Seq::<Seq<char>>::empty());
    } else if ls.len() == 1 {
        let only = ls[0];
        assert(newline_free(only));
        if only.len() > 0 {
            lemma_span_len(only, '\n', only.len() as int);
            assert(seq![only] =~= rejoined(ls));
        } else {
            assert(rejoined(ls) =~= Seq::<Seq<char>>::empty());
        }
    } else {
        let first = ls[0];
        let rest = ls.skip(1);
        let text = join_lines(ls);
        let n = first.len() as int;
        assert(newline_free(first));
        assert(text =~= first + seq!['\n'] + join_lines(rest));
        assert forall|k: int| 0 <= k < n implies text[k] != '\n' by {
            assert(text[k] == first[k]);
        }
        assert(text[n] == '\n');
        lemma_span_len(text, '\n', n);
        assert(text.take(n) =~= first);
        assert(text.skip(n + 1) =~= join_lines(rest));
        assert forall|i: int| 0 <= i < rest.len() implies newline_free(#[trigger] rest[i]) by {
            assert(rest[i] == ls[i + 1]);
        }
        lemma_lines_of_joined_any(rest);
        assert(rest.last() == ls.last());
        assert(seq![strip_cr(first)] + rejoined(rest) =~= rejoined(ls));
    }
}

/// Splitting what was joined gives the lines back, but for an empty last
/// line, which the split does not show.
///
/// This asks that no line holds a line feed and that no line but the last
/// ends with a carriage return: joined, that one would become part of a line
/// ending.
pub proof fn lemma_lines_of_joined(ls: Seq<Seq<char>>)
    requires
        forall|i: int| 0 <= i < ls.len() ==> newline_free(#[trigger] ls[i]),
        joins_cleanly(ls),
    ensures
        lines(join_lines(ls)) == if ls.len() > 0 && ls.last().len() == 0 {
            ls.drop_last()
        } else {
            ls
        },
{
    lemma_lines_of_joined_any(ls);
    assert forall|i: int| 0 <= i < ls.len() - 1 implies strip_cr(ls[i]) == ls[i] by {
        assert(!ends_with_cr(ls[i]));
    }
    if ls.len() > 0 && ls.last().len() == 0 {
        assert(rejoined(ls) =~= ls.drop_last());
    } else {
        assert(rejoined(ls) =~= ls);
    }
}

/// Stripping the carriage returns at the ends of lines and removing the
/// lines that are empty then never makes the text longer, and makes it
/// shorter where a line ended with a carriage return.
proof fn lemma_stripping_shortens(ls: Seq<Seq<char>>)
    requires
        forall|i: int| 0 <= i < ls.len() ==> (#[trigger] ls[i]).len() > 0,
    ensures
        extent(non_blank(stripped(ls))) <= extent(ls),
        (exists|i: int| 0 <= i < ls.len() && ends_with_cr(#[trigger] ls[i])) ==> extent(
            non_blank(stripped(ls)),
        ) < extent(ls),
    decreases ls.len(),
{
    if ls.len() > 0 {
        let prev = ls.drop_last();
        let last = ls.last();
        let short = strip_cr(last);
        lemma_stripping_shortens(prev);
        assert(stripped(ls).drop_last() =~= stripped(prev));
        assert(stripped(ls).last() == short);
        assert(prev.push(last) =~= ls);
        lemma_join_lines_push(prev, last);
        lemma_join_lines_push(non_blank(stripped(prev)), short);
        assert(extent(ls) == extent(prev) + last.len() + 1);
        if short.len() > 0 {
            assert(extent(non_blank(stripped(ls))) == extent(non_blank(stripped(prev)))
                + short.len() + 1);
        } else {
            assert(extent(non_blank(stripped(ls))) == extent(non_blank(stripped(prev))));
        }
        if exists|i: int| 0 <= i < ls.len() && ends_with_cr(#[trigger] ls[i]) {
            let i = choose|i: int| 0 <= i < ls.len() && ends_with_cr(#[trigger] ls[i]);
            if i < ls.len() - 1 {
                assert(ends_with_cr(prev[i]));
            }
        }
    }
}

/// Removing the blank lines of a text a second time changes nothing.
///
/// This holds of every text in which no line that is kept, but the last,
/// ends with a carriage return. Such a carriage return comes to stand before
/// the line feed that joins the kept lines, and is read as part of the line
/// ending when the text is split again.
pub proof fn law_blank_removal_is_idempotent(text: Seq<char>)
    requires
        joins_cleanly(non_blank(lines(text))),
    ensures
        compact_text(compact_text(text)) == compact_text(text),
{
    let kept = non_blank(lines(text));
    lemma_lines_are_newline_free(text);
    lemma_non_blank(lines(text));
    assert forall|j: int| 0 <= j < kept.len() implies newline_free(#[trigger] kept[j]) by {
        let i = choose|i: int| 0 <= i < lines(text).len() && lines(text)[i] == kept[j];
        assert(newline_free(lines(text)[i]));
    }
    lemma_lines_of_joined(kept);
    if kept.len() > 0 {
        assert(kept[kept.len() - 1].len() > 0);
    }
    lemma_non_blank_keeps_filled(kept);
}

/// Removing the blank lines a second time does change a text in which a
/// kept line, not the last, ends with a carriage return: the text gets
/// shorter.
pub proof fn law_blank_removal_eats_carriage_returns(text: Seq<char>)
    requires
        !joins_cleanly(non_blank(lines(text))),
    ensures
        compact_text(compact_text(text)).len() < compact_text(text).len(),
{
    let kept = non_blank(lines(text));
    lemma_lines_are_newline_free(text);
    lemma_non_blank(lines(text));
    assert forall|j: int| 0 <= j < kept.len() implies newline_free(#[trigger] kept[j]) by {
        let i = choose|i: int| 0 <= i < lines(text).len() && lines(text)[i] == kept[j];
        assert(newline_free(lines(text)[i]));
    }
    lemma_lines_of_joined_any(kept);
    let bad = choose|i: int| 0 <= i < kept.len() - 1 && ends_with_cr(#[trigger] kept[i]);
    let front = kept.drop_last();
    let last = kept.last();
    assert(last.len() > 0);
    assert(front.push(last) =~= kept);
    assert(rejoined(kept) =~= stripped(front).push(last));
    assert(rejoined(kept).drop_last() =~= stripped(front));
    assert(non_blank(rejoined(kept)) == non_blank(stripped(front)).push(last));
    assert forall|i: int| 0 <= i < front.len() implies (#[trigger] front[i]).len() > 0 by {
        assert(front[i] == kept[i]);
    }
    assert(ends_with_cr(front[bad]));
    lemma_stripping_shortens(front);
    lemma_join_lines_push(front, last);
    lemma_join_lines_push(non_blank(stripped(front)), last);
}

/// Validation hands a token that is a signed 32-bit decimal literal back as
/// it is.
pub proof fn law_valid_number_is_unchanged(token: Seq<char>)
    requires
        parse_i32(token) is Some,
    ensures
        checked(token, is_number(token)) == Ok::<Seq<char>, Failure>(token),
{
}

/// A line that is no instance of a macro is its own expansion: each rule
/// hands it back, and in the expanded text it stands as it is, with a line
/// feed behind it.
pub proof fn law_plain_line_passes_through(line: Seq<char>)
    requires
        !is_macro(line),
    ensures
        expand_line(line) == Ok::<Seq<char>, Failure>(line.push('\n')),
        expand_goto(line) == line,
        expand_cond("jneq"@, "jnz"@, line) == Ok::<Seq<char>, Failure>(line.push('\n')),
        expand_cond("jeq"@, "jz"@, line) == Ok::<Seq<char>, Failure>(line.push('\n')),
        expand_math("add"@, line) == Ok::<Seq<char>, Failure>(line),
        expand_math("sub"@, line) == Ok::<Seq<char>, Failure>(line),
{
}

/// A text without macro lines expands to its own lines, each with a line
/// feed behind it.
pub proof fn law_plain_text_passes_through(ls: Seq<Seq<char>>)
    requires
        forall|i: int| 0 <= i < ls.len() ==> !is_macro(#[trigger] ls[i]),
    ensures
        expand_all(ls) == Ok::<Seq<char>, Failure>(terminated(ls)),
    decreases ls.len(),
{
    if ls.len() > 0 {
        let prev = ls.drop_last();
        assert forall|i: int| 0 <= i < prev.len() implies !is_macro(#[trigger] prev[i]) by {
            assert(prev[i] == ls[i]);
        }
        law_plain_text_passes_through(prev);
        assert(!is_macro(ls[ls.len() - 1]));
    }
}

/// Lines that take no slot do not move the position.
proof fn lemma_position_skips(ls: Seq<Seq<char>>, from: int, to: int)
    requires
        0 <= from <= to <= ls.len(),
        forall|j: int| from <= j < to ==> takes_no_slot(#[trigger] ls[j]),
    ensures
        position(ls, to) == position(ls, from),
    decreases to - from,
{
    if from < to {
        lemma_position_skips(ls, from, to - 1);
        assert(ls.take(to).drop_last() =~= ls.take(to - 1));
        assert(ls.take(to).last() == ls[to - 1]);
    }
}

/// A label resolves to the index of the next instruction behind its
/// definition, wherever it is referred to.
///
/// Line `d` defines `name`, line `n` is the first behind it that takes an
/// instruction slot, and no line behind `d` defines `name` again (a later
/// definition would replace this one). Then the table maps `name` to the
/// position of line `n`, which is the index of that line among the
/// instructions, and every line that refers to `name` becomes that index,
/// with the reference behind it as a comment.
pub proof fn law_label_points_to_next_instruction(
    ls: Seq<Seq<char>>,
    d: int,
    n: int,
    name: Seq<char>,
)
    requires
        0 <= d < n < ls.len(),
        ls[d] == seq!['@'] + name,
        forall|j: int| d < j < n ==> takes_no_slot(#[trigger] ls[j]),
        !takes_no_slot(ls[n]),
        forall|j: int| d < j < ls.len() ==> ls[j] != seq!['@'] + name,
    ensures
        label_table(ls).contains_key(name),
        label_table(ls)[name] == position(ls, n),
        position(ls, n) < instructions(ls).len(),
        instructions(ls)[position(ls, n) as int] == ls[n],
        forall|r: int|
            0 <= r < ls.len() && ls[r] == seq!['$'] + name ==> #[trigger] resolve_all(ls)[r]
                == decimal(position(ls, n)) + " # "@ + ls[r],
{
    let def = seq!['@'] + name;
    lemma_last_index(ls, def);
    lemma_label_table(ls, name);
    lemma_position_is_instruction_index(ls, n);
    assert(last_index(ls, def) == d);
    assert(def[0] == '@');
    assert forall|j: int| d <= j < n implies takes_no_slot(#[trigger] ls[j]) by {}
    lemma_position_skips(ls, d, n);
    assert forall|r: int| 0 <= r < ls.len() && ls[r] == seq!['$'] + name implies #[trigger] resolve_all(
        ls,
    )[r] == decimal(position(ls, n)) + " # "@ + ls[r] by {
        assert(ls[r][0] == '$');
        assert(ls[r].skip(1) =~= name);
    }
}

/// A label that is defined directly before a line that takes an instruction
/// slot resolves to the index of that instruction, wherever it is referred
/// to.
pub proof fn law_label_before_instruction(ls: Seq<Seq<char>>, d: int, name: Seq<char>)
    requires
        0 <= d < ls.len() - 1,
        ls[d] == seq!['@'] + name,
        !takes_no_slot(ls[d + 1]),
        forall|j: int| d < j < ls.len() ==> ls[j] != seq!['@'] + name,
    ensures
        label_table(ls).contains_key(name),
        label_table(ls)[name] == position(ls, d + 1),
        position(ls, d + 1) < instructions(ls).len(),
        instructions(ls)[position(ls, d + 1) as int] == ls[d + 1],
        forall|r: int|
            0 <= r < ls.len() && ls[r] == seq!['$'] + name ==> #[trigger] resolve_all(ls)[r]
                == decimal(position(ls, d + 1)) + " # "@ + ls[r],
{
    law_label_points_to_next_instruction(ls, d, d + 1, name);
}

/// A label behind which no instruction follows resolves to the index one
/// past the last instruction.
pub proof fn law_label_at_end_points_past_program(ls: Seq<Seq<char>>, d: int, name: Seq<char>)
    requires
        0 <= d < ls.len(),
        ls[d] == seq!['@'] + name,
        forall|j: int| d < j < ls.len() ==> takes_no_slot(#[trigger] ls[j]),
    ensures
        label_table(ls).contains_key(name),
        label_table(ls)[name] == instructions(ls).len(),
{
    let def = seq!['@'] + name;
    lemma_last_index(ls, def);
    lemma_label_table(ls, name);
    let last = last_index(ls, def);
    assert(def[0] == '@');
    assert(last >= d);
    assert forall|j: int| last <= j < ls.len() implies takes_no_slot(#[trigger] ls[j]) by {
        if j == last {
            assert(ls[j] == def);
        }
    }
    lemma_position_skips(ls, last, ls.len() as int);
    assert(ls.take(ls.len() as int) =~= ls);
    lemma_instruction_count(ls);
}

/// The recorded position of a line that takes a slot is its index among the
/// lines that take one.
pub proof fn lemma_position_is_instruction_index(ls: Seq<Seq<char>>, i: int)
    requires
        0 <= i < ls.len(),
        !takes_no_slot(ls[i]),
    ensures
        instructions(ls).len() == slot_count(ls),
        position(ls, i) < instructions(ls).len(),
        instructions(ls)[position(ls, i) as int] == ls[i],
    decreases ls.len(),
{
    let prev = ls.drop_last();
    lemma_instruction_count(ls);
    lemma_instruction_count(prev);
    if i == ls.len() - 1 {
        assert(ls.take(i) =~= prev);
    } else {
        lemma_position_is_instruction_index(prev, i);
        assert(ls.take(i) =~= prev.take(i));
    }
}

/// There are as many instructions as slots.
pub proof fn lemma_instruction_count(ls: Seq<Seq<char>>)
    ensures
        instructions(ls).len() == slot_count(ls),
    decreases ls.len(),
{
    if ls.len() > 0 {
        lemma_instruction_count(ls.drop_last());
    }
}

/// Resolution keeps a line that takes no slot as it is, and keeps a line that
/// takes one free of line feeds, of a carriage return at its end, and in its
/// slot.
proof fn lemma_resolve_line_keeps_kind(table: Map<Seq<char>, nat>, line: Seq<char>)
    ensures
        takes_no_slot(resolve_line(table, line)) == takes_no_slot(line),
        takes_no_slot(line) ==> resolve_line(table, line) == line,
        newline_free(line) ==> newline_free(resolve_line(table, line)),
        ends_with_cr(resolve_line(table, line)) == ends_with_cr(line),
{
    let out = resolve_line(table, line);
    if out != line {
        let index = decimal(table[line.skip(1)]);
        lemma_decimal_is_digits(table[line.skip(1)]);
        reveal_strlit(" # ");
        assert(out =~= index + " # "@ + line);
        assert(out[0] == index[0]);
        assert(is_digit(index[0]));
        assert(out.last() == line.last());
        if newline_free(line) {
            assert forall|k: int| 0 <= k < out.len() implies out[k] != '\n' by {
                if k < index.len() {
                    assert(is_digit(index[k]));
                    assert(out[k] == index[k]);
                } else if k < index.len() + 3 {
                    assert(out[k] == " # "@[k - index.len()]);
                } else {
                    assert(out[k] == line[k - index.len() - 3]);
                }
            }
        }
    }
}

/// Turning definitions into comments keeps every line in its kind, and a
/// clean line clean.
proof fn lemma_to_comment_keeps_kind(line: Seq<char>)
    ensures
        takes_no_slot(to_comment(line)) == takes_no_slot(line),
        !takes_no_slot(line) ==> to_comment(line) == line,
        newline_free(line) ==> newline_free(to_comment(line)),
        !ends_with_cr(line) ==> !ends_with_cr(to_comment(line)),
{
    let out = to_comment(line);
    if out != line {
        assert(out =~= seq!['#'] + line.skip(1));
        assert(out[0] == '#');
        if newline_free(line) {
            assert forall|k: int| 0 <= k < out.len() implies out[k] != '\n' by {
                if k > 0 {
                    assert(out[k] == line[k]);
                }
            }
        }
        if line.len() > 1 {
            assert(out.last() == line.last());
        }
    }
}

/// The instructions of the resolved lines are the resolved instructions.
proof fn lemma_instructions_of_resolved(table: Map<Seq<char>, nat>, ls: Seq<Seq<char>>)
    ensures
        instructions(resolved(table, ls)) == resolved(table, instructions(ls)),
        clean(ls) ==> clean(resolved(table, ls)),
    decreases ls.len(),
{
    let out = resolved(table, ls);
    if ls.len() > 0 {
        let prev = ls.drop_last();
        lemma_instructions_of_resolved(table, prev);
        lemma_resolve_line_keeps_kind(table, ls.last());
        assert(out.drop_last() =~= resolved(table, prev));
        assert(out.last() == resolve_line(table, ls.last()));
        if !takes_no_slot(ls.last()) {
            assert(resolved(table, instructions(prev).push(ls.last())) =~= resolved(
                table,
                instructions(prev),
            ).push(resolve_line(table, ls.last())));
        }
    } else {
        assert(out =~= ls);
        assert(resolved(table, instructions(ls)) =~= instructions(ls));
    }
    if clean(ls) {
        assert forall|i: int| 0 <= i < out.len() implies newline_free(#[trigger] out[i])
            && !ends_with_cr(out[i]) by {
            assert(newline_free(ls[i]) && !ends_with_cr(ls[i]));
            lemma_resolve_line_keeps_kind(table, ls[i]);
        }
    }
}

/// Turning definitions into comments keeps the instructions.
proof fn lemma_instructions_of_commented(ls: Seq<Seq<char>>)
    ensures
        instructions(comment_all(ls)) == instructions(ls),
        clean(ls) ==> clean(comment_all(ls)),
    decreases ls.len(),
{
    let out = comment_all(ls);
    if ls.len() > 0 {
        let prev = ls.drop_last();
        lemma_instructions_of_commented(prev);
        lemma_to_comment_keeps_kind(ls.last());
        assert(out.drop_last() =~= comment_all(prev));
        assert(out.last() == to_comment(ls.last()));
    } else {
        assert(out =~= ls);
    }
    if clean(ls) {
        assert forall|i: int| 0 <= i < out.len() implies newline_free(#[trigger] out[i])
            && !ends_with_cr(out[i]) by {
            assert(newline_free(ls[i]) && !ends_with_cr(ls[i]));
            lemma_to_comment_keeps_kind(ls[i]);
        }
    }
}

/// Removing the blank lines keeps the instructions.
proof fn lemma_instructions_of_non_blank(ls: Seq<Seq<char>>)
    ensures
        instructions(non_blank(ls)) == instructions(ls),
        clean(ls) ==> clean(non_blank(ls)),
    decreases ls.len(),
{
    if ls.len() > 0 {
        let prev = ls.drop_last();
        lemma_instructions_of_non_blank(prev);
        if ls.last().len() > 0 {
            assert(non_blank(ls).drop_last() =~= non_blank(prev));
        }
    }
    if clean(ls) {
        lemma_non_blank(ls);
        assert forall|j: int| 0 <= j < non_blank(ls).len() implies newline_free(
            #[trigger] non_blank(ls)[j],
        ) && !ends_with_cr(non_blank(ls)[j]) by {
            let i = choose|i: int| 0 <= i < ls.len() && ls[i] == non_blank(ls)[j];
            assert(newline_free(ls[i]) && !ends_with_cr(ls[i]));
        }
    }
}

/// Joining clean lines and splitting the text again keeps them clean and
/// keeps the instructions.
proof fn lemma_instructions_of_rejoined(ls: Seq<Seq<char>>)
    requires
        clean(ls),
    ensures
        clean(lines(join_lines(ls))),
        instructions(lines(join_lines(ls))) == instructions(ls),
{
    assert forall|i: int| 0 <= i < ls.len() implies newline_free(#[trigger] ls[i]) by {}
    assert forall|i: int| 0 <= i < ls.len() - 1 implies !ends_with_cr(#[trigger] ls[i]) by {
        assert(newline_free(ls[i]));
    }
    lemma_lines_of_joined(ls);
    let again = lines(join_lines(ls));
    assert forall|i: int| 0 <= i < again.len() implies newline_free(#[trigger] again[i])
        && !ends_with_cr(again[i]) by {
        assert(again[i] == ls[i]);
        assert(newline_free(ls[i]));
    }
}

/// The instruction indices that the label table is built from are the
/// positions in the listing.
///
/// `text` is an expanded text, and line `i` of it takes an instruction slot.
/// Then the position recorded for that line is the index that the line, with
/// its label reference resolved, has among the instructions of the listing:
/// the lines of the listing that are no comments.
///
/// This asks that no line of `text` ends with a carriage return. One that
/// does loses it as the stages split and join the text again, and where it
/// was the whole line, the line then takes no slot any more.
pub proof fn law_positions_predict_the_listing(text: Seq<char>, i: int)
    requires
        forall|j: int| 0 <= j < lines(text).len() ==> !ends_with_cr(#[trigger] lines(text)[j]),
        0 <= i < lines(text).len(),
        !takes_no_slot(lines(text)[i]),
    ensures
        position(lines(text), i) < instructions(
            lines(compact_text(comment_text(resolve_text(text)))),
        ).len(),
        instructions(lines(compact_text(comment_text(resolve_text(text)))))[position(
            lines(text),
            i,
        ) as int] == resolve_line(label_table(lines(text)), lines(text)[i]),
{
    let ls = lines(text);
    let table = label_table(ls);
    lemma_lines_are_newline_free(text);
    assert(clean(ls));
    assert(resolve_all(ls) =~= resolved(table, ls));
    lemma_instructions_of_resolved(table, ls);
    let first = lines(resolve_text(text));
    lemma_instructions_of_rejoined(resolved(table, ls));
    lemma_instructions_of_commented(first);
    let second = lines(comment_text(resolve_text(text)));
    lemma_instructions_of_rejoined(comment_all(first));
    lemma_instructions_of_non_blank(second);
    let kept = non_blank(second);
    lemma_instructions_of_rejoined(kept);
    lemma_position_is_instruction_index(ls, i);
    assert(instructions(lines(compact_text(comment_text(resolve_text(text))))) == resolved(
        table,
        instructions(ls),
    ));
}

} // verus!
