//! Labels: the table from label names to instruction indices, and the two
//! rewrites that use it. A definition `@name` names the instruction that
//! follows it; a reference `$name` is replaced by that instruction's index.

use vstd::prelude::*;
use vstd::string::*;
use vstd::hash_map::StringHashMap;
use crate::expand::is_label_ref;
use crate::number::{decimal, decimal_string};
use crate::text::{concat_lines, from_chars, join_lines, lines, split_lines, texts, to_chars};

verus! {

/// Whether `line` is a comment: it begins with `#`.
pub open spec fn is_comment(line: Seq<char>) -> bool {
    line.len() > 0 && line[0] == '#'
}

/// Whether `line` defines a label: it begins with `@`.
pub open spec fn is_label_def(line: Seq<char>) -> bool {
    line.len() > 0 && line[0] == '@'
}

/// Whether `line` takes no instruction slot: it is empty, a comment or a
/// label definition.
pub open spec fn takes_no_slot(line: Seq<char>) -> bool {
    line.len() == 0 || is_comment(line) || is_label_def(line)
}

/// The number of lines among `ls` that take an instruction slot.
pub open spec fn slot_count(ls: Seq<Seq<char>>) -> nat
    decreases ls.len(),
{
    if ls.len() == 0 {
        0
    } else if takes_no_slot(ls.last()) {
        slot_count(ls.drop_last())
    } else {
        slot_count(ls.drop_last()) + 1
    }
}

/// The instruction index recorded for line `i`: the number of lines before
/// it that take a slot. For a line that takes a slot this is its own index;
/// for any other it is the index of the next line that takes one.
pub open spec fn position(ls: Seq<Seq<char>>, i: int) -> nat {
    slot_count(ls.take(i))
}

/// The recorded position of each line, by the line's text. Where a text
/// occurs more than once, its last occurrence counts.
pub open spec fn line_positions(ls: Seq<Seq<char>>) -> Map<Seq<char>, nat>
    decreases ls.len(),
{
    if ls.len() == 0 {
        Map::empty()
    } else {
        line_positions(ls.drop_last()).insert(ls.last(), slot_count(ls.drop_last()))
    }
}

/// The label table of the lines `ls`: each label definition maps its name,
/// the line without the `@`, to the position recorded for the line. A later
/// definition of a name replaces an earlier one.
pub open spec fn label_table(ls: Seq<Seq<char>>) -> Map<Seq<char>, nat>
    decreases ls.len(),
{
    if ls.len() == 0 {
        Map::empty()
    } else if is_label_def(ls.last()) {
        label_table(ls.drop_last()).insert(ls.last().skip(1), slot_count(ls.drop_last()))
    } else {
        label_table(ls.drop_last())
    }
}

/// Whether the executable table `m` holds exactly the entries of `t`.
pub open spec fn holds(m: Map<Seq<char>, usize>, t: Map<Seq<char>, nat>) -> bool {
    &&& forall|k: Seq<char>| m.contains_key(k) <==> t.contains_key(k)
    &&& forall|k: Seq<char>| m.contains_key(k) ==> m[k] as nat == t[k]
}

/// A line after label resolution: a reference to a label of the table
/// becomes the label's index, with the reference behind it as a comment; any
/// other line, and a reference to an unknown label, stays as it is.
pub open spec fn resolve_line(table: Map<Seq<char>, nat>, line: Seq<char>) -> Seq<char> {
    if is_label_ref(line) && table.contains_key(line.skip(1)) {
        decimal(table[line.skip(1)]) + " # "@ + line
    } else {
        line
    }
}

/// The lines `ls`, each resolved against the label table of `ls`.
pub open spec fn resolve_all(ls: Seq<Seq<char>>) -> Seq<Seq<char>> {
    Seq::new(ls.len(), |i: int| resolve_line(label_table(ls), ls[i]))
}

/// The text after label resolution: its lines, each resolved against the
/// label table of the text, joined by line feeds.
pub open spec fn resolve_text(text: Seq<char>) -> Seq<char> {
    join_lines(resolve_all(lines(text)))
}

/// A line after its label definition, if it is one, has become a comment.
pub open spec fn to_comment(line: Seq<char>) -> Seq<char> {
    if is_label_def(line) {
        seq!['#'] + line.skip(1)
    } else {
        line
    }
}

/// The lines `ls` with each label definition turned into a comment.
pub open spec fn comment_all(ls: Seq<Seq<char>>) -> Seq<Seq<char>> {
    Seq::new(ls.len(), |i: int| to_comment(ls[i]))
}

/// The text with each label definition turned into a comment: its lines
/// joined by line feeds.
pub open spec fn comment_text(text: Seq<char>) -> Seq<char> {
    join_lines(comment_all(lines(text)))
}

/// The index of the last line among `ls` that reads `t`; -1 where none does.
pub open spec fn last_index(ls: Seq<Seq<char>>, t: Seq<char>) -> int
    decreases ls.len(),
{
    if ls.len() == 0 {
        -1
    } else if ls.last() == t {
        ls.len() - 1
    } else {
        last_index(ls.drop_last(), t)
    }
}

/// The table that the second pass has built from the lines `ls`, looking
/// each definition up in `positions`.
spec fn table_from(ls: Seq<Seq<char>>, positions: Map<Seq<char>, nat>) -> Map<Seq<char>, nat>
    decreases ls.len(),
{
    if ls.len() == 0 {
        Map::empty()
    } else if is_label_def(ls.last()) {
        table_from(ls.drop_last(), positions).insert(ls.last().skip(1), positions[ls.last()])
    } else {
        table_from(ls.drop_last(), positions)
    }
}

/// The last index of a text is that of a line which reads so, and no later
/// line does.
pub proof fn lemma_last_index(ls: Seq<Seq<char>>, t: Seq<char>)
    ensures
        -1 <= last_index(ls, t) < ls.len(),
        last_index(ls, t) >= 0 ==> ls[last_index(ls, t)] == t,
        forall|j: int| last_index(ls, t) < j < ls.len() ==> ls[j] != t,
    decreases ls.len(),
{
    if ls.len() > 0 && ls.last() != t {
        lemma_last_index(ls.drop_last(), t);
        assert forall|j: int| last_index(ls, t) < j < ls.len() implies ls[j] != t by {
            if j < ls.len() - 1 {
                assert(ls.drop_last()[j] == ls[j]);
            }
        }
    }
}

/// A text has a recorded position exactly where a line reads so, and it is
/// the position of the last such line.
pub proof fn lemma_line_positions(ls: Seq<Seq<char>>, t: Seq<char>)
    ensures
        line_positions(ls).contains_key(t) <==> last_index(ls, t) >= 0,
        last_index(ls, t) >= 0 ==> line_positions(ls)[t] == position(ls, last_index(ls, t)),
    decreases ls.len(),
{
    if ls.len() > 0 {
        let prev = ls.drop_last();
        lemma_line_positions(prev, t);
        lemma_last_index(prev, t);
        if ls.last() == t {
            assert(ls.take(ls.len() - 1) =~= prev);
        } else if last_index(prev, t) >= 0 {
            assert(ls.take(last_index(prev, t)) =~= prev.take(last_index(prev, t)));
        }
    }
}

/// A name is in the label table exactly where a line defines it, and it maps
/// to the position of the last such line.
pub proof fn lemma_label_table(ls: Seq<Seq<char>>, name: Seq<char>)
    ensures
        label_table(ls).contains_key(name) <==> last_index(ls, seq!['@'] + name) >= 0,
        last_index(ls, seq!['@'] + name) >= 0 ==> label_table(ls)[name] == position(
            ls,
            last_index(ls, seq!['@'] + name),
        ),
    decreases ls.len(),
{
    let def = seq!['@'] + name;
    if ls.len() > 0 {
        let prev = ls.drop_last();
        let last = ls.last();
        lemma_label_table(prev, name);
        lemma_last_index(prev, def);
        assert(def.skip(1) =~= name);
        if is_label_def(last) && last.skip(1) == name {
            assert(last =~= def);
            assert(ls.take(ls.len() - 1) =~= prev);
        } else {
            assert(last != def);
            if last_index(prev, def) >= 0 {
                assert(ls.take(last_index(prev, def)) =~= prev.take(last_index(prev, def)));
            }
        }
    }
}

/// What the second pass has after the first `k` lines: the names defined
/// among them, each with the position of its last definition in the whole.
proof fn lemma_table_from(ls: Seq<Seq<char>>, k: int, name: Seq<char>)
    requires
        0 <= k <= ls.len(),
    ensures
        table_from(ls.take(k), line_positions(ls)).contains_key(name) <==> last_index(
            ls.take(k),
            seq!['@'] + name,
        ) >= 0,
        last_index(ls.take(k), seq!['@'] + name) >= 0 ==> table_from(
            ls.take(k),
            line_positions(ls),
        )[name] == position(ls, last_index(ls, seq!['@'] + name)),
    decreases k,
{
    let def = seq!['@'] + name;
    if k > 0 {
        let part = ls.take(k);
        let last = part.last();
        assert(part.drop_last() =~= ls.take(k - 1));
        lemma_table_from(ls, k - 1, name);
        assert(def.skip(1) =~= name);
        if is_label_def(last) && last.skip(1) == name {
            assert(last =~= def);
            lemma_line_positions(ls, def);
            lemma_last_index(ls, def);
            assert(ls[k - 1] == def);
        } else {
            assert(last != def);
        }
    }
}

/// The table that the two passes build is the label table.
proof fn lemma_two_passes(ls: Seq<Seq<char>>)
    ensures
        table_from(ls, line_positions(ls)) == label_table(ls),
{
    let built = table_from(ls, line_positions(ls));
    assert(ls.take(ls.len() as int) =~= ls);
    assert forall|name: Seq<char>| built.contains_key(name) <==> label_table(ls).contains_key(
        name,
    ) by {
        lemma_table_from(ls, ls.len() as int, name);
        lemma_label_table(ls, name);
    }
    assert forall|name: Seq<char>| built.contains_key(name) implies built[name] == label_table(
        ls,
    )[name] by {
        lemma_table_from(ls, ls.len() as int, name);
        lemma_label_table(ls, name);
    }
    assert(built =~= label_table(ls));
}

/// Whether `line` takes no instruction slot.
pub fn is_empty_or_comment_or_label(line: &str) -> (b: bool)
    ensures
        b == takes_no_slot(line@),
{
    if line.is_empty() {
        return true;
    }
    let first = line.get_char(0);
    first == '#' || first == '@'
}

/// The position recorded for `line` where it is a label definition.
pub fn get_if_label(lines_to_linum: &StringHashMap<usize>, line: &str) -> (r: Option<usize>)
    requires
        is_label_def(line@) ==> lines_to_linum@.contains_key(line@),
    ensures
        r == if is_label_def(line@) {
            Some(lines_to_linum@[line@])
        } else {
            None
        },
{
    if !line.is_empty() && line.get_char(0) == '@' {
        match lines_to_linum.get(line) {
            Some(linum) => Some(*linum),
            None => None,
        }
    } else {
        None
    }
}

/// Builds the label table of a text in two passes: the first records the
/// position of every line, the second keeps those of the label definitions,
/// by name.
pub fn make_label_map(input: &String) -> (table: StringHashMap<usize>)
    ensures
        holds(table@, label_table(lines(input@))),
{
    let source = split_lines(input.as_str());
    let ghost ls = texts(source@);
    let mut lines_to_linum: StringHashMap<usize> = StringHashMap::new();
    let mut idx: usize = 0;
    let mut i: usize = 0;
    assert(ls.take(0) =~= Seq::<Seq<char>>::empty());
    while i < source.len()
        invariant
            i <= source.len(),
            ls == texts(source@),
            idx <= i,
            idx == slot_count(ls.take(i as int)),
            holds(lines_to_linum@, line_positions(ls.take(i as int))),
        decreases source.len() - i,
    {
        proof {
            assert(ls.take(i + 1).drop_last() =~= ls.take(i as int));
            assert(ls.take(i + 1).last() == source@[i as int]@);
        }
        lines_to_linum.insert(source[i].clone(), idx);
        if !is_empty_or_comment_or_label(source[i].as_str()) {
            idx = idx + 1;
        }
        i += 1;
    }
    assert(ls.take(i as int) =~= ls);
    let mut table: StringHashMap<usize> = StringHashMap::new();
    let mut j: usize = 0;
    while j < source.len()
        invariant
            j <= source.len(),
            ls == texts(source@),
            holds(lines_to_linum@, line_positions(ls)),
            holds(table@, table_from(ls.take(j as int), line_positions(ls))),
        decreases source.len() - j,
    {
        let l = source[j].as_str();
        proof {
            assert(ls.take(j + 1).drop_last() =~= ls.take(j as int));
            assert(ls.take(j + 1).last() == l@);
            assert(ls[j as int] == l@);
            lemma_last_index(ls, l@);
            lemma_line_positions(ls, l@);
        }
        match get_if_label(&lines_to_linum, l) {
            Some(linum) => {
                let v = to_chars(l);
                let name = from_chars(&v, 1, v.len());
                assert(name@ =~= l@.skip(1));
                table.insert(name, linum);
            },
            None => {},
        }
        j += 1;
    }
    proof {
        assert(ls.take(j as int) =~= ls);
        lemma_two_passes(ls);
    }
    table
}

/// Replaces each reference to a label that the text defines by the label's
/// index, and keeps the reference behind it as a comment.
pub fn label_to_linum(input: String) -> (out: String)
    ensures
        out@ == resolve_text(input@),
{
    let label_map = make_label_map(&input);
    let source = split_lines(input.as_str());
    let ghost ls = texts(source@);
    let ghost table = label_table(ls);
    let mut r: Vec<String> = Vec::new();
    let mut i: usize = 0;
    assert(texts(r@) =~= resolve_all(ls).take(0));
    while i < source.len()
        invariant
            i <= source.len(),
            ls == texts(source@),
            table == label_table(ls),
            holds(label_map@, table),
            texts(r@) == resolve_all(ls).take(i as int),
        decreases source.len() - i,
    {
        let line = source[i].as_str();
        let v = to_chars(line);
        let mut resolved = String::from_str(line);
        if v.len() > 0 && v[0] == '$' {
            let name = from_chars(&v, 1, v.len());
            assert(name@ =~= line@.skip(1));
            match label_map.get(name.as_str()) {
                Some(n) => {
                    resolved = decimal_string(*n).concat(" # ").concat(line);
                },
                None => {},
            }
        }
        proof {
            assert(ls[i as int] == line@);
            assert(resolved@ == resolve_line(table, line@));
            assert(texts(r@.push(resolved)) =~= texts(r@).push(resolved@));
            assert(resolve_all(ls).take(i + 1) =~= resolve_all(ls).take(i as int).push(
                resolve_line(table, ls[i as int]),
            ));
        }
        r.push(resolved);
        i += 1;
    }
    assert(resolve_all(ls).take(i as int) =~= resolve_all(ls));
    concat_lines(r)
}

/// Turns each label definition into a comment of the label's name.
pub fn labels_to_comments(input: String) -> (out: String)
    ensures
        out@ == comment_text(input@),
{
    let source = split_lines(input.as_str());
    let ghost ls = texts(source@);
    let mut r: Vec<String> = Vec::new();
    let mut i: usize = 0;
    assert(texts(r@) =~= comment_all(ls).take(0));
    while i < source.len()
        invariant
            i <= source.len(),
            ls == texts(source@),
            texts(r@) == comment_all(ls).take(i as int),
        decreases source.len() - i,
    {
        let line = source[i].as_str();
        let v = to_chars(line);
        let mut converted = String::from_str(line);
        if v.len() > 0 && v[0] == '@' {
            let label = from_chars(&v, 1, v.len());
            converted = String::from_str("#").concat(label.as_str());
            proof {
                reveal_strlit("#");
                assert(converted@ =~= seq!['#'] + line@.skip(1));
            }
        }
        proof {
            assert(ls[i as int] == line@);
            assert(texts(r@.push(converted)) =~= texts(r@).push(converted@));
            assert(comment_all(ls).take(i + 1) =~= comment_all(ls).take(i as int).push(
                to_comment(ls[i as int]),
            ));
        }
        r.push(converted);
        i += 1;
    }
    assert(comment_all(ls).take(i as int) =~= comment_all(ls));
    concat_lines(r)
}

} // verus!
