//! What the instance format ignores: white space around a line, carriage
//! returns before line feeds, and blank lines.
use vstd::prelude::*;

use crate::parser::{empty_input, parse_input_spec, parse_lines, parse_step, InputDataView, Section};
use crate::text::{
    crlf, is_ws, lemma_lines_push_newline, lemma_split_crlf, lemma_trim_push_ws, lines, split_acc,
    trim,
};

verus! {

/// The lines `ls` read one after the other from the state `st`.
pub open spec fn parse_from(st: (Section, InputDataView), ls: Seq<Seq<char>>) -> (
    Section,
    InputDataView,
)
    decreases ls.len(),
{
    if ls.len() == 0 {
        st
    } else {
        parse_step(parse_from(st, ls.drop_last()), ls.last())
    }
}

proof fn lemma_parse_lines_from(ls: Seq<Seq<char>>)
    ensures
        parse_lines(ls) == parse_from((Section::Header, empty_input()), ls),
    decreases ls.len(),
{
    if ls.len() > 0 {
        lemma_parse_lines_from(ls.drop_last());
    }
}

proof fn lemma_parse_from_concat(st: (Section, InputDataView), a: Seq<Seq<char>>, c: Seq<Seq<char>>)
    ensures
        parse_from(st, a + c) == parse_from(parse_from(st, a), c),
    decreases c.len(),
{
    if c.len() == 0 {
        assert(a + c =~= a);
    } else {
        assert((a + c).drop_last() =~= a + c.drop_last());
        assert((a + c).last() == c.last());
        lemma_parse_from_concat(st, a, c.drop_last());
    }
}

proof fn lemma_parse_lines_trimmed(ls1: Seq<Seq<char>>, ls2: Seq<Seq<char>>)
    requires
        ls1.len() == ls2.len(),
        forall|i: int| 0 <= i < ls1.len() ==> trim(#[trigger] ls1[i]) == trim(ls2[i]),
    ensures
        parse_lines(ls1) == parse_lines(ls2),
    decreases ls1.len(),
{
    if ls1.len() > 0 {
        lemma_parse_lines_trimmed(ls1.drop_last(), ls2.drop_last());
        assert(trim(ls1[ls1.len() - 1]) == trim(ls2[ls2.len() - 1]));
    }
}

/// Only the trimmed lines count: two texts with as many lines, whose lines
/// are equal once white space (spaces, tabs, a carriage return) is trimmed
/// from both ends, describe the same data.
pub proof fn lemma_parse_same_trimmed_lines(s1: Seq<char>, s2: Seq<char>)
    requires
        lines(s1).len() == lines(s2).len(),
        forall|i: int| 0 <= i < lines(s1).len() ==> trim(#[trigger] lines(s1)[i]) == trim(lines(s2)[i]),
    ensures
        parse_input_spec(s1) == parse_input_spec(s2),
{
    lemma_parse_lines_trimmed(lines(s1), lines(s2));
}

/// Line ends written as CR LF describe the same data as line feeds alone.
pub proof fn lemma_parse_crlf(s: Seq<char>)
    ensures
        parse_input_spec(crlf(s)) == parse_input_spec(s),
{
    lemma_split_crlf(s);
    let (d, c) = split_acc(s, '\n');
    let dm = d.map_values(|l: Seq<char>| l.push('\r'));
    assert(lines(crlf(s)) == dm.push(c));
    assert(lines(s) == d.push(c));
    assert(is_ws('\r'));
    assert forall|i: int| 0 <= i < lines(s).len() implies trim(#[trigger] lines(s)[i]) == trim(
        lines(crlf(s))[i],
    ) by {
        if i < d.len() {
            assert(lines(crlf(s))[i] == d[i].push('\r'));
            lemma_trim_push_ws(d[i], '\r');
        }
    }
    lemma_parse_lines_trimmed(lines(s), lines(crlf(s)));
}

proof fn lemma_blank_step(st: (Section, InputDataView), b: Seq<char>)
    requires
        trim(b).len() == 0,
    ensures
        parse_step(st, b) == st,
{
}

/// A blank line (empty or white space only) inserted anywhere among the
/// lines changes nothing.
pub proof fn lemma_parse_blank_line(s1: Seq<char>, s2: Seq<char>, i: int, b: Seq<char>)
    requires
        0 <= i <= lines(s1).len(),
        trim(b).len() == 0,
        lines(s2) == lines(s1).insert(i, b),
    ensures
        parse_input_spec(s2) == parse_input_spec(s1),
{
    let ls = lines(s1);
    let init = (Section::Header, empty_input());
    assert(ls.insert(i, b) =~= ls.take(i) + seq![b] + ls.skip(i));
    assert(ls =~= ls.take(i) + ls.skip(i));
    lemma_parse_lines_from(ls);
    lemma_parse_lines_from(ls.insert(i, b));
    lemma_parse_from_concat(init, ls.take(i) + seq![b], ls.skip(i));
    lemma_parse_from_concat(init, ls.take(i), seq![b]);
    lemma_parse_from_concat(init, ls.take(i), ls.skip(i));
    let st = parse_from(init, ls.take(i));
    assert(seq![b].drop_last() =~= Seq::<Seq<char>>::empty());
    assert(parse_from(st, seq![b]) == parse_step(parse_from(st, Seq::<Seq<char>>::empty()), b));
    lemma_blank_step(st, b);
}

/// Every line is read, the last one too: a line feed added at the end of
/// the text changes nothing.
pub proof fn lemma_parse_final_newline(s: Seq<char>)
    ensures
        parse_input_spec(s.push('\n')) == parse_input_spec(s),
{
    lemma_lines_push_newline(s);
    assert(lines(s).push(Seq::<char>::empty()) =~= lines(s).insert(
        lines(s).len() as int,
        Seq::<char>::empty(),
    ));
    assert(trim(Seq::<char>::empty()) =~= Seq::<char>::empty());
    lemma_parse_blank_line(s, s.push('\n'), lines(s).len() as int, Seq::<char>::empty());
}

} // verus!
