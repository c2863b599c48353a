//! The shapes of a query, and a query as text.
//!
//! A query is a term, a phrase, a range, a match of everything, or a boolean
//! combination of queries. The text of a query is in the syntax of the query
//! parser, so that it can be read back.

use vstd::prelude::*;
use vstd::utf8::encode_utf8;
use crate::text::{decimal_text, integer_text, push_char, push_decimal, push_integer};

verus! {

/// How a clause of a boolean query counts.
#[derive(Clone, Copy, Debug, PartialEq, Eq, Structural)]
pub enum Occur {
    /// A document may match the clause.
    Should,
    /// A document must match the clause.
    Must,
    /// A document must not match the clause.
    MustNot,
}

/// The value of a term of a query.
#[derive(Debug)]
pub enum TermText {
    Str(String),
    U64(u64),
    I64(i64),
    /// A facet: it has no text.
    Facet,
    /// Bytes: they have no text.
    Bytes,
}

/// One end of a range.
#[derive(Debug)]
pub enum RangeBound {
    Included(TermText),
    Excluded(TermText),
    Unbounded,
}

/// One clause of a boolean query.
#[derive(Debug)]
pub struct Clause {
    pub occur: Occur,
    pub query: QueryShape,
}

/// A query, by its shape.
#[derive(Debug)]
pub enum QueryShape {
    /// A boolean combination of queries.
    Boolean(Vec<Clause>),
    /// One term in a field.
    Term { field: String, term: TermText },
    /// A sequence of terms in a field.
    Phrase { field: String, terms: Vec<TermText> },
    /// The terms of a field between two bounds.
    Range { field: String, lower: RangeBound, upper: RangeBound },
    /// Every document.
    All,
}

/// The sign that stands in front of a clause.
pub open spec fn occur_text(occur: Occur) -> Seq<char> {
    match occur {
        Occur::Should => Seq::empty(),
        Occur::Must => seq!['+'],
        Occur::MustNot => seq!['-'],
    }
}

/// Whether a text holds a blank.
pub open spec fn has_blank(text: Seq<char>) -> bool {
    encode_utf8(text).contains(0x20u8)
}

/// A term as text. A text with a blank in it stands in quotes where
/// `quoting` allows it.
pub open spec fn term_text(term: TermText, quoting: bool) -> Seq<char> {
    match term {
        TermText::Str(s) => if quoting && has_blank(s@) {
            seq!['"'] + s@ + seq!['"']
        } else {
            s@
        },
        TermText::U64(v) => decimal_text(v as nat),
        TermText::I64(v) => integer_text(v as int),
        TermText::Facet => "<cannot write HierarchicalFacet>"@,
        TermText::Bytes => "<cannot search for bytes>"@,
    }
}

/// The terms of a phrase as text, with a blank between two.
pub open spec fn phrase_text(terms: Seq<TermText>) -> Seq<char>
    decreases terms.len(),
{
    if terms.len() == 0 {
        Seq::empty()
    } else if terms.len() == 1 {
        term_text(terms[0], false)
    } else {
        phrase_text(terms.drop_last()).push(' ') + term_text(terms.last(), false)
    }
}

/// The lower end of a range as text.
pub open spec fn lower_text(bound: RangeBound) -> Seq<char> {
    match bound {
        RangeBound::Included(term) => seq!['['] + term_text(term, false),
        RangeBound::Excluded(term) => seq!['{'] + term_text(term, false),
        RangeBound::Unbounded => seq!['['],
    }
}

/// The upper end of a range as text.
pub open spec fn upper_text(bound: RangeBound) -> Seq<char> {
    match bound {
        RangeBound::Included(term) => term_text(term, false).push(']'),
        RangeBound::Excluded(term) => term_text(term, false).push('}'),
        RangeBound::Unbounded => seq![']'],
    }
}

/// A query as text. `fresh` says that the text starts with the query: a
/// boolean query stands in parentheses unless it does.
pub open spec fn query_text(query: QueryShape, fresh: bool) -> Seq<char>
    decreases query, 0nat,
{
    match query {
        QueryShape::Boolean(clauses) => if fresh {
            clauses_text(clauses@, true)
        } else {
            seq!['('] + clauses_text(clauses@, false) + seq![')']
        },
        QueryShape::Term { field, term } => field@.push(':') + term_text(term, true),
        QueryShape::Phrase { field, terms } => field@ + ":\""@ + phrase_text(terms@).push('"'),
        QueryShape::Range { field, lower, upper } => field@.push(':') + lower_text(lower) + " TO "@
            + upper_text(upper),
        QueryShape::All => seq!['*'],
    }
}

/// The clauses of a boolean query as text, with a blank between two and each
/// with its sign in front. `fresh` says that the text starts with the first
/// clause.
pub open spec fn clauses_text(clauses: Seq<Clause>, fresh: bool) -> Seq<char>
    decreases clauses, 1nat,
{
    if clauses.len() == 0 {
        Seq::empty()
    } else if clauses.len() == 1 {
        occur_text(clauses[0].occur) + query_text(
            clauses[0].query,
            fresh && clauses[0].occur == Occur::Should,
        )
    } else {
        clauses_text(clauses.drop_last(), fresh).push(' ') + occur_text(clauses.last().occur)
            + query_text(clauses.last().query, false)
    }
}

/// Whether a text holds a blank.
pub fn contains_blank(text: &str) -> (r: bool)
    ensures
        r == has_blank(text@),
{
    let bytes = text.as_bytes();
    let mut i: usize = 0;
    while i < bytes.len()
        invariant
            i <= bytes@.len(),
            bytes@ == encode_utf8(text@),
            forall|j: int| 0 <= j < i ==> bytes@[j] != 0x20u8,
        decreases bytes@.len() - i,
    {
        if bytes[i] == 0x20u8 {
            return true;
        }
        i = i + 1;
    }
    false
}

/// Appends a term as text.
pub fn push_term_str(term: &TermText, allow_quoting: bool, output: &mut String)
    ensures
        final(output)@ == old(output)@ + term_text(*term, allow_quoting),
{
    match term {
        TermText::Str(s) => {
            if allow_quoting && contains_blank(s.as_str()) {
                push_char(output, '"');
                output.append(s.as_str());
                push_char(output, '"');
                assert(output@ =~= old(output)@ + term_text(*term, allow_quoting));
            } else {
                output.append(s.as_str());
            }
        },
        TermText::U64(v) => {
            push_decimal(output, *v);
        },
        TermText::I64(v) => {
            push_integer(output, *v);
        },
        TermText::Facet => {
            output.append("<cannot write HierarchicalFacet>");
        },
        TermText::Bytes => {
            output.append("<cannot search for bytes>");
        },
    }
}

/// Appends the terms of a phrase as text.
fn push_phrase(terms: &Vec<TermText>, output: &mut String)
    ensures
        final(output)@ == old(output)@ + phrase_text(terms@),
{
    let mut i: usize = 0;
    proof {
        assert(terms@.take(0) =~= Seq::<TermText>::empty());
        assert(output@ =~= old(output)@ + phrase_text(terms@.take(0)));
    }
    while i < terms.len()
        invariant
            i <= terms@.len(),
            output@ == old(output)@ + phrase_text(terms@.take(i as int)),
        decreases terms@.len() - i,
    {
        let ghost before = output@;
        if i != 0 {
            push_char(output, ' ');
        }
        push_term_str(&terms[i], false, output);
        proof {
            let next = terms@.take(i as int + 1);
            assert(next.drop_last() =~= terms@.take(i as int));
            assert(next.last() == terms@[i as int]);
            assert(next[0] == terms@[0]);
            assert(output@ =~= old(output)@ + phrase_text(next));
        }
        i = i + 1;
    }
    proof {
        assert(terms@.take(terms@.len() as int) =~= terms@);
    }
}

/// Appends the two ends of a range as text.
fn push_range(lower: &RangeBound, upper: &RangeBound, output: &mut String)
    ensures
        final(output)@ == old(output)@ + lower_text(*lower) + " TO "@ + upper_text(*upper),
{
    match lower {
        RangeBound::Included(term) => {
            push_char(output, '[');
            push_term_str(term, false, output);
        },
        RangeBound::Excluded(term) => {
            push_char(output, '{');
            push_term_str(term, false, output);
        },
        RangeBound::Unbounded => {
            push_char(output, '[');
        },
    }
    let ghost low = output@;
    proof {
        assert(low =~= old(output)@ + lower_text(*lower));
    }
    output.append(" TO ");
    match upper {
        RangeBound::Included(term) => {
            push_term_str(term, false, output);
            push_char(output, ']');
        },
        RangeBound::Excluded(term) => {
            push_term_str(term, false, output);
            push_char(output, '}');
        },
        RangeBound::Unbounded => {
            push_char(output, ']');
        },
    }
    proof {
        assert(output@ =~= low + " TO "@ + upper_text(*upper));
    }
}

/// Appends the clauses of a boolean query as text.
fn push_clauses(clauses: &Vec<Clause>, output: &mut String)
    ensures
        final(output)@ == old(output)@ + clauses_text(clauses@, old(output)@.len() == 0),
    decreases clauses, 1nat,
{
    let ghost start = output@;
    let ghost fresh = start.len() == 0;
    let mut i: usize = 0;
    proof {
        assert(clauses@.take(0) =~= Seq::<Clause>::empty());
        assert(output@ =~= start + clauses_text(clauses@.take(0), fresh));
    }
    while i < clauses.len()
        invariant
            i <= clauses@.len(),
            fresh == (start.len() == 0),
            output@ == start + clauses_text(clauses@.take(i as int), fresh),
        decreases clauses@.len() - i,
    {
        let ghost before = output@;
        if i != 0 {
            push_char(output, ' ');
        }
        match clauses[i].occur {
            Occur::Should => {},
            Occur::Must => {
                push_char(output, '+');
            },
            Occur::MustNot => {
                push_char(output, '-');
            },
        }
        let ghost signed = output@;
        proof {
            vstd::std_specs::vec::axiom_vec_index_decreases(*clauses, i as int);
        }
        push_query_to_string(&clauses[i].query, output);
        proof {
            let next = clauses@.take(i as int + 1);
            assert(next.drop_last() =~= clauses@.take(i as int));
            assert(next.last() == clauses@[i as int]);
            assert(next[0] == clauses@[0]);
            if i == 0 {
                assert(signed =~= start + occur_text(clauses@[0].occur));
                assert(clauses_text(clauses@.take(0), fresh) =~= Seq::<char>::empty());
            } else {
                assert(signed =~= before.push(' ') + occur_text(clauses@[i as int].occur));
            }
            assert(output@ =~= start + clauses_text(next, fresh));
        }
        i = i + 1;
    }
    proof {
        assert(clauses@.take(clauses@.len() as int) =~= clauses@);
    }
}

/// Appends a query as text. A boolean query is put in parentheses unless the
/// output is empty so far.
pub fn push_query_to_string(query: &QueryShape, output: &mut String)
    ensures
        final(output)@ == old(output)@ + query_text(*query, old(output)@.len() == 0),
    decreases query, 0nat,
{
    match query {
        QueryShape::Boolean(clauses) => {
            let was_empty = output.as_str().is_empty();
            if was_empty {
                push_clauses(clauses, output);
            } else {
                push_char(output, '(');
                push_clauses(clauses, output);
                push_char(output, ')');
                proof {
                    assert(output@ =~= old(output)@ + query_text(*query, false));
                }
            }
        },
        QueryShape::Term { field, term } => {
            output.append(field.as_str());
            push_char(output, ':');
            push_term_str(term, true, output);
            proof {
                assert(output@ =~= old(output)@ + query_text(*query, old(output)@.len() == 0));
            }
        },
        QueryShape::Phrase { field, terms } => {
            output.append(field.as_str());
            output.append(":\"");
            push_phrase(terms, output);
            push_char(output, '"');
            proof {
                assert(output@ =~= old(output)@ + query_text(*query, old(output)@.len() == 0));
            }
        },
        QueryShape::Range { field, lower, upper } => {
            output.append(field.as_str());
            push_char(output, ':');
            push_range(lower, upper, output);
            proof {
                assert(output@ =~= old(output)@ + query_text(*query, old(output)@.len() == 0));
            }
        },
        QueryShape::All => {
            push_char(output, '*');
        },
    }
}

/// A query as text.
pub fn query_to_string(query: &QueryShape) -> (r: String)
    ensures
        r@ == query_text(*query, true),
{
    let mut output = String::new();
    push_query_to_string(query, &mut output);
    assert(output@ =~= query_text(*query, true));
    output
}

impl QueryShape {
    /// The parts of the query: the queries of its clauses where it is a
    /// boolean query, and none for any other shape.
    pub fn children(&self) -> (r: Vec<&QueryShape>)
        ensures
            match *self {
                QueryShape::Boolean(clauses) => r@.len() == clauses@.len() && forall|i: int|
                    0 <= i < r@.len() ==> *(#[trigger] r@[i]) == clauses@[i].query,
                _ => r@.len() == 0,
            },
    {
        let mut parts: Vec<&QueryShape> = Vec::new();
        match self {
            QueryShape::Boolean(clauses) => {
                let mut i: usize = 0;
                while i < clauses.len()
                    invariant
                        i <= clauses@.len(),
                        parts@.len() == i,
                        forall|j: int| 0 <= j < i ==> *(#[trigger] parts@[j]) == clauses@[j].query,
                    decreases clauses@.len() - i,
                {
                    parts.push(&clauses[i].query);
                    i = i + 1;
                }
            },
            _ => {},
        }
        parts
    }
}

/// The query that is counted for a query: the query itself, or, with a
/// second query, the two as the clauses of a boolean query that both must
/// match.
pub fn search_query(query: QueryShape, salient: Option<QueryShape>) -> (r: QueryShape)
    ensures
        match salient {
            Some(second) => r matches QueryShape::Boolean(clauses) && clauses@ == seq![
                (Clause { occur: Occur::Must, query }),
                (Clause { occur: Occur::Must, query: second }),
            ],
            None => r == query,
        },
{
    match salient {
        Some(second) => {
            let mut clauses: Vec<Clause> = Vec::new();
            clauses.push(Clause { occur: Occur::Must, query });
            clauses.push(Clause { occur: Occur::Must, query: second });
            assert(clauses@ =~= seq![
                (Clause { occur: Occur::Must, query }),
                (Clause { occur: Occur::Must, query: second }),
            ]);
            QueryShape::Boolean(clauses)
        },
        None => query,
    }
}

} // verus!
