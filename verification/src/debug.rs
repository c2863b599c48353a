//! The tree that explains a query: one node for the query and one for each
//! of its parts, each with the number of documents it matches.

use vstd::prelude::*;

verus! {

/// What a caller asks to have explained.
#[derive(Debug)]
pub struct DebugQuery {
    /// The query, in the syntax of the query parser.
    pub query: Option<String>,
    /// A second query that every counted document must match as well.
    pub salient_docs_query: Option<String>,
}

/// A query with the number of documents that it matches, and the same for
/// each of its parts.
#[derive(Debug)]
pub struct DebugTree {
    /// The number of documents that match the query.
    pub count: usize,
    /// The query as text.
    pub query_string: String,
    /// The query that was counted, as text: the query itself, or the query
    /// together with the second one.
    pub search_string: String,
    /// The second query as the caller gave it.
    pub salient_docs_query_string: Option<String>,
    /// The parts of the query, in their order.
    pub children: Vec<DebugTree>,
}

impl DebugQuery {
    /// The second query, where the caller gave one that is not empty.
    pub fn salient(&self) -> (r: Option<&String>)
        ensures
            r == match self.salient_docs_query {
                Some(q) => if q@.len() == 0 {
                    None
                } else {
                    Some(&q)
                },
                None => None,
            },
    {
        match &self.salient_docs_query {
            Some(q) => {
                if q.as_str().is_empty() {
                    None
                } else {
                    Some(q)
                }
            },
            None => None,
        }
    }
}

impl DebugTree {
    /// The tree of no query: no documents, empty texts, no parts.
    pub fn empty() -> (r: DebugTree)
        ensures
            r.count == 0,
            r.query_string@.len() == 0,
            r.search_string@.len() == 0,
            r.salient_docs_query_string is None,
            r.children@.len() == 0,
    {
        DebugTree {
            count: 0,
            query_string: String::new(),
            search_string: String::new(),
            salient_docs_query_string: None,
            children: Vec::new(),
        }
    }

    /// The tree of a query with the given count, texts and parts.
    pub fn node(count: usize, query_string: String, search_string: String, children: Vec<
        DebugTree,
    >) -> (r: DebugTree)
        ensures
            r.count == count,
            r.query_string == query_string,
            r.search_string == search_string,
            r.salient_docs_query_string is None,
            r.children == children,
    {
        DebugTree { count, query_string, search_string, salient_docs_query_string: None, children }
    }
}

} // verus!
