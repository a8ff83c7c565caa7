//! The SQL query planner front-end.
//!
//! Planning itself hands the (rewritten) query text to the execution engine,
//! which the surrounding process owns; the library holds the planner's
//! identity and its construction.

use vstd::prelude::*;

verus! {

/// Creates plans for running SQL queries against registered catalogs.
#[derive(Debug)]
pub struct SqlQueryPlanner {}

impl SqlQueryPlanner {
    /// A new planner.
    pub fn new() -> (r: Self)
        ensures
            r == (SqlQueryPlanner {  }),
    {
        SqlQueryPlanner {  }
    }
}

/// The query text format a front-end hands in.
#[derive(Clone, Copy, Debug, PartialEq, Eq, Structural)]
pub enum QueryType {
    /// SQL text.
    Sql,
    /// A serialized query AST.
    Ast,
}

/// An unknown query type name; carries the offending text.
#[derive(Debug)]
pub struct InvalidQueryType {
    /// The text that named no known query type.
    pub text: String,
}

/// Is this character the given ASCII letter, in either case?
pub open spec fn is_letter(c: char, lower: char, upper: char) -> bool {
    c == lower || c == upper
}

/// Does the text name the SQL query type (case-insensitive)?
pub open spec fn names_sql(s: Seq<char>) -> bool {
    s.len() == 3 && is_letter(s[0], 's', 'S') && is_letter(s[1], 'q', 'Q') && is_letter(
        s[2],
        'l',
        'L',
    )
}

/// Does the text name the AST query type (case-insensitive)?
pub open spec fn names_ast(s: Seq<char>) -> bool {
    s.len() == 3 && is_letter(s[0], 'a', 'A') && is_letter(s[1], 's', 'S') && is_letter(
        s[2],
        't',
        'T',
    )
}

/// Parse a query type name: `sql` or `ast`, in any letter case; anything else
/// is rejected with the offending text.
pub fn parse_query_type(s: &str) -> (r: Result<QueryType, InvalidQueryType>)
    ensures
        r == Ok::<QueryType, InvalidQueryType>(QueryType::Sql) <==> names_sql(s@),
        r == Ok::<QueryType, InvalidQueryType>(QueryType::Ast) <==> names_ast(s@),
        (r matches Err(e) ==> e.text@ == s@ && !names_sql(s@) && !names_ast(s@)),
{
    let n = s.unicode_len();
    if n == 3 {
        let c0 = s.get_char(0);
        let c1 = s.get_char(1);
        let c2 = s.get_char(2);
        if (c0 == 's' || c0 == 'S') && (c1 == 'q' || c1 == 'Q') && (c2 == 'l' || c2 == 'L') {
            return Ok(QueryType::Sql);
        }
        if (c0 == 'a' || c0 == 'A') && (c1 == 's' || c1 == 'S') && (c2 == 't' || c2 == 'T') {
            return Ok(QueryType::Ast);
        }
    }
    Err(InvalidQueryType { text: String::from_str(s) })
}

} // verus!
