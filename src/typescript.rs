//! Tree-sitter queries over TypeScript source: premade ones, and custom ones
//! that are checked against the TypeScript grammar when they are made.
use crate::text::{chars_of, string_of};
use tree_sitter::{Query, QueryError};
use vstd::prelude::*;

verus! {

#[verifier::external_type_specification]
#[verifier::external_body]
pub struct ExQuery(tree_sitter::Query);

#[verifier::external_type_specification]
#[verifier::external_body]
pub struct ExQueryError(tree_sitter::QueryError);

/// Whether the text `source` compiles as a query against the TypeScript
/// grammar.
pub uninterp spec fn typescript_query_compiles(source: Seq<char>) -> bool;

/// Relies on `tree_sitter::Query::new` with the grammar of
/// `tree_sitter_typescript::language_typescript`: whether a query compiles
/// depends on its text alone. On an unknown name that runs to the end of the
/// text, `Query::new` cuts the text past its end and panics; a text that ends
/// in a newline never lets a name run to its end.
#[verifier::external_body]
fn new_typescript_query(source: &str) -> (r: Result<Query, QueryError>)
    requires
        source@.len() == 0 || source@.last() == '\n',
    ensures
        r is Ok <==> typescript_query_compiles(source@),
{
    Query::new(tree_sitter_typescript::language_typescript(), source)
}

/// The query text `s`, closed by a newline.
pub open spec fn query_text(s: Seq<char>) -> Seq<char> {
    s.push('\n')
}

/// Compiles the query `s`, closed by a newline, which leaves its meaning as it
/// is.
fn compile_query(s: &str) -> (r: Result<Query, QueryError>)
    ensures
        r is Ok <==> typescript_query_compiles(query_text(s@)),
{
    let mut chars = chars_of(s);
    chars.push('\n');
    let text = string_of(&chars);
    new_typescript_query(text.as_str())
}

/// Premade queries for TypeScript.
#[derive(Debug, Clone, Copy, PartialEq, Eq, Structural)]
pub enum PremadeTypeScriptQuery {
    /// Comments.
    Comments,
    /// Strings (literal, template; includes quote characters).
    Strings,
}

impl PremadeTypeScriptQuery {
    pub open spec fn source_spec(self) -> Seq<char> {
        match self {
            PremadeTypeScriptQuery::Comments => "(comment) @comment"@,
            PremadeTypeScriptQuery::Strings => "[(template_string) (string)] @string"@,
        }
    }

    /// The text of the query.
    pub fn source(&self) -> (r: &'static str)
        ensures
            r@ == self.source_spec(),
    {
        match self {
            PremadeTypeScriptQuery::Comments => "(comment) @comment",
            PremadeTypeScriptQuery::Strings => "[(template_string) (string)] @string",
        }
    }

    /// The compiled query.
    pub fn query(&self) -> (r: Result<Query, QueryError>)
        ensures
            r is Ok <==> typescript_query_compiles(query_text(self.source_spec())),
    {
        compile_query(self.source())
    }
}

/// A custom tree-sitter query for TypeScript, known to compile.
#[derive(Debug, Clone, PartialEq, Eq, Hash)]
pub struct CustomTypeScriptQuery(String);

impl CustomTypeScriptQuery {
    /// The text of the query.
    pub closed spec fn source_spec(&self) -> Seq<char> {
        self.0@
    }

    pub open spec fn wf(&self) -> bool {
        typescript_query_compiles(query_text(self.source_spec()))
    }

    /// Takes `s` as a query if it compiles, and hands back the compiler's
    /// error otherwise.
    pub fn new(s: &str) -> (r: Result<CustomTypeScriptQuery, QueryError>)
        ensures
            r is Ok <==> typescript_query_compiles(query_text(s@)),
            r matches Ok(q) ==> q.source_spec() == s@ && q.wf(),
    {
        match compile_query(s) {
            Ok(_) => Ok(CustomTypeScriptQuery(s.to_string())),
            Err(e) => Err(e),
        }
    }

    pub fn source(&self) -> (r: &str)
        ensures
            r@ == self.source_spec(),
    {
        self.0.as_str()
    }

    /// The compiled query: it always compiles.
    pub fn query(&self) -> (r: Result<Query, QueryError>)
        requires
            self.wf(),
        ensures
            r is Ok,
    {
        compile_query(self.0.as_str())
    }
}

impl std::str::FromStr for CustomTypeScriptQuery {
    type Err = QueryError;

    fn from_str(s: &str) -> (r: Result<Self, Self::Err>)
        ensures
            r is Ok <==> typescript_query_compiles(query_text(s@)),
            r matches Ok(q) ==> q.source_spec() == s@ && q.wf(),
    {
        CustomTypeScriptQuery::new(s)
    }
}

} // verus!
