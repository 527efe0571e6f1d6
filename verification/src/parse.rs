//! Parsing a module's source text with oxc's parser.

use vstd::prelude::*;

use oxc_allocator::Allocator;
use oxc_ast::ast::Program;
use oxc_parser::Parser;
use oxc_span::SourceType;

verus! {

#[verifier::external_type_specification]
#[verifier::external_body]
pub struct ExAllocator(oxc_allocator::Allocator);

#[verifier::external_type_specification]
#[verifier::external_body]
pub struct ExProgram<'a>(oxc_ast::ast::Program<'a>);

/// What oxc's parser reports for `source` read as the file `path`: whether
/// it refused the text (it gave up, or reported an error), and the messages
/// of its errors, each prefixed with the path.
pub uninterp spec fn parse_report(path: Seq<char>, source: Seq<char>) -> (bool, Seq<Seq<char>>);

/// The views of a list of strings.
pub open spec fn message_views(v: Seq<String>) -> Seq<Seq<char>> {
    v.map_values(|s: String| s@)
}

/// Calls `oxc_parser::Parser::parse` on `source`, with the source type that
/// `oxc_span::SourceType::from_path` gives for `path` (a declaration file
/// where the path has no known extension). Claimed: the tree is there
/// exactly when the parser neither gave up nor reported an error, and the
/// messages are the parser's errors, each prefixed with the path; both are
/// a function of the path and the text.
#[verifier::external_body]
fn parse_with_oxc<'a>(allocator: &'a Allocator, path: &str, source: &'a str) -> (r: (Option<Program<'a>>, Vec<String>))
    ensures
        (r.0 is None) == parse_report(path@, source@).0,
        message_views(r.1@) == parse_report(path@, source@).1,
{
    let source_type = SourceType::from_path(path).unwrap_or_else(|_| SourceType::d_ts());
    let ret = Parser::new(allocator, source, source_type).parse();
    let messages: Vec<String> = ret.diagnostics.errors().map(|d| format!("{path}: {d}")).collect();
    if ret.panicked || ret.diagnostics.has_errors() {
        (None, messages)
    } else {
        (Some(ret.program), messages)
    }
}

/// Parses the source text `source` of the module at `path`: its syntax tree,
/// or the parser's error messages (each prefixed with the path) when the
/// parser refuses the text.
pub fn parse_module_source<'a>(allocator: &'a Allocator, path: &str, source: &'a str) -> (r: Result<
    Program<'a>,
    Vec<String>,
>)
    ensures
        r is Ok <==> !parse_report(path@, source@).0,
        r is Err ==> message_views(r->Err_0@) == parse_report(path@, source@).1,
{
    let (program, messages) = parse_with_oxc(allocator, path, source);
    match program {
        Some(p) => Ok(p),
        None => Err(messages),
    }
}

} // verus!
