//! The compute side of the snippet-execution pipeline: validating the
//! call's arguments into a materialization plan, naming the toolchain
//! invocation's arguments, and re-parsing the captured output into the
//! token sequence the call site receives. The file writes, the two
//! subprocess invocations and the guarded deletions happen outside the
//! library, around these functions.

use vstd::prelude::*;
use vstd::string::StringExecFns;

use crate::lex::{lex, lex_spec, seq_model, LexError, TokenV};
use crate::parse::{ident_text, is_ident_t};
use crate::token::{is_comma, is_comma_t, lemma_seq_text_subrange, render_range, seq_text, Token};

verus! {

/// The argument failures of an execute call, and the output failure of a
/// finished run. Each is fatal; there is no recovery.
#[derive(Clone, Copy, PartialEq, Eq, Structural, Debug)]
pub enum MethodError {
    /// The call did not start with a single identifier naming the
    /// artifact.
    MissingPath,
    /// No top-level separator followed the artifact name.
    MissingComma,
    /// The captured output did not tokenize under the grammar.
    BadOutput(LexError),
}

/// The materialization plan of one execution: the artifact name, the
/// source file that name determines, and the source text to write there.
pub struct MethodPlan {
    pub name: String,
    pub source_file: String,
    pub source_text: String,
}

/// The first argument failure of an execute call, if any.
pub open spec fn request_err(ts: Seq<Token>) -> Option<MethodError> {
    if ts.len() == 0 || !is_ident_t(ts[0]) {
        Some(MethodError::MissingPath)
    } else if ts.len() < 2 || !is_comma_t(ts[1]) {
        Some(MethodError::MissingComma)
    } else {
        None
    }
}

/// What the plan of a well-shaped call holds: the name is the first
/// token's identifier text, the source file is that name with the source
/// extension, and the source text is everything after the separator,
/// rendered space-separated, verbatim.
pub open spec fn plan_ok(ts: Seq<Token>, p: MethodPlan) -> bool {
    &&& p.name@ == ident_text(ts[0])
    &&& p.source_file@ == ident_text(ts[0]) + ".rs"@
    &&& p.source_text@ == seq_text(ts.skip(2), true)
}

/// Validates an execute call's arguments: a single identifier, a
/// separator, then the body taken verbatim. Succeeds exactly on
/// well-shaped calls.
pub fn method_request(tokens: &Vec<Token>) -> (r: Result<MethodPlan, MethodError>)
    ensures
        r is Ok <==> request_err(tokens@) is None,
        r matches Err(e) ==> request_err(tokens@) == Some(e),
        r matches Ok(p) ==> plan_ok(tokens@, p),
{
    if tokens.len() == 0 {
        return Err(MethodError::MissingPath);
    }
    let name: String = match &tokens[0] {
        Token::Ident(s) => s.clone(),
        _ => {
            return Err(MethodError::MissingPath);
        },
    };
    if tokens.len() < 2 {
        return Err(MethodError::MissingComma);
    }
    if !is_comma(&tokens[1]) {
        return Err(MethodError::MissingComma);
    }
    let mut source_file = name.clone();
    source_file.append(".rs");
    let source_text = render_range(tokens, 2, tokens.len(), true);
    proof {
        let n = tokens@.len() as int;
        lemma_seq_text_subrange(tokens@, 2, n, 0, true);
        assert(tokens@.subrange(2, n) =~= tokens@.skip(2));
    }
    Ok(MethodPlan { name, source_file, source_text })
}

/// The argument list of the toolchain invocation: the source file, then
/// the dialect flag and the dialect value, nothing else.
pub fn compile_command_args(plan: &MethodPlan, edition: &String) -> (r: Vec<String>)
    ensures
        r@.len() == 3,
        r@[0]@ == plan.source_file@,
        r@[1]@ == "--edition"@,
        r@[2]@ == edition@,
{
    let mut args: Vec<String> = Vec::new();
    args.push(plan.source_file.clone());
    args.push(String::from_str("--edition"));
    args.push(edition.clone());
    args
}

/// Re-parses the captured standard output of the executed binary as a
/// token sequence — the operation's successful result, spliced at the
/// call site. Output that does not tokenize is fatal; the grammar is
/// ASCII, so any non-ASCII byte in the output is refused, and characters
/// beyond printable ASCII reach a string literal only through its
/// escapes.
pub fn method_output(bytes: &Vec<u8>) -> (r: Result<Vec<Token>, MethodError>)
    ensures
        r is Ok <==> lex_spec(bytes@) is Ok,
        r matches Err(e) ==> (e matches MethodError::BadOutput(le) && lex_spec(bytes@)
            == Err::<Seq<TokenV>, LexError>(le)),
        r matches Ok(ts) ==> lex_spec(bytes@) == Ok::<Seq<TokenV>, LexError>(seq_model(ts@)),
{
    match lex(bytes) {
        Ok(ts) => Ok(ts),
        Err(e) => Err(MethodError::BadOutput(e)),
    }
}

} // verus!
