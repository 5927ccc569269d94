//! The token model: the smallest lexical units of the host language's
//! syntax, as a recursive datatype, together with the rules for rendering
//! a token sequence back to source text.

use vstd::prelude::*;

verus! {

/// The delimiter of a nested token group.
#[derive(Clone, Copy, PartialEq, Eq, Structural, Debug)]
pub enum Delim {
    Paren,
    Bracket,
    Brace,
}

/// One lexical unit: an identifier, a literal, a punctuation mark, or a
/// nested group of tokens delimited by matching brackets.
pub enum Token {
    Ident(String),
    /// An integer literal, kept as its decimal digit text.
    IntLit(String),
    /// A string literal, kept with its escapes resolved: the field holds the
    /// character content, not the quoted source form.
    StrLit(String),
    Punct(char),
    Group(Delim, Vec<Token>),
}

pub open spec fn open_char(d: Delim) -> char {
    match d {
        Delim::Paren => '(',
        Delim::Bracket => '[',
        Delim::Brace => '{',
    }
}

pub open spec fn close_char(d: Delim) -> char {
    match d {
        Delim::Paren => ')',
        Delim::Bracket => ']',
        Delim::Brace => '}',
    }
}

/// The source form of a string literal's content: quotes, backslashes and
/// the control characters the grammar's escapes name are escaped, so that
/// re-lexing the rendered text resolves back to the same content.
pub open spec fn escape_text(s: Seq<char>) -> Seq<char>
    decreases s.len(),
{
    if s.len() == 0 {
        Seq::<char>::empty()
    } else {
        let head = if s[0] == '"' {
            seq!['\\', '"']
        } else if s[0] == '\\' {
            seq!['\\', '\\']
        } else if s[0] == '\n' {
            seq!['\\', 'n']
        } else if s[0] == '\t' {
            seq!['\\', 't']
        } else if s[0] == '\r' {
            seq!['\\', 'r']
        } else {
            seq![s[0]]
        };
        head + escape_text(s.subrange(1, s.len() as int))
    }
}

/// The text of one token: identifiers and integer literals print as their
/// own text, string literals print quoted and escaped, and a group prints
/// its delimiters around its interior. With `sp` set, a single space stands
/// between adjacent tokens of a group's interior.
pub open spec fn token_text(t: Token, sp: bool) -> Seq<char>
    decreases t, 0int,
{
    match t {
        Token::Ident(s) => s@,
        Token::IntLit(s) => s@,
        Token::StrLit(s) => seq!['"'] + escape_text(s@) + seq!['"'],
        Token::Punct(c) => seq![c],
        Token::Group(d, ts) => seq![open_char(d)] + seq_text(ts@, sp) + seq![close_char(d)],
    }
}

/// The text of a whole token sequence: each token's text in order, with a
/// single space between adjacent tokens when `sp` is set and nothing
/// between them otherwise.
pub open spec fn seq_text(ts: Seq<Token>, sp: bool) -> Seq<char>
    decreases ts, ts.len() + 1,
{
    seq_text_range(ts, 0, ts.len() as int, sp)
}

/// The text of the tokens of `ts` from index `i` up to (excluding) `end`.
pub open spec fn seq_text_range(ts: Seq<Token>, i: int, end: int, sp: bool) -> Seq<char>
    decreases ts, end - i,
{
    if 0 <= i < end <= ts.len() {
        token_text(ts[i], sp) + (if sp && i + 1 < end {
            seq![' ']
        } else {
            Seq::<char>::empty()
        }) + seq_text_range(ts, i + 1, end, sp)
    } else {
        Seq::<char>::empty()
    }
}

/// Restricting the rendered range to a subrange of the sequence renders
/// the same text.
pub proof fn lemma_seq_text_subrange(ts: Seq<Token>, a: int, b: int, k: int, sp: bool)
    requires
        0 <= a <= b <= ts.len(),
        0 <= k <= b - a,
    ensures
        seq_text_range(ts, a + k, b, sp) == seq_text_range(ts.subrange(a, b), k, b - a, sp),
    decreases b - a - k,
{
    if a + k < b {
        assert(ts.subrange(a, b)[k] == ts[a + k]);
        lemma_seq_text_subrange(ts, a, b, k + 1, sp);
    }
}

/// Whether this token is a top-level separator (a comma).
pub open spec fn is_comma_t(t: Token) -> bool {
    match t {
        Token::Punct(c) => c == ',',
        _ => false,
    }
}

/// Whether this token is the type-annotation separator (a colon).
pub open spec fn is_colon_t(t: Token) -> bool {
    match t {
        Token::Punct(c) => c == ':',
        _ => false,
    }
}

/// Whether this token opens a nested group.
pub open spec fn is_group_t(t: Token) -> bool {
    match t {
        Token::Group(_, _) => true,
        _ => false,
    }
}

/// The index of the first element of `s` satisfying `p`, or `s.len()` if
/// none does.
pub open spec fn idx_where<T>(s: Seq<T>, p: spec_fn(T) -> bool) -> int
    decreases s.len(),
{
    if s.len() == 0 {
        0
    } else if p(s[0]) {
        0
    } else {
        1 + idx_where(s.drop_first(), p)
    }
}

/// The index of the first top-level separator of `ts`, or `ts.len()` if
/// none stands there.
pub open spec fn comma_idx(ts: Seq<Token>) -> int {
    idx_where(ts, |t: Token| is_comma_t(t))
}

pub proof fn lemma_comma_idx(ts: Seq<Token>)
    ensures
        0 <= comma_idx(ts) <= ts.len(),
        comma_idx(ts) < ts.len() ==> is_comma_t(ts[comma_idx(ts)]),
        forall|j: int| 0 <= j < comma_idx(ts) ==> !is_comma_t(ts[j]),
    decreases ts.len(),
{
    if ts.len() > 0 && !is_comma_t(ts[0]) {
        lemma_comma_idx(ts.drop_first());
        assert forall|j: int| 0 <= j < comma_idx(ts) implies !is_comma_t(ts[j]) by {
            if j > 0 {
                assert(ts.drop_first()[j - 1] == ts[j]);
            }
        }
    }
}

/// The index of the first type-annotation separator of `ts`, or `ts.len()`
/// if none stands there.
pub open spec fn colon_idx(ts: Seq<Token>) -> int {
    idx_where(ts, |t: Token| is_colon_t(t))
}

pub proof fn lemma_colon_idx(ts: Seq<Token>)
    ensures
        0 <= colon_idx(ts) <= ts.len(),
        colon_idx(ts) < ts.len() ==> is_colon_t(ts[colon_idx(ts)]),
        forall|j: int| 0 <= j < colon_idx(ts) ==> !is_colon_t(ts[j]),
    decreases ts.len(),
{
    if ts.len() > 0 && !is_colon_t(ts[0]) {
        lemma_colon_idx(ts.drop_first());
        assert forall|j: int| 0 <= j < colon_idx(ts) implies !is_colon_t(ts[j]) by {
            if j > 0 {
                assert(ts.drop_first()[j - 1] == ts[j]);
            }
        }
    }
}

/// Splitting a token sequence on its top-level separators: the segments
/// between commas, in order. A sequence with no comma is one segment, so
/// the result is never empty; a trailing comma yields a trailing empty
/// segment.
pub open spec fn segments(ts: Seq<Token>) -> Seq<Seq<Token>>
    decreases ts.len(),
{
    let c = comma_idx(ts);
    if 0 <= c < ts.len() {
        seq![ts.take(c)] + segments(ts.skip(c + 1))
    } else {
        seq![ts]
    }
}

pub proof fn lemma_segments_len(ts: Seq<Token>)
    ensures
        segments(ts).len() >= 1,
{
}

/// The one-step unfolding of `segments` that an index scan needs: if no
/// comma stands before position `m` and position `m` holds one, the first
/// segment is exactly the tokens before `m`.
pub proof fn lemma_segments_step(ts: Seq<Token>, m: int)
    requires
        0 <= m < ts.len(),
        is_comma_t(ts[m]),
        forall|j: int| 0 <= j < m ==> !is_comma_t(ts[j]),
    ensures
        segments(ts) == seq![ts.take(m)] + segments(ts.skip(m + 1)),
{
    lemma_comma_idx(ts);
    assert(comma_idx(ts) == m) by {
        if comma_idx(ts) < m {
            assert(!is_comma_t(ts[comma_idx(ts)]));
        }
    }
}

/// The matching base case: a sequence with no top-level separator is a
/// single segment.
pub proof fn lemma_segments_whole(ts: Seq<Token>)
    requires
        forall|j: int| 0 <= j < ts.len() ==> !is_comma_t(ts[j]),
    ensures
        segments(ts) == seq![ts],
{
    lemma_comma_idx(ts);
    assert(comma_idx(ts) == ts.len()) by {
        if comma_idx(ts) < ts.len() {
            assert(!is_comma_t(ts[comma_idx(ts)]));
        }
    }
}

/// Relies on `String::push`: appends exactly the one character.
#[verifier::external_body]
pub(crate) fn push_char(s: &mut String, c: char)
    ensures
        final(s)@ == old(s)@ + seq![c],
{
    s.push(c);
}

/// The opening bracket character of a delimiter.
pub fn delim_open(d: Delim) -> (c: char)
    ensures
        c == open_char(d),
{
    match d {
        Delim::Paren => '(',
        Delim::Bracket => '[',
        Delim::Brace => '{',
    }
}

/// The closing bracket character of a delimiter.
pub fn delim_close(d: Delim) -> (c: char)
    ensures
        c == close_char(d),
{
    match d {
        Delim::Paren => ')',
        Delim::Bracket => ']',
        Delim::Brace => '}',
    }
}

pub fn is_comma(t: &Token) -> (b: bool)
    ensures
        b == is_comma_t(*t),
{
    match t {
        Token::Punct(c) => *c == ',',
        _ => false,
    }
}

pub fn is_colon(t: &Token) -> (b: bool)
    ensures
        b == is_colon_t(*t),
{
    match t {
        Token::Punct(c) => *c == ':',
        _ => false,
    }
}

/// The first top-level separator at or after `from`, by index.
pub fn find_comma(tokens: &Vec<Token>, from: usize) -> (r: Option<usize>)
    requires
        from <= tokens@.len(),
    ensures
        match r {
            Some(m) => {
                &&& from <= m < tokens@.len()
                &&& is_comma_t(tokens@[m as int])
                &&& forall|j: int| from <= j < m ==> !is_comma_t(tokens@[j])
            },
            None => forall|j: int| from <= j < tokens@.len() ==> !is_comma_t(tokens@[j]),
        },
{
    let n = tokens.len();
    let mut i: usize = from;
    while i < n
        invariant
            from <= i <= n,
            n == tokens@.len(),
            forall|j: int| from <= j < i ==> !is_comma_t(tokens@[j]),
        decreases n - i,
    {
        if is_comma(&tokens[i]) {
            return Some(i);
        }
        i = i + 1;
    }
    None
}

/// The first type-annotation separator at or after `from` and before `to`,
/// by index.
pub fn find_colon_before(tokens: &Vec<Token>, from: usize, to: usize) -> (r: Option<usize>)
    requires
        from <= to <= tokens@.len(),
    ensures
        match r {
            Some(m) => {
                &&& from <= m < to
                &&& is_colon_t(tokens@[m as int])
                &&& forall|j: int| from <= j < m ==> !is_colon_t(tokens@[j])
            },
            None => forall|j: int| from <= j < to ==> !is_colon_t(tokens@[j]),
        },
{
    let mut i: usize = from;
    while i < to
        invariant
            from <= i <= to <= tokens@.len(),
            forall|j: int| from <= j < i ==> !is_colon_t(tokens@[j]),
        decreases to - i,
    {
        if is_colon(&tokens[i]) {
            return Some(i);
        }
        i = i + 1;
    }
    None
}

/// Relies on `String::pop`: removes exactly the last character.
#[verifier::external_body]
pub(crate) fn pop_char(s: &mut String)
    requires
        old(s)@.len() > 0,
    ensures
        final(s)@ == old(s)@.drop_last(),
{
    let _ = s.pop();
}

/// The escaped source form of a string literal's content.
pub fn escape_content(s: &String) -> (r: String)
    ensures
        r@ == escape_text(s@),
{
    let text = s.as_str();
    let n = text.unicode_len();
    let mut r = String::new();
    let mut i: usize = 0;
    proof {
        assert(s@.subrange(0, n as int) =~= s@);
    }
    while i < n
        invariant
            n == s@.len(),
            text@ == s@,
            i <= n,
            r@ + escape_text(s@.subrange(i as int, n as int)) == escape_text(s@),
        decreases n - i,
    {
        let c = text.get_char(i);
        proof {
            assert(s@.subrange(i as int, n as int).drop_first() =~= s@.subrange(
                i + 1,
                n as int,
            ));
            assert(s@.subrange(i as int, n as int)[0] == s@[i as int]);
        }
        if c == '"' {
            push_char(&mut r, '\\');
            push_char(&mut r, '"');
        } else if c == '\\' {
            push_char(&mut r, '\\');
            push_char(&mut r, '\\');
        } else if c == '\n' {
            push_char(&mut r, '\\');
            push_char(&mut r, 'n');
        } else if c == '\t' {
            push_char(&mut r, '\\');
            push_char(&mut r, 't');
        } else if c == '\r' {
            push_char(&mut r, '\\');
            push_char(&mut r, 'r');
        } else {
            push_char(&mut r, c);
        }
        i = i + 1;
    }
    proof {
        assert(s@.subrange(n as int, n as int) =~= Seq::<char>::empty());
        assert(r@ =~= r@ + Seq::<char>::empty());
    }
    r
}

/// Appends the text of one token to `out`.
pub fn render_token(out: &mut String, t: &Token, sp: bool)
    ensures
        final(out)@ == old(out)@ + token_text(*t, sp),
    decreases *t, 0int,
{
    match t {
        Token::Ident(s) => {
            out.append(s.as_str());
        },
        Token::IntLit(s) => {
            out.append(s.as_str());
        },
        Token::StrLit(s) => {
            push_char(out, '"');
            let e = escape_content(s);
            out.append(e.as_str());
            push_char(out, '"');
            proof {
                assert(out@ =~= old(out)@ + (seq!['"'] + escape_text(s@) + seq!['"']));
            }
        },
        Token::Punct(c) => {
            push_char(out, *c);
        },
        Token::Group(d, ts) => {
            push_char(out, delim_open(*d));
            let ghost base = out@;
            let n = ts.len();
            let mut i: usize = 0;
            #[verifier::loop_isolation(false)]
            while i < n
                invariant
                    n == ts@.len(),
                    i <= n,
                    base + seq_text(ts@, sp) == out@ + seq_text_range(ts@, i as int, n as int, sp),
                decreases n - i,
            {
                render_token(out, &ts[i], sp);
                if sp && i + 1 < n {
                    push_char(out, ' ');
                }
                i = i + 1;
            }
            push_char(out, delim_close(*d));
            proof {
                assert(out@ =~= old(out)@ + (seq![open_char(*d)] + seq_text(ts@, sp) + seq![
                    close_char(*d),
                ]));
            }
        },
    }
}

/// The text of the tokens of `ts` from index `from` up to `to`.
pub fn render_range(ts: &Vec<Token>, from: usize, to: usize, sp: bool) -> (r: String)
    requires
        from <= to <= ts@.len(),
    ensures
        r@ == seq_text_range(ts@, from as int, to as int, sp),
{
    let mut r = String::new();
    let mut i: usize = from;
    while i < to
        invariant
            from <= i <= to <= ts@.len(),
            r@ + seq_text_range(ts@, i as int, to as int, sp) == seq_text_range(
                ts@,
                from as int,
                to as int,
                sp,
            ),
        decreases to - i,
    {
        render_token(&mut r, &ts[i], sp);
        if sp && i + 1 < to {
            push_char(&mut r, ' ');
        }
        i = i + 1;
    }
    proof {
        assert(r@ =~= r@ + Seq::<char>::empty());
    }
    r
}

/// The text of a whole token sequence, glued (`sp == false`) or
/// space-separated (`sp == true`).
pub fn render_seq(ts: &Vec<Token>, sp: bool) -> (r: String)
    ensures
        r@ == seq_text(ts@, sp),
{
    render_range(ts, 0, ts.len(), sp)
}

/// The text of one token, as its own string.
pub fn token_to_string(t: &Token, sp: bool) -> (r: String)
    ensures
        r@ == token_text(*t, sp),
{
    let mut r = String::new();
    render_token(&mut r, t, sp);
    r
}

/// An indentation of `n` tab characters.
pub open spec fn tabs(n: nat) -> Seq<char>
    decreases n,
{
    if n == 0 {
        Seq::<char>::empty()
    } else {
        tabs((n - 1) as nat) + seq!['\t']
    }
}

/// The next nesting depth; it saturates rather than wrap.
pub open spec fn deeper(layer: usize) -> usize {
    if layer < usize::MAX {
        (layer + 1) as usize
    } else {
        layer
    }
}

/// The diagnostic line of one token, indented by its nesting depth: a
/// group prints a heading and then its interior one level deeper; a leaf
/// prints its class and its text.
pub open spec fn printer_token_text(t: Token, layer: usize) -> Seq<char>
    decreases t, 0int,
{
    match t {
        Token::Group(_, ts) => tabs(layer as nat) + "group:\n"@ + printer_seq_text(
            ts@,
            0,
            deeper(layer),
        ),
        Token::Ident(s) => tabs(layer as nat) + "ident: "@ + s@ + "\n"@,
        Token::IntLit(s) => tabs(layer as nat) + "literal: "@ + s@ + "\n"@,
        Token::StrLit(s) => tabs(layer as nat) + "literal: "@ + seq!['"'] + escape_text(s@)
            + seq!['"'] + "\n"@,
        Token::Punct(c) => tabs(layer as nat) + "punct: "@ + seq![c] + "\n"@,
    }
}

/// The diagnostic lines of a token sequence from index `i` on.
pub open spec fn printer_seq_text(ts: Seq<Token>, i: int, layer: usize) -> Seq<char>
    decreases ts, ts.len() - i,
{
    if 0 <= i < ts.len() {
        printer_token_text(ts[i], layer) + printer_seq_text(ts, i + 1, layer)
    } else {
        Seq::<char>::empty()
    }
}

/// The number of line breaks in the text of `s` from index `i` on.
pub open spec fn nl_from(s: Seq<char>, i: int) -> nat
    decreases s.len() - i,
{
    if 0 <= i < s.len() {
        ((if s[i] == '\n' {
            1nat
        } else {
            0nat
        }) + nl_from(s, i + 1)) as nat
    } else {
        0
    }
}

/// The number of line breaks in a text.
pub open spec fn newline_count(s: Seq<char>) -> nat {
    nl_from(s, 0)
}

pub proof fn lemma_newline_count_add(a: Seq<char>, b: Seq<char>)
    ensures
        newline_count(a + b) == newline_count(a) + newline_count(b),
    decreases a.len(),
{
    lemma_nl_from_add(a, b, 0);
}

proof fn lemma_nl_from_add(a: Seq<char>, b: Seq<char>, i: int)
    requires
        0 <= i <= a.len(),
    ensures
        nl_from(a + b, i) == nl_from(a, i) + nl_from(b, 0),
    decreases a.len() - i,
{
    if i < a.len() {
        assert((a + b)[i] == a[i]);
        lemma_nl_from_add(a, b, i + 1);
    } else {
        lemma_nl_from_shift(a, b, 0);
    }
}

proof fn lemma_nl_from_shift(a: Seq<char>, b: Seq<char>, k: int)
    requires
        0 <= k <= b.len(),
    ensures
        nl_from(a + b, a.len() + k) == nl_from(b, k),
    decreases b.len() - k,
{
    if k < b.len() {
        assert((a + b)[a.len() + k] == b[k]);
        lemma_nl_from_shift(a, b, k + 1);
    }
}

/// A text with no line break counts none.
pub proof fn lemma_no_newline(s: Seq<char>)
    requires
        forall|j: int| 0 <= j < s.len() ==> s[j] != '\n',
    ensures
        newline_count(s) == 0,
{
    lemma_nl_from_none(s, 0);
}

proof fn lemma_nl_from_none(s: Seq<char>, i: int)
    requires
        0 <= i <= s.len(),
        forall|j: int| 0 <= j < s.len() ==> s[j] != '\n',
    ensures
        nl_from(s, i) == 0,
    decreases s.len() - i,
{
    if i < s.len() {
        lemma_nl_from_none(s, i + 1);
    }
}

/// Escaping leaves no bare line break: the one character that would
/// start a new line renders as its escape.
pub proof fn lemma_escape_no_newline(s: Seq<char>)
    ensures
        newline_count(escape_text(s)) == 0,
    decreases s.len(),
{
    if s.len() > 0 {
        let rest = s.subrange(1, s.len() as int);
        lemma_escape_no_newline(rest);
        let head = if s[0] == '"' {
            seq!['\\', '"']
        } else if s[0] == '\\' {
            seq!['\\', '\\']
        } else if s[0] == '\n' {
            seq!['\\', 'n']
        } else if s[0] == '\t' {
            seq!['\\', 't']
        } else if s[0] == '\r' {
            seq!['\\', 'r']
        } else {
            seq![s[0]]
        };
        assert(forall|j: int| 0 <= j < head.len() ==> head[j] != '\n');
        lemma_no_newline(head);
        lemma_newline_count_add(head, escape_text(rest));
    }
}

/// An indentation holds no line break.
pub proof fn lemma_tabs_no_newline(n: nat)
    ensures
        newline_count(tabs(n)) == 0,
    decreases n,
{
    if n > 0 {
        lemma_tabs_no_newline((n - 1) as nat);
        lemma_newline_count_add(tabs((n - 1) as nat), seq!['\t']);
        lemma_no_newline(seq!['\t']);
    }
}

/// The number of nodes of a token tree: the token itself, plus, for a
/// group, every node of its interior.
pub open spec fn node_count(t: Token) -> nat
    decreases t, 0int,
{
    match t {
        Token::Group(_, ts) => 1 + node_count_seq(ts@, 0),
        _ => 1,
    }
}

pub open spec fn node_count_seq(ts: Seq<Token>, i: int) -> nat
    decreases ts, ts.len() - i,
{
    if 0 <= i < ts.len() {
        node_count(ts[i]) + node_count_seq(ts, i + 1)
    } else {
        0
    }
}

/// Whether every leaf text of a token tree is free of line breaks — as
/// every token the tokenizer produces is, since a text literal's content
/// renders escaped.
pub open spec fn line_clean(t: Token) -> bool
    decreases t, 0int,
{
    match t {
        Token::Ident(s) => forall|j: int| 0 <= j < s@.len() ==> s@[j] != '\n',
        Token::IntLit(s) => forall|j: int| 0 <= j < s@.len() ==> s@[j] != '\n',
        Token::StrLit(_) => true,
        Token::Punct(c) => c != '\n',
        Token::Group(_, ts) => seq_line_clean(ts@, 0),
    }
}

pub open spec fn seq_line_clean(ts: Seq<Token>, i: int) -> bool
    decreases ts, ts.len() - i,
{
    if 0 <= i < ts.len() {
        line_clean(ts[i]) && seq_line_clean(ts, i + 1)
    } else {
        true
    }
}

/// The diagnostic rendering appends exactly one line per token-tree
/// node: a leaf is one line, a group is its heading line plus its
/// interior's lines, and nothing else breaks a line.
pub proof fn lemma_printer_line_per_node(t: Token, layer: usize)
    requires
        line_clean(t),
    ensures
        newline_count(printer_token_text(t, layer)) == node_count(t),
    decreases t, 0int,
{
    lemma_tabs_no_newline(layer as nat);
    match t {
        Token::Group(_, ts) => {
            lemma_printer_seq_line_per_node(ts@, 0, deeper(layer));
            assert(newline_count("group:\n"@) == 1) by {
                reveal_strlit("group:\n");
                reveal_with_fuel(nl_from, 9);
            }
            lemma_newline_count_add(tabs(layer as nat), "group:\n"@);
            lemma_newline_count_add(
                tabs(layer as nat) + "group:\n"@,
                printer_seq_text(ts@, 0, deeper(layer)),
            );
        },
        Token::Ident(s) => {
            assert(newline_count("ident: "@) == 0) by {
                reveal_strlit("ident: ");
                reveal_with_fuel(nl_from, 9);
            }
            assert(newline_count("\n"@) == 1) by {
                reveal_strlit("\n");
                reveal_with_fuel(nl_from, 3);
            }
            lemma_no_newline(s@);
            lemma_newline_count_add(tabs(layer as nat), "ident: "@);
            lemma_newline_count_add(tabs(layer as nat) + "ident: "@, s@);
            lemma_newline_count_add(tabs(layer as nat) + "ident: "@ + s@, "\n"@);
        },
        Token::IntLit(s) => {
            assert(newline_count("literal: "@) == 0) by {
                reveal_strlit("literal: ");
                reveal_with_fuel(nl_from, 11);
            }
            assert(newline_count("\n"@) == 1) by {
                reveal_strlit("\n");
                reveal_with_fuel(nl_from, 3);
            }
            lemma_no_newline(s@);
            lemma_newline_count_add(tabs(layer as nat), "literal: "@);
            lemma_newline_count_add(tabs(layer as nat) + "literal: "@, s@);
            lemma_newline_count_add(tabs(layer as nat) + "literal: "@ + s@, "\n"@);
        },
        Token::StrLit(s) => {
            assert(newline_count("literal: "@) == 0) by {
                reveal_strlit("literal: ");
                reveal_with_fuel(nl_from, 11);
            }
            assert(newline_count("\n"@) == 1) by {
                reveal_strlit("\n");
                reveal_with_fuel(nl_from, 3);
            }
            lemma_no_newline(seq!['"']);
            lemma_escape_no_newline(s@);
            lemma_newline_count_add(tabs(layer as nat), "literal: "@);
            lemma_newline_count_add(tabs(layer as nat) + "literal: "@, seq!['"']);
            lemma_newline_count_add(tabs(layer as nat) + "literal: "@ + seq!['"'], escape_text(s@));
            lemma_newline_count_add(
                tabs(layer as nat) + "literal: "@ + seq!['"'] + escape_text(s@),
                seq!['"'],
            );
            lemma_newline_count_add(
                tabs(layer as nat) + "literal: "@ + seq!['"'] + escape_text(s@) + seq!['"'],
                "\n"@,
            );
        },
        Token::Punct(c) => {
            assert(newline_count("punct: "@) == 0) by {
                reveal_strlit("punct: ");
                reveal_with_fuel(nl_from, 9);
            }
            assert(newline_count("\n"@) == 1) by {
                reveal_strlit("\n");
                reveal_with_fuel(nl_from, 3);
            }
            lemma_no_newline(seq![c]);
            lemma_newline_count_add(tabs(layer as nat), "punct: "@);
            lemma_newline_count_add(tabs(layer as nat) + "punct: "@, seq![c]);
            lemma_newline_count_add(tabs(layer as nat) + "punct: "@ + seq![c], "\n"@);
        },
    }
}

pub proof fn lemma_printer_seq_line_per_node(ts: Seq<Token>, i: int, layer: usize)
    requires
        seq_line_clean(ts, i),
    ensures
        newline_count(printer_seq_text(ts, i, layer)) == node_count_seq(ts, i),
    decreases ts, ts.len() - i,
{
    if 0 <= i < ts.len() {
        lemma_printer_line_per_node(ts[i], layer);
        lemma_printer_seq_line_per_node(ts, i + 1, layer);
        lemma_newline_count_add(printer_token_text(ts[i], layer), printer_seq_text(ts, i + 1, layer));
    }
}

/// Appends the indentation of the given depth.
fn append_tabs(out: &mut String, layer: usize)
    ensures
        final(out)@ == old(out)@ + tabs(layer as nat),
{
    let mut k: usize = 0;
    proof {
        assert(out@ =~= old(out)@ + tabs(0));
    }
    #[verifier::loop_isolation(false)]
    while k < layer
        invariant
            k <= layer,
            out@ == old(out)@ + tabs(k as nat),
        decreases layer - k,
    {
        push_char(out, '\t');
        k = k + 1;
    }
}

/// Appends one token's diagnostic line, indented by `layer`.
fn printer_token(t: &Token, layer: usize, out: &mut String)
    ensures
        final(out)@ == old(out)@ + printer_token_text(*t, layer),
    decreases *t, 0int,
{
    append_tabs(out, layer);
    match t {
        Token::Group(_, ts) => {
            out.append("group:\n");
            let next = if layer < usize::MAX {
                layer + 1
            } else {
                layer
            };
            let ghost base = out@;
            let n = ts.len();
            let mut i: usize = 0;
            #[verifier::loop_isolation(false)]
            while i < n
                invariant
                    i <= n,
                    n == ts@.len(),
                    base + printer_seq_text(ts@, 0, next) == out@ + printer_seq_text(
                        ts@,
                        i as int,
                        next,
                    ),
                decreases n - i,
            {
                printer_token(&ts[i], next, out);
                i = i + 1;
            }
            proof {
                assert(out@ =~= old(out)@ + printer_token_text(*t, layer));
            }
        },
        Token::Ident(s) => {
            out.append("ident: ");
            out.append(s.as_str());
            out.append("\n");
            proof {
                assert(out@ =~= old(out)@ + printer_token_text(*t, layer));
            }
        },
        Token::IntLit(s) => {
            out.append("literal: ");
            out.append(s.as_str());
            out.append("\n");
            proof {
                assert(out@ =~= old(out)@ + printer_token_text(*t, layer));
            }
        },
        Token::StrLit(s) => {
            out.append("literal: ");
            push_char(out, '"');
            let e = escape_content(s);
            out.append(e.as_str());
            push_char(out, '"');
            out.append("\n");
            proof {
                assert(out@ =~= old(out)@ + printer_token_text(*t, layer));
            }
        },
        Token::Punct(c) => {
            out.append("punct: ");
            push_char(out, *c);
            out.append("\n");
            proof {
                assert(out@ =~= old(out)@ + printer_token_text(*t, layer));
            }
        },
    }
}

/// Renders a token sequence for human inspection, each token on its own
/// line, nested groups indented one level deeper than their parent.
pub fn printer(input: &Vec<Token>, layer: usize, out: &mut String)
    ensures
        final(out)@ == old(out)@ + printer_seq_text(input@, 0, layer),
{
    let n = input.len();
    let mut i: usize = 0;
    proof {
        assert(out@ =~= out@ + Seq::<char>::empty());
    }
    #[verifier::loop_isolation(false)]
    while i < n
        invariant
            i <= n,
            n == input@.len(),
            old(out)@ + printer_seq_text(input@, 0, layer) == out@ + printer_seq_text(
                input@,
                i as int,
                layer,
            ),
        decreases n - i,
    {
        printer_token(&input[i], layer, out);
        i = i + 1;
    }
    proof {
        assert(out@ =~= out@ + Seq::<char>::empty());
    }
}

} // verus!
