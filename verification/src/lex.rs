//! A tokenizer for a simplified form of the host grammar: identifiers,
//! integer literals, escaped string literals, punctuation marks and
//! nested bracket groups. The captured output of an executed snippet is
//! re-parsed through it into a token sequence.
//!
//! The grammar is ASCII: a byte outside it is refused with
//! [`LexError::BadByte`] wherever it stands, inside a string literal
//! included. Content beyond printable ASCII enters a string literal only
//! through the escapes the grammar names.

use vstd::prelude::*;

use crate::token::{Delim, Token};

verus! {

/// The failures of tokenizing. Each aborts the re-parse; there is no
/// recovery.
#[derive(Clone, Copy, PartialEq, Eq, Structural, Debug)]
pub enum LexError {
    /// A byte outside the simplified grammar: not ASCII, or a control
    /// character.
    BadByte,
    /// A string literal was still open when the input ended.
    Unterminated,
    /// A backslash escape that the grammar does not know.
    BadEscape,
    /// A closing bracket with no group open.
    UnmatchedClose,
    /// A closing bracket of the wrong delimiter kind.
    MismatchedClose,
    /// A group was still open when the input ended.
    UnclosedGroup,
}

/// The mathematical shape of one token: the token tree with its texts as
/// character sequences.
pub enum TokenV {
    Word(Seq<char>),
    Num(Seq<char>),
    Text(Seq<char>),
    Mark(char),
    Tree(Delim, Seq<TokenV>),
}

/// The mathematical shape of one scanned flat item: a leaf token or a
/// bracket.
pub enum FlatV {
    Word(Seq<char>),
    Num(Seq<char>),
    Text(Seq<char>),
    Mark(char),
    Open(Delim),
    Close(Delim),
}

/// One scanned flat item, before grouping.
pub enum Flat {
    Word(String),
    Num(String),
    Text(String),
    Mark(char),
    Open(Delim),
    Close(Delim),
}

/// The shape of a token.
pub open spec fn token_model(t: Token) -> TokenV
    decreases t, 0int,
{
    match t {
        Token::Ident(s) => TokenV::Word(s@),
        Token::IntLit(s) => TokenV::Num(s@),
        Token::StrLit(s) => TokenV::Text(s@),
        Token::Punct(c) => TokenV::Mark(c),
        Token::Group(d, ts) => TokenV::Tree(d, seq_model_from(ts@, 0)),
    }
}

pub open spec fn seq_model_from(ts: Seq<Token>, i: int) -> Seq<TokenV>
    decreases ts, ts.len() - i,
{
    if 0 <= i < ts.len() {
        seq![token_model(ts[i])] + seq_model_from(ts, i + 1)
    } else {
        Seq::<TokenV>::empty()
    }
}

/// The shape of a token sequence.
pub open spec fn seq_model(ts: Seq<Token>) -> Seq<TokenV> {
    seq_model_from(ts, 0)
}

pub proof fn lemma_seq_model_index(ts: Seq<Token>, i: int, k: int)
    requires
        0 <= i <= ts.len(),
    ensures
        seq_model_from(ts, i).len() == ts.len() - i,
        0 <= k < ts.len() - i ==> seq_model_from(ts, i)[k] == token_model(ts[i + k]),
    decreases ts.len() - i,
{
    if i < ts.len() {
        lemma_seq_model_index(ts, i + 1, k - 1);
    }
}

/// A token sequence whose shape is one token holds exactly one token of
/// that shape: how a caller reads the tokenizer's result back.
pub proof fn lemma_single_token_shape(ts: Seq<Token>, v: TokenV)
    requires
        seq_model(ts) == seq![v],
    ensures
        ts.len() == 1,
        token_model(ts[0]) == v,
{
    lemma_seq_model_index(ts, 0, 0);
}

/// Appending one token appends its shape.
pub proof fn lemma_seq_model_snoc(ts: Seq<Token>, t: Token, i: int)
    requires
        0 <= i <= ts.len(),
    ensures
        seq_model_from(ts.push(t), i) == seq_model_from(ts, i) + seq![token_model(t)],
    decreases ts.len() - i,
{
    if i < ts.len() {
        assert(ts.push(t)[i] == ts[i]);
        lemma_seq_model_snoc(ts, t, i + 1);
        assert(seq_model_from(ts.push(t), i) =~= seq_model_from(ts, i) + seq![token_model(t)]);
    } else {
        assert(ts.push(t)[i] == t);
        assert(seq_model_from(ts.push(t), i + 1) =~= Seq::<TokenV>::empty());
        assert(seq_model_from(ts.push(t), i) =~= seq_model_from(ts, i) + seq![token_model(t)]);
    }
}

pub open spec fn flat_model1(f: Flat) -> FlatV {
    match f {
        Flat::Word(s) => FlatV::Word(s@),
        Flat::Num(s) => FlatV::Num(s@),
        Flat::Text(s) => FlatV::Text(s@),
        Flat::Mark(c) => FlatV::Mark(c),
        Flat::Open(d) => FlatV::Open(d),
        Flat::Close(d) => FlatV::Close(d),
    }
}

pub open spec fn flat_model_from(fs: Seq<Flat>, i: int) -> Seq<FlatV>
    decreases fs.len() - i,
{
    if 0 <= i < fs.len() {
        seq![flat_model1(fs[i])] + flat_model_from(fs, i + 1)
    } else {
        Seq::<FlatV>::empty()
    }
}

pub open spec fn flat_model(fs: Seq<Flat>) -> Seq<FlatV> {
    flat_model_from(fs, 0)
}

pub proof fn lemma_flat_model_index(fs: Seq<Flat>, i: int, k: int)
    requires
        0 <= i <= fs.len(),
    ensures
        flat_model_from(fs, i).len() == fs.len() - i,
        0 <= k < fs.len() - i ==> flat_model_from(fs, i)[k] == flat_model1(fs[i + k]),
    decreases fs.len() - i,
{
    if i < fs.len() {
        lemma_flat_model_index(fs, i + 1, k - 1);
    }
}

pub proof fn lemma_flat_model_snoc(fs: Seq<Flat>, f: Flat, i: int)
    requires
        0 <= i <= fs.len(),
    ensures
        flat_model_from(fs.push(f), i) == flat_model_from(fs, i) + seq![flat_model1(f)],
    decreases fs.len() - i,
{
    if i < fs.len() {
        assert(fs.push(f)[i] == fs[i]);
        lemma_flat_model_snoc(fs, f, i + 1);
        assert(flat_model_from(fs.push(f), i) =~= flat_model_from(fs, i) + seq![flat_model1(f)]);
    } else {
        assert(fs.push(f)[i] == f);
        assert(flat_model_from(fs.push(f), i + 1) =~= Seq::<FlatV>::empty());
        assert(flat_model_from(fs.push(f), i) =~= flat_model_from(fs, i) + seq![flat_model1(f)]);
    }
}

// --- byte classes of the simplified grammar ---

/// Space, tab, line feed, carriage return.
pub open spec fn is_space_b(b: u8) -> bool {
    b == 32 || b == 9 || b == 10 || b == 13
}

/// An ASCII decimal digit.
pub open spec fn is_digit_b(b: u8) -> bool {
    48 <= b <= 57
}

/// A letter or an underscore: what may start an identifier.
pub open spec fn is_word_start_b(b: u8) -> bool {
    (65 <= b <= 90) || (97 <= b <= 122) || b == 95
}

/// What may continue an identifier.
pub open spec fn is_word_b(b: u8) -> bool {
    is_word_start_b(b) || is_digit_b(b)
}

/// The characters of a byte range, one character per byte.
pub open spec fn chars_range(s: Seq<u8>, i: int, e: int) -> Seq<char>
    decreases e - i,
{
    if 0 <= i < e <= s.len() {
        seq![s[i] as char] + chars_range(s, i + 1, e)
    } else {
        Seq::<char>::empty()
    }
}

/// The first index at or after `p` whose byte no longer continues an
/// identifier, or the input's end.
pub open spec fn word_end(s: Seq<u8>, p: int) -> int
    decreases s.len() - p,
{
    if 0 <= p < s.len() && is_word_b(s[p]) {
        word_end(s, p + 1)
    } else {
        p
    }
}

pub proof fn lemma_word_end_eq(s: Seq<u8>, p: int, q: int)
    requires
        0 <= p <= q <= s.len(),
        forall|j: int| p <= j < q ==> is_word_b(s[j]),
        q == s.len() || !is_word_b(s[q]),
    ensures
        word_end(s, p) == q,
    decreases q - p,
{
    if p < q {
        lemma_word_end_eq(s, p + 1, q);
    }
}

/// The first index at or after `p` whose byte is not a digit, or the
/// input's end.
pub open spec fn digit_end(s: Seq<u8>, p: int) -> int
    decreases s.len() - p,
{
    if 0 <= p < s.len() && is_digit_b(s[p]) {
        digit_end(s, p + 1)
    } else {
        p
    }
}

pub proof fn lemma_digit_end_eq(s: Seq<u8>, p: int, q: int)
    requires
        0 <= p <= q <= s.len(),
        forall|j: int| p <= j < q ==> is_digit_b(s[j]),
        q == s.len() || !is_digit_b(s[q]),
    ensures
        digit_end(s, p) == q,
    decreases q - p,
{
    if p < q {
        lemma_digit_end_eq(s, p + 1, q);
    }
}

/// What a backslash escape resolves to, if the grammar knows it.
pub open spec fn esc_char(b: u8) -> Option<char> {
    if b == 34 {
        Some('"')
    } else if b == 92 {
        Some('\\')
    } else if b == 110 {
        Some('\n')
    } else if b == 116 {
        Some('\t')
    } else if b == 114 {
        Some('\r')
    } else {
        None
    }
}

/// A byte the grammar accepts inside a string literal without escaping:
/// printable ASCII other than quote and backslash.
pub open spec fn is_plain_str_b(b: u8) -> bool {
    32 <= b <= 126 && b != 34 && b != 92
}

/// The index of the closing quote of a string whose content starts at
/// `i`, respecting escapes, or `s.len() + 1` if the string never closes.
pub open spec fn str_stop(s: Seq<u8>, i: int) -> int
    decreases s.len() - i,
{
    if i < 0 || i >= s.len() {
        s.len() + 1int
    } else if s[i] == 34 {
        i
    } else if s[i] == 92 {
        if i + 1 < s.len() {
            str_stop(s, i + 2)
        } else {
            s.len() + 1int
        }
    } else {
        str_stop(s, i + 1)
    }
}

/// The resolved content of a string whose content starts at `i`: each
/// escape replaced by the character it names, up to the closing quote.
pub open spec fn str_tail(s: Seq<u8>, i: int) -> Result<Seq<char>, LexError>
    decreases s.len() - i,
{
    if i < 0 || i >= s.len() {
        Err(LexError::Unterminated)
    } else if s[i] == 34 {
        Ok(Seq::<char>::empty())
    } else if s[i] == 92 {
        if i + 1 < s.len() {
            match esc_char(s[i + 1]) {
                Some(c) => match str_tail(s, i + 2) {
                    Ok(r) => Ok(seq![c] + r),
                    Err(e) => Err(e),
                },
                None => Err(LexError::BadEscape),
            }
        } else {
            Err(LexError::Unterminated)
        }
    } else if is_plain_str_b(s[i]) {
        match str_tail(s, i + 1) {
            Ok(r) => Ok(seq![s[i] as char] + r),
            Err(e) => Err(e),
        }
    } else {
        Err(LexError::BadByte)
    }
}

/// Prepending one flat item to a scan outcome.
pub open spec fn cons_flat(f: FlatV, r: Result<Seq<FlatV>, LexError>) -> Result<
    Seq<FlatV>,
    LexError,
> {
    match r {
        Ok(v) => Ok(seq![f] + v),
        Err(e) => Err(e),
    }
}

pub open spec fn delim_of_open(b: u8) -> Delim {
    if b == 40 {
        Delim::Paren
    } else if b == 91 {
        Delim::Bracket
    } else {
        Delim::Brace
    }
}

pub open spec fn delim_of_close(b: u8) -> Delim {
    if b == 41 {
        Delim::Paren
    } else if b == 93 {
        Delim::Bracket
    } else {
        Delim::Brace
    }
}

/// The scan of the input from position `p` on: the flat items its bytes
/// spell, or the first failure.
pub open spec fn scan_from(s: Seq<u8>, p: int) -> Result<Seq<FlatV>, LexError>
    decreases s.len() - p,
{
    if p < 0 {
        Err(LexError::BadByte)
    } else if p >= s.len() {
        Ok(Seq::<FlatV>::empty())
    } else {
        let b = s[p];
        if is_space_b(b) {
            scan_from(s, p + 1)
        } else if is_word_start_b(b) {
            let q = word_end(s, p);
            if p < q <= s.len() {
                cons_flat(FlatV::Word(chars_range(s, p, q)), scan_from(s, q))
            } else {
                Err(LexError::BadByte)
            }
        } else if is_digit_b(b) {
            let q = digit_end(s, p);
            if p < q <= s.len() {
                cons_flat(FlatV::Num(chars_range(s, p, q)), scan_from(s, q))
            } else {
                Err(LexError::BadByte)
            }
        } else if b == 34 {
            match str_tail(s, p + 1) {
                Err(e) => Err(e),
                Ok(c) => {
                    let q = str_stop(s, p + 1);
                    if p < q < s.len() {
                        cons_flat(FlatV::Text(c), scan_from(s, q + 1))
                    } else {
                        Err(LexError::Unterminated)
                    }
                },
            }
        } else if b == 40 || b == 91 || b == 123 {
            cons_flat(FlatV::Open(delim_of_open(b)), scan_from(s, p + 1))
        } else if b == 41 || b == 93 || b == 125 {
            cons_flat(FlatV::Close(delim_of_close(b)), scan_from(s, p + 1))
        } else if 33 <= b <= 126 {
            cons_flat(FlatV::Mark(b as char), scan_from(s, p + 1))
        } else {
            Err(LexError::BadByte)
        }
    }
}

/// Grouping the flat items into a token tree with an explicit stack of
/// open groups: the items from `i` on, folded onto the open group `cur`
/// under the still-open outer groups `stack`.
pub open spec fn build_from(
    fs: Seq<FlatV>,
    i: int,
    stack: Seq<(Delim, Seq<TokenV>)>,
    cur: Seq<TokenV>,
) -> Result<Seq<TokenV>, LexError>
    decreases fs.len() - i,
{
    if i < 0 || i >= fs.len() {
        if stack.len() == 0 {
            Ok(cur)
        } else {
            Err(LexError::UnclosedGroup)
        }
    } else {
        match fs[i] {
            FlatV::Word(t) => build_from(fs, i + 1, stack, cur.push(TokenV::Word(t))),
            FlatV::Num(t) => build_from(fs, i + 1, stack, cur.push(TokenV::Num(t))),
            FlatV::Text(t) => build_from(fs, i + 1, stack, cur.push(TokenV::Text(t))),
            FlatV::Mark(c) => build_from(fs, i + 1, stack, cur.push(TokenV::Mark(c))),
            FlatV::Open(d) => build_from(fs, i + 1, stack.push((d, cur)), Seq::<TokenV>::empty()),
            FlatV::Close(d) => {
                if stack.len() == 0 {
                    Err(LexError::UnmatchedClose)
                } else if stack.last().0 != d {
                    Err(LexError::MismatchedClose)
                } else {
                    build_from(
                        fs,
                        i + 1,
                        stack.drop_last(),
                        stack.last().1.push(TokenV::Tree(d, cur)),
                    )
                }
            },
        }
    }
}

/// What tokenizing an input means: scan it flat, then group it.
pub open spec fn lex_spec(s: Seq<u8>) -> Result<Seq<TokenV>, LexError> {
    match scan_from(s, 0) {
        Err(e) => Err(e),
        Ok(fs) => build_from(fs, 0, Seq::<(Delim, Seq<TokenV>)>::empty(), Seq::<TokenV>::empty()),
    }
}

/// Prepending already-scanned items to a scan outcome.
pub open spec fn scan_join(prefix: Seq<FlatV>, rest: Result<Seq<FlatV>, LexError>) -> Result<
    Seq<FlatV>,
    LexError,
> {
    match rest {
        Ok(v) => Ok(prefix + v),
        Err(e) => Err(e),
    }
}

/// Prepending resolved content to a string-scan outcome.
pub open spec fn ok_prepend(c: Seq<char>, r: Result<Seq<char>, LexError>) -> Result<
    Seq<char>,
    LexError,
> {
    match r {
        Ok(v) => Ok(c + v),
        Err(e) => Err(e),
    }
}

pub proof fn lemma_chars_range_snoc(s: Seq<u8>, i: int, e: int)
    requires
        0 <= i <= e < s.len(),
    ensures
        chars_range(s, i, e + 1) == chars_range(s, i, e) + seq![s[e] as char],
    decreases e - i,
{
    if i < e {
        lemma_chars_range_snoc(s, i + 1, e);
        assert(chars_range(s, i, e + 1) =~= chars_range(s, i, e) + seq![s[e] as char]);
    } else {
        assert(chars_range(s, e + 1, e + 1) =~= Seq::<char>::empty());
        assert(chars_range(s, i, e) =~= Seq::<char>::empty());
        assert(chars_range(s, i, e + 1) =~= chars_range(s, i, e) + seq![s[e] as char]);
    }
}

/// Items already scanned may absorb the next one.
pub proof fn lemma_scan_join_push(pre: Seq<FlatV>, f: FlatV, rest: Result<Seq<FlatV>, LexError>)
    ensures
        scan_join(pre + seq![f], rest) == scan_join(pre, cons_flat(f, rest)),
{
    match rest {
        Ok(v) => {
            assert((pre + seq![f]) + v =~= pre + (seq![f] + v));
        },
        Err(_) => {},
    }
}

/// The maximal identifier run starting at `p`, with its text.
fn word_run(s: &Vec<u8>, p: usize) -> (r: (usize, String))
    requires
        p < s@.len(),
        is_word_b(s@[p as int]),
    ensures
        p < r.0 <= s@.len(),
        r.0 == word_end(s@, p as int),
        r.1@ == chars_range(s@, p as int, r.0 as int),
{
    let n = s.len();
    let mut q: usize = p + 1;
    let mut w = String::new();
    crate::token::push_char(&mut w, s[p] as char);
    proof {
        assert(chars_range(s@, p + 1, p + 1) =~= Seq::<char>::empty());
        assert(w@ =~= chars_range(s@, p as int, p + 1));
    }
    let mut scanning = true;
    #[verifier::loop_isolation(false)]
    while scanning
        invariant
            p < q <= n,
            forall|j: int| p <= j < q ==> is_word_b(s@[j]),
            w@ == chars_range(s@, p as int, q as int),
            !scanning ==> (q == n || !is_word_b(s@[q as int])),
        decreases n - q, (if scanning {
            1int
        } else {
            0int
        }),
    {
        if q < n {
            let b = s[q];
            if (65 <= b && b <= 90) || (97 <= b && b <= 122) || b == 95 || (48 <= b && b <= 57) {
                proof {
                    lemma_chars_range_snoc(s@, p as int, q as int);
                }
                crate::token::push_char(&mut w, b as char);
                q = q + 1;
            } else {
                scanning = false;
            }
        } else {
            scanning = false;
        }
    }
    proof {
        lemma_word_end_eq(s@, p as int, q as int);
    }
    (q, w)
}

/// The maximal digit run starting at `p`, with its text.
fn digit_run(s: &Vec<u8>, p: usize) -> (r: (usize, String))
    requires
        p < s@.len(),
        is_digit_b(s@[p as int]),
    ensures
        p < r.0 <= s@.len(),
        r.0 == digit_end(s@, p as int),
        r.1@ == chars_range(s@, p as int, r.0 as int),
{
    let n = s.len();
    let mut q: usize = p + 1;
    let mut w = String::new();
    crate::token::push_char(&mut w, s[p] as char);
    proof {
        assert(chars_range(s@, p + 1, p + 1) =~= Seq::<char>::empty());
        assert(w@ =~= chars_range(s@, p as int, p + 1));
    }
    let mut scanning = true;
    #[verifier::loop_isolation(false)]
    while scanning
        invariant
            p < q <= n,
            forall|j: int| p <= j < q ==> is_digit_b(s@[j]),
            w@ == chars_range(s@, p as int, q as int),
            !scanning ==> (q == n || !is_digit_b(s@[q as int])),
        decreases n - q, (if scanning {
            1int
        } else {
            0int
        }),
    {
        if q < n {
            let b = s[q];
            if 48 <= b && b <= 57 {
                proof {
                    lemma_chars_range_snoc(s@, p as int, q as int);
                }
                crate::token::push_char(&mut w, b as char);
                q = q + 1;
            } else {
                scanning = false;
            }
        } else {
            scanning = false;
        }
    }
    proof {
        lemma_digit_end_eq(s@, p as int, q as int);
    }
    (q, w)
}

/// Scans the input bytes into their flat items, or reports the first
/// failure, exactly as `scan_from` says.
fn scan(s: &Vec<u8>) -> (r: Result<Vec<Flat>, LexError>)
    ensures
        match r {
            Ok(fs) => scan_from(s@, 0) == Ok::<Seq<FlatV>, LexError>(flat_model(fs@)),
            Err(e) => scan_from(s@, 0) == Err::<Seq<FlatV>, LexError>(e),
        },
{
    let n = s.len();
    let mut out: Vec<Flat> = Vec::new();
    let mut p: usize = 0;
    proof {
        assert(flat_model(out@) =~= Seq::<FlatV>::empty());
    }
    #[verifier::loop_isolation(false)]
    while p < n
        invariant
            p <= n,
            scan_join(flat_model(out@), scan_from(s@, p as int)) == scan_from(s@, 0),
        decreases n - p,
    {
        let b = s[p];
        if b == 32 || b == 9 || b == 10 || b == 13 {
            p = p + 1;
        } else if (65 <= b && b <= 90) || (97 <= b && b <= 122) || b == 95 {
            let (q, w) = word_run(s, p);
            proof {
                lemma_flat_model_snoc(out@, Flat::Word(w), 0);
                lemma_scan_join_push(
                    flat_model(out@),
                    FlatV::Word(w@),
                    scan_from(s@, q as int),
                );
            }
            out.push(Flat::Word(w));
            p = q;
        } else if 48 <= b && b <= 57 {
            let (q, w) = digit_run(s, p);
            proof {
                lemma_flat_model_snoc(out@, Flat::Num(w), 0);
                lemma_scan_join_push(flat_model(out@), FlatV::Num(w@), scan_from(s@, q as int));
            }
            out.push(Flat::Num(w));
            p = q;
        } else if b == 34 {
            // A string literal: resolve its escapes up to the closing
            // quote.
            let mut i: usize = p + 1;
            let mut content = String::new();
            let mut closed = false;
            proof {
                assert(content@ + Seq::<char>::empty() =~= content@);
            }
            #[verifier::loop_isolation(false)]
            while !closed
                invariant
                    p + 1 <= i <= n,
                    str_stop(s@, p + 1) == str_stop(s@, i as int),
                    str_tail(s@, p + 1) == ok_prepend(content@, str_tail(s@, i as int)),
                    closed ==> (i < n && s@[i as int] == 34),
                decreases n - i, (if closed {
                    0int
                } else {
                    1int
                }),
            {
                if i >= n {
                    return Err(LexError::Unterminated);
                }
                let c = s[i];
                if c == 34 {
                    closed = true;
                } else if c == 92 {
                    if i + 1 >= n {
                        return Err(LexError::Unterminated);
                    }
                    let e = s[i + 1];
                    let resolved: char = if e == 34 {
                        '"'
                    } else if e == 92 {
                        '\\'
                    } else if e == 110 {
                        '\n'
                    } else if e == 116 {
                        '\t'
                    } else if e == 114 {
                        '\r'
                    } else {
                        return Err(LexError::BadEscape);
                    };
                    proof {
                        let rest = str_tail(s@, i + 2);
                        match rest {
                            Ok(v) => {
                                assert(content@ + (seq![resolved] + v) =~= (content@
                                    + seq![resolved]) + v);
                            },
                            Err(_) => {},
                        }
                    }
                    crate::token::push_char(&mut content, resolved);
                    i = i + 2;
                } else if 32 <= c && c <= 126 {
                    proof {
                        let rest = str_tail(s@, i + 1);
                        match rest {
                            Ok(v) => {
                                assert(content@ + (seq![c as char] + v) =~= (content@ + seq![
                                    c as char,
                                ]) + v);
                            },
                            Err(_) => {},
                        }
                    }
                    crate::token::push_char(&mut content, c as char);
                    i = i + 1;
                } else {
                    return Err(LexError::BadByte);
                }
            }
            proof {
                assert(str_tail(s@, i as int) == Ok::<Seq<char>, LexError>(Seq::<char>::empty()));
                assert(content@ + Seq::<char>::empty() =~= content@);
                assert(str_tail(s@, p + 1) == Ok::<Seq<char>, LexError>(content@));
                assert(str_stop(s@, p + 1) == i);
                lemma_flat_model_snoc(out@, Flat::Text(content), 0);
                lemma_scan_join_push(
                    flat_model(out@),
                    FlatV::Text(content@),
                    scan_from(s@, i + 1),
                );
            }
            out.push(Flat::Text(content));
            p = i + 1;
        } else if b == 40 || b == 91 || b == 123 {
            let d = if b == 40 {
                Delim::Paren
            } else if b == 91 {
                Delim::Bracket
            } else {
                Delim::Brace
            };
            proof {
                lemma_flat_model_snoc(out@, Flat::Open(d), 0);
                lemma_scan_join_push(flat_model(out@), FlatV::Open(d), scan_from(s@, p + 1));
            }
            out.push(Flat::Open(d));
            p = p + 1;
        } else if b == 41 || b == 93 || b == 125 {
            let d = if b == 41 {
                Delim::Paren
            } else if b == 93 {
                Delim::Bracket
            } else {
                Delim::Brace
            };
            proof {
                lemma_flat_model_snoc(out@, Flat::Close(d), 0);
                lemma_scan_join_push(flat_model(out@), FlatV::Close(d), scan_from(s@, p + 1));
            }
            out.push(Flat::Close(d));
            p = p + 1;
        } else if 33 <= b && b <= 126 {
            proof {
                lemma_flat_model_snoc(out@, Flat::Mark(b as char), 0);
                lemma_scan_join_push(
                    flat_model(out@),
                    FlatV::Mark(b as char),
                    scan_from(s@, p + 1),
                );
            }
            out.push(Flat::Mark(b as char));
            p = p + 1;
        } else {
            return Err(LexError::BadByte);
        }
    }
    proof {
        assert(flat_model(out@) + Seq::<FlatV>::empty() =~= flat_model(out@));
    }
    Ok(out)
}

/// The shape of the builder's stack of open groups.
pub open spec fn stack_model_from(st: Seq<(Delim, Vec<Token>)>, i: int) -> Seq<
    (Delim, Seq<TokenV>),
>
    decreases st.len() - i,
{
    if 0 <= i < st.len() {
        seq![(st[i].0, seq_model(st[i].1@))] + stack_model_from(st, i + 1)
    } else {
        Seq::<(Delim, Seq<TokenV>)>::empty()
    }
}

pub open spec fn stack_model(st: Seq<(Delim, Vec<Token>)>) -> Seq<(Delim, Seq<TokenV>)> {
    stack_model_from(st, 0)
}

pub proof fn lemma_stack_model_index(st: Seq<(Delim, Vec<Token>)>, i: int, k: int)
    requires
        0 <= i <= st.len(),
    ensures
        stack_model_from(st, i).len() == st.len() - i,
        0 <= k < st.len() - i ==> stack_model_from(st, i)[k] == (
            st[i + k].0,
            seq_model(st[i + k].1@),
        ),
    decreases st.len() - i,
{
    if i < st.len() {
        lemma_stack_model_index(st, i + 1, k - 1);
    }
}

pub proof fn lemma_stack_model_snoc(st: Seq<(Delim, Vec<Token>)>, x: (Delim, Vec<Token>), i: int)
    requires
        0 <= i <= st.len(),
    ensures
        stack_model_from(st.push(x), i) == stack_model_from(st, i) + seq![
            (x.0, seq_model(x.1@)),
        ],
    decreases st.len() - i,
{
    if i < st.len() {
        assert(st.push(x)[i] == st[i]);
        lemma_stack_model_snoc(st, x, i + 1);
        assert(stack_model_from(st.push(x), i) =~= stack_model_from(st, i) + seq![
            (x.0, seq_model(x.1@)),
        ]);
    } else {
        assert(st.push(x)[i] == x);
        assert(stack_model_from(st.push(x), i + 1) =~= Seq::<(Delim, Seq<TokenV>)>::empty());
        assert(stack_model_from(st.push(x), i) =~= stack_model_from(st, i) + seq![
            (x.0, seq_model(x.1@)),
        ]);
    }
}

/// Groups the flat items into a token tree, exactly as `build_from` says.
#[verifier::rlimit(60)]
fn build(fs: &Vec<Flat>) -> (r: Result<Vec<Token>, LexError>)
    ensures
        ({
            let outcome = build_from(
                flat_model(fs@),
                0,
                Seq::<(Delim, Seq<TokenV>)>::empty(),
                Seq::<TokenV>::empty(),
            );
            match r {
                Ok(ts) => outcome == Ok::<Seq<TokenV>, LexError>(seq_model(ts@)),
                Err(e) => outcome == Err::<Seq<TokenV>, LexError>(e),
            }
        }),
{
    let ghost fsv = flat_model(fs@);
    let n = fs.len();
    let mut stack: Vec<(Delim, Vec<Token>)> = Vec::new();
    let mut cur: Vec<Token> = Vec::new();
    let mut i: usize = 0;
    proof {
        assert(stack_model(stack@) =~= Seq::<(Delim, Seq<TokenV>)>::empty());
        assert(seq_model(cur@) =~= Seq::<TokenV>::empty());
        lemma_flat_model_index(fs@, 0, 0);
    }
    #[verifier::loop_isolation(false)]
    while i < n
        invariant
            i <= n,
            build_from(fsv, i as int, stack_model(stack@), seq_model(cur@)) == build_from(
                fsv,
                0,
                Seq::<(Delim, Seq<TokenV>)>::empty(),
                Seq::<TokenV>::empty(),
            ),
        decreases n - i,
    {
        proof {
            lemma_flat_model_index(fs@, 0, i as int);
        }
        match &fs[i] {
            Flat::Word(s) => {
                let t = Token::Ident(s.clone());
                proof {
                    lemma_seq_model_snoc(cur@, t, 0);
                    assert(seq_model(cur@) + seq![token_model(t)] =~= seq_model(cur@).push(
                        TokenV::Word(s@),
                    ));
                }
                cur.push(t);
            },
            Flat::Num(s) => {
                let t = Token::IntLit(s.clone());
                proof {
                    lemma_seq_model_snoc(cur@, t, 0);
                    assert(seq_model(cur@) + seq![token_model(t)] =~= seq_model(cur@).push(
                        TokenV::Num(s@),
                    ));
                }
                cur.push(t);
            },
            Flat::Text(s) => {
                let t = Token::StrLit(s.clone());
                proof {
                    lemma_seq_model_snoc(cur@, t, 0);
                    assert(seq_model(cur@) + seq![token_model(t)] =~= seq_model(cur@).push(
                        TokenV::Text(s@),
                    ));
                }
                cur.push(t);
            },
            Flat::Mark(c) => {
                let t = Token::Punct(*c);
                proof {
                    lemma_seq_model_snoc(cur@, t, 0);
                    assert(seq_model(cur@) + seq![token_model(t)] =~= seq_model(cur@).push(
                        TokenV::Mark(*c),
                    ));
                }
                cur.push(t);
            },
            Flat::Open(d) => {
                let prev = cur;
                cur = Vec::new();
                proof {
                    lemma_stack_model_snoc(stack@, (*d, prev), 0);
                    assert(stack_model(stack@) + seq![(*d, seq_model(prev@))] =~= stack_model(
                        stack@,
                    ).push((*d, seq_model(prev@))));
                    assert(seq_model(cur@) =~= Seq::<TokenV>::empty());
                }
                stack.push((*d, prev));
            },
            Flat::Close(d) => {
                let ghost ost = stack@;
                let ghost ocur = cur@;
                proof {
                    lemma_stack_model_index(ost, 0, ost.len() - 1);
                }
                match stack.pop() {
                    None => {
                        proof {
                            assert(stack_model(ost) =~= Seq::<(Delim, Seq<TokenV>)>::empty());
                        }
                        return Err(LexError::UnmatchedClose);
                    },
                    Some((d2, prev)) => {
                        proof {
                            assert(ost =~= stack@.push((d2, prev)));
                            assert(stack_model(ost).len() == ost.len());
                            assert(stack_model(ost).last() == (d2, seq_model(prev@)));
                            lemma_stack_model_index(stack@, 0, 0);
                            assert forall|k2: int| 0 <= k2 < stack@.len() implies stack_model(
                                stack@,
                            )[k2] == stack_model(ost)[k2] by {
                                lemma_stack_model_index(stack@, 0, k2);
                                lemma_stack_model_index(ost, 0, k2);
                                assert(ost[k2] == stack@[k2]);
                            }
                            assert(stack_model(stack@) =~= stack_model(ost).drop_last());
                        }
                        if d2 != *d {
                            return Err(LexError::MismatchedClose);
                        }
                        let inner = cur;
                        let t = Token::Group(d2, inner);
                        cur = prev;
                        proof {
                            assert(token_model(t) == TokenV::Tree(d2, seq_model(ocur)));
                            lemma_seq_model_snoc(cur@, t, 0);
                            assert(seq_model(cur@) + seq![token_model(t)] =~= seq_model(
                                cur@,
                            ).push(token_model(t)));
                            assert(seq_model(cur@) == stack_model(ost).last().1);
                        }
                        cur.push(t);
                    },
                }
            },
        }
        i = i + 1;
    }
    if stack.len() == 0 {
        proof {
            assert(stack_model(stack@) =~= Seq::<(Delim, Seq<TokenV>)>::empty());
        }
        Ok(cur)
    } else {
        proof {
            lemma_stack_model_index(stack@, 0, 0);
        }
        Err(LexError::UnclosedGroup)
    }
}

/// Tokenizes input bytes under the simplified host grammar: exactly the
/// scan-and-group meaning `lex_spec` gives, with the first failure
/// reported.
pub fn lex(bytes: &Vec<u8>) -> (r: Result<Vec<Token>, LexError>)
    ensures
        r is Ok <==> lex_spec(bytes@) is Ok,
        r matches Err(e) ==> lex_spec(bytes@) == Err::<Seq<TokenV>, LexError>(e),
        r matches Ok(ts) ==> lex_spec(bytes@) == Ok::<Seq<TokenV>, LexError>(seq_model(ts@)),
{
    let fs = match scan(bytes) {
        Ok(fs) => fs,
        Err(e) => {
            return Err(e);
        },
    };
    match build(&fs) {
        Ok(ts) => Ok(ts),
        Err(e) => Err(e),
    }
}

/// A bare digit sequence re-parses as a single numeric literal holding
/// exactly those digits — not as a quoted text.
pub proof fn lemma_digits_reparse(s: Seq<u8>)
    requires
        s.len() > 0,
        forall|j: int| 0 <= j < s.len() ==> is_digit_b(s[j]),
    ensures
        lex_spec(s) == Ok::<Seq<TokenV>, LexError>(seq![TokenV::Num(chars_range(s, 0, s.len() as int))]),
{
    lemma_digit_end_eq(s, 0, s.len() as int);
    let num = FlatV::Num(chars_range(s, 0, s.len() as int));
    assert(scan_from(s, s.len() as int) == Ok::<Seq<FlatV>, LexError>(Seq::<FlatV>::empty()));
    assert(seq![num] + Seq::<FlatV>::empty() =~= seq![num]);
    assert(scan_from(s, 0) == Ok::<Seq<FlatV>, LexError>(seq![num]));
    let st0 = Seq::<(Delim, Seq<TokenV>)>::empty();
    let c0 = Seq::<TokenV>::empty();
    let tok = TokenV::Num(chars_range(s, 0, s.len() as int));
    assert(build_from(seq![num], 0, st0, c0) == build_from(seq![num], 1, st0, c0.push(tok)));
    assert(build_from(seq![num], 1, st0, c0.push(tok)) == Ok::<Seq<TokenV>, LexError>(
        c0.push(tok),
    ));
    assert(c0.push(tok) =~= seq![tok]);
}

/// The bytes of printable ASCII text, one byte per character.
pub open spec fn ascii_bytes(t: Seq<char>) -> Seq<u8> {
    t.map_values(|c: char| c as u8)
}

/// A printable ASCII character.
pub open spec fn printable(c: char) -> bool {
    32 <= c as u32 <= 126
}

/// A character the tokenizer can place in a text literal's content:
/// printable ASCII, or one of the control characters its escapes name.
pub open spec fn text_char(c: char) -> bool {
    printable(c) || c == '\n' || c == '\t' || c == '\r'
}

/// A printable character's byte names it back.
pub proof fn lemma_printable_byte(c: char)
    requires
        32 <= c as u32 <= 126,
    ensures
        c as u8 == c as u32,
        (c as u8) as char == c,
{
}

/// Resolving the escaped source form of printable content gives back
/// exactly that content, with the closing quote found right after it.
pub proof fn lemma_unescape_escape(s: Seq<u8>, i: int, content: Seq<char>)
    requires
        0 <= i,
        forall|j: int| 0 <= j < content.len() ==> text_char(content[j]),
        i + crate::token::escape_text(content).len() < s.len(),
        s.subrange(i, i + crate::token::escape_text(content).len() as int) == ascii_bytes(
            crate::token::escape_text(content),
        ),
        s[i + crate::token::escape_text(content).len()] == 34,
    ensures
        str_tail(s, i) == Ok::<Seq<char>, LexError>(content),
        str_stop(s, i) == i + crate::token::escape_text(content).len(),
    decreases content.len(),
{
    let esc = crate::token::escape_text(content);
    let m = esc.len() as int;
    assert forall|k: int| 0 <= k < m implies s[i + k] == (esc[k] as u8) by {
        assert(s.subrange(i, i + m)[k] == s[i + k]);
        assert(ascii_bytes(esc)[k] == (esc[k] as u8));
    }
    if content.len() == 0 {
        assert(esc =~= Seq::<char>::empty());
        assert(content =~= Seq::<char>::empty());
    } else {
        let c0 = content[0];
        let rest = content.subrange(1, content.len() as int);
        let head = if c0 == '"' {
            seq!['\\', '"']
        } else if c0 == '\\' {
            seq!['\\', '\\']
        } else if c0 == '\n' {
            seq!['\\', 'n']
        } else if c0 == '\t' {
            seq!['\\', 't']
        } else if c0 == '\r' {
            seq!['\\', 'r']
        } else {
            seq![c0]
        };
        assert(esc == head + crate::token::escape_text(rest));
        let hl = head.len() as int;
        let esc2 = crate::token::escape_text(rest);
        let m2 = esc2.len() as int;
        assert(m == hl + m2);
        assert forall|k: int| 0 <= k < m2 implies s.subrange(i + hl, i + hl + m2)[k]
            == ascii_bytes(esc2)[k] by {
            assert(s.subrange(i + hl, i + hl + m2)[k] == s[i + hl + k]);
            assert(esc[hl + k] == esc2[k]);
            assert(ascii_bytes(esc2)[k] == (esc2[k] as u8));
        }
        assert(s.subrange(i + hl, i + hl + m2) =~= ascii_bytes(esc2));
        assert(s[i + hl + m2] == 34);
        lemma_unescape_escape(s, i + hl, rest);
        if c0 == '"' {
            assert(esc[0] == '\\' && esc[1] == '"');
            assert(s[i] == 92 && s[i + 1] == 34);
            assert(esc_char(34) == Some('"'));
            assert(seq!['"'] + rest =~= content);
        } else if c0 == '\\' {
            assert(esc[0] == '\\' && esc[1] == '\\');
            assert(s[i] == 92 && s[i + 1] == 92);
            assert(esc_char(92) == Some('\\'));
            assert(seq!['\\'] + rest =~= content);
        } else if c0 == '\n' {
            assert(esc[0] == '\\' && esc[1] == 'n');
            assert(s[i] == 92 && s[i + 1] == 110);
            assert(esc_char(110) == Some('\n'));
            assert(seq!['\n'] + rest =~= content);
        } else if c0 == '\t' {
            assert(esc[0] == '\\' && esc[1] == 't');
            assert(s[i] == 92 && s[i + 1] == 116);
            assert(esc_char(116) == Some('\t'));
            assert(seq!['\t'] + rest =~= content);
        } else if c0 == '\r' {
            assert(esc[0] == '\\' && esc[1] == 'r');
            assert(s[i] == 92 && s[i + 1] == 114);
            assert(esc_char(114) == Some('\r'));
            assert(seq!['\r'] + rest =~= content);
        } else {
            assert(esc[0] == c0);
            assert(s[i] == c0 as u8);
            assert(printable(c0));
            lemma_printable_byte(c0);
            assert(s[i] != 34) by {
                if s[i] == 34 {
                    assert(c0 as u32 == '"' as u32);
                    assert(c0 == '"');
                }
            }
            assert(s[i] != 92) by {
                if s[i] == 92 {
                    assert(c0 as u32 == '\\' as u32);
                    assert(c0 == '\\');
                }
            }
            assert(is_plain_str_b(s[i]));
            assert((s[i] as char) == c0);
            assert(seq![c0] + rest =~= content);
        }
    }
}

/// A body that prints its content quoted and escaped comes back as
/// exactly one text literal holding that content: the quotes are stripped
/// and every escape is resolved. It holds for every content the
/// tokenizer itself can produce.
pub proof fn lemma_escaped_print_reparse(content: Seq<char>)
    requires
        forall|j: int| 0 <= j < content.len() ==> text_char(content[j]),
    ensures
        lex_spec(seq![34u8] + ascii_bytes(crate::token::escape_text(content)) + seq![34u8])
            == Ok::<Seq<TokenV>, LexError>(seq![TokenV::Text(content)]),
{
    let esc = crate::token::escape_text(content);
    let s = seq![34u8] + ascii_bytes(esc) + seq![34u8];
    let m = esc.len() as int;
    assert(ascii_bytes(esc).len() == m);
    assert(s.len() == m + 2);
    assert(s[0] == 34);
    assert(s[m + 1] == 34);
    assert(s.subrange(1, 1 + m) =~= ascii_bytes(esc));
    lemma_unescape_escape(s, 1, content);
    lemma_quoted_reparse(s, content);
}

/// A quoted sequence re-parses as a single text literal whose content is
/// the escaped form resolved: the quotes are stripped and each escape
/// stands for the character it names.
pub proof fn lemma_quoted_reparse(s: Seq<u8>, c: Seq<char>)
    requires
        s.len() >= 2,
        s[0] == 34,
        str_tail(s, 1) == Ok::<Seq<char>, LexError>(c),
        str_stop(s, 1) == s.len() - 1,
    ensures
        lex_spec(s) == Ok::<Seq<TokenV>, LexError>(seq![TokenV::Text(c)]),
{
    let text = FlatV::Text(c);
    assert(scan_from(s, s.len() as int) == Ok::<Seq<FlatV>, LexError>(Seq::<FlatV>::empty()));
    assert(seq![text] + Seq::<FlatV>::empty() =~= seq![text]);
    assert(scan_from(s, 0) == Ok::<Seq<FlatV>, LexError>(seq![text]));
    let st0 = Seq::<(Delim, Seq<TokenV>)>::empty();
    let c0 = Seq::<TokenV>::empty();
    let tok = TokenV::Text(c);
    assert(build_from(seq![text], 0, st0, c0) == build_from(seq![text], 1, st0, c0.push(tok)));
    assert(build_from(seq![text], 1, st0, c0.push(tok)) == Ok::<Seq<TokenV>, LexError>(
        c0.push(tok),
    ));
    assert(c0.push(tok) =~= seq![tok]);
}

} // verus!
