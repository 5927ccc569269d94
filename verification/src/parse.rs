//! The declaration parser: a single pass over a token sequence that
//! produces the structured model of a type declaration — its kind, its
//! name, its generic parameter tokens and its ordered field list.

use vstd::prelude::*;
use vstd::string::StringExecFns;

use crate::token::{
    find_comma, idx_where, is_colon, is_colon_t, is_comma_t, lemma_segments_len,
    lemma_segments_step, lemma_segments_whole, lemma_seq_text_subrange, render_range, segments,
    seq_text_range, token_text, token_to_string, Token,
};

verus! {

/// The kind of a parsed declaration: a structure or an enumeration.
#[derive(Clone, Copy, PartialEq, Eq, Structural, Debug)]
pub enum What {
    Struct,
    Enum,
}

/// The structural failures of declaration parsing. Each aborts the parse;
/// there is no recovery.
#[derive(Clone, Copy, PartialEq, Eq, Structural, Debug)]
pub enum ParseError {
    /// The input held no identifier naming a declaration kind.
    MissingKind,
    /// The input ended right after the kind keyword.
    MissingName,
    /// The token after the kind keyword was not an identifier.
    NameNotIdent,
    /// The input ended before any nested group supplied a field body.
    MissingBody,
    /// A field segment held fewer than three tokens.
    FieldTooShort,
    /// A field segment's second token was not the type-annotation separator.
    FieldNoColon,
}

/// One parsed field: its name and the glued text of its type.
pub struct Field {
    pub name: String,
    pub data_type: String,
}

/// The structured model of a parsed declaration.
pub struct DeriveData {
    pub what: What,
    pub name: String,
    pub generic: Vec<Token>,
    pub fields: Vec<Field>,
}

/// The declaration kind that a surface identifier names, if any.
pub open spec fn kind_of_text(s: Seq<char>) -> Option<What> {
    if s == "struct"@ {
        Some(What::Struct)
    } else if s == "enum"@ {
        Some(What::Enum)
    } else {
        None
    }
}

/// Whether this token is an identifier naming a declaration kind.
pub open spec fn is_kind_t(t: Token) -> bool {
    match t {
        Token::Ident(s) => kind_of_text(s@) is Some,
        _ => false,
    }
}

/// The declaration kind a kind token names.
pub open spec fn token_kind(t: Token) -> What {
    match t {
        Token::Ident(s) => match kind_of_text(s@) {
            Some(w) => w,
            None => What::Struct,
        },
        _ => What::Struct,
    }
}

pub open spec fn is_ident_t(t: Token) -> bool {
    match t {
        Token::Ident(_) => true,
        _ => false,
    }
}

pub open spec fn ident_text(t: Token) -> Seq<char> {
    match t {
        Token::Ident(s) => s@,
        _ => Seq::<char>::empty(),
    }
}

pub open spec fn is_group_t(t: Token) -> bool {
    match t {
        Token::Group(_, _) => true,
        _ => false,
    }
}

/// The interior token sequence of a group token.
pub open spec fn group_body(t: Token) -> Seq<Token> {
    match t {
        Token::Group(_, ts) => ts@,
        _ => Seq::<Token>::empty(),
    }
}

/// The index of the kind keyword: the first identifier naming a
/// declaration kind, or `ts.len()` if none stands in `ts`.
pub open spec fn kind_pos(ts: Seq<Token>) -> int {
    idx_where(ts, |t: Token| is_kind_t(t))
}

pub proof fn lemma_kind_pos(ts: Seq<Token>)
    ensures
        0 <= kind_pos(ts) <= ts.len(),
        kind_pos(ts) < ts.len() ==> is_kind_t(ts[kind_pos(ts)]),
        forall|j: int| 0 <= j < kind_pos(ts) ==> !is_kind_t(ts[j]),
    decreases ts.len(),
{
    if ts.len() > 0 && !is_kind_t(ts[0]) {
        lemma_kind_pos(ts.drop_first());
        assert forall|j: int| 0 <= j < kind_pos(ts) implies !is_kind_t(ts[j]) by {
            if j > 0 {
                assert(ts.drop_first()[j - 1] == ts[j]);
            }
        }
    }
}

/// The index of the first nested group among the tokens of `ts`, or
/// `ts.len()` if none stands there.
pub open spec fn group_idx(ts: Seq<Token>) -> int {
    idx_where(ts, |t: Token| is_group_t(t))
}

pub proof fn lemma_group_idx(ts: Seq<Token>)
    ensures
        0 <= group_idx(ts) <= ts.len(),
        group_idx(ts) < ts.len() ==> is_group_t(ts[group_idx(ts)]),
        forall|j: int| 0 <= j < group_idx(ts) ==> !is_group_t(ts[j]),
    decreases ts.len(),
{
    if ts.len() > 0 && !is_group_t(ts[0]) {
        lemma_group_idx(ts.drop_first());
        assert forall|j: int| 0 <= j < group_idx(ts) implies !is_group_t(ts[j]) by {
            if j > 0 {
                assert(ts.drop_first()[j - 1] == ts[j]);
            }
        }
    }
}

/// The index of the field-body group: the first nested group after the
/// declaration name, or `ts.len()` if none follows it.
pub open spec fn group_pos(ts: Seq<Token>) -> int {
    let np = kind_pos(ts) + 2;
    np + group_idx(ts.skip(np))
}

/// A well-shaped field segment: a name, the type-annotation separator, and
/// at least one type token.
pub open spec fn seg_ok(sg: Seq<Token>) -> bool {
    sg.len() >= 3 && is_colon_t(sg[1])
}

/// The name a field segment declares: the text of its first token.
pub open spec fn field_name_of(sg: Seq<Token>) -> Seq<char> {
    token_text(sg[0], false)
}

/// The type text a field segment declares: the glued text of its tokens
/// from the third on.
pub open spec fn field_type_of(sg: Seq<Token>) -> Seq<char> {
    seq_text_range(sg, 2, sg.len() as int, false)
}

/// The field segments of a declaration: its body group's interior, split
/// on top-level separators.
pub open spec fn parsed_segs(ts: Seq<Token>) -> Seq<Seq<Token>> {
    segments(group_body(ts[group_pos(ts)]))
}

/// The name and type text that each field segment determines, in order.
pub open spec fn parsed_fields(ts: Seq<Token>) -> Seq<(Seq<char>, Seq<char>)> {
    parsed_segs(ts).map_values(|sg: Seq<Token>| (field_name_of(sg), field_type_of(sg)))
}

/// The index of the first malformed field segment, or `segs.len()` if all
/// are well shaped.
pub open spec fn bad_seg_idx(segs: Seq<Seq<Token>>) -> int {
    idx_where(segs, |sg: Seq<Token>| !seg_ok(sg))
}

pub proof fn lemma_bad_seg_idx(segs: Seq<Seq<Token>>)
    ensures
        0 <= bad_seg_idx(segs) <= segs.len(),
        bad_seg_idx(segs) < segs.len() ==> !seg_ok(segs[bad_seg_idx(segs)]),
        forall|j: int| 0 <= j < bad_seg_idx(segs) ==> seg_ok(segs[j]),
    decreases segs.len(),
{
    if segs.len() > 0 && seg_ok(segs[0]) {
        lemma_bad_seg_idx(segs.drop_first());
        assert forall|j: int| 0 <= j < bad_seg_idx(segs) implies seg_ok(segs[j]) by {
            if j > 0 {
                assert(segs.drop_first()[j - 1] == segs[j]);
            }
        }
    }
}

/// The first structural failure of a declaration token sequence, if any.
/// Parsing succeeds exactly when this is `None`.
pub open spec fn parse_err(ts: Seq<Token>) -> Option<ParseError> {
    if kind_pos(ts) == ts.len() {
        Some(ParseError::MissingKind)
    } else if kind_pos(ts) + 1 >= ts.len() {
        Some(ParseError::MissingName)
    } else if !is_ident_t(ts[kind_pos(ts) + 1]) {
        Some(ParseError::NameNotIdent)
    } else if group_pos(ts) == ts.len() {
        Some(ParseError::MissingBody)
    } else {
        let segs = parsed_segs(ts);
        let bad = bad_seg_idx(segs);
        if bad == segs.len() {
            None
        } else if segs[bad].len() < 3 {
            Some(ParseError::FieldTooShort)
        } else {
            Some(ParseError::FieldNoColon)
        }
    }
}

pub open spec fn parsed_what(ts: Seq<Token>) -> What {
    token_kind(ts[kind_pos(ts)])
}

pub open spec fn parsed_name(ts: Seq<Token>) -> Seq<char> {
    ident_text(ts[kind_pos(ts) + 1])
}

/// The generic parameter tokens: everything between the declaration name
/// and the field-body group, verbatim.
pub open spec fn parsed_generic(ts: Seq<Token>) -> Seq<Token> {
    ts.subrange(kind_pos(ts) + 2, group_pos(ts))
}

/// The full relation between a declaration token sequence and its parsed
/// model: the kind, the name, the verbatim generic tokens, and one field
/// per segment in declared order.
pub open spec fn parse_ok(ts: Seq<Token>, d: DeriveData) -> bool {
    &&& d.what == parsed_what(ts)
    &&& d.name@ == parsed_name(ts)
    &&& d.generic@ == parsed_generic(ts)
    &&& d.fields@.len() == parsed_segs(ts).len()
    &&& forall|i: int|
        0 <= i < d.fields@.len() ==> {
            &&& (#[trigger] d.fields@[i]).name@ == field_name_of(parsed_segs(ts)[i])
            &&& d.fields@[i].data_type@ == field_type_of(parsed_segs(ts)[i])
        }
}

impl What {
    /// The surface form of this kind: the identifier that names it.
    pub fn text(&self) -> (r: String)
        ensures
            self is Struct ==> r@ == "struct"@,
            self is Enum ==> r@ == "enum"@,
    {
        match self {
            What::Struct => String::from_str("struct"),
            What::Enum => String::from_str("enum"),
        }
    }

    /// The declaration kind that a surface identifier names, if any.
    pub fn from_ident(ident: &String) -> (r: Option<What>)
        ensures
            r == kind_of_text(ident@),
    {
        if ident.eq(&String::from_str("struct")) {
            Some(What::Struct)
        } else if ident.eq(&String::from_str("enum")) {
            Some(What::Enum)
        } else {
            None
        }
    }
}

/// Classifies a token as the kind keyword.
fn token_as_kind(t: &Token) -> (r: Option<What>)
    ensures
        r is Some <==> is_kind_t(*t),
        r matches Some(w) ==> w == token_kind(*t),
{
    match t {
        Token::Ident(s) => What::from_ident(s),
        _ => None,
    }
}

fn is_group(t: &Token) -> (b: bool)
    ensures
        b == is_group_t(*t),
{
    match t {
        Token::Group(_, _) => true,
        _ => false,
    }
}

/// The first kind keyword of the sequence, with its index.
fn find_kind(tokens: &Vec<Token>) -> (r: Option<(usize, What)>)
    ensures
        match r {
            Some(kw) => {
                &&& kw.0 < tokens@.len()
                &&& is_kind_t(tokens@[kw.0 as int])
                &&& kw.1 == token_kind(tokens@[kw.0 as int])
                &&& forall|j: int| 0 <= j < kw.0 ==> !is_kind_t(tokens@[j])
            },
            None => forall|j: int| 0 <= j < tokens@.len() ==> !is_kind_t(tokens@[j]),
        },
{
    let n = tokens.len();
    let mut i: usize = 0;
    while i < n
        invariant
            i <= n,
            n == tokens@.len(),
            forall|j: int| 0 <= j < i ==> !is_kind_t(tokens@[j]),
        decreases n - i,
    {
        match token_as_kind(&tokens[i]) {
            Some(w) => {
                return Some((i, w));
            },
            None => {},
        }
        i = i + 1;
    }
    None
}

/// The first nested group at or after `from`, by index.
fn find_group(tokens: &Vec<Token>, from: usize) -> (r: Option<usize>)
    requires
        from <= tokens@.len(),
    ensures
        match r {
            Some(g) => {
                &&& from <= g < tokens@.len()
                &&& is_group_t(tokens@[g as int])
                &&& forall|j: int| from <= j < g ==> !is_group_t(tokens@[j])
            },
            None => forall|j: int| from <= j < tokens@.len() ==> !is_group_t(tokens@[j]),
        },
{
    let n = tokens.len();
    let mut i: usize = from;
    while i < n
        invariant
            from <= i <= n,
            n == tokens@.len(),
            forall|j: int| from <= j < i ==> !is_group_t(tokens@[j]),
        decreases n - i,
    {
        if is_group(&tokens[i]) {
            return Some(i);
        }
        i = i + 1;
    }
    None
}

impl DeriveData {
    /// Parses a declaration token sequence into the structured model,
    /// consuming the tokens. Succeeds exactly on inputs with no structural
    /// failure, and reports the first failure otherwise.
    #[verifier::rlimit(60)]
    pub fn parse(tokens: Vec<Token>) -> (r: Result<DeriveData, ParseError>)
        ensures
            r is Ok <==> parse_err(tokens@) is None,
            r matches Err(e) ==> parse_err(tokens@) == Some(e),
            r matches Ok(d) ==> parse_ok(tokens@, d),
    {
        let ghost ots = tokens@;
        let n = tokens.len();

        // The kind keyword: the first identifier of the vocabulary; all
        // tokens before it are discarded.
        let (k, what) = match find_kind(&tokens) {
            Some(kw) => kw,
            None => {
                proof {
                    lemma_kind_pos(ots);
                    if kind_pos(ots) < ots.len() {
                        assert(!is_kind_t(ots[kind_pos(ots)]));
                    }
                }
                return Err(ParseError::MissingKind);
            },
        };
        proof {
            lemma_kind_pos(ots);
            assert(kind_pos(ots) == k) by {
                if kind_pos(ots) < k {
                    assert(!is_kind_t(ots[kind_pos(ots)]));
                }
                if k < kind_pos(ots) {
                    assert(!is_kind_t(ots[k as int]));
                }
            }
        }

        // The declaration name: the very next token, which must be an
        // identifier.
        if k + 1 >= n {
            return Err(ParseError::MissingName);
        }
        match &tokens[k + 1] {
            Token::Ident(_) => {},
            _ => {
                return Err(ParseError::NameNotIdent);
            },
        }

        // The field-body group: the first nested group after the name;
        // everything between name and group is the generic parameter list.
        let g = match find_group(&tokens, k + 2) {
            Some(g) => g,
            None => {
                proof {
                    let np = kind_pos(ots) + 2;
                    lemma_group_idx(ots.skip(np));
                    if group_idx(ots.skip(np)) < ots.skip(np).len() {
                        let q = group_idx(ots.skip(np));
                        assert(ots.skip(np)[q] == ots[np + q]);
                        assert(!is_group_t(ots[np + q]));
                    }
                }
                return Err(ParseError::MissingBody);
            },
        };
        proof {
            let np = kind_pos(ots) + 2;
            lemma_group_idx(ots.skip(np));
            assert(group_pos(ots) == g) by {
                let q = group_idx(ots.skip(np));
                assert(forall|j: int|
                    0 <= j < ots.skip(np).len() ==> ots.skip(np)[j] == ots[np + j]);
                if np + q < g {
                    assert(!is_group_t(ots[np + q]));
                }
                if g < np + q {
                    assert(!is_group_t(ots.skip(np)[g - np]));
                }
            }
        }

        // Take the model's pieces by ownership: the body group's interior,
        // the verbatim generic tokens, and the name.
        let mut v = tokens;
        let gt = v.remove(g);
        let body: Vec<Token> = match gt {
            Token::Group(_, b) => b,
            _ => {
                proof {
                    assert(false);
                }
                return Err(ParseError::MissingBody);
            },
        };
        let mut generic = v.split_off(k + 2);
        generic.truncate(g - (k + 2));
        proof {
            assert(generic@ =~= parsed_generic(ots));
        }
        let name: String = match v.pop() {
            Some(Token::Ident(s)) => s,
            _ => {
                proof {
                    assert(v@ == ots.subrange(0, k + 2));
                    assert(ots.subrange(0, k + 2)[k + 1] == ots[k + 1]);
                    assert(false);
                }
                return Err(ParseError::NameNotIdent);
            },
        };
        proof {
            assert(ots.subrange(0, k + 2)[k + 1] == ots[k + 1]);
            assert(name@ == parsed_name(ots));
        }

        // Split the body on top-level separators and shape each segment
        // into a field: name, separator, type text.
        let ghost bseq = body@;
        proof {
            assert(bseq == group_body(ots[group_pos(ots)]));
        }
        let ghost segs = segments(bseq);
        let bn = body.len();
        let mut fields: Vec<Field> = Vec::new();
        let mut s: usize = 0;
        let ghost mut j: int = 0;
        let mut done = false;
        proof {
            assert(segs.skip(0) =~= segs);
            assert(bseq.subrange(0, bn as int) =~= bseq);
        }
        #[verifier::loop_isolation(false)]
        while !done
            invariant
                0 <= s <= bn,
                j == fields@.len(),
                !done ==> segs.skip(j) == segments(bseq.subrange(s as int, bn as int)),
                done ==> j == segs.len(),
                j <= segs.len(),
                forall|i: int|
                    0 <= i < j ==> {
                        &&& seg_ok(#[trigger] segs[i])
                        &&& fields@[i].name@ == field_name_of(segs[i])
                        &&& fields@[i].data_type@ == field_type_of(segs[i])
                    },
            decreases bn - s, (if done { 0int } else { 1int }),
        {
            let rest_opt = find_comma(&body, s);
            let e = match rest_opt {
                Some(m) => m,
                None => bn,
            };
            let ghost sub = bseq.subrange(s as int, bn as int);
            let ghost cur = bseq.subrange(s as int, e as int);
            proof {
                lemma_segments_len(sub);
                assert(forall|j2: int| 0 <= j2 < sub.len() ==> sub[j2] == bseq[s + j2]);
                match rest_opt {
                    Some(m) => {
                        lemma_segments_step(sub, m - s);
                        assert(sub.take(m - s) =~= cur);
                        assert(sub.skip(m - s + 1) =~= bseq.subrange(m + 1, bn as int));
                        assert(segments(sub)[0] == cur);
                    },
                    None => {
                        lemma_segments_whole(sub);
                        assert(sub =~= cur);
                        assert(segments(sub)[0] == cur);
                    },
                }
                assert(segs.skip(j)[0] == cur);
                assert(segs.skip(j)[0] == segs[j]);
                assert(segs[j] == cur);
            }
            if e - s < 3 {
                proof {
                    lemma_bad_seg_idx(segs);
                    assert(!seg_ok(segs[j]));
                    assert(bad_seg_idx(segs) == j) by {
                        if bad_seg_idx(segs) < j {
                            assert(seg_ok(segs[bad_seg_idx(segs)]));
                        }
                        if j < bad_seg_idx(segs) {
                            assert(seg_ok(segs[j]));
                        }
                    }
                }
                return Err(ParseError::FieldTooShort);
            }
            if !is_colon(&body[s + 1]) {
                proof {
                    assert(cur[1] == bseq[s + 1]);
                    lemma_bad_seg_idx(segs);
                    assert(!seg_ok(segs[j]));
                    assert(bad_seg_idx(segs) == j) by {
                        if bad_seg_idx(segs) < j {
                            assert(seg_ok(segs[bad_seg_idx(segs)]));
                        }
                        if j < bad_seg_idx(segs) {
                            assert(seg_ok(segs[j]));
                        }
                    }
                }
                return Err(ParseError::FieldNoColon);
            }
            let fname = token_to_string(&body[s], false);
            let ftype = render_range(&body, s + 2, e, false);
            proof {
                assert(cur[0] == bseq[s as int]);
                assert(cur[1] == bseq[s + 1]);
                lemma_seq_text_subrange(bseq, s as int, e as int, 2, false);
                assert(seg_ok(segs[j]));
                assert(fname@ == field_name_of(segs[j]));
                assert(ftype@ == field_type_of(segs[j]));
            }
            fields.push(Field { name: fname, data_type: ftype });
            proof {
                j = j + 1;
            }
            match rest_opt {
                Some(m) => {
                    s = m + 1;
                    proof {
                        assert(segs.skip(j - 1) == segments(sub));
                        assert(segments(sub) == seq![cur] + segments(
                            bseq.subrange(s as int, bn as int),
                        ));
                        assert(segs.skip(j) =~= segments(sub).skip(1));
                        assert(segments(sub).skip(1) =~= segments(
                            bseq.subrange(s as int, bn as int),
                        ));
                    }
                },
                None => {
                    done = true;
                    proof {
                        assert(segs.skip(j - 1) == seq![cur]);
                        assert(segs.len() - (j - 1) == 1);
                        assert(j == segs.len());
                    }
                },
            }
        }
        proof {
            lemma_bad_seg_idx(segs);
            assert(bad_seg_idx(segs) == segs.len()) by {
                if bad_seg_idx(segs) < segs.len() {
                    assert(seg_ok(segs[bad_seg_idx(segs)]));
                }
            }
            assert(parse_err(ots) is None);
        }
        Ok(DeriveData { what, name, generic, fields })
    }
}

} // verus!
