//! The codec generator: from a parsed declaration model and a direction
//! flag to the source text of a binary-codec implementation. Emission is
//! pure text concatenation; field statements come out in declaration
//! order, one per field.

use vstd::prelude::*;

use crate::parse::{parse_err, parse_ok, parsed_fields, DeriveData, Field, ParseError};
use crate::token::{
    colon_idx, comma_idx, find_colon_before, find_comma, is_colon_t, is_comma_t, lemma_colon_idx,
    lemma_comma_idx, lemma_seq_text_subrange, pop_char, render_range, render_seq, seq_text,
    seq_text_range, Token,
};

verus! {

/// The two codec directions: emit the decoding or the encoding body.
#[derive(Clone, Copy, PartialEq, Eq, Structural, Debug)]
pub enum Direction {
    Decode,
    Encode,
}

/// The bound-free text of one generic segment: the segment truncated at
/// its first type-annotation separator, glued, followed by a separator.
pub open spec fn seg_strip(sg: Seq<Token>) -> Seq<char> {
    let k = colon_idx(sg);
    let e = if 0 <= k <= sg.len() {
        k
    } else {
        sg.len() as int
    };
    seq_text_range(sg, 0, e, false) + seq![',']
}

/// The bound-free rendering of a generic parameter list, with the
/// trailing separator still attached: each comma-separated segment
/// truncated at its first colon, each followed by a comma.
pub open spec fn strip_text(g: Seq<Token>) -> Seq<char>
    decreases g.len(),
{
    let c = comma_idx(g);
    if 0 <= c < g.len() {
        seg_strip(g.take(c)) + strip_text(g.skip(c + 1))
    } else {
        seg_strip(g)
    }
}

/// The bound-free generic argument list: `strip_text` with its final
/// separator removed. Empty generics render as nothing.
pub open spec fn stripped_generics(g: Seq<Token>) -> Seq<char> {
    strip_text(g).drop_last()
}

pub proof fn lemma_strip_len(g: Seq<Token>)
    ensures
        strip_text(g).len() >= 1,
    decreases g.len(),
{
    let c = comma_idx(g);
    if 0 <= c < g.len() {
        lemma_strip_len(g.skip(c + 1))
    }
}

/// The step a left-to-right scan takes: with the first comma at `m`, the
/// stripped text is the first segment's, then the rest's.
pub proof fn lemma_strip_step(g: Seq<Token>, m: int)
    requires
        0 <= m < g.len(),
        is_comma_t(g[m]),
        forall|j: int| 0 <= j < m ==> !is_comma_t(g[j]),
    ensures
        strip_text(g) == seg_strip(g.take(m)) + strip_text(g.skip(m + 1)),
{
    lemma_comma_idx(g);
    assert(comma_idx(g) == m) by {
        if comma_idx(g) < m {
            assert(!is_comma_t(g[comma_idx(g)]));
        }
    }
}

/// The matching base case: with no comma, the whole list is one segment.
pub proof fn lemma_strip_whole(g: Seq<Token>)
    requires
        forall|j: int| 0 <= j < g.len() ==> !is_comma_t(g[j]),
    ensures
        strip_text(g) == seg_strip(g),
{
    lemma_comma_idx(g);
    assert(comma_idx(g) == g.len()) by {
        if comma_idx(g) < g.len() {
            assert(!is_comma_t(g[comma_idx(g)]));
        }
    }
}

/// The trait name each direction implements.
pub open spec fn trait_text(dir: Direction) -> Seq<char> {
    match dir {
        Direction::Decode => " FromBinary for "@,
        Direction::Encode => " ToBinary for "@,
    }
}

/// The opening of the generated implementation body for each direction.
pub open spec fn header_text(dir: Direction) -> Seq<char> {
    match dir {
        Direction::Decode => "{ fn from_binary(binary: &mut dyn std::io::Read) -> Self {"@,
        Direction::Encode => "{ fn to_binary(self, write: &mut dyn std::io::Write) {"@,
    }
}

/// The one statement a field contributes: a decode assignment invoking the
/// field type's decode routine, or an encode call consuming the field.
pub open spec fn field_stmt(nm: Seq<char>, ty: Seq<char>, dir: Direction) -> Seq<char> {
    match dir {
        Direction::Decode => "self."@ + nm + "="@ + ty + "::from_binary(binary),"@,
        Direction::Encode => "self."@ + nm + ".to_binary(write);"@,
    }
}

/// The statements of all fields, in order, glued.
pub open spec fn body_stmts(fs: Seq<(Seq<char>, Seq<char>)>, dir: Direction) -> Seq<char>
    decreases fs.len(),
{
    if fs.len() == 0 {
        Seq::<char>::empty()
    } else {
        field_stmt(fs[0].0, fs[0].1, dir) + body_stmts(fs.drop_first(), dir)
    }
}

/// The whole generated implementation: header with verbatim generics and
/// the bound-free argument list, then one statement per field in declared
/// order, then the closing braces.
pub open spec fn impl_text(
    generic: Seq<Token>,
    name: Seq<char>,
    fs: Seq<(Seq<char>, Seq<char>)>,
    dir: Direction,
) -> Seq<char> {
    "impl"@ + seq_text(generic, false) + trait_text(dir) + name + stripped_generics(generic)
        + header_text(dir) + body_stmts(fs, dir) + "}}"@
}

/// The name and type text of each field, in order.
pub open spec fn fields_view(fs: Seq<Field>) -> Seq<(Seq<char>, Seq<char>)> {
    fs.map_values(|f: Field| (f.name@, f.data_type@))
}

/// Field emission order is exactly declaration order: the emitted body is
/// the statements of the fields before `i`, then field `i`'s own
/// statement, then the statements of the fields after it — one statement
/// per field, none reordered, dropped or repeated.
pub proof fn lemma_field_statements_in_order(
    fs: Seq<(Seq<char>, Seq<char>)>,
    dir: Direction,
    i: int,
)
    requires
        0 <= i < fs.len(),
    ensures
        body_stmts(fs, dir) == body_stmts(fs.take(i), dir) + field_stmt(fs[i].0, fs[i].1, dir)
            + body_stmts(fs.skip(i + 1), dir),
    decreases i,
{
    if i == 0 {
        assert(fs.take(0) =~= Seq::<(Seq<char>, Seq<char>)>::empty());
        assert(fs.drop_first() =~= fs.skip(1));
        assert(body_stmts(fs.take(0), dir) + field_stmt(fs[0].0, fs[0].1, dir) + body_stmts(
            fs.skip(1),
            dir,
        ) =~= field_stmt(fs[0].0, fs[0].1, dir) + body_stmts(fs.skip(1), dir));
    } else {
        let df = fs.drop_first();
        lemma_field_statements_in_order(df, dir, i - 1);
        assert(df.take(i - 1) =~= fs.take(i).drop_first());
        assert(df.skip(i) =~= fs.skip(i + 1));
        assert(fs.take(i)[0] == fs[0]);
        assert(body_stmts(fs.take(i), dir) == field_stmt(fs[0].0, fs[0].1, dir) + body_stmts(
            df.take(i - 1),
            dir,
        ));
        assert(df[i - 1] == fs[i]);
        assert(body_stmts(fs, dir) =~= body_stmts(fs.take(i), dir) + field_stmt(
            fs[i].0,
            fs[i].1,
            dir,
        ) + body_stmts(fs.skip(i + 1), dir));
    }
}

/// Appends the bound-free generic argument list to `out`.
fn append_stripped(out: &mut String, g: &Vec<Token>)
    ensures
        final(out)@ == old(out)@ + stripped_generics(g@),
{
    let n = g.len();
    let mut acc = String::new();
    let mut s: usize = 0;
    let mut done = false;
    proof {
        assert(g@.subrange(0, n as int) =~= g@);
    }
    #[verifier::loop_isolation(false)]
    while !done
        invariant
            0 <= s <= n,
            !done ==> acc@ + strip_text(g@.subrange(s as int, n as int)) == strip_text(g@),
            done ==> acc@ == strip_text(g@),
        decreases n - s, (if done {
            0int
        } else {
            1int
        }),
    {
        let rest_opt = find_comma(g, s);
        let e = match rest_opt {
            Some(m) => m,
            None => n,
        };
        let ghost sub = g@.subrange(s as int, n as int);
        let ghost cur = g@.subrange(s as int, e as int);
        proof {
            assert(forall|j2: int| 0 <= j2 < sub.len() ==> sub[j2] == g@[s + j2]);
            match rest_opt {
                Some(m) => {
                    lemma_strip_step(sub, m - s);
                    assert(sub.take(m - s) =~= cur);
                    assert(sub.skip(m - s + 1) =~= g@.subrange(m + 1, n as int));
                },
                None => {
                    lemma_strip_whole(sub);
                    assert(sub =~= cur);
                },
            }
        }
        // The segment's bound-free text: everything before its first colon.
        let colon_opt = find_colon_before(g, s, e);
        let k = match colon_opt {
            Some(c) => c,
            None => e,
        };
        proof {
            lemma_colon_idx(cur);
            assert(forall|j2: int| 0 <= j2 < cur.len() ==> cur[j2] == g@[s + j2]);
            assert(colon_idx(cur) == k - s) by {
                match colon_opt {
                    Some(c) => {
                        if colon_idx(cur) < c - s {
                            assert(!is_colon_t(g@[s + colon_idx(cur)]));
                            assert(is_colon_t(cur[colon_idx(cur)]));
                        }
                        if c - s < colon_idx(cur) {
                            assert(!is_colon_t(cur[c - s]));
                        }
                    },
                    None => {
                        if colon_idx(cur) < cur.len() {
                            assert(is_colon_t(cur[colon_idx(cur)]));
                            assert(!is_colon_t(g@[s + colon_idx(cur)]));
                        }
                    },
                }
            }
        }
        let piece = render_range(g, s, k, false);
        proof {
            lemma_seq_text_subrange(g@, s as int, k as int, 0, false);
            assert(g@.subrange(s as int, k as int) =~= cur.subrange(0, k - s));
            lemma_seq_text_subrange(cur, 0, k - s, 0, false);
            assert(piece@ == seq_text_range(cur, 0, k - s, false));
        }
        acc.append(piece.as_str());
        crate::token::push_char(&mut acc, ',');
        proof {
            // The appended text is exactly this segment's stripped form.
            assert(seg_strip(cur) =~= seq_text_range(cur, 0, k - s, false) + seq![',']);
        }
        match rest_opt {
            Some(m) => {
                s = m + 1;
                proof {
                    assert(acc@ + strip_text(g@.subrange(s as int, n as int)) =~= strip_text(g@));
                }
            },
            None => {
                done = true;
                proof {
                    assert(acc@ =~= strip_text(g@));
                }
            },
        }
    }
    proof {
        lemma_strip_len(g@);
    }
    pop_char(&mut acc);
    out.append(acc.as_str());
    proof {
        assert(strip_text(g@).drop_last() == stripped_generics(g@));
    }
}

/// The bound-free rendering of a generic parameter list, as its own
/// string: each comma-separated segment truncated at its first colon,
/// glued, joined by commas.
pub fn bound_free(generic: &Vec<Token>) -> (r: String)
    ensures
        r@ == stripped_generics(generic@),
{
    let mut r = String::new();
    append_stripped(&mut r, generic);
    r
}

impl DeriveData {
    /// Emits the binary-codec implementation text for this declaration in
    /// the given direction: the trait header with verbatim generics and
    /// the bound-free argument list, then exactly one statement per field,
    /// in declaration order, referencing the field's name and type text
    /// verbatim.
    pub fn implement(&self, dir: Direction) -> (out: String)
        ensures
            out@ == impl_text(self.generic@, self.name@, fields_view(self.fields@), dir),
    {
        let mut out = String::new();
        out.append("impl");
        let gtext = render_seq(&self.generic, false);
        out.append(gtext.as_str());
        match dir {
            Direction::Decode => out.append(" FromBinary for "),
            Direction::Encode => out.append(" ToBinary for "),
        }
        out.append(self.name.as_str());
        append_stripped(&mut out, &self.generic);
        match dir {
            Direction::Decode => out.append(
                "{ fn from_binary(binary: &mut dyn std::io::Read) -> Self {",
            ),
            Direction::Encode => out.append("{ fn to_binary(self, write: &mut dyn std::io::Write) {"),
        }
        let ghost base = out@;
        let ghost fview = fields_view(self.fields@);
        let n = self.fields.len();
        let mut i: usize = 0;
        proof {
            assert(fview.skip(0) =~= fview);
        }
        #[verifier::loop_isolation(false)]
        while i < n
            invariant
                i <= n,
                n == self.fields@.len(),
                out@ + body_stmts(fview.skip(i as int), dir) == base + body_stmts(fview, dir),
            decreases n - i,
        {
            let f = &self.fields[i];
            proof {
                assert(fview[i as int] == (f.name@, f.data_type@));
                assert(fview.skip(i as int)[0] == fview[i as int]);
                assert(fview.skip(i as int).drop_first() =~= fview.skip(i + 1));
            }
            match dir {
                Direction::Decode => {
                    out.append("self.");
                    out.append(f.name.as_str());
                    out.append("=");
                    out.append(f.data_type.as_str());
                    out.append("::from_binary(binary),");
                },
                Direction::Encode => {
                    out.append("self.");
                    out.append(f.name.as_str());
                    out.append(".to_binary(write);");
                },
            }
            proof {
                assert(out@ + body_stmts(fview.skip(i + 1), dir) =~= base + body_stmts(
                    fview,
                    dir,
                ));
            }
            i = i + 1;
        }
        out.append("}}");
        proof {
            assert(fview.skip(n as int) =~= Seq::<(Seq<char>, Seq<char>)>::empty());
            assert(out@ =~= impl_text(self.generic@, self.name@, fview, dir));
        }
        out
    }
}

/// The implementation text that a declaration token sequence determines,
/// in a given direction — the composition of parsing and generation, as a
/// mathematical function of the input tokens.
pub open spec fn derived_impl_text(ts: Seq<Token>, dir: Direction) -> Seq<char> {
    impl_text(
        crate::parse::parsed_generic(ts),
        crate::parse::parsed_name(ts),
        parsed_fields(ts),
        dir,
    )
}

/// Parses a declaration and emits the decode-direction implementation:
/// succeeds exactly when parsing does, and returns exactly the text the
/// input determines.
pub fn from_binary(input: Vec<Token>) -> (r: Result<String, ParseError>)
    ensures
        r is Ok <==> parse_err(input@) is None,
        r matches Err(e) ==> parse_err(input@) == Some(e),
        r matches Ok(s) ==> s@ == derived_impl_text(input@, Direction::Decode),
{
    generate(input, Direction::Decode)
}

/// Parses a declaration and emits the encode-direction implementation:
/// succeeds exactly when parsing does, and returns exactly the text the
/// input determines.
pub fn to_binary(input: Vec<Token>) -> (r: Result<String, ParseError>)
    ensures
        r is Ok <==> parse_err(input@) is None,
        r matches Err(e) ==> parse_err(input@) == Some(e),
        r matches Ok(s) ==> s@ == derived_impl_text(input@, Direction::Encode),
{
    generate(input, Direction::Encode)
}

/// Parses a declaration and emits its implementation in the given
/// direction.
pub fn generate(input: Vec<Token>, dir: Direction) -> (r: Result<String, ParseError>)
    ensures
        r is Ok <==> parse_err(input@) is None,
        r matches Err(e) ==> parse_err(input@) == Some(e),
        r matches Ok(s) ==> s@ == derived_impl_text(input@, dir),
{
    let d = match DeriveData::parse(input) {
        Ok(d) => d,
        Err(e) => {
            return Err(e);
        },
    };
    let ghost ts = input@;
    proof {
        assert(parse_ok(ts, d));
        assert(fields_view(d.fields@) =~= parsed_fields(ts)) by {
            assert forall|i: int| 0 <= i < d.fields@.len() implies fields_view(d.fields@)[i]
                == parsed_fields(ts)[i] by {
                assert(d.fields@[i].name@ == crate::parse::field_name_of(
                    crate::parse::parsed_segs(ts)[i],
                ));
            }
        }
    }
    Ok(d.implement(dir))
}

} // verus!
