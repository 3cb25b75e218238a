//! Brace expansion: a token text `pre{a,b,c}post` is rewritten to the
//! space-joined alternatives `prea post preb post prec post` in the
//! comma-split order given. The group taken is the first balanced `{`…`}`
//! whose inside holds a comma at top level (and no space or quote); its
//! alternatives are its top-level comma splits. A token with no such group
//! — unmatched or malformed braces included — is left untouched.

use vstd::prelude::*;
use crate::chars_util::{
    append_chars, charss_view, chars_to_string, copy_range, delim_end, delim_end_exec,
    join_spaces, join_spaces_from, str_to_chars, wrap_sep, wrap_sep_string,
};
use crate::parser_line::{parse_args, set_pair, token_views, tokenize_spec};

verus! {

/// The position of the first comma at brace depth zero at or after `j`,
/// with `depth` braces already open; the length of the text when there is
/// none.
pub open spec fn first_top_comma(b: Seq<char>, j: int, depth: int) -> int
    decreases b.len() - j,
{
    if j < 0 || j >= b.len() {
        b.len() as int
    } else if b[j] == ',' && depth == 0 {
        j
    } else if b[j] == '{' {
        first_top_comma(b, j + 1, depth + 1)
    } else if b[j] == '}' {
        first_top_comma(b, j + 1, depth - 1)
    } else {
        first_top_comma(b, j + 1, depth)
    }
}

pub proof fn lemma_first_top_comma_bounds(b: Seq<char>, j: int, depth: int)
    ensures
        j <= b.len() ==> first_top_comma(b, j, depth) >= j,
        first_top_comma(b, j, depth) <= b.len(),
    decreases b.len() - j,
{
    if 0 <= j < b.len() {
        lemma_first_top_comma_bounds(b, j + 1, depth + 1);
        lemma_first_top_comma_bounds(b, j + 1, depth - 1);
        lemma_first_top_comma_bounds(b, j + 1, depth);
    }
}

/// The body holds a comma at top level.
pub open spec fn has_top_comma(b: Seq<char>) -> bool {
    first_top_comma(b, 0, 0) < b.len()
}

/// Finds the first top-level comma at or after `from`.
fn first_top_comma_exec(b: &Vec<char>, from: usize) -> (r: usize)
    requires
        from <= b@.len(),
    ensures
        r as int == first_top_comma(b@, from as int, 0),
        from <= r <= b@.len(),
{
    let mut j = from;
    let mut opens: usize = 0;
    let mut closes: usize = 0;
    while j < b.len()
        invariant
            from <= j <= b@.len(),
            opens <= j,
            closes <= j,
            first_top_comma(b@, from as int, 0) == first_top_comma(
                b@,
                j as int,
                opens as int - closes as int,
            ),
        decreases b@.len() - j,
    {
        let c = b[j];
        if c == ',' && opens == closes {
            proof {
                lemma_first_top_comma_bounds(b@, from as int, 0);
            }
            return j;
        }
        if c == '{' {
            opens += 1;
        } else if c == '}' {
            closes += 1;
        }
        j += 1;
    }
    proof {
        lemma_first_top_comma_bounds(b@, from as int, 0);
    }
    b.len()
}

/// The top-level comma-separated parts of a brace body, empty parts
/// dropped.
pub open spec fn split_top_commas(b: Seq<char>) -> Seq<Seq<char>>
    decreases b.len(),
    via check_split_top_commas
{
    let k = first_top_comma(b, 0, 0);
    if k >= b.len() {
        if b.len() == 0 {
            Seq::empty()
        } else {
            seq![b]
        }
    } else {
        let head = b.subrange(0, k);
        let rest = split_top_commas(b.subrange(k + 1, b.len() as int));
        if head.len() == 0 {
            rest
        } else {
            seq![head] + rest
        }
    }
}

#[via_fn]
proof fn check_split_top_commas(b: Seq<char>) {
    lemma_first_top_comma_bounds(b, 0, 0);
}

fn split_top_commas_exec(body: Vec<char>) -> (r: Vec<Vec<char>>)
    ensures
        charss_view(r@) == split_top_commas(body@),
    decreases body@.len(),
{
    let k = first_top_comma_exec(&body, 0);
    let head = copy_range(&body, 0, k);
    if k >= body.len() {
        let mut r: Vec<Vec<char>> = Vec::new();
        if head.len() > 0 {
            proof {
                assert(head@ =~= body@);
            }
            r.push(head);
            proof {
                assert(charss_view(r@) =~~= seq![body@]);
            }
        } else {
            proof {
                assert(body@.len() == 0);
                assert(charss_view(r@) =~~= Seq::<Seq<char>>::empty());
            }
        }
        r
    } else {
        let restv = copy_range(&body, k + 1, body.len());
        let mut rest = split_top_commas_exec(restv);
        if head.len() > 0 {
            rest.insert(0, head);
            proof {
                assert(charss_view(rest@) =~~= split_top_commas(body@));
            }
        }
        rest
    }
}

/// A brace group stands at position `i`: an `{` with a balancing `}`, a
/// comma at top level between them, and no space or quote character inside.
pub open spec fn brace_group_at(s: Seq<char>, i: int) -> bool {
    let k = delim_end(s, '{', '}', i + 1, 1);
    &&& 0 <= i < s.len()
    &&& s[i] == '{'
    &&& k < s.len()
    &&& has_top_comma(s.subrange(i + 1, k))
    &&& (forall|m: int| i < m < k ==> s[m] != ' ' && s[m] != '"' && s[m] != '\'')
}

/// The position of the first brace group, or the length of the text when
/// there is none.
pub open spec fn first_group_pos(s: Seq<char>, i: int) -> int
    decreases s.len() - i,
{
    if i < 0 || i >= s.len() {
        s.len() as int
    } else if brace_group_at(s, i) {
        i
    } else {
        first_group_pos(s, i + 1)
    }
}

proof fn lemma_first_group_pos(s: Seq<char>, a: int, b: int)
    requires
        0 <= a <= b <= s.len(),
        forall|j: int| a <= j < b ==> !(#[trigger] brace_group_at(s, j)),
        b == s.len() || brace_group_at(s, b),
    ensures
        first_group_pos(s, a) == b,
    decreases b - a,
{
    if a < b {
        lemma_first_group_pos(s, a + 1, b);
    }
}

/// The text holds a brace group to expand.
pub open spec fn should_extend_brace_spec(s: Seq<char>) -> bool {
    first_group_pos(s, 0) < s.len()
}

/// Tests for a brace group at position `i`, returning the position of its
/// balancing `}`.
fn brace_group_at_exec(s: &Vec<char>, i: usize) -> (r: Option<usize>)
    requires
        i < s@.len(),
    ensures
        match r {
            Some(k) => brace_group_at(s@, i as int) && k as int == delim_end(
                s@,
                '{',
                '}',
                i as int + 1,
                1,
            ) && i < k < s@.len(),
            None => !brace_group_at(s@, i as int),
        },
{
    let n = s.len();
    if s[i] != '{' {
        return None;
    }
    let k = delim_end_exec(s, '{', '}', i + 1);
    if k >= n {
        return None;
    }
    let mut m = i + 1;
    while m < k
        invariant
            i < m <= k < s@.len(),
            s@[i as int] == '{',
            k as int == delim_end(s@, '{', '}', i as int + 1, 1),
            forall|p: int| i < p < m ==> s@[p] != ' ' && s@[p] != '"' && s@[p] != '\'',
        decreases k - m,
    {
        if s[m] == ' ' || s[m] == '"' || s[m] == '\'' {
            proof {
                assert(!brace_group_at(s@, i as int)) by {
                    if brace_group_at(s@, i as int) {
                        assert(s@[m as int] != ' ' && s@[m as int] != '"' && s@[m as int]
                            != '\'');
                    }
                }
            }
            return None;
        }
        m += 1;
    }
    let body = copy_range(s, i + 1, k);
    let ftc = first_top_comma_exec(&body, 0);
    if ftc < body.len() {
        Some(k)
    } else {
        proof {
            assert(!has_top_comma(s@.subrange(i as int + 1, k as int)));
        }
        None
    }
}

/// Finds the first brace group of the text and its balancing `}`.
fn find_brace_group(s: &Vec<char>) -> (r: Option<(usize, usize)>)
    ensures
        match r {
            Some(pk) => {
                &&& pk.0 as int == first_group_pos(s@, 0)
                &&& brace_group_at(s@, pk.0 as int)
                &&& pk.1 as int == delim_end(s@, '{', '}', pk.0 as int + 1, 1)
                &&& pk.0 < pk.1 < s@.len()
            },
            None => first_group_pos(s@, 0) == s@.len(),
        },
{
    let mut i: usize = 0;
    while i < s.len()
        invariant
            i <= s@.len(),
            forall|j: int| 0 <= j < i ==> !(#[trigger] brace_group_at(s@, j)),
        decreases s@.len() - i,
    {
        match brace_group_at_exec(s, i) {
            Some(k) => {
                proof {
                    lemma_first_group_pos(s@, 0, i as int);
                }
                return Some((i, k));
            },
            None => {},
        }
        i += 1;
    }
    proof {
        lemma_first_group_pos(s@, 0, s@.len() as int);
    }
    None
}

/// Tests whether brace expansion applies to the text.
pub fn should_extend_brace(text: &str) -> (r: bool)
    ensures
        r == should_extend_brace_spec(text@),
{
    let s = str_to_chars(text);
    match find_brace_group(&s) {
        Some(_) => true,
        None => false,
    }
}

/// Each part with the prefix put before it and the tail after it.
pub open spec fn affix_all(parts: Seq<Seq<char>>, pre: Seq<char>, tail: Seq<char>) -> Seq<
    Seq<char>,
> {
    parts.map_values(|p: Seq<char>| pre + p + tail)
}

/// The brace rewrite of one unquoted word. The first brace group decides:
/// the text before its `{` is the prefix, its inside is split on its
/// top-level commas into the alternatives, the text after its `}` is the
/// tail, and the alternatives, each affixed, are joined with spaces. A
/// text with no group is returned unchanged.
pub open spec fn brace_rewrite_text(s: Seq<char>) -> Seq<char> {
    let p = first_group_pos(s, 0);
    if p >= s.len() {
        s
    } else {
        let close = delim_end(s, '{', '}', p + 1, 1);
        if close >= s.len() {
            s
        } else {
            join_spaces(
                affix_all(
                    split_top_commas(s.subrange(p + 1, close)),
                    s.subrange(0, p),
                    s.subrange(close + 1, s.len() as int),
                ),
            )
        }
    }
}

/// A text holding no balanced brace group with a top-level comma —
/// unmatched or malformed braces included — passes through brace expansion
/// untouched, and so does a whole token of such text.
pub proof fn lemma_brace_passthrough(t: (Seq<char>, Seq<char>))
    requires
        !should_extend_brace_spec(t.1),
    ensures
        brace_rewrite_text(t.1) == t.1,
        brace_token_rewrite(t) == t,
{
}

/// Rewrites one word by its first brace group.
pub fn brace_expand_word(text: &str) -> (r: String)
    ensures
        r@ == brace_rewrite_text(text@),
{
    let s = str_to_chars(text);
    let (p, close) = match find_brace_group(&s) {
        Some(pk) => pk,
        None => {
            return text.to_owned();
        },
    };
    let n = s.len();
    let pre = copy_range(&s, 0, p);
    let body = copy_range(&s, p + 1, close);
    let tail = copy_range(&s, close + 1, n);
    let parts = split_top_commas_exec(body);
    let mut affixed: Vec<Vec<char>> = Vec::new();
    let mut k: usize = 0;
    while k < parts.len()
        invariant
            k <= parts@.len(),
            p as int == first_group_pos(text@, 0),
            close as int == delim_end(text@, '{', '}', p as int + 1, 1),
            p < close < text@.len(),
            pre@ == text@.subrange(0, p as int),
            tail@ == text@.subrange(close as int + 1, text@.len() as int),
            charss_view(parts@) == split_top_commas(text@.subrange(p as int + 1, close as int)),
            charss_view(affixed@) == affix_all(
                charss_view(parts@).subrange(0, k as int),
                pre@,
                tail@,
            ),
        decreases parts@.len() - k,
    {
        let mut w: Vec<char> = Vec::new();
        append_chars(&mut w, &pre);
        append_chars(&mut w, &parts[k]);
        append_chars(&mut w, &tail);
        proof {
            assert(w@ =~= pre@ + charss_view(parts@)[k as int] + tail@);
        }
        let ghost prev = affixed@;
        affixed.push(w);
        proof {
            let av = charss_view(affixed@);
            let target = affix_all(charss_view(parts@).subrange(0, k as int + 1), pre@, tail@);
            assert(av.len() == affixed@.len());
            assert(affixed@.len() == prev.len() + 1);
            assert(charss_view(prev).len() == affix_all(
                charss_view(parts@).subrange(0, k as int),
                pre@,
                tail@,
            ).len());
            assert(prev.len() == k as int);
            assert(target.len() == k as int + 1);
            assert(av.len() == target.len());
            assert forall|j: int| 0 <= j < av.len() implies av[j] == target[j] by {
                assert(av[j] == affixed@[j]@);
                if j < k {
                    assert(affixed@[j] == prev[j]);
                    assert(charss_view(prev)[j] == affix_all(
                        charss_view(parts@).subrange(0, k as int),
                        pre@,
                        tail@,
                    )[j]);
                    assert(charss_view(parts@).subrange(0, k as int)[j] == charss_view(
                        parts@,
                    ).subrange(0, k as int + 1)[j]);
                } else {
                    assert(affixed@[j] == w);
                }
            }
            assert(av =~~= target);
        }
        k += 1;
    }
    proof {
        assert(charss_view(parts@).subrange(0, parts@.len() as int) =~= charss_view(parts@));
    }
    let joined = join_spaces_from(&affixed, 0);
    proof {
        assert(charss_view(affixed@).subrange(0, affixed@.len() as int) =~= charss_view(
            affixed@,
        ));
        assert(joined@ == brace_rewrite_text(text@));
    }
    chars_to_string(&joined)
}

/// The rewrite of one sub-token of a brace-expanded token: an unquoted
/// sub-token with a brace group is expanded; any other is put back into
/// line form with its quote marker.
pub open spec fn brace_sub_rewrite(st: (Seq<char>, Seq<char>)) -> Seq<char> {
    if st.0.len() == 0 && should_extend_brace_spec(st.1) {
        brace_rewrite_text(st.1)
    } else {
        wrap_sep(st.0, st.1)
    }
}

pub open spec fn brace_token_rewrite(t: (Seq<char>, Seq<char>)) -> (Seq<char>, Seq<char>) {
    if t.0.len() == 0 && should_extend_brace_spec(t.1) {
        (
            t.0,
            join_spaces(
                tokenize_spec(t.1).map_values(|st: (Seq<char>, Seq<char>)| brace_sub_rewrite(st)),
            ),
        )
    } else {
        t
    }
}

/// The brace-expansion pass over a whole token sequence.
pub open spec fn brace_pass(ts: Seq<(Seq<char>, Seq<char>)>) -> Seq<(Seq<char>, Seq<char>)> {
    ts.map_values(|t: (Seq<char>, Seq<char>)| brace_token_rewrite(t))
}

/// Rewrites every unquoted token that holds a brace group: the token's text
/// is re-tokenized to expose nested quoting, each unquoted sub-token with a
/// group is expanded, and the results are joined with spaces. Markers and
/// positions are kept.
pub fn expand_brace(tokens: &mut Vec<(String, String)>)
    ensures
        token_views(final(tokens)@) == brace_pass(token_views(old(tokens)@)),
{
    let mut i: usize = 0;
    while i < tokens.len()
        invariant
            i <= tokens@.len(),
            tokens@.len() == old(tokens)@.len(),
            forall|k: int| i <= k < tokens@.len() ==> tokens@[k] == old(tokens)@[k],
            forall|k: int|
                0 <= k < i ==> (tokens@[k].0@, tokens@[k].1@) == brace_token_rewrite(
                    (old(tokens)@[k].0@, old(tokens)@[k].1@),
                ),
        decreases tokens@.len() - i,
    {
        let unquoted = tokens[i].0.as_str().is_empty();
        if unquoted && should_extend_brace(tokens[i].1.as_str()) {
            let marker = tokens[i].0.clone();
            let text = tokens[i].1.clone();
            let subs = parse_args(text.as_str());
            let mut pieces: Vec<Vec<char>> = Vec::new();
            let mut k: usize = 0;
            while k < subs.len()
                invariant
                    k <= subs@.len(),
                    charss_view(pieces@) == token_views(subs@).subrange(0, k as int).map_values(
                        |st: (Seq<char>, Seq<char>)| brace_sub_rewrite(st),
                    ),
                decreases subs@.len() - k,
            {
                let sub_unquoted = subs[k].0.as_str().is_empty();
                let sub_braced = should_extend_brace(subs[k].1.as_str());
                let piece: String = if sub_unquoted && sub_braced {
                    brace_expand_word(subs[k].1.as_str())
                } else {
                    wrap_sep_string(subs[k].0.as_str(), subs[k].1.as_str())
                };
                proof {
                    assert(token_views(subs@)[k as int] == (subs@[k as int].0@, subs@[
                        k as int].1@));
                    assert(piece@ == brace_sub_rewrite(token_views(subs@)[k as int]));
                }
                let ghost prev_pieces = pieces@;
                pieces.push(str_to_chars(piece.as_str()));
                proof {
                    let pv = charss_view(pieces@);
                    let target = token_views(subs@).subrange(0, k as int + 1).map_values(
                        |st: (Seq<char>, Seq<char>)| brace_sub_rewrite(st),
                    );
                    assert(charss_view(prev_pieces).len() == token_views(subs@).subrange(
                        0,
                        k as int,
                    ).map_values(|st: (Seq<char>, Seq<char>)| brace_sub_rewrite(st)).len());
                    assert(prev_pieces.len() == k as int);
                    assert(pv.len() == target.len());
                    assert forall|j: int| 0 <= j < pv.len() implies pv[j] == target[j] by {
                        assert(pv[j] == pieces@[j]@);
                        if j < k {
                            assert(pieces@[j] == prev_pieces[j]);
                            assert(charss_view(prev_pieces)[j] == token_views(subs@).subrange(
                                0,
                                k as int,
                            ).map_values(
                                |st: (Seq<char>, Seq<char>)| brace_sub_rewrite(st),
                            )[j]);
                            assert(token_views(subs@).subrange(0, k as int)[j] == token_views(
                                subs@,
                            ).subrange(0, k as int + 1)[j]);
                        } else {
                            assert(pieces@[j]@ == piece@);
                        }
                    }
                    assert(pv =~~= target);
                }
                k += 1;
            }
            proof {
                assert(token_views(subs@).subrange(0, subs@.len() as int) =~= token_views(
                    subs@,
                ));
            }
            let joined = join_spaces_from(&pieces, 0);
            proof {
                assert(charss_view(pieces@).subrange(0, pieces@.len() as int) =~= charss_view(
                    pieces@,
                ));
            }
            set_pair(tokens, i, marker, chars_to_string(&joined));
        }
        i += 1;
    }
    proof {
        assert(token_views(tokens@) =~= brace_pass(token_views(old(tokens)@)));
    }
}

} // verus!
