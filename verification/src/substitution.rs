//! Command substitution. The core only detects the substitution spans —
//! backtick-delimited, non-nested, and parenthesis-balanced `$(...)` — and
//! splices in whatever text the execution subsystem captured for each
//! enclosed command, preserving everything outside the spans verbatim.
//! Running the commands is the collaborator's business: its answers are
//! handed in as a list of (command, captured output) pairs, and a span whose
//! command has no entry there is left as it stands. Trailing newlines of a
//! captured output are trimmed at the splice.

use vstd::prelude::*;
use crate::chars_util::{
    append_chars, chars_to_string, copy_range, delim_end, delim_end_exec, find_char_from,
    lemma_delim_end_bounds, str_to_chars, until_char_len,
};
use crate::parser_line::{set_pair, token_views};
use crate::shell::{assoc_find, assoc_view, entries_get};

verus! {

/// The line holds a `$(...)` span with at least one character inside and no
/// `)` before the closing one.
pub open spec fn dollar_span_at(s: Seq<char>, i: int, k: int) -> bool {
    &&& 0 <= i
    &&& i + 2 < k < s.len()
    &&& s[i] == '$'
    &&& s[i + 1] == '('
    &&& s[k] == ')'
    &&& forall|m: int| i + 2 <= m < k ==> s[m] != ')'
}

pub open spec fn should_do_dollar_command_extension_spec(s: Seq<char>) -> bool {
    exists|i: int, k: int| dollar_span_at(s, i, k)
}

/// Tests whether the line holds a `$(...)` command span.
pub fn should_do_dollar_command_extension(line: &str) -> (r: bool)
    ensures
        r == should_do_dollar_command_extension_spec(line@),
{
    let s = str_to_chars(line);
    let mut i: usize = 0;
    while i < s.len()
        invariant
            i <= s@.len(),
            s@ == line@,
            forall|a: int, k: int| 0 <= a < i ==> !(#[trigger] dollar_span_at(line@, a, k)),
        decreases s@.len() - i,
    {
        if s[i] == '$' && i + 1 < s.len() && s[i + 1] == '(' && i + 2 < s.len() {
            let k = find_char_from(&s, ')', i + 2);
            if k < s.len() && k > i + 2 {
                proof {
                    assert(dollar_span_at(line@, i as int, k as int));
                }
                return true;
            }
            proof {
                assert forall|k2: int| !(#[trigger] dollar_span_at(line@, i as int, k2)) by {
                    if dollar_span_at(line@, i as int, k2) {
                        assert(line@[k2] == ')');
                    }
                }
            }
        } else {
            proof {
                assert forall|k2: int| !(#[trigger] dollar_span_at(line@, i as int, k2)) by {}
            }
        }
        i += 1;
    }
    false
}

/// The line holds a non-empty backtick span.
pub open spec fn backtick_span_at(s: Seq<char>, i: int, k: int) -> bool {
    &&& 0 <= i
    &&& i + 1 < k < s.len()
    &&& s[i] == '`'
    &&& s[k] == '`'
    &&& forall|m: int| i < m < k ==> s[m] != '`'
}

pub open spec fn should_do_dot_command_extension_spec(s: Seq<char>) -> bool {
    exists|i: int, k: int| backtick_span_at(s, i, k)
}

/// Tests whether the line holds a backtick command span.
pub fn should_do_dot_command_extension(line: &str) -> (r: bool)
    ensures
        r == should_do_dot_command_extension_spec(line@),
{
    let s = str_to_chars(line);
    let mut i: usize = 0;
    while i < s.len()
        invariant
            i <= s@.len(),
            s@ == line@,
            forall|a: int, k: int| 0 <= a < i ==> !(#[trigger] backtick_span_at(line@, a, k)),
        decreases s@.len() - i,
    {
        if s[i] == '`' && i + 1 < s.len() {
            let k = find_char_from(&s, '`', i + 1);
            if k < s.len() && k > i + 1 {
                proof {
                    assert(backtick_span_at(line@, i as int, k as int));
                }
                return true;
            }
            proof {
                assert forall|k2: int| !(#[trigger] backtick_span_at(line@, i as int, k2)) by {
                    if backtick_span_at(line@, i as int, k2) {
                        assert(line@[k2] == '`');
                    }
                }
            }
        } else {
            proof {
                assert forall|k2: int| !(#[trigger] backtick_span_at(line@, i as int, k2)) by {}
            }
        }
        i += 1;
    }
    false
}

/// The captured output with its trailing newlines trimmed.
pub open spec fn trim_trailing_newlines(s: Seq<char>) -> Seq<char>
    decreases s.len(),
{
    if s.len() > 0 && s.last() == '\n' {
        trim_trailing_newlines(s.drop_last())
    } else {
        s
    }
}

fn trim_trailing_newlines_exec(v: &Vec<char>) -> (r: Vec<char>)
    ensures
        r@ == trim_trailing_newlines(v@),
{
    let mut b: usize = v.len();
    proof {
        assert(v@.subrange(0, v@.len() as int) =~= v@);
    }
    while b > 0 && v[b - 1] == '\n'
        invariant
            b <= v@.len(),
            trim_trailing_newlines(v@) == trim_trailing_newlines(v@.subrange(0, b as int)),
        decreases b,
    {
        proof {
            assert(v@.subrange(0, b as int).drop_last() =~= v@.subrange(0, b - 1 as int));
        }
        b -= 1;
    }
    proof {
        assert(trim_trailing_newlines(v@.subrange(0, b as int)) == v@.subrange(0, b as int));
    }
    copy_range(v, 0, b)
}

/// The text from `i` on with every backtick span whose command has a
/// captured output replaced by that output, trailing newlines trimmed; a
/// span with no entry, and an unmatched backtick, stay as they are.
pub open spec fn subst_backtick_from(
    s: Seq<char>,
    i: int,
    outs: Seq<(Seq<char>, Seq<char>)>,
) -> Seq<char>
    decreases s.len() - i,
    via check_subst_backtick_from
{
    if i < 0 || i >= s.len() {
        Seq::empty()
    } else if s[i] == '`' {
        let close = i + 1 + until_char_len(s, '`', i + 1) as int;
        if close >= s.len() {
            seq![s[i]] + subst_backtick_from(s, i + 1, outs)
        } else {
            match entries_get(outs, s.subrange(i + 1, close)) {
                Some(out) => trim_trailing_newlines(out) + subst_backtick_from(s, close + 1, outs),
                None => s.subrange(i, close + 1) + subst_backtick_from(s, close + 1, outs),
            }
        }
    } else {
        seq![s[i]] + subst_backtick_from(s, i + 1, outs)
    }
}

#[via_fn]
proof fn check_subst_backtick_from(s: Seq<char>, i: int, outs: Seq<(Seq<char>, Seq<char>)>) {
    crate::chars_util::lemma_until_char_le(s, '`', i + 1);
}

/// The text from `i` on with every `$(...)` span whose command has a
/// captured output replaced by that output, trailing newlines trimmed; a
/// span with no entry, and a `$(` with no balancing `)`, stay as they are.
pub open spec fn subst_dollar_from(
    s: Seq<char>,
    i: int,
    outs: Seq<(Seq<char>, Seq<char>)>,
) -> Seq<char>
    decreases s.len() - i,
    via check_subst_dollar_from
{
    if i < 0 || i >= s.len() {
        Seq::empty()
    } else if s[i] == '$' && i + 1 < s.len() && s[i + 1] == '(' {
        let close = delim_end(s, '(', ')', i + 2, 1);
        if close >= s.len() {
            seq![s[i]] + subst_dollar_from(s, i + 1, outs)
        } else {
            match entries_get(outs, s.subrange(i + 2, close)) {
                Some(out) => trim_trailing_newlines(out) + subst_dollar_from(s, close + 1, outs),
                None => s.subrange(i, close + 1) + subst_dollar_from(s, close + 1, outs),
            }
        }
    } else {
        seq![s[i]] + subst_dollar_from(s, i + 1, outs)
    }
}

#[via_fn]
proof fn check_subst_dollar_from(s: Seq<char>, i: int, outs: Seq<(Seq<char>, Seq<char>)>) {
    lemma_delim_end_bounds(s, '(', ')', i + 2, 1);
}

proof fn lemma_str_views_push(v: Seq<String>, x: String)
    ensures
        crate::parser_line::str_views(v.push(x)) == crate::parser_line::str_views(v).push(x@),
{
    assert(crate::parser_line::str_views(v.push(x)) =~= crate::parser_line::str_views(v).push(
        x@,
    ));
}

/// Splices captured outputs into the backtick spans of one text.
pub fn apply_backtick_substitution(text: &str, outputs: &Vec<(String, String)>) -> (r: String)
    ensures
        r@ == subst_backtick_from(text@, 0, assoc_view(outputs@)),
{
    let s = str_to_chars(text);
    let mut out: Vec<char> = Vec::new();
    let mut i: usize = 0;
    proof {
        assert(out@ + subst_backtick_from(text@, 0, assoc_view(outputs@)) =~= subst_backtick_from(
            text@,
            0,
            assoc_view(outputs@),
        ));
    }
    while i < s.len()
        invariant
            i <= s@.len(),
            s@ == text@,
            subst_backtick_from(text@, 0, assoc_view(outputs@)) == out@ + subst_backtick_from(
                text@,
                i as int,
                assoc_view(outputs@),
            ),
        decreases s@.len() - i,
    {
        let ghost pre = out@;
        let ghost ii = i as int;
        let c = s[i];
        if c == '`' {
            let close = find_char_from(&s, '`', i + 1);
            if close >= s.len() {
                out.push(c);
                i += 1;
            } else {
                let cmd = copy_range(&s, i + 1, close);
                match assoc_find(outputs, &cmd) {
                    Some(captured) => {
                        let cv = str_to_chars(captured.as_str());
                        let trimmed = trim_trailing_newlines_exec(&cv);
                        append_chars(&mut out, &trimmed);
                    },
                    None => {
                        let span = copy_range(&s, i, close + 1);
                        append_chars(&mut out, &span);
                    },
                }
                i = close + 1;
            }
        } else {
            out.push(c);
            i += 1;
        }
        proof {
            assert(pre + subst_backtick_from(text@, ii, assoc_view(outputs@)) =~= out@
                + subst_backtick_from(text@, i as int, assoc_view(outputs@)));
        }
    }
    proof {
        assert(subst_backtick_from(text@, 0, assoc_view(outputs@)) =~= out@);
    }
    chars_to_string(&out)
}

/// Splices captured outputs into the `$(...)` spans of one text.
pub fn apply_dollar_substitution(text: &str, outputs: &Vec<(String, String)>) -> (r: String)
    ensures
        r@ == subst_dollar_from(text@, 0, assoc_view(outputs@)),
{
    let s = str_to_chars(text);
    let mut out: Vec<char> = Vec::new();
    let mut i: usize = 0;
    proof {
        assert(out@ + subst_dollar_from(text@, 0, assoc_view(outputs@)) =~= subst_dollar_from(
            text@,
            0,
            assoc_view(outputs@),
        ));
    }
    while i < s.len()
        invariant
            i <= s@.len(),
            s@ == text@,
            subst_dollar_from(text@, 0, assoc_view(outputs@)) == out@ + subst_dollar_from(
                text@,
                i as int,
                assoc_view(outputs@),
            ),
        decreases s@.len() - i,
    {
        let ghost pre = out@;
        let ghost ii = i as int;
        let c = s[i];
        if c == '$' && i + 1 < s.len() && s[i + 1] == '(' {
            let close = delim_end_exec(&s, '(', ')', i + 2);
            if close >= s.len() {
                out.push(c);
                i += 1;
            } else {
                let cmd = copy_range(&s, i + 2, close);
                match assoc_find(outputs, &cmd) {
                    Some(captured) => {
                        let cv = str_to_chars(captured.as_str());
                        let trimmed = trim_trailing_newlines_exec(&cv);
                        append_chars(&mut out, &trimmed);
                    },
                    None => {
                        let span = copy_range(&s, i, close + 1);
                        append_chars(&mut out, &span);
                    },
                }
                i = close + 1;
            }
        } else {
            out.push(c);
            i += 1;
        }
        proof {
            assert(pre + subst_dollar_from(text@, ii, assoc_view(outputs@)) =~= out@
                + subst_dollar_from(text@, i as int, assoc_view(outputs@)));
        }
    }
    proof {
        assert(subst_dollar_from(text@, 0, assoc_view(outputs@)) =~= out@);
    }
    chars_to_string(&out)
}

/// The rewrite of one token under command substitution: a single-quoted
/// token is inert; a backtick-marked token is one command, replaced whole
/// by its captured output when one was handed in; any other token has its
/// backtick spans and then its `$(...)` spans spliced.
pub open spec fn subst_token_rewrite(
    t: (Seq<char>, Seq<char>),
    outs: Seq<(Seq<char>, Seq<char>)>,
) -> (Seq<char>, Seq<char>) {
    if t.0 == seq!['\''] {
        t
    } else if t.0 == seq!['`'] {
        match entries_get(outs, t.1) {
            Some(out) => (t.0, trim_trailing_newlines(out)),
            None => t,
        }
    } else {
        (t.0, subst_dollar_from(subst_backtick_from(t.1, 0, outs), 0, outs))
    }
}

/// The command-substitution pass over a whole token sequence.
pub open spec fn subst_pass(
    ts: Seq<(Seq<char>, Seq<char>)>,
    outs: Seq<(Seq<char>, Seq<char>)>,
) -> Seq<(Seq<char>, Seq<char>)> {
    ts.map_values(|t: (Seq<char>, Seq<char>)| subst_token_rewrite(t, outs))
}

/// Splices the captured outputs into every token: backtick spans first,
/// then `$(...)` spans, single-quoted tokens left inert. Markers and
/// positions are kept.
pub fn do_command_substitution(tokens: &mut Vec<(String, String)>, outputs: &Vec<(String, String)>)
    ensures
        token_views(final(tokens)@) == subst_pass(token_views(old(tokens)@), assoc_view(outputs@)),
{
    let mut i: usize = 0;
    while i < tokens.len()
        invariant
            i <= tokens@.len(),
            tokens@.len() == old(tokens)@.len(),
            forall|k: int| i <= k < tokens@.len() ==> tokens@[k] == old(tokens)@[k],
            forall|k: int|
                0 <= k < i ==> (tokens@[k].0@, tokens@[k].1@) == subst_token_rewrite(
                    (old(tokens)@[k].0@, old(tokens)@[k].1@),
                    assoc_view(outputs@),
                ),
        decreases tokens@.len() - i,
    {
        let marker = tokens[i].0.clone();
        let mk = str_to_chars(marker.as_str());
        let single = mk.len() == 1 && mk[0] == '\'';
        let backtick = mk.len() == 1 && mk[0] == '`';
        proof {
            if mk@.len() == 1 {
                assert(mk@ =~= seq![mk@[0]]);
            }
            assert(single == (marker@ == seq!['\'']));
            assert(backtick == (marker@ == seq!['`']));
        }
        if !single {
            if backtick {
                let cmd = str_to_chars(tokens[i].1.as_str());
                match assoc_find(outputs, &cmd) {
                    Some(captured) => {
                        let cv = str_to_chars(captured.as_str());
                        let trimmed = trim_trailing_newlines_exec(&cv);
                        set_pair(tokens, i, marker, chars_to_string(&trimmed));
                    },
                    None => {},
                }
            } else {
                let after_dot = apply_backtick_substitution(tokens[i].1.as_str(), outputs);
                let after_dollar = apply_dollar_substitution(after_dot.as_str(), outputs);
                set_pair(tokens, i, marker, after_dollar);
            }
        }
        i += 1;
    }
    proof {
        assert(token_views(tokens@) =~= subst_pass(token_views(old(tokens)@), assoc_view(
            outputs@,
        )));
    }
}

/// The commands of the substitution spans in one text, in source order:
/// the enclosed text of each backtick span, then of each balanced `$(...)`
/// span.
pub open spec fn backtick_cmds_from(s: Seq<char>, i: int) -> Seq<Seq<char>>
    decreases s.len() - i,
    via check_backtick_cmds_from
{
    if i < 0 || i >= s.len() {
        Seq::empty()
    } else if s[i] == '`' {
        let close = i + 1 + until_char_len(s, '`', i + 1) as int;
        if close >= s.len() {
            backtick_cmds_from(s, i + 1)
        } else {
            seq![s.subrange(i + 1, close)] + backtick_cmds_from(s, close + 1)
        }
    } else {
        backtick_cmds_from(s, i + 1)
    }
}

#[via_fn]
proof fn check_backtick_cmds_from(s: Seq<char>, i: int) {
    crate::chars_util::lemma_until_char_le(s, '`', i + 1);
}

pub open spec fn dollar_cmds_from(s: Seq<char>, i: int) -> Seq<Seq<char>>
    decreases s.len() - i,
    via check_dollar_cmds_from
{
    if i < 0 || i >= s.len() {
        Seq::empty()
    } else if s[i] == '$' && i + 1 < s.len() && s[i + 1] == '(' {
        let close = delim_end(s, '(', ')', i + 2, 1);
        if close >= s.len() {
            dollar_cmds_from(s, i + 1)
        } else {
            seq![s.subrange(i + 2, close)] + dollar_cmds_from(s, close + 1)
        }
    } else {
        dollar_cmds_from(s, i + 1)
    }
}

#[via_fn]
proof fn check_dollar_cmds_from(s: Seq<char>, i: int) {
    lemma_delim_end_bounds(s, '(', ')', i + 2, 1);
}

/// The commands a token asks the execution subsystem to run.
pub open spec fn token_requests(t: (Seq<char>, Seq<char>)) -> Seq<Seq<char>> {
    if t.0 == seq!['\''] {
        Seq::empty()
    } else if t.0 == seq!['`'] {
        seq![t.1]
    } else {
        backtick_cmds_from(t.1, 0) + dollar_cmds_from(t.1, 0)
    }
}

fn backtick_cmds_exec(s: &Vec<char>) -> (r: Vec<String>)
    ensures
        crate::parser_line::str_views(r@) == backtick_cmds_from(s@, 0),
{
    let mut out: Vec<String> = Vec::new();
    let mut i: usize = 0;
    proof {
        assert(crate::parser_line::str_views(out@) + backtick_cmds_from(s@, 0)
            =~= backtick_cmds_from(s@, 0));
    }
    while i < s.len()
        invariant
            i <= s@.len(),
            backtick_cmds_from(s@, 0) == crate::parser_line::str_views(out@)
                + backtick_cmds_from(s@, i as int),
        decreases s@.len() - i,
    {
        let ghost pre = crate::parser_line::str_views(out@);
        let ghost ii = i as int;
        if s[i] == '`' {
            let close = find_char_from(s, '`', i + 1);
            if close >= s.len() {
                i += 1;
            } else {
                let cmd = copy_range(s, i + 1, close);
                out.push(chars_to_string(&cmd));
                i = close + 1;
            }
        } else {
            i += 1;
        }
        proof {
            assert(pre + backtick_cmds_from(s@, ii) =~= crate::parser_line::str_views(out@)
                + backtick_cmds_from(s@, i as int));
        }
    }
    proof {
        assert(backtick_cmds_from(s@, 0) =~= crate::parser_line::str_views(out@));
    }
    out
}

fn dollar_cmds_exec(s: &Vec<char>) -> (r: Vec<String>)
    ensures
        crate::parser_line::str_views(r@) == dollar_cmds_from(s@, 0),
{
    let mut out: Vec<String> = Vec::new();
    let mut i: usize = 0;
    proof {
        assert(crate::parser_line::str_views(out@) + dollar_cmds_from(s@, 0) =~= dollar_cmds_from(
            s@,
            0,
        ));
    }
    while i < s.len()
        invariant
            i <= s@.len(),
            dollar_cmds_from(s@, 0) == crate::parser_line::str_views(out@) + dollar_cmds_from(
                s@,
                i as int,
            ),
        decreases s@.len() - i,
    {
        let ghost pre = crate::parser_line::str_views(out@);
        let ghost ii = i as int;
        if s[i] == '$' && i + 1 < s.len() && s[i + 1] == '(' {
            let close = delim_end_exec(s, '(', ')', i + 2);
            if close >= s.len() {
                i += 1;
            } else {
                let cmd = copy_range(s, i + 2, close);
                out.push(chars_to_string(&cmd));
                i = close + 1;
            }
        } else {
            i += 1;
        }
        proof {
            assert(pre + dollar_cmds_from(s@, ii) =~= crate::parser_line::str_views(out@)
                + dollar_cmds_from(s@, i as int));
        }
    }
    proof {
        assert(dollar_cmds_from(s@, 0) =~= crate::parser_line::str_views(out@));
    }
    out
}

/// The commands of all substitution spans of a token sequence, in source
/// order.
pub open spec fn requests_spec(ts: Seq<(Seq<char>, Seq<char>)>) -> Seq<Seq<char>>
    decreases ts.len(),
{
    if ts.len() == 0 {
        Seq::empty()
    } else {
        token_requests(ts[0]) + requests_spec(ts.drop_first())
    }
}

/// Lists the commands the execution subsystem is asked to run and capture
/// for this token sequence; the host program answers them as the `outputs`
/// argument of `do_command_substitution`.
pub fn command_substitution_requests(tokens: &Vec<(String, String)>) -> (r: Vec<String>)
    ensures
        crate::parser_line::str_views(r@) == requests_spec(token_views(tokens@)),
{
    let mut out: Vec<String> = Vec::new();
    let mut i: usize = 0;
    proof {
        assert(token_views(tokens@).subrange(0, tokens@.len() as int) =~= token_views(tokens@));
        assert(crate::parser_line::str_views(out@) + requests_spec(token_views(tokens@))
            =~= requests_spec(token_views(tokens@)));
    }
    while i < tokens.len()
        invariant
            i <= tokens@.len(),
            requests_spec(token_views(tokens@)) == crate::parser_line::str_views(out@)
                + requests_spec(
                token_views(tokens@).subrange(i as int, tokens@.len() as int),
            ),
        decreases tokens@.len() - i,
    {
        let ghost pre = crate::parser_line::str_views(out@);
        let ghost rest = token_views(tokens@).subrange(i as int, tokens@.len() as int);
        proof {
            assert(rest[0] == (tokens@[i as int].0@, tokens@[i as int].1@));
            assert(rest.drop_first() =~= token_views(tokens@).subrange(
                i as int + 1,
                tokens@.len() as int,
            ));
        }
        let mk = str_to_chars(tokens[i].0.as_str());
        let single = mk.len() == 1 && mk[0] == '\'';
        let backtick = mk.len() == 1 && mk[0] == '`';
        proof {
            if mk@.len() == 1 {
                assert(mk@ =~= seq![mk@[0]]);
            }
        }
        if single {
        } else if backtick {
            out.push(tokens[i].1.clone());
        } else {
            let text = str_to_chars(tokens[i].1.as_str());
            let dots = backtick_cmds_exec(&text);
            let mut k: usize = 0;
            while k < dots.len()
                invariant
                    k <= dots@.len(),
                    crate::parser_line::str_views(out@) == pre + crate::parser_line::str_views(
                        dots@,
                    ).subrange(0, k as int),
                decreases dots@.len() - k,
            {
                let ghost before = out@;
                out.push(dots[k].clone());
                proof {
                    assert(out@ == before.push(dots@[k as int]));
                    lemma_str_views_push(before, dots@[k as int]);
                    assert(crate::parser_line::str_views(dots@)[k as int] == dots@[
                        k as int]@);
                    assert(crate::parser_line::str_views(out@) =~= pre
                        + crate::parser_line::str_views(dots@).subrange(0, k as int + 1));
                }
                k += 1;
            }
            let dollars = dollar_cmds_exec(&text);
            let ghost mid = crate::parser_line::str_views(out@);
            let mut k2: usize = 0;
            proof {
                assert(crate::parser_line::str_views(dots@).subrange(0, dots@.len() as int)
                    =~= crate::parser_line::str_views(dots@));
            }
            while k2 < dollars.len()
                invariant
                    k2 <= dollars@.len(),
                    crate::parser_line::str_views(out@) == mid + crate::parser_line::str_views(
                        dollars@,
                    ).subrange(0, k2 as int),
                decreases dollars@.len() - k2,
            {
                let ghost before = out@;
                out.push(dollars[k2].clone());
                proof {
                    assert(out@ == before.push(dollars@[k2 as int]));
                    lemma_str_views_push(before, dollars@[k2 as int]);
                    assert(crate::parser_line::str_views(dollars@)[k2 as int] == dollars@[
                        k2 as int]@);
                    assert(crate::parser_line::str_views(out@) =~= mid
                        + crate::parser_line::str_views(dollars@).subrange(0, k2 as int + 1));
                }
                k2 += 1;
            }
            proof {
                assert(crate::parser_line::str_views(dollars@).subrange(
                    0,
                    dollars@.len() as int,
                ) =~= crate::parser_line::str_views(dollars@));
            }
        }
        proof {
            assert(crate::parser_line::str_views(out@) =~= pre + token_requests(rest[0]));
            assert(pre + requests_spec(rest) =~= crate::parser_line::str_views(out@)
                + requests_spec(
                token_views(tokens@).subrange(i as int + 1, tokens@.len() as int),
            ));
        }
        i += 1;
    }
    proof {
        assert(token_views(tokens@).subrange(tokens@.len() as int, tokens@.len() as int).len()
            == 0);
        assert(requests_spec(token_views(tokens@)) =~= crate::parser_line::str_views(out@));
    }
    out
}

} // verus!
