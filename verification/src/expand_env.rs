//! Environment-variable expansion.
//!
//! Recognizes `$NAME` and `${NAME}` where `NAME` is made of ASCII letters,
//! digits and underscores, plus the special forms `$?` (previous exit
//! status) and `$$` (process id). A reference resolves through the process
//! environment snapshot first, then the session-local map, and an undefined
//! variable is replaced by the empty string, leaving the surrounding text
//! intact. A `$` that starts no recognized reference stays literal.

use vstd::prelude::*;
use crate::chars_util::{
    append_chars, chars_to_string, copy_range, dec_digits, i32_dec_chars, int_to_dec,
    str_to_chars, u64_dec_chars,
};
use crate::parser_line::{set_pair, token_views};
use crate::shell::{assoc_find, shell_var_value, Shell};

verus! {

/// Characters a variable name is made of.
pub open spec fn is_name_char(c: char) -> bool {
    ('A' as u32 <= c as u32 && c as u32 <= 'Z' as u32) || ('a' as u32 <= c as u32 && c as u32
        <= 'z' as u32) || ('0' as u32 <= c as u32 && c as u32 <= '9' as u32) || c == '_'
}

pub fn is_name_char_exec(c: char) -> (r: bool)
    ensures
        r == is_name_char(c),
{
    (c >= 'A' && c <= 'Z') || (c >= 'a' && c <= 'z') || (c >= '0' && c <= '9') || c == '_'
}

/// Length of the run of name characters starting at `j`.
pub open spec fn name_run_len(s: Seq<char>, j: int) -> nat
    decreases s.len() - j,
{
    if 0 <= j < s.len() && is_name_char(s[j]) {
        1 + name_run_len(s, j + 1)
    } else {
        0
    }
}

proof fn lemma_name_run_char(s: Seq<char>, a: int, b: int)
    requires
        0 <= a <= b <= s.len(),
        forall|m: int| a <= m < b ==> is_name_char(s[m]),
        b == s.len() || !is_name_char(s[b]),
    ensures
        name_run_len(s, a) == b - a,
    decreases b - a,
{
    if a < b {
        lemma_name_run_char(s, a + 1, b);
    }
}

/// The text with every variable reference at or after position `i` replaced
/// by its value.
pub open spec fn env_expand_from(sh: Shell, s: Seq<char>, i: int) -> Seq<char>
    decreases s.len() - i,
    via check_env_expand_from
{
    if i < 0 || i >= s.len() {
        Seq::empty()
    } else if s[i] == '$' && i + 1 < s.len() && s[i + 1] == '?' {
        int_to_dec(sh.previous_status as int) + env_expand_from(sh, s, i + 2)
    } else if s[i] == '$' && i + 1 < s.len() && s[i + 1] == '$' {
        dec_digits(sh.pid as nat) + env_expand_from(sh, s, i + 2)
    } else if s[i] == '$' && i + 1 < s.len() && s[i + 1] == '{' {
        let n = name_run_len(s, i + 2) as int;
        if n > 0 && i + 2 + n < s.len() && s[i + 2 + n] == '}' {
            shell_var_value(sh, s.subrange(i + 2, i + 2 + n)) + env_expand_from(sh, s, i + 3 + n)
        } else {
            seq!['$'] + env_expand_from(sh, s, i + 1)
        }
    } else if s[i] == '$' && i + 1 < s.len() && is_name_char(s[i + 1]) {
        let n = name_run_len(s, i + 1) as int;
        shell_var_value(sh, s.subrange(i + 1, i + 1 + n)) + env_expand_from(sh, s, i + 1 + n)
    } else {
        seq![s[i]] + env_expand_from(sh, s, i + 1)
    }
}

proof fn lemma_name_run_le(s: Seq<char>, j: int)
    ensures
        j + name_run_len(s, j) <= s.len() || name_run_len(s, j) == 0,
    decreases s.len() - j,
{
    if 0 <= j < s.len() && is_name_char(s[j]) {
        lemma_name_run_le(s, j + 1);
    }
}

#[via_fn]
proof fn check_env_expand_from(sh: Shell, s: Seq<char>, i: int) {
    lemma_name_run_le(s, i + 1);
    lemma_name_run_le(s, i + 2);
}

/// The fully expanded text of one token.
pub open spec fn env_expand_spec(sh: Shell, s: Seq<char>) -> Seq<char> {
    env_expand_from(sh, s, 0)
}

/// The resolved value of a variable name.
pub fn var_value(sh: &Shell, name: &Vec<char>) -> (r: Vec<char>)
    ensures
        r@ == shell_var_value(*sh, name@),
{
    match assoc_find(&sh.proc_envs, name) {
        Some(v) => str_to_chars(v.as_str()),
        None => match assoc_find(&sh.envs, name) {
            Some(v) => str_to_chars(v.as_str()),
            None => Vec::new(),
        },
    }
}

/// Expands every variable reference in `token`, quote characters in the text
/// notwithstanding.
pub fn extend_env_blindly(sh: &Shell, token: &str) -> (r: String)
    ensures
        r@ == env_expand_spec(*sh, token@),
{
    let s = str_to_chars(token);
    let mut out: Vec<char> = Vec::new();
    let mut i: usize = 0;
    proof {
        assert(out@ + env_expand_from(*sh, token@, 0) =~= env_expand_from(*sh, token@, 0));
    }
    while i < s.len()
        invariant
            i <= s@.len(),
            s@ == token@,
            env_expand_from(*sh, token@, 0) == out@ + env_expand_from(*sh, token@, i as int),
        decreases s@.len() - i,
    {
        let ghost pre = out@;
        let ghost ii = i as int;
        let c = s[i];
        if c == '$' && i + 1 < s.len() && s[i + 1] == '?' {
            let d = i32_dec_chars(sh.previous_status);
            append_chars(&mut out, &d);
            i += 2;
        } else if c == '$' && i + 1 < s.len() && s[i + 1] == '$' {
            let d = u64_dec_chars(sh.pid as u64);
            append_chars(&mut out, &d);
            i += 2;
        } else if c == '$' && i + 1 < s.len() && s[i + 1] == '{' {
            let mut j = i + 2;
            while j < s.len() && is_name_char_exec(s[j])
                invariant
                    ii + 2 <= j <= s@.len(),
                    ii + 2 <= s@.len(),
                    forall|m: int| ii + 2 <= m < j ==> is_name_char(s@[m]),
                decreases s@.len() - j,
            {
                j += 1;
            }
            proof {
                lemma_name_run_char(s@, ii + 2, j as int);
            }
            if j > i + 2 && j < s.len() && s[j] == '}' {
                let name = copy_range(&s, i + 2, j);
                let v = var_value(sh, &name);
                append_chars(&mut out, &v);
                i = j + 1;
            } else {
                out.push('$');
                i += 1;
            }
        } else if c == '$' && i + 1 < s.len() && is_name_char_exec(s[i + 1]) {
            let mut j = i + 1;
            while j < s.len() && is_name_char_exec(s[j])
                invariant
                    ii + 1 <= j <= s@.len(),
                    ii + 1 <= s@.len(),
                    forall|m: int| ii + 1 <= m < j ==> is_name_char(s@[m]),
                decreases s@.len() - j,
            {
                j += 1;
            }
            proof {
                lemma_name_run_char(s@, ii + 1, j as int);
            }
            let name = copy_range(&s, i + 1, j);
            let v = var_value(sh, &name);
            append_chars(&mut out, &v);
            i = j;
        } else {
            out.push(c);
            i += 1;
        }
        proof {
            assert(pre + env_expand_from(*sh, token@, ii) =~= out@ + env_expand_from(
                *sh,
                token@,
                i as int,
            ));
        }
    }
    proof {
        assert(env_expand_from(*sh, token@, 0) =~= out@);
    }
    chars_to_string(&out)
}

/// A marker that makes a token inert to variable expansion: single-quoted
/// or backtick-marked.
pub open spec fn env_skips_marker(m: Seq<char>) -> bool {
    m == seq!['`'] || m == seq!['\'']
}

pub open spec fn env_token_rewrite(sh: Shell, t: (Seq<char>, Seq<char>)) -> (Seq<char>, Seq<char>) {
    if env_skips_marker(t.0) {
        t
    } else {
        (t.0, env_expand_spec(sh, t.1))
    }
}

/// The variable-expansion pass over a whole token sequence.
pub open spec fn env_pass(sh: Shell, ts: Seq<(Seq<char>, Seq<char>)>) -> Seq<
    (Seq<char>, Seq<char>),
> {
    ts.map_values(|t: (Seq<char>, Seq<char>)| env_token_rewrite(sh, t))
}

/// Applies variable expansion to the text of every token whose marker is not
/// a single quote or a backtick; markers and positions are kept.
pub fn expand_env(sh: &Shell, tokens: &mut Vec<(String, String)>)
    ensures
        token_views(final(tokens)@) == env_pass(*sh, token_views(old(tokens)@)),
{
    let mut i: usize = 0;
    while i < tokens.len()
        invariant
            i <= tokens@.len(),
            tokens@.len() == old(tokens)@.len(),
            forall|k: int| i <= k < tokens@.len() ==> tokens@[k] == old(tokens)@[k],
            forall|k: int|
                0 <= k < i ==> (tokens@[k].0@, tokens@[k].1@) == env_token_rewrite(
                    *sh,
                    (old(tokens)@[k].0@, old(tokens)@[k].1@),
                ),
        decreases tokens@.len() - i,
    {
        let marker = tokens[i].0.clone();
        let mk = str_to_chars(marker.as_str());
        let skip = mk.len() == 1 && (mk[0] == '`' || mk[0] == '\'');
        proof {
            if skip {
                assert(mk@ =~= seq![mk@[0]]);
            }
            assert(skip == env_skips_marker(marker@));
        }
        if !skip {
            let newtext = extend_env_blindly(sh, tokens[i].1.as_str());
            set_pair(tokens, i, marker, newtext);
        }
        i += 1;
    }
    proof {
        assert(token_views(tokens@) =~= env_pass(*sh, token_views(old(tokens)@)));
    }
}

/// The line with every variable reference outside single and backtick quotes
/// replaced; `quote` is the quote currently open at position `i`. Text inside
/// double quotes is still expanded; text inside single or backtick quotes is
/// copied verbatim.
pub open spec fn line_env_from(sh: Shell, s: Seq<char>, i: int, quote: Option<char>) -> Seq<char>
    decreases s.len() - i,
    via check_line_env_from
{
    if i < 0 || i >= s.len() {
        Seq::empty()
    } else {
        let c = s[i];
        if quote == Some('\'') || quote == Some('`') {
            let q = if quote == Some('\'') {
                '\''
            } else {
                '`'
            };
            seq![c] + line_env_from(
                sh,
                s,
                i + 1,
                if c == q {
                    None
                } else {
                    quote
                },
            )
        } else if c == '\'' || c == '`' {
            if quote is None {
                seq![c] + line_env_from(sh, s, i + 1, Some(c))
            } else {
                seq![c] + line_env_from(sh, s, i + 1, quote)
            }
        } else if c == '"' {
            seq![c] + line_env_from(
                sh,
                s,
                i + 1,
                if quote is None {
                    Some('"')
                } else {
                    None
                },
            )
        } else if c == '$' && i + 1 < s.len() && s[i + 1] == '?' {
            int_to_dec(sh.previous_status as int) + line_env_from(sh, s, i + 2, quote)
        } else if c == '$' && i + 1 < s.len() && s[i + 1] == '$' {
            dec_digits(sh.pid as nat) + line_env_from(sh, s, i + 2, quote)
        } else if c == '$' && i + 1 < s.len() && s[i + 1] == '{' {
            let n = name_run_len(s, i + 2) as int;
            if n > 0 && i + 2 + n < s.len() && s[i + 2 + n] == '}' {
                shell_var_value(sh, s.subrange(i + 2, i + 2 + n)) + line_env_from(
                    sh,
                    s,
                    i + 3 + n,
                    quote,
                )
            } else {
                seq!['$'] + line_env_from(sh, s, i + 1, quote)
            }
        } else if c == '$' && i + 1 < s.len() && is_name_char(s[i + 1]) {
            let n = name_run_len(s, i + 1) as int;
            shell_var_value(sh, s.subrange(i + 1, i + 1 + n)) + line_env_from(sh, s, i + 1 + n, quote)
        } else {
            seq![c] + line_env_from(sh, s, i + 1, quote)
        }
    }
}

#[via_fn]
proof fn check_line_env_from(sh: Shell, s: Seq<char>, i: int, quote: Option<char>) {
    lemma_name_run_le(s, i + 1);
    lemma_name_run_le(s, i + 2);
}

/// Rewrites a whole line, expanding variable references that stand outside
/// single and backtick quotes.
pub fn extend_env(sh: &Shell, line: &mut String)
    ensures
        final(line)@ == line_env_from(*sh, old(line)@, 0, None),
{
    let s = str_to_chars(line.as_str());
    let mut out: Vec<char> = Vec::new();
    let mut quote: Option<char> = None;
    let mut i: usize = 0;
    proof {
        assert(out@ + line_env_from(*sh, old(line)@, 0, None) =~= line_env_from(
            *sh,
            old(line)@,
            0,
            None,
        ));
    }
    while i < s.len()
        invariant
            i <= s@.len(),
            s@ == old(line)@,
            line_env_from(*sh, old(line)@, 0, None) == out@ + line_env_from(
                *sh,
                old(line)@,
                i as int,
                quote,
            ),
        decreases s@.len() - i,
    {
        let ghost pre = out@;
        let ghost ii = i as int;
        let ghost q0 = quote;
        let c = s[i];
        let suppressed = match quote {
            Some(q) => q == '\'' || q == '`',
            None => false,
        };
        if suppressed {
            let q = match quote {
                Some(q) => q,
                None => ' ',
            };
            out.push(c);
            if c == q {
                quote = None;
            }
            i += 1;
        } else if c == '\'' || c == '`' {
            out.push(c);
            if quote.is_none() {
                quote = Some(c);
            }
            i += 1;
        } else if c == '"' {
            out.push(c);
            quote = if quote.is_none() {
                Some('"')
            } else {
                None
            };
            i += 1;
        } else if c == '$' && i + 1 < s.len() && s[i + 1] == '?' {
            let d = i32_dec_chars(sh.previous_status);
            append_chars(&mut out, &d);
            i += 2;
        } else if c == '$' && i + 1 < s.len() && s[i + 1] == '$' {
            let d = u64_dec_chars(sh.pid as u64);
            append_chars(&mut out, &d);
            i += 2;
        } else if c == '$' && i + 1 < s.len() && s[i + 1] == '{' {
            let mut j = i + 2;
            while j < s.len() && is_name_char_exec(s[j])
                invariant
                    ii + 2 <= j <= s@.len(),
                    ii + 2 <= s@.len(),
                    forall|m: int| ii + 2 <= m < j ==> is_name_char(s@[m]),
                decreases s@.len() - j,
            {
                j += 1;
            }
            proof {
                lemma_name_run_char(s@, ii + 2, j as int);
            }
            if j > i + 2 && j < s.len() && s[j] == '}' {
                let name = copy_range(&s, i + 2, j);
                let v = var_value(sh, &name);
                append_chars(&mut out, &v);
                i = j + 1;
            } else {
                out.push('$');
                i += 1;
            }
        } else if c == '$' && i + 1 < s.len() && is_name_char_exec(s[i + 1]) {
            let mut j = i + 1;
            while j < s.len() && is_name_char_exec(s[j])
                invariant
                    ii + 1 <= j <= s@.len(),
                    ii + 1 <= s@.len(),
                    forall|m: int| ii + 1 <= m < j ==> is_name_char(s@[m]),
                decreases s@.len() - j,
            {
                j += 1;
            }
            proof {
                lemma_name_run_char(s@, ii + 1, j as int);
            }
            let name = copy_range(&s, i + 1, j);
            let v = var_value(sh, &name);
            append_chars(&mut out, &v);
            i = j;
        } else {
            out.push(c);
            i += 1;
        }
        proof {
            assert(pre + line_env_from(*sh, old(line)@, ii, q0) =~= out@ + line_env_from(
                *sh,
                old(line)@,
                i as int,
                quote,
            ));
        }
    }
    proof {
        assert(line_env_from(*sh, old(line)@, 0, None) =~= out@);
    }
    *line = chars_to_string(&out);
}

/// No `$` occurs in the text.
pub open spec fn dollar_free(s: Seq<char>) -> bool {
    forall|j: int| 0 <= j < s.len() ==> s[j] != '$'
}

proof fn lemma_env_expand_no_dollar_from(sh: Shell, s: Seq<char>, i: int)
    requires
        0 <= i <= s.len(),
        dollar_free(s),
    ensures
        env_expand_from(sh, s, i) == s.subrange(i, s.len() as int),
    decreases s.len() - i,
{
    if i < s.len() {
        lemma_env_expand_no_dollar_from(sh, s, i + 1);
        assert(env_expand_from(sh, s, i) =~= s.subrange(i, s.len() as int));
    } else {
        assert(env_expand_from(sh, s, i) =~= s.subrange(i, s.len() as int));
    }
}

/// A token text containing no `$` is left unchanged by variable expansion.
pub proof fn lemma_env_expand_no_dollar(sh: Shell, s: Seq<char>)
    requires
        dollar_free(s),
    ensures
        env_expand_spec(sh, s) == s,
{
    lemma_env_expand_no_dollar_from(sh, s, 0);
    assert(s.subrange(0, s.len() as int) =~= s);
}

/// Variable expansion is idempotent on a fully expanded token sequence:
/// when no token text still contains a `$`, the pass returns its input, so
/// running it twice yields the same sequence as running it once.
pub proof fn lemma_env_pass_idempotent(sh: Shell, ts: Seq<(Seq<char>, Seq<char>)>)
    requires
        forall|k: int| 0 <= k < ts.len() ==> dollar_free(#[trigger] ts[k].1),
    ensures
        env_pass(sh, ts) == ts,
        env_pass(sh, env_pass(sh, ts)) == env_pass(sh, ts),
{
    assert forall|k: int| 0 <= k < ts.len() implies env_token_rewrite(sh, ts[k]) == ts[k] by {
        if !env_skips_marker(ts[k].0) {
            lemma_env_expand_no_dollar(sh, ts[k].1);
        }
    }
    assert(env_pass(sh, ts) =~= ts);
}

} // verus!
