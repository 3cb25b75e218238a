//! Home-directory expansion: a bare `~` bounded by start-of-text or a space
//! on one side and `/`, a space, or end-of-text on the other is replaced by
//! the invoking user's home directory. A `~` embedded in a word (`~foo`,
//! `a~b`, `~~`) is left untouched.

use vstd::prelude::*;
use crate::chars_util::{append_chars, chars_to_string, str_to_chars};
use crate::parser_line::{set_pair, token_views};
use crate::shell::{assoc_find, assoc_view, entries_get, Shell};

verus! {

/// The `~` at position `i` stands alone: start-of-text or a space on the
/// left; `/`, a space, or end-of-text on the right.
pub open spec fn tilde_bounded(s: Seq<char>, i: int) -> bool {
    &&& 0 <= i < s.len()
    &&& s[i] == '~'
    &&& (i == 0 || s[i - 1] == ' ')
    &&& (i + 1 == s.len() || s[i + 1] == '/' || s[i + 1] == ' ')
}

/// The text contains a `~` that home expansion would replace.
pub open spec fn needs_expand_home_spec(s: Seq<char>) -> bool {
    exists|i: int| tilde_bounded(s, i)
}

/// Tests whether the line contains a bare `~` to expand.
pub fn needs_expand_home(line: &str) -> (r: bool)
    ensures
        r == needs_expand_home_spec(line@),
{
    let s = str_to_chars(line);
    let mut i: usize = 0;
    while i < s.len()
        invariant
            i <= s@.len(),
            s@ == line@,
            forall|j: int| 0 <= j < i ==> !(#[trigger] tilde_bounded(line@, j)),
        decreases s@.len() - i,
    {
        if s[i] == '~' && (i == 0 || s[i - 1] == ' ') && (i + 1 == s.len() || s[i + 1] == '/'
            || s[i + 1] == ' ') {
            proof {
                assert(tilde_bounded(line@, i as int));
            }
            return true;
        }
        proof {
            assert(!tilde_bounded(line@, i as int));
        }
        i += 1;
    }
    false
}

/// The text from position `i` on, with every bare `~` replaced by `home`.
/// Whether a `~` is bare is judged against the original text.
pub open spec fn home_expand_from(s: Seq<char>, home: Seq<char>, i: int) -> Seq<char>
    decreases s.len() - i,
{
    if i < 0 || i >= s.len() {
        Seq::empty()
    } else if tilde_bounded(s, i) {
        home + home_expand_from(s, home, i + 1)
    } else {
        seq![s[i]] + home_expand_from(s, home, i + 1)
    }
}

pub open spec fn home_expand_spec(s: Seq<char>, home: Seq<char>) -> Seq<char> {
    home_expand_from(s, home, 0)
}

/// Replaces every bare `~` in `text` by `home`.
pub fn expand_home_string(text: &mut String, home: &str)
    ensures
        final(text)@ == home_expand_spec(old(text)@, home@),
{
    let s = str_to_chars(text.as_str());
    let h = str_to_chars(home);
    let mut out: Vec<char> = Vec::new();
    let mut i: usize = 0;
    proof {
        assert(out@ + home_expand_from(old(text)@, home@, 0) =~= home_expand_from(
            old(text)@,
            home@,
            0,
        ));
    }
    while i < s.len()
        invariant
            i <= s@.len(),
            s@ == old(text)@,
            h@ == home@,
            home_expand_from(old(text)@, home@, 0) == out@ + home_expand_from(
                old(text)@,
                home@,
                i as int,
            ),
        decreases s@.len() - i,
    {
        let ghost pre = out@;
        let ghost ii = i as int;
        if s[i] == '~' && (i == 0 || s[i - 1] == ' ') && (i + 1 == s.len() || s[i + 1] == '/'
            || s[i + 1] == ' ') {
            proof {
                assert(tilde_bounded(old(text)@, ii));
            }
            append_chars(&mut out, &h);
        } else {
            proof {
                assert(!tilde_bounded(old(text)@, ii));
            }
            out.push(s[i]);
        }
        i += 1;
        proof {
            assert(pre + home_expand_from(old(text)@, home@, ii) =~= out@ + home_expand_from(
                old(text)@,
                home@,
                i as int,
            ));
        }
    }
    proof {
        assert(home_expand_from(old(text)@, home@, 0) =~= out@);
    }
    *text = chars_to_string(&out);
}

/// The key of the home-directory variable.
pub open spec fn home_key() -> Seq<char> {
    seq!['H', 'O', 'M', 'E']
}

/// The invoking user's home directory as the expansion passes see it.
pub open spec fn user_home_of(sh: Shell) -> Seq<char> {
    match entries_get(assoc_view(sh.proc_envs@), home_key()) {
        Some(v) => v,
        None => Seq::empty(),
    }
}

/// The HOME entry of the process environment snapshot, or empty when unset.
pub fn get_user_home(sh: &Shell) -> (r: String)
    ensures
        r@ == user_home_of(*sh),
{
    let mut key: Vec<char> = Vec::new();
    key.push('H');
    key.push('O');
    key.push('M');
    key.push('E');
    proof {
        assert(key@ =~= home_key());
    }
    match assoc_find(&sh.proc_envs, &key) {
        Some(v) => v,
        None => String::new(),
    }
}

pub open spec fn home_token_rewrite(t: (Seq<char>, Seq<char>), home: Seq<char>) -> (
    Seq<char>,
    Seq<char>,
) {
    if t.0.len() == 0 && needs_expand_home_spec(t.1) {
        (t.0, home_expand_spec(t.1, home))
    } else {
        t
    }
}

/// The home-expansion pass over a whole token sequence: only unquoted
/// tokens are rewritten.
pub open spec fn home_pass(ts: Seq<(Seq<char>, Seq<char>)>, home: Seq<char>) -> Seq<
    (Seq<char>, Seq<char>),
> {
    ts.map_values(|t: (Seq<char>, Seq<char>)| home_token_rewrite(t, home))
}

/// Rewrites every unquoted token that contains a bare `~`, replacing it by
/// the home directory read from the session's environment snapshot.
pub fn expand_home(sh: &Shell, tokens: &mut Vec<(String, String)>)
    ensures
        token_views(final(tokens)@) == home_pass(token_views(old(tokens)@), user_home_of(*sh)),
{
    let home = get_user_home(sh);
    let mut i: usize = 0;
    while i < tokens.len()
        invariant
            i <= tokens@.len(),
            home@ == user_home_of(*sh),
            tokens@.len() == old(tokens)@.len(),
            forall|k: int| i <= k < tokens@.len() ==> tokens@[k] == old(tokens)@[k],
            forall|k: int|
                0 <= k < i ==> (tokens@[k].0@, tokens@[k].1@) == home_token_rewrite(
                    (old(tokens)@[k].0@, old(tokens)@[k].1@),
                    user_home_of(*sh),
                ),
        decreases tokens@.len() - i,
    {
        let unquoted = tokens[i].0.as_str().is_empty();
        if unquoted && needs_expand_home(tokens[i].1.as_str()) {
            let marker = tokens[i].0.clone();
            let mut text = tokens[i].1.clone();
            expand_home_string(&mut text, home.as_str());
            set_pair(tokens, i, marker, text);
        }
        i += 1;
    }
    proof {
        assert(token_views(tokens@) =~= home_pass(token_views(old(tokens)@), user_home_of(*sh)));
    }
}

} // verus!
