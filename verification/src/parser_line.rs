//! Quote-aware tokenizer and top-level command splitter.
//!
//! `parse_args` splits one raw line into `(marker, text)` tokens, honoring
//! single/double/backtick quoting and backslash escaping; the marker records
//! which quote character, if any, delimited the token. `parse_commands`
//! splits a raw line into command segments separated by `;`, `&&` and `||`,
//! respecting quoting and dropping unquoted `#` comments. Both are specified
//! as character-by-character state machines over the line's characters.

use vstd::prelude::*;
use crate::chars_util::{chars_to_string, str_to_chars, trim_chars, trim_spec};

verus! {

/// The quote characters the shell recognizes.
pub open spec fn is_quote_char(c: char) -> bool {
    c == '\'' || c == '"' || c == '`'
}

/// State of the tokenizer scan: the currently open quote (if any), whether a
/// backslash escape is pending, the text accumulated for the current token,
/// the tokens already emitted, and whether an unquoted `#` ended the scan.
#[verifier::ext_equal]
pub struct LexState {
    pub sep: Option<char>,
    pub backslash: bool,
    pub token: Seq<char>,
    pub out: Seq<(Seq<char>, Seq<char>)>,
    pub stopped: bool,
}

pub open spec fn lex_init() -> LexState {
    LexState {
        sep: None,
        backslash: false,
        token: Seq::empty(),
        out: Seq::empty(),
        stopped: false,
    }
}

/// One step of the tokenizer on character `c`.
pub open spec fn lex_step(st: LexState, c: char) -> LexState {
    if st.stopped {
        st
    } else if c == '\\' {
        if !st.backslash {
            LexState { backslash: true, ..st }
        } else {
            LexState { backslash: false, token: st.token.push(c), ..st }
        }
    } else if c == '#' {
        if st.backslash {
            LexState { backslash: false, token: st.token.push(c), ..st }
        } else if st.sep is None {
            LexState { stopped: true, ..st }
        } else {
            LexState { token: st.token.push(c), ..st }
        }
    } else if c == ' ' {
        if st.backslash {
            LexState { backslash: false, token: st.token.push(c), ..st }
        } else if st.sep is Some {
            LexState { token: st.token.push(c), ..st }
        } else if st.token.len() == 0 {
            st
        } else {
            LexState { token: Seq::empty(), out: st.out.push((Seq::empty(), st.token)), ..st }
        }
    } else if is_quote_char(c) {
        if st.backslash {
            LexState { backslash: false, token: st.token.push(c), ..st }
        } else {
            match st.sep {
                None => LexState { sep: Some(c), ..st },
                Some(q) => {
                    if q == c {
                        LexState {
                            sep: None,
                            token: Seq::empty(),
                            out: st.out.push((seq![c], st.token)),
                            ..st
                        }
                    } else {
                        LexState { token: st.token.push(c), ..st }
                    }
                },
            }
        }
    } else {
        LexState { backslash: false, token: st.token.push(c), ..st }
    }
}

/// The tokenizer run over a whole character sequence.
pub open spec fn lex_run(st: LexState, s: Seq<char>) -> LexState
    decreases s.len(),
{
    if s.len() == 0 {
        st
    } else {
        lex_run(lex_step(st, s[0]), s.drop_first())
    }
}

/// At end of input any non-empty accumulated text becomes a trailing
/// unmarked token, even if a quote was left open.
pub open spec fn lex_finish(st: LexState) -> Seq<(Seq<char>, Seq<char>)> {
    if st.token.len() > 0 {
        st.out.push((Seq::empty(), st.token))
    } else {
        st.out
    }
}

/// The `(marker, text)` tokens of a raw line.
pub open spec fn tokenize_spec(s: Seq<char>) -> Seq<(Seq<char>, Seq<char>)> {
    lex_finish(lex_run(lex_init(), s))
}

/// The texts of a token sequence, markers dropped.
pub open spec fn texts_of(ts: Seq<(Seq<char>, Seq<char>)>) -> Seq<Seq<char>> {
    ts.map_values(|t: (Seq<char>, Seq<char>)| t.1)
}

/// View of an executable token vector.
pub open spec fn token_views(v: Seq<(String, String)>) -> Seq<(Seq<char>, Seq<char>)> {
    v.map_values(|t: (String, String)| (t.0@, t.1@))
}

/// View of an executable string vector.
pub open spec fn str_views(v: Seq<String>) -> Seq<Seq<char>> {
    v.map_values(|s: String| s@)
}

proof fn lemma_lex_run_stopped(st: LexState, s: Seq<char>)
    requires
        st.stopped,
    ensures
        lex_run(st, s) == st,
    decreases s.len(),
{
    if s.len() > 0 {
        lemma_lex_run_stopped(st, s.drop_first());
    }
}

fn empty_string() -> (r: String)
    ensures
        r@ == Seq::<char>::empty(),
{
    String::new()
}

fn char_string(c: char) -> (r: String)
    ensures
        r@ == seq![c],
{
    let mut v: Vec<char> = Vec::new();
    v.push(c);
    proof {
        assert(v@ =~= seq![c]);
    }
    chars_to_string(&v)
}

/// Replaces the token at index `i`.
pub(crate) fn set_pair(tokens: &mut Vec<(String, String)>, i: usize, marker: String, text: String)
    requires
        i < old(tokens)@.len(),
    ensures
        final(tokens)@ == old(tokens)@.update(i as int, (marker, text)),
{
    tokens.remove(i);
    tokens.insert(i, (marker, text));
    proof {
        assert(tokens@ =~= old(tokens)@.update(i as int, (marker, text)));
    }
}

/// Splits a raw line into `(marker, text)` tokens.
pub fn parse_args(line: &str) -> (result: Vec<(String, String)>)
    ensures
        token_views(result@) == tokenize_spec(line@),
{
    let chars = str_to_chars(line);
    let mut sep: Option<char> = None;
    let mut backslash: bool = false;
    let mut token: Vec<char> = Vec::new();
    let mut out: Vec<(String, String)> = Vec::new();
    let mut stopped: bool = false;
    let mut i: usize = 0;
    proof {
        assert(chars@.subrange(0, chars@.len() as int) =~= chars@);
        assert(token_views(out@) =~= Seq::<(Seq<char>, Seq<char>)>::empty());
        assert(LexState {
            sep: sep,
            backslash: backslash,
            token: token@,
            out: token_views(out@),
            stopped: stopped,
        } =~= lex_init());
    }
    while i < chars.len() && !stopped
        invariant
            i <= chars@.len(),
            chars@ == line@,
            lex_run(lex_init(), line@) == lex_run(
                LexState {
                    sep: sep,
                    backslash: backslash,
                    token: token@,
                    out: token_views(out@),
                    stopped: stopped,
                },
                chars@.subrange(i as int, chars@.len() as int),
            ),
        decreases chars@.len() - i,
    {
        let ghost st = LexState {
            sep: sep,
            backslash: backslash,
            token: token@,
            out: token_views(out@),
            stopped: stopped,
        };
        let ghost rest = chars@.subrange(i as int, chars@.len() as int);
        proof {
            assert(rest[0] == chars@[i as int]);
            assert(rest.drop_first() =~= chars@.subrange(i as int + 1, chars@.len() as int));
        }
        let c = chars[i];
        if c == '\\' {
            if !backslash {
                backslash = true;
            } else {
                backslash = false;
                token.push(c);
            }
        } else if c == '#' {
            if backslash {
                backslash = false;
                token.push(c);
            } else if sep.is_none() {
                stopped = true;
            } else {
                token.push(c);
            }
        } else if c == ' ' {
            if backslash {
                backslash = false;
                token.push(c);
            } else if sep.is_some() {
                token.push(c);
            } else if token.len() == 0 {
            } else {
                out.push((empty_string(), chars_to_string(&token)));
                token.clear();
            }
        } else if c == '\'' || c == '"' || c == '`' {
            if backslash {
                backslash = false;
                token.push(c);
            } else {
                match sep {
                    None => {
                        sep = Some(c);
                    },
                    Some(q) => {
                        if q == c {
                            out.push((char_string(c), chars_to_string(&token)));
                            token.clear();
                            sep = None;
                        } else {
                            token.push(c);
                        }
                    },
                }
            }
        } else {
            backslash = false;
            token.push(c);
        }
        proof {
            let st2 = LexState {
                sep: sep,
                backslash: backslash,
                token: token@,
                out: token_views(out@),
                stopped: stopped,
            };
            assert(token_views(out@) =~= lex_step(st, chars@[i as int]).out);
            assert(st2 =~= lex_step(st, chars@[i as int]));
        }
        i += 1;
    }
    proof {
        let st = LexState {
            sep: sep,
            backslash: backslash,
            token: token@,
            out: token_views(out@),
            stopped: stopped,
        };
        let rest = chars@.subrange(i as int, chars@.len() as int);
        if stopped {
            lemma_lex_run_stopped(st, rest);
        } else {
            assert(rest.len() == 0);
        }
        assert(lex_run(lex_init(), line@) == st);
    }
    if token.len() > 0 {
        out.push((empty_string(), chars_to_string(&token)));
    }
    proof {
        assert(token_views(out@) =~= tokenize_spec(line@));
    }
    out
}

/// Splits a raw line into plain token texts, markers dropped.
pub fn parse_line(line: &str) -> (result: Vec<String>)
    ensures
        str_views(result@) == texts_of(tokenize_spec(line@)),
{
    let mut result: Vec<String> = Vec::new();
    let v = parse_args(line);
    let mut i: usize = 0;
    while i < v.len()
        invariant
            i <= v@.len(),
            token_views(v@) == tokenize_spec(line@),
            str_views(result@) == texts_of(tokenize_spec(line@)).subrange(0, i as int),
        decreases v@.len() - i,
    {
        let ghost prev = result@;
        let t = v[i].1.clone();
        result.push(t);
        proof {
            assert(str_views(prev.push(t)) =~= str_views(prev).push(t@));
            assert(t@ == token_views(v@)[i as int].1);
            assert(texts_of(tokenize_spec(line@))[i as int] == tokenize_spec(line@)[i as int].1);
            assert(str_views(result@) =~= texts_of(tokenize_spec(line@)).subrange(
                0,
                i as int + 1,
            ));
        }
        i += 1;
    }
    proof {
        assert(texts_of(tokenize_spec(line@)).subrange(
            0,
            texts_of(tokenize_spec(line@)).len() as int,
        ) =~= texts_of(tokenize_spec(line@)));
    }
    result
}

/// A line of plain words: no quote, no backslash, no comment character.
pub open spec fn plain_line(s: Seq<char>) -> bool {
    forall|i: int|
        0 <= i < s.len() ==> #[trigger] s[i] != '\\' && s[i] != '#' && s[i] != '\'' && s[i]
            != '"' && s[i] != '`'
}

/// The text holds no space.
pub open spec fn no_spaces(s: Seq<char>) -> bool {
    forall|i: int| 0 <= i < s.len() ==> #[trigger] s[i] != ' '
}

/// The space-separated words of a line, in order, empty runs dropped.
pub open spec fn words_of(s: Seq<char>) -> Seq<Seq<char>>
    decreases s.len(),
    via check_words_of
{
    if s.len() == 0 {
        Seq::empty()
    } else if s[0] == ' ' {
        words_of(s.drop_first())
    } else {
        let k = crate::chars_util::until_char_len(s, ' ', 0) as int;
        if k >= s.len() {
            seq![s]
        } else {
            seq![s.subrange(0, k)] + words_of(s.subrange(k + 1, s.len() as int))
        }
    }
}

#[via_fn]
proof fn check_words_of(s: Seq<char>) {
    crate::chars_util::lemma_until_char_le(s, ' ', 0);
}

proof fn lemma_lex_plain(st: LexState, s: Seq<char>)
    requires
        st.sep is None,
        !st.backslash,
        !st.stopped,
        plain_line(s),
        no_spaces(st.token),
    ensures
        texts_of(lex_finish(lex_run(st, s))) == texts_of(st.out) + words_of(st.token + s),
        (forall|k: int| 0 <= k < st.out.len() ==> (#[trigger] st.out[k]).0.len() == 0)
            ==> (forall|k: int|
            0 <= k < lex_finish(lex_run(st, s)).len() ==> (#[trigger] lex_finish(
                lex_run(st, s),
            )[k]).0.len() == 0),
    decreases s.len(),
{
    if s.len() == 0 {
        if st.token.len() > 0 {
            assert(st.token + s =~= st.token);
            crate::chars_util::lemma_until_char(st.token, ' ', 0, st.token.len() as int);
            assert(words_of(st.token + s) =~= seq![st.token]);
            assert(texts_of(st.out.push((Seq::empty(), st.token))) =~= texts_of(st.out)
                + seq![st.token]);
        } else {
            assert(st.token + s =~= Seq::<char>::empty());
            assert(texts_of(st.out) + words_of(st.token + s) =~= texts_of(st.out));
        }
    } else {
        let c = s[0];
        let st2 = lex_step(st, c);
        assert(lex_run(st, s) == lex_run(st2, s.drop_first()));
        assert(plain_line(s.drop_first())) by {
            assert(forall|i: int|
                0 <= i < s.drop_first().len() ==> s.drop_first()[i] == s[i + 1]);
        }
        if c == ' ' {
            if st.token.len() == 0 {
                lemma_lex_plain(st2, s.drop_first());
                assert(st.token + s =~= s);
                assert(st2.token + s.drop_first() =~= s.drop_first());
                assert(words_of(s) == words_of(s.drop_first()));
            } else {
                lemma_lex_plain(st2, s.drop_first());
                assert(st2.token + s.drop_first() =~= s.drop_first());
                let w = st.token + s;
                assert(w[st.token.len() as int] == ' ');
                assert(forall|i: int| 0 <= i < st.token.len() ==> w[i] == st.token[i]);
                crate::chars_util::lemma_until_char(w, ' ', 0, st.token.len() as int);
                assert(w.subrange(0, st.token.len() as int) =~= st.token);
                assert(w.subrange(st.token.len() as int + 1, w.len() as int)
                    =~= s.drop_first());
                assert(words_of(w) == seq![st.token] + words_of(s.drop_first()));
                assert(texts_of(st2.out) =~= texts_of(st.out) + seq![st.token]);
                assert(texts_of(st.out) + words_of(st.token + s) =~= (texts_of(st.out)
                    + seq![st.token]) + words_of(s.drop_first()));
            }
        } else {
            assert(st2.token == st.token.push(c));
            assert(no_spaces(st2.token)) by {
                assert(forall|i: int|
                    0 <= i < st.token.len() ==> st.token.push(c)[i] == st.token[i]);
            }
            lemma_lex_plain(st2, s.drop_first());
            assert(st2.token + s.drop_first() =~= st.token + s);
        }
    }
}

/// Tokenizer round-trip: on a line with no quoting, no escaping and no
/// comment character, the tokens are exactly the space-separated words of
/// the line, each with the empty marker — so re-joining the token texts
/// with single spaces reproduces the line's word sequence.
pub proof fn lemma_tokenize_round_trip(s: Seq<char>)
    requires
        plain_line(s),
    ensures
        texts_of(tokenize_spec(s)) == words_of(s),
        forall|k: int|
            0 <= k < tokenize_spec(s).len() ==> (#[trigger] tokenize_spec(s)[k]).0.len() == 0,
{
    lemma_lex_plain(lex_init(), s);
    assert(lex_init().token + s =~= s);
    assert(texts_of(lex_init().out) + words_of(s) =~= words_of(s));
}

/// State of the command-splitter scan. `sep` holds either the currently open
/// quote character or a pending `&`/`|` seen once; `out` holds the emitted
/// segments and operators in source order.
#[verifier::ext_equal]
pub struct SplitState {
    pub sep: Option<char>,
    pub token: Seq<char>,
    pub out: Seq<Seq<char>>,
    pub stopped: bool,
}

pub open spec fn split_init() -> SplitState {
    SplitState { sep: None, token: Seq::empty(), out: Seq::empty(), stopped: false }
}

/// One step of the command splitter on character `c`, with one character of
/// look-ahead to tell a doubled `&&`/`||` from a single literal `&`/`|`. A
/// single `&` or `|` outside quotes is literal text, also at the end of the
/// line: the look-ahead never consumes past end-of-string.
pub open spec fn split_step(st: SplitState, c: char, next: Option<char>) -> SplitState {
    if st.stopped {
        st
    } else if c == '#' {
        if st.sep is None {
            SplitState { stopped: true, ..st }
        } else {
            SplitState { token: st.token.push(c), ..st }
        }
    } else if is_quote_char(c) {
        match st.sep {
            None => SplitState { sep: Some(c), token: st.token.push(c), ..st },
            Some(q) => {
                if q == c {
                    SplitState { sep: None, token: st.token.push(c), ..st }
                } else {
                    SplitState { token: st.token.push(c), ..st }
                }
            },
        }
    } else if c == '&' || c == '|' {
        if st.sep is None && next != Some(c) {
            SplitState { token: st.token.push(c), ..st }
        } else if st.sep is None {
            SplitState { sep: Some(c), ..st }
        } else if st.sep == Some(c) {
            SplitState {
                sep: None,
                token: Seq::empty(),
                out: st.out.push(trim_spec(st.token)).push(seq![c, c]),
                ..st
            }
        } else {
            SplitState { token: st.token.push(c), ..st }
        }
    } else if c == ';' {
        if st.sep is None {
            SplitState { token: Seq::empty(), out: st.out.push(trim_spec(st.token)).push(seq![';']), ..st }
        } else {
            SplitState { token: st.token.push(c), ..st }
        }
    } else {
        SplitState { token: st.token.push(c), ..st }
    }
}

/// The command-splitter run from position `i`.
pub open spec fn split_run(s: Seq<char>, i: int, st: SplitState) -> SplitState
    decreases s.len() - i,
{
    if i < 0 || i >= s.len() {
        st
    } else {
        split_run(
            s,
            i + 1,
            split_step(st, s[i], if i + 1 < s.len() { Some(s[i + 1]) } else { None }),
        )
    }
}

pub open spec fn split_finish(st: SplitState) -> Seq<Seq<char>> {
    if st.token.len() > 0 {
        st.out.push(trim_spec(st.token))
    } else {
        st.out
    }
}

/// The command segments and operators of a raw line, in source order.
pub open spec fn split_commands_spec(s: Seq<char>) -> Seq<Seq<char>> {
    split_finish(split_run(s, 0, split_init()))
}

proof fn lemma_split_run_stopped(s: Seq<char>, i: int, st: SplitState)
    requires
        st.stopped,
    ensures
        split_run(s, i, st) == st,
    decreases s.len() - i,
{
    if 0 <= i < s.len() {
        lemma_split_run_stopped(s, i + 1, st);
    }
}

/// Splits a raw line into command segments separated by `;`, `&&`, `||`,
/// each segment trimmed of surrounding whitespace, with the operators
/// emitted as entries of their own between the segments they separate.
pub fn parse_commands(line: &str) -> (result: Vec<String>)
    ensures
        str_views(result@) == split_commands_spec(line@),
{
    let chars = str_to_chars(line);
    let mut sep: Option<char> = None;
    let mut token: Vec<char> = Vec::new();
    let mut out: Vec<String> = Vec::new();
    let mut stopped: bool = false;
    let mut i: usize = 0;
    proof {
        assert(str_views(out@) =~= Seq::<Seq<char>>::empty());
        assert(SplitState { sep: sep, token: token@, out: str_views(out@), stopped: stopped }
            =~= split_init());
    }
    while i < chars.len() && !stopped
        invariant
            i <= chars@.len(),
            chars@ == line@,
            split_run(line@, 0, split_init()) == split_run(
                line@,
                i as int,
                SplitState { sep: sep, token: token@, out: str_views(out@), stopped: stopped },
            ),
        decreases chars@.len() - i,
    {
        let ghost st = SplitState {
            sep: sep,
            token: token@,
            out: str_views(out@),
            stopped: stopped,
        };
        let c = chars[i];
        let next: Option<char> = if i + 1 < chars.len() {
            Some(chars[i + 1])
        } else {
            None
        };
        if c == '#' {
            if sep.is_none() {
                stopped = true;
            } else {
                token.push(c);
            }
        } else if c == '\'' || c == '"' || c == '`' {
            match sep {
                None => {
                    sep = Some(c);
                    token.push(c);
                },
                Some(q) => {
                    if q == c {
                        sep = None;
                        token.push(c);
                    } else {
                        token.push(c);
                    }
                },
            }
        } else if c == '&' || c == '|' {
            let doubled = match next {
                Some(n) => n == c,
                None => false,
            };
            if sep.is_none() && !doubled {
                token.push(c);
            } else if sep.is_none() {
                sep = Some(c);
            } else {
                let q = match sep {
                    Some(q) => q,
                    None => c,
                };
                if q == c {
                    let trimmed = trim_chars(&token);
                    out.push(chars_to_string(&trimmed));
                    let mut op: Vec<char> = Vec::new();
                    op.push(c);
                    op.push(c);
                    proof {
                        assert(op@ =~= seq![c, c]);
                    }
                    out.push(chars_to_string(&op));
                    token.clear();
                    sep = None;
                } else {
                    token.push(c);
                }
            }
        } else if c == ';' {
            if sep.is_none() {
                let trimmed = trim_chars(&token);
                out.push(chars_to_string(&trimmed));
                out.push(char_string(';'));
                token.clear();
            } else {
                token.push(c);
            }
        } else {
            token.push(c);
        }
        proof {
            let st2 = SplitState {
                sep: sep,
                token: token@,
                out: str_views(out@),
                stopped: stopped,
            };
            let nx = if i as int + 1 < line@.len() {
                Some(line@[i as int + 1])
            } else {
                None
            };
            assert(str_views(out@) =~= split_step(st, line@[i as int], nx).out);
            assert(st2 =~= split_step(st, line@[i as int], nx));
        }
        i += 1;
    }
    proof {
        let st = SplitState { sep: sep, token: token@, out: str_views(out@), stopped: stopped };
        if stopped {
            lemma_split_run_stopped(line@, i as int, st);
        }
        assert(split_run(line@, 0, split_init()) == st);
    }
    if token.len() > 0 {
        let trimmed = trim_chars(&token);
        out.push(chars_to_string(&trimmed));
    }
    proof {
        assert(str_views(out@) =~= split_commands_spec(line@));
    }
    out
}

} // verus!
