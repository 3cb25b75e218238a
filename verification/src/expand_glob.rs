//! Path-glob expansion. A fast pre-check skips a line that holds no
//! unquoted `*` or that looks like an arithmetic expression. For an
//! unquoted token that passes the check, each whitespace-delimited word
//! containing a `*` is matched against the filesystem; hidden entries are
//! dropped unless the pattern itself starts with a dot, each kept path has
//! its spaces backslash-escaped, and a word whose pattern matched nothing
//! (or could not be parsed) stays as it is. What the filesystem holds is
//! outside this crate, so the glob call itself is trusted and the contracts
//! state what is done with whatever paths came back.

use vstd::prelude::*;
use crate::chars_util::{
    append_chars, charss_view, chars_to_string, escape_spaces, escape_spaces_from,
    find_char_from, join_spaces, join_spaces_from, str_to_chars, trim_chars, trim_spec,
    until_char_len,
};
use crate::parser_line::{parse_args, set_pair, str_views, token_views, tokenize_spec};

verus! {

/// The text contains the character `c`.
pub open spec fn contains_char(s: Seq<char>, c: char) -> bool {
    exists|i: int| 0 <= i < s.len() && s[i] == c
}

/// Tests whether the characters contain `c`.
pub fn contains_char_exec(s: &Vec<char>, c: char) -> (r: bool)
    ensures
        r == contains_char(s@, c),
{
    let j = find_char_from(s, c, 0);
    if j < s.len() {
        proof {
            assert(contains_char(s@, c));
        }
        true
    } else {
        proof {
            assert(forall|m: int| 0 <= m < s@.len() ==> s@[m] != c);
        }
        false
    }
}

pub open spec fn is_digit_char(c: char) -> bool {
    '0' as u32 <= c as u32 && c as u32 <= '9' as u32
}

/// Characters an arithmetic expression is made of.
pub open spec fn is_arith_char(c: char) -> bool {
    is_digit_char(c) || c == ' ' || c == '.' || c == '(' || c == ')' || c == '+' || c == '-'
        || c == '*' || c == '/'
}

/// The line looks like an arithmetic expression: only arithmetic
/// characters, at least one of them a digit.
pub open spec fn is_arithmetic_spec(s: Seq<char>) -> bool {
    &&& s.len() > 0
    &&& forall|i: int| 0 <= i < s.len() ==> is_arith_char(#[trigger] s[i])
    &&& exists|i: int| 0 <= i < s.len() && is_digit_char(#[trigger] s[i])
}

fn is_digit_exec(c: char) -> (r: bool)
    ensures
        r == is_digit_char(c),
{
    c >= '0' && c <= '9'
}

fn is_arith_char_exec(c: char) -> (r: bool)
    ensures
        r == is_arith_char(c),
{
    (c >= '0' && c <= '9') || c == ' ' || c == '.' || c == '(' || c == ')' || c == '+' || c == '-'
        || c == '*' || c == '/'
}

pub fn is_arithmetic(line: &str) -> (r: bool)
    ensures
        r == is_arithmetic_spec(line@),
{
    let s = str_to_chars(line);
    if s.len() == 0 {
        return false;
    }
    let mut i: usize = 0;
    let mut digit = false;
    let ghost mut dpos: int = 0;
    while i < s.len()
        invariant
            i <= s@.len(),
            s@ == line@,
            forall|j: int| 0 <= j < i ==> is_arith_char(#[trigger] s@[j]),
            digit ==> 0 <= dpos < i && is_digit_char(s@[dpos]),
            !digit ==> forall|j: int| 0 <= j < i ==> !is_digit_char(#[trigger] s@[j]),
        decreases s@.len() - i,
    {
        let c = s[i];
        if !is_arith_char_exec(c) {
            return false;
        }
        if is_digit_exec(c) {
            digit = true;
            proof {
                dpos = i as int;
            }
        }
        i += 1;
    }
    if digit {
        proof {
            assert(is_digit_char(line@[dpos]));
        }
        true
    } else {
        false
    }
}

/// Token `k` of the sequence is unquoted and contains a `*`.
pub open spec fn glob_token_at(ts: Seq<(Seq<char>, Seq<char>)>, k: int) -> bool {
    0 <= k < ts.len() && ts[k].0.len() == 0 && contains_char(ts[k].1, '*')
}

/// The line calls for glob expansion: it is no arithmetic expression and
/// some unquoted token of it contains a `*`.
pub open spec fn needs_globbing_spec(s: Seq<char>) -> bool {
    !is_arithmetic_spec(s) && exists|k: int| glob_token_at(tokenize_spec(s), k)
}

/// Tests whether the line calls for glob expansion.
pub fn needs_globbing(line: &str) -> (r: bool)
    ensures
        r == needs_globbing_spec(line@),
{
    if is_arithmetic(line) {
        return false;
    }
    let toks = parse_args(line);
    let mut k: usize = 0;
    while k < toks.len()
        invariant
            k <= toks@.len(),
            !is_arithmetic_spec(line@),
            token_views(toks@) == tokenize_spec(line@),
            forall|j: int| 0 <= j < k ==> !(#[trigger] glob_token_at(tokenize_spec(line@), j)),
        decreases toks@.len() - k,
    {
        let text = str_to_chars(toks[k].1.as_str());
        if toks[k].0.as_str().is_empty() && contains_char_exec(&text, '*') {
            proof {
                assert(glob_token_at(tokenize_spec(line@), k as int));
            }
            return true;
        }
        proof {
            assert(!glob_token_at(tokenize_spec(line@), k as int));
        }
        k += 1;
    }
    proof {
        assert(token_views(toks@).len() == toks@.len());
        assert(tokenize_spec(line@).len() == toks@.len());
    }
    false
}

/// Relies on glob::glob of the glob crate: expands a shell-style pattern
/// against the filesystem, yielding the matching paths in alphabetical
/// order; a malformed pattern is answered with an error, reported here as
/// None, and entries the walk could not read are skipped. Which paths come
/// back depends on the state of the disk, so nothing is promised of the
/// result; the verified callers state what is done with every possible
/// answer.
#[verifier::external_body]
fn glob_paths(pattern: &str) -> (r: Option<Vec<String>>) {
    match glob::glob(pattern) {
        Ok(paths) => Some(
            paths.filter_map(|e| e.ok()).map(|p| p.to_string_lossy().into_owned()).collect(),
        ),
        Err(_) => None,
    }
}

/// View of a glob answer as character sequences.
pub open spec fn glob_result_view(m: Option<Vec<String>>) -> Option<Seq<Seq<char>>> {
    match m {
        None => None,
        Some(v) => Some(str_views(v@)),
    }
}

/// The match `p` is dropped as hidden: the pattern does not start with a
/// dot, the path does, and the path names no directory.
pub open spec fn hidden_skip(item: Seq<char>, p: Seq<char>) -> bool {
    &&& (item.len() == 0 || item[0] != '.')
    &&& p.len() > 0
    &&& p[0] == '.'
    &&& !contains_char(p, '/')
}

/// The matches kept for a pattern, hidden entries dropped, order preserved.
pub open spec fn glob_kept(item: Seq<char>, paths: Seq<Seq<char>>) -> Seq<Seq<char>>
    decreases paths.len(),
{
    if paths.len() == 0 {
        Seq::empty()
    } else {
        let rest = glob_kept(item, paths.drop_first());
        if hidden_skip(item, paths[0]) {
            rest
        } else {
            seq![paths[0]] + rest
        }
    }
}

/// The rewrite of one word by a glob answer: a malformed pattern or one
/// with no kept match stays as it is; otherwise the kept paths, spaces
/// escaped, joined with spaces.
pub open spec fn glob_word_rewrite(item: Seq<char>, r: Option<Seq<Seq<char>>>) -> Seq<char> {
    match r {
        None => item,
        Some(paths) => {
            let kept = glob_kept(item, paths);
            if kept.len() == 0 {
                item
            } else {
                join_spaces(kept.map_values(|p: Seq<char>| escape_spaces(p)))
            }
        },
    }
}

fn hidden_skip_exec(item: &Vec<char>, p: &Vec<char>) -> (r: bool)
    ensures
        r == hidden_skip(item@, p@),
{
    (item.len() == 0 || item[0] != '.') && p.len() > 0 && p[0] == '.' && !contains_char_exec(
        p,
        '/',
    )
}

fn glob_kept_exec(item: &Vec<char>, paths: &Vec<String>, from: usize) -> (r: Vec<Vec<char>>)
    requires
        from <= paths@.len(),
    ensures
        charss_view(r@) == glob_kept(
            item@,
            str_views(paths@).subrange(from as int, paths@.len() as int),
        ),
    decreases paths@.len() - from,
{
    let ghost whole = str_views(paths@).subrange(from as int, paths@.len() as int);
    if from >= paths.len() {
        let r: Vec<Vec<char>> = Vec::new();
        proof {
            assert(charss_view(r@) =~~= glob_kept(item@, whole));
        }
        return r;
    }
    let p = str_to_chars(paths[from].as_str());
    let skip = hidden_skip_exec(item, &p);
    let mut rest = glob_kept_exec(item, paths, from + 1);
    proof {
        assert(whole[0] == p@);
        assert(whole.drop_first() =~= str_views(paths@).subrange(
            from as int + 1,
            paths@.len() as int,
        ));
    }
    if !skip {
        rest.insert(0, p);
        proof {
            assert(charss_view(rest@) =~~= glob_kept(item@, whole));
        }
    }
    rest
}

/// Applies a glob answer to one word.
pub fn glob_word_apply(item: &Vec<char>, matches: &Option<Vec<String>>) -> (r: Vec<char>)
    ensures
        r@ == glob_word_rewrite(item@, glob_result_view(*matches)),
{
    match matches {
        None => {
            let mut r: Vec<char> = Vec::new();
            append_chars(&mut r, item);
            proof {
                assert(r@ =~= item@);
            }
            r
        },
        Some(paths) => {
            proof {
                assert(str_views(paths@).subrange(0, paths@.len() as int) =~= str_views(
                    paths@,
                ));
            }
            let kept = glob_kept_exec(item, paths, 0);
            if kept.len() == 0 {
                let mut r: Vec<char> = Vec::new();
                append_chars(&mut r, item);
                proof {
                    assert(r@ =~= item@);
                }
                r
            } else {
                let mut escaped: Vec<Vec<char>> = Vec::new();
                let mut i: usize = 0;
                while i < kept.len()
                    invariant
                        i <= kept@.len(),
                        charss_view(escaped@) == charss_view(kept@).subrange(
                            0,
                            i as int,
                        ).map_values(|p: Seq<char>| escape_spaces(p)),
                    decreases kept@.len() - i,
                {
                    proof {
                        assert(kept@[i as int]@.subrange(0, kept@[i as int]@.len() as int)
                            =~= kept@[i as int]@);
                    }
                    let e = escape_spaces_from(&kept[i], 0);
                    let ghost prev = escaped@;
                    escaped.push(e);
                    proof {
                        let target = charss_view(kept@).subrange(0, i as int + 1).map_values(
                            |p: Seq<char>| escape_spaces(p),
                        );
                        assert(charss_view(prev).len() == charss_view(kept@).subrange(
                            0,
                            i as int,
                        ).map_values(|p: Seq<char>| escape_spaces(p)).len());
                        assert(charss_view(escaped@).len() == target.len());
                        assert forall|j: int|
                            0 <= j < charss_view(escaped@).len() implies charss_view(escaped@)[j]
                            == target[j] by {
                            if j < i {
                                assert(escaped@[j] == prev[j]);
                                assert(charss_view(prev)[j] == charss_view(kept@).subrange(
                                    0,
                                    i as int,
                                ).map_values(|p: Seq<char>| escape_spaces(p))[j]);
                            }
                        }
                        assert(charss_view(escaped@) =~~= target);
                    }
                    i += 1;
                }
                proof {
                    assert(charss_view(kept@).subrange(0, kept@.len() as int) =~= charss_view(
                        kept@,
                    ));
                }
                let r = join_spaces_from(&escaped, 0);
                proof {
                    assert(charss_view(escaped@).subrange(0, escaped@.len() as int)
                        =~= charss_view(escaped@));
                }
                r
            }
        },
    }
}

/// A word that matched nothing on the filesystem, or whose pattern was
/// malformed, passes through glob expansion unchanged.
pub proof fn lemma_glob_empty_match_passthrough(item: Seq<char>)
    ensures
        glob_word_rewrite(item, Some(Seq::empty())) == item,
        glob_word_rewrite(item, None) == item,
{
}

/// The whitespace-split words of a token text, empty words kept.
pub open spec fn split_spaces(s: Seq<char>) -> Seq<Seq<char>>
    decreases s.len(),
    via check_split_spaces
{
    let k = until_char_len(s, ' ', 0) as int;
    if k >= s.len() {
        seq![s]
    } else {
        seq![s.subrange(0, k)] + split_spaces(s.subrange(k + 1, s.len() as int))
    }
}

#[via_fn]
proof fn check_split_spaces(s: Seq<char>) {
    crate::chars_util::lemma_until_char_le(s, ' ', 0);
}

fn split_spaces_exec(s: &Vec<char>, from: usize) -> (r: Vec<Vec<char>>)
    requires
        from <= s@.len(),
    ensures
        charss_view(r@) == split_spaces(s@.subrange(from as int, s@.len() as int)),
    decreases s@.len() - from,
{
    let ghost whole = s@.subrange(from as int, s@.len() as int);
    let j = find_char_from(s, ' ', from);
    proof {
        crate::chars_util::lemma_until_char(whole, ' ', 0, j - from);
    }
    let head = crate::chars_util::copy_range(s, from, j);
    proof {
        assert(head@ =~= whole.subrange(0, j - from));
    }
    if j >= s.len() {
        let mut r: Vec<Vec<char>> = Vec::new();
        r.push(head);
        proof {
            assert(head@ =~= whole);
            assert(charss_view(r@) =~~= seq![whole]);
        }
        r
    } else {
        let mut rest = split_spaces_exec(s, j + 1);
        proof {
            assert(whole.subrange(j - from + 1, whole.len() as int) =~= s@.subrange(
                j as int + 1,
                s@.len() as int,
            ));
        }
        rest.insert(0, head);
        proof {
            assert(charss_view(rest@) =~~= split_spaces(whole));
        }
        rest
    }
}

/// A word is sent to the filesystem: it contains a `*` and is not itself
/// quoted.
pub open spec fn word_needs_glob(w: Seq<char>) -> bool {
    contains_char(w, '*') && !(trim_spec(w).len() > 0 && (trim_spec(w)[0] == '\''
        || trim_spec(w)[0] == '"'))
}

/// The rewrite of one word under a glob answer; a word not sent to the
/// filesystem keeps its text whatever the answer holds.
pub open spec fn word_glob_out(w: Seq<char>, r: Option<Seq<Seq<char>>>) -> Seq<char> {
    if word_needs_glob(w) {
        glob_word_rewrite(w, r)
    } else {
        w
    }
}

/// `out` is a possible glob rewrite of the text `s`: word for word, each
/// word either kept or rewritten by some answer of the filesystem.
pub open spec fn glob_text_rel(s: Seq<char>, out: Seq<char>) -> bool {
    exists|rs: Seq<Option<Seq<Seq<char>>>>|
        #![trigger rs.len()]
        {
            let words = split_spaces(s);
            &&& rs.len() == words.len()
            &&& out == join_spaces(Seq::new(words.len(), |j: int| word_glob_out(words[j], rs[j])))
        }
}

proof fn lemma_split_spaces_nonempty(s: Seq<char>)
    ensures
        split_spaces(s).len() >= 1,
{
}

proof fn lemma_join_split(s: Seq<char>)
    ensures
        join_spaces(split_spaces(s)) == s,
    decreases s.len(),
{
    let k = until_char_len(s, ' ', 0) as int;
    crate::chars_util::lemma_until_char_le(s, ' ', 0);
    crate::chars_util::lemma_until_char_hit(s, ' ', 0);
    if k >= s.len() {
        assert(join_spaces(split_spaces(s)) == s);
    } else {
        let head = s.subrange(0, k);
        let tail = s.subrange(k + 1, s.len() as int);
        lemma_join_split(tail);
        lemma_split_spaces_nonempty(tail);
        let rest = split_spaces(tail);
        let parts = seq![head] + rest;
        assert(split_spaces(s) == parts);
        assert(parts.len() == 1 + rest.len());
        assert(parts[0] == head);
        assert(parts.drop_first() =~= rest);
        assert(parts.drop_first() == rest);
        assert(join_spaces(parts) == parts[0] + seq![' '] + join_spaces(parts.drop_first()));
        assert(join_spaces(parts.drop_first()) == tail);
        assert(s[k] == ' ');
        assert(head + seq![' '] + tail =~= s);
        assert(join_spaces(split_spaces(s)) == s);
    }
}

/// Glob expansion with nothing usable from the filesystem changes nothing:
/// whatever the per-word answers were, if every one was a pattern error or
/// an empty match list, the rewritten text equals the original text — and
/// the unchanged text is a glob rewrite of itself.
pub proof fn lemma_glob_no_match_text_unchanged(s: Seq<char>, rs: Seq<Option<Seq<Seq<char>>>>)
    requires
        rs.len() == split_spaces(s).len(),
        forall|j: int|
            0 <= j < rs.len() ==> #[trigger] rs[j] is None || rs[j] == Some(
                Seq::<Seq<char>>::empty(),
            ),
    ensures
        join_spaces(
            Seq::new(split_spaces(s).len(), |j: int| word_glob_out(split_spaces(s)[j], rs[j])),
        ) == s,
        glob_text_rel(s, s),
{
    let words = split_spaces(s);
    assert forall|j: int| 0 <= j < words.len() implies word_glob_out(words[j], rs[j])
        == words[j] by {
        if word_needs_glob(words[j]) {
            match rs[j] {
                None => {},
                Some(e) => {
                    assert(e.len() == 0);
                    assert(glob_kept(words[j], e).len() == 0);
                },
            }
        }
    }
    assert(Seq::new(words.len(), |j: int| word_glob_out(words[j], rs[j])) =~= words);
    lemma_join_split(s);
    assert(glob_text_rel(s, s)) by {
        assert(rs.len() == split_spaces(s).len() && s == join_spaces(
            Seq::new(split_spaces(s).len(), |j: int| word_glob_out(split_spaces(s)[j], rs[j])),
        ));
    }
}

fn word_needs_glob_exec(w: &Vec<char>) -> (r: bool)
    ensures
        r == word_needs_glob(w@),
{
    let star = contains_char_exec(w, '*');
    let t = trim_chars(w);
    star && !(t.len() > 0 && (t[0] == '\'' || t[0] == '"'))
}

/// Rewrites a token text word by word against the filesystem.
fn glob_rewrite_text(text: &str) -> (r: String)
    ensures
        glob_text_rel(text@, r@),
{
    let s = str_to_chars(text);
    proof {
        assert(s@.subrange(0, s@.len() as int) =~= s@);
    }
    let words = split_spaces_exec(&s, 0);
    let ghost wv = charss_view(words@);
    let mut pieces: Vec<Vec<char>> = Vec::new();
    let ghost mut rs: Seq<Option<Seq<Seq<char>>>> = Seq::empty();
    let mut i: usize = 0;
    while i < words.len()
        invariant
            i <= words@.len(),
            wv == charss_view(words@),
            wv == split_spaces(text@),
            rs.len() == i,
            charss_view(pieces@).len() == i,
            forall|j: int|
                0 <= j < i ==> charss_view(pieces@)[j] == word_glob_out(wv[j], rs[j]),
        decreases words@.len() - i,
    {
        let ghost prev = pieces@;
        let ghost rs0 = rs;
        if word_needs_glob_exec(&words[i]) {
            let pattern = chars_to_string(&words[i]);
            let matches = glob_paths(pattern.as_str());
            let piece = glob_word_apply(&words[i], &matches);
            proof {
                rs = rs.push(glob_result_view(matches));
            }
            pieces.push(piece);
        } else {
            let mut piece: Vec<char> = Vec::new();
            append_chars(&mut piece, &words[i]);
            proof {
                assert(piece@ =~= wv[i as int]);
                rs = rs.push(None);
            }
            pieces.push(piece);
        }
        proof {
            assert(charss_view(pieces@).len() == i + 1);
            assert(charss_view(pieces@)[i as int] == pieces@[i as int]@);
            assert(wv[i as int] == words@[i as int]@);
            assert(pieces@[i as int]@ == word_glob_out(wv[i as int], rs[i as int]));
            assert forall|j: int| 0 <= j < i + 1 implies charss_view(pieces@)[j]
                == word_glob_out(wv[j], rs[j]) by {
                if j < i {
                    assert(charss_view(prev)[j] == word_glob_out(wv[j], rs0[j]));
                    assert(pieces@[j] == prev[j]);
                    assert(charss_view(pieces@)[j] == pieces@[j]@);
                    assert(charss_view(prev)[j] == prev[j]@);
                    assert(rs[j] == rs0[j]);
                }
            }
        }
        i += 1;
    }
    let joined = join_spaces_from(&pieces, 0);
    proof {
        assert(charss_view(pieces@).subrange(0, pieces@.len() as int) =~= charss_view(
            pieces@,
        ));
        assert(charss_view(pieces@) =~~= Seq::new(
            split_spaces(text@).len(),
            |j: int| word_glob_out(split_spaces(text@)[j], rs[j]),
        ));
        assert(glob_text_rel(text@, joined@));
    }
    chars_to_string(&joined)
}

/// Rewrites a whole line by glob expansion; a line that does not call for
/// it is left unchanged.
pub fn extend_glob(line: &mut String)
    ensures
        !needs_globbing_spec(old(line)@) ==> final(line)@ == old(line)@,
        needs_globbing_spec(old(line)@) ==> glob_text_rel(old(line)@, final(line)@),
{
    if !needs_globbing(line.as_str()) {
        return ;
    }
    let out = glob_rewrite_text(line.as_str());
    *line = out;
}

/// Relation between a token sequence and its glob rewrite: length and
/// markers are kept, a token that is quoted or calls for no expansion is
/// unchanged, and the text of every other token is rewritten word for word
/// by some answer of the filesystem.
pub open spec fn glob_pass_rel(
    ts: Seq<(Seq<char>, Seq<char>)>,
    us: Seq<(Seq<char>, Seq<char>)>,
) -> bool {
    &&& us.len() == ts.len()
    &&& forall|k: int|
        0 <= k < ts.len() ==> (#[trigger] us[k]).0 == ts[k].0 && (if ts[k].0.len() == 0
            && needs_globbing_spec(ts[k].1) {
            glob_text_rel(ts[k].1, us[k].1)
        } else {
            us[k].1 == ts[k].1
        })
}

/// Rewrites every unquoted token that calls for glob expansion, word by
/// word against the filesystem; all other tokens and all markers are kept.
pub fn expand_glob(tokens: &mut Vec<(String, String)>)
    ensures
        glob_pass_rel(token_views(old(tokens)@), token_views(final(tokens)@)),
{
    let mut i: usize = 0;
    while i < tokens.len()
        invariant
            i <= tokens@.len(),
            tokens@.len() == old(tokens)@.len(),
            forall|k: int| i <= k < tokens@.len() ==> tokens@[k] == old(tokens)@[k],
            forall|k: int|
                0 <= k < i ==> (#[trigger] tokens@[k]).0@ == old(tokens)@[k].0@ && (if old(
                    tokens,
                )@[k].0@.len() == 0 && needs_globbing_spec(old(tokens)@[k].1@) {
                    glob_text_rel(old(tokens)@[k].1@, tokens@[k].1@)
                } else {
                    tokens@[k].1@ == old(tokens)@[k].1@
                }),
        decreases tokens@.len() - i,
    {
        let ghost before = tokens@;
        let unquoted = tokens[i].0.as_str().is_empty();
        if unquoted && needs_globbing(tokens[i].1.as_str()) {
            let marker = tokens[i].0.clone();
            let text = glob_rewrite_text(tokens[i].1.as_str());
            set_pair(tokens, i, marker, text);
            proof {
                assert(tokens@[i as int].0@ == old(tokens)@[i as int].0@);
                assert(glob_text_rel(old(tokens)@[i as int].1@, tokens@[i as int].1@));
                assert(forall|k: int|
                    0 <= k < tokens@.len() && k != i ==> tokens@[k] == before[k]);
            }
        } else {
            proof {
                assert(tokens@[i as int] == old(tokens)@[i as int]);
                assert(!(old(tokens)@[i as int].0@.len() == 0 && needs_globbing_spec(
                    old(tokens)@[i as int].1@,
                )));
            }
        }
        i += 1;
    }
    proof {
        assert(glob_pass_rel(token_views(old(tokens)@), token_views(tokens@)));
    }
}

} // verus!
