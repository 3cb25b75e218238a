//! Completion by searching dotfiles. The host program reads the dotfile of
//! the command being typed and hands its parsed contents in as plain
//! entries; choosing the candidates — which names match the word being
//! completed, and whether a sub-command restricts them — is done here.

use vstd::prelude::*;
use crate::chars_util::{append_chars, chars_to_string, is_prefix_of, str_starts_with,
    str_to_chars};
use crate::parser_line::{parse_line, str_views, texts_of, tokenize_spec};
use crate::shell::chars_eq;

verus! {

/// Performs completion by searching dotfiles.
pub struct DotsCompleter;

/// One entry of a completion dotfile: a plain candidate name, or a
/// sub-command with its own candidates.
pub enum CompletionEntry {
    Name(String),
    Group(String, Vec<String>),
}

/// The dotfile consulted for a command: `<dir>/<cmd>.yaml`.
pub open spec fn dot_file_spec(dir: Seq<char>, cmd: Seq<char>) -> Seq<char> {
    dir + seq!['/'] + cmd + seq!['.', 'y', 'a', 'm', 'l']
}

/// The path of the completion dotfile for a command.
pub fn dot_file_of(dir: &str, cmd: &str) -> (r: String)
    ensures
        r@ == dot_file_spec(dir@, cmd@),
{
    let mut out: Vec<char> = str_to_chars(dir);
    out.push('/');
    let c = str_to_chars(cmd);
    append_chars(&mut out, &c);
    out.push('.');
    out.push('y');
    out.push('a');
    out.push('m');
    out.push('l');
    proof {
        assert(out@ =~= dot_file_spec(dir@, cmd@));
    }
    chars_to_string(&out)
}

/// The sub-command restricting the candidates: the second word of the
/// line, taken when it is no option and either a third word exists or the
/// line ends in a space.
pub open spec fn sub_cmd_spec(args: Seq<Seq<char>>, line_ends_space: bool) -> Seq<char> {
    if args.len() >= 2 && !(args[1].len() > 0 && args[1][0] == '-') && (args.len() >= 3
        || line_ends_space) {
        args[1]
    } else {
        Seq::empty()
    }
}

/// The members of `v` that begin with `word`, in order.
pub open spec fn prefixed_of(v: Seq<Seq<char>>, word: Seq<char>) -> Seq<Seq<char>>
    decreases v.len(),
{
    if v.len() == 0 {
        Seq::empty()
    } else {
        let rest = prefixed_of(v.drop_first(), word);
        if is_prefix_of(word, v[0]) {
            seq![v[0]] + rest
        } else {
            rest
        }
    }
}

/// The candidates the entries yield: with no sub-command, every plain name
/// and every group key that begins with the word; with a sub-command, the
/// members of its group that begin with the word.
pub open spec fn completions_of(
    entries: Seq<CompletionEntry>,
    sub_cmd: Seq<char>,
    word: Seq<char>,
) -> Seq<Seq<char>>
    decreases entries.len(),
{
    if entries.len() == 0 {
        Seq::empty()
    } else {
        let rest = completions_of(entries.drop_first(), sub_cmd, word);
        match entries[0] {
            CompletionEntry::Name(n) => {
                if sub_cmd.len() == 0 && is_prefix_of(word, n@) {
                    seq![n@] + rest
                } else {
                    rest
                }
            },
            CompletionEntry::Group(k, subs) => {
                if sub_cmd.len() > 0 && sub_cmd != k@ {
                    rest
                } else if sub_cmd.len() == 0 {
                    if is_prefix_of(word, k@) {
                        seq![k@] + rest
                    } else {
                        rest
                    }
                } else {
                    prefixed_of(str_views(subs@), word) + rest
                }
            },
        }
    }
}

/// The candidates for a line: nothing for an empty line; otherwise the
/// entries filtered by the line's sub-command and the word being completed.
pub open spec fn complete_dots_spec(
    line: Seq<char>,
    word: Seq<char>,
    entries: Seq<CompletionEntry>,
) -> Seq<Seq<char>> {
    let args = texts_of(tokenize_spec(line));
    if args.len() == 0 {
        Seq::empty()
    } else {
        completions_of(
            entries,
            sub_cmd_spec(args, line.len() > 0 && line.last() == ' '),
            word,
        )
    }
}

/// Chooses the completion candidates for the line being typed, from the
/// parsed entries of the command's dotfile.
pub fn complete_dots(line: &str, word: &str, entries: &Vec<CompletionEntry>) -> (r: Vec<String>)
    ensures
        str_views(r@) == complete_dots_spec(line@, word@, entries@),
{
    let mut res: Vec<String> = Vec::new();
    let args = parse_line(line);
    if args.len() == 0 {
        return res;
    }
    let lv = str_to_chars(line);
    let ends_space = lv.len() > 0 && lv[lv.len() - 1] == ' ';
    let sub_cmd: String = if args.len() >= 2 && !str_starts_with(args[1].as_str(), "-") && (
    args.len() >= 3 || ends_space) {
        args[1].clone()
    } else {
        String::new()
    };
    proof {
        reveal_strlit("-");
        assert(str_views(args@) == texts_of(tokenize_spec(line@)));
        let x = args@[1]@;
        assert((x.len() > 0 && x[0] == '-') == is_prefix_of("-"@, x)) by {
            reveal_strlit("-");
            if is_prefix_of("-"@, x) {
                assert(x.subrange(0, 1)[0] == x[0]);
            }
            if x.len() > 0 && x[0] == '-' {
                assert("-"@ =~= x.subrange(0, 1));
            }
        }
        assert(sub_cmd@ == sub_cmd_spec(str_views(args@), lv@.len() > 0 && lv@.last() == ' '));
    }
    let sc = str_to_chars(sub_cmd.as_str());
    let ghost scv = sub_cmd@;
    let ghost wv = word@;
    let mut i: usize = 0;
    proof {
        assert(entries@.subrange(0, entries@.len() as int) =~= entries@);
        assert(str_views(res@) + completions_of(entries@, scv, wv) =~= completions_of(
            entries@,
            scv,
            wv,
        ));
    }
    while i < entries.len()
        invariant
            i <= entries@.len(),
            sc@ == scv,
            wv == word@,
            completions_of(entries@, scv, wv) == str_views(res@) + completions_of(
                entries@.subrange(i as int, entries@.len() as int),
                scv,
                wv,
            ),
        decreases entries@.len() - i,
    {
        let ghost pre = str_views(res@);
        let ghost rest = entries@.subrange(i as int, entries@.len() as int);
        proof {
            assert(rest[0] == entries@[i as int]);
            assert(rest.drop_first() =~= entries@.subrange(i as int + 1, entries@.len() as int));
        }
        match &entries[i] {
            CompletionEntry::Name(n) => {
                if sc.len() == 0 && str_starts_with(n.as_str(), word) {
                    res.push(n.clone());
                }
            },
            CompletionEntry::Group(k, subs) => {
                let kv = str_to_chars(k.as_str());
                let key_matches = chars_eq(&sc, &kv);
                if sc.len() > 0 && !key_matches {
                } else if sc.len() == 0 {
                    if str_starts_with(k.as_str(), word) {
                        res.push(k.clone());
                    }
                } else {
                    let ghost mid = str_views(res@);
                    let mut j: usize = 0;
                    proof {
                        assert(str_views(subs@).subrange(0, subs@.len() as int) =~= str_views(
                            subs@,
                        ));
                        assert(mid + prefixed_of(str_views(subs@), wv) =~= mid + prefixed_of(
                            str_views(subs@),
                            wv,
                        ));
                    }
                    while j < subs.len()
                        invariant
                            j <= subs@.len(),
                            wv == word@,
                            mid + prefixed_of(str_views(subs@), wv) == str_views(res@)
                                + prefixed_of(
                                str_views(subs@).subrange(j as int, subs@.len() as int),
                                wv,
                            ),
                        decreases subs@.len() - j,
                    {
                        let ghost pre2 = str_views(res@);
                        let ghost rest2 = str_views(subs@).subrange(
                            j as int,
                            subs@.len() as int,
                        );
                        proof {
                            assert(rest2[0] == subs@[j as int]@);
                            assert(rest2.drop_first() =~= str_views(subs@).subrange(
                                j as int + 1,
                                subs@.len() as int,
                            ));
                        }
                        if str_starts_with(subs[j].as_str(), word) {
                            res.push(subs[j].clone());
                        }
                        proof {
                            assert(pre2 + prefixed_of(rest2, wv) =~= str_views(res@)
                                + prefixed_of(
                                str_views(subs@).subrange(j as int + 1, subs@.len() as int),
                                wv,
                            ));
                        }
                        j += 1;
                    }
                    proof {
                        assert(str_views(subs@).subrange(
                            subs@.len() as int,
                            subs@.len() as int,
                        ).len() == 0);
                        assert(str_views(res@) =~= mid + prefixed_of(str_views(subs@), wv));
                    }
                }
            },
        }
        proof {
            assert(pre + completions_of(rest, scv, wv) =~= str_views(res@) + completions_of(
                entries@.subrange(i as int + 1, entries@.len() as int),
                scv,
                wv,
            ));
        }
        i += 1;
    }
    proof {
        assert(entries@.subrange(entries@.len() as int, entries@.len() as int).len() == 0);
        assert(str_views(res@) =~= completions_of(entries@, scv, wv));
    }
    res
}

} // verus!
