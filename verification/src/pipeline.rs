//! The expansion pipeline: home-directory expansion, brace expansion,
//! environment-variable expansion, path-glob expansion and command
//! substitution, in that fixed order, over the token sequence the
//! tokenizer produced. Each pass may rewrite a token's text but never its
//! marker or its position, and single-quoted tokens pass through the whole
//! pipeline untouched.

use vstd::prelude::*;
use crate::expand_brace::{brace_pass, expand_brace};
use crate::expand_env::{env_pass, expand_env};
use crate::expand_glob::{expand_glob, glob_pass_rel};
use crate::expand_home::{expand_home, home_pass, user_home_of};
use crate::parser_line::token_views;
use crate::shell::{assoc_view, Shell};
use crate::substitution::{do_command_substitution, subst_pass};

verus! {

/// Runs the five expansion passes in order. The first three and the last
/// are functions of the session state and the captured outputs; the glob
/// pass answers to the filesystem, so the result is pinned up to the glob
/// relation: there is an intermediate sequence `mid`, a glob rewrite of the
/// tokens after variable expansion, whose substitution rewrite is the final
/// sequence.
pub fn do_expansion(
    sh: &Shell,
    tokens: &mut Vec<(String, String)>,
    captured: &Vec<(String, String)>,
)
    ensures
        exists|mid: Seq<(Seq<char>, Seq<char>)>|
            {
                &&& #[trigger] glob_pass_rel(
                    env_pass(
                        *sh,
                        brace_pass(home_pass(token_views(old(tokens)@), user_home_of(*sh))),
                    ),
                    mid,
                )
                &&& token_views(final(tokens)@) == subst_pass(mid, assoc_view(captured@))
            },
        final(tokens)@.len() == old(tokens)@.len(),
        forall|k: int|
            0 <= k < old(tokens)@.len() ==> (#[trigger] final(tokens)@[k]).0@ == old(
                tokens,
            )@[k].0@,
        forall|k: int|
            0 <= k < old(tokens)@.len() && old(tokens)@[k].0@ == seq!['\''] ==> (
            #[trigger] final(tokens)@[k]).1@ == old(tokens)@[k].1@,
{
    let ghost t0 = token_views(tokens@);
    expand_home(sh, tokens);
    let ghost t1 = token_views(tokens@);
    expand_brace(tokens);
    let ghost t2 = token_views(tokens@);
    expand_env(sh, tokens);
    let ghost t3 = token_views(tokens@);
    expand_glob(tokens);
    let ghost t4 = token_views(tokens@);
    do_command_substitution(tokens, captured);
    let ghost t5 = token_views(tokens@);
    proof {
        assert(glob_pass_rel(t3, t4));
        assert(t5 == subst_pass(t4, assoc_view(captured@)));
        assert(t0.len() == tokens@.len()) by {
            assert(t1.len() == t0.len());
            assert(t2.len() == t1.len());
            assert(t3.len() == t2.len());
            assert(t4.len() == t3.len());
            assert(t5.len() == t4.len());
            assert(t5.len() == tokens@.len());
        }
        assert forall|k: int| 0 <= k < old(tokens)@.len() implies (#[trigger] tokens@[k]).0@
            == old(tokens)@[k].0@ by {
            assert(t0[k] == (old(tokens)@[k].0@, old(tokens)@[k].1@));
            assert(t1[k] == crate::expand_home::home_token_rewrite(t0[k], user_home_of(*sh)));
            assert(t2[k] == crate::expand_brace::brace_token_rewrite(t1[k]));
            assert(t3[k] == crate::expand_env::env_token_rewrite(*sh, t2[k]));
            assert(t4[k].0 == t3[k].0);
            assert(t5[k] == crate::substitution::subst_token_rewrite(
                t4[k],
                assoc_view(captured@),
            ));
            assert(t5[k] == (tokens@[k].0@, tokens@[k].1@));
        }
        assert forall|k: int|
            0 <= k < old(tokens)@.len() && old(tokens)@[k].0@ == seq!['\''] implies (
        #[trigger] tokens@[k]).1@ == old(tokens)@[k].1@ by {
            assert(t0[k] == (old(tokens)@[k].0@, old(tokens)@[k].1@));
            assert(t0[k].0.len() == 1);
            assert(t1[k] == t0[k]);
            assert(t2[k] == t1[k]);
            assert(t3[k] == crate::expand_env::env_token_rewrite(*sh, t2[k]));
            assert(crate::expand_env::env_skips_marker(t2[k].0));
            assert(t3[k] == t2[k]);
            assert(t4[k].1 == t3[k].1 && t4[k].0 == t3[k].0);
            assert(t4[k] == t3[k]);
            assert(t5[k] == crate::substitution::subst_token_rewrite(
                t4[k],
                assoc_view(captured@),
            ));
            assert(t5[k] == t4[k]);
            assert(t5[k] == (tokens@[k].0@, tokens@[k].1@));
        }
    }
}

} // verus!
