//! In-memory shell session state: aliases, session-local environment
//! variables, a snapshot of the process environment, and the scalar fields
//! the expansion pipeline reads (previous exit status, process id, previous
//! command and directory).
//!
//! The process environment and the process id are ambient state of the host
//! process; they are held here as an explicit snapshot so that every reader
//! is a pure function of the `Shell` value. The maps are association lists
//! in which the first entry with a given key is the binding.

use vstd::prelude::*;
use crate::chars_util::str_to_chars;
use crate::parser_line::token_views;

verus! {

/// The binding of key `k`, if any: the value of the first entry whose key is `k`.
pub open spec fn entries_get(m: Seq<(Seq<char>, Seq<char>)>, k: Seq<char>) -> Option<Seq<char>>
    decreases m.len(),
{
    if m.len() == 0 {
        None
    } else if m[0].0 == k {
        Some(m[0].1)
    } else {
        entries_get(m.drop_first(), k)
    }
}

pub open spec fn entries_has(m: Seq<(Seq<char>, Seq<char>)>, k: Seq<char>) -> bool {
    entries_get(m, k) is Some
}

/// The map with `k` bound to `v`: the first entry with key `k` is replaced,
/// or a new entry is appended when none exists.
pub open spec fn entries_set(
    m: Seq<(Seq<char>, Seq<char>)>,
    k: Seq<char>,
    v: Seq<char>,
) -> Seq<(Seq<char>, Seq<char>)>
    decreases m.len(),
{
    if m.len() == 0 {
        seq![(k, v)]
    } else if m[0].0 == k {
        seq![(k, v)] + m.drop_first()
    } else {
        seq![m[0]] + entries_set(m.drop_first(), k, v)
    }
}

/// Shell session state.
#[derive(Debug, Clone)]
pub struct Shell {
    /// Alias name to raw replacement text.
    pub alias: Vec<(String, String)>,
    /// Session-local variables not promoted to the process environment.
    pub envs: Vec<(String, String)>,
    /// Snapshot of the process environment, filled in by the host program.
    pub proc_envs: Vec<(String, String)>,
    /// Process id of the shell, filled in by the host program.
    pub pid: u32,
    pub cmd: String,
    pub previous_dir: String,
    pub previous_cmd: String,
    pub previous_status: i32,
}

/// View of an association list as a sequence of key/value character pairs.
pub open spec fn assoc_view(m: Seq<(String, String)>) -> Seq<(Seq<char>, Seq<char>)> {
    token_views(m)
}

/// The value a variable reference resolves to: the process environment
/// snapshot first, then the session-local map, then the empty string.
pub open spec fn shell_var_value(sh: Shell, name: Seq<char>) -> Seq<char> {
    match entries_get(assoc_view(sh.proc_envs@), name) {
        Some(v) => v,
        None => match entries_get(assoc_view(sh.envs@), name) {
            Some(v) => v,
            None => Seq::empty(),
        },
    }
}

pub fn chars_eq(a: &Vec<char>, b: &Vec<char>) -> (r: bool)
    ensures
        r == (a@ == b@),
{
    if a.len() != b.len() {
        return false;
    }
    let mut i: usize = 0;
    while i < a.len()
        invariant
            i <= a@.len(),
            a@.len() == b@.len(),
            forall|j: int| 0 <= j < i ==> a@[j] == b@[j],
        decreases a@.len() - i,
    {
        if a[i] != b[i] {
            return false;
        }
        i += 1;
    }
    proof {
        assert(a@ =~= b@);
    }
    true
}

/// Looks `key` up in an association list.
pub(crate) fn assoc_find(m: &Vec<(String, String)>, key: &Vec<char>) -> (r: Option<String>)
    ensures
        match r {
            Some(s) => entries_get(assoc_view(m@), key@) == Some(s@),
            None => entries_get(assoc_view(m@), key@) is None,
        },
{
    let mut i: usize = 0;
    proof {
        assert(assoc_view(m@).subrange(0, m@.len() as int) =~= assoc_view(m@));
    }
    while i < m.len()
        invariant
            i <= m@.len(),
            entries_get(assoc_view(m@), key@) == entries_get(
                assoc_view(m@).subrange(i as int, m@.len() as int),
                key@,
            ),
        decreases m@.len() - i,
    {
        let ghost rest = assoc_view(m@).subrange(i as int, m@.len() as int);
        proof {
            assert(rest[0] == (m@[i as int].0@, m@[i as int].1@));
            assert(rest.drop_first() =~= assoc_view(m@).subrange(
                i as int + 1,
                m@.len() as int,
            ));
        }
        let k = str_to_chars(m[i].0.as_str());
        if chars_eq(&k, key) {
            return Some(m[i].1.clone());
        }
        i += 1;
    }
    None
}

/// Replaces the first entry whose key is `name`, or appends a new entry.
fn assoc_put(m: &mut Vec<(String, String)>, name: &str, value: &str)
    ensures
        assoc_view(final(m)@) == entries_set(assoc_view(old(m)@), name@, value@),
{
    let key = str_to_chars(name);
    let mut i: usize = 0;
    while i < m.len()
        invariant
            i <= m@.len(),
            key@ == name@,
            m@ == old(m)@,
            forall|j: int| 0 <= j < i ==> assoc_view(m@)[j].0 != name@,
        decreases m@.len() - i,
    {
        let k = str_to_chars(m[i].0.as_str());
        if chars_eq(&k, &key) {
            let pair = (name.to_owned(), value.to_owned());
            let ghost idx = i as int;
            m.remove(i);
            m.insert(i, pair);
            proof {
                lemma_entries_set_skip(assoc_view(old(m)@), idx, name@, value@);
                assert(assoc_view(old(m)@).subrange(idx, old(m)@.len() as int)[0].0 == name@);
                assert(assoc_view(old(m)@).subrange(idx, old(m)@.len() as int).drop_first()
                    =~= assoc_view(old(m)@).subrange(idx + 1, old(m)@.len() as int));
                assert(assoc_view(m@) =~= entries_set(assoc_view(old(m)@), name@, value@));
            }
            return ;
        }
        i += 1;
    }
    m.push((name.to_owned(), value.to_owned()));
    proof {
        lemma_entries_set_skip(assoc_view(old(m)@), old(m)@.len() as int, name@, value@);
        assert(assoc_view(old(m)@).subrange(old(m)@.len() as int, old(m)@.len() as int).len()
            == 0);
        assert(assoc_view(m@) =~= entries_set(assoc_view(old(m)@), name@, value@));
    }
}

proof fn lemma_entries_set_skip(m: Seq<(Seq<char>, Seq<char>)>, i: int, k: Seq<char>, v: Seq<char>)
    requires
        0 <= i <= m.len(),
        forall|j: int| 0 <= j < i ==> m[j].0 != k,
    ensures
        entries_set(m, k, v) == m.subrange(0, i) + entries_set(m.subrange(i, m.len() as int), k, v),
    decreases i,
{
    if i == 0 {
        assert(m.subrange(0, m.len() as int) =~= m);
        assert(m.subrange(0, 0) + entries_set(m.subrange(0, m.len() as int), k, v)
            =~= entries_set(m, k, v));
    } else {
        lemma_entries_set_skip(m.drop_first(), i - 1, k, v);
        assert(m.drop_first().subrange(0, i - 1) =~= m.subrange(1, i));
        assert(m.drop_first().subrange(i - 1, m.drop_first().len() as int) =~= m.subrange(
            i,
            m.len() as int,
        ));
        assert(entries_set(m, k, v) =~= m.subrange(0, i) + entries_set(
            m.subrange(i, m.len() as int),
            k,
            v,
        ));
    }
}

impl Shell {
    /// A fresh session: empty maps, status zero.
    pub fn new() -> (sh: Shell)
        ensures
            sh.alias@.len() == 0,
            sh.envs@.len() == 0,
            sh.proc_envs@.len() == 0,
            sh.pid == 0,
            sh.cmd@ == Seq::<char>::empty(),
            sh.previous_dir@ == Seq::<char>::empty(),
            sh.previous_cmd@ == Seq::<char>::empty(),
            sh.previous_status == 0,
    {
        Shell {
            alias: Vec::new(),
            envs: Vec::new(),
            proc_envs: Vec::new(),
            pid: 0,
            cmd: String::new(),
            previous_dir: String::new(),
            previous_cmd: String::new(),
            previous_status: 0,
        }
    }

    /// Sets a variable: in the process-environment snapshot when the name is
    /// already present there (an exported variable stays process-wide),
    /// otherwise in the session-local map.
    pub fn set_env(&mut self, name: &str, value: &str)
        ensures
            entries_has(assoc_view(old(self).proc_envs@), name@) ==> {
                &&& assoc_view(final(self).proc_envs@) == entries_set(
                    assoc_view(old(self).proc_envs@),
                    name@,
                    value@,
                )
                &&& final(self).envs@ == old(self).envs@
            },
            !entries_has(assoc_view(old(self).proc_envs@), name@) ==> {
                &&& final(self).proc_envs@ == old(self).proc_envs@
                &&& assoc_view(final(self).envs@) == entries_set(
                    assoc_view(old(self).envs@),
                    name@,
                    value@,
                )
            },
            final(self).alias@ == old(self).alias@,
            final(self).pid == old(self).pid,
            final(self).previous_status == old(self).previous_status,
    {
        let key = str_to_chars(name);
        match assoc_find(&self.proc_envs, &key) {
            Some(_) => {
                assoc_put(&mut self.proc_envs, name, value);
            },
            None => {
                assoc_put(&mut self.envs, name, value);
            },
        }
    }

    /// The session-local value of `name`, if one is set. The process
    /// environment snapshot is not consulted here.
    pub fn get_env(&self, name: &str) -> (r: Option<String>)
        ensures
            match r {
                Some(s) => entries_get(assoc_view(self.envs@), name@) == Some(s@),
                None => entries_get(assoc_view(self.envs@), name@) is None,
            },
    {
        let key = str_to_chars(name);
        assoc_find(&self.envs, &key)
    }

    /// Binds alias `name` to the replacement text `value`.
    pub fn add_alias(&mut self, name: &str, value: &str)
        ensures
            assoc_view(final(self).alias@) == entries_set(
                assoc_view(old(self).alias@),
                name@,
                value@,
            ),
            final(self).envs@ == old(self).envs@,
            final(self).proc_envs@ == old(self).proc_envs@,
            final(self).pid == old(self).pid,
            final(self).previous_status == old(self).previous_status,
    {
        assoc_put(&mut self.alias, name, value);
    }

    /// The replacement text of alias `name`; an unset alias or one bound to
    /// the empty string resolves to nothing. The surrounding shell's own
    /// line-pre-processing hook is no part of the session state: a host that
    /// has one applies it to the returned text itself.
    pub fn get_alias_content(&self, name: &str) -> (r: Option<String>)
        ensures
            match r {
                Some(s) => entries_get(assoc_view(self.alias@), name@) == Some(s@) && s@.len()
                    > 0,
                None => entries_get(assoc_view(self.alias@), name@) is None || entries_get(
                    assoc_view(self.alias@),
                    name@,
                ) == Some(Seq::<char>::empty()),
            },
    {
        let key = str_to_chars(name);
        match assoc_find(&self.alias, &key) {
            Some(content) => {
                if content.as_str().is_empty() {
                    None
                } else {
                    Some(content)
                }
            },
            None => None,
        }
    }
}

} // verus!
