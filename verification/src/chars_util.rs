//! Character-level helpers shared by the tokenizer and the expansion passes:
//! conversion between strings and character vectors, whitespace trimming,
//! prefix tests, splitting and joining on spaces, and decimal rendering of
//! integers.

use vstd::prelude::*;

verus! {

/// Characters treated as whitespace when a command segment is trimmed.
pub open spec fn is_blank_char(c: char) -> bool {
    c == ' ' || c == '\t' || c == '\r' || c == '\n'
}

pub fn is_blank(c: char) -> (r: bool)
    ensures
        r == is_blank_char(c),
{
    c == ' ' || c == '\t' || c == '\r' || c == '\n'
}

/// The characters of the string, in order.
pub fn str_to_chars(s: &str) -> (r: Vec<char>)
    ensures
        r@ == s@,
{
    let n = s.unicode_len();
    let mut r: Vec<char> = Vec::new();
    let mut i: usize = 0;
    while i < n
        invariant
            i <= s@.len(),
            n == s@.len(),
            r@ == s@.subrange(0, i as int),
        decreases s@.len() - i,
    {
        r.push(s.get_char(i));
        proof {
            assert(s@.subrange(0, i + 1 as int) =~= s@.subrange(0, i as int).push(s@[i as int]));
        }
        i += 1;
    }
    proof {
        assert(s@.subrange(0, s@.len() as int) =~= s@);
    }
    r
}

/// Relies on String's FromIterator<char> impl: collects the characters in order.
#[verifier::external_body]
pub fn chars_to_string(v: &Vec<char>) -> (r: String)
    ensures
        r@ == v@,
{
    v.iter().collect()
}

/// Appends all characters of `src` to `dst`.
pub fn append_chars(dst: &mut Vec<char>, src: &Vec<char>)
    ensures
        final(dst)@ == old(dst)@ + src@,
{
    let mut i: usize = 0;
    while i < src.len()
        invariant
            i <= src@.len(),
            dst@ == old(dst)@ + src@.subrange(0, i as int),
        decreases src@.len() - i,
    {
        dst.push(src[i]);
        proof {
            assert(old(dst)@ + src@.subrange(0, i + 1 as int) =~= (old(dst)@ + src@.subrange(
                0,
                i as int,
            )).push(src@[i as int]));
        }
        i += 1;
    }
    proof {
        assert(src@.subrange(0, src@.len() as int) =~= src@);
    }
}

/// Copies the characters of `v` in the index range `a..b`.
pub fn copy_range(v: &Vec<char>, a: usize, b: usize) -> (r: Vec<char>)
    requires
        a <= b <= v@.len(),
    ensures
        r@ == v@.subrange(a as int, b as int),
{
    let mut r: Vec<char> = Vec::new();
    let mut i: usize = a;
    while i < b
        invariant
            a <= i <= b <= v@.len(),
            r@ == v@.subrange(a as int, i as int),
        decreases b - i,
    {
        r.push(v[i]);
        proof {
            assert(v@.subrange(a as int, i + 1 as int) =~= v@.subrange(a as int, i as int).push(
                v@[i as int],
            ));
        }
        i += 1;
    }
    r
}

pub open spec fn trim_start_spec(s: Seq<char>) -> Seq<char>
    decreases s.len(),
{
    if s.len() > 0 && is_blank_char(s[0]) {
        trim_start_spec(s.drop_first())
    } else {
        s
    }
}

pub open spec fn trim_end_spec(s: Seq<char>) -> Seq<char>
    decreases s.len(),
{
    if s.len() > 0 && is_blank_char(s.last()) {
        trim_end_spec(s.drop_last())
    } else {
        s
    }
}

/// The string with leading and trailing whitespace removed.
pub open spec fn trim_spec(s: Seq<char>) -> Seq<char> {
    trim_end_spec(trim_start_spec(s))
}

/// Removes leading and trailing whitespace characters.
pub fn trim_chars(v: &Vec<char>) -> (r: Vec<char>)
    ensures
        r@ == trim_spec(v@),
{
    proof {
        assert(v@.subrange(0, v@.len() as int) =~= v@);
    }
    let mut a: usize = 0;
    while a < v.len() && is_blank(v[a])
        invariant
            a <= v@.len(),
            trim_start_spec(v@) == trim_start_spec(v@.subrange(a as int, v@.len() as int)),
        decreases v@.len() - a,
    {
        proof {
            assert(v@.subrange(a as int, v@.len() as int).drop_first() =~= v@.subrange(
                a as int + 1,
                v@.len() as int,
            ));
        }
        a += 1;
    }
    proof {
        assert(trim_start_spec(v@) == v@.subrange(a as int, v@.len() as int));
    }
    let mut b: usize = v.len();
    while b > a && is_blank(v[b - 1])
        invariant
            a <= b <= v@.len(),
            trim_end_spec(v@.subrange(a as int, v@.len() as int)) == trim_end_spec(
                v@.subrange(a as int, b as int),
            ),
        decreases b,
    {
        proof {
            assert(v@.subrange(a as int, b as int).drop_last() =~= v@.subrange(
                a as int,
                b - 1 as int,
            ));
        }
        b -= 1;
    }
    proof {
        assert(trim_end_spec(v@.subrange(a as int, b as int)) == v@.subrange(a as int, b as int));
    }
    copy_range(v, a, b)
}

/// `p` is an initial segment of `s`.
pub open spec fn is_prefix_of(p: Seq<char>, s: Seq<char>) -> bool {
    p.len() <= s.len() && p == s.subrange(0, p.len() as int)
}

pub fn chars_start_with(s: &Vec<char>, p: &Vec<char>) -> (r: bool)
    ensures
        r == is_prefix_of(p@, s@),
{
    if p.len() > s.len() {
        return false;
    }
    let mut i: usize = 0;
    while i < p.len()
        invariant
            i <= p@.len() <= s@.len(),
            forall|j: int| 0 <= j < i ==> p@[j] == s@[j],
        decreases p@.len() - i,
    {
        if s[i] != p[i] {
            proof {
                assert(p@ != s@.subrange(0, p@.len() as int)) by {
                    assert(s@.subrange(0, p@.len() as int)[i as int] == s@[i as int]);
                }
            }
            return false;
        }
        i += 1;
    }
    proof {
        assert(p@ =~= s@.subrange(0, p@.len() as int));
    }
    true
}

/// Tests whether the string begins with the given prefix.
pub fn str_starts_with(s: &str, p: &str) -> (r: bool)
    ensures
        r == is_prefix_of(p@, s@),
{
    let sv = str_to_chars(s);
    let pv = str_to_chars(p);
    chars_start_with(&sv, &pv)
}

/// Length of the run of characters different from `c` starting at `j`.
pub open spec fn until_char_len(s: Seq<char>, c: char, j: int) -> nat
    decreases s.len() - j,
{
    if 0 <= j < s.len() && s[j] != c {
        1 + until_char_len(s, c, j + 1)
    } else {
        0
    }
}

pub proof fn lemma_until_char(s: Seq<char>, c: char, a: int, b: int)
    requires
        0 <= a <= b <= s.len(),
        forall|m: int| a <= m < b ==> s[m] != c,
        b == s.len() || s[b] == c,
    ensures
        until_char_len(s, c, a) == b - a,
    decreases b - a,
{
    if a < b {
        lemma_until_char(s, c, a + 1, b);
    }
}

pub proof fn lemma_until_char_le(s: Seq<char>, c: char, j: int)
    ensures
        j + until_char_len(s, c, j) <= s.len() || until_char_len(s, c, j) == 0,
    decreases s.len() - j,
{
    if 0 <= j < s.len() && s[j] != c {
        lemma_until_char_le(s, c, j + 1);
    }
}

pub proof fn lemma_until_char_hit(s: Seq<char>, c: char, j: int)
    requires
        0 <= j <= s.len(),
    ensures
        j + until_char_len(s, c, j) < s.len() ==> s[j + until_char_len(s, c, j)] == c,
        forall|m: int| j <= m < j + until_char_len(s, c, j) ==> #[trigger] s[m] != c,
    decreases s.len() - j,
{
    if j < s.len() && s[j] != c {
        lemma_until_char_hit(s, c, j + 1);
    }
}

/// The position of the first occurrence of `c` at or after `from`, or the
/// length of the vector when there is none.
pub fn find_char_from(s: &Vec<char>, c: char, from: usize) -> (r: usize)
    requires
        from <= s@.len(),
    ensures
        from <= r <= s@.len(),
        r - from == until_char_len(s@, c, from as int),
        r < s@.len() ==> s@[r as int] == c,
        forall|m: int| from <= m < r ==> s@[m] != c,
{
    let mut j = from;
    while j < s.len() && s[j] != c
        invariant
            from <= j <= s@.len(),
            forall|m: int| from <= m < j ==> s@[m] != c,
        decreases s@.len() - j,
    {
        j += 1;
    }
    proof {
        lemma_until_char(s@, c, from as int, j as int);
    }
    j
}

/// The position of the `close` delimiter that balances `depth` already-open
/// `open` delimiters, scanning from `i`; the length of the text when there
/// is none.
pub open spec fn delim_end(s: Seq<char>, open: char, close: char, i: int, depth: int) -> int
    decreases s.len() - i,
{
    if i < 0 || i >= s.len() {
        s.len() as int
    } else if s[i] == open {
        delim_end(s, open, close, i + 1, depth + 1)
    } else if s[i] == close {
        if depth <= 1 {
            i
        } else {
            delim_end(s, open, close, i + 1, depth - 1)
        }
    } else {
        delim_end(s, open, close, i + 1, depth)
    }
}

pub proof fn lemma_delim_end_bounds(s: Seq<char>, open: char, close: char, i: int, depth: int)
    ensures
        i <= s.len() ==> delim_end(s, open, close, i, depth) >= i,
        delim_end(s, open, close, i, depth) <= s.len(),
    decreases s.len() - i,
{
    if 0 <= i < s.len() {
        lemma_delim_end_bounds(s, open, close, i + 1, depth + 1);
        lemma_delim_end_bounds(s, open, close, i + 1, depth - 1);
        lemma_delim_end_bounds(s, open, close, i + 1, depth);
    }
}

/// Finds the `close` delimiter that balances one `open` delimiter already
/// seen before `from`; the length of the vector when there is none.
pub fn delim_end_exec(s: &Vec<char>, open: char, close: char, from: usize) -> (r: usize)
    requires
        1 <= from <= s@.len(),
    ensures
        r == delim_end(s@, open, close, from as int, 1),
        from <= r <= s@.len(),
{
    let mut i = from;
    let mut depth: usize = 1;
    while i < s.len()
        invariant
            1 <= from <= i <= s@.len(),
            1 <= depth <= i - from + 1,
            delim_end(s@, open, close, from as int, 1) == delim_end(
                s@,
                open,
                close,
                i as int,
                depth as int,
            ),
        decreases s@.len() - i,
    {
        let c = s[i];
        if c == open {
            depth += 1;
        } else if c == close {
            if depth <= 1 {
                proof {
                    lemma_delim_end_bounds(s@, open, close, from as int, 1);
                }
                return i;
            }
            depth -= 1;
        }
        i += 1;
    }
    proof {
        lemma_delim_end_bounds(s@, open, close, from as int, 1);
    }
    s.len()
}

/// View of a vector of character vectors.
pub open spec fn charss_view(v: Seq<Vec<char>>) -> Seq<Seq<char>> {
    v.map_values(|x: Vec<char>| x@)
}

/// The parts joined with single spaces between them.
pub open spec fn join_spaces(parts: Seq<Seq<char>>) -> Seq<char>
    decreases parts.len(),
{
    if parts.len() == 0 {
        Seq::empty()
    } else if parts.len() == 1 {
        parts[0]
    } else {
        parts[0] + seq![' '] + join_spaces(parts.drop_first())
    }
}

/// Joins the parts at index `from` and after with single spaces.
pub fn join_spaces_from(parts: &Vec<Vec<char>>, from: usize) -> (r: Vec<char>)
    requires
        from <= parts@.len(),
    ensures
        r@ == join_spaces(charss_view(parts@).subrange(from as int, parts@.len() as int)),
    decreases parts@.len() - from,
{
    let mut r: Vec<char> = Vec::new();
    if from >= parts.len() {
        proof {
            assert(charss_view(parts@).subrange(from as int, parts@.len() as int).len() == 0);
        }
        return r;
    }
    append_chars(&mut r, &parts[from]);
    let ghost whole = charss_view(parts@).subrange(from as int, parts@.len() as int);
    if from + 1 < parts.len() {
        r.push(' ');
        let rest = join_spaces_from(parts, from + 1);
        append_chars(&mut r, &rest);
        proof {
            assert(whole.drop_first() =~= charss_view(parts@).subrange(
                from as int + 1,
                parts@.len() as int,
            ));
            assert(r@ =~= join_spaces(whole));
        }
    } else {
        proof {
            assert(whole.len() == 1);
            assert(r@ =~= Seq::<char>::empty() + whole[0]);
            assert(r@ =~= join_spaces(whole));
        }
    }
    r
}

/// The text with every space preceded by a backslash.
pub open spec fn escape_spaces(s: Seq<char>) -> Seq<char>
    decreases s.len(),
{
    if s.len() == 0 {
        s
    } else if s[0] == ' ' {
        seq!['\\', ' '] + escape_spaces(s.drop_first())
    } else {
        seq![s[0]] + escape_spaces(s.drop_first())
    }
}

/// A token text put back into line form: wrapped in its quote marker, or,
/// for an unquoted token, with its spaces backslash-escaped.
pub open spec fn wrap_sep(sep: Seq<char>, s: Seq<char>) -> Seq<char> {
    if sep.len() == 0 {
        escape_spaces(s)
    } else {
        sep + s + sep
    }
}

/// Escapes the spaces of the text at index `from` and after.
pub fn escape_spaces_from(s: &Vec<char>, from: usize) -> (r: Vec<char>)
    requires
        from <= s@.len(),
    ensures
        r@ == escape_spaces(s@.subrange(from as int, s@.len() as int)),
    decreases s@.len() - from,
{
    let mut r: Vec<char> = Vec::new();
    if from >= s.len() {
        return r;
    }
    let ghost whole = s@.subrange(from as int, s@.len() as int);
    if s[from] == ' ' {
        r.push('\\');
        r.push(' ');
    } else {
        r.push(s[from]);
    }
    let rest = escape_spaces_from(s, from + 1);
    append_chars(&mut r, &rest);
    proof {
        assert(whole.drop_first() =~= s@.subrange(from as int + 1, s@.len() as int));
        assert(r@ =~= escape_spaces(whole));
    }
    r
}

/// Puts a token back into line form (see `wrap_sep`).
pub fn wrap_sep_string(sep: &str, text: &str) -> (r: String)
    ensures
        r@ == wrap_sep(sep@, text@),
{
    let sv = str_to_chars(sep);
    let tv = str_to_chars(text);
    if sv.len() == 0 {
        proof {
            assert(tv@.subrange(0, tv@.len() as int) =~= tv@);
        }
        let e = escape_spaces_from(&tv, 0);
        chars_to_string(&e)
    } else {
        let mut out: Vec<char> = Vec::new();
        append_chars(&mut out, &sv);
        append_chars(&mut out, &tv);
        append_chars(&mut out, &sv);
        proof {
            assert(out@ =~= sep@ + text@ + sep@);
        }
        chars_to_string(&out)
    }
}

pub open spec fn digit_char(d: int) -> char {
    if d == 0 {
        '0'
    } else if d == 1 {
        '1'
    } else if d == 2 {
        '2'
    } else if d == 3 {
        '3'
    } else if d == 4 {
        '4'
    } else if d == 5 {
        '5'
    } else if d == 6 {
        '6'
    } else if d == 7 {
        '7'
    } else if d == 8 {
        '8'
    } else {
        '9'
    }
}

/// The decimal digits of `n`, most significant first.
pub open spec fn dec_digits(n: nat) -> Seq<char>
    decreases n,
{
    if n < 10 {
        seq![digit_char(n as int)]
    } else {
        dec_digits(n / 10).push(digit_char((n % 10) as int))
    }
}

/// The decimal rendering of `v`, with a leading minus sign when negative.
pub open spec fn int_to_dec(v: int) -> Seq<char> {
    if v < 0 {
        seq!['-'] + dec_digits((-v) as nat)
    } else {
        dec_digits(v as nat)
    }
}

fn digit_of(n: u64) -> (c: char)
    requires
        n < 10,
    ensures
        c == digit_char(n as int),
{
    if n == 0 {
        '0'
    } else if n == 1 {
        '1'
    } else if n == 2 {
        '2'
    } else if n == 3 {
        '3'
    } else if n == 4 {
        '4'
    } else if n == 5 {
        '5'
    } else if n == 6 {
        '6'
    } else if n == 7 {
        '7'
    } else if n == 8 {
        '8'
    } else {
        '9'
    }
}

fn push_dec_digits(n: u64, out: &mut Vec<char>)
    ensures
        final(out)@ == old(out)@ + dec_digits(n as nat),
    decreases n,
{
    if n < 10 {
        out.push(digit_of(n));
        proof {
            assert(old(out)@ + dec_digits(n as nat) =~= old(out)@.push(digit_char(n as int)));
        }
    } else {
        push_dec_digits(n / 10, out);
        out.push(digit_of(n % 10));
        proof {
            assert(old(out)@ + dec_digits(n as nat) =~= (old(out)@ + dec_digits(
                (n / 10) as nat,
            )).push(digit_char((n % 10) as int)));
        }
    }
}

/// The decimal rendering of an unsigned value.
pub fn u64_dec_chars(n: u64) -> (r: Vec<char>)
    ensures
        r@ == dec_digits(n as nat),
{
    let mut r: Vec<char> = Vec::new();
    push_dec_digits(n, &mut r);
    proof {
        assert(Seq::<char>::empty() + dec_digits(n as nat) =~= dec_digits(n as nat));
    }
    r
}

/// The decimal rendering of a signed value.
pub fn i32_dec_chars(v: i32) -> (r: Vec<char>)
    ensures
        r@ == int_to_dec(v as int),
{
    if v >= 0 {
        u64_dec_chars(v as u64)
    } else {
        let mag: u64 = (-(v as i64)) as u64;
        let mut r: Vec<char> = Vec::new();
        r.push('-');
        push_dec_digits(mag, &mut r);
        proof {
            assert(seq!['-'] + dec_digits(mag as nat) =~= Seq::<char>::empty().push('-')
                + dec_digits(mag as nat));
        }
        r
    }
}

} // verus!
