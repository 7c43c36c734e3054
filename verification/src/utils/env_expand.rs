//! PowerShell-style environment variable references in command text.
//!
//! A reference is `$` followed by a name (ASCII letters, digits and `_`),
//! optionally with an `env:` prefix in any letter case between the two:
//! `$HOME`, `$env:HOME`, `$EnV:HOME`. A `$` that no name follows stays as
//! it is. The values of the referenced variables are looked up elsewhere,
//! one per reference and in the order of the references; a reference whose
//! variable has no value is left as it is written.

use crate::entries::{
    has_key, keys_distinct, map_entries, map_insert, map_new, map_pairs, pairs_view, Entry,
};
use crate::text::{chars_of, push_char, string_of_chars};
use indexmap::IndexMap;
use vstd::prelude::*;

verus! {

/// Whether `c` may stand in a variable name: an ASCII letter or digit, or `_`.
pub open spec fn is_name_char(c: char) -> bool {
    ('0' <= c && c <= '9') || ('a' <= c && c <= 'z') || ('A' <= c && c <= 'Z') || c == '_'
}

/// The number of name characters at the start of `s`.
pub open spec fn name_len(s: Seq<char>) -> nat
    decreases s.len(),
{
    if s.len() > 0 && is_name_char(s[0]) {
        1 + name_len(s.drop_first())
    } else {
        0
    }
}

/// Whether `t`, which starts with `$`, goes on with `env:` in any letter case.
pub open spec fn has_env_prefix(t: Seq<char>) -> bool {
    &&& t.len() >= 5
    &&& (t[1] == 'e' || t[1] == 'E')
    &&& (t[2] == 'n' || t[2] == 'N')
    &&& (t[3] == 'v' || t[3] == 'V')
    &&& t[4] == ':'
}

/// Where the variable name starts in `t`, which starts with `$`.
pub open spec fn name_start(t: Seq<char>) -> int {
    if has_env_prefix(t) {
        5
    } else {
        1
    }
}

/// The text that a reference written as `written` becomes, given the
/// variable's value: the value, or the reference unchanged when unset.
pub open spec fn replacement(written: Seq<char>, value: Option<Seq<char>>) -> Seq<char> {
    match value {
        Some(v) => v,
        None => written,
    }
}

/// The first of the looked-up values; a missing one counts as unset.
pub open spec fn first_value(vals: Seq<Option<Seq<char>>>) -> Option<Seq<char>> {
    if vals.len() > 0 {
        vals[0]
    } else {
        None
    }
}

/// The looked-up values after the first.
pub open spec fn rest_values(vals: Seq<Option<Seq<char>>>) -> Seq<Option<Seq<char>>> {
    if vals.len() > 0 {
        vals.drop_first()
    } else {
        vals
    }
}

pub proof fn lemma_name_len_bound(s: Seq<char>)
    ensures
        name_len(s) <= s.len(),
    decreases s.len(),
{
    if s.len() > 0 && is_name_char(s[0]) {
        lemma_name_len_bound(s.drop_first());
    }
}

/// The text `t` with each variable reference replaced, the references
/// taking the values of `vals` in order.
pub open spec fn expand(t: Seq<char>, vals: Seq<Option<Seq<char>>>) -> Seq<char>
    decreases t.len(),
{
    if t.len() == 0 {
        Seq::<char>::empty()
    } else if t[0] != '$' {
        seq![t[0]] + expand(t.drop_first(), vals)
    } else {
        let st = name_start(t);
        let n = name_len(t.skip(st));
        if n == 0 {
            seq!['$'] + expand(t.drop_first(), vals)
        } else {
            proof {
                lemma_name_len_bound(t.skip(st));
            }
            replacement(t.subrange(0, st + n), first_value(vals)) + expand(
                t.skip(st + n),
                rest_values(vals),
            )
        }
    }
}

/// The names of the variables that `t` refers to, in order.
pub open spec fn var_names(t: Seq<char>) -> Seq<Seq<char>>
    decreases t.len(),
{
    if t.len() == 0 {
        Seq::<Seq<char>>::empty()
    } else if t[0] != '$' {
        var_names(t.drop_first())
    } else {
        let st = name_start(t);
        let n = name_len(t.skip(st));
        if n == 0 {
            var_names(t.drop_first())
        } else {
            proof {
                lemma_name_len_bound(t.skip(st));
            }
            seq![t.subrange(st, st + n)] + var_names(t.skip(st + n))
        }
    }
}

/// The values of a list of looked-up variables, by view.
pub open spec fn option_views(v: Seq<Option<String>>) -> Seq<Option<Seq<char>>> {
    v.map_values(
        |o: Option<String>|
            match o {
                Some(s) => Some(s@),
                None => None,
            },
    )
}

/// The views of a list of strings.
pub open spec fn string_views(v: Seq<String>) -> Seq<Seq<char>> {
    v.map_values(|s: String| s@)
}

/// Text without any `$` comes out of expansion unchanged, whatever the
/// looked-up values.
pub proof fn lemma_expand_without_dollar(t: Seq<char>, vals: Seq<Option<Seq<char>>>)
    requires
        !t.contains('$'),
    ensures
        expand(t, vals) == t,
    decreases t.len(),
{
    if t.len() > 0 {
        assert(t[0] != '$') by {
            assert(t.contains(t[0]));
        }
        assert(!t.drop_first().contains('$')) by {
            if t.drop_first().contains('$') {
                let i = choose|i: int| 0 <= i < t.drop_first().len() && t.drop_first()[i] == '$';
                assert(t[i + 1] == '$');
            }
        }
        lemma_expand_without_dollar(t.drop_first(), vals);
        assert(seq![t[0]] + t.drop_first() =~= t);
    }
}

/// Whether no looked-up variable has a value.
pub open spec fn all_unset(vals: Seq<Option<Seq<char>>>) -> bool {
    forall|i: int| 0 <= i < vals.len() ==> vals[i] is None
}

/// Variables without a value are left as they are written: when no
/// looked-up variable has a value, expansion gives the text back unchanged.
pub proof fn lemma_expand_unset_unchanged(t: Seq<char>, vals: Seq<Option<Seq<char>>>)
    requires
        all_unset(vals),
    ensures
        expand(t, vals) == t,
    decreases t.len(),
{
    if t.len() > 0 {
        assert(all_unset(rest_values(vals)));
        if t[0] != '$' {
            lemma_expand_unset_unchanged(t.drop_first(), vals);
            assert(seq![t[0]] + t.drop_first() =~= t);
        } else {
            let st = name_start(t);
            let n = name_len(t.skip(st));
            lemma_name_len_bound(t.skip(st));
            if n == 0 {
                lemma_expand_unset_unchanged(t.drop_first(), vals);
                assert(seq!['$'] + t.drop_first() =~= t);
            } else {
                lemma_expand_unset_unchanged(t.skip(st + n), rest_values(vals));
                assert(t.subrange(0, st + n) + t.skip(st + n) =~= t);
            }
        }
    }
}

/// Each name that a reference holds is non-empty and made of name
/// characters.
pub proof fn lemma_var_names_wellformed(t: Seq<char>)
    ensures
        forall|i: int|
            0 <= i < var_names(t).len() ==> #[trigger] var_names(t)[i].len() > 0 && forall|j: int|
                0 <= j < var_names(t)[i].len() ==> is_name_char(var_names(t)[i][j]),
    decreases t.len(),
{
    if t.len() > 0 {
        if t[0] != '$' {
            lemma_var_names_wellformed(t.drop_first());
            assert(var_names(t) == var_names(t.drop_first()));
        } else {
            let st = name_start(t);
            let n = name_len(t.skip(st));
            lemma_name_len_bound(t.skip(st));
            if n == 0 {
                lemma_var_names_wellformed(t.drop_first());
                assert(var_names(t) == var_names(t.drop_first()));
            } else {
                lemma_var_names_wellformed(t.skip(st + n));
                lemma_name_chars(t.skip(st));
                let name = t.subrange(st, st + n);
                assert forall|j: int| 0 <= j < name.len() implies is_name_char(name[j]) by {
                    assert(name[j] == t.skip(st)[j]);
                }
                let rest = var_names(t.skip(st + n));
                assert(var_names(t) == seq![name] + rest);
                assert forall|i: int| 0 <= i < var_names(t).len() implies #[trigger] var_names(
                    t,
                )[i].len() > 0 && forall|j: int|
                    0 <= j < var_names(t)[i].len() ==> is_name_char(var_names(t)[i][j]) by {
                    if i > 0 {
                        assert(var_names(t)[i] == rest[i - 1]);
                    }
                }
            }
        }
    }
}

proof fn lemma_name_chars(s: Seq<char>)
    ensures
        forall|j: int| 0 <= j < name_len(s) ==> is_name_char(#[trigger] s[j]),
    decreases s.len(),
{
    lemma_name_len_bound(s);
    if s.len() > 0 && is_name_char(s[0]) {
        lemma_name_chars(s.drop_first());
        assert forall|j: int| 0 <= j < name_len(s) implies is_name_char(#[trigger] s[j]) by {
            if j > 0 {
                assert(s[j] == s.drop_first()[j - 1]);
            }
        }
    }
}

/// The text `t` with each variable reference replaced by the value that
/// `env` gives its name, a reference to a name without value left as
/// written.
pub open spec fn expand_with_env(t: Seq<char>, env: spec_fn(Seq<char>) -> Option<Seq<char>>) -> Seq<
    char,
>
    decreases t.len(),
{
    if t.len() == 0 {
        Seq::<char>::empty()
    } else if t[0] != '$' {
        seq![t[0]] + expand_with_env(t.drop_first(), env)
    } else {
        let st = name_start(t);
        let n = name_len(t.skip(st));
        if n == 0 {
            seq!['$'] + expand_with_env(t.drop_first(), env)
        } else {
            proof {
                lemma_name_len_bound(t.skip(st));
            }
            replacement(t.subrange(0, st + n), env(t.subrange(st, st + n))) + expand_with_env(
                t.skip(st + n),
                env,
            )
        }
    }
}

/// The `k`-th value that expansion consumes belongs to the `k`-th name
/// that [`var_names`] lists: looking up each listed name in `env`, in order,
/// and expanding with those values is expanding with `env`.
pub proof fn lemma_values_follow_names(t: Seq<char>, env: spec_fn(Seq<char>) -> Option<Seq<char>>)
    ensures
        expand(t, var_names(t).map_values(env)) == expand_with_env(t, env),
    decreases t.len(),
{
    if t.len() > 0 {
        if t[0] != '$' {
            lemma_values_follow_names(t.drop_first(), env);
        } else {
            let st = name_start(t);
            let n = name_len(t.skip(st));
            lemma_name_len_bound(t.skip(st));
            if n == 0 {
                lemma_values_follow_names(t.drop_first(), env);
            } else {
                let rest = t.skip(st + n);
                lemma_values_follow_names(rest, env);
                let name = t.subrange(st, st + n);
                let vals = var_names(t).map_values(env);
                assert(var_names(t) == seq![name] + var_names(rest));
                assert(vals.drop_first() =~= var_names(rest).map_values(env));
                assert(vals[0] == env(name));
            }
        }
    }
}

proof fn lemma_name_len_of_word(n: Seq<char>, c: char)
    requires
        forall|i: int| 0 <= i < n.len() ==> is_name_char(#[trigger] n[i]),
        !is_name_char(c),
    ensures
        name_len(n + seq![c]) == n.len(),
    decreases n.len(),
{
    let w = n + seq![c];
    if n.len() == 0 {
        assert(w[0] == c);
    } else {
        assert(w[0] == n[0]);
        assert(w.drop_first() =~= n.drop_first() + seq![c]);
        assert forall|i: int| 0 <= i < n.drop_first().len() implies is_name_char(
            #[trigger] n.drop_first()[i],
        ) by {
            assert(n.drop_first()[i] == n[i + 1]);
        }
        lemma_name_len_of_word(n.drop_first(), c);
    }
}

/// A reference's name is the longest run of ASCII letters, digits and `_`
/// after the `$` (and after an `env:` prefix in any letter case): for such
/// a non-empty name `n` followed by a character `c` that is none of them,
/// the text `$`, prefix, `n`, `c` refers to `n` alone, and expanding it
/// with the value `v` gives `v` followed by `c`. (`$env` followed by `:`
/// is left out: there `env:` is the prefix.)
pub proof fn lemma_reference_name_ends_at_non_word_char(
    p: Seq<char>,
    n: Seq<char>,
    c: char,
    v: Seq<char>,
)
    requires
        p.len() == 0 || (p.len() == 4 && (p[0] == 'e' || p[0] == 'E') && (p[1] == 'n' || p[1]
            == 'N') && (p[2] == 'v' || p[2] == 'V') && p[3] == ':'),
        n.len() > 0,
        forall|i: int|
            0 <= i < n.len() ==> ('0' <= #[trigger] n[i] && n[i] <= '9') || ('a' <= n[i] && n[i]
                <= 'z') || ('A' <= n[i] && n[i] <= 'Z') || n[i] == '_',
        !(('0' <= c && c <= '9') || ('a' <= c && c <= 'z') || ('A' <= c && c <= 'Z') || c == '_'),
        !(p.len() == 0 && n.len() == 3 && (n[0] == 'e' || n[0] == 'E') && (n[1] == 'n' || n[1]
            == 'N') && (n[2] == 'v' || n[2] == 'V') && c == ':'),
    ensures
        var_names(seq!['$'] + p + n + seq![c]) == seq![n],
        expand(seq!['$'] + p + n + seq![c], seq![Some(v)]) == v + seq![c],
{
    let t = seq!['$'] + p + n + seq![c];
    let nc = n + seq![c];
    assert(forall|i: int| 0 <= i < n.len() ==> is_name_char(#[trigger] n[i]));
    lemma_name_len_of_word(n, c);
    assert(has_env_prefix(t) == (p.len() == 4)) by {
        if p.len() == 0 {
            if t.len() >= 5 {
                assert(t[1] == n[0] && t[2] == n[1] && t[3] == n[2]);
                if n.len() >= 4 {
                    assert(t[4] == n[3]);
                    assert(is_name_char(n[3]));
                } else {
                    assert(n.len() == 3);
                    assert(t[4] == c);
                }
            }
        } else {
            assert(t[1] == p[0] && t[2] == p[1] && t[3] == p[2] && t[4] == p[3]);
        }
    }
    let st = name_start(t);
    assert(st == 1 + p.len());
    assert(t.skip(st) =~= nc);
    assert(t.subrange(st, st + n.len()) =~= n);
    let rest = t.skip(st + n.len());
    assert(rest =~= seq![c]);
    assert(rest.drop_first() =~= Seq::<char>::empty());
    assert(var_names(Seq::<char>::empty()) == Seq::<Seq<char>>::empty());
    assert(expand(Seq::<char>::empty(), rest_values(seq![Some(v)])) == Seq::<char>::empty());
    assert(rest[0] == c);
    assert(!has_env_prefix(rest));
    assert(var_names(rest) =~= Seq::<Seq<char>>::empty()) by {
        if c == '$' {
            assert(rest.skip(1) =~= Seq::<char>::empty());
            assert(name_start(rest) == 1);
            assert(name_len(rest.skip(1)) == 0);
        }
    }
    let rv = rest_values(seq![Some(v)]);
    assert(rv =~= Seq::<Option<Seq<char>>>::empty());
    assert(expand(rest, rv) =~= seq![c]) by {
        assert(seq![c] + Seq::<char>::empty() =~= seq![c]);
        if c == '$' {
            assert(rest.skip(1) =~= Seq::<char>::empty());
            assert(name_start(rest) == 1);
            assert(name_len(rest.skip(1)) == 0);
        }
    }
    assert(seq![n] + Seq::<Seq<char>>::empty() =~= seq![n]);
}

fn is_name_char_exec(c: char) -> (r: bool)
    ensures
        r == is_name_char(c),
{
    ('0' <= c && c <= '9') || ('a' <= c && c <= 'z') || ('A' <= c && c <= 'Z') || c == '_'
}

proof fn lemma_name_len_step(s: Seq<char>, j: int)
    requires
        0 <= j <= s.len(),
    ensures
        j < s.len() && is_name_char(s[j]) ==> name_len(s.skip(j)) == 1 + name_len(s.skip(j + 1)),
        !(j < s.len() && is_name_char(s[j])) ==> name_len(s.skip(j)) == 0,
{
    if j < s.len() {
        assert(s.skip(j).drop_first() =~= s.skip(j + 1));
    }
}

/// Reads the reference that starts with the `$` at `chars[i]`: where its
/// name starts and ends.
fn scan_reference(chars: &Vec<char>, i: usize) -> (r: (usize, usize))
    requires
        i < chars.len(),
        chars@[i as int] == '$',
    ensures
        r.0 == i + name_start(chars@.skip(i as int)),
        r.0 <= r.1 <= chars.len(),
        r.1 - r.0 == name_len(chars@.skip(r.0 as int)),
{
    let ghost t = chars@.skip(i as int);
    let mut j = i + 1;
    let mut env_prefix = false;
    if chars.len() - j > 3 && (chars[j] == 'e' || chars[j] == 'E') && (chars[j + 1] == 'n'
        || chars[j + 1] == 'N') && (chars[j + 2] == 'v' || chars[j + 2] == 'V') && chars[j + 3]
        == ':' {
        env_prefix = true;
        j += 4;
    }
    assert(env_prefix == has_env_prefix(t));
    let start = j;
    while j < chars.len() && is_name_char_exec(chars[j])
        invariant
            start <= j <= chars.len(),
            name_len(chars@.skip(start as int)) == (j - start) + name_len(chars@.skip(j as int)),
        decreases chars.len() - j,
    {
        proof {
            lemma_name_len_step(chars@, j as int);
        }
        j += 1;
    }
    proof {
        lemma_name_len_step(chars@, j as int);
    }
    (start, j)
}

/// The names of the variables that `input` refers to, in order; each is
/// one value to look up for [`expand_pwsh_env_vars`].
pub fn pwsh_env_var_names(input: &str) -> (r: Vec<String>)
    ensures
        string_views(r@) == var_names(input@),
{
    let chars = chars_of(input);
    let mut names: Vec<String> = Vec::new();
    let mut i: usize = 0;
    assert(chars@.skip(0) =~= chars@);
    assert(string_views(names@) + var_names(chars@) =~= var_names(chars@));
    while i < chars.len()
        invariant
            i <= chars.len(),
            chars@ == input@,
            string_views(names@) + var_names(chars@.skip(i as int)) == var_names(input@),
        decreases chars.len() - i,
    {
        let ghost t = chars@.skip(i as int);
        let ghost before = names@;
        if chars[i] != '$' {
            assert(t.drop_first() =~= chars@.skip(i + 1));
            i += 1;
        } else {
            let (start, end) = scan_reference(&chars, i);
            assert(t.skip(name_start(t)) =~= chars@.skip(start as int));
            if start == end {
                assert(t.drop_first() =~= chars@.skip(i + 1));
                i += 1;
            } else {
                let name = string_of_chars(&chars, start, end);
                names.push(name);
                proof {
                    let st = name_start(t);
                    let n = name_len(t.skip(st));
                    assert(t.subrange(st, st + n) =~= chars@.subrange(start as int, end as int));
                    assert(t.skip(st + n) =~= chars@.skip(end as int));
                    assert(string_views(names@) =~= string_views(before).push(
                        chars@.subrange(start as int, end as int),
                    ));
                    assert(string_views(names@) + var_names(chars@.skip(end as int)) =~= string_views(
                        before,
                    ) + var_names(t));
                }
                i = end;
            }
        }
    }
    assert(chars@.skip(i as int) =~= Seq::<char>::empty());
    assert(string_views(names@) + Seq::<Seq<char>>::empty() =~= string_views(names@));
    names
}

/// Replaces each variable reference in `input` by the value looked up for
/// it: `values[k]` is the value of the `k`-th reference (see
/// [`pwsh_env_var_names`]); `None`, or no `k`-th value, means the variable
/// is not set, and the reference is left as it is written.
pub fn expand_pwsh_env_vars(input: &str, values: &Vec<Option<String>>) -> (r: String)
    ensures
        r@ == expand(input@, option_views(values@)),
{
    let chars = chars_of(input);
    let ghost vals = option_views(values@);
    let mut out = String::new();
    let mut i: usize = 0;
    let mut k: usize = 0;
    assert(chars@.skip(0) =~= chars@);
    assert(vals.skip(0) =~= vals);
    assert(out@ + expand(chars@, vals) =~= expand(chars@, vals));
    while i < chars.len()
        invariant
            i <= chars.len(),
            k <= values.len(),
            chars@ == input@,
            vals == option_views(values@),
            out@ + expand(chars@.skip(i as int), vals.skip(k as int)) == expand(input@, vals),
        decreases chars.len() - i,
    {
        let ghost t = chars@.skip(i as int);
        let ghost vk = vals.skip(k as int);
        let ghost before = out@;
        if chars[i] != '$' {
            push_char(&mut out, chars[i]);
            assert(t.drop_first() =~= chars@.skip(i + 1));
            assert(out@ + expand(chars@.skip(i + 1), vk) =~= before + expand(t, vk));
            i += 1;
        } else {
            let (start, end) = scan_reference(&chars, i);
            assert(t.skip(name_start(t)) =~= chars@.skip(start as int));
            if start == end {
                push_char(&mut out, '$');
                assert(t.drop_first() =~= chars@.skip(i + 1));
                assert(out@ + expand(chars@.skip(i + 1), vk) =~= before + expand(t, vk));
                i += 1;
            } else {
                if k < values.len() {
                    match &values[k] {
                        Some(v) => {
                            out.append(v.as_str());
                        },
                        None => {
                            let written = string_of_chars(&chars, i, end);
                            out.append(written.as_str());
                        },
                    }
                    assert(vk.drop_first() =~= vals.skip(k + 1));
                    k += 1;
                } else {
                    let written = string_of_chars(&chars, i, end);
                    out.append(written.as_str());
                }
                proof {
                    let st = name_start(t);
                    let n = name_len(t.skip(st));
                    assert(t.subrange(0, st + n) =~= chars@.subrange(i as int, end as int));
                    assert(t.skip(st + n) =~= chars@.skip(end as int));
                    assert(out@ + expand(chars@.skip(end as int), vals.skip(k as int)) =~= before
                        + expand(t, vk));
                }
                i = end;
            }
        }
    }
    assert(chars@.skip(i as int) =~= Seq::<char>::empty());
    assert(out@ + Seq::<char>::empty() =~= out@);
    out
}

/// The looked-up values of several commands, by view.
pub open spec fn values_views(v: Seq<Vec<Option<String>>>) -> Seq<Seq<Option<Seq<char>>>> {
    v.map_values(|x: Vec<Option<String>>| option_views(x@))
}

/// The entries with each command expanded: the `i`-th command takes the
/// `i`-th list of values (none if there is no such list).
pub open spec fn expanded_entries(es: Seq<Entry>, values: Seq<Seq<Option<Seq<char>>>>) -> Seq<
    Entry,
> {
    Seq::new(
        es.len(),
        |i: int|
            (
                es[i].0,
                expand(
                    es[i].1,
                    if i < values.len() {
                        values[i]
                    } else {
                        Seq::<Option<Seq<char>>>::empty()
                    },
                ),
            ),
    )
}

/// Expanding the commands of entries keeps their number, names and order,
/// and expands each command in full with its own list of values, wherever
/// its references stand; a command without a list of values is expanded
/// with none, as if every variable were unset.
pub proof fn lemma_expand_commands_each(es: Seq<Entry>, values: Seq<Seq<Option<Seq<char>>>>)
    ensures
        expanded_entries(es, values).len() == es.len(),
        forall|i: int|
            0 <= i < es.len() ==> (#[trigger] expanded_entries(es, values)[i]).0 == es[i].0,
        forall|i: int|
            0 <= i < es.len() && i < values.len() ==> (#[trigger] expanded_entries(es, values)[i]).1
                == expand(es[i].1, values[i]),
        forall|i: int|
            0 <= i < es.len() && values.len() <= i ==> (#[trigger] expanded_entries(
                es,
                values,
            )[i]).1 == es[i].1,
{
    assert forall|i: int| 0 <= i < es.len() && values.len() <= i implies (
    #[trigger] expanded_entries(es, values)[i]).1 == es[i].1 by {
        lemma_expand_unset_unchanged(es[i].1, Seq::<Option<Seq<char>>>::empty());
    }
}

/// The shortcuts, in the same order, with the variable references of the
/// `i`-th command replaced by the values `values[i]` looked up for it.
pub fn expand_commands(entries: &IndexMap<String, String>, values: &Vec<Vec<Option<String>>>) -> (r:
    IndexMap<String, String>)
    ensures
        map_entries(r) == expanded_entries(map_entries(*entries), values_views(values@)),
{
    let pairs = map_pairs(entries);
    let ghost es = pairs_view(pairs@);
    let ghost vv = values_views(values@);
    let ghost target = expanded_entries(es, vv);
    let empty: Vec<Option<String>> = Vec::new();
    let mut r = map_new();
    for i in 0..pairs.len()
        invariant
            es == pairs_view(pairs@),
            keys_distinct(es),
            vv == values_views(values@),
            target == expanded_entries(es, vv),
            empty@.len() == 0,
            map_entries(r) == target.take(i as int),
    {
        let (name, command) = &pairs[i];
        let vals = if i < values.len() {
            &values[i]
        } else {
            &empty
        };
        let expanded = expand_pwsh_env_vars(command.as_str(), vals);
        proof {
            assert(option_views(empty@) =~= Seq::<Option<Seq<char>>>::empty());
            let prefix = target.take(i as int);
            assert(!has_key(prefix, name@)) by {
                if has_key(prefix, name@) {
                    let j = choose|j: int| 0 <= j < prefix.len() && prefix[j].0 == name@;
                    assert(es[j].0 == es[i as int].0);
                }
            }
        }
        map_insert(&mut r, name.clone(), expanded);
        proof {
            assert(target.take(i + 1) =~= target.take(i as int).push(target[i as int]));
        }
    }
    proof {
        assert(target.take(pairs.len() as int) =~= target);
    }
    r
}

} // verus!
