//! PowerShell: each shortcut becomes a function that passes its arguments
//! on; unless conflicts are kept, an alias of the same name is removed
//! first.

use crate::entries::{map_entries, map_pairs, pairs_view, Entry};
use indexmap::IndexMap;
use vstd::prelude::*;

verus! {

/// The line that removes an alias named `name`.
pub open spec fn removal_line(name: Seq<char>) -> Seq<char> {
    "Remove-Item Alias:"@ + name + " -ErrorAction Ignore\n"@
}

/// The line that defines the function of an entry.
pub open spec fn function_line(e: Entry) -> Seq<char> {
    "function "@ + e.0 + " { "@ + e.1 + " @args }\n"@
}

/// The lines of one entry.
pub open spec fn function_lines(e: Entry, conflict_mode: bool) -> Seq<char> {
    (if conflict_mode {
        Seq::<char>::empty()
    } else {
        removal_line(e.0)
    }) + function_line(e)
}

/// The lines of the entries, in order.
pub open spec fn function_script_spec(es: Seq<Entry>, conflict_mode: bool) -> Seq<char>
    decreases es.len(),
{
    if es.len() == 0 {
        Seq::<char>::empty()
    } else {
        function_script_spec(es.drop_last(), conflict_mode) + function_lines(
            es.last(),
            conflict_mode,
        )
    }
}

/// The output, line by line.
pub open spec fn script_lines(es: Seq<Entry>, conflict_mode: bool) -> Seq<Seq<char>>
    decreases es.len(),
{
    if es.len() == 0 {
        Seq::<Seq<char>>::empty()
    } else {
        script_lines(es.drop_last(), conflict_mode) + if conflict_mode {
            seq![function_line(es.last())]
        } else {
            seq![removal_line(es.last().0), function_line(es.last())]
        }
    }
}

/// The lines joined, in order.
pub open spec fn join_lines(ls: Seq<Seq<char>>) -> Seq<char>
    decreases ls.len(),
{
    if ls.len() == 0 {
        Seq::<char>::empty()
    } else {
        join_lines(ls.drop_last()) + ls.last()
    }
}

/// Whether `s` begins with `p`.
pub open spec fn starts_with(s: Seq<char>, p: Seq<char>) -> bool {
    p.len() <= s.len() && s.subrange(0, p.len() as int) == p
}

/// The lines that do not remove an alias, in order.
pub open spec fn without_removals(ls: Seq<Seq<char>>) -> Seq<Seq<char>>
    decreases ls.len(),
{
    if ls.len() == 0 {
        ls
    } else if starts_with(ls.last(), "Remove-Item Alias:"@) {
        without_removals(ls.drop_last())
    } else {
        without_removals(ls.drop_last()).push(ls.last())
    }
}

/// The two PowerShell modes: the output is its lines joined; without
/// conflicts, the function line of each entry directly follows the removal
/// of the alias of the same name; keeping conflicts gives exactly the
/// lines that do not remove an alias.
pub proof fn lemma_pwsh_modes(es: Seq<Entry>)
    ensures
        function_script_spec(es, false) == join_lines(script_lines(es, false)),
        function_script_spec(es, true) == join_lines(script_lines(es, true)),
        script_lines(es, false).len() == 2 * es.len(),
        forall|i: int|
            0 <= i < es.len() ==> script_lines(es, false)[2 * i] == removal_line(#[trigger] es[i].0)
                && script_lines(es, false)[2 * i + 1] == function_line(es[i]),
        script_lines(es, true) == without_removals(script_lines(es, false)),
    decreases es.len(),
{
    if es.len() > 0 {
        let d = es.drop_last();
        let e = es.last();
        lemma_pwsh_modes(d);
        let a = script_lines(d, false);
        let b = script_lines(d, true);
        let r = removal_line(e.0);
        let f = function_line(e);
        reveal_strlit("Remove-Item Alias:");
        reveal_strlit("function ");
        let p = "Remove-Item Alias:"@;
        assert(starts_with(r, p)) by {
            assert(r.subrange(0, p.len() as int) =~= p);
        }
        assert(!starts_with(f, p)) by {
            assert(f[0] == 'f');
            assert(p[0] == 'R');
            if starts_with(f, p) {
                assert(f.subrange(0, p.len() as int)[0] == f[0]);
            }
        }
        let la = a + seq![r, f];
        assert(la.drop_last() =~= a.push(r));
        assert(la.drop_last().drop_last() =~= a);
        assert(a.push(r).drop_last() =~= a);
        assert(la.last() == f);
        assert(a.push(r).last() == r);
        assert(join_lines(la) == join_lines(a.push(r)) + f);
        assert(join_lines(a.push(r)) == join_lines(a) + r);
        assert(join_lines(la) == join_lines(a) + r + f);
        assert(function_lines(e, false) =~= r + f);
        assert(join_lines(a) + (r + f) =~= join_lines(a) + r + f);
        let lb = b + seq![f];
        assert(lb.drop_last() =~= b);
        assert(function_lines(e, true) =~= f);
        assert(without_removals(la) == without_removals(a.push(r)).push(f));
        assert(without_removals(a.push(r)) == without_removals(a));
        assert(without_removals(la) == without_removals(a).push(f));
        assert(lb =~= b.push(f));
        assert forall|i: int| 0 <= i < es.len() implies script_lines(es, false)[2 * i]
            == removal_line(#[trigger] es[i].0) && script_lines(es, false)[2 * i + 1]
            == function_line(es[i]) by {
            if i < d.len() {
                assert(d[i] == es[i]);
                assert(la[2 * i] == a[2 * i]);
                assert(la[2 * i + 1] == a[2 * i + 1]);
            }
        }
    }
}

/// Keeping conflicts, there is one function line per entry.
pub proof fn lemma_conflict_lines(es: Seq<Entry>)
    ensures
        script_lines(es, true).len() == es.len(),
        forall|i: int| 0 <= i < es.len() ==> script_lines(es, true)[i] == function_line(#[trigger] es[i]),
    decreases es.len(),
{
    if es.len() > 0 {
        let d = es.drop_last();
        lemma_conflict_lines(d);
        assert forall|i: int| 0 <= i < es.len() implies script_lines(es, true)[i] == function_line(
            #[trigger] es[i],
        ) by {
            if i < d.len() {
                assert(d[i] == es[i]);
            }
        }
    }
}

/// The length of the first line of `t`, its `\n` included.
pub open spec fn line_len(t: Seq<char>) -> nat
    decreases t.len(),
{
    if t.len() == 0 {
        0
    } else if t[0] == '\n' {
        1
    } else {
        1 + line_len(t.drop_first())
    }
}

pub proof fn lemma_line_len_bounds(t: Seq<char>)
    ensures
        line_len(t) <= t.len(),
        t.len() > 0 ==> 1 <= line_len(t),
    decreases t.len(),
{
    if t.len() > 0 && t[0] != '\n' {
        lemma_line_len_bounds(t.drop_first());
    }
}

/// The text `t` split into lines, each with its `\n` (a last line
/// without one as it is).
pub open spec fn split_lines(t: Seq<char>) -> Seq<Seq<char>>
    decreases t.len(),
{
    if t.len() == 0 {
        Seq::<Seq<char>>::empty()
    } else {
        proof {
            lemma_line_len_bounds(t);
        }
        seq![t.take(line_len(t) as int)] + split_lines(t.skip(line_len(t) as int))
    }
}

/// Whether `s` holds no line break.
pub open spec fn no_newline(s: Seq<char>) -> bool {
    !s.contains('\n')
}

/// Whether `l` is one line: a line break at its end and nowhere else.
pub open spec fn is_line(l: Seq<char>) -> bool {
    l.len() > 0 && l.last() == '\n' && no_newline(l.drop_last())
}

proof fn lemma_no_newline_concat(a: Seq<char>, b: Seq<char>)
    requires
        no_newline(a),
        no_newline(b),
    ensures
        no_newline(a + b),
{
    if (a + b).contains('\n') {
        let i = choose|i: int| 0 <= i < (a + b).len() && (a + b)[i] == '\n';
        if i < a.len() {
            assert(a[i] == '\n');
        } else {
            assert(b[i - a.len()] == '\n');
        }
    }
}

proof fn lemma_line_after_text(a: Seq<char>, l: Seq<char>)
    requires
        no_newline(a),
        is_line(l),
    ensures
        is_line(a + l),
{
    assert((a + l).drop_last() =~= a + l.drop_last());
    lemma_no_newline_concat(a, l.drop_last());
}

proof fn lemma_line_len_of_line(l: Seq<char>, rest: Seq<char>)
    requires
        is_line(l),
    ensures
        line_len(l + rest) == l.len(),
    decreases l.len(),
{
    if l.len() == 1 {
        assert((l + rest)[0] == '\n');
    } else {
        assert(l.drop_last().contains(l[0]) == true) by {
            assert(l.drop_last()[0] == l[0]);
        }
        assert((l + rest)[0] == l[0]);
        let t = l.drop_first();
        assert(t.drop_last() =~= l.drop_last().drop_first());
        assert(no_newline(t.drop_last())) by {
            if t.drop_last().contains('\n') {
                let i = choose|i: int| 0 <= i < t.drop_last().len() && t.drop_last()[i] == '\n';
                assert(l.drop_last()[i + 1] == '\n');
            }
        }
        assert(t.last() == l.last());
        lemma_line_len_of_line(t, rest);
        assert((l + rest).drop_first() =~= t + rest);
    }
}

proof fn lemma_join_front(x: Seq<char>, r: Seq<Seq<char>>)
    ensures
        join_lines(seq![x] + r) == x + join_lines(r),
    decreases r.len(),
{
    if r.len() == 0 {
        assert(seq![x] + r =~= seq![x]);
        assert(seq![x].drop_last() =~= Seq::<Seq<char>>::empty());
        assert(join_lines(Seq::<Seq<char>>::empty()) == Seq::<char>::empty());
        assert(join_lines(seq![x]) == join_lines(seq![x].drop_last()) + x);
        assert(Seq::<char>::empty() + x =~= x);
        assert(x + Seq::<char>::empty() =~= x);
    } else {
        lemma_join_front(x, r.drop_last());
        assert((seq![x] + r).drop_last() =~= seq![x] + r.drop_last());
        assert((seq![x] + r).last() == r.last());
        assert(x + join_lines(r.drop_last()) + r.last() =~= x + (join_lines(r.drop_last())
            + r.last()));
    }
}

/// Joined lines split back into the same lines.
pub proof fn lemma_split_join(ls: Seq<Seq<char>>)
    requires
        forall|i: int| 0 <= i < ls.len() ==> is_line(#[trigger] ls[i]),
    ensures
        split_lines(join_lines(ls)) == ls,
    decreases ls.len(),
{
    if ls.len() > 0 {
        let x = ls[0];
        let r = ls.drop_first();
        assert(ls =~= seq![x] + r);
        lemma_join_front(x, r);
        assert(forall|i: int| 0 <= i < r.len() ==> is_line(#[trigger] r[i])) by {
            assert forall|i: int| 0 <= i < r.len() implies is_line(#[trigger] r[i]) by {
                assert(r[i] == ls[i + 1]);
            }
        }
        lemma_split_join(r);
        assert(is_line(x));
        let t = x + join_lines(r);
        lemma_line_len_of_line(x, join_lines(r));
        assert(t.take(x.len() as int) =~= x);
        assert(t.skip(x.len() as int) =~= join_lines(r));
    }
}

proof fn lemma_output_lines_are_lines(es: Seq<Entry>)
    requires
        forall|i: int| 0 <= i < es.len() ==> no_newline(#[trigger] es[i].0) && no_newline(es[i].1),
    ensures
        forall|i: int| 0 <= i < es.len() ==> is_line(removal_line(#[trigger] es[i].0)) && is_line(
            function_line(es[i]),
        ),
{
    reveal_strlit("Remove-Item Alias:");
    reveal_strlit(" -ErrorAction Ignore\n");
    reveal_strlit("function ");
    reveal_strlit(" { ");
    reveal_strlit(" @args }\n");
    let a = "Remove-Item Alias:"@;
    let b = " -ErrorAction Ignore\n"@;
    let c = "function "@;
    let d = " { "@;
    let f = " @args }\n"@;
    assert(a =~= seq![
        'R', 'e', 'm', 'o', 'v', 'e', '-', 'I', 't', 'e', 'm', ' ', 'A', 'l', 'i', 'a', 's', ':',
    ]);
    assert(b =~= seq![
        ' ', '-', 'E', 'r', 'r', 'o', 'r', 'A', 'c', 't', 'i', 'o', 'n', ' ', 'I', 'g', 'n', 'o',
        'r', 'e', '\n',
    ]);
    assert(c =~= seq!['f', 'u', 'n', 'c', 't', 'i', 'o', 'n', ' ']);
    assert(d =~= seq![' ', '{', ' ']);
    assert(f =~= seq![' ', '@', 'a', 'r', 'g', 's', ' ', '}', '\n']);
    assert(no_newline(a));
    assert(no_newline(c));
    assert(no_newline(d));
    assert(is_line(b)) by {
        assert(no_newline(b.drop_last()));
    }
    assert(is_line(f)) by {
        assert(no_newline(f.drop_last()));
    }
    assert forall|i: int| 0 <= i < es.len() implies is_line(removal_line(#[trigger] es[i].0))
        && is_line(function_line(es[i])) by {
        let n = es[i].0;
        let m = es[i].1;
        lemma_no_newline_concat(a, n);
        lemma_line_after_text(a + n, b);
        lemma_no_newline_concat(c, n);
        lemma_no_newline_concat(c + n, d);
        lemma_no_newline_concat(c + n + d, m);
        lemma_line_after_text(c + n + d + m, f);
    }
}

/// The PowerShell modes on the output text: where no name or command holds
/// a line break, the output split at its line breaks gives its lines
/// (each with its `\n`), in which each entry's alias removal is directly
/// followed by its function line; and the output that keeps conflicts is
/// exactly the lines of the other that do not start with
/// `Remove-Item Alias:`, in order.
pub proof fn lemma_pwsh_modes_on_text(es: Seq<Entry>)
    requires
        forall|i: int| 0 <= i < es.len() ==> no_newline(#[trigger] es[i].0) && no_newline(es[i].1),
    ensures
        split_lines(function_script_spec(es, false)) == script_lines(es, false),
        split_lines(function_script_spec(es, false)).len() == 2 * es.len(),
        forall|i: int|
            0 <= i < es.len() ==> split_lines(function_script_spec(es, false))[2 * i]
                == removal_line(#[trigger] es[i].0) && split_lines(function_script_spec(es, false))[2
                * i + 1] == function_line(es[i]),
        split_lines(function_script_spec(es, true)) == without_removals(
            split_lines(function_script_spec(es, false)),
        ),
{
    lemma_pwsh_modes(es);
    lemma_output_lines_are_lines(es);
    lemma_script_lines_are_lines(es, false);
    lemma_script_lines_are_lines(es, true);
    lemma_split_join(script_lines(es, false));
    lemma_split_join(script_lines(es, true));
}

proof fn lemma_script_lines_are_lines(es: Seq<Entry>, conflict_mode: bool)
    requires
        forall|i: int| 0 <= i < es.len() ==> is_line(removal_line(#[trigger] es[i].0)) && is_line(
            function_line(es[i]),
        ),
    ensures
        forall|j: int|
            0 <= j < script_lines(es, conflict_mode).len() ==> is_line(
                #[trigger] script_lines(es, conflict_mode)[j],
            ),
    decreases es.len(),
{
    if es.len() > 0 {
        let d = es.drop_last();
        assert forall|i: int| 0 <= i < d.len() implies is_line(removal_line(#[trigger] d[i].0))
            && is_line(function_line(d[i])) by {
            assert(d[i] == es[i]);
        }
        lemma_script_lines_are_lines(d, conflict_mode);
        let e = es.last();
        assert(e == es[es.len() - 1]);
        let prev = script_lines(d, conflict_mode);
        assert forall|j: int| 0 <= j < script_lines(es, conflict_mode).len() implies is_line(
            #[trigger] script_lines(es, conflict_mode)[j],
        ) by {
            if j < prev.len() {
                assert(script_lines(es, conflict_mode)[j] == prev[j]);
            }
        }
    }
}

/// The function definitions of the shortcuts, in the map's order; when
/// `conflict_mode` is false, each is preceded by the removal of an alias
/// of the same name.
pub fn render(entries: &IndexMap<String, String>, conflict_mode: bool) -> (r: String)
    ensures
        r@ == function_script_spec(map_entries(*entries), conflict_mode),
{
    let pairs = map_pairs(entries);
    let ghost es = pairs_view(pairs@);
    let mut out = String::new();
    for i in 0..pairs.len()
        invariant
            es == pairs_view(pairs@),
            out@ == function_script_spec(es.take(i as int), conflict_mode),
    {
        let ghost before = out@;
        let (name, command) = &pairs[i];
        if !conflict_mode {
            out.append("Remove-Item Alias:");
            out.append(name.as_str());
            out.append(" -ErrorAction Ignore\n");
        }
        out.append("function ");
        out.append(name.as_str());
        out.append(" { ");
        out.append(command.as_str());
        out.append(" @args }\n");
        proof {
            assert(es.take(i + 1).drop_last() =~= es.take(i as int));
            assert(es.take(i + 1).last() == es[i as int]);
            assert(out@ =~= before + function_lines(es[i as int], conflict_mode));
        }
    }
    proof {
        assert(es.take(pairs.len() as int) =~= es);
    }
    out
}

} // verus!
