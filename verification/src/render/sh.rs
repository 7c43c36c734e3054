//! POSIX shells (`bash`, `zsh`): each shortcut becomes an alias whose
//! command stands in single quotes.

use crate::entries::{map_entries, map_pairs, pairs_view, Entry};
use crate::text::chars_of;
use indexmap::IndexMap;
use vstd::prelude::*;

verus! {

/// `s` with each single quote replaced by `'\''` (close the quoted text,
/// an escaped quote, reopen it).
pub open spec fn escape_spec(s: Seq<char>) -> Seq<char>
    decreases s.len(),
{
    if s.len() == 0 {
        s
    } else {
        escape_spec(s.drop_last()) + if s.last() == '\'' {
            "'\\''"@
        } else {
            seq![s.last()]
        }
    }
}

/// The alias line of one entry.
pub open spec fn alias_line(e: Entry) -> Seq<char> {
    "alias "@ + e.0 + "='"@ + escape_spec(e.1) + "'\n"@
}

/// The alias lines of the entries, in order.
pub open spec fn alias_script_spec(es: Seq<Entry>) -> Seq<char>
    decreases es.len(),
{
    if es.len() == 0 {
        Seq::<char>::empty()
    } else {
        alias_script_spec(es.drop_last()) + alias_line(es.last())
    }
}

/// How a POSIX shell reads a word from just after an opening single quote:
/// the quoted characters up to the closing quote, then the rest of the word
/// unquoted; `None` when no quote closes.
pub open spec fn read_quoted(w: Seq<char>) -> Option<Seq<char>>
    decreases w.len(),
{
    if w.len() == 0 {
        None
    } else if w[0] == '\'' {
        read_unquoted(w.drop_first())
    } else {
        match read_quoted(w.drop_first()) {
            Some(v) => Some(seq![w[0]] + v),
            None => None,
        }
    }
}

/// How a POSIX shell reads an unquoted word: `'` opens quoted text, `\`
/// takes the next character as it is, any other character stands for
/// itself.
pub open spec fn read_unquoted(w: Seq<char>) -> Option<Seq<char>>
    decreases w.len(),
{
    if w.len() == 0 {
        Some(Seq::<char>::empty())
    } else if w[0] == '\'' {
        read_quoted(w.drop_first())
    } else if w[0] == '\\' && w.len() >= 2 {
        match read_unquoted(w.skip(2)) {
            Some(v) => Some(seq![w[1]] + v),
            None => None,
        }
    } else {
        match read_unquoted(w.drop_first()) {
            Some(v) => Some(seq![w[0]] + v),
            None => None,
        }
    }
}

proof fn lemma_escape_concat(a: Seq<char>, b: Seq<char>)
    ensures
        escape_spec(a + b) == escape_spec(a) + escape_spec(b),
    decreases b.len(),
{
    if b.len() == 0 {
        assert(a + b =~= a);
        assert(escape_spec(a) + escape_spec(b) =~= escape_spec(a));
    } else {
        lemma_escape_concat(a, b.drop_last());
        assert((a + b).drop_last() =~= a + b.drop_last());
        assert((a + b).last() == b.last());
        let tail = if b.last() == '\'' {
            "'\\''"@
        } else {
            seq![b.last()]
        };
        assert(escape_spec(a) + escape_spec(b.drop_last()) + tail =~= escape_spec(a) + (
        escape_spec(b.drop_last()) + tail));
    }
}

/// Escaping round-trips through the shell: the single-quoted escaped text
/// reads back as exactly the input.
pub proof fn lemma_escape_reads_back(s: Seq<char>)
    ensures
        read_unquoted(seq!['\''] + escape_spec(s) + seq!['\'']) == Some(s),
    decreases s.len(),
{
    let w = seq!['\''] + escape_spec(s) + seq!['\''];
    assert(w.drop_first() =~= escape_spec(s) + seq!['\'']);
    lemma_quoted_escape_reads_back(s);
}

proof fn lemma_quoted_escape_reads_back(s: Seq<char>)
    ensures
        read_quoted(escape_spec(s) + seq!['\'']) == Some(s),
    decreases s.len(),
{
    let close = seq!['\''];
    if s.len() == 0 {
        assert(escape_spec(s) + close =~= close);
        assert(close.drop_first() =~= Seq::<char>::empty());
        assert(read_quoted(close) == read_unquoted(Seq::<char>::empty()));
        assert(s =~= Seq::<char>::empty());
    } else {
        let c = s[0];
        let rest = s.drop_first();
        lemma_quoted_escape_reads_back(rest);
        assert(s =~= seq![c] + rest);
        lemma_escape_concat(seq![c], rest);
        let x = escape_spec(rest) + close;
        assert(seq![c].drop_last() =~= Seq::<char>::empty());
        assert(escape_spec(Seq::<char>::empty()) == Seq::<char>::empty());
        if c == '\'' {
            reveal_strlit("'\\''");
            let q = "'\\''"@;
            assert(q =~= seq!['\'', '\\', '\'', '\'']);
            assert(escape_spec(seq![c]) =~= q);
            let w = q + x;
            assert(escape_spec(s) + close =~= w);
            let w1 = w.drop_first();
            assert(w1 =~= seq!['\\', '\'', '\''] + x);
            assert(w1.skip(2) =~= seq!['\''] + x);
            assert(w1.skip(2).drop_first() =~= x);
            assert(read_unquoted(w1.skip(2)) == read_quoted(x));
            assert(read_unquoted(w1) == Some(seq!['\''] + rest));
            assert(read_quoted(w) == read_unquoted(w1));
            assert(seq![c] + rest =~= s);
        } else {
            assert(escape_spec(seq![c]) =~= seq![c]);
            let w = seq![c] + x;
            assert(escape_spec(s) + close =~= w);
            assert(w.drop_first() =~= x);
            assert(read_quoted(w) == Some(seq![c] + rest));
        }
    }
}

/// `s` with each `'\\''` replaced by `'`, matches taken from the left
/// without overlap (as `str::replace` takes them).
pub open spec fn unescape_quotes(s: Seq<char>) -> Seq<char>
    decreases s.len(),
{
    if s.len() == 0 {
        s
    } else if s.len() >= 4 && s.take(4) == "'\\''"@ {
        seq!['\''] + unescape_quotes(s.skip(4))
    } else {
        seq![s[0]] + unescape_quotes(s.drop_first())
    }
}

/// Replacing each `'\\''` of the escaped text by `'` gives back the input.
pub proof fn lemma_unescape_undoes_escape(s: Seq<char>)
    ensures
        unescape_quotes(escape_spec(s)) == s,
    decreases s.len(),
{
    reveal_strlit("'\\''");
    let q = "'\\''"@;
    assert(q =~= seq!['\'', '\\', '\'', '\'']);
    if s.len() == 0 {
    } else {
        let c = s[0];
        let rest = s.drop_first();
        lemma_unescape_undoes_escape(rest);
        assert(s =~= seq![c] + rest);
        lemma_escape_concat(seq![c], rest);
        assert(seq![c].drop_last() =~= Seq::<char>::empty());
        assert(escape_spec(Seq::<char>::empty()) == Seq::<char>::empty());
        let e = escape_spec(rest);
        if c == '\'' {
            assert(escape_spec(seq![c]) =~= q);
            let w = q + e;
            assert(escape_spec(s) =~= w);
            assert(w.take(4) =~= q);
            assert(w.skip(4) =~= e);
            assert(seq!['\''] + rest =~= s);
        } else {
            assert(escape_spec(seq![c]) =~= seq![c]);
            let w = seq![c] + e;
            assert(escape_spec(s) =~= w);
            if w.len() >= 4 {
                assert(w.take(4)[0] != q[0]);
            }
            assert(w.drop_first() =~= e);
        }
    }
}

/// The single-quoted shell word for `s`.
pub open spec fn quoted_word(s: Seq<char>) -> Seq<char> {
    seq!['\''] + escape_spec(s) + seq!['\'']
}

/// The alias lines of the entries, one per entry.
pub open spec fn alias_lines(es: Seq<Entry>) -> Seq<Seq<char>> {
    Seq::new(es.len(), |i: int| "alias "@ + es[i].0 + "="@ + quoted_word(es[i].1) + "\n"@)
}

/// The alias output is its alias lines joined.
pub proof fn lemma_alias_script_lines(es: Seq<Entry>)
    ensures
        alias_script_spec(es) == crate::render::pwsh::join_lines(alias_lines(es)),
    decreases es.len(),
{
    if es.len() > 0 {
        let d = es.drop_last();
        lemma_alias_script_lines(d);
        assert(alias_lines(es).drop_last() =~= alias_lines(d));
        reveal_strlit("='");
        reveal_strlit("=");
        reveal_strlit("'\n");
        reveal_strlit("\n");
        assert("='"@ =~= "="@ + seq!['\'']);
        assert("'\n"@ =~= seq!['\''] + "\n"@);
        let e = es.last();
        assert(alias_line(e) =~= "alias "@ + e.0 + "="@ + quoted_word(e.1) + "\n"@);
        assert(alias_lines(es).last() == alias_line(e));
    }
}

/// Escapes the single quotes of `input` for a single-quoted shell word.
pub fn escape_single_quotes(input: &str) -> (r: String)
    ensures
        r@ == escape_spec(input@),
{
    let chars = chars_of(input);
    let mut out = String::new();
    for i in 0..chars.len()
        invariant
            chars@ == input@,
            out@ == escape_spec(chars@.take(i as int)),
    {
        let c = chars[i];
        if c == '\'' {
            out.append("'\\''");
        } else {
            crate::text::push_char(&mut out, c);
        }
        proof {
            assert(chars@.take(i + 1).drop_last() =~= chars@.take(i as int));
            assert(out@ =~= escape_spec(chars@.take(i + 1)));
        }
    }
    proof {
        assert(chars@.take(chars.len() as int) =~= chars@);
    }
    out
}

/// The alias lines of a list of (name, command) pairs.
pub(crate) fn alias_script(pairs: &Vec<(String, String)>) -> (r: String)
    ensures
        r@ == alias_script_spec(pairs_view(pairs@)),
{
    let ghost es = pairs_view(pairs@);
    let mut out = String::new();
    for i in 0..pairs.len()
        invariant
            es == pairs_view(pairs@),
            out@ == alias_script_spec(es.take(i as int)),
    {
        let (name, command) = &pairs[i];
        out.append("alias ");
        out.append(name.as_str());
        out.append("='");
        let escaped = escape_single_quotes(command.as_str());
        out.append(escaped.as_str());
        out.append("'\n");
        proof {
            assert(es.take(i + 1).drop_last() =~= es.take(i as int));
            assert(es.take(i + 1).last() == es[i as int]);
            assert(out@ =~= alias_script_spec(es.take(i + 1)));
        }
    }
    proof {
        assert(es.take(pairs.len() as int) =~= es);
    }
    out
}

/// The alias lines of the shortcuts, in the map's order.
pub fn render(entries: &IndexMap<String, String>) -> (r: String)
    ensures
        r@ == alias_script_spec(map_entries(*entries)),
{
    let pairs = map_pairs(entries);
    alias_script(&pairs)
}

} // verus!
