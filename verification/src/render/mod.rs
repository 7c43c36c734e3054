//! Rendering the shortcuts as shell code.

pub mod fish;
pub mod pwsh;
pub mod sh;

use crate::entries::{map_entries, Entry};
use crate::text::str_eq;
use crate::utils::env_expand::{expand_commands, expanded_entries, values_views};
use indexmap::IndexMap;
use vstd::prelude::*;

verus! {

/// The shells that shortcuts can be rendered for.
#[derive(Clone, Copy)]
pub enum Shell {
    Bash,
    Fish,
    Pwsh,
    /// PowerShell, keeping aliases of the same names.
    PwshConflict,
    Zsh,
}

/// The shell code for the entries.
pub open spec fn script_spec(shell: Shell, es: Seq<Entry>) -> Seq<char> {
    match shell {
        Shell::Bash | Shell::Zsh | Shell::Fish => sh::alias_script_spec(es),
        Shell::Pwsh => pwsh::function_script_spec(es, false),
        Shell::PwshConflict => pwsh::function_script_spec(es, true),
    }
}

/// The shell named `name` on the command line.
pub open spec fn shell_named(name: Seq<char>) -> Option<Shell> {
    if name == "bash"@ {
        Some(Shell::Bash)
    } else if name == "fish"@ {
        Some(Shell::Fish)
    } else if name == "pwsh"@ {
        Some(Shell::Pwsh)
    } else if name == "pwsh-conflict"@ {
        Some(Shell::PwshConflict)
    } else if name == "zsh"@ {
        Some(Shell::Zsh)
    } else {
        None
    }
}

impl Shell {
    /// Whether output for this shell has environment variable references
    /// in commands expanded first: PowerShell output only.
    pub fn expands_env_vars(&self) -> (r: bool)
        ensures
            r == (*self is Pwsh || *self is PwshConflict),
    {
        match self {
            Shell::Pwsh | Shell::PwshConflict => true,
            _ => false,
        }
    }

    /// The shell of a command-line name (`bash`, `fish`, `pwsh`,
    /// `pwsh-conflict`, `zsh`), or `None` for an unsupported name.
    pub fn from_name(name: &str) -> (r: Option<Shell>)
        ensures
            r == shell_named(name@),
    {
        if str_eq(name, "bash") {
            Some(Shell::Bash)
        } else if str_eq(name, "fish") {
            Some(Shell::Fish)
        } else if str_eq(name, "pwsh") {
            Some(Shell::Pwsh)
        } else if str_eq(name, "pwsh-conflict") {
            Some(Shell::PwshConflict)
        } else if str_eq(name, "zsh") {
            Some(Shell::Zsh)
        } else {
            None
        }
    }
}

/// The shell code that defines the shortcuts for `shell`, commands as
/// written: PowerShell commands are not expanded here. The output with the
/// README's expansion of environment variables for PowerShell is
/// [`render_with_env`].
pub fn render(shell: Shell, entries: &IndexMap<String, String>) -> (r: String)
    ensures
        r@ == script_spec(shell, map_entries(*entries)),
{
    match shell {
        Shell::Bash | Shell::Zsh => sh::render(entries),
        Shell::Fish => fish::render(entries),
        Shell::Pwsh => pwsh::render(entries, false),
        Shell::PwshConflict => pwsh::render(entries, true),
    }
}

/// The output for `shell`: for PowerShell, the commands with their
/// variable references expanded from the looked-up values first.
pub open spec fn output_spec(
    shell: Shell,
    es: Seq<Entry>,
    values: Seq<Seq<Option<Seq<char>>>>,
) -> Seq<char> {
    if shell is Pwsh || shell is PwshConflict {
        script_spec(shell, expanded_entries(es, values))
    } else {
        script_spec(shell, es)
    }
}

/// The shell code that defines the shortcuts for `shell`. For PowerShell,
/// the references to environment variables in the `i`-th command are
/// first replaced by the values `values[i]` looked up for them (see
/// [`crate::utils::env_expand`]); other shells ignore `values`.
pub fn render_with_env(
    shell: Shell,
    entries: &IndexMap<String, String>,
    values: &Vec<Vec<Option<String>>>,
) -> (r: String)
    ensures
        r@ == output_spec(shell, map_entries(*entries), values_views(values@)),
{
    if shell.expands_env_vars() {
        let expanded = expand_commands(entries, values);
        render(shell, &expanded)
    } else {
        render(shell, entries)
    }
}

/// The alias lines for the entries, the `i`-th command written as the
/// shell word `ws[i]`.
pub open spec fn alias_lines_with_words(es: Seq<Entry>, ws: Seq<Seq<char>>) -> Seq<Seq<char>> {
    Seq::new(es.len(), |i: int| "alias "@ + es[i].0 + "="@ + ws[i] + "\n"@)
}

/// For bash, zsh and fish each shortcut is one line `alias NAME=WORD`, in
/// order, where the shell reads `WORD` back as exactly the command, whatever
/// characters it holds.
pub proof fn lemma_alias_output_reads_back(shell: Shell, es: Seq<Entry>)
    requires
        shell is Bash || shell is Zsh || shell is Fish,
    ensures
        exists|ws: Seq<Seq<char>>|
            {
                &&& ws.len() == es.len()
                &&& forall|i: int|
                    0 <= i < es.len() ==> sh::read_unquoted(#[trigger] ws[i]) == Some(es[i].1)
                &&& script_spec(shell, es) == pwsh::join_lines(alias_lines_with_words(es, ws))
            },
{
    let ws = Seq::new(es.len(), |i: int| sh::quoted_word(es[i].1));
    assert forall|i: int| 0 <= i < es.len() implies sh::read_unquoted(#[trigger] ws[i]) == Some(
        es[i].1,
    ) by {
        sh::lemma_escape_reads_back(es[i].1);
    }
    sh::lemma_alias_script_lines(es);
    assert(alias_lines_with_words(es, ws) =~= sh::alias_lines(es));
    assert(script_spec(shell, es) == pwsh::join_lines(alias_lines_with_words(es, ws)));
    assert({
        &&& ws.len() == es.len()
        &&& forall|i: int|
            0 <= i < es.len() ==> sh::read_unquoted(#[trigger] ws[i]) == Some(es[i].1)
        &&& script_spec(shell, es) == pwsh::join_lines(alias_lines_with_words(es, ws))
    });
}

/// PowerShell output is, in order, for each shortcut a line
/// `Remove-Item Alias:NAME -ErrorAction Ignore` directly followed by a line
/// `function NAME { COMMAND @args }`, for any number of shortcuts; with
/// conflicts kept, only the function lines.
pub proof fn lemma_pwsh_output_lines(es: Seq<Entry>)
    ensures
        exists|ls: Seq<Seq<char>>|
            {
                &&& ls.len() == 2 * es.len()
                &&& forall|i: int|
                    0 <= i < es.len() ==> ls[2 * i] == "Remove-Item Alias:"@ + (#[trigger] es[i]).0
                        + " -ErrorAction Ignore\n"@ && ls[2 * i + 1] == "function "@ + es[i].0
                        + " { "@ + es[i].1 + " @args }\n"@
                &&& script_spec(Shell::Pwsh, es) == pwsh::join_lines(ls)
            },
        exists|ls: Seq<Seq<char>>|
            {
                &&& ls.len() == es.len()
                &&& forall|i: int|
                    0 <= i < es.len() ==> ls[i] == "function "@ + (#[trigger] es[i]).0 + " { "@
                        + es[i].1 + " @args }\n"@
                &&& script_spec(Shell::PwshConflict, es) == pwsh::join_lines(ls)
            },
{
    pwsh::lemma_pwsh_modes(es);
    pwsh::lemma_conflict_lines(es);
    let ls = pwsh::script_lines(es, false);
    assert forall|i: int| 0 <= i < es.len() implies ls[2 * i] == "Remove-Item Alias:"@ + (
    #[trigger] es[i]).0 + " -ErrorAction Ignore\n"@ && ls[2 * i + 1] == "function "@ + es[i].0
        + " { "@ + es[i].1 + " @args }\n"@ by {}
    let lc = pwsh::script_lines(es, true);
    assert forall|i: int| 0 <= i < es.len() implies lc[i] == "function "@ + (#[trigger] es[i]).0
        + " { "@ + es[i].1 + " @args }\n"@ by {}
}

/// Bash, zsh and fish get the same alias lines.
pub proof fn lemma_alias_shells_agree(es: Seq<Entry>)
    ensures
        script_spec(Shell::Bash, es) == script_spec(Shell::Zsh, es),
        script_spec(Shell::Fish, es) == script_spec(Shell::Bash, es),
{
}

} // verus!
