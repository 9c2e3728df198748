//! Editor-command resolution: a fixed alias table maps friendly editor
//! names to the commands that launch them.  Spawning the editor is left
//! to the caller.

use vstd::prelude::*;
use vstd::string::StringExecFns;

use crate::text::lower_of;
use crate::text::lowercase;

verus! {

/// The alias table: each recognized alias and the command it stands for,
/// in lookup order.
pub open spec fn alias_pairs() -> Seq<(Seq<char>, Seq<char>)> {
    seq![
        ("code"@, "code"@),
        ("vscode"@, "code"@),
        ("cursor"@, "cursor"@),
        ("vim"@, "vim"@),
        ("nvim"@, "nvim"@),
        ("neovim"@, "nvim"@),
        ("emacs"@, "emacs"@),
        ("sublime"@, "subl"@),
        ("subl"@, "subl"@),
        ("atom"@, "atom"@),
        ("idea"@, "idea"@),
        ("intellij"@, "idea"@),
        ("webstorm"@, "webstorm"@),
        ("pycharm"@, "pycharm"@),
        ("goland"@, "goland"@),
        ("rustrover"@, "rustrover"@),
        ("zed"@, "zed"@),
    ]
}

/// The command of the first pair whose alias equals `key`.
pub open spec fn alias_lookup(pairs: Seq<(Seq<char>, Seq<char>)>, key: Seq<char>) -> Option<
    Seq<char>,
>
    decreases pairs.len(),
{
    if pairs.len() == 0 {
        None
    } else if pairs[0].0 == key {
        Some(pairs[0].1)
    } else {
        alias_lookup(pairs.skip(1), key)
    }
}

/// The command launched for a configured editor name: the alias table is
/// consulted with the case-folded name, and an unknown name is used as
/// the command itself, unchanged.
pub open spec fn resolved_editor(editor: Seq<char>) -> Seq<char> {
    match alias_lookup(alias_pairs(), lower_of(editor)) {
        Some(command) => command,
        None => editor,
    }
}

/// Builds the alias table.
pub fn editor_aliases() -> (r: Vec<(String, String)>)
    ensures
        r.deep_view() == alias_pairs(),
{
    let mut v: Vec<(String, String)> = Vec::new();
    v.push(("code".to_owned(), "code".to_owned()));
    v.push(("vscode".to_owned(), "code".to_owned()));
    v.push(("cursor".to_owned(), "cursor".to_owned()));
    v.push(("vim".to_owned(), "vim".to_owned()));
    v.push(("nvim".to_owned(), "nvim".to_owned()));
    v.push(("neovim".to_owned(), "nvim".to_owned()));
    v.push(("emacs".to_owned(), "emacs".to_owned()));
    v.push(("sublime".to_owned(), "subl".to_owned()));
    v.push(("subl".to_owned(), "subl".to_owned()));
    v.push(("atom".to_owned(), "atom".to_owned()));
    v.push(("idea".to_owned(), "idea".to_owned()));
    v.push(("intellij".to_owned(), "idea".to_owned()));
    v.push(("webstorm".to_owned(), "webstorm".to_owned()));
    v.push(("pycharm".to_owned(), "pycharm".to_owned()));
    v.push(("goland".to_owned(), "goland".to_owned()));
    v.push(("rustrover".to_owned(), "rustrover".to_owned()));
    v.push(("zed".to_owned(), "zed".to_owned()));
    proof {
        assert(v.deep_view() =~~= alias_pairs());
    }
    v
}

/// The aliases whose commands are available, given one availability flag
/// per alias pair.
pub open spec fn available_aliases(
    pairs: Seq<(Seq<char>, Seq<char>)>,
    avail: Seq<bool>,
    i: int,
) -> Seq<Seq<char>>
    decreases i,
{
    if i <= 0 {
        Seq::empty()
    } else {
        let prev = available_aliases(pairs, avail, i - 1);
        if avail[i - 1] {
            prev.push(pairs[i - 1].0)
        } else {
            prev
        }
    }
}

/// The aliases of the editors present on this machine.  The caller probes
/// each alias table command — that is outside work — and hands in one
/// availability flag per table entry, in table order.
pub fn get_available_editors(available: &Vec<bool>) -> (r: Vec<String>)
    requires
        available@.len() == alias_pairs().len(),
    ensures
        r.deep_view() == available_aliases(
            alias_pairs(),
            available@,
            alias_pairs().len() as int,
        ),
{
    let aliases = editor_aliases();
    let mut out: Vec<String> = Vec::new();
    proof {
        assert(out.deep_view() =~~= Seq::<Seq<char>>::empty());
    }
    let mut i: usize = 0;
    while i < aliases.len()
        invariant
            i <= aliases@.len(),
            aliases.deep_view() == alias_pairs(),
            available@.len() == alias_pairs().len(),
            out.deep_view() == available_aliases(alias_pairs(), available@, i as int),
        decreases aliases@.len() - i,
    {
        proof {
            assert(aliases.deep_view()[i as int] == (aliases[i as int].0@, aliases[i as int].1@));
        }
        if available[i] {
            out.push(aliases[i].0.clone());
            proof {
                assert(out.deep_view() =~~= available_aliases(
                    alias_pairs(),
                    available@,
                    i as int,
                ).push(alias_pairs()[i as int].0));
            }
        }
        i = i + 1;
    }
    out
}

/// Launches a chosen project in an editor; this verified part only
/// resolves the command name, and the surrounding application spawns it.
#[derive(Debug)]
pub struct Launcher {
    pub editor: String,
}

impl Launcher {
    /// A launcher for the given editor name.
    pub fn new(editor: &str) -> (r: Self)
        ensures
            r.editor@ == editor@,
    {
        Launcher { editor: editor.to_owned() }
    }

    /// Resolves the configured editor name to the command to spawn.
    pub fn resolve_editor(&self) -> (r: String)
        ensures
            r@ == resolved_editor(self.editor@),
    {
        let lowered = lowercase(self.editor.as_str());
        let aliases = editor_aliases();
        let mut i: usize = 0;
        proof {
            assert(alias_pairs().skip(0) =~~= alias_pairs());
        }
        while i < aliases.len()
            invariant
                i <= aliases@.len(),
                lowered@ == lower_of(self.editor@),
                aliases.deep_view() == alias_pairs(),
                alias_lookup(alias_pairs(), lowered@) == alias_lookup(
                    alias_pairs().skip(i as int),
                    lowered@,
                ),
            decreases aliases@.len() - i,
        {
            proof {
                assert(aliases.deep_view()[i as int] == (
                    aliases[i as int].0@,
                    aliases[i as int].1@,
                ));
                assert(alias_pairs().skip(i as int)[0] == alias_pairs()[i as int]);
            }
            if aliases[i].0 == lowered {
                return aliases[i].1.clone();
            }
            proof {
                assert(alias_pairs().skip(i as int).skip(1) =~~= alias_pairs().skip(i as int + 1));
            }
            i = i + 1;
        }
        self.editor.clone()
    }
}

} // verus!
