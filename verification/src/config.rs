//! The scan configuration: search roots, an optional editor command, the
//! depth bound, the marker names that identify a project, and the directory
//! names that are never descended into.

use vstd::prelude::*;
use vstd::string::StringExecFns;
use vstd::seq_lib::*;

verus! {

/// Mathematical model of a [`Config`].
pub struct ConfigModel {
    pub root_paths: Seq<Seq<char>>,
    pub editor: Option<Seq<char>>,
    pub max_depth: nat,
    pub project_markers: Seq<Seq<char>>,
    pub exclude_dirs: Seq<Seq<char>>,
}

/// The application configuration, read-only during a scan.
#[derive(Debug)]
pub struct Config {
    /// Roots beneath which projects are searched.
    pub root_paths: Vec<String>,
    /// The configured default editor command, when one is set.
    pub editor: Option<String>,
    /// Traversal depth bound relative to each root; the root is depth 0.
    pub max_depth: usize,
    /// File or directory names whose presence marks a project directory.
    pub project_markers: Vec<String>,
    /// Directory names never descended into.
    pub exclude_dirs: Vec<String>,
}

impl View for Config {
    type V = ConfigModel;

    open spec fn view(&self) -> ConfigModel {
        ConfigModel {
            root_paths: self.root_paths.deep_view(),
            editor: self.editor.deep_view(),
            max_depth: self.max_depth as nat,
            project_markers: self.project_markers.deep_view(),
            exclude_dirs: self.exclude_dirs.deep_view(),
        }
    }
}

/// The depth bound used when none is configured.
pub fn default_max_depth() -> (r: usize)
    ensures
        r == 4,
{
    4
}

/// The marker names used when none are configured, in detection order.
pub open spec fn default_markers_seq() -> Seq<Seq<char>> {
    seq![
        ".git"@,
        "Cargo.toml"@,
        "package.json"@,
        "go.mod"@,
        "pyproject.toml"@,
        "setup.py"@,
        "pom.xml"@,
        "build.gradle"@,
        "Makefile"@,
        "CMakeLists.txt"@,
        "composer.json"@,
        "Gemfile"@,
        "mix.exs"@,
        "deno.json"@,
    ]
}

/// The directory names excluded from traversal when none are configured.
pub open spec fn default_excludes_seq() -> Seq<Seq<char>> {
    seq![
        "node_modules"@,
        "target"@,
        ".venv"@,
        "venv"@,
        "__pycache__"@,
        ".cache"@,
        "dist"@,
        "build"@,
        ".next"@,
        ".nuxt"@,
        "vendor"@,
    ]
}

/// Builds the default marker list.
pub fn default_project_markers() -> (r: Vec<String>)
    ensures
        r.deep_view() == default_markers_seq(),
{
    let mut v: Vec<String> = Vec::new();
    v.push(".git".to_owned());
    v.push("Cargo.toml".to_owned());
    v.push("package.json".to_owned());
    v.push("go.mod".to_owned());
    v.push("pyproject.toml".to_owned());
    v.push("setup.py".to_owned());
    v.push("pom.xml".to_owned());
    v.push("build.gradle".to_owned());
    v.push("Makefile".to_owned());
    v.push("CMakeLists.txt".to_owned());
    v.push("composer.json".to_owned());
    v.push("Gemfile".to_owned());
    v.push("mix.exs".to_owned());
    v.push("deno.json".to_owned());
    proof {
        assert(v.deep_view() =~~= default_markers_seq());
    }
    v
}

/// Builds the default exclusion list.
pub fn default_exclude_dirs() -> (r: Vec<String>)
    ensures
        r.deep_view() == default_excludes_seq(),
{
    let mut v: Vec<String> = Vec::new();
    v.push("node_modules".to_owned());
    v.push("target".to_owned());
    v.push(".venv".to_owned());
    v.push("venv".to_owned());
    v.push("__pycache__".to_owned());
    v.push(".cache".to_owned());
    v.push("dist".to_owned());
    v.push("build".to_owned());
    v.push(".next".to_owned());
    v.push(".nuxt".to_owned());
    v.push("vendor".to_owned());
    proof {
        assert(v.deep_view() =~~= default_excludes_seq());
    }
    v
}

impl Default for Config {
    /// The configuration used when no file is present: no roots, no editor,
    /// the default depth bound, markers and exclusions.
    fn default() -> (r: Self)
        ensures
            r@.root_paths == Seq::<Seq<char>>::empty(),
            r@.editor is None,
            r@.max_depth == 4,
            r@.project_markers == default_markers_seq(),
            r@.exclude_dirs == default_excludes_seq(),
    {
        let r = Config {
            root_paths: Vec::new(),
            editor: None,
            max_depth: default_max_depth(),
            project_markers: default_project_markers(),
            exclude_dirs: default_exclude_dirs(),
        };
        proof {
            assert(r.root_paths.deep_view() =~~= Seq::<Seq<char>>::empty());
        }
        r
    }
}

/// The editor command to use, by priority: the command-line option, then
/// the configured editor, then the inherited environment editor, then
/// `code`.
pub open spec fn chosen_editor(
    cli: Option<Seq<char>>,
    cfg: Option<Seq<char>>,
    env: Option<Seq<char>>,
) -> Seq<char> {
    if cli is Some {
        cli->0
    } else if cfg is Some {
        cfg->0
    } else if env is Some {
        env->0
    } else {
        "code"@
    }
}

/// `s` with every occurrence of `x` removed, order otherwise kept.
pub open spec fn without(s: Seq<Seq<char>>, x: Seq<char>) -> Seq<Seq<char>>
    decreases s.len(),
{
    if s.len() == 0 {
        s
    } else if s.last() == x {
        without(s.drop_last(), x)
    } else {
        without(s.drop_last(), x).push(s.last())
    }
}

impl Config {
    /// Records `editor` as the configured default editor.
    pub fn set_editor(&mut self, editor: &str)
        ensures
            final(self).editor.deep_view() == Some(editor@),
            final(self).root_paths == old(self).root_paths,
            final(self).max_depth == old(self).max_depth,
            final(self).project_markers == old(self).project_markers,
            final(self).exclude_dirs == old(self).exclude_dirs,
    {
        self.editor = Some(editor.to_owned());
    }

    /// Picks the editor to launch.  The caller passes the command-line
    /// choice and the inherited environment value; the configured editor
    /// sits between them in priority.
    pub fn get_editor(&self, cli_editor: Option<&str>, env_editor: Option<&str>) -> (r: String)
        ensures
            r@ == chosen_editor(
                cli_editor.deep_view(),
                self.editor.deep_view(),
                env_editor.deep_view(),
            ),
    {
        match cli_editor {
            Some(e) => e.to_owned(),
            None => match &self.editor {
                Some(e) => e.clone(),
                None => match env_editor {
                    Some(e) => e.to_owned(),
                    None => "code".to_owned(),
                },
            },
        }
    }

    /// Adds a root path unless it is already registered.  The caller hands
    /// in the path already expanded and canonicalized.  Returns whether the
    /// path was added.
    pub fn add_root_path(&mut self, path: &String) -> (added: bool)
        ensures
            added == !old(self).root_paths.deep_view().contains(path@),
            added ==> final(self).root_paths.deep_view() == old(
                self,
            ).root_paths.deep_view().push(path@),
            !added ==> final(self).root_paths == old(self).root_paths,
            final(self).editor == old(self).editor,
            final(self).max_depth == old(self).max_depth,
            final(self).project_markers == old(self).project_markers,
            final(self).exclude_dirs == old(self).exclude_dirs,
    {
        if crate::text::contains_string(&self.root_paths, path) {
            false
        } else {
            self.root_paths.push(path.clone());
            proof {
                assert(self.root_paths.deep_view() =~~= old(
                    self,
                ).root_paths.deep_view().push(path@));
            }
            true
        }
    }

    /// Removes every registered root equal to `path`.  Returns whether any
    /// was present.
    pub fn remove_root_path(&mut self, path: &String) -> (removed: bool)
        ensures
            removed == old(self).root_paths.deep_view().contains(path@),
            final(self).root_paths.deep_view() == without(
                old(self).root_paths.deep_view(),
                path@,
            ),
            final(self).editor == old(self).editor,
            final(self).max_depth == old(self).max_depth,
            final(self).project_markers == old(self).project_markers,
            final(self).exclude_dirs == old(self).exclude_dirs,
    {
        let removed = crate::text::contains_string(&self.root_paths, path);
        let mut kept: Vec<String> = Vec::new();
        proof {
            assert(old(self).root_paths.deep_view().take(0) =~~= Seq::<Seq<char>>::empty());
            assert(kept.deep_view() =~~= Seq::<Seq<char>>::empty());
        }
        let mut i: usize = 0;
        while i < self.root_paths.len()
            invariant
                i <= self.root_paths.len(),
                self.root_paths == old(self).root_paths,
                kept.deep_view() == without(
                    old(self).root_paths.deep_view().take(i as int),
                    path@,
                ),
            decreases self.root_paths.len() - i,
        {
            let ghost prefix = old(self).root_paths.deep_view().take(i as int);
            let ghost elem = old(self).root_paths.deep_view()[i as int];
            let ghost next = old(self).root_paths.deep_view().take(i as int + 1);
            proof {
                assert(elem == self.root_paths[i as int]@);
                assert(next.drop_last() =~~= prefix);
                assert(next.last() == elem);
            }
            if !(self.root_paths[i] == *path) {
                kept.push(self.root_paths[i].clone());
                proof {
                    assert(kept.deep_view() =~~= without(prefix, path@).push(elem));
                }
            }
            i = i + 1;
        }
        proof {
            assert(old(self).root_paths.deep_view().take(
                old(self).root_paths.deep_view().len() as int,
            ) =~~= old(self).root_paths.deep_view());
        }
        self.root_paths = kept;
        removed
    }
}

} // verus!

