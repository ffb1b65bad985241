//! Tools that a workspace asks to have installed.

use vstd::prelude::*;
use crate::text::texts;
use crate::tool_id::ToolId;
use crate::version::version_text;

verus! {

/// A tool to install: either just its version, or the version with where to
/// get the tool from and where to put it.
#[derive(Debug, Clone, PartialEq, Eq)]
pub enum Tool {
    Simple(semver::Version),
    Extended {
        version: semver::Version,
        index: Option<String>,
        registry: Option<String>,
        git: Option<String>,
        branch: Option<String>,
        tag: Option<String>,
        rev: Option<String>,
        path: Option<String>,
        root: Option<String>,
    },
}

/// The text of an optional string.
pub open spec fn text_of(value: Option<String>) -> Option<Seq<char>> {
    match value {
        Some(text) => Some(text@),
        None => None,
    }
}

/// The option `flag` with its value, where there is one.
pub open spec fn option_words(flag: Seq<char>, value: Option<Seq<char>>) -> Seq<Seq<char>> {
    match value {
        Some(text) => seq![flag, text],
        None => Seq::empty(),
    }
}

impl Tool {
    /// The registry index to use, as text.
    pub open spec fn index_text(&self) -> Option<Seq<char>> {
        match self {
            Tool::Simple(_) => None,
            Tool::Extended { index, .. } => text_of(*index),
        }
    }

    /// The registry to use, as text.
    pub open spec fn registry_text(&self) -> Option<Seq<char>> {
        match self {
            Tool::Simple(_) => None,
            Tool::Extended { registry, .. } => text_of(*registry),
        }
    }

    /// The git URL to install from, as text.
    pub open spec fn git_text(&self) -> Option<Seq<char>> {
        match self {
            Tool::Simple(_) => None,
            Tool::Extended { git, .. } => text_of(*git),
        }
    }

    /// The branch to use when installing from git, as text.
    pub open spec fn branch_text(&self) -> Option<Seq<char>> {
        match self {
            Tool::Simple(_) => None,
            Tool::Extended { branch, .. } => text_of(*branch),
        }
    }

    /// The tag to use when installing from git, as text.
    pub open spec fn tag_text(&self) -> Option<Seq<char>> {
        match self {
            Tool::Simple(_) => None,
            Tool::Extended { tag, .. } => text_of(*tag),
        }
    }

    /// The commit to use when installing from git, as text.
    pub open spec fn rev_text(&self) -> Option<Seq<char>> {
        match self {
            Tool::Simple(_) => None,
            Tool::Extended { rev, .. } => text_of(*rev),
        }
    }

    /// The local path to install from, as text.
    pub open spec fn path_text(&self) -> Option<Seq<char>> {
        match self {
            Tool::Simple(_) => None,
            Tool::Extended { path, .. } => text_of(*path),
        }
    }

    /// The directory to install into, as text.
    pub open spec fn root_text(&self) -> Option<Seq<char>> {
        match self {
            Tool::Simple(_) => None,
            Tool::Extended { root, .. } => text_of(*root),
        }
    }

    /// The version to install: the bare version, or the one given with the
    /// other settings.
    pub open spec fn version_value(&self) -> semver::Version {
        match self {
            Tool::Simple(version) => *version,
            Tool::Extended { version, .. } => *version,
        }
    }

    /// The options that the tool sets, each with its value, in the order in
    /// which they are handed to `cargo install`.
    pub open spec fn option_list(&self) -> Seq<Seq<char>> {
        option_words("--index"@, self.index_text()) + option_words(
            "--registry"@,
            self.registry_text(),
        ) + option_words("--git"@, self.git_text()) + option_words("--branch"@, self.branch_text())
            + option_words("--tag"@, self.tag_text()) + option_words("--rev"@, self.rev_text())
            + option_words("--path"@, self.path_text()) + option_words("--root"@, self.root_text())
    }

    /// The version to install.
    pub fn version(&self) -> (r: &semver::Version)
        ensures
            *r == self.version_value(),
    {
        match self {
            Tool::Simple(version) => version,
            Tool::Extended { version, .. } => version,
        }
    }

    /// The registry index to use.
    pub fn index(&self) -> (r: Option<&String>)
        ensures
            text_of_ref(r) == self.index_text(),
    {
        match self {
            Tool::Simple(_) => None,
            Tool::Extended { index, .. } => index.as_ref(),
        }
    }

    /// The registry to use.
    pub fn registry(&self) -> (r: Option<&String>)
        ensures
            text_of_ref(r) == self.registry_text(),
    {
        match self {
            Tool::Simple(_) => None,
            Tool::Extended { registry, .. } => registry.as_ref(),
        }
    }

    /// The git URL to install from.
    pub fn git(&self) -> (r: Option<&String>)
        ensures
            text_of_ref(r) == self.git_text(),
    {
        match self {
            Tool::Simple(_) => None,
            Tool::Extended { git, .. } => git.as_ref(),
        }
    }

    /// The branch to use when installing from git.
    pub fn branch(&self) -> (r: Option<&String>)
        ensures
            text_of_ref(r) == self.branch_text(),
    {
        match self {
            Tool::Simple(_) => None,
            Tool::Extended { branch, .. } => branch.as_ref(),
        }
    }

    /// The tag to use when installing from git.
    pub fn tag(&self) -> (r: Option<&String>)
        ensures
            text_of_ref(r) == self.tag_text(),
    {
        match self {
            Tool::Simple(_) => None,
            Tool::Extended { tag, .. } => tag.as_ref(),
        }
    }

    /// The commit to use when installing from git.
    pub fn rev(&self) -> (r: Option<&String>)
        ensures
            text_of_ref(r) == self.rev_text(),
    {
        match self {
            Tool::Simple(_) => None,
            Tool::Extended { rev, .. } => rev.as_ref(),
        }
    }

    /// The local path to install from.
    pub fn path(&self) -> (r: Option<&String>)
        ensures
            text_of_ref(r) == self.path_text(),
    {
        match self {
            Tool::Simple(_) => None,
            Tool::Extended { path, .. } => path.as_ref(),
        }
    }

    /// The directory to install into.
    pub fn root(&self) -> (r: Option<&String>)
        ensures
            text_of_ref(r) == self.root_text(),
    {
        match self {
            Tool::Simple(_) => None,
            Tool::Extended { root, .. } => root.as_ref(),
        }
    }
}

/// The text of an optional borrowed string.
pub open spec fn text_of_ref(value: Option<&String>) -> Option<Seq<char>> {
    match value {
        Some(text) => Some(text@),
        None => None,
    }
}

/// Appends the option `flag` with its value, where there is one.
fn push_option(arguments: &mut Vec<String>, flag: &str, value: Option<&String>)
    ensures
        texts(final(arguments)@) == texts(old(arguments)@) + option_words(flag@, text_of_ref(value)),
{
    let ghost before = texts(arguments@);
    match value {
        Some(text) => {
            arguments.push(flag.to_owned());
            arguments.push(text.clone());
            assert(texts(arguments@) =~= before + seq![flag@, text@]);
        },
        None => {
            assert(texts(arguments@) =~= before + Seq::<Seq<char>>::empty());
        },
    }
}

/// Appending in two steps is appending the two parts put together.
proof fn lemma_regroup(head: Seq<Seq<char>>, middle: Seq<Seq<char>>, tail: Seq<Seq<char>>)
    ensures
        head + middle + tail == head + (middle + tail),
{
    assert(head + middle + tail =~= head + (middle + tail));
}

/// Appends each option that `tool` sets, with its value.
fn push_options(arguments: &mut Vec<String>, tool: &Tool)
    ensures
        texts(final(arguments)@) == texts(old(arguments)@) + tool.option_list(),
{
    let ghost head = texts(arguments@);
    let ghost index = option_words("--index"@, tool.index_text());
    let ghost registry = option_words("--registry"@, tool.registry_text());
    let ghost git = option_words("--git"@, tool.git_text());
    let ghost branch = option_words("--branch"@, tool.branch_text());
    let ghost tag = option_words("--tag"@, tool.tag_text());
    let ghost rev = option_words("--rev"@, tool.rev_text());
    let ghost path = option_words("--path"@, tool.path_text());
    let ghost root = option_words("--root"@, tool.root_text());
    push_option(arguments, "--index", tool.index());
    let ghost options = index;
    push_option(arguments, "--registry", tool.registry());
    proof {
        lemma_regroup(head, options, registry);
        options = options + registry;
    }
    push_option(arguments, "--git", tool.git());
    proof {
        lemma_regroup(head, options, git);
        options = options + git;
    }
    push_option(arguments, "--branch", tool.branch());
    proof {
        lemma_regroup(head, options, branch);
        options = options + branch;
    }
    push_option(arguments, "--tag", tool.tag());
    proof {
        lemma_regroup(head, options, tag);
        options = options + tag;
    }
    push_option(arguments, "--rev", tool.rev());
    proof {
        lemma_regroup(head, options, rev);
        options = options + rev;
    }
    push_option(arguments, "--path", tool.path());
    proof {
        lemma_regroup(head, options, path);
        options = options + path;
    }
    push_option(arguments, "--root", tool.root());
    proof {
        lemma_regroup(head, options, root);
        options = options + root;
        assert(options == tool.option_list());
    }
}

/// The arguments for `cargo` that install `tool` under the name `tool_id`:
/// `install`, the name, `--version` with the version as text, and then each
/// option the tool sets, with its value.
pub fn install_arguments(tool_id: &ToolId, tool: &Tool) -> (arguments: Vec<String>)
    ensures
        arguments@.len() == 4 + tool.option_list().len(),
        arguments@[0]@ == "install"@,
        arguments@[1]@ == tool_id@,
        arguments@[2]@ == "--version"@,
        texts(arguments@).subrange(4, arguments@.len() as int) == tool.option_list(),
{
    let mut arguments: Vec<String> = Vec::new();
    arguments.push("install".to_owned());
    arguments.push(tool_id.as_str().to_owned());
    arguments.push("--version".to_owned());
    arguments.push(version_text(tool.version()));
    let ghost head = texts(arguments@);
    assert(head.len() == 4 && head[0] == "install"@ && head[1] == tool_id@ && head[2]
        == "--version"@);
    push_options(&mut arguments, tool);
    proof {
        let all = texts(arguments@);
        assert(all.len() == arguments@.len());
        assert(all.subrange(4, all.len() as int) =~= tool.option_list());
        assert(all[0] == head[0] && all[1] == head[1] && all[2] == head[2]);
    }
    arguments
}

} // verus!
