//! The command expander: from the steps of a recipe, written with macros,
//! to the literal shell command lines that carry them out.

use crate::text::{
    chars_of, find, find_char, find_sub, offset_of, replace, replaced, starts_with, string_of, trim,
    trimmed,
};
use vstd::prelude::*;
use vstd::slice::{slice_subrange, slice_to_vec};
use vstd::string::StringExecFns;

verus! {

/// Why a package has no commands for its build dependencies.
#[derive(Clone, Copy, Debug, PartialEq, Eq, Structural)]
pub enum ExpansionError {
    /// A dependency has no `-` before its name, or names a `pkgconfig`
    /// module without the two parentheses round it.
    MalformedDependencySpec,
    /// The alias table has no command for installing a build dependency.
    MissingAlias,
}

/// `cmd` without the macro marker `%`, where it begins with one.
pub open spec fn unmarked(cmd: Seq<char>) -> Seq<char> {
    if cmd.len() > 0 && cmd.first() == '%' {
        cmd.drop_first()
    } else {
        cmd
    }
}

/// The shell command line for the step `cmd`.
///
/// One leading `%` is dropped. Where what is left begins with the macro
/// `reconfigure`, every `reconfigure` in it becomes `./configure`. Anything
/// else is left as it is.
pub open spec fn expanded(cmd: Seq<char>) -> Seq<char> {
    let step = unmarked(cmd);
    if "reconfigure"@.is_prefix_of(step) {
        replaced(step, "reconfigure"@, "./configure"@)
    } else {
        step
    }
}

/// The shell command lines for the steps `cmds`, in their order.
pub open spec fn expanded_all(cmds: Seq<Seq<char>>) -> Seq<Seq<char>> {
    Seq::new(cmds.len(), |i: int| expanded(cmds[i]))
}

/// The name of the build dependency that `dep` asks for: what follows the
/// first `-`, trimmed. Where that holds `pkgconfig`, the name is instead what
/// stands between `pkgconfig(` and the next `)`. `None` where `dep` has no
/// `-`, or holds `pkgconfig` without these parentheses.
pub open spec fn dependency_name(dep: Seq<char>) -> Option<Seq<char>> {
    let dash = offset_of(dep, '-') as int;
    if dash >= dep.len() {
        None
    } else {
        let rest = trimmed(dep.skip(dash + 1));
        if find(rest, "pkgconfig"@) is None {
            Some(rest)
        } else {
            match find(rest, "pkgconfig("@) {
                Some(at) => {
                    let inner = rest.skip(at + "pkgconfig("@.len());
                    let close = offset_of(inner, ')') as int;
                    if close < inner.len() {
                        Some(inner.take(close))
                    } else {
                        None
                    }
                },
                None => None,
            }
        }
    }
}

/// The names of the build dependencies `deps`, in their order. `None` where
/// one of them has no name.
pub open spec fn dependency_names(deps: Seq<Seq<char>>) -> Option<Seq<Seq<char>>> {
    if forall|i: int| 0 <= i < deps.len() ==> (#[trigger] dependency_name(deps[i])) is Some {
        Some(Seq::new(deps.len(), |i: int| dependency_name(deps[i])->0))
    } else {
        None
    }
}

/// The command line that installs the dependency `name`: the command of the
/// alias, a space, and the name.
pub open spec fn install_command(template: Seq<char>, name: Seq<char>) -> Seq<char> {
    template + seq![' '] + name
}

/// The name under which the alias table holds the command that installs a
/// build dependency.
pub open spec fn install_alias() -> Seq<char> {
    "install_builddep"@
}

/// The command lines that install the dependencies `names`, in their order.
pub open spec fn install_commands(template: Seq<char>, names: Seq<Seq<char>>) -> Seq<Seq<char>> {
    Seq::new(names.len(), |i: int| install_command(template, names[i]))
}

/// The command lines that install the build dependencies `deps` of a
/// package, in their order; `None` for a package that declares no build
/// dependencies. A table without the installing alias is the first error, a
/// dependency without a name the second.
pub open spec fn builddep_commands(
    aliases: Map<Seq<char>, Seq<char>>,
    deps: Option<Seq<Seq<char>>>,
) -> Result<Option<Seq<Seq<char>>>, ExpansionError> {
    if !aliases.contains_key(install_alias()) {
        Err(ExpansionError::MissingAlias)
    } else {
        match deps {
            Some(deps) => match dependency_names(deps) {
                Some(names) => Ok(Some(install_commands(aliases[install_alias()], names))),
                None => Err(ExpansionError::MalformedDependencySpec),
            },
            None => Ok(None),
        }
    }
}

/// The command lines of a phase with the steps `steps`; `None` for a phase
/// that the recipe does not declare.
pub open spec fn phase_commands(steps: Option<Seq<Seq<char>>>) -> Option<Seq<Seq<char>>> {
    match steps {
        Some(steps) => Some(expanded_all(steps)),
        None => None,
    }
}

/// The shell command line for the step `cmd`, on its characters.
pub fn expand(cmd: &[char]) -> (r: Vec<char>)
    ensures
        r@ == expanded(cmd@),
{
    let step = if cmd.len() > 0 && cmd[0] == '%' {
        slice_subrange(cmd, 1, cmd.len())
    } else {
        cmd
    };
    assert(step@ == unmarked(cmd@));
    let macro_name = chars_of("reconfigure");
    if starts_with(step, macro_name.as_slice()) {
        let command = chars_of("./configure");
        replace(step, macro_name.as_slice(), command.as_slice())
    } else {
        slice_to_vec(step)
    }
}

/// The shell command line for the step `cmd` of a recipe.
pub fn expand_step(cmd: &str) -> (r: String)
    ensures
        r@ == expanded(cmd@),
{
    let chars = chars_of(cmd);
    let line = expand(chars.as_slice());
    string_of(line.as_slice())
}

/// The shell command lines for the steps `cmds` of a recipe, in their order.
pub fn expand_steps(cmds: &Vec<String>) -> (r: Vec<String>)
    ensures
        r.deep_view() == expanded_all(cmds.deep_view()),
{
    let mut out: Vec<String> = Vec::new();
    let mut i: usize = 0;
    while i < cmds.len()
        invariant
            i <= cmds.len(),
            out@.len() == i,
            forall|j: int| 0 <= j < i ==> (#[trigger] out@[j])@ == expanded(cmds@[j]@),
        decreases cmds.len() - i,
    {
        out.push(expand_step(cmds[i].as_str()));
        i += 1;
    }
    assert(out.deep_view() =~= expanded_all(cmds.deep_view()));
    out
}

/// The name of the build dependency that `dep` asks for, on its characters.
pub fn dependency(dep: &[char]) -> (r: Option<&[char]>)
    ensures
        match r {
            Some(name) => dependency_name(dep@) == Some(name@),
            None => dependency_name(dep@) is None,
        },
{
    let dash = find_char(dep, '-');
    if dash >= dep.len() {
        return None;
    }
    let rest = trim(slice_subrange(dep, dash + 1, dep.len()));
    let module = chars_of("pkgconfig");
    match find_sub(rest, module.as_slice()) {
        None => Some(rest),
        Some(_) => {
            let opening = chars_of("pkgconfig(");
            let found = find_sub(rest, opening.as_slice());
            match found {
                None => None,
                Some(at) => {
                    let end = rest.len();
                    let inner = slice_subrange(rest, at + opening.len(), end);
                    let close = find_char(inner, ')');
                    if close < inner.len() {
                        Some(slice_subrange(inner, 0, close))
                    } else {
                        None
                    }
                },
            }
        },
    }
}

/// The name of the build dependency that `dep` asks for.
pub fn dependency_of(dep: &str) -> (r: Result<String, ExpansionError>)
    ensures
        match r {
            Ok(name) => dependency_name(dep@) == Some(name@),
            Err(e) => dependency_name(dep@) is None && e == ExpansionError::MalformedDependencySpec,
        },
{
    let chars = chars_of(dep);
    match dependency(chars.as_slice()) {
        Some(name) => Ok(string_of(name)),
        None => Err(ExpansionError::MalformedDependencySpec),
    }
}

/// The names of the build dependencies `deps`, in their order.
pub fn dependencies(deps: &Vec<String>) -> (r: Result<Vec<String>, ExpansionError>)
    ensures
        match r {
            Ok(names) => dependency_names(deps.deep_view()) == Some(names.deep_view()),
            Err(e) => dependency_names(deps.deep_view()) is None && e
                == ExpansionError::MalformedDependencySpec,
        },
{
    let mut names: Vec<String> = Vec::new();
    let mut i: usize = 0;
    while i < deps.len()
        invariant
            i <= deps.len(),
            names@.len() == i,
            forall|j: int| 0 <= j < i ==> dependency_name(#[trigger] deps@[j]@) == Some(names@[j]@),
        decreases deps.len() - i,
    {
        match dependency_of(deps[i].as_str()) {
            Ok(name) => {
                names.push(name);
            },
            Err(e) => {
                assert(deps.deep_view()[i as int] == deps@[i as int]@);
                return Err(e);
            },
        }
        i += 1;
    }
    proof {
        assert forall|j: int| 0 <= j < deps.deep_view().len() implies (#[trigger] dependency_name(
            deps.deep_view()[j],
        )) is Some by {
            assert(dependency_name(deps@[j]@) == Some(names@[j]@));
        }
        assert(names.deep_view() =~= dependency_names(deps.deep_view())->0) by {
            assert forall|j: int| 0 <= j < names@.len() implies names.deep_view()[j]
                == dependency_names(deps.deep_view())->0[j] by {
                assert(dependency_name(deps@[j]@) == Some(names@[j]@));
            }
        }
    }
    Ok(names)
}

/// The command lines that install the dependencies `names`: for each, the
/// command `template`, a space, and the name.
pub fn install_cmds(template: &String, names: &Vec<String>) -> (cmds: Vec<String>)
    ensures
        cmds.deep_view() == install_commands(template@, names.deep_view()),
{
    let mut cmds: Vec<String> = Vec::new();
    let mut i: usize = 0;
    while i < names.len()
        invariant
            i <= names.len(),
            cmds@.len() == i,
            forall|j: int|
                0 <= j < i ==> (#[trigger] cmds@[j])@ == install_command(template@, names@[j]@),
        decreases names.len() - i,
    {
        let mut cmd = template.clone();
        cmd.append(" ");
        cmd.append(names[i].as_str());
        proof {
            reveal_strlit(" ");
            assert(" "@ =~= seq![' ']);
        }
        cmds.push(cmd);
        i += 1;
    }
    assert(cmds.deep_view() =~= install_commands(template@, names.deep_view()));
    cmds
}

} // verus!
