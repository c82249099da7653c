//! The phases of installing a package: for each phase, the shell command
//! lines that carry it out, in the order in which they are to be run.
//!
//! A phase is planned from what the recipe declares for it, and a phase that
//! the recipe does not declare has no plan. Nothing here runs a command.

use crate::alias::AliasTable;
use crate::expand::{
    builddep_commands, dependencies, dependency_names, expand_steps, install_cmds,
    phase_commands, ExpansionError,
};
use crate::package::{list_view, Package};
use vstd::prelude::*;

verus! {

/// What a plan holds: the command lines of each phase.
pub struct InstallPlanView {
    pub download: Seq<Seq<char>>,
    pub builddeps: Option<Seq<Seq<char>>>,
    pub setup: Option<Seq<Seq<char>>>,
    pub build: Option<Seq<Seq<char>>>,
    pub install: Option<Seq<Seq<char>>>,
}

/// The command lines that install a package, phase by phase. The phases run
/// in the order of the fields, and the commands of a phase in their order. A
/// phase is `None` where the recipe does not declare it.
#[derive(Debug)]
pub struct InstallPlan {
    pub download: Vec<String>,
    pub builddeps: Option<Vec<String>>,
    pub setup: Option<Vec<String>>,
    pub build: Option<Vec<String>>,
    pub install: Option<Vec<String>>,
}

impl View for InstallPlan {
    type V = InstallPlanView;

    open spec fn view(&self) -> InstallPlanView {
        InstallPlanView {
            download: self.download.deep_view(),
            builddeps: list_view(self.builddeps),
            setup: list_view(self.setup),
            build: list_view(self.build),
            install: list_view(self.install),
        }
    }
}

/// The command lines of a phase with the steps `steps`.
fn plan_phase(steps: &Option<Vec<String>>) -> (cmds: Option<Vec<String>>)
    ensures
        list_view(cmds) == phase_commands(list_view(*steps)),
{
    match steps {
        Some(steps) => Some(expand_steps(steps)),
        None => None,
    }
}

impl Package {
    /// The command lines of the download phase: there are none. Fetching the
    /// sources is left to whoever runs the plan.
    pub fn download_source(&self) -> (cmds: Vec<String>)
        ensures
            cmds.deep_view() == Seq::<Seq<char>>::empty(),
    {
        let cmds: Vec<String> = Vec::new();
        assert(cmds.deep_view() =~= Seq::<Seq<char>>::empty());
        cmds
    }

    /// The names of the build dependencies, in the order of the recipe;
    /// `None` where the recipe declares no build dependencies.
    pub fn builddep_names(&self) -> (r: Result<Option<Vec<String>>, ExpansionError>)
        ensures
            match r {
                Ok(Some(names)) => self@.builddeps is Some && dependency_names(self@.builddeps->0)
                    == Some(names.deep_view()),
                Ok(None) => self@.builddeps is None,
                Err(e) => self@.builddeps is Some && dependency_names(self@.builddeps->0) is None
                    && e == ExpansionError::MalformedDependencySpec,
            },
    {
        match &self.builddeps {
            Some(deps) => match dependencies(deps) {
                Ok(names) => Ok(Some(names)),
                Err(e) => Err(e),
            },
            None => Ok(None),
        }
    }

    /// The command lines that install the build dependencies: for each, the
    /// command of the alias `install_builddep`, a space, and its name.
    pub fn install_builddeps(&self, aliases: &AliasTable) -> (r: Result<
        Option<Vec<String>>,
        ExpansionError,
    >)
        ensures
            match r {
                Ok(cmds) => builddep_commands(aliases@, self@.builddeps) == Ok::<
                    Option<Seq<Seq<char>>>,
                    ExpansionError,
                >(list_view(cmds)),
                Err(e) => builddep_commands(aliases@, self@.builddeps) == Err::<
                    Option<Seq<Seq<char>>>,
                    ExpansionError,
                >(e),
            },
    {
        let template = match aliases.get("install_builddep") {
            Some(template) => template,
            None => {
                return Err(ExpansionError::MissingAlias);
            },
        };
        match self.builddep_names() {
            Ok(Some(names)) => Ok(Some(install_cmds(template, &names))),
            Ok(None) => Ok(None),
            Err(e) => Err(e),
        }
    }

    /// The command lines of the setup phase.
    pub fn setup(&self) -> (cmds: Option<Vec<String>>)
        ensures
            list_view(cmds) == phase_commands(self@.setup),
    {
        plan_phase(&self.setup)
    }

    /// The command lines of the build phase.
    pub fn build(&self) -> (cmds: Option<Vec<String>>)
        ensures
            list_view(cmds) == phase_commands(self@.build),
    {
        plan_phase(&self.build)
    }

    /// The command lines of the install phase.
    pub fn install(&self) -> (cmds: Option<Vec<String>>)
        ensures
            list_view(cmds) == phase_commands(self@.install),
    {
        plan_phase(&self.install)
    }

    /// The plan that installs the package: its sources, its build
    /// dependencies, then setup, build and install. Fails, before anything
    /// is run, where the build dependencies have no commands.
    pub fn install_pkg(&self, aliases: &AliasTable) -> (r: Result<InstallPlan, ExpansionError>)
        ensures
            match r {
                Ok(plan) => builddep_commands(aliases@, self@.builddeps) == Ok::<
                    Option<Seq<Seq<char>>>,
                    ExpansionError,
                >(plan@.builddeps) && plan@.download == Seq::<Seq<char>>::empty() && plan@.setup
                    == phase_commands(self@.setup) && plan@.build == phase_commands(self@.build)
                    && plan@.install == phase_commands(self@.install),
                Err(e) => builddep_commands(aliases@, self@.builddeps) == Err::<
                    Option<Seq<Seq<char>>>,
                    ExpansionError,
                >(e),
            },
    {
        let download = self.download_source();
        let builddeps = match self.install_builddeps(aliases) {
            Ok(cmds) => cmds,
            Err(e) => {
                return Err(e);
            },
        };
        let setup = self.setup();
        let build = self.build();
        let install = self.install();
        Ok(InstallPlan { download, builddeps, setup, build, install })
    }
}

} // verus!
