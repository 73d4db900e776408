use vstd::prelude::*;
use vstd::string::StringExecFns;

use crate::cli::{Cli, Commands};
use crate::config::{
    actions_view, lines_view, lookup_template, template_lines, template_plan, Action, ActionV,
    Config, Template, TemplateV,
};
use crate::error::Error;

verus! {

/// Everything one command asks to have done outside: the filesystem
/// operations of a build, or the lines to show.
#[derive(Debug)]
pub enum RunPlan {
    /// Perform these operations in order against the destination path,
    /// stopping at the first failure.
    Build { actions: Vec<Action> },
    /// The name of every template, in registry order.
    List { names: Vec<String> },
    /// The tree diagram of one template.
    Info { lines: Vec<String> },
}

/// The names of the registry's templates, in order.
pub open spec fn template_names(ts: Seq<TemplateV>) -> Seq<Seq<char>> {
    Seq::new(ts.len(), |i: int| ts[i].name)
}

/// The template a build resolves to: the one asked for, or the configured
/// favorite.
pub open spec fn resolved_id(requested: Option<String>, favorite: Option<Seq<char>>) -> Option<
    Seq<char>,
> {
    match requested {
        Some(t) => Some(t@),
        None => favorite,
    }
}

/// One command bound to the loaded registry.
pub struct Runner<'a> {
    pub config: Config,
    pub command: &'a Commands,
}

impl<'a> Runner<'a> {
    /// Bind the parsed command line to the loaded registry.
    pub fn new(cli: &'a Cli, config: Config) -> (r: Runner<'a>)
        ensures
            r.config == config,
            *r.command == cli.command,
    {
        Runner { config, command: &cli.command }
    }

    /// Decide what the command asks for. The two flags answer the only two
    /// questions a build puts to the filesystem: whether the destination path
    /// exists, and whether the root folder to create already exists under it;
    /// both are ignored by the other commands. Nothing here touches the
    /// filesystem: the returned plan carries every operation and line, and a
    /// build against an occupied root yields its error and no operations.
    pub fn run(&self, path_present: bool, dest_present: bool) -> (r: Result<RunPlan, Error>)
        ensures
            match *self.command {
                Commands::List => r matches Ok(p) && p matches RunPlan::List { names }
                    && lines_view(names@) == template_names(self.config@.templates),
                Commands::Info { template } => match lookup_template(
                    self.config@.templates,
                    template@,
                ) {
                    None => r matches Err(e) && e matches Error::TemplateNotFound(n) && n@
                        == template@,
                    Some(t) => r matches Ok(p) && p matches RunPlan::Info { lines } && lines_view(
                        lines@,
                    ) == template_lines(t),
                },
                Commands::Build { path, template, name } => match resolved_id(
                    template,
                    self.config@.favorite,
                ) {
                    None => r matches Err(e) && e matches Error::TemplateNotFound(n) && n@
                        == Seq::<char>::empty(),
                    Some(id) => match lookup_template(self.config@.templates, id) {
                        None => r matches Err(e) && e matches Error::TemplateNotFound(n) && n@
                            == id,
                        Some(t) => {
                            let base = match name {
                                Some(nm) => nm@,
                                None => id,
                            };
                            if !path_present {
                                r matches Err(e) && e matches Error::PathNotExistent(p) && p@
                                    == path@
                            } else if dest_present {
                                r matches Err(e) && e matches Error::RootFolderExistent(p) && p@
                                    == path@ + "/"@ + base
                            } else {
                                r matches Ok(p) && p matches RunPlan::Build { actions }
                                    && actions_view(actions@) == seq![
                                    (ActionV::CreateDir { path: seq![base] }),
                                ] + template_plan(t, seq![base])
                            }
                        },
                    },
                },
            },
    {
        match self.command {
            Commands::Build { path, template, name } => self.build(
                path,
                template,
                name,
                path_present,
                dest_present,
            ),
            Commands::List => Ok(RunPlan::List { names: self.list() }),
            Commands::Info { template } => self.info(template),
        }
    }

    /// The build decision: resolve the template, demand an existing
    /// destination and a fresh root folder, and plan the root folder's
    /// creation followed by the template's own plan inside it.
    fn build(
        &self,
        path: &String,
        template: &Option<String>,
        name: &Option<String>,
        path_present: bool,
        dest_present: bool,
    ) -> (r: Result<RunPlan, Error>)
        ensures
            match resolved_id(*template, self.config@.favorite) {
                None => r matches Err(e) && e matches Error::TemplateNotFound(n) && n@
                    == Seq::<char>::empty(),
                Some(id) => match lookup_template(self.config@.templates, id) {
                    None => r matches Err(e) && e matches Error::TemplateNotFound(n) && n@ == id,
                    Some(t) => {
                        let base = match *name {
                            Some(nm) => nm@,
                            None => id,
                        };
                        if !path_present {
                            r matches Err(e) && e matches Error::PathNotExistent(p) && p@ == path@
                        } else if dest_present {
                            r matches Err(e) && e matches Error::RootFolderExistent(p) && p@
                                == path@ + "/"@ + base
                        } else {
                            r matches Ok(p) && p matches RunPlan::Build { actions }
                                && actions_view(actions@) == seq![
                                (ActionV::CreateDir { path: seq![base] }),
                            ] + template_plan(t, seq![base])
                        }
                    },
                },
            },
    {
        let id: &String = match template {
            Some(t) => t,
            None => match &self.config.favorite {
                Some(f) => f,
                None => {
                    return Err(Error::TemplateNotFound(String::new()));
                },
            },
        };
        let t: &Template = match self.config.template_by_name(id.as_str()) {
            Some(t) => t,
            None => {
                return Err(Error::TemplateNotFound(id.clone()));
            },
        };
        if !path_present {
            return Err(Error::PathNotExistent(path.clone()));
        }
        let base: &String = match name {
            Some(nm) => nm,
            None => id,
        };
        if dest_present {
            let joined = path.clone().concat("/").concat(base.as_str());
            return Err(Error::RootFolderExistent(joined));
        }
        let mut dest: Vec<String> = Vec::new();
        dest.push(base.clone());
        proof {
            assert(lines_view(dest@) =~= seq![base@]);
        }
        let mut dir_path: Vec<String> = Vec::new();
        dir_path.push(base.clone());
        proof {
            assert(lines_view(dir_path@) =~= seq![base@]);
        }
        let mut actions: Vec<Action> = Vec::new();
        actions.push(Action::CreateDir { path: dir_path });
        let mut plan = t.build(&dest);
        let ghost head = actions@;
        let ghost planv = plan@;
        actions.append(&mut plan);
        proof {
            assert(actions_view(actions@) =~= actions_view(head) + actions_view(planv));
            assert(actions_view(head) =~= seq![(ActionV::CreateDir { path: seq![base@] })]);
        }
        Ok(RunPlan::Build { actions })
    }

    /// The name of every template, in registry order.
    fn list(&self) -> (r: Vec<String>)
        ensures
            lines_view(r@) == template_names(self.config@.templates),
    {
        let n = self.config.templates.len();
        let mut names: Vec<String> = Vec::new();
        let mut i: usize = 0;
        while i < n
            invariant
                i <= n,
                n == self.config.templates.len(),
                names@.len() == i,
                forall|t: int|
                    0 <= t < i ==> (#[trigger] names@[t])@ == self.config@.templates[t].name,
            decreases n - i,
        {
            names.push(self.config.templates[i].name.clone());
            i += 1;
        }
        proof {
            assert(lines_view(names@) =~= template_names(self.config@.templates));
        }
        names
    }

    /// The tree diagram of the named template.
    fn info(&self, template: &String) -> (r: Result<RunPlan, Error>)
        ensures
            match lookup_template(self.config@.templates, template@) {
                None => r matches Err(e) && e matches Error::TemplateNotFound(n) && n@
                    == template@,
                Some(t) => r matches Ok(p) && p matches RunPlan::Info { lines } && lines_view(
                    lines@,
                ) == template_lines(t),
            },
    {
        match self.config.template_by_name(template.as_str()) {
            None => Err(Error::TemplateNotFound(template.clone())),
            Some(t) => Ok(RunPlan::Info { lines: t.print() }),
        }
    }
}

} // verus!
