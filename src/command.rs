use vstd::prelude::*;
use vstd::string::StringExecFns;
use crate::bookmark::{BookmarkModel, Config, first_match, has_name, removed_first};
use crate::listing::{listing, strings_of};

verus! {

/// One operation of the command line.
pub enum Command {
    Add { name: String, url: String },
    Remove { name: String },
    List,
    Open { name: String },
}

/// One parsed invocation.
pub struct Cli {
    pub command: Command,
}

/// What one invocation asks of the world outside the library.
pub struct Outcome {
    /// The store changed and is to be written back whole.
    pub save: bool,
    /// Lines for standard output, in order.
    pub lines: Vec<String>,
    /// A URL for the platform's URL opener, which is started and not waited for.
    pub launch: Option<String>,
}

/// The line printed when no bookmark has the name asked for.
pub open spec fn not_found_line(name: Seq<char>) -> Seq<char> {
    "could not find \""@ + name + "\""@
}

/// The message for a name that no bookmark has.
pub fn not_found_message(name: &String) -> (r: String)
    ensures
        r@ == not_found_line(name@),
{
    let mut m = String::from_str("could not find \"");
    m.append(name.as_str());
    m.append("\"");
    m
}

impl Cli {
    /// Applies the command to the store and says what is left to do:
    /// whether to save, what to print, what to open.
    pub fn run(self, cfg: &mut Config) -> (r: Outcome)
        ensures
            match self.command {
                Command::Add { name, url } => {
                    &&& final(cfg)@ == old(cfg)@.push(BookmarkModel { name: name@, url: url@ })
                    &&& r.save
                    &&& r.lines@.len() == 0
                    &&& r.launch is None
                },
                Command::List => {
                    &&& final(cfg)@ == old(cfg)@
                    &&& !r.save
                    &&& strings_of(r.lines@) == listing(old(cfg)@)
                    &&& r.launch is None
                },
                Command::Open { name } => {
                    &&& final(cfg)@ == old(cfg)@
                    &&& !r.save
                    &&& if has_name(old(cfg)@, name@) {
                        &&& r.lines@.len() == 0
                        &&& r.launch matches Some(u)
                        &&& u@ == old(cfg)@[first_match(old(cfg)@, name@)].url
                    } else {
                        &&& strings_of(r.lines@) == seq![not_found_line(name@)]
                        &&& r.launch is None
                    }
                },
                Command::Remove { name } => {
                    &&& final(cfg)@ == removed_first(old(cfg)@, name@)
                    &&& r.save == has_name(old(cfg)@, name@)
                    &&& r.lines@.len() == 0
                    &&& r.launch is None
                },
            },
    {
        match self.command {
            Command::Add { name, url } => {
                cfg.add(name, url);
                Outcome { save: true, lines: Vec::new(), launch: None }
            },
            Command::List => {
                let lines = cfg.sorted_names();
                Outcome { save: false, lines, launch: None }
            },
            Command::Open { name } => {
                match cfg.url_of(&name) {
                    Some(u) => Outcome { save: false, lines: Vec::new(), launch: Some(u) },
                    None => {
                        let mut lines: Vec<String> = Vec::new();
                        lines.push(not_found_message(&name));
                        assert(strings_of(lines@) =~= seq![not_found_line(name@)]);
                        Outcome { save: false, lines, launch: None }
                    },
                }
            },
            Command::Remove { name } => {
                let removed = cfg.remove(&name);
                Outcome { save: removed, lines: Vec::new(), launch: None }
            },
        }
    }
}

} // verus!
