//! The configuration of one run.

use vstd::prelude::*;

verus! {

/// What a `Config` stands for.
pub struct ConfigView {
    pub verbose: bool,
    pub dry_run: bool,
    pub dir: Seq<char>,
}

/// The root directory to scan, whether each deletion is reported, and
/// whether the run only reports what it would delete.
#[derive(Debug)]
pub struct Config {
    pub verbose: bool,
    pub dry_run: bool,
    pub dir: String,
}

impl View for Config {
    type V = ConfigView;

    open spec fn view(&self) -> ConfigView {
        ConfigView { verbose: self.verbose, dry_run: self.dry_run, dir: self.dir@ }
    }
}

impl Clone for Config {
    fn clone(&self) -> (copy: Config)
        ensures
            copy@ == self@,
    {
        Config { verbose: self.verbose, dry_run: self.dry_run, dir: self.dir.clone() }
    }
}

/// The configuration of a run over `dir` with the given flags.
pub fn init_config(dir: String, verbose: bool, dry_run: bool) -> (conf: Config)
    ensures
        conf@ == (ConfigView { verbose, dry_run, dir: dir@ }),
{
    Config { verbose, dry_run, dir }
}

} // verus!
