//! Settings: where modules live, the scratch area, the tmpfs source name,
//! the log file, extra partitions and unmount tracking.

use vstd::prelude::*;

verus! {

#[derive(Debug)]
pub struct Config {
    pub moduledir: String,
    pub tempdir: Option<String>,
    pub mountsource: String,
    pub logfile: String,
    pub verbose: bool,
    pub partitions: Vec<String>,
    /// Register installed mounts as ones to unmount later.
    pub umount: bool,
}

pub open spec fn default_moduledir_spec() -> Seq<char> {
    "/data/adb/modules/"@
}

pub open spec fn default_mountsource_spec() -> Seq<char> {
    "MaGIcMounT"@
}

pub open spec fn default_logfile_spec() -> Seq<char> {
    "/data/adb/magic_mount/mm.log"@
}

pub fn default_moduledir() -> (r: String)
    ensures
        r@ == default_moduledir_spec(),
{
    String::from_str("/data/adb/modules/")
}

pub fn default_mountsource() -> (r: String)
    ensures
        r@ == default_mountsource_spec(),
{
    String::from_str("MaGIcMounT")
}

pub fn default_logfile() -> (r: String)
    ensures
        r@ == default_logfile_spec(),
{
    String::from_str("/data/adb/magic_mount/mm.log")
}

impl Default for Config {
    fn default() -> (r: Config)
        ensures
            r.moduledir@ == default_moduledir_spec(),
            r.tempdir is None,
            r.mountsource@ == default_mountsource_spec(),
            r.logfile@ == default_logfile_spec(),
            !r.verbose,
            r.partitions@.len() == 0,
            !r.umount,
    {
        Config {
            moduledir: default_moduledir(),
            tempdir: None,
            mountsource: default_mountsource(),
            logfile: default_logfile(),
            verbose: false,
            partitions: Vec::new(),
            umount: false,
        }
    }
}

impl Config {
    /// Lays command-line values over the loaded settings: each given value
    /// replaces the setting, `verbose` can only switch logging on, and a
    /// non-empty partition list replaces the configured one.
    pub fn merge_with_cli(
        &mut self,
        moduledir: Option<String>,
        tempdir: Option<String>,
        mountsource: Option<String>,
        logfile: Option<String>,
        verbose: bool,
        partitions: Vec<String>,
    )
        ensures
            final(self).moduledir == (match moduledir {
                Some(d) => d,
                None => old(self).moduledir,
            }),
            final(self).tempdir == (match tempdir {
                Some(d) => Some(d),
                None => old(self).tempdir,
            }),
            final(self).mountsource == (match mountsource {
                Some(s) => s,
                None => old(self).mountsource,
            }),
            final(self).logfile == (match logfile {
                Some(l) => l,
                None => old(self).logfile,
            }),
            final(self).verbose == (old(self).verbose || verbose),
            final(self).partitions == (if partitions@.len() > 0 {
                partitions
            } else {
                old(self).partitions
            }),
            final(self).umount == old(self).umount,
    {
        if let Some(dir) = moduledir {
            self.moduledir = dir;
        }
        if tempdir.is_some() {
            self.tempdir = tempdir;
        }
        if let Some(source) = mountsource {
            self.mountsource = source;
        }
        if let Some(log) = logfile {
            self.logfile = log;
        }
        if verbose {
            self.verbose = true;
        }
        if partitions.len() > 0 {
            self.partitions = partitions;
        }
    }
}

} // verus!
