//! Planning Debian maintainer script runs (`preinst`, `postinst`, `prerm`,
//! `postrm`): the script's path, its arguments and the environment it runs
//! with, and how an exit status becomes an outcome.
//!
//! dpkg runs the scripts in a strict order around the payload:
//!
//! ```text
//! install:  preinst  →  (unpack)  →  postinst
//! remove:   prerm    →  (remove)  →  postrm
//! ```
//!
//! Spawning the script (sandboxed or not) is the caller's part; this module
//! decides everything the spawn is handed.

use vstd::prelude::*;
use crate::fields::{map_set, set_str, str_pairs, Pairs};
use crate::paths::{file_name, file_name_of, join_path, path_join};
use crate::text::{own, push_str};

verus! {

/// Errors that can occur while planning or running a maintainer script.
#[derive(Debug)]
pub enum ScriptError {
    /// The requested script (first field) does not exist in the control
    /// directory (second field).
    ScriptNotFound(String, String),
    /// The script could not be spawned.
    SpawnFailed(String),
    /// The script was killed by a signal (no exit code available).
    Signaled,
    /// The sandbox layer rejected the request.
    Sandbox(String),
}

impl ScriptError {
    /// Human-readable description of the error.
    pub fn to_string(&self) -> (r: String)
        ensures
            r@ == script_error_text(*self),
    {
        match self {
            ScriptError::ScriptNotFound(s, d) => {
                let mut out = own("maintainer script '");
                push_str(&mut out, s.as_str());
                push_str(&mut out, "' not found in ");
                push_str(&mut out, d.as_str());
                out
            },
            ScriptError::SpawnFailed(m) => {
                let mut out = own("failed to spawn maintainer script: ");
                push_str(&mut out, m.as_str());
                out
            },
            ScriptError::Signaled => own("maintainer script terminated by signal"),
            ScriptError::Sandbox(m) => {
                let mut out = own("sandbox error: ");
                push_str(&mut out, m.as_str());
                out
            },
        }
    }
}

/// The message of each error.
pub open spec fn script_error_text(e: ScriptError) -> Seq<char> {
    match e {
        ScriptError::ScriptNotFound(s, d) => "maintainer script '"@ + s@ + "' not found in "@ + d@,
        ScriptError::SpawnFailed(m) => "failed to spawn maintainer script: "@ + m@,
        ScriptError::Signaled => "maintainer script terminated by signal"@,
        ScriptError::Sandbox(m) => "sandbox error: "@ + m@,
    }
}

/// A package identity used to populate `DPKG_MAINTSCRIPT_*` variables.
#[derive(Debug, Clone, PartialEq, Eq)]
pub struct PackageRef {
    /// Package name (`Package:`).
    pub name: String,
    /// Full version string (`Version:`).
    pub version: String,
    /// Architecture (`Architecture:`).
    pub arch: String,
}

/// The outcome of running a maintainer script.
#[derive(Debug, Clone, Copy, PartialEq, Eq, Structural)]
pub struct ScriptOutcome {
    /// Raw process exit code (0 = success, non-zero = abort/rollback signal).
    pub exit_code: i32,
}

impl ScriptOutcome {
    /// `true` when the script exited `0`.
    pub fn success(&self) -> (r: bool)
        ensures
            r == (self.exit_code == 0),
    {
        self.exit_code == 0
    }
}

/// Maps the exit code of a finished script (none when a signal ended it)
/// to its outcome.
pub fn exit_to_outcome(code: Option<i32>) -> (r: Result<ScriptOutcome, ScriptError>)
    ensures
        match code {
            Some(c) => r matches Ok(o) && o.exit_code == c,
            None => r matches Err(ScriptError::Signaled),
        },
{
    match code {
        Some(c) => Ok(ScriptOutcome { exit_code: c }),
        None => Err(ScriptError::Signaled),
    }
}

// ── Runner configuration ──────────────────────────────────────────────────────

/// Configuration for a [`ScriptRunner`].
#[derive(Debug, Clone)]
pub struct RunnerConfig {
    /// Directory holding the maintainer scripts (e.g. `DEBIAN/` or
    /// `/var/lib/dpkg/info`).
    pub control_dir: String,
    /// Whether to run scripts inside the Linux sandbox.
    pub use_sandbox: bool,
    /// Value for `DEBIAN_FRONTEND`; `noninteractive` when `None`.
    pub debian_frontend: Option<String>,
    /// Extra environment variables merged into the script environment.
    pub extra_env: Vec<(String, String)>,
    /// Installation root (`DPKG_ROOT`); `/` by default.
    pub root: String,
}

impl Default for RunnerConfig {
    /// Control directory `.`, sandboxed, default frontend, no extra
    /// variables, root `/`.
    fn default() -> (r: RunnerConfig)
        ensures
            r.control_dir@ == "."@,
            r.use_sandbox,
            r.debian_frontend is None,
            r.extra_env@.len() == 0,
            r.root@ == "/"@,
    {
        RunnerConfig {
            control_dir: own("."),
            use_sandbox: true,
            debian_frontend: None,
            extra_env: Vec::new(),
            root: own("/"),
        }
    }
}

/// A ready-to-execute description of a maintainer script invocation.
#[derive(Debug, Clone, PartialEq, Eq)]
pub struct ScriptPlan {
    /// Path of the script to execute.
    pub script_path: String,
    /// Arguments passed to the script (the dpkg action, e.g. `configure`).
    pub args: Vec<String>,
    /// The full environment the script will run with.
    pub env: Vec<(String, String)>,
}

impl ScriptPlan {
    /// The script file name (e.g. `postinst`).
    pub fn script_name(&self) -> (r: Option<String>)
        ensures
            match file_name(self.script_path@) {
                Some(n) => r matches Some(x) && x@ == n,
                None => r is None,
            },
    {
        file_name_of(self.script_path.as_str())
    }
}

// ── The environment ───────────────────────────────────────────────────────────

/// Every pair of `extra` set into `env` in order, later pairs winning.
pub open spec fn set_all(env: Pairs, extra: Pairs) -> Pairs
    decreases extra.len(),
{
    if extra.len() == 0 {
        env
    } else {
        map_set(set_all(env, extra.drop_last()), extra.last().0, extra.last().1)
    }
}

/// The variables every script gets before the configured extras.
pub open spec fn base_env(c: RunnerConfig, p: PackageRef) -> Pairs {
    let e0 = Seq::<(Seq<char>, Seq<char>)>::empty();
    let e1 = map_set(e0, "PATH"@, "/usr/sbin:/usr/bin:/sbin:/bin"@);
    let e2 = map_set(e1, "DEBIAN_FRONTEND"@, match c.debian_frontend {
        Some(f) => f@,
        None => "noninteractive"@,
    });
    let e3 = map_set(e2, "DPKG_MAINTSCRIPT_PACKAGE"@, p.name@);
    let e4 = map_set(e3, "DPKG_MAINTSCRIPT_VERSION"@, p.version@);
    let e5 = map_set(e4, "DPKG_MAINTSCRIPT_ARCH"@, p.arch@);
    let e6 = map_set(e5, "DPKG_ROOT"@, c.root@);
    map_set(e6, "DPKG_ADMINDIR"@, path_join(c.root@, "var/lib/dpkg"@))
}

/// The script environment: the base variables, then the configured extras,
/// then `extra`, each later setting replacing an earlier one.
pub open spec fn env_spec(c: RunnerConfig, p: PackageRef, extra: Pairs) -> Pairs {
    set_all(set_all(base_env(c, p), str_pairs(c.extra_env@)), extra)
}

fn set_all_exec(env: &mut Vec<(String, String)>, extra: &Vec<(String, String)>)
    ensures
        str_pairs(final(env)@) == set_all(str_pairs(old(env)@), str_pairs(extra@)),
{
    let ghost start = str_pairs(env@);
    let ghost xs = str_pairs(extra@);
    let mut i: usize = 0;
    while i < extra.len()
        invariant
            i <= extra@.len(),
            xs == str_pairs(extra@),
            str_pairs(env@) == set_all(start, xs.take(i as int)),
        decreases extra.len() - i,
    {
        proof {
            assert(xs.take(i + 1).drop_last() =~= xs.take(i as int));
        }
        let k = extra[i].0.clone();
        let v = extra[i].1.clone();
        set_str(env, k, v);
        i = i + 1;
    }
    proof {
        assert(xs.take(xs.len() as int) =~= xs);
    }
}

/// Runs Debian maintainer scripts with the right environment.
#[derive(Debug, Clone)]
pub struct ScriptRunner {
    config: RunnerConfig,
    package: PackageRef,
}

impl ScriptRunner {
    /// The configuration in force.
    pub closed spec fn cfg(&self) -> RunnerConfig {
        self.config
    }

    /// The package whose scripts run.
    pub closed spec fn pkg(&self) -> PackageRef {
        self.package
    }

    /// A runner with the default (sandboxed) configuration.
    pub fn new(control_dir: String, package: PackageRef) -> (r: ScriptRunner)
        ensures
            r.cfg().control_dir == control_dir,
            r.cfg().use_sandbox,
            r.cfg().debian_frontend is None,
            r.cfg().extra_env@.len() == 0,
            r.cfg().root@ == "/"@,
            r.pkg() == package,
    {
        let d = RunnerConfig::default();
        ScriptRunner { config: RunnerConfig { control_dir, ..d }, package }
    }

    /// A runner that bypasses the sandbox: the script gets full access to the
    /// host file system and network.
    pub fn unrestricted(control_dir: String, package: PackageRef) -> (r: ScriptRunner)
        ensures
            r.cfg().control_dir == control_dir,
            !r.cfg().use_sandbox,
            r.cfg().debian_frontend is None,
            r.cfg().extra_env@.len() == 0,
            r.cfg().root@ == "/"@,
            r.pkg() == package,
    {
        let d = RunnerConfig::default();
        ScriptRunner { config: RunnerConfig { control_dir, use_sandbox: false, ..d }, package }
    }

    /// The same runner with `config` in place of its configuration.
    pub fn with_config(self, config: RunnerConfig) -> (r: ScriptRunner)
        ensures
            r.cfg() == config,
            r.pkg() == self.pkg(),
    {
        ScriptRunner { config, package: self.package }
    }

    /// Whether scripts run inside the sandbox.
    pub fn is_sandboxed(&self) -> (r: bool)
        ensures
            r == self.cfg().use_sandbox,
    {
        self.config.use_sandbox
    }

    /// The control directory scripts are looked up in.
    pub fn control_dir(&self) -> (r: &str)
        ensures
            r@ == self.cfg().control_dir@,
    {
        self.config.control_dir.as_str()
    }

    /// The environment a maintainer script runs with, each variable once.
    pub fn script_env(&self) -> (r: Vec<(String, String)>)
        ensures
            str_pairs(r@) == env_spec(self.cfg(), self.pkg(), Seq::empty()),
    {
        let none: Vec<(String, String)> = Vec::new();
        let r = self.env_map(&none);
        assert(str_pairs(none@) =~= Seq::<(Seq<char>, Seq<char>)>::empty());
        r
    }

    /// The environment with the pairs of `extra` set last.
    pub fn env_map(&self, extra: &Vec<(String, String)>) -> (r: Vec<(String, String)>)
        ensures
            str_pairs(r@) == env_spec(self.cfg(), self.pkg(), str_pairs(extra@)),
    {
        let mut env: Vec<(String, String)> = Vec::new();
        assert(str_pairs(env@) =~= Seq::<(Seq<char>, Seq<char>)>::empty());
        set_str(&mut env, own("PATH"), own("/usr/sbin:/usr/bin:/sbin:/bin"));
        let frontend = match &self.config.debian_frontend {
            Some(f) => f.clone(),
            None => own("noninteractive"),
        };
        set_str(&mut env, own("DEBIAN_FRONTEND"), frontend);
        set_str(&mut env, own("DPKG_MAINTSCRIPT_PACKAGE"), self.package.name.clone());
        set_str(&mut env, own("DPKG_MAINTSCRIPT_VERSION"), self.package.version.clone());
        set_str(&mut env, own("DPKG_MAINTSCRIPT_ARCH"), self.package.arch.clone());
        set_str(&mut env, own("DPKG_ROOT"), self.config.root.clone());
        let admin = join_path(self.config.root.as_str(), "var/lib/dpkg");
        set_str(&mut env, own("DPKG_ADMINDIR"), admin);
        set_all_exec(&mut env, &self.config.extra_env);
        set_all_exec(&mut env, extra);
        env
    }

    /// Where `script` (e.g. `postinst`) is looked up: the control directory
    /// joined with it.
    pub fn script_path(&self, script: &str) -> (r: String)
        ensures
            r@ == path_join(self.cfg().control_dir@, script@),
    {
        join_path(self.config.control_dir.as_str(), script)
    }

    /// The plan for `script` invoked with `action`, given whether the file at
    /// [`ScriptRunner::script_path`] exists: `ScriptNotFound` when it does
    /// not, else that path, the one argument `action` and the environment.
    pub fn plan(&self, script: &str, action: &str, script_exists: bool) -> (r: Result<ScriptPlan, ScriptError>)
        ensures
            !script_exists ==> (r matches Err(ScriptError::ScriptNotFound(s, d))
                && s@ == script@ && d@ == self.cfg().control_dir@),
            script_exists ==> (r matches Ok(p)
                && p.script_path@ == path_join(self.cfg().control_dir@, script@)
                && p.args@.len() == 1 && p.args@[0]@ == action@
                && str_pairs(p.env@) == env_spec(self.cfg(), self.pkg(), Seq::empty())),
    {
        let script_path = self.script_path(script);
        if !script_exists {
            return Err(ScriptError::ScriptNotFound(own(script), self.config.control_dir.clone()));
        }
        let env = self.script_env();
        let mut args: Vec<String> = Vec::new();
        args.push(own(action));
        Ok(ScriptPlan { script_path, args, env })
    }

    /// The error of a spawn of `cmd` that failed: `ScriptNotFound` when the
    /// file was not found, else `SpawnFailed` with the message.
    pub fn spawn_failure(&self, cmd: &str, not_found: bool, message: &str) -> (r: ScriptError)
        ensures
            not_found ==> (r matches ScriptError::ScriptNotFound(s, d) && s@ == cmd@
                && d@ == self.cfg().control_dir@),
            !not_found ==> (r matches ScriptError::SpawnFailed(m) && m@ == message@),
    {
        if not_found {
            ScriptError::ScriptNotFound(own(cmd), self.config.control_dir.clone())
        } else {
            ScriptError::SpawnFailed(own(message))
        }
    }
}

} // verus!
