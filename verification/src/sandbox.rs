//! Sandboxes for maintainer scripts: the isolation a run asks for (network,
//! IPC, bind mounts, seccomp) is decided here; the system calls that set it
//! up are made by the caller.

pub mod seccomp;
pub mod mount;

use vstd::prelude::*;
use crate::text::{own, push_str};
use crate::numeric::{dec, u64_to_dec};

verus! {

/// Errors of creating or running a sandbox.
#[derive(Debug)]
pub enum SandboxError {
    /// The platform has no namespace isolation.
    UnsupportedPlatform,
    /// A system call of the namespace setup failed.
    NamespaceSetup(String),
    /// The child process could not be started.
    SpawnFailed(String),
    /// A bind mount could not be made.
    BindMountFailed { src: String, dst: String, reason: String },
}

/// What a sandboxed process may reach.
#[derive(Debug, Clone)]
pub struct SandboxConfig {
    /// Network access; without it the process gets its own network
    /// namespace (loopback only).
    pub allow_network: bool,
    /// System V IPC access.
    pub allow_ipc: bool,
    /// Extra bind mounts, `(host path, path inside)`.
    pub extra_bind_mounts: Vec<(String, String)>,
}

impl SandboxConfig {
    /// The restrictive profile of maintainer scripts: no network, no IPC.
    pub fn maintainer_script_profile() -> (r: SandboxConfig)
        ensures
            !r.allow_network,
            !r.allow_ipc,
            r.extra_bind_mounts@.len() == 0,
    {
        SandboxConfig { allow_network: false, allow_ipc: false, extra_bind_mounts: Vec::new() }
    }

    /// No isolation at all: network and IPC allowed.
    pub fn unrestricted() -> (r: SandboxConfig)
        ensures
            r.allow_network,
            r.allow_ipc,
            r.extra_bind_mounts@.len() == 0,
    {
        SandboxConfig { allow_network: true, allow_ipc: true, extra_bind_mounts: Vec::new() }
    }

    /// Whether isolation is skipped: everything allowed and nothing to mount.
    pub fn is_unrestricted(&self) -> (r: bool)
        ensures
            r == (self.allow_network && self.allow_ipc && self.extra_bind_mounts@.len() == 0),
    {
        self.allow_network && self.allow_ipc && self.extra_bind_mounts.len() == 0
    }

    /// The `unshare(2)` flags of an isolated run: new user, PID and mount
    /// namespaces, plus network and IPC namespaces unless allowed.
    pub fn unshare_flags(&self) -> (r: i32)
        ensures
            r == clone_flags(self.allow_network, self.allow_ipc),
    {
        let mut flags: i32 = CLONE_NEWUSER + CLONE_NEWPID + CLONE_NEWNS;
        if !self.allow_network {
            flags = flags + CLONE_NEWNET;
        }
        if !self.allow_ipc {
            flags = flags + CLONE_NEWIPC;
        }
        flags
    }
}

/// `CLONE_NEWUSER`.
pub const CLONE_NEWUSER: i32 = 0x1000_0000;
/// `CLONE_NEWPID`.
pub const CLONE_NEWPID: i32 = 0x2000_0000;
/// `CLONE_NEWNS`.
pub const CLONE_NEWNS: i32 = 0x0002_0000;
/// `CLONE_NEWNET`.
pub const CLONE_NEWNET: i32 = 0x4000_0000;
/// `CLONE_NEWIPC`.
pub const CLONE_NEWIPC: i32 = 0x0800_0000;

/// The namespace flags (distinct bits, so their sum is their union).
pub open spec fn clone_flags(network: bool, ipc: bool) -> i32 {
    (0x1000_0000 + 0x2000_0000 + 0x0002_0000 + (if network { 0 } else { 0x4000_0000int }) + (if ipc {
        0
    } else {
        0x0800_0000int
    })) as i32
}

/// A line of `uid_map` / `gid_map` mapping root inside to `id` outside.
pub open spec fn id_map_text(id: u32) -> Seq<char> {
    "0 "@ + dec(id as nat) + " 1\n"@
}

/// The `uid_map` / `gid_map` line making `id` root inside the sandbox.
pub fn id_map_line(id: u32) -> (r: String)
    ensures
        r@ == id_map_text(id),
{
    let mut s = own("0 ");
    let d = u64_to_dec(id as u64);
    push_str(&mut s, d.as_str());
    push_str(&mut s, " 1\n");
    s
}

impl Default for SandboxConfig {
    /// The maintainer-script profile.
    fn default() -> (r: SandboxConfig)
        ensures
            !r.allow_network,
            !r.allow_ipc,
            r.extra_bind_mounts@.len() == 0,
    {
        SandboxConfig::maintainer_script_profile()
    }
}

/// Builds a [`Sandbox`].
#[derive(Debug)]
pub struct SandboxBuilder {
    config: Option<SandboxConfig>,
}

impl SandboxBuilder {
    /// The configuration chosen so far.
    pub closed spec fn chosen(&self) -> Option<SandboxConfig> {
        self.config
    }

    /// A builder with no configuration chosen.
    pub fn new() -> (r: SandboxBuilder)
        ensures
            r.chosen() is None,
    {
        SandboxBuilder { config: None }
    }

    /// Chooses the configuration.
    pub fn config(self, config: SandboxConfig) -> (r: SandboxBuilder)
        ensures
            r.chosen() == Some(config),
    {
        SandboxBuilder { config: Some(config) }
    }

    /// The sandbox: with the chosen configuration, or the default one.
    pub fn build(self) -> (r: Sandbox)
        ensures
            match self.chosen() {
                Some(c) => r.cfg() == c,
                None => !r.cfg().allow_network && !r.cfg().allow_ipc && r.cfg().extra_bind_mounts@.len()
                    == 0,
            },
    {
        match self.config {
            Some(c) => Sandbox { config: c },
            None => Sandbox { config: SandboxConfig::default() },
        }
    }
}

impl Default for SandboxBuilder {
    fn default() -> (r: SandboxBuilder)
        ensures
            r.chosen() is None,
    {
        SandboxBuilder::new()
    }
}

/// A configured sandbox.
#[derive(Debug)]
pub struct Sandbox {
    config: SandboxConfig,
}

impl Sandbox {
    /// The configuration of this sandbox.
    pub closed spec fn cfg(&self) -> SandboxConfig {
        self.config
    }

    /// A sandbox with the default (maintainer-script) configuration.
    pub fn new() -> (r: Sandbox)
        ensures
            !r.cfg().allow_network,
            !r.cfg().allow_ipc,
            r.cfg().extra_bind_mounts@.len() == 0,
    {
        SandboxBuilder::new().build()
    }

    /// The configuration in force.
    pub fn config(&self) -> (r: &SandboxConfig)
        ensures
            *r == self.cfg(),
    {
        &self.config
    }
}

impl Default for Sandbox {
    fn default() -> (r: Sandbox)
        ensures
            !r.cfg().allow_network,
            !r.cfg().allow_ipc,
    {
        Sandbox::new()
    }
}

} // verus!
