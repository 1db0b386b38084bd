//! Seccomp allowlists as classic BPF programs.
//!
//! A profile lists the system calls a sandboxed process may make; the
//! program built from it checks the architecture, then each rule in turn,
//! and otherwise takes the profile's default action. Installing the program
//! (`prctl(2)`) is done by the caller.

use vstd::prelude::*;
use crate::text::{own, push_str};
use crate::numeric::{dec, u64_to_dec};

verus! {

/// What happens to a system call the profile does not allow.
#[derive(Debug, Clone, Copy, PartialEq, Eq, Structural)]
pub enum SeccompAction {
    /// Allow it (`SECCOMP_RET_ALLOW`).
    Allow,
    /// Fail it with this errno.
    Errno(u16),
    /// Kill the thread (`SECCOMP_RET_KILL_THREAD`).
    KillThread,
    /// Kill the process (`SECCOMP_RET_KILL_PROCESS`).
    KillProcess,
}

/// `SECCOMP_RET_ALLOW`.
pub const SECCOMP_RET_ALLOW: u32 = 0x7fff_0000;

/// The filter return value of an action.
pub open spec fn ret_value(a: SeccompAction) -> u32 {
    match a {
        SeccompAction::Allow => 0x7fff_0000,
        SeccompAction::Errno(e) => (0x0005_0000 + e) as u32,
        SeccompAction::KillThread => 0x0000_0000,
        SeccompAction::KillProcess => 0x8000_0000,
    }
}

/// How an action is written: `allow`, `errno(N)`, `kill-thread`,
/// `kill-process`.
pub open spec fn action_text(a: SeccompAction) -> Seq<char> {
    match a {
        SeccompAction::Allow => "allow"@,
        SeccompAction::Errno(e) => "errno("@ + dec(e as nat) + ")"@,
        SeccompAction::KillThread => "kill-thread"@,
        SeccompAction::KillProcess => "kill-process"@,
    }
}

impl SeccompAction {
    /// The value the filter returns for this action.
    pub fn to_ret(self) -> (r: u32)
        ensures
            r == ret_value(self),
    {
        match self {
            SeccompAction::Allow => SECCOMP_RET_ALLOW,
            SeccompAction::Errno(e) => 0x0005_0000 + e as u32,
            SeccompAction::KillThread => 0x0000_0000,
            SeccompAction::KillProcess => 0x8000_0000,
        }
    }

    /// The action's name.
    pub fn to_string(&self) -> (r: String)
        ensures
            r@ == action_text(*self),
    {
        match self {
            SeccompAction::Allow => own("allow"),
            SeccompAction::Errno(e) => {
                let mut s = own("errno(");
                let d = u64_to_dec(*e as u64);
                push_str(&mut s, d.as_str());
                push_str(&mut s, ")");
                s
            },
            SeccompAction::KillThread => own("kill-thread"),
            SeccompAction::KillProcess => own("kill-process"),
        }
    }
}

/// One rule of a profile.
#[derive(Debug, Clone, Copy, PartialEq, Eq, Structural)]
pub enum SeccompRule {
    /// Allow this system call number.
    AllowSyscall(i64),
    /// Allow this system call when argument `arg` (0 to 5) equals `value`.
    AllowSyscallIfArg(i64, u8, u64),
}

/// A seccomp allowlist.
#[derive(Debug, Clone)]
pub struct SeccompProfile {
    /// Whether a filter is installed at all.
    pub enabled: bool,
    /// Action for system calls no rule allows.
    pub action: SeccompAction,
    /// Rules, tried in order.
    pub rules: Vec<SeccompRule>,
}

/// The allowlist of maintainer scripts (x86-64 system call numbers): file
/// and process management, memory, time, signals and local sockets;
/// `socket(2)` only for `AF_UNIX` (1) and `AF_NETLINK` (16).
pub open spec fn maintainer_rules() -> Seq<SeccompRule> {
    Seq::empty()
        .push(SeccompRule::AllowSyscall(0))
        .push(SeccompRule::AllowSyscall(1))
        .push(SeccompRule::AllowSyscall(19))
        .push(SeccompRule::AllowSyscall(20))
        .push(SeccompRule::AllowSyscall(17))
        .push(SeccompRule::AllowSyscall(18))
        .push(SeccompRule::AllowSyscall(2))
        .push(SeccompRule::AllowSyscall(257))
        .push(SeccompRule::AllowSyscall(3))
        .push(SeccompRule::AllowSyscall(436))
        .push(SeccompRule::AllowSyscall(8))
        .push(SeccompRule::AllowSyscall(77))
        .push(SeccompRule::AllowSyscall(76))
        .push(SeccompRule::AllowSyscall(5))
        .push(SeccompRule::AllowSyscall(262))
        .push(SeccompRule::AllowSyscall(6))
        .push(SeccompRule::AllowSyscall(4))
        .push(SeccompRule::AllowSyscall(332))
        .push(SeccompRule::AllowSyscall(21))
        .push(SeccompRule::AllowSyscall(269))
        .push(SeccompRule::AllowSyscall(439))
        .push(SeccompRule::AllowSyscall(32))
        .push(SeccompRule::AllowSyscall(33))
        .push(SeccompRule::AllowSyscall(292))
        .push(SeccompRule::AllowSyscall(72))
        .push(SeccompRule::AllowSyscall(16))
        .push(SeccompRule::AllowSyscall(22))
        .push(SeccompRule::AllowSyscall(293))
        .push(SeccompRule::AllowSyscall(7))
        .push(SeccompRule::AllowSyscall(271))
        .push(SeccompRule::AllowSyscall(23))
        .push(SeccompRule::AllowSyscall(270))
        .push(SeccompRule::AllowSyscall(39))
        .push(SeccompRule::AllowSyscall(110))
        .push(SeccompRule::AllowSyscall(186))
        .push(SeccompRule::AllowSyscall(102))
        .push(SeccompRule::AllowSyscall(107))
        .push(SeccompRule::AllowSyscall(104))
        .push(SeccompRule::AllowSyscall(108))
        .push(SeccompRule::AllowSyscall(115))
        .push(SeccompRule::AllowSyscall(79))
        .push(SeccompRule::AllowSyscall(80))
        .push(SeccompRule::AllowSyscall(81))
        .push(SeccompRule::AllowSyscall(83))
        .push(SeccompRule::AllowSyscall(258))
        .push(SeccompRule::AllowSyscall(84))
        .push(SeccompRule::AllowSyscall(87))
        .push(SeccompRule::AllowSyscall(263))
        .push(SeccompRule::AllowSyscall(82))
        .push(SeccompRule::AllowSyscall(264))
        .push(SeccompRule::AllowSyscall(316))
        .push(SeccompRule::AllowSyscall(88))
        .push(SeccompRule::AllowSyscall(266))
        .push(SeccompRule::AllowSyscall(86))
        .push(SeccompRule::AllowSyscall(265))
        .push(SeccompRule::AllowSyscall(89))
        .push(SeccompRule::AllowSyscall(267))
        .push(SeccompRule::AllowSyscall(90))
        .push(SeccompRule::AllowSyscall(91))
        .push(SeccompRule::AllowSyscall(268))
        .push(SeccompRule::AllowSyscall(92))
        .push(SeccompRule::AllowSyscall(93))
        .push(SeccompRule::AllowSyscall(260))
        .push(SeccompRule::AllowSyscall(94))
        .push(SeccompRule::AllowSyscall(95))
        .push(SeccompRule::AllowSyscall(132))
        .push(SeccompRule::AllowSyscall(235))
        .push(SeccompRule::AllowSyscall(280))
        .push(SeccompRule::AllowSyscall(133))
        .push(SeccompRule::AllowSyscall(259))
        .push(SeccompRule::AllowSyscall(165))
        .push(SeccompRule::AllowSyscall(166))
        .push(SeccompRule::AllowSyscall(57))
        .push(SeccompRule::AllowSyscall(58))
        .push(SeccompRule::AllowSyscall(56))
        .push(SeccompRule::AllowSyscall(435))
        .push(SeccompRule::AllowSyscall(59))
        .push(SeccompRule::AllowSyscall(322))
        .push(SeccompRule::AllowSyscall(61))
        .push(SeccompRule::AllowSyscall(247))
        .push(SeccompRule::AllowSyscall(60))
        .push(SeccompRule::AllowSyscall(231))
        .push(SeccompRule::AllowSyscall(62))
        .push(SeccompRule::AllowSyscall(234))
        .push(SeccompRule::AllowSyscall(200))
        .push(SeccompRule::AllowSyscall(13))
        .push(SeccompRule::AllowSyscall(14))
        .push(SeccompRule::AllowSyscall(15))
        .push(SeccompRule::AllowSyscall(131))
        .push(SeccompRule::AllowSyscall(34))
        .push(SeccompRule::AllowSyscall(35))
        .push(SeccompRule::AllowSyscall(230))
        .push(SeccompRule::AllowSyscall(228))
        .push(SeccompRule::AllowSyscall(229))
        .push(SeccompRule::AllowSyscall(96))
        .push(SeccompRule::AllowSyscall(201))
        .push(SeccompRule::AllowSyscall(97))
        .push(SeccompRule::AllowSyscall(160))
        .push(SeccompRule::AllowSyscall(302))
        .push(SeccompRule::AllowSyscall(157))
        .push(SeccompRule::AllowSyscall(135))
        .push(SeccompRule::AllowSyscall(158))
        .push(SeccompRule::AllowSyscall(218))
        .push(SeccompRule::AllowSyscall(273))
        .push(SeccompRule::AllowSyscall(274))
        .push(SeccompRule::AllowSyscall(202))
        .push(SeccompRule::AllowSyscall(9))
        .push(SeccompRule::AllowSyscall(11))
        .push(SeccompRule::AllowSyscall(10))
        .push(SeccompRule::AllowSyscall(25))
        .push(SeccompRule::AllowSyscall(28))
        .push(SeccompRule::AllowSyscall(12))
        .push(SeccompRule::AllowSyscall(149))
        .push(SeccompRule::AllowSyscall(150))
        .push(SeccompRule::AllowSyscall(78))
        .push(SeccompRule::AllowSyscall(217))
        .push(SeccompRule::AllowSyscall(24))
        .push(SeccompRule::AllowSyscall(204))
        .push(SeccompRule::AllowSyscall(203))
        .push(SeccompRule::AllowSyscall(140))
        .push(SeccompRule::AllowSyscall(141))
        .push(SeccompRule::AllowSyscall(125))
        .push(SeccompRule::AllowSyscall(126))
        .push(SeccompRule::AllowSyscall(318))
        .push(SeccompRule::AllowSyscall(319))
        .push(SeccompRule::AllowSyscall(290))
        .push(SeccompRule::AllowSyscall(291))
        .push(SeccompRule::AllowSyscall(233))
        .push(SeccompRule::AllowSyscall(232))
        .push(SeccompRule::AllowSyscall(283))
        .push(SeccompRule::AllowSyscall(286))
        .push(SeccompRule::AllowSyscall(287))
        .push(SeccompRule::AllowSyscall(289))
        .push(SeccompRule::AllowSyscall(53))
        .push(SeccompRule::AllowSyscall(49))
        .push(SeccompRule::AllowSyscall(42))
        .push(SeccompRule::AllowSyscall(50))
        .push(SeccompRule::AllowSyscall(43))
        .push(SeccompRule::AllowSyscall(288))
        .push(SeccompRule::AllowSyscall(51))
        .push(SeccompRule::AllowSyscall(52))
        .push(SeccompRule::AllowSyscall(44))
        .push(SeccompRule::AllowSyscall(45))
        .push(SeccompRule::AllowSyscall(46))
        .push(SeccompRule::AllowSyscall(47))
        .push(SeccompRule::AllowSyscall(55))
        .push(SeccompRule::AllowSyscall(54))
        .push(SeccompRule::AllowSyscall(48))
        .push(SeccompRule::AllowSyscallIfArg(41, 0, 1))
        .push(SeccompRule::AllowSyscallIfArg(41, 0, 16))
}

impl SeccompProfile {
    /// A profile that installs no filter.
    pub fn disabled() -> (r: SeccompProfile)
        ensures
            !r.enabled,
            r.action == SeccompAction::Errno(1),
            r.rules@.len() == 0,
    {
        SeccompProfile { enabled: false, action: SeccompAction::Errno(1), rules: Vec::new() }
    }

    /// The restrictive profile of maintainer scripts: network sockets
    /// denied, local ones allowed; denied calls fail with `EPERM` (1).
    pub fn maintainer_script_profile() -> (r: SeccompProfile)
        ensures
            r.enabled,
            r.action == SeccompAction::Errno(1),
            r.rules@ == maintainer_rules(),
    {
        let rules = maintainer_rule_list();
        SeccompProfile { enabled: true, action: SeccompAction::Errno(1), rules }
    }
}

#[verifier::rlimit(100)]
fn maintainer_rule_list() -> (r: Vec<SeccompRule>)
    ensures
        r@ == maintainer_rules(),
{
    let mut rules: Vec<SeccompRule> = Vec::new();
    rules.push(SeccompRule::AllowSyscall(0));
    rules.push(SeccompRule::AllowSyscall(1));
    rules.push(SeccompRule::AllowSyscall(19));
    rules.push(SeccompRule::AllowSyscall(20));
    rules.push(SeccompRule::AllowSyscall(17));
    rules.push(SeccompRule::AllowSyscall(18));
    rules.push(SeccompRule::AllowSyscall(2));
    rules.push(SeccompRule::AllowSyscall(257));
    rules.push(SeccompRule::AllowSyscall(3));
    rules.push(SeccompRule::AllowSyscall(436));
    rules.push(SeccompRule::AllowSyscall(8));
    rules.push(SeccompRule::AllowSyscall(77));
    rules.push(SeccompRule::AllowSyscall(76));
    rules.push(SeccompRule::AllowSyscall(5));
    rules.push(SeccompRule::AllowSyscall(262));
    rules.push(SeccompRule::AllowSyscall(6));
    rules.push(SeccompRule::AllowSyscall(4));
    rules.push(SeccompRule::AllowSyscall(332));
    rules.push(SeccompRule::AllowSyscall(21));
    rules.push(SeccompRule::AllowSyscall(269));
    rules.push(SeccompRule::AllowSyscall(439));
    rules.push(SeccompRule::AllowSyscall(32));
    rules.push(SeccompRule::AllowSyscall(33));
    rules.push(SeccompRule::AllowSyscall(292));
    rules.push(SeccompRule::AllowSyscall(72));
    rules.push(SeccompRule::AllowSyscall(16));
    rules.push(SeccompRule::AllowSyscall(22));
    rules.push(SeccompRule::AllowSyscall(293));
    rules.push(SeccompRule::AllowSyscall(7));
    rules.push(SeccompRule::AllowSyscall(271));
    rules.push(SeccompRule::AllowSyscall(23));
    rules.push(SeccompRule::AllowSyscall(270));
    rules.push(SeccompRule::AllowSyscall(39));
    rules.push(SeccompRule::AllowSyscall(110));
    rules.push(SeccompRule::AllowSyscall(186));
    rules.push(SeccompRule::AllowSyscall(102));
    rules.push(SeccompRule::AllowSyscall(107));
    rules.push(SeccompRule::AllowSyscall(104));
    rules.push(SeccompRule::AllowSyscall(108));
    rules.push(SeccompRule::AllowSyscall(115));
    rules.push(SeccompRule::AllowSyscall(79));
    rules.push(SeccompRule::AllowSyscall(80));
    rules.push(SeccompRule::AllowSyscall(81));
    rules.push(SeccompRule::AllowSyscall(83));
    rules.push(SeccompRule::AllowSyscall(258));
    rules.push(SeccompRule::AllowSyscall(84));
    rules.push(SeccompRule::AllowSyscall(87));
    rules.push(SeccompRule::AllowSyscall(263));
    rules.push(SeccompRule::AllowSyscall(82));
    rules.push(SeccompRule::AllowSyscall(264));
    rules.push(SeccompRule::AllowSyscall(316));
    rules.push(SeccompRule::AllowSyscall(88));
    rules.push(SeccompRule::AllowSyscall(266));
    rules.push(SeccompRule::AllowSyscall(86));
    rules.push(SeccompRule::AllowSyscall(265));
    rules.push(SeccompRule::AllowSyscall(89));
    rules.push(SeccompRule::AllowSyscall(267));
    rules.push(SeccompRule::AllowSyscall(90));
    rules.push(SeccompRule::AllowSyscall(91));
    rules.push(SeccompRule::AllowSyscall(268));
    rules.push(SeccompRule::AllowSyscall(92));
    rules.push(SeccompRule::AllowSyscall(93));
    rules.push(SeccompRule::AllowSyscall(260));
    rules.push(SeccompRule::AllowSyscall(94));
    rules.push(SeccompRule::AllowSyscall(95));
    rules.push(SeccompRule::AllowSyscall(132));
    rules.push(SeccompRule::AllowSyscall(235));
    rules.push(SeccompRule::AllowSyscall(280));
    rules.push(SeccompRule::AllowSyscall(133));
    rules.push(SeccompRule::AllowSyscall(259));
    rules.push(SeccompRule::AllowSyscall(165));
    rules.push(SeccompRule::AllowSyscall(166));
    rules.push(SeccompRule::AllowSyscall(57));
    rules.push(SeccompRule::AllowSyscall(58));
    rules.push(SeccompRule::AllowSyscall(56));
    rules.push(SeccompRule::AllowSyscall(435));
    rules.push(SeccompRule::AllowSyscall(59));
    rules.push(SeccompRule::AllowSyscall(322));
    rules.push(SeccompRule::AllowSyscall(61));
    rules.push(SeccompRule::AllowSyscall(247));
    rules.push(SeccompRule::AllowSyscall(60));
    rules.push(SeccompRule::AllowSyscall(231));
    rules.push(SeccompRule::AllowSyscall(62));
    rules.push(SeccompRule::AllowSyscall(234));
    rules.push(SeccompRule::AllowSyscall(200));
    rules.push(SeccompRule::AllowSyscall(13));
    rules.push(SeccompRule::AllowSyscall(14));
    rules.push(SeccompRule::AllowSyscall(15));
    rules.push(SeccompRule::AllowSyscall(131));
    rules.push(SeccompRule::AllowSyscall(34));
    rules.push(SeccompRule::AllowSyscall(35));
    rules.push(SeccompRule::AllowSyscall(230));
    rules.push(SeccompRule::AllowSyscall(228));
    rules.push(SeccompRule::AllowSyscall(229));
    rules.push(SeccompRule::AllowSyscall(96));
    rules.push(SeccompRule::AllowSyscall(201));
    rules.push(SeccompRule::AllowSyscall(97));
    rules.push(SeccompRule::AllowSyscall(160));
    rules.push(SeccompRule::AllowSyscall(302));
    rules.push(SeccompRule::AllowSyscall(157));
    rules.push(SeccompRule::AllowSyscall(135));
    rules.push(SeccompRule::AllowSyscall(158));
    rules.push(SeccompRule::AllowSyscall(218));
    rules.push(SeccompRule::AllowSyscall(273));
    rules.push(SeccompRule::AllowSyscall(274));
    rules.push(SeccompRule::AllowSyscall(202));
    rules.push(SeccompRule::AllowSyscall(9));
    rules.push(SeccompRule::AllowSyscall(11));
    rules.push(SeccompRule::AllowSyscall(10));
    rules.push(SeccompRule::AllowSyscall(25));
    rules.push(SeccompRule::AllowSyscall(28));
    rules.push(SeccompRule::AllowSyscall(12));
    rules.push(SeccompRule::AllowSyscall(149));
    rules.push(SeccompRule::AllowSyscall(150));
    rules.push(SeccompRule::AllowSyscall(78));
    rules.push(SeccompRule::AllowSyscall(217));
    rules.push(SeccompRule::AllowSyscall(24));
    rules.push(SeccompRule::AllowSyscall(204));
    rules.push(SeccompRule::AllowSyscall(203));
    rules.push(SeccompRule::AllowSyscall(140));
    rules.push(SeccompRule::AllowSyscall(141));
    rules.push(SeccompRule::AllowSyscall(125));
    rules.push(SeccompRule::AllowSyscall(126));
    rules.push(SeccompRule::AllowSyscall(318));
    rules.push(SeccompRule::AllowSyscall(319));
    rules.push(SeccompRule::AllowSyscall(290));
    rules.push(SeccompRule::AllowSyscall(291));
    rules.push(SeccompRule::AllowSyscall(233));
    rules.push(SeccompRule::AllowSyscall(232));
    rules.push(SeccompRule::AllowSyscall(283));
    rules.push(SeccompRule::AllowSyscall(286));
    rules.push(SeccompRule::AllowSyscall(287));
    rules.push(SeccompRule::AllowSyscall(289));
    rules.push(SeccompRule::AllowSyscall(53));
    rules.push(SeccompRule::AllowSyscall(49));
    rules.push(SeccompRule::AllowSyscall(42));
    rules.push(SeccompRule::AllowSyscall(50));
    rules.push(SeccompRule::AllowSyscall(43));
    rules.push(SeccompRule::AllowSyscall(288));
    rules.push(SeccompRule::AllowSyscall(51));
    rules.push(SeccompRule::AllowSyscall(52));
    rules.push(SeccompRule::AllowSyscall(44));
    rules.push(SeccompRule::AllowSyscall(45));
    rules.push(SeccompRule::AllowSyscall(46));
    rules.push(SeccompRule::AllowSyscall(47));
    rules.push(SeccompRule::AllowSyscall(55));
    rules.push(SeccompRule::AllowSyscall(54));
    rules.push(SeccompRule::AllowSyscall(48));
    rules.push(SeccompRule::AllowSyscallIfArg(41, 0, 1));
    rules.push(SeccompRule::AllowSyscallIfArg(41, 0, 16));
    rules
}

// ── BPF programs ──────────────────────────────────────────────────────────────

/// A classic-BPF instruction, field for field `struct sock_filter`.
#[derive(Debug, Clone, Copy, PartialEq, Eq, Structural)]
pub struct BpfInsn {
    pub code: u16,
    pub jt: u8,
    pub jf: u8,
    pub k: u32,
}

pub const BPF_LD: u16 = 0x00;
pub const BPF_W: u16 = 0x00;
pub const BPF_ABS: u16 = 0x20;
pub const BPF_JMP: u16 = 0x05;
pub const BPF_JEQ: u16 = 0x10;
pub const BPF_JA: u16 = 0x00;
pub const BPF_K: u16 = 0x00;
pub const BPF_RET: u16 = 0x06;

/// Offset of `arch` in `struct seccomp_data`.
pub const SECCOMP_ARCH_OFFSET: u32 = 4;
/// Offset of `nr` in `struct seccomp_data`.
pub const SECCOMP_NR_OFFSET: u32 = 0;
/// Offset of `args[0]` in `struct seccomp_data`.
pub const SECCOMP_ARG_OFFSET: u32 = 16;
/// `AUDIT_ARCH_X86_64`.
pub const AUDIT_ARCH_X86_64: u32 = 0xC000_003E;

pub open spec fn ld_i(off: u32) -> BpfInsn {
    BpfInsn { code: 0x20, jt: 0, jf: 0, k: off }
}

pub open spec fn jeq_i(k: u32, jt: u8, jf: u8) -> BpfInsn {
    BpfInsn { code: 0x15, jt, jf, k }
}

pub open spec fn ja_i(off: u32) -> BpfInsn {
    BpfInsn { code: 0x05, jt: 0, jf: 0, k: off }
}

pub open spec fn ret_i(k: u32) -> BpfInsn {
    BpfInsn { code: 0x06, jt: 0, jf: 0, k }
}

fn ld_abs(off: u32) -> (r: BpfInsn)
    ensures
        r == ld_i(off),
{
    assert(0x00u16 | 0x00u16 | 0x20u16 == 0x20u16) by (bit_vector);
    BpfInsn { code: BPF_LD | BPF_W | BPF_ABS, jt: 0, jf: 0, k: off }
}

fn jeq(k: u32, jt: u8, jf: u8) -> (r: BpfInsn)
    ensures
        r == jeq_i(k, jt, jf),
{
    assert(0x05u16 | 0x10u16 | 0x00u16 == 0x15u16) by (bit_vector);
    BpfInsn { code: BPF_JMP | BPF_JEQ | BPF_K, jt, jf, k }
}

fn ja(off: u32) -> (r: BpfInsn)
    ensures
        r == ja_i(off),
{
    assert(0x05u16 | 0x00u16 == 0x05u16) by (bit_vector);
    BpfInsn { code: BPF_JMP | BPF_JA, jt: 0, jf: 0, k: off }
}

fn ret(k: u32) -> (r: BpfInsn)
    ensures
        r == ret_i(k),
{
    assert(0x06u16 | 0x00u16 == 0x06u16) by (bit_vector);
    BpfInsn { code: BPF_RET | BPF_K, jt: 0, jf: 0, k }
}

/// The instructions of one rule: compare the system call number and, for
/// an argument rule, load and compare the argument; on a match return
/// `SECCOMP_RET_ALLOW`, otherwise fall through to the next rule.
pub open spec fn rule_insns(r: SeccompRule) -> Seq<BpfInsn> {
    match r {
        SeccompRule::AllowSyscall(nr) => seq![jeq_i(nr as u32, 0, 1), ret_i(0x7fff_0000)],
        SeccompRule::AllowSyscallIfArg(nr, arg, val) => seq![
            jeq_i(nr as u32, 0, 3),
            ld_i((16 + arg * 8) as u32),
            jeq_i(val as u32, 0, 1),
            ret_i(0x7fff_0000)
        ],
    }
}

pub open spec fn rules_insns(rs: Seq<SeccompRule>) -> Seq<BpfInsn>
    decreases rs.len(),
{
    if rs.len() == 0 {
        Seq::empty()
    } else {
        rules_insns(rs.drop_last()) + rule_insns(rs.last())
    }
}

/// Load the architecture; on anything but x86-64 jump to the default
/// action; load the system call number and jump over that return.
pub open spec fn prologue(a: SeccompAction) -> Seq<BpfInsn> {
    seq![ld_i(4), jeq_i(0xC000_003E, 0, 2), ld_i(0), ja_i(1), ret_i(ret_value(a))]
}

/// The program of a profile: the prologue, every rule in order, and the
/// default action.
pub open spec fn program_spec(p: SeccompProfile) -> Seq<BpfInsn> {
    prologue(p.action) + rules_insns(p.rules@) + seq![ret_i(ret_value(p.action))]
}

/// Builds the BPF program of `profile`. It fails closed: a foreign
/// architecture or a system call no rule allows gets the default action.
pub fn build_program(profile: &SeccompProfile) -> (r: Vec<BpfInsn>)
    ensures
        r@ == program_spec(*profile),
{
    let deny = profile.action.to_ret();
    let mut p: Vec<BpfInsn> = Vec::new();
    p.push(ld_abs(SECCOMP_ARCH_OFFSET));
    p.push(jeq(AUDIT_ARCH_X86_64, 0, 2));
    p.push(ld_abs(SECCOMP_NR_OFFSET));
    p.push(ja(1));
    p.push(ret(deny));
    proof {
        assert(p@ =~= prologue(profile.action));
    }
    let ghost rs = profile.rules@;
    let mut i: usize = 0;
    proof {
        assert(rs.take(0) =~= Seq::<SeccompRule>::empty());
        assert(p@ =~= prologue(profile.action) + rules_insns(rs.take(0)));
    }
    while i < profile.rules.len()
        invariant
            i <= profile.rules@.len(),
            rs == profile.rules@,
            deny == ret_value(profile.action),
            p@ == prologue(profile.action) + rules_insns(rs.take(i as int)),
        decreases profile.rules.len() - i,
    {
        let ghost before = p@;
        match profile.rules[i] {
            SeccompRule::AllowSyscall(nr) => {
                p.push(jeq(nr as u32, 0, 1));
                p.push(ret(SECCOMP_RET_ALLOW));
            },
            SeccompRule::AllowSyscallIfArg(nr, arg, val) => {
                p.push(jeq(nr as u32, 0, 3));
                p.push(ld_abs(SECCOMP_ARG_OFFSET + arg as u32 * 8));
                p.push(jeq(val as u32, 0, 1));
                p.push(ret(SECCOMP_RET_ALLOW));
            },
        }
        proof {
            assert(rs.take(i + 1).drop_last() =~= rs.take(i as int));
            assert(p@ =~= before + rule_insns(rs[i as int]));
        }
        i = i + 1;
    }
    p.push(ret(deny));
    proof {
        assert(rs.take(rs.len() as int) =~= rs);
        assert(p@ =~= program_spec(*profile));
    }
    p
}

// ── What a program decides ───────────────────────────────────────────────────

/// The data a filter sees: system call number, architecture, arguments.
pub struct SeccompData {
    pub nr: u32,
    pub arch: u32,
    pub args: Seq<u64>,
}

/// A 32-bit load from the data at `off`: `nr` at 0, `arch` at 4, the low
/// half of argument `i` at `16 + 8 i`.
pub open spec fn load(d: SeccompData, off: u32) -> u32 {
    if off == 0 {
        d.nr
    } else if off == 4 {
        d.arch
    } else if 16 <= off && (off - 16) % 8 == 0 && (off - 16) / 8 < d.args.len() {
        (d.args[(off - 16) / 8] % 0x1_0000_0000) as u32
    } else {
        0
    }
}

/// Running a program from instruction `pc` with accumulator `acc`: the
/// value returned, or `None` when it runs off the end or meets an
/// instruction other than these four.
pub open spec fn eval(prog: Seq<BpfInsn>, pc: int, acc: u32, d: SeccompData) -> Option<u32>
    decreases prog.len() - pc,
{
    if pc < 0 || pc >= prog.len() {
        None
    } else {
        let ins = prog[pc];
        if ins.code == 0x20 {
            eval(prog, pc + 1, load(d, ins.k), d)
        } else if ins.code == 0x15 {
            let next = pc + 1 + if acc == ins.k {
                ins.jt as int
            } else {
                ins.jf as int
            };
            if next > prog.len() {
                None
            } else {
                eval(prog, next, acc, d)
            }
        } else if ins.code == 0x05 {
            if pc + 1 + ins.k > prog.len() {
                None
            } else {
                eval(prog, pc + 1 + ins.k, acc, d)
            }
        } else if ins.code == 0x06 {
            Some(ins.k)
        } else {
            None
        }
    }
}

/// The rules tried in order against the accumulator `acc`: a number rule
/// allows on a match; an argument rule on a matching number loads the
/// argument (which the later rules then see) and allows if it matches.
pub open spec fn rules_verdict(rs: Seq<SeccompRule>, acc: u32, d: SeccompData, deny: u32) -> u32
    decreases rs.len(),
{
    if rs.len() == 0 {
        deny
    } else {
        match rs[0] {
            SeccompRule::AllowSyscall(nr) => if acc == nr as u32 {
                0x7fff_0000
            } else {
                rules_verdict(rs.drop_first(), acc, d, deny)
            },
            SeccompRule::AllowSyscallIfArg(nr, arg, val) => if acc == nr as u32 {
                let x = load(d, (16 + arg * 8) as u32);
                if x == val as u32 {
                    0x7fff_0000
                } else {
                    rules_verdict(rs.drop_first(), x, d, deny)
                }
            } else {
                rules_verdict(rs.drop_first(), acc, d, deny)
            },
        }
    }
}

/// What the program of `p` returns: on x86-64 the rules run against the
/// system call number; on another architecture the default action.
pub open spec fn verdict(p: SeccompProfile, d: SeccompData) -> u32 {
    if d.arch == 0xC000_003E {
        rules_verdict(p.rules@, d.nr, d, ret_value(p.action))
    } else {
        ret_value(p.action)
    }
}

proof fn lemma_rules_insns_front(rs: Seq<SeccompRule>)
    requires
        rs.len() > 0,
    ensures
        rules_insns(rs) == rule_insns(rs[0]) + rules_insns(rs.drop_first()),
    decreases rs.len(),
{
    if rs.len() == 1 {
        assert(rs.drop_first() =~= Seq::<SeccompRule>::empty());
        assert(rs.drop_last() =~= Seq::<SeccompRule>::empty());
        assert(rules_insns(rs) =~= rule_insns(rs[0]) + rules_insns(rs.drop_first()));
    } else {
        lemma_rules_insns_front(rs.drop_last());
        assert(rs.drop_last().drop_first() =~= rs.drop_first().drop_last());
        assert(rs.drop_last()[0] == rs[0]);
        assert(rs.drop_first().last() == rs.last());
        assert(rules_insns(rs) =~= rule_insns(rs[0]) + rules_insns(rs.drop_first()));
    }
}

proof fn lemma_step_number(prog: Seq<BpfInsn>, pc: int, nr: u32, acc: u32, d: SeccompData)
    requires
        0 <= pc,
        pc + 2 <= prog.len(),
        prog[pc] == jeq_i(nr, 0, 1),
        prog[pc + 1] == ret_i(0x7fff_0000),
    ensures
        eval(prog, pc, acc, d) == if acc == nr {
            Some(0x7fff_0000u32)
        } else {
            eval(prog, pc + 2, acc, d)
        },
{
    reveal_with_fuel(eval, 2);
}

proof fn lemma_step_arg(prog: Seq<BpfInsn>, pc: int, nr: u32, off: u32, val: u32, acc: u32, d: SeccompData)
    requires
        0 <= pc,
        pc + 4 <= prog.len(),
        prog[pc] == jeq_i(nr, 0, 3),
        prog[pc + 1] == ld_i(off),
        prog[pc + 2] == jeq_i(val, 0, 1),
        prog[pc + 3] == ret_i(0x7fff_0000),
    ensures
        eval(prog, pc, acc, d) == if acc == nr {
            if load(d, off) == val {
                Some(0x7fff_0000u32)
            } else {
                eval(prog, pc + 4, load(d, off), d)
            }
        } else {
            eval(prog, pc + 4, acc, d)
        },
{
    assert(eval(prog, pc + 2, load(d, off), d) == if load(d, off) == val {
        Some(0x7fff_0000u32)
    } else {
        eval(prog, pc + 4, load(d, off), d)
    }) by {
        reveal_with_fuel(eval, 2);
    }
    assert(eval(prog, pc + 1, acc, d) == eval(prog, pc + 2, load(d, off), d));
}

proof fn lemma_eval_rules(a: Seq<BpfInsn>, rs: Seq<SeccompRule>, deny: u32, acc: u32, d: SeccompData)
    ensures
        eval(a + rules_insns(rs) + seq![ret_i(deny)], a.len() as int, acc, d) == Some(
            rules_verdict(rs, acc, d, deny),
        ),
    decreases rs.len(),
{
    let prog = a + rules_insns(rs) + seq![ret_i(deny)];
    let pc = a.len() as int;
    if rs.len() == 0 {
        assert(prog[pc] == ret_i(deny));
    } else {
        lemma_rules_insns_front(rs);
        let ri = rule_insns(rs[0]);
        let a2 = a + ri;
        assert(prog =~= a2 + rules_insns(rs.drop_first()) + seq![ret_i(deny)]);
        assert forall|k: int| 0 <= k < ri.len() implies prog[pc + k] == ri[k] by {}
        match rs[0] {
            SeccompRule::AllowSyscall(nr) => {
                lemma_eval_rules(a2, rs.drop_first(), deny, acc, d);
                lemma_step_number(prog, pc, nr as u32, acc, d);
            },
            SeccompRule::AllowSyscallIfArg(nr, arg, val) => {
                let off = (16 + arg * 8) as u32;
                lemma_eval_rules(a2, rs.drop_first(), deny, acc, d);
                lemma_eval_rules(a2, rs.drop_first(), deny, load(d, off), d);
                lemma_step_arg(prog, pc, nr as u32, off, val as u32, acc, d);
            },
        }
    }
}

/// The program of a profile returns what the profile's rules decide.
pub proof fn lemma_program_verdict(p: SeccompProfile, d: SeccompData)
    ensures
        eval(program_spec(p), 0, 0, d) == Some(verdict(p, d)),
{
    let pro = prologue(p.action);
    let prog = program_spec(p);
    let deny = ret_value(p.action);
    lemma_eval_rules(pro, p.rules@, deny, d.nr, d);
    reveal_with_fuel(eval, 5);
    assert(prog[0] == ld_i(4));
    assert(prog[1] == jeq_i(0xC000_003E, 0, 2));
    assert(prog[2] == ld_i(0));
    assert(prog[3] == ja_i(1));
    assert(prog[4] == ret_i(deny));
    assert(pro.len() == 5);
}

/// On x86-64, a profile of number rules allows exactly the listed system
/// calls; everything else gets the default action.
pub proof fn lemma_allowlist(p: SeccompProfile, d: SeccompData)
    requires
        d.arch == 0xC000_003E,
        forall|i: int| 0 <= i < p.rules@.len() ==> #[trigger] p.rules@[i] is AllowSyscall,
    ensures
        eval(program_spec(p), 0, 0, d) == Some(
            if exists|i: int| 0 <= i < p.rules@.len() && (#[trigger] p.rules@[i])->AllowSyscall_0 as u32 == d.nr {
                0x7fff_0000u32
            } else {
                ret_value(p.action)
            },
        ),
{
    lemma_program_verdict(p, d);
    lemma_number_rules(p.rules@, d, ret_value(p.action));
}

proof fn lemma_number_rules(rs: Seq<SeccompRule>, d: SeccompData, deny: u32)
    requires
        forall|i: int| 0 <= i < rs.len() ==> #[trigger] rs[i] is AllowSyscall,
    ensures
        rules_verdict(rs, d.nr, d, deny) == if exists|i: int| 0 <= i < rs.len() && (#[trigger] rs[i])->AllowSyscall_0 as u32 == d.nr {
            0x7fff_0000u32
        } else {
            deny
        },
    decreases rs.len(),
{
    if rs.len() > 0 {
        let t = rs.drop_first();
        assert forall|i: int| 0 <= i < t.len() implies #[trigger] t[i] is AllowSyscall by {
            assert(t[i] == rs[i + 1]);
        }
        lemma_number_rules(t, d, deny);
        assert(rs[0] is AllowSyscall);
        if rs[0]->AllowSyscall_0 as u32 != d.nr {
            if exists|i: int| 0 <= i < rs.len() && (#[trigger] rs[i])->AllowSyscall_0 as u32 == d.nr {
                let i = choose|i: int| 0 <= i < rs.len() && (#[trigger] rs[i])->AllowSyscall_0 as u32 == d.nr;
                assert(i > 0);
                assert(t[i - 1] == rs[i]);
            }
            if exists|i: int| 0 <= i < t.len() && (#[trigger] t[i])->AllowSyscall_0 as u32 == d.nr {
                let i = choose|i: int| 0 <= i < t.len() && (#[trigger] t[i])->AllowSyscall_0 as u32 == d.nr;
                assert(t[i] == rs[i + 1]);
            }
        }
    }
}

/// The program fails closed: on any architecture other than x86-64 every
/// system call gets the default action, whatever the rules.
pub proof fn lemma_foreign_arch_denied(p: SeccompProfile, d: SeccompData)
    requires
        d.arch != 0xC000_003E,
    ensures
        eval(program_spec(p), 0, 0, d) == Some(ret_value(p.action)),
{
    lemma_program_verdict(p, d);
}

} // verus!
