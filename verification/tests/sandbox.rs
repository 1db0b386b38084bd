use debkit::sandbox::mount::BindMount;
use debkit::sandbox::seccomp::{
    build_program, SeccompAction, SeccompProfile, SeccompRule, AUDIT_ARCH_X86_64, BPF_ABS,
    BPF_JEQ, BPF_JMP, BPF_K, BPF_LD, BPF_RET, BPF_W, SECCOMP_ARCH_OFFSET,
};
use debkit::sandbox::{id_map_line, Sandbox, SandboxBuilder, SandboxConfig};

#[test]
fn maintainer_script_profile_disallows_network() {
    let cfg = SandboxConfig::maintainer_script_profile();
    assert!(!cfg.allow_network, "network should be disallowed in maintainer script profile");
}

#[test]
fn maintainer_script_profile_disallows_ipc() {
    let cfg = SandboxConfig::maintainer_script_profile();
    assert!(!cfg.allow_ipc, "IPC should be disallowed in maintainer script profile");
}

#[test]
fn unrestricted_allows_network() {
    let cfg = SandboxConfig::unrestricted();
    assert!(cfg.allow_network, "network should be allowed in unrestricted profile");
}

#[test]
fn unrestricted_allows_ipc() {
    let cfg = SandboxConfig::unrestricted();
    assert!(cfg.allow_ipc, "IPC should be allowed in unrestricted profile");
}

#[test]
fn builder_uses_provided_config() {
    let cfg = SandboxConfig::maintainer_script_profile();
    let sandbox = SandboxBuilder::new().config(cfg.clone()).build();
    assert!(!sandbox.config().allow_network);
    assert!(!sandbox.config().allow_ipc);
}

#[test]
fn default_sandbox_uses_restrictive_config() {
    let sandbox = Sandbox::new();
    assert!(!sandbox.config().allow_network);
    assert!(!sandbox.config().allow_ipc);
}

#[test]
fn bind_mount_new_is_writable() {
    let m = BindMount::new("/host", "/sandbox");
    assert!(!m.read_only);
    assert_eq!(std::path::Path::new(&m.source), std::path::Path::new("/host"));
    assert_eq!(std::path::Path::new(&m.destination), std::path::Path::new("/sandbox"));
}

#[test]
fn bind_mount_read_only_marks_flag() {
    let m = BindMount::read_only("/host", "/sandbox");
    assert!(m.read_only);
}

#[test]
fn program_starts_with_arch_validation() {
    let prog = build_program(&SeccompProfile::maintainer_script_profile());
    assert!(prog.len() >= 5);
    assert_eq!(prog[0].code, BPF_LD | BPF_W | BPF_ABS);
    assert_eq!(prog[0].k, SECCOMP_ARCH_OFFSET);
    assert_eq!(prog[1].code, BPF_JMP | BPF_JEQ | BPF_K);
    assert_eq!(prog[1].k, AUDIT_ARCH_X86_64);
    assert_eq!(prog.last().unwrap().k, SeccompAction::Errno(1).to_ret());
}

#[test]
fn allowed_syscall_emits_an_allow_ret() {
    let profile = SeccompProfile {
        enabled: true,
        action: SeccompAction::Errno(1),
        rules: vec![SeccompRule::AllowSyscall(42)],
    };
    let prog = build_program(&profile);
    assert!(prog.iter().any(|i| i.k == 0x7fff_0000));
}

#[test]
fn denied_syscall_has_no_allow_ret_for_it() {
    let profile = SeccompProfile {
        enabled: true,
        action: SeccompAction::Errno(1),
        rules: vec![SeccompRule::AllowSyscall(42)],
    };
    let prog = build_program(&profile);
    let allow_count = prog.iter().filter(|i| i.k == 0x7fff_0000).count();
    assert_eq!(allow_count, 1);
}

// ── Further cases ────────────────────────────────────────────────────────────

#[test]
fn unshare_flags_follow_config() {
    let strict = SandboxConfig::maintainer_script_profile().unshare_flags();
    let open = SandboxConfig::unrestricted().unshare_flags();
    assert_eq!(strict, 0x1000_0000 | 0x2000_0000 | 0x0002_0000 | 0x4000_0000 | 0x0800_0000);
    assert_eq!(open, 0x1000_0000 | 0x2000_0000 | 0x0002_0000);
    assert!(SandboxConfig::unrestricted().is_unrestricted());
    assert!(!SandboxConfig::default().is_unrestricted());
}

#[test]
fn id_map_line_format() {
    assert_eq!(id_map_line(1000), "0 1000 1\n");
}

#[test]
fn action_return_values_and_names() {
    assert_eq!(SeccompAction::Allow.to_ret(), 0x7fff_0000);
    assert_eq!(SeccompAction::Errno(1).to_ret(), 0x0005_0001);
    assert_eq!(SeccompAction::KillProcess.to_ret(), 0x8000_0000);
    assert_eq!(SeccompAction::Errno(13).to_string(), "errno(13)");
    assert_eq!(SeccompAction::KillThread.to_string(), "kill-thread");
}

#[test]
fn disabled_profile_is_disabled() {
    let p = SeccompProfile::disabled();
    assert!(!p.enabled);
    assert!(p.rules.is_empty());
}

#[test]
fn arg_rule_emits_argument_check() {
    let profile = SeccompProfile {
        enabled: true,
        action: SeccompAction::Errno(1),
        rules: vec![SeccompRule::AllowSyscallIfArg(41, 0, 1)],
    };
    let prog = build_program(&profile);
    assert!(prog.iter().any(|i| i.k == 16));
    assert_eq!(prog.iter().filter(|i| i.k == 0x7fff_0000).count(), 1);
}

#[test]
fn foreign_architecture_jumps_to_default_action() {
    let profile = SeccompProfile {
        enabled: true,
        action: SeccompAction::Errno(1),
        rules: vec![SeccompRule::AllowSyscall(0xC000_00B7)],
    };
    let prog = build_program(&profile);
    let target = 1 + 1 + prog[1].jf as usize;
    assert_eq!(prog[target].code, BPF_RET | BPF_K);
    assert_eq!(prog[target].k, SeccompAction::Errno(1).to_ret());
}
