use debkit::solver::certify::refutation_holds;
use debkit::deb_version::Version;
use debkit::solver::sat::{Clause, Literal, Solver};
use debkit::solver::{DependencyGroup, DependencySpec, InstallPlan, Package, Resolver, SolverError, Universe};

fn pkg(name: &str, version: &str) -> Package {
    Package {
        name: name.to_string(),
        version: Version::parse(version).unwrap(),
        depends: vec![],
        pre_depends: vec![],
        conflicts: vec![],
        breaks: vec![],
        provides: vec![],
        recommends: vec![],
        suggests: vec![],
    }
}

fn names(list: &[(String, Version)]) -> Vec<&str> {
    list.iter().map(|(n, _)| n.as_str()).collect()
}

#[test]
fn resolve_single_no_deps() {
    let mut u = Universe::new();
    u.add_package(pkg("hello", "1.0"));
    let plan = Resolver::new(u).resolve(&["hello"]).unwrap();
    assert_eq!(plan.install.len(), 1);
    assert_eq!(plan.install[0].0, "hello");
}

#[test]
fn unknown_package_error() {
    let result = Resolver::new(Universe::new()).resolve(&["nonexistent"]);
    assert!(matches!(result, Err(SolverError::UnknownPackage(_))));
}

#[test]
fn dependency_chain_a_b_c() {
    let mut u = Universe::new();
    u.add_package(Package {
        name: "A".to_string(),
        version: Version::parse("1.0").unwrap(),
        depends: DependencyGroup::parse("B").unwrap(),
        pre_depends: vec![],
        conflicts: vec![],
        breaks: vec![],
        provides: vec![],
        recommends: vec![],
        suggests: vec![],
    });
    u.add_package(Package {
        name: "B".to_string(),
        version: Version::parse("1.0").unwrap(),
        depends: DependencyGroup::parse("C").unwrap(),
        pre_depends: vec![],
        conflicts: vec![],
        breaks: vec![],
        provides: vec![],
        recommends: vec![],
        suggests: vec![],
    });
    u.add_package(pkg("C", "1.0"));

    let plan = Resolver::new(u).resolve(&["A"]).unwrap();
    let names = names(&plan.install);
    assert!(names.contains(&"A"), "plan={:?}", names);
    assert!(names.contains(&"B"), "plan={:?}", names);
    assert!(names.contains(&"C"), "plan={:?}", names);
}

#[test]
fn conflicting_packages_no_solution() {
    let mut u = Universe::new();
    u.add_package(Package {
        name: "A".to_string(),
        version: Version::parse("1.0").unwrap(),
        depends: vec![],
        pre_depends: vec![],
        conflicts: DependencyGroup::parse("B").unwrap(),
        breaks: vec![],
        provides: vec![],
        recommends: vec![],
        suggests: vec![],
    });
    u.add_package(pkg("B", "1.0"));

    let result = Resolver::new(u).resolve(&["A", "B"]);
    assert!(matches!(result, Err(SolverError::NoSolution(_))));
}

#[test]
fn virtual_package_satisfied_by_provider() {
    let mut u = Universe::new();
    u.add_package(Package {
        name: "A".to_string(),
        version: Version::parse("1.0").unwrap(),
        depends: vec![],
        pre_depends: vec![],
        conflicts: vec![],
        breaks: vec![],
        provides: vec!["X".to_string()],
        recommends: vec![],
        suggests: vec![],
    });
    u.add_package(Package {
        name: "B".to_string(),
        version: Version::parse("1.0").unwrap(),
        depends: DependencyGroup::parse("X").unwrap(),
        pre_depends: vec![],
        conflicts: vec![],
        breaks: vec![],
        provides: vec![],
        recommends: vec![],
        suggests: vec![],
    });

    let plan = Resolver::new(u).resolve(&["B"]).unwrap();
    let names = names(&plan.install);
    assert!(names.contains(&"A"), "A (provider of X) missing: {:?}", names);
    assert!(names.contains(&"B"), "B missing: {:?}", names);
}

#[test]
fn dependency_group_parse_alternatives() {
    let groups = DependencyGroup::parse("libc6 (>= 2.17) | libc6-amd64, libssl3").unwrap();
    assert_eq!(groups.len(), 2);
    assert_eq!(groups[0].alternatives.len(), 2);
    assert_eq!(groups[0].alternatives[0].name, "libc6");
    assert_eq!(groups[1].alternatives[0].name, "libssl3");
}

#[test]
fn dep_spec_parse_no_constraint() {
    let spec = DependencySpec::parse("bash").unwrap();
    assert_eq!(spec.name, "bash");
    assert!(spec.constraint.is_none());
}

/// Exhaustively check whether `clauses` over `n` variables is satisfiable.
fn brute_force_sat(n: usize, clauses: &[Clause]) -> bool {
    let total = 1usize << n;
    for mask in 0..total {
        let mut ok = true;
        for c in clauses {
            let mut clause_ok = false;
            for l in &c.literals {
                let bit = ((mask >> l.var) & 1) == 1;
                let val = if l.negated { !bit } else { bit };
                if val {
                    clause_ok = true;
                    break;
                }
            }
            if !clause_ok {
                ok = false;
                break;
            }
        }
        if ok {
            return true;
        }
    }
    false
}

/// Tiny deterministic LCG so the randomized tests need no external RNG.
fn lcg(state: &mut u64) -> u64 {
    *state = state
        .wrapping_mul(6364136223846793005)
        .wrapping_add(1442695040888963407);
    *state >> 8
}

fn random_clauses(state: &mut u64, n: usize, nc: usize) -> Vec<Clause> {
    let mut clauses = Vec::new();
    for _ in 0..nc {
        let len = 1 + (lcg(state) as usize % 3);
        let mut lits = Vec::new();
        for _ in 0..len {
            let v = (lcg(state) as usize) % n;
            let neg = (lcg(state) & 1) == 1;
            lits.push(Literal { var: v, negated: neg });
        }
        clauses.push(Clause { literals: lits });
    }
    clauses
}

fn model_satisfies(solver: &Solver, clauses: &[Clause]) -> bool {
    clauses
        .iter()
        .all(|c| c.literals.iter().any(|l| solver.value(l.var) == Some(!l.negated)))
}

#[test]
fn cdcl_matches_bruteforce_random() {
    let mut state: u64 = 0x1234_5678_9abc_def0;
    for trial in 0..300 {
        let n = 1 + (lcg(&mut state) as usize % 12);
        let nc = 4 + (lcg(&mut state) as usize % 24);
        let clauses = random_clauses(&mut state, n, nc);
        let mut solver = Solver::new(n, clauses.clone());
        let sat = solver.solve();
        let bf = brute_force_sat(n, &clauses);
        assert_eq!(sat, bf, "satisfiability mismatch on trial {trial} (n={n})");
        if sat {
            assert!(model_satisfies(&solver, &clauses), "model fails a clause on trial {trial}");
        }
    }
}

#[test]
fn cdcl_unsat_unit_contradiction() {
    let clauses = vec![
        Clause { literals: vec![Literal::pos(0)] },
        Clause { literals: vec![Literal::neg(0)] },
    ];
    let mut solver = Solver::new(1, clauses);
    assert!(!solver.solve());
}

#[test]
fn cdcl_unsat_requires_backtracking() {
    // (a) ∧ (¬a ∨ b) ∧ (¬b) — forces a conflict that must be learned.
    let clauses = vec![
        Clause { literals: vec![Literal::pos(0)] },
        Clause { literals: vec![Literal::neg(0), Literal::pos(1)] },
        Clause { literals: vec![Literal::neg(1)] },
    ];
    let mut solver = Solver::new(2, clauses);
    assert!(!solver.solve());
}

#[test]
fn cdcl_sat_finds_model() {
    // (a ∨ b) ∧ (¬a ∨ ¬b) — satisfiable (e.g. a=true, b=false).
    let clauses = vec![
        Clause { literals: vec![Literal::pos(0), Literal::pos(1)] },
        Clause { literals: vec![Literal::neg(0), Literal::neg(1)] },
    ];
    let mut solver = Solver::new(2, clauses);
    assert!(solver.solve());
}

#[test]
fn cdcl_parallel_matches_single() {
    let mut state: u64 = 0x0bad_c0de_1234_5678;
    for trial in 0..120 {
        let n = 1 + (lcg(&mut state) as usize % 14);
        let nc = 4 + (lcg(&mut state) as usize % 28);
        let clauses = random_clauses(&mut state, n, nc);
        let sat_single = {
            let mut s = Solver::new(n, clauses.clone());
            s.solve()
        };
        let sat_par = {
            let mut s = Solver::new(n, clauses.clone());
            s.solve_parallel(4)
        };
        assert_eq!(sat_single, sat_par, "parallel/serial SAT mismatch on trial {trial} (n={n})");
        if sat_par {
            let mut s = Solver::new(n, clauses.clone());
            assert!(s.solve_parallel(4));
            assert!(model_satisfies(&s, &clauses), "parallel model fails clause on trial {trial}");
        }
    }
}

fn pkg_with(name: &str, version: &str, recommends: &str, suggests: &str) -> Package {
    Package {
        name: name.to_string(),
        version: Version::parse(version).unwrap(),
        depends: vec![],
        pre_depends: vec![],
        conflicts: vec![],
        breaks: vec![],
        provides: vec![],
        recommends: DependencyGroup::parse(recommends).unwrap(),
        suggests: DependencyGroup::parse(suggests).unwrap(),
    }
}

#[test]
fn recommends_pulled_in() {
    let mut u = Universe::new();
    u.add_package(pkg_with("A", "1.0", "B", ""));
    u.add_package(pkg("B", "1.0"));

    let plan = Resolver::new(u).resolve(&["A"]).unwrap();
    let names_installed = names(&plan.install);
    assert!(names_installed.contains(&"A"));
    assert!(names_installed.contains(&"B"), "recommended B missing: {:?}", names_installed);
    let rec_names = names(&plan.recommended);
    assert!(rec_names.contains(&"B"), "recommended list: {:?}", rec_names);
}

#[test]
fn installed_packages_kept_by_default() {
    let mut u = Universe::new();
    u.add_package(pkg("A", "1.0"));
    u.add_package(pkg("B", "1.0"));

    let plan = Resolver::new(u)
        .resolve_with_installed(&["A"], &[("A".to_string(), Version::parse("1.0").unwrap())])
        .unwrap();
    assert!(plan.remove.is_empty(), "spurious removal: {:?}", plan.remove);
    assert!(plan.install.is_empty(), "spurious install: {:?}", plan.install);
}

#[test]
fn installed_package_removed_on_upgrade() {
    let mut u = Universe::new();
    u.add_package(pkg("A", "1.0"));
    u.add_package(pkg("A", "2.0"));

    let plan = Resolver::new(u)
        .resolve_with_installed(&["A"], &[("A".to_string(), Version::parse("1.0").unwrap())])
        .unwrap();
    assert!(
        plan.install.contains(&("A".to_string(), Version::parse("2.0").unwrap())),
        "plan={:?}",
        plan.install
    );
    assert!(
        plan.remove.contains(&("A".to_string(), Version::parse("1.0").unwrap())),
        "plan={:?}",
        plan.remove
    );
}

#[test]
fn installed_package_removed_when_conflicting() {
    let mut u = Universe::new();
    u.add_package(Package {
        name: "A".to_string(),
        version: Version::parse("1.0").unwrap(),
        depends: vec![],
        pre_depends: vec![],
        conflicts: DependencyGroup::parse("old").unwrap(),
        breaks: vec![],
        provides: vec![],
        recommends: vec![],
        suggests: vec![],
    });
    u.add_package(pkg("old", "1.0"));
    u.add_package(pkg("new", "1.0"));

    let plan = Resolver::new(u)
        .resolve_with_installed(&["A", "new"], &[("old".to_string(), Version::parse("1.0").unwrap())])
        .unwrap();
    assert!(
        plan.remove.contains(&("old".to_string(), Version::parse("1.0").unwrap())),
        "plan={:?}",
        plan.remove
    );
}

// ── Further cases ────────────────────────────────────────────────────────────

#[test]
fn request_gets_newest_version() {
    let mut u = Universe::new();
    u.add_package(pkg("A", "1.0"));
    u.add_package(pkg("A", "3.0"));
    u.add_package(pkg("A", "2.0"));
    let plan = Resolver::new(u).resolve(&["A"]).unwrap();
    assert_eq!(plan.install, vec![("A".to_string(), Version::parse("3.0").unwrap())]);
    assert!(plan.remove.is_empty());
}

#[test]
fn recommendation_resolves_to_highest_version() {
    let mut u = Universe::new();
    u.add_package(pkg_with("A", "1.0", "B", "C"));
    u.add_package(pkg("B", "1.0"));
    u.add_package(pkg("B", "2.0"));
    u.add_package(pkg("C", "0.5"));
    let plan: InstallPlan = Resolver::new(u).resolve(&["A"]).unwrap();
    assert_eq!(plan.recommended, vec![("B".to_string(), Version::parse("2.0").unwrap())]);
    assert_eq!(plan.suggested, vec![("C".to_string(), Version::parse("0.5").unwrap())]);
    assert!(plan.install.contains(&("B".to_string(), Version::parse("2.0").unwrap())));
    assert!(!names(&plan.install).contains(&"C"));
}

#[test]
fn unknown_is_first_unknown_request() {
    let mut u = Universe::new();
    u.add_package(pkg("A", "1.0"));
    match Resolver::new(u).resolve(&["A", "missing", "gone"]) {
        Err(SolverError::UnknownPackage(name)) => assert_eq!(name, "missing"),
        other => panic!("unexpected: {:?}", other.map(|p| p.install)),
    }
}

#[test]
fn installed_only_name_is_unknown() {
    let u = Universe::new();
    let result = Resolver::new(u)
        .resolve_with_installed(&["A"], &[("A".to_string(), Version::parse("1.0").unwrap())]);
    assert!(matches!(result, Err(SolverError::UnknownPackage(_))));
}

#[test]
fn empty_request_on_empty_universe() {
    let plan = Resolver::new(Universe::new()).resolve(&[]).unwrap();
    assert!(plan.install.is_empty() && plan.remove.is_empty());
    assert!(plan.recommended.is_empty() && plan.suggested.is_empty());
}

#[test]
fn no_solution_message() {
    let mut u = Universe::new();
    u.add_package(Package {
        name: "A".to_string(),
        version: Version::parse("1.0").unwrap(),
        depends: DependencyGroup::parse("B (>= 2.0)").unwrap(),
        pre_depends: vec![],
        conflicts: vec![],
        breaks: vec![],
        provides: vec![],
        recommends: vec![],
        suggests: vec![],
    });
    u.add_package(pkg("B", "1.0"));
    match Resolver::new(u).resolve(&["A"]) {
        Err(SolverError::NoSolution(msg)) => {
            assert_eq!(msg, "no consistent package selection satisfies all constraints")
        }
        other => panic!("unexpected: {:?}", other.map(|p| p.install)),
    }
}

#[test]
fn breaks_excludes_like_conflicts() {
    let mut u = Universe::new();
    u.add_package(Package {
        name: "A".to_string(),
        version: Version::parse("1.0").unwrap(),
        depends: vec![],
        pre_depends: vec![],
        conflicts: vec![],
        breaks: DependencyGroup::parse("B (<< 2.0)").unwrap(),
        provides: vec![],
        recommends: vec![],
        suggests: vec![],
    });
    u.add_package(pkg("B", "1.0"));
    u.add_package(pkg("B", "2.0"));
    let plan = Resolver::new(u).resolve(&["A", "B"]).unwrap();
    assert!(plan.install.contains(&("B".to_string(), Version::parse("2.0").unwrap())));
    assert!(!plan.install.contains(&("B".to_string(), Version::parse("1.0").unwrap())));
}

#[test]
fn parallel_resolver_agrees() {
    let mut u = Universe::new();
    u.add_package(Package {
        name: "A".to_string(),
        version: Version::parse("1.0").unwrap(),
        depends: DependencyGroup::parse("B | C").unwrap(),
        pre_depends: vec![],
        conflicts: vec![],
        breaks: vec![],
        provides: vec![],
        recommends: vec![],
        suggests: vec![],
    });
    u.add_package(pkg("B", "1.0"));
    let plan = Resolver::with_threads(u, 4).resolve(&["A"]).unwrap();
    let names = names(&plan.install);
    assert!(names.contains(&"A") && names.contains(&"B"));
}

#[test]
fn conflicting_requests_are_proven_unsatisfiable() {
    let mut u = Universe::new();
    u.add_package(Package {
        name: "A".to_string(),
        version: Version::parse("1.0").unwrap(),
        depends: vec![],
        pre_depends: vec![],
        conflicts: DependencyGroup::parse("B").unwrap(),
        breaks: vec![],
        provides: vec![],
        recommends: vec![],
        suggests: vec![],
    });
    u.add_package(pkg("B", "1.0"));
    match Resolver::with_threads(u, 4).resolve(&["A", "B"]) {
        Err(SolverError::NoSolution(msg)) => {
            assert_eq!(msg, "no consistent package selection satisfies all constraints")
        }
        other => panic!("unexpected: {:?}", other.map(|p| p.install)),
    }
}

#[test]
fn refutation_check_accepts_only_refutations() {
    let unsat = vec![
        Clause { literals: vec![Literal::pos(0)] },
        Clause { literals: vec![Literal::neg(0), Literal::pos(1)] },
        Clause { literals: vec![Literal::neg(1)] },
    ];
    assert!(refutation_holds(&unsat, 3, 2, &[]));
    let sat = vec![Clause { literals: vec![Literal::pos(0), Literal::pos(1)] }];
    assert!(!refutation_holds(&sat, 1, 2, &[]));
    assert!(refutation_holds(&sat, 1, 2, &[Literal::neg(0), Literal::neg(1)]));
}

fn pkg_depending(name: &str, version: &str, depends: &str) -> Package {
    let mut p = pkg(name, version);
    p.depends = DependencyGroup::parse(depends).unwrap();
    p
}

#[test]
fn newest_version_that_cannot_be_selected_falls_back() {
    let mut u = Universe::new();
    u.add_package(pkg("A", "1.0"));
    u.add_package(pkg_depending("A", "2.0", "B (>= 5)"));
    u.add_package(pkg("B", "1.0"));
    let plan = Resolver::new(u).resolve(&["A"]).unwrap();
    assert_eq!(plan.install, vec![("A".to_string(), Version::parse("1.0").unwrap())]);
}

#[test]
fn unneeded_packages_are_not_selected() {
    let mut u = Universe::new();
    u.add_package(pkg("A", "1.0"));
    u.add_package(pkg("B", "1.0"));
    u.add_package(pkg("C", "1.0"));
    let plan = Resolver::new(u).resolve(&["A"]).unwrap();
    assert_eq!(plan.install, vec![("A".to_string(), Version::parse("1.0").unwrap())]);
}

#[test]
fn unrequested_installed_package_is_kept() {
    let mut u = Universe::new();
    u.add_package(pkg("A", "1.0"));
    u.add_package(pkg("B", "1.0"));
    let installed = [("B".to_string(), Version::parse("1.0").unwrap())];
    let plan = Resolver::new(u).resolve_with_installed(&["A"], &installed).unwrap();
    assert_eq!(plan.install, vec![("A".to_string(), Version::parse("1.0").unwrap())]);
    assert!(plan.remove.is_empty(), "spurious removal: {:?}", plan.remove);
}

#[test]
fn plan_leaves_exactly_a_consistent_set() {
    let mut u = Universe::new();
    u.add_package(pkg_depending("A", "2.0", "C"));
    u.add_package(pkg("C", "1.0"));
    let installed = [("A".to_string(), Version::parse("1.0").unwrap()), ("D".to_string(), Version::parse("1.0").unwrap())];
    let plan = Resolver::new(u).resolve_with_installed(&["A"], &installed).unwrap();
    let mut left: Vec<(String, Version)> = plan.install.clone();
    for e in &installed {
        if !plan.remove.contains(e) {
            left.push(e.clone());
        }
    }
    let mut names_left: Vec<&str> = left.iter().map(|(n, _)| n.as_str()).collect();
    names_left.sort();
    assert_eq!(names_left, vec!["A", "C", "D"]);
    assert!(left.contains(&("A".to_string(), Version::parse("2.0").unwrap())));
    assert_eq!(plan.remove, vec![("A".to_string(), Version::parse("1.0").unwrap())]);
}
