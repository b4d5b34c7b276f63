use sv_order::extract::{SyntaxFact, SyntaxNodeKind};
use sv_order::order::{compilation_order, compute_order};
use sv_order::record::{FileRecord, Namespace};
use sv_order::order::resolve_dependents;
use sv_order::resolve::{lookup_def, resolve_dependencies};

fn fact(kind: SyntaxNodeKind, name: &str) -> SyntaxFact {
    SyntaxFact { kind, name: name.to_string() }
}

fn record(path: &str, facts: Vec<SyntaxFact>) -> FileRecord {
    FileRecord::new(path.to_string(), &facts)
}

#[test]
fn end_to_end_definer_before_user() {
    let files = vec![
        record("top.sv", vec![fact(SyntaxNodeKind::ModuleInstantiation, "leaf")]),
        record("leaf.sv", vec![fact(SyntaxNodeKind::ModuleDeclaration, "leaf")]),
    ];
    let order = compilation_order(&files);
    assert_eq!(order, vec![1, 0]);
    assert_eq!(files[order[0]].path, "leaf.sv");
    assert_eq!(files[order[1]].path, "top.sv");
}

#[test]
fn priority_rule_package_wins() {
    // File a defines package p and instantiates module m; file b declares
    // module m and imports package p. Only the package direction survives:
    // b depends on a, and a is printed first.
    let files = vec![
        record(
            "a.sv",
            vec![
                fact(SyntaxNodeKind::PackageDeclaration, "p"),
                fact(SyntaxNodeKind::ModuleInstantiation, "m"),
            ],
        ),
        record(
            "b.sv",
            vec![
                fact(SyntaxNodeKind::ModuleDeclaration, "m"),
                fact(SyntaxNodeKind::PackageImportItem, "p"),
            ],
        ),
    ];
    let deps = resolve_dependencies(&files);
    assert_eq!(deps[0], Vec::<usize>::new());
    assert_eq!(deps[1], vec![0]);
    let users = resolve_dependents(&deps);
    assert_eq!(users[0], vec![1]);
    assert_eq!(users[1], Vec::<usize>::new());
    let order = compute_order(&files, &deps);
    assert_eq!(order, vec![0, 1]);
}

#[test]
fn lone_file_is_its_own_output() {
    let files = vec![record("alone.sv", vec![])];
    let order = compilation_order(&files);
    assert_eq!(order, vec![0]);
}

#[test]
fn shared_dependency_emitted_once() {
    // x and y both instantiate a module that z declares: z appears exactly
    // once, before both.
    let files = vec![
        record("x.sv", vec![fact(SyntaxNodeKind::ModuleInstantiation, "m")]),
        record("y.sv", vec![fact(SyntaxNodeKind::ModuleInstantiation, "m")]),
        record("z.sv", vec![fact(SyntaxNodeKind::ModuleDeclaration, "m")]),
    ];
    let order = compilation_order(&files);
    assert_eq!(order, vec![2, 0, 1]);
    assert_eq!(order.iter().filter(|&&i| i == 2).count(), 1);
    let z_pos = order.iter().position(|&i| i == 2).unwrap();
    assert!(z_pos < order.iter().position(|&i| i == 0).unwrap());
    assert!(z_pos < order.iter().position(|&i| i == 1).unwrap());
}

#[test]
fn unresolved_external_use_keeps_file_a_root() {
    // A use of a name that no input defines produces no edge: the file
    // stands alone and is still emitted.
    let files = vec![
        record(
            "u.sv",
            vec![fact(SyntaxNodeKind::ModuleInstantiation, "UNDEFINED_EXTERNAL")],
        ),
    ];
    let deps = resolve_dependencies(&files);
    assert_eq!(deps[0], Vec::<usize>::new());
    let order = compute_order(&files, &deps);
    assert_eq!(order, vec![0]);
}

#[test]
fn rootless_cycle_files_are_omitted() {
    // p and q instantiate each other's modules with no package-pass
    // override and nothing else referencing them: neither is a root, so
    // neither is emitted.
    let files = vec![
        record(
            "p.sv",
            vec![
                fact(SyntaxNodeKind::ModuleDeclaration, "pm"),
                fact(SyntaxNodeKind::ModuleInstantiation, "qm"),
            ],
        ),
        record(
            "q.sv",
            vec![
                fact(SyntaxNodeKind::ModuleDeclaration, "qm"),
                fact(SyntaxNodeKind::ModuleInstantiation, "pm"),
            ],
        ),
    ];
    let order = compilation_order(&files);
    assert_eq!(order, Vec::<usize>::new());
}

#[test]
fn cycle_reachable_from_root_emitted_once() {
    // A root above a two-file cycle still reaches both members; each is
    // emitted exactly once, with no crash.
    let files = vec![
        record("r.sv", vec![fact(SyntaxNodeKind::ModuleInstantiation, "pm")]),
        record(
            "p.sv",
            vec![
                fact(SyntaxNodeKind::ModuleDeclaration, "pm"),
                fact(SyntaxNodeKind::ModuleInstantiation, "qm"),
            ],
        ),
        record(
            "q.sv",
            vec![
                fact(SyntaxNodeKind::ModuleDeclaration, "qm"),
                fact(SyntaxNodeKind::ModuleInstantiation, "pm"),
            ],
        ),
    ];
    let order = compilation_order(&files);
    assert_eq!(order.len(), 3);
    for i in 0..3 {
        assert_eq!(order.iter().filter(|&&x| x == i).count(), 1);
    }
    // The root comes last in its own post-order walk.
    assert_eq!(order[2], 0);
}

#[test]
fn later_definition_wins() {
    // Two files define the same module name: the later one in input order
    // silently wins, so the user depends on it alone.
    let files = vec![
        record("a.sv", vec![fact(SyntaxNodeKind::ModuleDeclaration, "m")]),
        record("b.sv", vec![fact(SyntaxNodeKind::ModuleDeclaration, "m")]),
        record("c.sv", vec![fact(SyntaxNodeKind::ModuleInstantiation, "m")]),
    ];
    assert_eq!(lookup_def(&files, Namespace::Module, &"m".to_string()), Some(1));
    let deps = resolve_dependencies(&files);
    assert_eq!(deps[2], vec![1]);
    let order = compute_order(&files, &deps);
    assert_eq!(order, vec![0, 1, 2]);
}

#[test]
fn self_use_is_not_a_dependency() {
    let files = vec![
        record(
            "s.sv",
            vec![
                fact(SyntaxNodeKind::ModuleDeclaration, "m"),
                fact(SyntaxNodeKind::ModuleInstantiation, "m"),
            ],
        ),
    ];
    let deps = resolve_dependencies(&files);
    assert_eq!(deps[0], Vec::<usize>::new());
    let order = compute_order(&files, &deps);
    assert_eq!(order, vec![0]);
}

#[test]
fn diamond_has_no_duplicates() {
    // a and b both lean on c, which leans on d: every file appears exactly
    // once and each dependency precedes its users.
    let files = vec![
        record("a.sv", vec![fact(SyntaxNodeKind::ModuleInstantiation, "mc")]),
        record("b.sv", vec![fact(SyntaxNodeKind::ModuleInstantiation, "mc")]),
        record(
            "c.sv",
            vec![
                fact(SyntaxNodeKind::ModuleDeclaration, "mc"),
                fact(SyntaxNodeKind::ModuleInstantiation, "md"),
            ],
        ),
        record("d.sv", vec![fact(SyntaxNodeKind::ModuleDeclaration, "md")]),
    ];
    let order = compilation_order(&files);
    assert_eq!(order, vec![3, 2, 0, 1]);
}

#[test]
fn package_import_orders_definer_first() {
    let files = vec![
        record("user.sv", vec![fact(SyntaxNodeKind::PackageImportItem, "pkg")]),
        record("pkg.sv", vec![fact(SyntaxNodeKind::PackageDeclaration, "pkg")]),
    ];
    let order = compilation_order(&files);
    assert_eq!(order, vec![1, 0]);
}

#[test]
fn class_scope_use_orders_definer_first() {
    let files = vec![
        record("user.sv", vec![fact(SyntaxNodeKind::ClassScope, "klass")]),
        record("klass.sv", vec![fact(SyntaxNodeKind::ClassDeclaration, "klass")]),
    ];
    let order = compilation_order(&files);
    assert_eq!(order, vec![1, 0]);
}
