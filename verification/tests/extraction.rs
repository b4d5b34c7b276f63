use sv_order::extract::{collect_modules, collect_packages, SyntaxFact, SyntaxNodeKind};
use sv_order::record::FileRecord;

fn fact(kind: SyntaxNodeKind, name: &str) -> SyntaxFact {
    SyntaxFact { kind, name: name.to_string() }
}

#[test]
fn extraction_classifies_each_node_kind() {
    let facts = vec![
        fact(SyntaxNodeKind::ModuleDeclaration, "md"),
        fact(SyntaxNodeKind::ModuleInstantiation, "mu"),
        fact(SyntaxNodeKind::PackageDeclaration, "pd"),
        fact(SyntaxNodeKind::ClassDeclaration, "cd"),
        fact(SyntaxNodeKind::PackageImportItem, "pu"),
        fact(SyntaxNodeKind::ClassScope, "cu"),
    ];
    let (md, mu) = collect_modules(&facts);
    assert_eq!(md, vec!["md".to_string()]);
    assert_eq!(mu, vec!["mu".to_string()]);
    let (pd, pu) = collect_packages(&facts);
    assert_eq!(pd, vec!["pd".to_string(), "cd".to_string()]);
    assert_eq!(pu, vec!["pu".to_string(), "cu".to_string()]);
}

#[test]
fn extraction_deduplicates_names() {
    let facts = vec![
        fact(SyntaxNodeKind::ModuleInstantiation, "m"),
        fact(SyntaxNodeKind::ModuleInstantiation, "m"),
        fact(SyntaxNodeKind::ModuleInstantiation, "other"),
    ];
    let (_, mu) = collect_modules(&facts);
    assert_eq!(mu, vec!["m".to_string(), "other".to_string()]);
}

#[test]
fn class_and_package_share_a_namespace() {
    // A class declaration satisfies a package import of the same name:
    // both live in the package namespace.
    let facts = vec![fact(SyntaxNodeKind::ClassDeclaration, "shared")];
    let (pd, _) = collect_packages(&facts);
    assert_eq!(pd, vec!["shared".to_string()]);
}

#[test]
fn record_carries_path_and_all_four_sets() {
    let facts = vec![
        fact(SyntaxNodeKind::ModuleDeclaration, "m1"),
        fact(SyntaxNodeKind::ModuleInstantiation, "m2"),
        fact(SyntaxNodeKind::PackageDeclaration, "p1"),
        fact(SyntaxNodeKind::PackageImportItem, "p2"),
    ];
    let r = FileRecord::new("f.sv".to_string(), &facts);
    assert_eq!(r.path, "f.sv");
    assert_eq!(r.modules_defined, vec!["m1".to_string()]);
    assert_eq!(r.modules_used, vec!["m2".to_string()]);
    assert_eq!(r.packages_defined, vec!["p1".to_string()]);
    assert_eq!(r.packages_used, vec!["p2".to_string()]);
}
