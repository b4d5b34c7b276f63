//! Symbol extraction: from the relevant syntax-tree nodes of one file —
//! each reduced to its kind and its resolved identifier text — to the four
//! name sets that drive dependency resolution.

use vstd::prelude::*;
use crate::record::{FileRecord, Namespace, list_has, names_distinct, push_name_if_absent};

verus! {

/// The six syntax-tree node kinds that carry define/use information. A
/// class declaration defines, and a class-scope qualifier uses, a name in
/// the package namespace: classes act as importable scoped containers.
#[derive(Clone, Copy)]
pub enum SyntaxNodeKind {
    ModuleInstantiation,
    ModuleDeclaration,
    PackageDeclaration,
    ClassDeclaration,
    PackageImportItem,
    ClassScope,
}

/// One relevant node of a file's syntax tree: its kind and the identifier
/// it declares, instantiates or references, as resolved text. A plain and
/// an escaped identifier form resolve to the same text before this point.
pub struct SyntaxFact {
    pub kind: SyntaxNodeKind,
    pub name: String,
}

/// Whether a node of this kind defines (`defines` true) or uses a name in
/// namespace `ns`.
pub open spec fn fact_in_slot(f: SyntaxFact, ns: Namespace, defines: bool) -> bool {
    match ns {
        Namespace::Module => {
            if defines {
                f.kind is ModuleDeclaration
            } else {
                f.kind is ModuleInstantiation
            }
        },
        Namespace::Package => {
            if defines {
                f.kind is PackageDeclaration || f.kind is ClassDeclaration
            } else {
                f.kind is PackageImportItem || f.kind is ClassScope
            }
        },
    }
}

/// Some fact carries name `n` in the given namespace and role.
pub open spec fn facts_have(facts: Seq<SyntaxFact>, ns: Namespace, defines: bool, n: Seq<char>) -> bool {
    exists|k: int|
        0 <= k < facts.len() && fact_in_slot(#[trigger] facts[k], ns, defines) && facts[k].name@
            == n
}

/// `facts_have` restricted to the first `kk` facts.
spec fn facts_have_upto(
    facts: Seq<SyntaxFact>,
    ns: Namespace,
    defines: bool,
    kk: int,
    n: Seq<char>,
) -> bool {
    exists|k: int|
        0 <= k < kk && fact_in_slot(#[trigger] facts[k], ns, defines) && facts[k].name@ == n
}

/// Classifies one fact against a namespace and role.
fn fact_matches(f: &SyntaxFact, ns: Namespace, defines: bool) -> (r: bool)
    ensures
        r == fact_in_slot(*f, ns, defines),
{
    match ns {
        Namespace::Module => match f.kind {
            SyntaxNodeKind::ModuleDeclaration => defines,
            SyntaxNodeKind::ModuleInstantiation => !defines,
            _ => false,
        },
        Namespace::Package => match f.kind {
            SyntaxNodeKind::PackageDeclaration => defines,
            SyntaxNodeKind::ClassDeclaration => defines,
            SyntaxNodeKind::PackageImportItem => !defines,
            SyntaxNodeKind::ClassScope => !defines,
            _ => false,
        },
    }
}

/// One pass over the facts, gathering the distinct names of one namespace
/// and role.
fn collect_slot(facts: &Vec<SyntaxFact>, ns: Namespace, defines: bool) -> (r: Vec<String>)
    ensures
        names_distinct(r@),
        forall|n: Seq<char>| #[trigger] list_has(r@, n) <==> facts_have(facts@, ns, defines, n),
{
    let mut r: Vec<String> = Vec::new();
    let mut k: usize = 0;
    while k < facts.len()
        invariant
            k <= facts@.len(),
            names_distinct(r@),
            forall|n: Seq<char>|
                #[trigger] list_has(r@, n) <==> facts_have_upto(facts@, ns, defines, k as int, n),
        decreases facts.len() - k,
    {
        let ghost r_prev = r@;
        let matched = fact_matches(&facts[k], ns, defines);
        if matched {
            push_name_if_absent(&mut r, facts[k].name.clone());
        }
        proof {
            assert forall|n: Seq<char>| #[trigger] list_has(r@, n) <==> facts_have_upto(
                facts@,
                ns,
                defines,
                k as int + 1,
                n,
            ) by {
                if list_has(r@, n) && !list_has(r_prev, n) {
                    assert(fact_in_slot(facts@[k as int], ns, defines) && facts@[k as int].name@
                        == n);
                }
                if facts_have_upto(facts@, ns, defines, k as int + 1, n) && !list_has(r_prev, n) {
                    let k2 = choose|k2: int|
                        0 <= k2 < k as int + 1 && fact_in_slot(#[trigger] facts@[k2], ns, defines)
                            && facts@[k2].name@ == n;
                    if k2 < k as int {
                        assert(facts_have_upto(facts@, ns, defines, k as int, n));
                    } else {
                        assert(matched);
                        assert(list_has(r@, n));
                    }
                }
            }
        }
        k += 1;
    }
    r
}

/// The module names a file's syntax tree defines and uses: declarations
/// define, instantiations use.
pub fn collect_modules(facts: &Vec<SyntaxFact>) -> (r: (Vec<String>, Vec<String>))
    ensures
        names_distinct(r.0@),
        names_distinct(r.1@),
        forall|n: Seq<char>|
            #[trigger] list_has(r.0@, n) <==> facts_have(facts@, Namespace::Module, true, n),
        forall|n: Seq<char>|
            #[trigger] list_has(r.1@, n) <==> facts_have(facts@, Namespace::Module, false, n),
{
    let defined = collect_slot(facts, Namespace::Module, true);
    let used = collect_slot(facts, Namespace::Module, false);
    (defined, used)
}

/// The package/class names a file's syntax tree defines and uses: package
/// and class declarations define, import items and class-scope qualifiers
/// use.
pub fn collect_packages(facts: &Vec<SyntaxFact>) -> (r: (Vec<String>, Vec<String>))
    ensures
        names_distinct(r.0@),
        names_distinct(r.1@),
        forall|n: Seq<char>|
            #[trigger] list_has(r.0@, n) <==> facts_have(facts@, Namespace::Package, true, n),
        forall|n: Seq<char>|
            #[trigger] list_has(r.1@, n) <==> facts_have(facts@, Namespace::Package, false, n),
{
    let defined = collect_slot(facts, Namespace::Package, true);
    let used = collect_slot(facts, Namespace::Package, false);
    (defined, used)
}

impl FileRecord {
    /// Builds the record for one input file from its path and the relevant
    /// nodes of its syntax tree: afterwards the record defines or uses a
    /// name exactly when some node of the matching kind carries it.
    pub fn new(path: String, facts: &Vec<SyntaxFact>) -> (r: FileRecord)
        ensures
            r.path == path,
            r.wf(),
            forall|n: Seq<char>|
                #[trigger] r.defines(Namespace::Module, n) <==> facts_have(
                    facts@,
                    Namespace::Module,
                    true,
                    n,
                ),
            forall|n: Seq<char>|
                #[trigger] r.uses(Namespace::Module, n) <==> facts_have(
                    facts@,
                    Namespace::Module,
                    false,
                    n,
                ),
            forall|n: Seq<char>|
                #[trigger] r.defines(Namespace::Package, n) <==> facts_have(
                    facts@,
                    Namespace::Package,
                    true,
                    n,
                ),
            forall|n: Seq<char>|
                #[trigger] r.uses(Namespace::Package, n) <==> facts_have(
                    facts@,
                    Namespace::Package,
                    false,
                    n,
                ),
    {
        let (modules_defined, modules_used) = collect_modules(facts);
        let (packages_defined, packages_used) = collect_packages(facts);
        FileRecord { path, modules_defined, modules_used, packages_defined, packages_used }
    }
}

} // verus!
