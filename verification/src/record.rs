//! The unit of identity in the dependency graph: a source file's path
//! together with the four symbol sets extracted from it. Files are referred
//! to everywhere else by their index in the input vector, so the record
//! itself carries no interior references.

use vstd::prelude::*;

verus! {

/// The two namespaces a name can live in. Classes share the package
/// namespace, since a class acts as an importable scoped container.
#[derive(Clone, Copy)]
pub enum Namespace {
    Module,
    Package,
}

/// One input file: its path and the names it defines and uses, per
/// namespace. The four lists are duplicate-free by construction but are
/// treated as sets: only membership matters.
pub struct FileRecord {
    pub path: String,
    pub modules_defined: Vec<String>,
    pub modules_used: Vec<String>,
    pub packages_defined: Vec<String>,
    pub packages_used: Vec<String>,
}

/// Membership of a name in a list of names, by string content.
pub open spec fn list_has(l: Seq<String>, name: Seq<char>) -> bool {
    exists|k: int| 0 <= k < l.len() && #[trigger] l[k]@ == name
}

/// No two entries of the list hold the same string.
pub open spec fn names_distinct(l: Seq<String>) -> bool {
    forall|k1: int, k2: int|
        0 <= k1 < k2 < l.len() ==> #[trigger] l[k1]@ != #[trigger] l[k2]@
}

impl FileRecord {
    /// The file defines `name` in namespace `ns`.
    pub open spec fn defines(&self, ns: Namespace, name: Seq<char>) -> bool {
        match ns {
            Namespace::Module => list_has(self.modules_defined@, name),
            Namespace::Package => list_has(self.packages_defined@, name),
        }
    }

    /// The file uses `name` in namespace `ns`.
    pub open spec fn uses(&self, ns: Namespace, name: Seq<char>) -> bool {
        match ns {
            Namespace::Module => list_has(self.modules_used@, name),
            Namespace::Package => list_has(self.packages_used@, name),
        }
    }

    /// All four symbol lists are duplicate-free.
    pub open spec fn wf(&self) -> bool {
        &&& names_distinct(self.modules_defined@)
        &&& names_distinct(self.modules_used@)
        &&& names_distinct(self.packages_defined@)
        &&& names_distinct(self.packages_used@)
    }
}

/// Linear membership test against a list of names.
pub fn name_list_contains(l: &Vec<String>, name: &String) -> (r: bool)
    ensures
        r == list_has(l@, name@),
{
    let mut k: usize = 0;
    while k < l.len()
        invariant
            k <= l.len(),
            forall|k2: int| 0 <= k2 < k ==> #[trigger] l@[k2]@ != name@,
        decreases l.len() - k,
    {
        if l[k] == *name {
            assert(l@[k as int]@ == name@);
            return true;
        }
        k += 1;
    }
    false
}

/// Appends `name` unless an equal string is already present, so the list
/// stays duplicate-free while gaining exactly this member.
pub fn push_name_if_absent(l: &mut Vec<String>, name: String)
    requires
        names_distinct(old(l)@),
    ensures
        names_distinct(final(l)@),
        forall|n: Seq<char>|
            #[trigger] list_has(final(l)@, n) <==> list_has(old(l)@, n) || n == name@,
{
    if !name_list_contains(l, &name) {
        let ghost prev = l@;
        l.push(name);
        assert forall|n: Seq<char>| #[trigger]
            list_has(l@, n) <==> list_has(prev, n) || n == name@ by {
            if list_has(prev, n) {
                let k = choose|k: int| 0 <= k < prev.len() && #[trigger] prev[k]@ == n;
                assert(l@[k]@ == n);
            }
            if n == name@ {
                assert(l@[l@.len() - 1]@ == n);
            }
            if list_has(l@, n) {
                let k = choose|k: int| 0 <= k < l@.len() && #[trigger] l@[k]@ == n;
                if k < prev.len() {
                    assert(prev[k]@ == n);
                }
            }
        }
        assert forall|k1: int, k2: int| 0 <= k1 < k2 < l@.len() implies #[trigger] l@[k1]@
            != #[trigger] l@[k2]@ by {
            if k2 == l@.len() - 1 {
                assert(!list_has(prev, name@));
                assert(prev[k1]@ != name@);
            }
        }
    }
}

} // verus!
