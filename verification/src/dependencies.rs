//! Lockfile parsing and graph classification of dependencies into root,
//! direct and indirect packages.

use vstd::prelude::*;

use crate::util::{chars_lt, lemma_chars_lt_trans, lemma_chars_trichotomy, str_eq, str_lt};

verus! {

/// One package record from the lockfile: its identity and the identities
/// of the packages it depends on.
pub struct Package {
    pub name: String,
    pub version: String,
    pub deps: Vec<(String, String)>,
}

/// The mathematical image of a package record.
pub ghost struct SpecPackage {
    pub name: Seq<char>,
    pub version: Seq<char>,
    pub deps: Seq<(Seq<char>, Seq<char>)>,
}

impl DeepView for Package {
    type V = SpecPackage;

    open spec fn deep_view(&self) -> SpecPackage {
        SpecPackage { name: self.name@, version: self.version@, deps: self.deps.deep_view() }
    }
}

/// What the lockfile text denotes: the package records, with dependency
/// identities resolved, in file order; `None` for text that is not a
/// well-formed lockfile.  A function of the text alone.
pub uninterp spec fn lockfile_of(s: Seq<char>) -> Option<Seq<SpecPackage>>;

/// Relies on cargo_lock::Lockfile::from_str, whose `Package` records
/// carry resolved name/version pairs for every dependency; the outcome
/// depends on the text alone.
#[verifier::external_body]
fn parse_lockfile_raw(text: &str) -> (r: Option<Vec<Package>>)
    ensures
        r.deep_view() == lockfile_of(text@),
{
    let lockfile: cargo_lock::Lockfile = match text.parse() {
        Ok(l) => l,
        Err(_) => return None,
    };
    let convert = |p: &cargo_lock::Package| Package {
        name: p.name.as_str().to_owned(),
        version: p.version.to_string(),
        deps: p.dependencies.iter().map(|d| (d.name.as_str().to_owned(), d.version.to_string())).collect(),
    };
    Some(lockfile.packages.iter().map(convert).collect())
}

/// Parses lockfile text into package records; `None` means the text is
/// not a well-formed lockfile, which callers treat as fatal.
pub fn parse_lockfile(text: &str) -> (r: Option<Vec<Package>>)
    ensures
        r.deep_view() == lockfile_of(text@),
{
    parse_lockfile_raw(text)
}

/// Strict order on (name, version) pairs: by name, then by version.
pub open spec fn pair_lt(a: (Seq<char>, Seq<char>), b: (Seq<char>, Seq<char>)) -> bool {
    chars_lt(a.0, b.0) || (a.0 == b.0 && chars_lt(a.1, b.1))
}

/// Strictly ascending, hence duplicate-free.
pub open spec fn pairs_sorted_unique(s: Seq<(Seq<char>, Seq<char>)>) -> bool {
    forall|i: int, j: int| 0 <= i < j < s.len() ==> pair_lt(s[i], s[j])
}

pub proof fn lemma_pair_trichotomy(a: (Seq<char>, Seq<char>), b: (Seq<char>, Seq<char>))
    ensures
        pair_lt(a, b) || pair_lt(b, a) || a == b,
        !(pair_lt(a, b) && pair_lt(b, a)),
        pair_lt(a, b) ==> a != b,
{
    lemma_chars_trichotomy(a.0, b.0);
    lemma_chars_trichotomy(a.1, b.1);
}

pub proof fn lemma_pair_lt_trans(
    a: (Seq<char>, Seq<char>),
    b: (Seq<char>, Seq<char>),
    c: (Seq<char>, Seq<char>),
)
    requires
        pair_lt(a, b),
        pair_lt(b, c),
    ensures
        pair_lt(a, c),
{
    if chars_lt(a.0, b.0) && chars_lt(b.0, c.0) {
        lemma_chars_lt_trans(a.0, b.0, c.0);
    } else if a.0 == b.0 && a.1 != b.1 && b.0 == c.0 && b.1 != c.1 {
        lemma_chars_lt_trans(a.1, b.1, c.1);
    }
}

/// Compares two name/version pairs.
fn pair_lt_exec(a: &(String, String), b: &(String, String)) -> (r: bool)
    ensures
        r == pair_lt(a.deep_view(), b.deep_view()),
{
    proof {
        lemma_chars_trichotomy(a.0@, b.0@);
    }
    if str_eq(a.0.as_str(), b.0.as_str()) {
        str_lt(a.1.as_str(), b.1.as_str())
    } else {
        str_lt(a.0.as_str(), b.0.as_str())
    }
}

/// Inserts a pair into a sorted duplicate-free vector, keeping it so;
/// an already-present pair is dropped.
fn insert_pair(out: &mut Vec<(String, String)>, x: (String, String))
    requires
        pairs_sorted_unique(old(out).deep_view()),
    ensures
        pairs_sorted_unique(final(out).deep_view()),
        final(out).deep_view().to_set() == old(out).deep_view().to_set().insert(x.deep_view()),
{
    let n = out.len();
    let mut i: usize = 0;
    while i < n && pair_lt_exec(&out[i], &x)
        invariant
            i <= n,
            n == out.len(),
            *out == *old(out),
            pairs_sorted_unique(out.deep_view()),
            forall|k: int| 0 <= k < i ==> pair_lt(#[trigger] out.deep_view()[k], x.deep_view()),
        decreases n - i,
    {
        i = i + 1;
    }
    let ghost prev = out.deep_view();
    let ghost pos = i as int;
    let ghost xv = x.deep_view();
    if i < n && str_eq(out[i].0.as_str(), x.0.as_str()) && str_eq(out[i].1.as_str(), x.1.as_str()) {
        proof {
            assert(prev[pos] == xv);
            assert(prev.contains(xv));
            assert(final(out).deep_view().to_set() =~= prev.to_set().insert(xv));
        }
        return ;
    }
    proof {
        if pos < prev.len() {
            lemma_pair_trichotomy(xv, prev[pos]);
            assert(pair_lt(xv, prev[pos]));
        }
    }
    out.insert(i, x);
    proof {
        let dv = out.deep_view();
        assert(dv =~= prev.insert(pos, xv));
        assert forall|a: int, b: int| 0 <= a < b < dv.len() implies pair_lt(dv[a], dv[b]) by {
            if b < pos {
            } else if b == pos {
                assert(dv[a] == prev[a] && pair_lt(prev[a], xv));
            } else if a == pos {
                let c = prev[b - 1];
                assert(dv[b] == c);
                assert(pair_lt(xv, prev[pos]));
                if b - 1 > pos {
                    lemma_pair_lt_trans(xv, prev[pos], c);
                }
            } else if a < pos {
                assert(dv[a] == prev[a] && dv[b] == prev[b - 1]);
                assert(pair_lt(prev[a], prev[b - 1]));
            } else {
                assert(dv[a] == prev[a - 1] && dv[b] == prev[b - 1]);
                assert(pair_lt(prev[a - 1], prev[b - 1]));
            }
        }
        assert forall|p: (Seq<char>, Seq<char>)| dv.to_set().contains(p) implies prev.to_set().insert(
            xv,
        ).contains(p) by {
            let k = choose|k: int| 0 <= k < dv.len() && dv[k] == p;
            if k < pos {
                assert(prev[k] == p);
            } else if k == pos {
            } else {
                assert(prev[k - 1] == p);
            }
        }
        assert forall|p: (Seq<char>, Seq<char>)| prev.to_set().insert(xv).contains(p) implies dv.to_set().contains(
            p,
        ) by {
            if p == xv {
                assert(dv[pos] == p);
            } else {
                let k = choose|k: int| 0 <= k < prev.len() && prev[k] == p;
                if k < pos {
                    assert(dv[k] == p);
                } else {
                    assert(dv[k + 1] == p);
                }
            }
        }
        assert(dv.to_set() =~= prev.to_set().insert(xv));
    }
}

/// The identities of the packages: the graph's node set.
pub open spec fn node_set(pkgs: Seq<SpecPackage>) -> Set<(Seq<char>, Seq<char>)> {
    Set::new(
        |p: (Seq<char>, Seq<char>)|
            exists|i: int|
                0 <= i < pkgs.len() && (#[trigger] pkgs[i]).name == p.0 && pkgs[i].version == p.1,
    )
}

/// Some package depends on `p`: the node has an incoming edge.
pub open spec fn has_incoming(pkgs: Seq<SpecPackage>, p: (Seq<char>, Seq<char>)) -> bool {
    exists|i: int, j: int|
        0 <= i < pkgs.len() && 0 <= j < pkgs[i].deps.len() && #[trigger] pkgs[i].deps[j] == p
}

/// The nodes nothing depends on: the workspace's own packages.
pub open spec fn root_set(pkgs: Seq<SpecPackage>) -> Set<(Seq<char>, Seq<char>)> {
    Set::new(
        |p: (Seq<char>, Seq<char>)| node_set(pkgs).contains(p) && !has_incoming(pkgs, p),
    )
}

/// The nodes one outgoing edge away from a root.
pub open spec fn direct_set(pkgs: Seq<SpecPackage>) -> Set<(Seq<char>, Seq<char>)> {
    Set::new(
        |p: (Seq<char>, Seq<char>)|
            node_set(pkgs).contains(p) && exists|i: int, j: int|
                0 <= i < pkgs.len() && root_set(pkgs).contains((pkgs[i].name, pkgs[i].version))
                    && 0 <= j < pkgs[i].deps.len() && #[trigger] pkgs[i].deps[j] == p,
    )
}

/// The non-root nodes not in the direct set.
pub open spec fn indirect_set(pkgs: Seq<SpecPackage>) -> Set<(Seq<char>, Seq<char>)> {
    node_set(pkgs).difference(root_set(pkgs)).difference(direct_set(pkgs))
}

/// Does any package list (`name`, `version`) among its dependencies?
fn has_incoming_exec(pkgs: &Vec<Package>, name: &str, version: &str) -> (r: bool)
    ensures
        r == has_incoming(pkgs.deep_view(), (name@, version@)),
{
    let n = pkgs.len();
    let mut i: usize = 0;
    while i < n
        invariant
            i <= n,
            n == pkgs.len(),
            forall|a: int, b: int|
                0 <= a < i && 0 <= b < pkgs.deep_view()[a].deps.len()
                    ==> #[trigger] pkgs.deep_view()[a].deps[b] != (name@, version@),
        decreases n - i,
    {
        let p = &pkgs[i];
        let m = p.deps.len();
        let mut j: usize = 0;
        while j < m
            invariant
                j <= m,
                i < n,
                n == pkgs.len(),
                m == p.deps.len(),
                *p == pkgs[i as int],
                forall|b: int|
                    0 <= b < j ==> #[trigger] pkgs.deep_view()[i as int].deps[b] != (
                        name@,
                        version@,
                    ),
            decreases m - j,
        {
            let d = &p.deps[j];
            if str_eq(d.0.as_str(), name) && str_eq(d.1.as_str(), version) {
                proof {
                    assert(pkgs.deep_view()[i as int].deps[j as int] == (name@, version@));
                }
                return true;
            }
            j = j + 1;
        }
        i = i + 1;
    }
    false
}

/// Is (`name`, `version`) one of the packages?
fn node_member_exec(pkgs: &Vec<Package>, name: &str, version: &str) -> (r: bool)
    ensures
        r == node_set(pkgs.deep_view()).contains((name@, version@)),
{
    let n = pkgs.len();
    let mut i: usize = 0;
    while i < n
        invariant
            i <= n,
            n == pkgs.len(),
            forall|a: int|
                0 <= a < i ==> !((#[trigger] pkgs.deep_view()[a]).name == name@
                    && pkgs.deep_view()[a].version == version@),
        decreases n - i,
    {
        let p = &pkgs[i];
        if str_eq(p.name.as_str(), name) && str_eq(p.version.as_str(), version) {
            proof {
                assert(pkgs.deep_view()[i as int].name == name@);
            }
            return true;
        }
        i = i + 1;
    }
    false
}

/// Is (`name`, `version`) in the sorted list `v`?
fn pair_member_exec(v: &Vec<(String, String)>, name: &str, version: &str) -> (r: bool)
    ensures
        r == v.deep_view().to_set().contains((name@, version@)),
{
    let n = v.len();
    let mut i: usize = 0;
    while i < n
        invariant
            i <= n,
            n == v.len(),
            forall|a: int| 0 <= a < i ==> #[trigger] v.deep_view()[a] != (name@, version@),
        decreases n - i,
    {
        let p = &v[i];
        if str_eq(p.0.as_str(), name) && str_eq(p.1.as_str(), version) {
            proof {
                assert(v.deep_view()[i as int] == (name@, version@));
            }
            return true;
        }
        i = i + 1;
    }
    proof {
        if v.deep_view().to_set().contains((name@, version@)) {
            let k = choose|k: int|
                0 <= k < v.deep_view().len() && v.deep_view()[k] == (name@, version@);
            assert(v.deep_view()[k] != (name@, version@));
        }
    }
    false
}

/// The distinct (name, version) pairs of `packages`, sorted.
pub fn package_names(packages: &Vec<Package>) -> (r: Vec<(String, String)>)
    ensures
        pairs_sorted_unique(r.deep_view()),
        r.deep_view().to_set() == node_set(packages.deep_view()),
{
    let mut out: Vec<(String, String)> = Vec::new();
    let n = packages.len();
    let mut i: usize = 0;
    proof {
        assert(out.deep_view().to_set() =~= Set::<(Seq<char>, Seq<char>)>::empty());
    }
    while i < n
        invariant
            i <= n,
            n == packages.len(),
            pairs_sorted_unique(out.deep_view()),
            out.deep_view().to_set() == Set::new(
                |p: (Seq<char>, Seq<char>)|
                    exists|a: int|
                        0 <= a < i && (#[trigger] packages.deep_view()[a]).name == p.0
                            && packages.deep_view()[a].version == p.1,
            ),
        decreases n - i,
    {
        let p = &packages[i];
        let ghost before = out.deep_view().to_set();
        insert_pair(&mut out, (p.name.clone(), p.version.clone()));
        proof {
            assert(packages.deep_view()[i as int].name == p.name@);
            assert(out.deep_view().to_set() =~= Set::new(
                |q: (Seq<char>, Seq<char>)|
                    exists|a: int|
                        0 <= a < i + 1 && (#[trigger] packages.deep_view()[a]).name == q.0
                            && packages.deep_view()[a].version == q.1,
            ));
        }
        i = i + 1;
    }
    proof {
        assert(out.deep_view().to_set() =~= node_set(packages.deep_view()));
    }
    out
}

/// The outcome of classifying a package graph: every node, the direct
/// dependencies of the root set, and the remaining indirect ones, each
/// deduplicated and sorted.
pub struct Classification {
    pub all: Vec<(String, String)>,
    pub direct: Vec<(String, String)>,
    pub indirect: Vec<(String, String)>,
}

/// Partitions the package graph.  Roots are the nodes nothing depends
/// on; `direct` holds the nodes a root depends on, `indirect` every
/// other non-root node, and `all` the full node set.
pub fn classify(packages: &Vec<Package>) -> (r: Classification)
    ensures
        pairs_sorted_unique(r.all.deep_view()),
        pairs_sorted_unique(r.direct.deep_view()),
        pairs_sorted_unique(r.indirect.deep_view()),
        r.all.deep_view().to_set() == node_set(packages.deep_view()),
        r.direct.deep_view().to_set() == direct_set(packages.deep_view()),
        r.indirect.deep_view().to_set() == indirect_set(packages.deep_view()),
{
    let ghost pkgs = packages.deep_view();
    let all = package_names(packages);
    let n = packages.len();

    let mut direct: Vec<(String, String)> = Vec::new();
    let mut i: usize = 0;
    proof {
        assert(direct.deep_view().to_set() =~= Set::<(Seq<char>, Seq<char>)>::empty());
    }
    while i < n
        invariant
            i <= n,
            n == packages.len(),
            pkgs == packages.deep_view(),
            pairs_sorted_unique(direct.deep_view()),
            direct.deep_view().to_set() == Set::new(
                |p: (Seq<char>, Seq<char>)|
                    node_set(pkgs).contains(p) && exists|a: int, b: int|
                        0 <= a < i && root_set(pkgs).contains((pkgs[a].name, pkgs[a].version)) && 0
                            <= b < pkgs[a].deps.len() && #[trigger] pkgs[a].deps[b] == p,
            ),
        decreases n - i,
    {
        let p = &packages[i];
        let is_root = !has_incoming_exec(packages, p.name.as_str(), p.version.as_str());
        if is_root {
            let m = p.deps.len();
            let mut j: usize = 0;
            while j < m
                invariant
                    j <= m,
                    i < n,
                    n == packages.len(),
                    pkgs == packages.deep_view(),
                    *p == packages[i as int],
                    m == p.deps.len(),
                    root_set(pkgs).contains((pkgs[i as int].name, pkgs[i as int].version)),
                    pairs_sorted_unique(direct.deep_view()),
                    direct.deep_view().to_set() == Set::new(
                        |q: (Seq<char>, Seq<char>)|
                            (node_set(pkgs).contains(q) && exists|a: int, b: int|
                                0 <= a < i && root_set(pkgs).contains((pkgs[a].name, pkgs[a].version))
                                    && 0 <= b < pkgs[a].deps.len() && #[trigger] pkgs[a].deps[b]
                                    == q) || (node_set(pkgs).contains(q) && exists|b: int|
                                0 <= b < j && #[trigger] pkgs[i as int].deps[b] == q),
                    ),
                decreases m - j,
            {
                let d = &p.deps[j];
                let ghost before = direct.deep_view().to_set();
                if node_member_exec(packages, d.0.as_str(), d.1.as_str()) {
                    insert_pair(&mut direct, (d.0.clone(), d.1.clone()));
                }
                proof {
                    assert(pkgs[i as int].deps[j as int] == d.deep_view());
                    assert(direct.deep_view().to_set() =~= Set::new(
                        |q: (Seq<char>, Seq<char>)|
                            (node_set(pkgs).contains(q) && exists|a: int, b: int|
                                0 <= a < i && root_set(pkgs).contains((pkgs[a].name, pkgs[a].version))
                                    && 0 <= b < pkgs[a].deps.len() && #[trigger] pkgs[a].deps[b]
                                    == q) || (node_set(pkgs).contains(q) && exists|b: int|
                                0 <= b < j + 1 && #[trigger] pkgs[i as int].deps[b] == q),
                    ));
                }
                j = j + 1;
            }
        }
        proof {
            assert(direct.deep_view().to_set() =~= Set::new(
                |p: (Seq<char>, Seq<char>)|
                    node_set(pkgs).contains(p) && exists|a: int, b: int|
                        0 <= a < i + 1 && root_set(pkgs).contains((pkgs[a].name, pkgs[a].version))
                            && 0 <= b < pkgs[a].deps.len() && #[trigger] pkgs[a].deps[b] == p,
            ));
        }
        i = i + 1;
    }
    proof {
        assert(direct.deep_view().to_set() =~= direct_set(pkgs));
    }

    let mut indirect: Vec<(String, String)> = Vec::new();
    let mut i: usize = 0;
    proof {
        assert(indirect.deep_view().to_set() =~= Set::<(Seq<char>, Seq<char>)>::empty());
    }
    while i < n
        invariant
            i <= n,
            n == packages.len(),
            pkgs == packages.deep_view(),
            pairs_sorted_unique(indirect.deep_view()),
            direct.deep_view().to_set() == direct_set(pkgs),
            indirect.deep_view().to_set() == Set::new(
                |p: (Seq<char>, Seq<char>)|
                    has_incoming(pkgs, p) && !direct_set(pkgs).contains(p) && exists|a: int|
                        0 <= a < i && (#[trigger] pkgs[a]).name == p.0 && pkgs[a].version == p.1,
            ),
        decreases n - i,
    {
        let p = &packages[i];
        let ghost before = indirect.deep_view().to_set();
        if has_incoming_exec(packages, p.name.as_str(), p.version.as_str()) && !pair_member_exec(
            &direct,
            p.name.as_str(),
            p.version.as_str(),
        ) {
            insert_pair(&mut indirect, (p.name.clone(), p.version.clone()));
        }
        proof {
            assert(pkgs[i as int].name == p.name@ && pkgs[i as int].version == p.version@);
            assert(indirect.deep_view().to_set() =~= Set::new(
                |q: (Seq<char>, Seq<char>)|
                    has_incoming(pkgs, q) && !direct_set(pkgs).contains(q) && exists|a: int|
                        0 <= a < i + 1 && (#[trigger] pkgs[a]).name == q.0 && pkgs[a].version
                            == q.1,
            ));
        }
        i = i + 1;
    }
    proof {
        assert(indirect.deep_view().to_set() =~= indirect_set(pkgs));
    }

    Classification { all, direct, indirect }
}

/// The dependency lists of a lockfile's package graph, as the generated
/// output reports them: `deps` holds every non-root node, `direct_deps`
/// the root set's immediate dependencies, and `indirect_deps` the rest.
pub struct Dependencies {
    pub deps: Vec<(String, String)>,
    pub direct_deps: Vec<(String, String)>,
    pub indirect_deps: Vec<(String, String)>,
}

impl Dependencies {
    /// Classifies the graph, leaving the root packages themselves out of
    /// the dependency list.
    pub fn new(packages: &Vec<Package>) -> (r: Dependencies)
        ensures
            pairs_sorted_unique(r.deps.deep_view()),
            pairs_sorted_unique(r.direct_deps.deep_view()),
            pairs_sorted_unique(r.indirect_deps.deep_view()),
            r.deps.deep_view().to_set() == node_set(packages.deep_view()).difference(
                root_set(packages.deep_view()),
            ),
            r.direct_deps.deep_view().to_set() == direct_set(packages.deep_view()),
            r.indirect_deps.deep_view().to_set() == indirect_set(packages.deep_view()),
    {
        let ghost pkgs = packages.deep_view();
        let c = classify(packages);
        let n = packages.len();
        let mut deps: Vec<(String, String)> = Vec::new();
        let mut i: usize = 0;
        proof {
            assert(deps.deep_view().to_set() =~= Set::<(Seq<char>, Seq<char>)>::empty());
        }
        while i < n
            invariant
                i <= n,
                n == packages.len(),
                pkgs == packages.deep_view(),
                pairs_sorted_unique(deps.deep_view()),
                deps.deep_view().to_set() == Set::new(
                    |p: (Seq<char>, Seq<char>)|
                        has_incoming(pkgs, p) && exists|a: int|
                            0 <= a < i && (#[trigger] pkgs[a]).name == p.0 && pkgs[a].version
                                == p.1,
                ),
            decreases n - i,
        {
            let p = &packages[i];
            if has_incoming_exec(packages, p.name.as_str(), p.version.as_str()) {
                insert_pair(&mut deps, (p.name.clone(), p.version.clone()));
            }
            proof {
                assert(pkgs[i as int].name == p.name@ && pkgs[i as int].version == p.version@);
                assert(deps.deep_view().to_set() =~= Set::new(
                    |q: (Seq<char>, Seq<char>)|
                        has_incoming(pkgs, q) && exists|a: int|
                            0 <= a < i + 1 && (#[trigger] pkgs[a]).name == q.0 && pkgs[a].version
                                == q.1,
                ));
            }
            i = i + 1;
        }
        proof {
            assert(deps.deep_view().to_set() =~= node_set(pkgs).difference(root_set(pkgs)));
        }
        Dependencies { deps, direct_deps: c.direct, indirect_deps: c.indirect }
    }
}

/// Parses lockfile text and classifies its package graph; `None` is the
/// fatal malformed-lockfile outcome.  Because the parse depends on the
/// text alone and the output is pinned by the graph, two runs on
/// unchanged text agree (`lemma_classification_deterministic`).
pub fn classify_lockfile(text: &str) -> (r: Option<Classification>)
    ensures
        r is Some <==> lockfile_of(text@) is Some,
        r matches Some(c) ==> lockfile_of(text@) matches Some(pkgs) && {
            &&& pairs_sorted_unique(c.all.deep_view())
            &&& pairs_sorted_unique(c.direct.deep_view())
            &&& pairs_sorted_unique(c.indirect.deep_view())
            &&& c.all.deep_view().to_set() == node_set(pkgs)
            &&& c.direct.deep_view().to_set() == direct_set(pkgs)
            &&& c.indirect.deep_view().to_set() == indirect_set(pkgs)
        },
{
    match parse_lockfile(text) {
        None => None,
        Some(packages) => Some(classify(&packages)),
    }
}

/// Two sorted, duplicate-free sequences with the same elements are the
/// same sequence: sorting is idempotent and classification output is
/// uniquely determined by its element set.
pub proof fn lemma_sorted_unique_equal(
    a: Seq<(Seq<char>, Seq<char>)>,
    b: Seq<(Seq<char>, Seq<char>)>,
)
    requires
        pairs_sorted_unique(a),
        pairs_sorted_unique(b),
        a.to_set() == b.to_set(),
    ensures
        a == b,
    decreases a.len(),
{
    if a.len() == 0 {
        if b.len() > 0 {
            assert(b.to_set().contains(b[0]));
            assert(a.contains(b[0]));
        }
        assert(a =~= b);
    } else if b.len() == 0 {
        assert(a.to_set().contains(a[0]));
        assert(b.contains(a[0]));
    } else {
        let x = a.last();
        let y = b.last();
        assert(a.contains(x)) by {
            assert(a[a.len() - 1] == x);
        }
        assert(b.contains(y)) by {
            assert(b[b.len() - 1] == y);
        }
        assert(b.to_set().contains(x));
        assert(a.to_set().contains(y));
        let kx = choose|k: int| 0 <= k < b.len() && b[k] == x;
        let ky = choose|k: int| 0 <= k < a.len() && a[k] == y;
        if x != y {
            assert(kx < b.len() - 1);
            assert(pair_lt(x, y));
            assert(ky < a.len() - 1);
            assert(pair_lt(y, x));
            lemma_pair_trichotomy(x, y);
        }
        let a2 = a.drop_last();
        let b2 = b.drop_last();
        assert forall|p: (Seq<char>, Seq<char>)| a2.to_set().contains(p) implies b2.to_set().contains(p) by {
            let k = choose|k: int| 0 <= k < a2.len() && a2[k] == p;
            assert(a[k] == p);
            lemma_pair_trichotomy(p, x);
            assert(pair_lt(p, x));
            assert(a.to_set().contains(p));
            assert(b.to_set().contains(p));
            let kb = choose|k: int| 0 <= k < b.len() && b[k] == p;
            assert(kb < b.len() - 1) by {
                lemma_pair_trichotomy(p, y);
            }
            assert(b2[kb] == p);
        }
        assert forall|p: (Seq<char>, Seq<char>)| b2.to_set().contains(p) implies a2.to_set().contains(p) by {
            let k = choose|k: int| 0 <= k < b2.len() && b2[k] == p;
            assert(b[k] == p);
            lemma_pair_trichotomy(p, y);
            assert(pair_lt(p, y));
            assert(b.to_set().contains(p));
            assert(a.to_set().contains(p));
            let ka = choose|k: int| 0 <= k < a.len() && a[k] == p;
            assert(ka < a.len() - 1) by {
                lemma_pair_trichotomy(p, x);
            }
            assert(a2[ka] == p);
        }
        assert(a2.to_set() =~= b2.to_set());
        lemma_sorted_unique_equal(a2, b2);
        assert(x == y);
        assert(a.len() == b.len());
        assert forall|i: int| 0 <= i < a.len() implies a[i] == b[i] by {
            if i < a.len() - 1 {
                assert(a[i] == a2[i]);
                assert(b[i] == b2[i]);
            }
        }
        assert(a =~= b);
    }
}

/// Classifying the same package list twice yields identical output: the
/// three sequences are pinned by the graph alone.
pub proof fn lemma_classification_deterministic(
    pkgs: Seq<SpecPackage>,
    c1: Classification,
    c2: Classification,
)
    requires
        pairs_sorted_unique(c1.all.deep_view()),
        pairs_sorted_unique(c1.direct.deep_view()),
        pairs_sorted_unique(c1.indirect.deep_view()),
        c1.all.deep_view().to_set() == node_set(pkgs),
        c1.direct.deep_view().to_set() == direct_set(pkgs),
        c1.indirect.deep_view().to_set() == indirect_set(pkgs),
        pairs_sorted_unique(c2.all.deep_view()),
        pairs_sorted_unique(c2.direct.deep_view()),
        pairs_sorted_unique(c2.indirect.deep_view()),
        c2.all.deep_view().to_set() == node_set(pkgs),
        c2.direct.deep_view().to_set() == direct_set(pkgs),
        c2.indirect.deep_view().to_set() == indirect_set(pkgs),
    ensures
        c1.all.deep_view() == c2.all.deep_view(),
        c1.direct.deep_view() == c2.direct.deep_view(),
        c1.indirect.deep_view() == c2.indirect.deep_view(),
{
    lemma_sorted_unique_equal(c1.all.deep_view(), c2.all.deep_view());
    lemma_sorted_unique_equal(c1.direct.deep_view(), c2.direct.deep_view());
    lemma_sorted_unique_equal(c1.indirect.deep_view(), c2.indirect.deep_view());
}

/// Root, direct and indirect sets partition the node set: they are
/// pairwise disjoint and together cover every node.
pub proof fn lemma_partition(pkgs: Seq<SpecPackage>)
    ensures
        root_set(pkgs).union(direct_set(pkgs)).union(indirect_set(pkgs)) == node_set(pkgs),
        root_set(pkgs).disjoint(direct_set(pkgs)),
        root_set(pkgs).disjoint(indirect_set(pkgs)),
        direct_set(pkgs).disjoint(indirect_set(pkgs)),
{
    assert forall|p: (Seq<char>, Seq<char>)| direct_set(pkgs).contains(p) implies !root_set(
        pkgs,
    ).contains(p) by {
        if direct_set(pkgs).contains(p) {
            assert(has_incoming(pkgs, p));
        }
    }
    assert(root_set(pkgs).union(direct_set(pkgs)).union(indirect_set(pkgs)) =~= node_set(pkgs));
}

/// The `name version` forms of the pairs, joined by commas, as the
/// generated string constants spell them.
pub fn join_name_versions(v: &Vec<(String, String)>) -> (r: String)
    ensures
        r@ == crate::util::join_with(
            v.deep_view().map_values(|p: (Seq<char>, Seq<char>)| p.0 + " "@ + p.1),
            ", "@,
        ),
{
    let mut parts: Vec<String> = Vec::new();
    let n = v.len();
    let mut i: usize = 0;
    while i < n
        invariant
            i <= n,
            n == v.len(),
            parts.deep_view().len() == i,
            forall|j: int|
                0 <= j < i ==> #[trigger] parts.deep_view()[j] == v.deep_view()[j].0 + " "@
                    + v.deep_view()[j].1,
        decreases n - i,
    {
        let p = &v[i];
        let mut s = p.0.clone();
        s.append(" ");
        s.append(p.1.as_str());
        let ghost prev = parts.deep_view();
        let ghost sv = s@;
        parts.push(s);
        proof {
            assert(parts.deep_view() =~= prev.push(sv));
        }
        i = i + 1;
    }
    proof {
        assert(parts.deep_view() =~= v.deep_view().map_values(
            |p: (Seq<char>, Seq<char>)| p.0 + " "@ + p.1,
        ));
    }
    crate::util::join_strings(&parts, ", ")
}

} // verus!
