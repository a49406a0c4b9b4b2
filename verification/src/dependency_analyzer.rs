use crate::file::File;
use vstd::prelude::*;

verus! {

/// Index just past the last forward slash of `s`, or 0 when `s` holds none.
pub open spec fn tail_start(s: Seq<char>) -> int
    decreases s.len(),
{
    if s.len() == 0 {
        0
    } else if s[s.len() - 1] == '/' {
        s.len() as int
    } else {
        tail_start(s.drop_last())
    }
}

/// Canonical node name of a path-like string: the segment after the last
/// forward slash, or the whole string when no forward slash occurs.
/// Backslashes are deliberately not treated as separators.
pub open spec fn canon(s: Seq<char>) -> Seq<char> {
    s.subrange(tail_start(s), s.len() as int)
}

/// `tail_start` is the unique cut point: it is in range, it sits right after a
/// slash (unless it is 0), and no slash occurs at or beyond it.
pub proof fn lemma_tail_start_properties(s: Seq<char>)
    ensures
        0 <= tail_start(s) <= s.len(),
        tail_start(s) > 0 ==> s[tail_start(s) - 1] == '/',
        forall|k: int| tail_start(s) <= k < s.len() ==> s[k] != '/',
    decreases s.len(),
{
    if s.len() == 0 {
    } else if s[s.len() - 1] == '/' {
    } else {
        lemma_tail_start_properties(s.drop_last());
        assert forall|k: int| tail_start(s) <= k < s.len() implies s[k] != '/' by {
            if k < s.len() - 1 {
                assert(s.drop_last()[k] == s[k]);
            }
        }
    }
}

/// Any cut point with the three properties of `lemma_tail_start_properties`
/// is `tail_start` itself.
pub proof fn lemma_tail_start_unique(s: Seq<char>, t: int)
    requires
        0 <= t <= s.len(),
        t > 0 ==> s[t - 1] == '/',
        forall|k: int| t <= k < s.len() ==> s[k] != '/',
    ensures
        t == tail_start(s),
    decreases s.len(),
{
    if s.len() == 0 {
    } else if s[s.len() - 1] == '/' {
        if t < s.len() {
            assert(s[s.len() - 1] != '/');
        }
    } else {
        if t == s.len() {
            assert(s[t - 1] != '/');
        }
        lemma_tail_start_unique(s.drop_last(), t);
    }
}

/// A string without forward slashes is its own canonical name.
pub proof fn lemma_canon_no_slash(s: Seq<char>)
    requires
        forall|k: int| 0 <= k < s.len() ==> s[k] != '/',
    ensures
        canon(s) == s,
{
    lemma_tail_start_unique(s, 0);
    assert(canon(s) =~= s);
}

/// Canonicalization is idempotent: the canonical name holds no forward slash,
/// so canonicalizing it again changes nothing. A string without a forward
/// slash (backslash-separated strings included) passes through unchanged.
pub proof fn lemma_canon_idempotent(s: Seq<char>)
    ensures
        canon(canon(s)) == canon(s),
        (forall|k: int| 0 <= k < s.len() ==> s[k] != '/') ==> canon(s) == s,
{
    lemma_tail_start_properties(s);
    assert forall|k: int| 0 <= k < canon(s).len() implies canon(s)[k] != '/' by {
        assert(canon(s)[k] == s[tail_start(s) + k]);
    }
    lemma_canon_no_slash(canon(s));
    if forall|k: int| 0 <= k < s.len() ==> s[k] != '/' {
        lemma_canon_no_slash(s);
    }
}

/// The canonical names a unit references, after canonicalization, as a set.
pub open spec fn canon_refs_of(f: File) -> Set<Seq<char>> {
    Set::new(|n: Seq<char>| exists|t: int| 0 <= t < f.refs().len() && canon(f.refs()[t]) == n)
}

/// The identities of the units that directly reference node `n`.
pub open spec fn direct_includers(files: Seq<File>, n: Seq<char>) -> Set<Seq<char>> {
    Set::new(
        |p: Seq<char>|
            exists|v: int|
                0 <= v < files.len() && files[v].id() == p && canon_refs_of(files[v]).contains(n),
    )
}

/// Every canonical node name a collection of units gives rise to: each unit's
/// own canonical identity together with each of its canonical references.
pub open spec fn dom_of(files: Seq<File>) -> Set<Seq<char>> {
    Set::new(
        |n: Seq<char>|
            exists|v: int|
                0 <= v < files.len() && (canon(files[v].id()) == n || canon_refs_of(
                    files[v],
                ).contains(n)),
    )
}

/// No two units share an identity (the scan path is unique per unit).
pub open spec fn distinct_ids(files: Seq<File>) -> bool {
    forall|u1: int, u2: int| 0 <= u1 < u2 < files.len() ==> files[u1].id() != files[u2].id()
}

/// The canonical identities of a collection of units, as a set.
pub open spec fn scanned_canon_of(files: Seq<File>) -> Set<Seq<char>> {
    Set::new(
        |n: Seq<char>| exists|v: int| 0 <= v < files.len() && canon(#[trigger] files[v].id()) == n,
    )
}

/// One traversal step, stated over the units alone: `b` is the canonical
/// name of some unit that directly references node `a`.
pub open spec fn file_edge(files: Seq<File>, a: Seq<char>, b: Seq<char>) -> bool {
    exists|p: Seq<char>| direct_includers(files, a).contains(p) && canon(p) == b
}

/// A nonempty chain of names linked by traversal steps over the units.
pub open spec fn file_path_ok(files: Seq<File>, q: Seq<Seq<char>>) -> bool {
    &&& q.len() >= 1
    &&& forall|x: int| 0 <= x < q.len() - 1 ==> file_edge(files, #[trigger] q[x], q[x + 1])
}

/// Reachability by inclusion edges, stated over the units alone.
pub open spec fn file_reaches(files: Seq<File>, a: Seq<char>, b: Seq<char>) -> bool {
    exists|q: Seq<Seq<char>>| file_path_ok(files, q) && q[0] == a && q.last() == b
}

/// The transitive impact of node `n`, stated over the units alone.
pub open spec fn impact_of(files: Seq<File>, n: Seq<char>) -> Set<Seq<char>> {
    Set::new(
        |b: Seq<char>|
            b != n && file_reaches(files, n, b) && scanned_canon_of(files).contains(b),
    )
}

/// Failures the engine can signal: ranking over a graph with no nodes at all,
/// and a traversal asked to start from a name that is not a graph node.
#[derive(Clone, Copy, Debug, PartialEq, Eq, Structural)]
pub enum AnalysisError {
    EmptyGraph,
    NodeNotFound,
}

/// The engine's graph: canonical node names, and for each node the list of
/// scanned units that directly reference it. Units and nodes are interned:
/// edges are stored as indices, so shared path text is never duplicated.
pub struct DependencyAnalyzer {
    node_names: Vec<String>,
    includers: Vec<Vec<usize>>,
    unit_names: Vec<String>,
    unit_nodes: Vec<usize>,
    debug: bool,
}

spec fn inc_list_wf(l: Seq<usize>, u_bound: int) -> bool {
    &&& forall|k: int| 0 <= k < l.len() ==> (#[trigger] l[k] as int) < u_bound
    &&& forall|k1: int, k2: int| 0 <= k1 < k2 < l.len() ==> l[k1] != l[k2]
}

spec fn sp_nodes_distinct(nn: Seq<String>) -> bool {
    forall|i: int, j: int| 0 <= i < j < nn.len() ==> nn[i]@ != nn[j]@
}

spec fn node_exists(nn: Seq<String>, n: Seq<char>) -> bool {
    exists|i: int| 0 <= i < nn.len() && nn[i]@ == n
}

spec fn name_from_prefix(files: Seq<File>, u: int, n: Seq<char>) -> bool {
    exists|v: int|
        0 <= v < u <= files.len() && (canon(files[v].id()) == n || canon_refs_of(
            files[v],
        ).contains(n))
}

/// Invariant of the graph under construction once the first `u` units are
/// fully recorded.
spec fn graph_inv_units(nn: Seq<String>, inc: Seq<Vec<usize>>, files: Seq<File>, u: int) -> bool {
    &&& 0 <= u <= files.len()
    &&& inc.len() == nn.len()
    &&& sp_nodes_distinct(nn)
    &&& forall|i: int| 0 <= i < inc.len() ==> inc_list_wf(#[trigger] inc[i]@, u)
    &&& forall|i: int, v: usize|
        #![trigger inc[i]@.contains(v)]
        0 <= i < nn.len() && (v as int) < u ==> (inc[i]@.contains(v) <==> canon_refs_of(
            files[v as int],
        ).contains(nn[i]@))
    &&& forall|i: int| 0 <= i < nn.len() ==> name_from_prefix(files, u, #[trigger] nn[i]@)
    &&& forall|v: int| 0 <= v < u ==> node_exists(nn, canon(#[trigger] files[v].id()))
    &&& forall|v: int, t: int|
        #![trigger files[v].refs()[t]]
        0 <= v < u && 0 <= t < files[v].refs().len() ==> node_exists(
            nn,
            canon(files[v].refs()[t]),
        )
}

/// Invariant while unit `u` is being recorded and its first `m` references
/// are already in the graph.
spec fn graph_inv_unit(
    nn: Seq<String>,
    inc: Seq<Vec<usize>>,
    files: Seq<File>,
    u: usize,
    m: int,
) -> bool {
    &&& (u as int) < files.len()
    &&& inc.len() == nn.len()
    &&& sp_nodes_distinct(nn)
    &&& 0 <= m <= files[u as int].refs().len()
    &&& forall|i: int| 0 <= i < inc.len() ==> inc_list_wf(#[trigger] inc[i]@, u as int + 1)
    &&& forall|i: int, v: usize|
        #![trigger inc[i]@.contains(v)]
        0 <= i < nn.len() && (v as int) < u as int ==> (inc[i]@.contains(v) <==> canon_refs_of(
            files[v as int],
        ).contains(nn[i]@))
    &&& forall|i: int|
        #![trigger inc[i]@.contains(u)]
        0 <= i < nn.len() ==> (inc[i]@.contains(u) <==> exists|t: int|
            0 <= t < m && canon(files[u as int].refs()[t]) == nn[i]@)
    &&& forall|i: int| 0 <= i < nn.len() ==> name_from_prefix(files, u as int + 1, #[trigger] nn[i]@)
    &&& forall|v: int| 0 <= v <= u as int ==> node_exists(nn, canon(#[trigger] files[v].id()))
    &&& forall|v: int, t: int|
        #![trigger files[v].refs()[t]]
        ((0 <= v < u as int && 0 <= t < files[v].refs().len()) || (v == u as int && 0 <= t < m))
            ==> node_exists(nn, canon(files[v].refs()[t]))
}

/// `nn`/`inc` extend `pre_nn`/`pre_inc` by at most one node, named `name`,
/// with no includers yet; nothing else changed.
spec fn nodes_extended(
    pre_nn: Seq<String>,
    pre_inc: Seq<Vec<usize>>,
    nn: Seq<String>,
    inc: Seq<Vec<usize>>,
    name: Seq<char>,
) -> bool {
    &&& pre_inc.len() == pre_nn.len()
    &&& inc.len() == nn.len()
    &&& pre_nn.len() <= nn.len() <= pre_nn.len() + 1
    &&& forall|k: int| 0 <= k < pre_nn.len() ==> (#[trigger] nn[k]) == pre_nn[k]
    &&& forall|k: int| 0 <= k < pre_nn.len() ==> (#[trigger] inc[k]) == pre_inc[k]
    &&& forall|k: int| pre_nn.len() <= k < nn.len() ==> (#[trigger] nn[k])@ == name
    &&& forall|k: int| pre_nn.len() <= k < nn.len() ==> (#[trigger] inc[k])@ == Seq::<usize>::empty()
    &&& sp_nodes_distinct(nn)
    &&& ((nn.len() == pre_nn.len()) <==> node_exists(pre_nn, name))
}

/// The per-unit map from unit index to the node carrying its canonical
/// identity.
spec fn units_mapped(nn: Seq<String>, un: Seq<String>, ut: Seq<usize>) -> bool {
    &&& ut.len() == un.len()
    &&& forall|v: int|
        0 <= v < ut.len() ==> ((#[trigger] ut[v]) as int) < nn.len() && nn[ut[v] as int]@ == canon(
            un[v]@,
        )
}

proof fn lemma_push_contains(s: Seq<usize>, a: usize, x: usize)
    ensures
        s.push(a).contains(x) <==> (s.contains(x) || x == a),
{
    if s.contains(x) {
        let i = choose|i: int| 0 <= i < s.len() && s[i] == x;
        assert(s.push(a)[i] == x);
    }
    if x == a {
        assert(s.push(a)[s.len() as int] == x);
    }
    if s.push(a).contains(x) {
        let i = choose|i: int| 0 <= i < s.push(a).len() && s.push(a)[i] == x;
        if i < s.len() {
            assert(s[i] == x);
        }
    }
}

proof fn lemma_units_mapped_extend(
    pre_nn: Seq<String>,
    nn: Seq<String>,
    un: Seq<String>,
    ut: Seq<usize>,
)
    requires
        units_mapped(pre_nn, un, ut),
        pre_nn.len() <= nn.len(),
        forall|k: int| 0 <= k < pre_nn.len() ==> (#[trigger] nn[k]) == pre_nn[k],
    ensures
        units_mapped(nn, un, ut),
{
    assert forall|v: int| 0 <= v < ut.len() implies ((#[trigger] ut[v]) as int) < nn.len()
        && nn[ut[v] as int]@ == canon(un[v]@) by {
        assert((ut[v] as int) < pre_nn.len());
        assert(nn[ut[v] as int] == pre_nn[ut[v] as int]);
    }
}

/// Extending the node table by one fresh (or found) name preserves the
/// mid-unit invariant: a genuinely new node cannot be referenced by any unit
/// already recorded, else its name would already be a node.
proof fn lemma_graph_inv_extend(
    pre_nn: Seq<String>,
    pre_inc: Seq<Vec<usize>>,
    nn: Seq<String>,
    inc: Seq<Vec<usize>>,
    files: Seq<File>,
    u: usize,
    m: int,
    name: Seq<char>,
)
    requires
        graph_inv_unit(pre_nn, pre_inc, files, u, m),
        nodes_extended(pre_nn, pre_inc, nn, inc, name),
        name_from_prefix(files, u as int + 1, name),
    ensures
        graph_inv_unit(nn, inc, files, u, m),
{
    assert forall|i: int| 0 <= i < inc.len() implies inc_list_wf(
        #[trigger] inc[i]@,
        u as int + 1,
    ) by {
        if i < pre_nn.len() {
            assert(inc[i] == pre_inc[i]);
        } else {
            assert(inc[i]@ == Seq::<usize>::empty());
        }
    }
    assert forall|i: int, v: usize|
        #![trigger inc[i]@.contains(v)]
        0 <= i < nn.len() && (v as int) < u as int implies (inc[i]@.contains(v)
        <==> canon_refs_of(files[v as int]).contains(nn[i]@)) by {
        if i < pre_nn.len() {
            assert(inc[i] == pre_inc[i] && nn[i] == pre_nn[i]);
            assert(pre_inc[i]@.contains(v) <==> canon_refs_of(files[v as int]).contains(
                pre_nn[i]@,
            ));
        } else {
            assert(inc[i]@ == Seq::<usize>::empty());
            assert(!inc[i]@.contains(v));
            if canon_refs_of(files[v as int]).contains(nn[i]@) {
                let t = choose|t: int|
                    0 <= t < files[v as int].refs().len() && canon(files[v as int].refs()[t])
                        == nn[i]@;
                assert(node_exists(pre_nn, canon(files[v as int].refs()[t])));
                assert(false);
            }
        }
    }
    assert forall|i: int|
        #![trigger inc[i]@.contains(u)]
        0 <= i < nn.len() implies (inc[i]@.contains(u) <==> exists|t: int|
        0 <= t < m && canon(files[u as int].refs()[t]) == nn[i]@) by {
        if i < pre_nn.len() {
            assert(inc[i] == pre_inc[i] && nn[i] == pre_nn[i]);
            assert(pre_inc[i]@.contains(u) <==> exists|t: int|
                0 <= t < m && canon(files[u as int].refs()[t]) == pre_nn[i]@);
        } else {
            assert(inc[i]@ == Seq::<usize>::empty());
            assert(!inc[i]@.contains(u));
            if exists|t: int| 0 <= t < m && canon(files[u as int].refs()[t]) == nn[i]@ {
                let t = choose|t: int|
                    0 <= t < m && canon(files[u as int].refs()[t]) == nn[i]@;
                assert(node_exists(pre_nn, canon(files[u as int].refs()[t])));
                assert(false);
            }
        }
    }
    assert forall|i: int| 0 <= i < nn.len() implies name_from_prefix(
        files,
        u as int + 1,
        #[trigger] nn[i]@,
    ) by {
        if i < pre_nn.len() {
            assert(nn[i] == pre_nn[i]);
        } else {
            assert(nn[i]@ == name);
        }
    }
    assert forall|v: int| 0 <= v <= u as int implies node_exists(
        nn,
        canon(#[trigger] files[v].id()),
    ) by {
        assert(node_exists(pre_nn, canon(files[v].id())));
        let i = choose|i: int| 0 <= i < pre_nn.len() && pre_nn[i]@ == canon(files[v].id());
        assert(nn[i]@ == canon(files[v].id()));
    }
    assert forall|v: int, t: int|
        #![trigger files[v].refs()[t]]
        ((0 <= v < u as int && 0 <= t < files[v].refs().len()) || (v == u as int && 0 <= t
            < m)) implies node_exists(nn, canon(files[v].refs()[t])) by {
        assert(node_exists(pre_nn, canon(files[v].refs()[t])));
        let i = choose|i: int| 0 <= i < pre_nn.len() && pre_nn[i]@ == canon(files[v].refs()[t]);
        assert(nn[i]@ == canon(files[v].refs()[t]));
    }
}

/// Recording one reference of unit `u` (inserting `u` into the includer list
/// of node `nj`, unless it is already there) advances the mid-unit invariant
/// from `m` to `m + 1` references.
proof fn lemma_graph_inv_record(
    nn: Seq<String>,
    mid_inc: Seq<Vec<usize>>,
    inc: Seq<Vec<usize>>,
    files: Seq<File>,
    u: usize,
    m: int,
    nj: usize,
)
    requires
        graph_inv_unit(nn, mid_inc, files, u, m),
        0 <= m < files[u as int].refs().len(),
        (nj as int) < nn.len(),
        nn[nj as int]@ == canon(files[u as int].refs()[m]),
        inc.len() == mid_inc.len(),
        forall|k: int| 0 <= k < inc.len() && k != nj as int ==> (#[trigger] inc[k]) == mid_inc[k],
        mid_inc[nj as int]@.contains(u) ==> inc[nj as int] == mid_inc[nj as int],
        !mid_inc[nj as int]@.contains(u) ==> inc[nj as int]@ == mid_inc[nj as int]@.push(u),
    ensures
        graph_inv_unit(nn, inc, files, u, m + 1),
{
    let name = canon(files[u as int].refs()[m]);
    let already = mid_inc[nj as int]@.contains(u);
    lemma_push_contains(mid_inc[nj as int]@, u, u);
    assert(inc[nj as int]@.contains(u));
    assert forall|i: int| 0 <= i < inc.len() implies inc_list_wf(
        #[trigger] inc[i]@,
        u as int + 1,
    ) by {
        if i == nj as int && !already {
            assert(inc_list_wf(mid_inc[nj as int]@, u as int + 1));
            let l = mid_inc[nj as int]@;
            assert forall|k1: int, k2: int|
                0 <= k1 < k2 < inc[i]@.len() implies inc[i]@[k1] != inc[i]@[k2] by {
                if k2 == l.len() {
                    assert(inc[i]@[k2] == u);
                    assert(l.contains(l[k1])) by {
                        assert(l[k1] == l[k1]);
                    }
                    assert(inc[i]@[k1] == l[k1]);
                } else {
                    assert(inc[i]@[k1] == l[k1] && inc[i]@[k2] == l[k2]);
                }
            }
        } else {
            assert(inc[i] == mid_inc[i]);
        }
    }
    assert forall|i: int, v: usize|
        #![trigger inc[i]@.contains(v)]
        0 <= i < nn.len() && (v as int) < u as int implies (inc[i]@.contains(v)
        <==> canon_refs_of(files[v as int]).contains(nn[i]@)) by {
        assert(mid_inc[i]@.contains(v) <==> canon_refs_of(files[v as int]).contains(nn[i]@));
        if i == nj as int && !already {
            lemma_push_contains(mid_inc[i]@, u, v);
        } else {
            assert(inc[i] == mid_inc[i]);
        }
    }
    assert forall|i: int|
        #![trigger inc[i]@.contains(u)]
        0 <= i < nn.len() implies (inc[i]@.contains(u) <==> exists|t: int|
        0 <= t < m + 1 && canon(files[u as int].refs()[t]) == nn[i]@) by {
        assert(mid_inc[i]@.contains(u) <==> exists|t: int|
            0 <= t < m && canon(files[u as int].refs()[t]) == nn[i]@);
        if i == nj as int {
            assert(canon(files[u as int].refs()[m]) == nn[i]@);
            assert(inc[i]@.contains(u));
        } else {
            assert(inc[i] == mid_inc[i]);
            assert(nn[i]@ != nn[nj as int]@);
            assert forall|t: int| 0 <= t < m + 1 && canon(files[u as int].refs()[t]) == nn[i]@
                implies t < m by {
                if t == m {
                    assert(canon(files[u as int].refs()[t]) == name);
                }
            }
        }
    }
    assert forall|v: int, t: int|
        #![trigger files[v].refs()[t]]
        ((0 <= v < u as int && 0 <= t < files[v].refs().len()) || (v == u as int && 0 <= t < m
            + 1)) implies node_exists(nn, canon(files[v].refs()[t])) by {
        if v == u as int && t == m {
            assert(nn[nj as int]@ == canon(files[v].refs()[t]));
        } else {
            assert(node_exists(nn, canon(files[v].refs()[t])));
        }
    }
}

/// Entering unit `u`: once the node for its canonical identity exists, the
/// completed-units invariant at `u` becomes the mid-unit invariant at zero
/// recorded references.
proof fn lemma_graph_inv_enter_unit(
    pre_nn: Seq<String>,
    pre_inc: Seq<Vec<usize>>,
    nn: Seq<String>,
    inc: Seq<Vec<usize>>,
    files: Seq<File>,
    u: usize,
)
    requires
        graph_inv_units(pre_nn, pre_inc, files, u as int),
        (u as int) < files.len(),
        nodes_extended(pre_nn, pre_inc, nn, inc, canon(files[u as int].id())),
    ensures
        graph_inv_unit(nn, inc, files, u, 0),
{
    assert forall|i: int| 0 <= i < inc.len() implies inc_list_wf(
        #[trigger] inc[i]@,
        u as int + 1,
    ) by {
        if i < pre_nn.len() {
            assert(inc[i] == pre_inc[i]);
            assert(inc_list_wf(pre_inc[i]@, u as int));
        } else {
            assert(inc[i]@ == Seq::<usize>::empty());
        }
    }
    assert forall|i: int, v: usize|
        #![trigger inc[i]@.contains(v)]
        0 <= i < nn.len() && (v as int) < u as int implies (inc[i]@.contains(v)
        <==> canon_refs_of(files[v as int]).contains(nn[i]@)) by {
        if i < pre_nn.len() {
            assert(inc[i] == pre_inc[i] && nn[i] == pre_nn[i]);
            assert(pre_inc[i]@.contains(v) <==> canon_refs_of(files[v as int]).contains(
                pre_nn[i]@,
            ));
        } else {
            assert(inc[i]@ == Seq::<usize>::empty());
            assert(!inc[i]@.contains(v));
            if canon_refs_of(files[v as int]).contains(nn[i]@) {
                let t = choose|t: int|
                    0 <= t < files[v as int].refs().len() && canon(files[v as int].refs()[t])
                        == nn[i]@;
                assert(node_exists(pre_nn, canon(files[v as int].refs()[t])));
                assert(false);
            }
        }
    }
    assert forall|i: int|
        #![trigger inc[i]@.contains(u)]
        0 <= i < nn.len() implies !inc[i]@.contains(u) by {
        if i < pre_nn.len() {
            assert(inc[i] == pre_inc[i]);
            assert(inc_list_wf(pre_inc[i]@, u as int));
            if inc[i]@.contains(u) {
                let k = choose|k: int| 0 <= k < inc[i]@.len() && inc[i]@[k] == u;
                assert((inc[i]@[k] as int) < u as int);
            }
        } else {
            assert(inc[i]@ == Seq::<usize>::empty());
        }
    }
    assert forall|i: int| 0 <= i < nn.len() implies name_from_prefix(
        files,
        u as int + 1,
        #[trigger] nn[i]@,
    ) by {
        if i < pre_nn.len() {
            assert(nn[i] == pre_nn[i]);
            assert(name_from_prefix(files, u as int, pre_nn[i]@));
            let v = choose|v: int|
                0 <= v < u as int <= files.len() && (canon(files[v].id()) == pre_nn[i]@
                    || canon_refs_of(files[v]).contains(pre_nn[i]@));
            assert(0 <= v < u as int + 1 <= files.len() && (canon(files[v].id()) == nn[i]@
                || canon_refs_of(files[v]).contains(nn[i]@)));
        } else {
            assert(nn[i]@ == canon(files[u as int].id()));
            let w: int = u as int;
            assert(0 <= w < w + 1 <= files.len() && canon(files[w].id()) == nn[i]@);
        }
    }
    assert forall|v: int| 0 <= v <= u as int implies node_exists(
        nn,
        canon(#[trigger] files[v].id()),
    ) by {
        if v < u as int {
            assert(node_exists(pre_nn, canon(files[v].id())));
            let i = choose|i: int| 0 <= i < pre_nn.len() && pre_nn[i]@ == canon(files[v].id());
            assert(nn[i]@ == canon(files[v].id()));
        } else {
            if nn.len() == pre_nn.len() {
                let i = choose|i: int|
                    0 <= i < pre_nn.len() && pre_nn[i]@ == canon(files[u as int].id());
                assert(nn[i]@ == canon(files[v].id()));
            } else {
                assert(nn[nn.len() - 1]@ == canon(files[v].id()));
            }
        }
    }
    assert forall|v: int, t: int|
        #![trigger files[v].refs()[t]]
        0 <= v < u as int && 0 <= t < files[v].refs().len() implies node_exists(
        nn,
        canon(files[v].refs()[t]),
    ) by {
        assert(node_exists(pre_nn, canon(files[v].refs()[t])));
        let i = choose|i: int| 0 <= i < pre_nn.len() && pre_nn[i]@ == canon(files[v].refs()[t]);
        assert(nn[i]@ == canon(files[v].refs()[t]));
    }
}

/// Leaving unit `u`: once all its references are recorded, the mid-unit
/// invariant becomes the completed-units invariant at `u + 1`.
proof fn lemma_graph_inv_close_unit(
    nn: Seq<String>,
    inc: Seq<Vec<usize>>,
    files: Seq<File>,
    u: usize,
)
    requires
        graph_inv_unit(nn, inc, files, u, files[u as int].refs().len() as int),
    ensures
        graph_inv_units(nn, inc, files, u as int + 1),
{
    assert forall|i: int, v: usize|
        #![trigger inc[i]@.contains(v)]
        0 <= i < nn.len() && (v as int) < u as int + 1 implies (inc[i]@.contains(v)
        <==> canon_refs_of(files[v as int]).contains(nn[i]@)) by {
        if (v as int) < u as int {
            assert(inc[i]@.contains(v) <==> canon_refs_of(files[v as int]).contains(nn[i]@));
        } else {
            assert(v == u);
            assert(inc[i]@.contains(u) <==> exists|t: int|
                0 <= t < files[u as int].refs().len() && canon(files[u as int].refs()[t])
                    == nn[i]@);
        }
    }
}

fn str_eq(a: &str, b: &str) -> (r: bool)
    ensures
        r == (a@ == b@),
{
    let sa: String = a.to_owned();
    let sb: String = b.to_owned();
    sa.eq(&sb)
}

fn vec_contains_usize(v: &Vec<usize>, x: usize) -> (r: bool)
    ensures
        r == v@.contains(x),
{
    let n = v.len();
    let mut k: usize = 0;
    while k < n
        invariant
            n == v@.len(),
            k <= n,
            forall|t: int| 0 <= t < k ==> v@[t] != x,
        decreases n - k,
    {
        if v[k] == x {
            assert(v@.contains(x)) by {
                assert(v@[k as int] == x);
            }
            return true;
        }
        k = k + 1;
    }
    false
}

fn find_node(names: &Vec<String>, target: &str) -> (r: Option<usize>)
    ensures
        match r {
            Some(i) => (i as int) < names@.len() && names@[i as int]@ == target@,
            None => forall|k: int| 0 <= k < names@.len() ==> names@[k]@ != target@,
        },
{
    let n = names.len();
    let mut k: usize = 0;
    while k < n
        invariant
            n == names@.len(),
            k <= n,
            forall|t: int| 0 <= t < k ==> names@[t]@ != target@,
        decreases n - k,
    {
        if str_eq(names[k].as_str(), target) {
            return Some(k);
        }
        k = k + 1;
    }
    None
}

fn find_or_add_node(names: &mut Vec<String>, inc: &mut Vec<Vec<usize>>, target: &str) -> (i: usize)
    requires
        old(inc)@.len() == old(names)@.len(),
        sp_nodes_distinct(old(names)@),
    ensures
        nodes_extended(old(names)@, old(inc)@, final(names)@, final(inc)@, target@),
        (i as int) < final(names)@.len(),
        final(names)@[i as int]@ == target@,
{
    match find_node(names, target) {
        Some(i) => {
            assert(node_exists(names@, target@)) by {
                assert(names@[i as int]@ == target@);
            }
            i
        },
        None => {
            let i = names.len();
            names.push(target.to_owned());
            inc.push(Vec::new());
            assert(final(names)@[i as int]@ == target@);
            assert(sp_nodes_distinct(final(names)@)) by {
                assert(forall|k: int|
                    0 <= k < old(names)@.len() ==> (#[trigger] final(names)@[k]@) != target@);
            }
            i
        },
    }
}

impl DependencyAnalyzer {
    /// Structural well-formedness: node names are distinct, every stored edge
    /// index is a valid, duplicate-free unit index, and every unit knows the
    /// node that carries its canonical identity.
    pub closed spec fn wf(self) -> bool {
        &&& self.includers@.len() == self.node_names@.len()
        &&& sp_nodes_distinct(self.node_names@)
        &&& forall|i: int|
            0 <= i < self.includers@.len() ==> inc_list_wf(
                #[trigger] self.includers@[i]@,
                self.unit_names@.len() as int,
            )
        &&& units_mapped(self.node_names@, self.unit_names@, self.unit_nodes@)
        &&& forall|v1: int, v2: int|
            0 <= v1 < v2 < self.unit_names@.len() ==> self.unit_names@[v1]@
                != self.unit_names@[v2]@
    }

    /// The set of canonical node names in the graph.
    pub closed spec fn graph_dom(self) -> Set<Seq<char>> {
        Set::new(
            |n: Seq<char>|
                exists|i: int| 0 <= i < self.node_names@.len() && self.node_names@[i]@ == n,
        )
    }

    /// The identities of the units that directly reference node `n` in this
    /// graph; empty for a name that is not a node.
    pub closed spec fn includers_of(self, n: Seq<char>) -> Set<Seq<char>> {
        Set::new(
            |p: Seq<char>|
                exists|i: int, k: int|
                    0 <= i < self.node_names@.len() && self.node_names@[i]@ == n && 0 <= k
                        < self.includers@[i]@.len()
                        && self.unit_names@[self.includers@[i]@[k] as int]@ == p,
        )
    }

    /// The identities of the scanned units, in scan order.
    pub closed spec fn scanned_ids(self) -> Seq<Seq<char>> {
        self.unit_names@.map_values(|s: String| s@)
    }

    /// The canonical identities of the scanned units, as a set.
    pub closed spec fn scanned_canon(self) -> Set<Seq<char>> {
        Set::new(
            |n: Seq<char>|
                exists|v: int| 0 <= v < self.unit_names@.len() && canon(self.unit_names@[v]@) == n,
        )
    }

    /// Builds the inclusion graph from the scanned units: every unit's
    /// canonical identity becomes a node, every canonical reference becomes a
    /// node, and an edge node -> unit identity is recorded exactly when the
    /// unit lists that node among its (deduplicated) canonical references.
    #[verifier::loop_isolation(false)]
    pub fn make(files: &Vec<File>, debug: bool) -> (r: Result<DependencyAnalyzer, AnalysisError>)
        requires
            distinct_ids(files@),
        ensures
            r is Ok,
            r matches Ok(a) ==> {
                &&& a.wf()
                &&& a.scanned_ids() == files@.map_values(|f: File| f.id())
                &&& a.scanned_canon() == scanned_canon_of(files@)
                &&& a.graph_dom() == dom_of(files@)
                &&& (a.has_nodes() <==> files@.len() > 0)
                &&& forall|n: Seq<char>| #[trigger] a.includers_of(n) == direct_includers(
                    files@,
                    n,
                )
                &&& forall|v: int|
                    0 <= v < files@.len() ==> a.graph_dom().contains(
                        canon(#[trigger] files@[v].id()),
                    )
            },
    {
        let mut node_names: Vec<String> = Vec::new();
        let mut includers: Vec<Vec<usize>> = Vec::new();
        let mut unit_names: Vec<String> = Vec::new();
        let mut unit_nodes: Vec<usize> = Vec::new();
        let n_files = files.len();
        let mut u: usize = 0;
        while u < n_files
            invariant
                u <= n_files,
                unit_names@.len() == u,
                unit_nodes@.len() == u,
                graph_inv_units(node_names@, includers@, files@, u as int),
                units_mapped(node_names@, unit_names@, unit_nodes@),
                forall|v: int| 0 <= v < u ==> (#[trigger] unit_names@[v]@) == files@[v].id(),
            decreases n_files - u,
        {
            let f = &files[u];
            let fname = f.get_name();
            unit_names.push(fname.to_owned());
            let cname = Self::extract_filename_from_path(fname);
            let ghost pre_nn = node_names@;
            let ghost pre_inc = includers@;
            let ni = find_or_add_node(&mut node_names, &mut includers, cname);
            unit_nodes.push(ni);
            proof {
                lemma_graph_inv_enter_unit(
                    pre_nn,
                    pre_inc,
                    node_names@,
                    includers@,
                    files@,
                    u,
                );
                lemma_units_mapped_extend(pre_nn, node_names@, unit_names@.drop_last(), unit_nodes@.drop_last());
                assert(units_mapped(node_names@, unit_names@, unit_nodes@)) by {
                    assert(unit_names@.drop_last().len() == u);
                    assert(forall|v: int|
                        0 <= v < u ==> (#[trigger] unit_names@.drop_last()[v]) == unit_names@[v]);
                    assert(forall|v: int|
                        0 <= v < u ==> (#[trigger] unit_nodes@.drop_last()[v]) == unit_nodes@[v]);
                    assert(unit_nodes@[u as int] == ni);
                    assert(node_names@[ni as int]@ == canon(unit_names@[u as int]@));
                }
            }
            let mods = f.get_used_modules();
            let n_mods = mods.len();
            let mut m: usize = 0;
            while m < n_mods
                invariant
                    m <= n_mods,
                    n_mods == files@[u as int].refs().len(),
                    forall|t: int|
                        0 <= t < n_mods ==> (#[trigger] mods@[t]@) == files@[u as int].refs()[t],
                    graph_inv_unit(node_names@, includers@, files@, u, m as int),
                    units_mapped(node_names@, unit_names@, unit_nodes@),
                decreases n_mods - m,
            {
                let dep: &String = &mods[m];
                let dname = Self::extract_filename_from_path(dep.as_str());
                let ghost p_nn = node_names@;
                let ghost p_inc = includers@;
                let nj = find_or_add_node(&mut node_names, &mut includers, dname);
                proof {
                    assert(canon_refs_of(files@[u as int]).contains(dname@)) by {
                        assert(canon(files@[u as int].refs()[m as int]) == dname@);
                    }
                    assert(name_from_prefix(files@, u as int + 1, dname@)) by {
                        let w: int = u as int;
                        assert(0 <= w < w + 1 <= files@.len() && canon_refs_of(
                            files@[w],
                        ).contains(dname@));
                    }
                    lemma_graph_inv_extend(
                        p_nn,
                        p_inc,
                        node_names@,
                        includers@,
                        files@,
                        u,
                        m as int,
                        dname@,
                    );
                    lemma_units_mapped_extend(p_nn, node_names@, unit_names@, unit_nodes@);
                }
                let ghost mid_inc = includers@;
                let already = vec_contains_usize(&includers[nj], u);
                if !already {
                    includers[nj].push(u);
                }
                proof {
                    lemma_graph_inv_record(
                        node_names@,
                        mid_inc,
                        includers@,
                        files@,
                        u,
                        m as int,
                        nj,
                    );
                }
                m = m + 1;
            }
            proof {
                lemma_graph_inv_close_unit(node_names@, includers@, files@, u);
            }
            u = u + 1;
        }
        let a = DependencyAnalyzer { node_names, includers, unit_names, unit_nodes, debug };
        proof {
            lemma_build_model(a, files@);
        }
        Ok(a)
    }

    /// Canonical file name of a path: the part after the last `/`, or the
    /// whole path when it holds no `/` (a backslash is an ordinary character).
    pub fn extract_filename_from_path(path: &str) -> (r: &str)
        ensures
            r@ == canon(path@),
    {
        let n = path.unicode_len();
        let mut start: usize = 0;
        let mut i: usize = 0;
        while i < n
            invariant
                n == path@.len(),
                0 <= start <= i <= n,
                start > 0 ==> path@[start - 1] == '/',
                forall|k: int| start <= k < i ==> path@[k] != '/',
            decreases n - i,
        {
            if path.get_char(i) == '/' {
                start = i + 1;
            }
            i = i + 1;
        }
        proof {
            lemma_tail_start_unique(path@, start as int);
        }
        path.substring_char(start, n)
    }
}

/// Result of one depth-first traversal: the nodes in first-discovery order,
/// and the discovery-tree edges, each parent first.
pub struct DFSTree {
    tree_edges: Vec<(String, String)>,
    visit_order: Vec<String>,
}

impl DFSTree {
    /// The visited canonical node names, in first-discovery order.
    pub closed spec fn order(self) -> Seq<Seq<char>> {
        self.visit_order@.map_values(|s: String| s@)
    }

    /// The discovery-tree edges, as (parent, child) name pairs.
    pub closed spec fn edge_pairs(self) -> Seq<(Seq<char>, Seq<char>)> {
        self.tree_edges@.map_values(|e: (String, String)| (e.0@, e.1@))
    }

    /// The set of visited canonical node names.
    pub open spec fn visited_set(self) -> Set<Seq<char>> {
        Set::new(|n: Seq<char>| self.order().contains(n))
    }

    pub fn make() -> (t: DFSTree)
        ensures
            t.order() == Seq::<Seq<char>>::empty(),
            t.edge_pairs() == Seq::<(Seq<char>, Seq<char>)>::empty(),
    {
        let t = DFSTree { tree_edges: Vec::new(), visit_order: Vec::new() };
        proof {
            assert(t.order() =~= Seq::<Seq<char>>::empty());
            assert(t.edge_pairs() =~= Seq::<(Seq<char>, Seq<char>)>::empty());
        }
        t
    }

    pub fn add_edge(&mut self, parent: &str, child: &str)
        ensures
            final(self).order() == old(self).order(),
            final(self).edge_pairs() == old(self).edge_pairs().push((parent@, child@)),
    {
        self.tree_edges.push((parent.to_owned(), child.to_owned()));
        proof {
            assert(final(self).edge_pairs() =~= old(self).edge_pairs().push((parent@, child@)));
        }
    }

    pub fn get_visit_order(&self) -> (r: &Vec<String>)
        ensures
            r@.map_values(|s: String| s@) == self.order(),
            r@.len() == self.order().len(),
    {
        &self.visit_order
    }

    pub fn get_tree_edges(&self) -> (r: &Vec<(String, String)>)
        ensures
            r@.map_values(|e: (String, String)| (e.0@, e.1@)) == self.edge_pairs(),
            r@.len() == self.edge_pairs().len(),
    {
        &self.tree_edges
    }
}

spec fn count_true(s: Seq<bool>) -> int
    decreases s.len(),
{
    if s.len() == 0 {
        0
    } else {
        count_true(s.drop_last()) + if s.last() {
            1int
        } else {
            0int
        }
    }
}

proof fn lemma_count_true_bounds(s: Seq<bool>)
    ensures
        0 <= count_true(s) <= s.len(),
    decreases s.len(),
{
    if s.len() > 0 {
        lemma_count_true_bounds(s.drop_last());
    }
}

proof fn lemma_count_true_zero(s: Seq<bool>)
    requires
        forall|i: int| 0 <= i < s.len() ==> !(#[trigger] s[i]),
    ensures
        count_true(s) == 0,
    decreases s.len(),
{
    if s.len() > 0 {
        lemma_count_true_zero(s.drop_last());
    }
}

proof fn lemma_count_true_lt(s: Seq<bool>, i: int)
    requires
        0 <= i < s.len(),
        !s[i],
    ensures
        count_true(s) < s.len(),
    decreases s.len(),
{
    if i == s.len() - 1 {
        lemma_count_true_bounds(s.drop_last());
    } else {
        lemma_count_true_lt(s.drop_last(), i);
    }
}

proof fn lemma_count_true_update(s: Seq<bool>, i: int)
    requires
        0 <= i < s.len(),
        !s[i],
    ensures
        count_true(s.update(i, true)) == count_true(s) + 1,
    decreases s.len(),
{
    let t = s.update(i, true);
    if i == s.len() - 1 {
        assert(t.drop_last() =~= s.drop_last());
    } else {
        assert(t.drop_last() =~= s.drop_last().update(i, true));
        lemma_count_true_update(s.drop_last(), i);
    }
}

impl DependencyAnalyzer {
    /// Whether the graph holds any node at all.
    pub closed spec fn has_nodes(self) -> bool {
        self.node_names@.len() > 0
    }

    spec fn n_nodes(self) -> int {
        self.node_names@.len() as int
    }

    spec fn id_edge(self, a: int, b: int) -> bool {
        &&& 0 <= a < self.n_nodes()
        &&& 0 <= b < self.n_nodes()
        &&& exists|k: int|
            0 <= k < self.includers@[a]@.len() && (self.unit_nodes@[self.includers@[a]@[k] as int]
                as int) == b
    }

    spec fn id_path_ok(self, p: Seq<int>) -> bool {
        &&& p.len() >= 1
        &&& forall|x: int| 0 <= x < p.len() ==> 0 <= #[trigger] p[x] < self.n_nodes()
        &&& forall|x: int| 0 <= x < p.len() - 1 ==> self.id_edge(#[trigger] p[x], p[x + 1])
    }

    spec fn id_reaches(self, a: int, b: int) -> bool {
        exists|p: Seq<int>| self.id_path_ok(p) && p[0] == a && p.last() == b
    }

    /// One traversal step at the level of names: `b` is the canonical name of
    /// some unit that directly references node `a`.
    pub open spec fn edge(self, a: Seq<char>, b: Seq<char>) -> bool {
        exists|p: Seq<char>| self.includers_of(a).contains(p) && canon(p) == b
    }

    /// A nonempty chain of names linked by traversal steps.
    pub open spec fn name_path_ok(self, p: Seq<Seq<char>>) -> bool {
        &&& p.len() >= 1
        &&& forall|x: int| 0 <= x < p.len() - 1 ==> self.edge(#[trigger] p[x], p[x + 1])
    }

    /// Node `b` is reachable from node `a` by following inclusion edges
    /// (every node reaches itself).
    pub open spec fn reaches(self, a: Seq<char>, b: Seq<char>) -> bool {
        exists|p: Seq<Seq<char>>| self.name_path_ok(p) && p[0] == a && p.last() == b
    }

    /// The transitive impact of node `n`: every canonical identity of a
    /// scanned unit, other than `n` itself, reachable from `n`.
    pub open spec fn impact_set(self, n: Seq<char>) -> Set<Seq<char>> {
        Set::new(
            |b: Seq<char>| b != n && self.reaches(n, b) && self.scanned_canon().contains(b),
        )
    }

    proof fn lemma_id_reach_refl(self, a: int)
        requires
            0 <= a < self.n_nodes(),
        ensures
            self.id_reaches(a, a),
    {
        let p: Seq<int> = seq![a];
        assert(self.id_path_ok(p));
        assert(p[0] == a && p.last() == a);
    }

    proof fn lemma_id_reach_extend(self, s: int, b: int, c: int)
        requires
            self.id_reaches(s, b),
            self.id_edge(b, c),
        ensures
            self.id_reaches(s, c),
    {
        let p = choose|p: Seq<int>| self.id_path_ok(p) && p[0] == s && p.last() == b;
        let q = p.push(c);
        assert forall|x: int| 0 <= x < q.len() - 1 implies self.id_edge(
            #[trigger] q[x],
            q[x + 1],
        ) by {
            if x < p.len() - 1 {
                assert(q[x] == p[x] && q[x + 1] == p[x + 1]);
            } else {
                assert(q[x] == p.last() && q[x + 1] == c);
            }
        }
        assert(self.id_path_ok(q));
        assert(q[0] == s && q.last() == c);
    }

    proof fn lemma_id_reach_step(self, a: int, b1: int, b: int)
        requires
            self.id_edge(a, b1),
            self.id_reaches(b1, b),
        ensures
            self.id_reaches(a, b),
    {
        let p = choose|p: Seq<int>| self.id_path_ok(p) && p[0] == b1 && p.last() == b;
        let q = seq![a] + p;
        assert forall|x: int| 0 <= x < q.len() - 1 implies self.id_edge(
            #[trigger] q[x],
            q[x + 1],
        ) by {
            if x == 0 {
                assert(q[0] == a && q[1] == p[0]);
            } else {
                assert(q[x] == p[x - 1] && q[x + 1] == p[x]);
            }
        }
        assert(self.id_path_ok(q));
        assert(q[0] == a && q.last() == b);
    }

    proof fn lemma_id_edge_to_name(self, a: int, b: int)
        requires
            self.wf(),
            self.id_edge(a, b),
        ensures
            self.edge(self.node_names@[a]@, self.node_names@[b]@),
    {
        let k = choose|k: int|
            0 <= k < self.includers@[a]@.len() && (self.unit_nodes@[self.includers@[a]@[k] as int]
                as int) == b;
        let v = self.includers@[a]@[k] as int;
        assert(inc_list_wf(self.includers@[a]@, self.unit_names@.len() as int));
        assert(0 <= v < self.unit_names@.len());
        let p = self.unit_names@[v]@;
        assert(self.includers_of(self.node_names@[a]@).contains(p)) by {
            assert(0 <= a < self.node_names@.len() && self.node_names@[a]@ == self.node_names@[a]@
                && 0 <= k < self.includers@[a]@.len()
                && self.unit_names@[self.includers@[a]@[k] as int]@ == p);
        }
        assert(canon(p) == self.node_names@[b]@) by {
            assert(self.node_names@[self.unit_nodes@[v] as int]@ == canon(self.unit_names@[v]@));
        }
    }

    proof fn lemma_name_edge_to_id(self, a: int, nb: Seq<char>)
        requires
            self.wf(),
            0 <= a < self.n_nodes(),
            self.edge(self.node_names@[a]@, nb),
        ensures
            exists|b: int|
                0 <= b < self.n_nodes() && self.node_names@[b]@ == nb && self.id_edge(a, b),
    {
        let p = choose|p: Seq<char>|
            self.includers_of(self.node_names@[a]@).contains(p) && canon(p) == nb;
        let (i, k) = choose|i: int, k: int|
            0 <= i < self.node_names@.len() && self.node_names@[i]@ == self.node_names@[a]@ && 0
                <= k < self.includers@[i]@.len()
                && self.unit_names@[self.includers@[i]@[k] as int]@ == p;
        assert(i == a) by {
            if i != a {
                assert(sp_nodes_distinct(self.node_names@));
                if i < a {
                    assert(self.node_names@[i]@ != self.node_names@[a]@);
                } else {
                    assert(self.node_names@[a]@ != self.node_names@[i]@);
                }
            }
        }
        let v = self.includers@[a]@[k] as int;
        assert(inc_list_wf(self.includers@[a]@, self.unit_names@.len() as int));
        let b = self.unit_nodes@[v] as int;
        assert(self.node_names@[b]@ == canon(self.unit_names@[v]@));
        assert(self.node_names@[b]@ == nb);
        assert(self.id_edge(a, b)) by {
            assert(0 <= k < self.includers@[a]@.len()
                && (self.unit_nodes@[self.includers@[a]@[k] as int] as int) == b);
        }
    }

    proof fn lemma_id_reach_to_name(self, a: int, b: int)
        requires
            self.wf(),
            self.id_reaches(a, b),
        ensures
            self.reaches(self.node_names@[a]@, self.node_names@[b]@),
    {
        let p = choose|p: Seq<int>| self.id_path_ok(p) && p[0] == a && p.last() == b;
        let q = Seq::new(p.len(), |x: int| self.node_names@[p[x]]@);
        assert forall|x: int| 0 <= x < q.len() - 1 implies self.edge(
            #[trigger] q[x],
            q[x + 1],
        ) by {
            assert(self.id_edge(p[x], p[x + 1]));
            self.lemma_id_edge_to_name(p[x], p[x + 1]);
        }
        assert(self.name_path_ok(q));
        assert(q[0] == self.node_names@[a]@ && q.last() == self.node_names@[b]@);
    }

    proof fn lemma_name_path_to_id(self, a: int, q: Seq<Seq<char>>)
        requires
            self.wf(),
            0 <= a < self.n_nodes(),
            self.name_path_ok(q),
            q[0] == self.node_names@[a]@,
        ensures
            exists|b: int|
                0 <= b < self.n_nodes() && self.node_names@[b]@ == q.last() && self.id_reaches(
                    a,
                    b,
                ),
        decreases q.len(),
    {
        if q.len() == 1 {
            self.lemma_id_reach_refl(a);
            assert(0 <= a < self.n_nodes() && self.node_names@[a]@ == q.last()
                && self.id_reaches(a, a));
        } else {
            assert(self.edge(q[0], q[1]));
            self.lemma_name_edge_to_id(a, q[1]);
            let b1 = choose|b1: int|
                0 <= b1 < self.n_nodes() && self.node_names@[b1]@ == q[1] && self.id_edge(a, b1);
            let q2 = q.drop_first();
            assert forall|x: int| 0 <= x < q2.len() - 1 implies self.edge(
                #[trigger] q2[x],
                q2[x + 1],
            ) by {
                assert(q2[x] == q[x + 1] && q2[x + 1] == q[x + 2]);
                assert(self.edge(q[x + 1], q[x + 2]));
            }
            assert(self.name_path_ok(q2));
            assert(q2[0] == self.node_names@[b1]@);
            self.lemma_name_path_to_id(b1, q2);
            let b = choose|b: int|
                0 <= b < self.n_nodes() && self.node_names@[b]@ == q2.last() && self.id_reaches(
                    b1,
                    b,
                );
            self.lemma_id_reach_step(a, b1, b);
            assert(q2.last() == q.last());
            assert(0 <= b < self.n_nodes() && self.node_names@[b]@ == q.last()
                && self.id_reaches(a, b));
        }
    }

    proof fn lemma_reach_closed(self, vis: Seq<bool>, path: Seq<int>)
        requires
            vis.len() == self.n_nodes(),
            self.id_path_ok(path),
            vis[path[0]],
            forall|i: int, j: int|
                #![trigger vis[i], self.id_edge(i, j)]
                0 <= i < vis.len() && vis[i] && self.id_edge(i, j) ==> vis[j],
        ensures
            vis[path.last()],
        decreases path.len(),
    {
        if path.len() > 1 {
            assert(self.id_edge(path[0], path[1]));
            assert(vis[path[1]]);
            let p2 = path.drop_first();
            assert forall|x: int| 0 <= x < p2.len() - 1 implies self.id_edge(
                #[trigger] p2[x],
                p2[x + 1],
            ) by {
                assert(p2[x] == path[x + 1] && p2[x + 1] == path[x + 2]);
                assert(self.id_edge(path[x + 1], path[x + 2]));
            }
            assert(self.id_path_ok(p2));
            self.lemma_reach_closed(vis, p2);
            assert(p2.last() == path.last());
        }
    }
}

/// Whether some stack entry's node is `j`.
spec fn on_stack(stack: Seq<(usize, Option<usize>)>, j: int) -> bool {
    exists|x: int| 0 <= x < stack.len() && ((#[trigger] stack[x]).0 as int) == j
}

impl DependencyAnalyzer {
    /// Core invariant of the traversal: the stack and order are made of valid
    /// nodes, everything touched is reachable from the start, the visit order
    /// holds exactly the visited nodes once each, and it starts at the start.
    spec fn dfs_core(
        self,
        si: int,
        visited: Seq<bool>,
        stack: Seq<(usize, Option<usize>)>,
        order: Seq<usize>,
        onames: Seq<String>,
        tedges: Seq<(String, String)>,
    ) -> bool {
        let n = self.n_nodes();
        &&& 0 <= si < n
        &&& visited.len() == n
        &&& forall|x: int| 0 <= x < stack.len() ==> ((#[trigger] stack[x]).0 as int) < n
        &&& forall|x: int|
            0 <= x < stack.len() ==> ((#[trigger] stack[x]).1 matches Some(p) ==> (p as int) < n
                && visited[p as int] && self.id_edge(p as int, stack[x].0 as int))
        &&& forall|x: int|
            0 <= x < stack.len() ==> self.id_reaches(si, ((#[trigger] stack[x]).0 as int))
        &&& forall|i: int| 0 <= i < n && (#[trigger] visited[i]) ==> self.id_reaches(si, i)
        &&& forall|k: int|
            0 <= k < order.len() ==> ((#[trigger] order[k]) as int) < n && visited[order[k] as int]
        &&& forall|i: int| 0 <= i < n && (#[trigger] visited[i]) ==> order.contains(i as usize)
        &&& forall|k1: int, k2: int| 0 <= k1 < k2 < order.len() ==> order[k1] != order[k2]
        &&& (order.len() > 0 ==> (order[0] as int) == si)
        &&& (order.len() == 0 ==> forall|x: int|
            0 <= x < stack.len() ==> ((#[trigger] stack[x]).0 as int) == si)
        &&& (visited[si] || on_stack(stack, si))
        &&& onames.len() == order.len()
        &&& forall|k: int|
            0 <= k < order.len() ==> (#[trigger] onames[k]) == self.node_names@[order[k] as int]
        &&& forall|k: int|
            0 <= k < tedges.len() ==> self.edge(((#[trigger] tedges[k]).0)@, (tedges[k].1)@)
    }

    /// Frontier property: every edge out of a visited node other than `ex`
    /// leads to a node that is visited or still on the stack.
    spec fn dfs_frontier_except(
        self,
        visited: Seq<bool>,
        stack: Seq<(usize, Option<usize>)>,
        ex: int,
    ) -> bool {
        forall|i: int, j: int|
            #![trigger visited[i], self.id_edge(i, j)]
            0 <= i < visited.len() && i != ex && visited[i] && self.id_edge(i, j) ==> (visited[j]
                || on_stack(stack, j))
    }

    /// Visiting a freshly popped, not yet visited node keeps the traversal
    /// invariant, and the frontier property for every node but the one just
    /// visited (its neighbours are pushed right after).
    proof fn lemma_dfs_visit_step(
        self,
        si: int,
        pre_vis: Seq<bool>,
        pre_stack: Seq<(usize, Option<usize>)>,
        pre_order: Seq<usize>,
        pre_onames: Seq<String>,
        pre_tedges: Seq<(String, String)>,
        c: usize,
        par: Option<usize>,
        vis: Seq<bool>,
        stack: Seq<(usize, Option<usize>)>,
        order: Seq<usize>,
        onames: Seq<String>,
        tedges: Seq<(String, String)>,
    )
        requires
            self.wf(),
            self.dfs_core(si, pre_vis, pre_stack, pre_order, pre_onames, pre_tedges),
            self.dfs_frontier_except(pre_vis, pre_stack, -1),
            pre_stack.len() > 0,
            pre_stack.last() == (c, par),
            (c as int) < self.n_nodes(),
            !pre_vis[c as int],
            vis == pre_vis.update(c as int, true),
            stack == pre_stack.drop_last(),
            order == pre_order.push(c),
            onames == pre_onames.push(self.node_names@[c as int]),
            tedges == match par {
                Some(p) => pre_tedges.push(
                    (self.node_names@[p as int], self.node_names@[c as int]),
                ),
                None => pre_tedges,
            },
        ensures
            self.dfs_core(si, vis, stack, order, onames, tedges),
            self.dfs_frontier_except(vis, stack, c as int),
    {
        let n = self.n_nodes();
        let last = pre_stack.len() - 1;
        assert(((pre_stack[last]).0 as int) == c as int);
        assert(self.id_reaches(si, c as int));
        assert forall|i: int| 0 <= i < n && (#[trigger] vis[i]) implies self.id_reaches(
            si,
            i,
        ) by {
            if i != c as int {
                assert(pre_vis[i]);
            }
        }
        assert forall|i: int| 0 <= i < n && (#[trigger] vis[i]) implies order.contains(
            i as usize,
        ) by {
            if i == c as int {
                assert(order[order.len() - 1] == c);
            } else {
                assert(pre_vis[i]);
                let k = choose|k: int| 0 <= k < pre_order.len() && pre_order[k] == i as usize;
                assert(order[k] == i as usize);
            }
        }
        assert(!pre_order.contains(c)) by {
            if pre_order.contains(c) {
                let k = choose|k: int| 0 <= k < pre_order.len() && pre_order[k] == c;
                assert(pre_vis[pre_order[k] as int]);
            }
        }
        assert forall|k1: int, k2: int| 0 <= k1 < k2 < order.len() implies order[k1]
            != order[k2] by {
            if k2 == order.len() - 1 {
                assert(order[k2] == c);
                assert(pre_order.contains(pre_order[k1])) by {
                    assert(pre_order[k1] == order[k1]);
                }
            }
        }
        assert(order.len() > 0 && (order[0] as int) == si) by {
            if pre_order.len() == 0 {
                assert(((pre_stack[last]).0 as int) == si);
                assert(order[0] == c);
            } else {
                assert(order[0] == pre_order[0]);
            }
        }
        assert(vis[si] || on_stack(stack, si)) by {
            if si != c as int && !pre_vis[si] {
                let x = choose|x: int|
                    0 <= x < pre_stack.len() && ((#[trigger] pre_stack[x]).0 as int) == si;
                assert(x != last) by {
                    if x == last {
                        assert((c as int) == si);
                    }
                }
                assert(((stack[x]).0 as int) == si);
            }
        }
        match par {
            Some(p) => {
                assert(self.id_edge(p as int, c as int));
                self.lemma_id_edge_to_name(p as int, c as int);
                assert forall|k: int| 0 <= k < tedges.len() implies self.edge(
                    ((#[trigger] tedges[k]).0)@,
                    (tedges[k].1)@,
                ) by {
                    if k < pre_tedges.len() {
                        assert(tedges[k] == pre_tedges[k]);
                    } else {
                        assert(tedges[k] == (
                            self.node_names@[p as int],
                            self.node_names@[c as int],
                        ));
                    }
                }
            },
            None => {},
        }
        assert forall|i: int, j: int|
            #![trigger vis[i], self.id_edge(i, j)]
            0 <= i < vis.len() && i != c as int && vis[i] && self.id_edge(i, j) implies (vis[j]
            || on_stack(stack, j)) by {
            assert(pre_vis[i]);
            if !pre_vis[j] && j != c as int {
                let x = choose|x: int|
                    0 <= x < pre_stack.len() && ((#[trigger] pre_stack[x]).0 as int) == j;
                assert(x != last) by {
                    if x == last {
                        assert((c as int) == j);
                    }
                }
                assert(((stack[x]).0 as int) == j);
            }
        }
    }

    /// Popping an already visited node keeps the traversal invariant and the
    /// frontier property: edges that pointed at the popped entry point at a
    /// visited node.
    proof fn lemma_dfs_skip_step(
        self,
        si: int,
        vis: Seq<bool>,
        pre_stack: Seq<(usize, Option<usize>)>,
        order: Seq<usize>,
        onames: Seq<String>,
        tedges: Seq<(String, String)>,
        c: usize,
        par: Option<usize>,
        stack: Seq<(usize, Option<usize>)>,
    )
        requires
            self.wf(),
            self.dfs_core(si, vis, pre_stack, order, onames, tedges),
            self.dfs_frontier_except(vis, pre_stack, -1),
            pre_stack.len() > 0,
            pre_stack.last() == (c, par),
            (c as int) < self.n_nodes(),
            vis[c as int],
            stack == pre_stack.drop_last(),
        ensures
            self.dfs_core(si, vis, stack, order, onames, tedges),
            self.dfs_frontier_except(vis, stack, -1),
    {
        let last = pre_stack.len() - 1;
        assert(vis[si] || on_stack(stack, si)) by {
            if !vis[si] {
                let x = choose|x: int|
                    0 <= x < pre_stack.len() && ((#[trigger] pre_stack[x]).0 as int) == si;
                assert(x != last) by {
                    if x == last {
                        assert((c as int) == si);
                        assert(vis[si]);
                    }
                }
                assert(((stack[x]).0 as int) == si);
            }
        }
        assert forall|i: int, j: int|
            #![trigger vis[i], self.id_edge(i, j)]
            0 <= i < vis.len() && vis[i] && self.id_edge(i, j) implies (vis[j] || on_stack(
            stack,
            j,
        )) by {
            if !vis[j] {
                let x = choose|x: int|
                    0 <= x < pre_stack.len() && ((#[trigger] pre_stack[x]).0 as int) == j;
                assert(x != last) by {
                    if x == last {
                        assert((c as int) == j);
                        assert(vis[j]);
                    }
                }
                assert(((stack[x]).0 as int) == j);
            }
        }
    }

    /// Pushes every neighbour of the just visited node `c` onto the stack,
    /// restoring the full frontier property.
    fn push_neighbors(
        &self,
        si: usize,
        c: usize,
        stack: &mut Vec<(usize, Option<usize>)>,
        Ghost(vis): Ghost<Seq<bool>>,
        Ghost(order): Ghost<Seq<usize>>,
        Ghost(onames): Ghost<Seq<String>>,
        Ghost(tedges): Ghost<Seq<(String, String)>>,
    )
        requires
            self.wf(),
            0 <= (si as int) < self.n_nodes(),
            (c as int) < self.n_nodes(),
            vis[c as int],
            self.dfs_core(si as int, vis, old(stack)@, order, onames, tedges),
            self.dfs_frontier_except(vis, old(stack)@, c as int),
        ensures
            self.dfs_core(si as int, vis, final(stack)@, order, onames, tedges),
            self.dfs_frontier_except(vis, final(stack)@, -1),
    {
        let lst_len = self.includers[c].len();
        let mut k: usize = 0;
        proof {
            assert(inc_list_wf(self.includers@[c as int]@, self.unit_names@.len() as int));
        }
        while k < lst_len
            invariant
                self.wf(),
                0 <= (si as int) < self.n_nodes(),
                (c as int) < self.n_nodes(),
                vis[c as int],
                k <= lst_len,
                lst_len == self.includers@[c as int]@.len(),
                self.dfs_core(si as int, vis, stack@, order, onames, tedges),
                self.dfs_frontier_except(vis, stack@, c as int),
                forall|t: int|
                    0 <= t < k ==> on_stack(
                        stack@,
                        self.unit_nodes@[(#[trigger] self.includers@[c as int]@[t]) as int] as int,
                    ),
            decreases lst_len - k,
        {
            let unit: usize = self.includers[c][k];
            proof {
                assert(inc_list_wf(self.includers@[c as int]@, self.unit_names@.len() as int));
                assert((unit as int) < self.unit_names@.len());
            }
            let nb: usize = self.unit_nodes[unit];
            proof {
                assert((nb as int) < self.n_nodes());
                assert(self.id_edge(c as int, nb as int)) by {
                    assert(0 <= k < self.includers@[c as int]@.len() && (self.unit_nodes@[
                    self.includers@[c as int]@[k as int] as int] as int) == nb as int);
                }
                self.lemma_id_reach_extend(si as int, c as int, nb as int);
            }
            let ghost push_pre = stack@;
            stack.push((nb, Some(c)));
            proof {
                assert forall|t: int| 0 <= t < k + 1 implies on_stack(
                    stack@,
                    self.unit_nodes@[(#[trigger] self.includers@[c as int]@[t]) as int] as int,
                ) by {
                    if t < k {
                        let x = choose|x: int|
                            0 <= x < push_pre.len() && ((#[trigger] push_pre[x]).0 as int)
                                == self.unit_nodes@[self.includers@[c as int]@[t] as int] as int;
                        assert(((stack@[x]).0 as int) == self.unit_nodes@[self.includers@[
                        c as int]@[t] as int] as int);
                    } else {
                        assert(((stack@[stack@.len() - 1]).0 as int) == nb as int);
                    }
                }
                assert forall|i: int, j: int|
                    #![trigger vis[i], self.id_edge(i, j)]
                    0 <= i < vis.len() && i != c as int && vis[i] && self.id_edge(i, j) implies (
                vis[j] || on_stack(stack@, j)) by {
                    if !vis[j] {
                        let x = choose|x: int|
                            0 <= x < push_pre.len() && ((#[trigger] push_pre[x]).0 as int) == j;
                        assert(((stack@[x]).0 as int) == j);
                    }
                }
                assert(vis[si as int] || on_stack(stack@, si as int)) by {
                    if !vis[si as int] {
                        let x = choose|x: int|
                            0 <= x < push_pre.len() && ((#[trigger] push_pre[x]).0 as int)
                                == si as int;
                        assert(((stack@[x]).0 as int) == si as int);
                    }
                }
            }
            k = k + 1;
        }
        proof {
            assert forall|i: int, j: int|
                #![trigger vis[i], self.id_edge(i, j)]
                0 <= i < vis.len() && vis[i] && self.id_edge(i, j) implies (vis[j] || on_stack(
                stack@,
                j,
            )) by {
                if i == c as int && !vis[j] {
                    let kk = choose|kk: int|
                        0 <= kk < self.includers@[c as int]@.len() && (self.unit_nodes@[
                        self.includers@[c as int]@[kk] as int] as int) == j;
                    assert(on_stack(
                        stack@,
                        self.unit_nodes@[self.includers@[c as int]@[kk] as int] as int,
                    ));
                }
            }
        }
    }

    /// Depth-first traversal from `start_node`, following edges from a node
    /// to the canonical names of the units that directly reference it. Visits
    /// each reachable node exactly once (cycles are tolerated silently) and
    /// records the discovery tree. Fails on a graph with no nodes, and on a
    /// start name that is no node of the graph.
    #[verifier::rlimit(100)]
    pub fn dfs_tree(&self, start_node: &str) -> (r: Result<DFSTree, AnalysisError>)
        requires
            self.wf(),
        ensures
            r is Ok <==> (self.has_nodes() && self.graph_dom().contains(start_node@)),
            !self.has_nodes() ==> r == Err::<DFSTree, AnalysisError>(AnalysisError::EmptyGraph),
            self.has_nodes() && !self.graph_dom().contains(start_node@) ==> r == Err::<
                DFSTree,
                AnalysisError,
            >(AnalysisError::NodeNotFound),
            r matches Ok(t) ==> {
                &&& t.visited_set() == Set::new(|b: Seq<char>| self.reaches(start_node@, b))
                &&& t.order().len() >= 1
                &&& t.order()[0] == start_node@
                &&& forall|k1: int, k2: int|
                    0 <= k1 < k2 < t.order().len() ==> t.order()[k1] != t.order()[k2]
                &&& forall|k: int|
                    0 <= k < t.order().len() ==> self.graph_dom().contains(#[trigger] t.order()[k])
                &&& forall|k: int|
                    0 <= k < t.edge_pairs().len() ==> self.edge(
                        (#[trigger] t.edge_pairs()[k]).0,
                        t.edge_pairs()[k].1,
                    )
            },
    {
        let n = self.node_names.len();
        if n == 0 {
            return Err(AnalysisError::EmptyGraph);
        }
        let si: usize = match find_node(&self.node_names, start_node) {
            Some(i) => i,
            None => {
                proof {
                    assert(!self.graph_dom().contains(start_node@));
                }
                return Err(AnalysisError::NodeNotFound);
            },
        };
        proof {
            assert(self.graph_dom().contains(start_node@)) by {
                assert(self.node_names@[si as int]@ == start_node@);
            }
        }
        let mut visited: Vec<bool> = vec![false; n];
        let mut order_ids: Vec<usize> = Vec::new();
        let mut order_names: Vec<String> = Vec::new();
        let mut tree_edges: Vec<(String, String)> = Vec::new();
        let mut stack: Vec<(usize, Option<usize>)> = Vec::new();
        let mut count: usize = 0;
        stack.push((si, None));
        proof {
            lemma_count_true_zero(visited@);
            assert(self.dfs_core(
                si as int,
                visited@,
                stack@,
                order_ids@,
                order_names@,
                tree_edges@,
            )) by {
                self.lemma_id_reach_refl(si as int);
                assert(on_stack(stack@, si as int)) by {
                    assert(((stack@[0]).0 as int) == si as int);
                }
            }
        }
        while stack.len() > 0
            invariant
                self.wf(),
                n == self.n_nodes(),
                0 < n,
                (si as int) < n,
                self.node_names@[si as int]@ == start_node@,
                visited@.len() == n,
                count as int == count_true(visited@),
                count <= n,
                self.dfs_core(si as int, visited@, stack@, order_ids@, order_names@, tree_edges@),
                self.dfs_frontier_except(visited@, stack@, -1),
            decreases n - count, stack@.len(),
        {
            let ghost pre_stack = stack@;
            let ghost pre_vis = visited@;
            let ghost pre_order = order_ids@;
            let ghost pre_onames = order_names@;
            let ghost pre_tedges = tree_edges@;
            let top = stack.pop().unwrap();
            let c: usize = top.0;
            let par: Option<usize> = top.1;
            proof {
                assert(pre_stack[pre_stack.len() - 1] == (c, par));
                assert(((pre_stack[pre_stack.len() - 1]).0 as int) == c as int);
                assert(self.id_reaches(si as int, c as int));
            }
            if !visited[c] {
                proof {
                    lemma_count_true_lt(visited@, c as int);
                    lemma_count_true_update(visited@, c as int);
                }
                visited[c] = true;
                count = count + 1;
                order_ids.push(c);
                order_names.push(self.node_names[c].clone());
                match par {
                    Some(p) => {
                        proof {
                            assert(self.id_edge(p as int, c as int));
                        }
                        tree_edges.push((self.node_names[p].clone(), self.node_names[c].clone()));
                    },
                    None => {},
                }
                proof {
                    self.lemma_dfs_visit_step(
                        si as int,
                        pre_vis,
                        pre_stack,
                        pre_order,
                        pre_onames,
                        pre_tedges,
                        c,
                        par,
                        visited@,
                        stack@,
                        order_ids@,
                        order_names@,
                        tree_edges@,
                    );
                }
                self.push_neighbors(
                    si,
                    c,
                    &mut stack,
                    Ghost(visited@),
                    Ghost(order_ids@),
                    Ghost(order_names@),
                    Ghost(tree_edges@),
                );
            } else {
                proof {
                    self.lemma_dfs_skip_step(
                        si as int,
                        visited@,
                        pre_stack,
                        order_ids@,
                        order_names@,
                        tree_edges@,
                        c,
                        par,
                        stack@,
                    );
                }
            }
        }
        proof {
            assert(visited@[si as int]);
        }
        let t = DFSTree { tree_edges, visit_order: order_names };
        proof {
            self.lemma_dfs_result(t, si as int, visited@, order_ids@, start_node@);
        }
        Ok(t)
    }

    proof fn lemma_dfs_names(self, t: DFSTree, order: Seq<usize>)
        requires
            self.wf(),
            forall|k: int| 0 <= k < order.len() ==> ((#[trigger] order[k]) as int) < self.n_nodes(),
            forall|k1: int, k2: int| 0 <= k1 < k2 < order.len() ==> order[k1] != order[k2],
            t.visit_order@.len() == order.len(),
            forall|k: int|
                0 <= k < order.len() ==> (#[trigger] t.visit_order@[k])
                    == self.node_names@[order[k] as int],
        ensures
            t.order().len() == order.len(),
            forall|k: int|
                0 <= k < order.len() ==> (#[trigger] t.order()[k])
                    == self.node_names@[order[k] as int]@,
            forall|k1: int, k2: int|
                0 <= k1 < k2 < t.order().len() ==> t.order()[k1] != t.order()[k2],
            forall|k: int|
                0 <= k < t.order().len() ==> self.graph_dom().contains(#[trigger] t.order()[k]),
    {
        assert forall|k: int| 0 <= k < order.len() implies (#[trigger] t.order()[k])
            == self.node_names@[order[k] as int]@ by {
            assert(t.order()[k] == t.visit_order@[k]@);
        }
        assert forall|k1: int, k2: int| 0 <= k1 < k2 < t.order().len() implies t.order()[k1]
            != t.order()[k2] by {
            assert(order[k1] != order[k2]);
            assert(sp_nodes_distinct(self.node_names@));
            if (order[k1] as int) < (order[k2] as int) {
                assert(self.node_names@[order[k1] as int]@ != self.node_names@[order[k2] as int]@);
            } else {
                assert(self.node_names@[order[k2] as int]@ != self.node_names@[order[k1] as int]@);
            }
        }
        assert forall|k: int| 0 <= k < t.order().len() implies self.graph_dom().contains(
            #[trigger] t.order()[k],
        ) by {
            assert(t.order()[k] == self.node_names@[order[k] as int]@);
        }
    }

    proof fn lemma_dfs_sound(self, t: DFSTree, si: int, order: Seq<usize>, start: Seq<char>)
        requires
            self.wf(),
            0 <= si < self.n_nodes(),
            self.node_names@[si]@ == start,
            t.order().len() == order.len(),
            forall|k: int| 0 <= k < order.len() ==> ((#[trigger] order[k]) as int) < self.n_nodes(),
            forall|k: int|
                0 <= k < order.len() ==> (#[trigger] t.order()[k])
                    == self.node_names@[order[k] as int]@,
            forall|k: int| 0 <= k < order.len() ==> self.id_reaches(si, (#[trigger] order[k]) as int),
        ensures
            forall|b: Seq<char>| t.visited_set().contains(b) ==> self.reaches(start, b),
    {
        assert forall|b: Seq<char>| t.visited_set().contains(b) implies self.reaches(
            start,
            b,
        ) by {
            let k = choose|k: int| 0 <= k < t.order().len() && t.order()[k] == b;
            let i = order[k] as int;
            assert(self.id_reaches(si, i));
            self.lemma_id_reach_to_name(si, i);
            assert(t.order()[k] == self.node_names@[i]@);
        }
    }

    proof fn lemma_dfs_complete(
        self,
        t: DFSTree,
        si: int,
        visited: Seq<bool>,
        order: Seq<usize>,
        start: Seq<char>,
    )
        requires
            self.wf(),
            self.n_nodes() <= usize::MAX,
            0 <= si < self.n_nodes(),
            self.node_names@[si]@ == start,
            visited.len() == self.n_nodes(),
            visited[si],
            forall|i: int, j: int|
                #![trigger visited[i], self.id_edge(i, j)]
                0 <= i < visited.len() && visited[i] && self.id_edge(i, j) ==> visited[j],
            forall|i: int| 0 <= i < visited.len() && (#[trigger] visited[i]) ==> order.contains(
                i as usize,
            ),
            t.order().len() == order.len(),
            forall|k: int| 0 <= k < order.len() ==> ((#[trigger] order[k]) as int) < self.n_nodes(),
            forall|k: int|
                0 <= k < order.len() ==> (#[trigger] t.order()[k])
                    == self.node_names@[order[k] as int]@,
        ensures
            forall|b: Seq<char>| self.reaches(start, b) ==> t.visited_set().contains(b),
    {
        assert forall|b: Seq<char>| self.reaches(start, b) implies t.visited_set().contains(
            b,
        ) by {
            let q = choose|q: Seq<Seq<char>>|
                self.name_path_ok(q) && q[0] == start && q.last() == b;
            self.lemma_name_path_to_id(si, q);
            let ib = choose|ib: int|
                0 <= ib < self.n_nodes() && self.node_names@[ib]@ == b && self.id_reaches(si, ib);
            let p = choose|p: Seq<int>| self.id_path_ok(p) && p[0] == si && p.last() == ib;
            self.lemma_reach_closed(visited, p);
            assert(visited[ib]);
            assert(order.contains(ib as usize));
            let k = choose|k: int| 0 <= k < order.len() && order[k] == ib as usize;
            assert((order[k] as int) == ib);
            assert(t.order()[k] == self.node_names@[ib]@);
            assert(t.order().contains(b));
        }
    }

    /// After the traversal: the visit order names exactly the set of names
    /// reachable from the start node.
    proof fn lemma_dfs_result(
        self,
        t: DFSTree,
        si: int,
        visited: Seq<bool>,
        order: Seq<usize>,
        start: Seq<char>,
    )
        requires
            self.wf(),
            self.n_nodes() <= usize::MAX,
            0 <= si < self.n_nodes(),
            self.node_names@[si]@ == start,
            visited.len() == self.n_nodes(),
            visited[si],
            self.dfs_core(si, visited, Seq::empty(), order, t.visit_order@, t.tree_edges@),
            self.dfs_frontier_except(visited, Seq::empty(), -1),
        ensures
            t.visited_set() == Set::new(|b: Seq<char>| self.reaches(start, b)),
            t.order().len() >= 1,
            t.order()[0] == start,
            forall|k1: int, k2: int|
                0 <= k1 < k2 < t.order().len() ==> t.order()[k1] != t.order()[k2],
            forall|k: int|
                0 <= k < t.order().len() ==> self.graph_dom().contains(#[trigger] t.order()[k]),
            forall|k: int|
                0 <= k < t.edge_pairs().len() ==> self.edge(
                    (#[trigger] t.edge_pairs()[k]).0,
                    t.edge_pairs()[k].1,
                ),
    {
        self.lemma_dfs_names(t, order);
        assert(order.contains(si as usize));
        assert(t.order().len() >= 1);
        assert(t.order()[0] == start) by {
            assert((order[0] as int) == si);
            assert(t.visit_order@[0] == self.node_names@[si]);
        }
        assert forall|k: int| 0 <= k < order.len() implies self.id_reaches(
            si,
            (#[trigger] order[k]) as int,
        ) by {
            assert(visited[order[k] as int]);
        }
        self.lemma_dfs_sound(t, si, order, start);
        assert forall|i: int, j: int|
            #![trigger visited[i], self.id_edge(i, j)]
            0 <= i < visited.len() && visited[i] && self.id_edge(i, j) implies visited[j] by {
            assert(visited[j] || on_stack(Seq::empty(), j));
            if !visited[j] {
                let x = choose|x: int|
                    0 <= x < Seq::<(usize, Option<usize>)>::empty().len() && ((#[trigger] Seq::<(
                        usize,
                        Option<usize>,
                    )>::empty()[x]).0 as int) == j;
                assert(false);
            }
        }
        self.lemma_dfs_complete(t, si, visited, order, start);
        assert(t.visited_set() =~= Set::new(|b: Seq<char>| self.reaches(start, b)));
        assert forall|k: int| 0 <= k < t.edge_pairs().len() implies self.edge(
            (#[trigger] t.edge_pairs()[k]).0,
            t.edge_pairs()[k].1,
        ) by {
            assert(t.edge_pairs()[k] == ((t.tree_edges@[k].0)@, (t.tree_edges@[k].1)@));
            assert(self.edge(((t.tree_edges@[k]).0)@, (t.tree_edges@[k].1)@));
        }
    }
}

proof fn lemma_build_dom(a: DependencyAnalyzer, files: Seq<File>)
    requires
        graph_inv_units(a.node_names@, a.includers@, files, files.len() as int),
    ensures
        a.graph_dom() == dom_of(files),
        forall|v: int|
            0 <= v < files.len() ==> a.graph_dom().contains(canon(#[trigger] files[v].id())),
{
    assert forall|n: Seq<char>| a.graph_dom().contains(n) implies dom_of(files).contains(n) by {
        let i = choose|i: int| 0 <= i < a.node_names@.len() && a.node_names@[i]@ == n;
        assert(name_from_prefix(files, files.len() as int, a.node_names@[i]@));
    }
    assert forall|n: Seq<char>| dom_of(files).contains(n) implies a.graph_dom().contains(n) by {
        let v = choose|v: int|
            0 <= v < files.len() && (canon(files[v].id()) == n || canon_refs_of(files[v]).contains(
                n,
            ));
        if canon(files[v].id()) == n {
            assert(node_exists(a.node_names@, canon(files[v].id())));
        } else {
            let t = choose|t: int|
                0 <= t < files[v].refs().len() && canon(files[v].refs()[t]) == n;
            assert(node_exists(a.node_names@, canon(files[v].refs()[t])));
        }
        let i = choose|i: int| 0 <= i < a.node_names@.len() && a.node_names@[i]@ == n;
        assert(a.graph_dom().contains(n));
    }
    assert(a.graph_dom() =~= dom_of(files));
    assert forall|v: int| 0 <= v < files.len() implies a.graph_dom().contains(
        canon(#[trigger] files[v].id()),
    ) by {
        assert(node_exists(a.node_names@, canon(files[v].id())));
    }
}

proof fn lemma_build_includers_one(a: DependencyAnalyzer, files: Seq<File>, n: Seq<char>)
    requires
        graph_inv_units(a.node_names@, a.includers@, files, files.len() as int),
        a.unit_names@.len() == files.len(),
        files.len() <= usize::MAX,
        forall|v: int| 0 <= v < files.len() ==> (#[trigger] a.unit_names@[v]@) == files[v].id(),
    ensures
        a.includers_of(n) == direct_includers(files, n),
{
    assert forall|p: Seq<char>| a.includers_of(n).contains(p) implies direct_includers(
        files,
        n,
    ).contains(p) by {
        let (i, k) = choose|i: int, k: int|
            0 <= i < a.node_names@.len() && a.node_names@[i]@ == n && 0 <= k
                < a.includers@[i]@.len() && a.unit_names@[a.includers@[i]@[k] as int]@ == p;
        let vu = a.includers@[i]@[k];
        assert(inc_list_wf(a.includers@[i]@, files.len() as int));
        assert((vu as int) < files.len());
        assert(a.includers@[i]@.contains(vu)) by {
            assert(a.includers@[i]@[k] == vu);
        }
        assert(canon_refs_of(files[vu as int]).contains(n));
        assert(files[vu as int].id() == p);
    }
    assert forall|p: Seq<char>| direct_includers(files, n).contains(p) implies a.includers_of(
        n,
    ).contains(p) by {
        let v = choose|v: int|
            0 <= v < files.len() && files[v].id() == p && canon_refs_of(files[v]).contains(n);
        let t = choose|t: int| 0 <= t < files[v].refs().len() && canon(files[v].refs()[t]) == n;
        assert(node_exists(a.node_names@, canon(files[v].refs()[t])));
        let i = choose|i: int| 0 <= i < a.node_names@.len() && a.node_names@[i]@ == n;
        let vu: usize = v as usize;
        assert(a.includers@[i]@.contains(vu));
        let k = choose|k: int| 0 <= k < a.includers@[i]@.len() && a.includers@[i]@[k] == vu;
        assert(a.unit_names@[a.includers@[i]@[k] as int]@ == p);
    }
    assert(a.includers_of(n) =~= direct_includers(files, n));
}

proof fn lemma_build_model(a: DependencyAnalyzer, files: Seq<File>)
    requires
        graph_inv_units(a.node_names@, a.includers@, files, files.len() as int),
        units_mapped(a.node_names@, a.unit_names@, a.unit_nodes@),
        a.unit_names@.len() == files.len(),
        files.len() <= usize::MAX,
        distinct_ids(files),
        forall|v: int| 0 <= v < files.len() ==> (#[trigger] a.unit_names@[v]@) == files[v].id(),
    ensures
        a.wf(),
        a.scanned_ids() == files.map_values(|f: File| f.id()),
        a.scanned_canon() == scanned_canon_of(files),
        a.graph_dom() == dom_of(files),
        a.has_nodes() <==> files.len() > 0,
        forall|n: Seq<char>| #[trigger] a.includers_of(n) == direct_includers(files, n),
        forall|v: int|
            0 <= v < files.len() ==> a.graph_dom().contains(canon(#[trigger] files[v].id())),
{
    assert(a.scanned_ids() =~= files.map_values(|f: File| f.id()));
    assert forall|n: Seq<char>|
        a.scanned_canon().contains(n) == scanned_canon_of(files).contains(n) by {
        if a.scanned_canon().contains(n) {
            let v = choose|v: int|
                0 <= v < a.unit_names@.len() && canon(a.unit_names@[v]@) == n;
            assert(a.unit_names@[v]@ == files[v].id());
            assert(canon(files[v].id()) == n);
        }
        if scanned_canon_of(files).contains(n) {
            let v = choose|v: int| 0 <= v < files.len() && canon(files[v].id()) == n;
            assert(a.unit_names@[v]@ == files[v].id());
            assert(canon(a.unit_names@[v]@) == n);
        }
    }
    assert(a.scanned_canon() =~= scanned_canon_of(files));
    lemma_build_dom(a, files);
    assert forall|n: Seq<char>| #[trigger]
        a.includers_of(n) == direct_includers(files, n) by {
        lemma_build_includers_one(a, files, n);
    }
    if files.len() > 0 {
        assert(node_exists(a.node_names@, canon(files[0].id())));
    }
    if a.node_names@.len() > 0 {
        assert(name_from_prefix(files, files.len() as int, a.node_names@[0]@));
    }
}

/// One ranking row: a node name and the set of paths counted for it — the
/// direct including paths, or the transitively impacted canonical names.
#[derive(Debug, Clone)]
pub struct DependencyEntry {
    file_name: String,
    including_files_paths: Vec<String>,
}

impl DependencyEntry {
    /// The node's canonical name.
    pub closed spec fn name(self) -> Seq<char> {
        self.file_name@
    }

    /// The associated paths, in the order they are handed out.
    pub closed spec fn paths(self) -> Seq<Seq<char>> {
        self.including_files_paths@.map_values(|s: String| s@)
    }

    /// The associated paths as a set.
    pub open spec fn path_set(self) -> Set<Seq<char>> {
        Set::new(|p: Seq<char>| self.paths().contains(p))
    }

    /// The entry's ranking count.
    pub open spec fn count(self) -> int {
        self.paths().len() as int
    }

    pub fn get_file_name(&self) -> (r: &str)
        ensures
            r@ == self.name(),
    {
        self.file_name.as_str()
    }

    pub fn get_including_file_paths(&self) -> (r: &Vec<String>)
        ensures
            r@.map_values(|s: String| s@) == self.paths(),
            r@.len() == self.paths().len(),
    {
        &self.including_files_paths
    }
}

/// Whether some row of `s` is named `n`.
pub open spec fn has_entry_named(s: Seq<DependencyEntry>, n: Seq<char>) -> bool {
    exists|k: int| 0 <= k < s.len() && (#[trigger] s[k]).name() == n
}

/// Whether some string of `s` reads `n`.
pub open spec fn names_contain(s: Seq<String>, n: Seq<char>) -> bool {
    exists|k: int| 0 <= k < s.len() && (#[trigger] s[k])@ == n
}

/// A row's count is the size of its path set: the paths are handed out
/// without duplicates.
pub proof fn lemma_entry_count(e: DependencyEntry)
    requires
        e.paths().no_duplicates(),
    ensures
        e.path_set().finite(),
        e.path_set().len() == e.count(),
{
    broadcast use vstd::seq_lib::seq_to_set_is_finite;

    assert(e.path_set() =~= e.paths().to_set());
    e.paths().unique_seq_to_set();
}

/// Sorts ranking rows by descending count. The sort is stable, so rows with
/// equal counts keep the order in which they were handed in: that is the
/// deterministic tie-break this library documents.
fn sort_entries_desc(v: &mut Vec<DependencyEntry>)
    ensures
        final(v)@.len() == old(v)@.len(),
        final(v)@.to_multiset() == old(v)@.to_multiset(),
        forall|a: int, b: int|
            0 <= a <= b < final(v)@.len() ==> final(v)@[a].count() >= final(v)@[b].count(),
{
    broadcast use vstd::seq_lib::group_to_multiset_ensures;

    let n = v.len();
    if n == 0 {
        return ;
    }
    let mut i: usize = 1;
    while i < n
        invariant
            n == v@.len(),
            1 <= i <= n,
            v@.to_multiset() == old(v)@.to_multiset(),
            forall|a: int, b: int| 0 <= a <= b < i ==> v@[a].count() >= v@[b].count(),
        decreases n - i,
    {
        let ghost pre = v@;
        let e = v.remove(i);
        let ghost mid = v@;
        let ec = e.including_files_paths.len();
        let mut j: usize = 0;
        while j < i && v[j].including_files_paths.len() >= ec
            invariant
                mid == v@,
                v@.len() == n - 1,
                i < n,
                j <= i,
                ec == e.count(),
                forall|k: int| 0 <= k < j ==> v@[k].count() >= e.count(),
            decreases i - j,
        {
            j = j + 1;
        }
        v.insert(j, e);
        proof {
            assert(v@.to_multiset() == old(v)@.to_multiset()) by {
                assert(mid == pre.remove(i as int));
                vstd::seq_lib::to_multiset_remove(pre, i as int);
                vstd::seq_lib::to_multiset_insert(mid, j as int, e);
                assert(v@ == mid.insert(j as int, e));
                assert(pre.to_multiset().contains(pre[i as int])) by {
                    vstd::seq_lib::to_multiset_contains(pre, pre[i as int]);
                    assert(pre.contains(pre[i as int]));
                }
                assert(mid.to_multiset().insert(e) =~= pre.to_multiset());
            }
            assert forall|a: int, b: int| 0 <= a <= b < i + 1 implies v@[a].count()
                >= v@[b].count() by {
                assert(forall|x: int| 0 <= x < j ==> v@[x] == mid[x]);
                assert(v@[j as int] == e);
                assert(forall|x: int| j < x <= i ==> v@[x] == mid[x - 1]);
                assert(forall|x: int| 0 <= x < i ==> mid[x] == pre[x]);
                if j < i {
                    assert(mid[j as int].count() < e.count());
                }
            }
        }
        i = i + 1;
    }
}

/// A sequence with pairwise distinct entry names, reordered into another with
/// the same multiset, keeps exactly those entries, names still distinct.
proof fn lemma_sorted_perm_names(pre: Seq<DependencyEntry>, post: Seq<DependencyEntry>)
    requires
        post.to_multiset() == pre.to_multiset(),
        forall|k1: int, k2: int| 0 <= k1 < k2 < pre.len() ==> pre[k1].name() != pre[k2].name(),
    ensures
        post.len() == pre.len(),
        forall|k: int| 0 <= k < post.len() ==> pre.contains(#[trigger] post[k]),
        forall|k: int| 0 <= k < pre.len() ==> post.contains(#[trigger] pre[k]),
        forall|k1: int, k2: int| 0 <= k1 < k2 < post.len() ==> post[k1].name() != post[k2].name(),
{
    broadcast use vstd::seq_lib::group_to_multiset_ensures;

    assert(post.len() == pre.len()) by {
        assert(post.to_multiset().len() == post.len());
        assert(pre.to_multiset().len() == pre.len());
    }
    assert forall|k: int| 0 <= k < post.len() implies pre.contains(#[trigger] post[k]) by {
        assert(post.contains(post[k])) by {
            assert(post[k] == post[k]);
        }
        assert(post.to_multiset().contains(post[k]));
        assert(pre.to_multiset().contains(post[k]));
    }
    assert forall|k: int| 0 <= k < pre.len() implies post.contains(#[trigger] pre[k]) by {
        assert(pre.contains(pre[k])) by {
            assert(pre[k] == pre[k]);
        }
        assert(pre.to_multiset().contains(pre[k]));
        assert(post.to_multiset().contains(pre[k]));
    }
    assert(pre.no_duplicates()) by {
        assert forall|x: int, y: int|
            0 <= x < pre.len() && 0 <= y < pre.len() && x != y implies pre[x] != pre[y] by {
            if x < y {
                assert(pre[x].name() != pre[y].name());
            } else {
                assert(pre[y].name() != pre[x].name());
            }
        }
    }
    pre.lemma_multiset_has_no_duplicates();
    post.lemma_multiset_has_no_duplicates_conv();
    assert forall|k1: int, k2: int| 0 <= k1 < k2 < post.len() implies post[k1].name()
        != post[k2].name() by {
        if post[k1].name() == post[k2].name() {
            let a = choose|a: int| 0 <= a < pre.len() && pre[a] == post[k1];
            let b = choose|b: int| 0 <= b < pre.len() && pre[b] == post[k2];
            if a < b {
                assert(pre[a].name() != pre[b].name());
            } else if b < a {
                assert(pre[b].name() != pre[a].name());
            }
            assert(a == b);
            assert(post[k1] == post[k2]);
        }
    }
}

impl DependencyAnalyzer {
    /// The canonical node names, in the order the nodes were created.
    pub closed spec fn nodes(self) -> Seq<Seq<char>> {
        self.node_names@.map_values(|s: String| s@)
    }

    /// The node list enumerates the graph's key set without repetition.
    pub proof fn lemma_nodes_dom(self)
        requires
            self.wf(),
        ensures
            self.nodes().no_duplicates(),
            forall|n: Seq<char>| #[trigger]
                self.graph_dom().contains(n) <==> self.nodes().contains(n),
    {
        assert forall|k1: int, k2: int|
            0 <= k1 < k2 < self.nodes().len() implies self.nodes()[k1] != self.nodes()[k2] by {
            assert(sp_nodes_distinct(self.node_names@));
            assert(self.node_names@[k1]@ != self.node_names@[k2]@);
        }
        assert forall|n: Seq<char>| #[trigger]
            self.graph_dom().contains(n) <==> self.nodes().contains(n) by {
            if self.graph_dom().contains(n) {
                let i = choose|i: int|
                    0 <= i < self.node_names@.len() && self.node_names@[i]@ == n;
                assert(self.nodes()[i] == n);
            }
            if self.nodes().contains(n) {
                let i = choose|i: int| 0 <= i < self.nodes().len() && self.nodes()[i] == n;
                assert(self.node_names@[i]@ == n);
            }
        }
    }

    /// All node names of the graph, in node-creation order. Fails on a graph
    /// with no nodes: callers must be able to tell "nothing to rank" from
    /// "ranking impossible".
    pub fn get_included_files(&self) -> (r: Result<Vec<String>, AnalysisError>)
        requires
            self.wf(),
        ensures
            r is Ok <==> self.has_nodes(),
            !self.has_nodes() ==> r == Err::<Vec<String>, AnalysisError>(
                AnalysisError::EmptyGraph,
            ),
            r matches Ok(v) ==> v@.map_values(|s: String| s@) == self.nodes(),
    {
        let n = self.node_names.len();
        if n == 0 {
            return Err(AnalysisError::EmptyGraph);
        }
        let mut out: Vec<String> = Vec::new();
        let mut i: usize = 0;
        while i < n
            invariant
                n == self.node_names@.len(),
                i <= n,
                out@.len() == i,
                forall|k: int| 0 <= k < i ==> (#[trigger] out@[k]) == self.node_names@[k],
            decreases n - i,
        {
            out.push(self.node_names[i].clone());
            i = i + 1;
        }
        proof {
            assert(out@.map_values(|s: String| s@) =~= self.nodes());
        }
        Ok(out)
    }

    /// Builds the ranking row of one node: the node name together with the
    /// identities of the units that directly reference it.
    fn build_entry(&self, name: &str) -> (e: DependencyEntry)
        requires
            self.wf(),
            self.graph_dom().contains(name@),
        ensures
            e.name() == name@,
            e.path_set() == self.includers_of(name@),
            e.paths().no_duplicates(),
    {
        let found = find_node(&self.node_names, name);
        let i: usize = match found {
            Some(i) => i,
            None => {
                proof {
                    assert(false);
                }
                0
            },
        };
        let lst_len = self.includers[i].len();
        proof {
            assert(inc_list_wf(self.includers@[i as int]@, self.unit_names@.len() as int));
        }
        let mut paths: Vec<String> = Vec::new();
        let mut k: usize = 0;
        while k < lst_len
            invariant
                self.wf(),
                (i as int) < self.node_names@.len(),
                lst_len == self.includers@[i as int]@.len(),
                k <= lst_len,
                paths@.len() == k,
                forall|t: int|
                    0 <= t < k ==> (#[trigger] paths@[t])
                        == self.unit_names@[self.includers@[i as int]@[t] as int],
            decreases lst_len - k,
        {
            let u: usize = self.includers[i][k];
            proof {
                assert(inc_list_wf(self.includers@[i as int]@, self.unit_names@.len() as int));
                assert((u as int) < self.unit_names@.len());
            }
            paths.push(self.unit_names[u].clone());
            k = k + 1;
        }
        let e = DependencyEntry { file_name: name.to_owned(), including_files_paths: paths };
        proof {
            let nn = self.node_names@;
            let inc = self.includers@;
            assert forall|p: Seq<char>| e.path_set().contains(p) implies self.includers_of(
                name@,
            ).contains(p) by {
                let t = choose|t: int| 0 <= t < e.paths().len() && e.paths()[t] == p;
                assert(e.paths()[t] == paths@[t]@);
                let ii: int = i as int;
                assert(0 <= ii < nn.len() && nn[ii]@ == name@ && 0 <= t < inc[ii]@.len()
                    && self.unit_names@[inc[ii]@[t] as int]@ == p);
            }
            assert forall|p: Seq<char>| self.includers_of(name@).contains(p)
                implies e.path_set().contains(p) by {
                let (i2, t) = choose|i2: int, t: int|
                    0 <= i2 < nn.len() && nn[i2]@ == name@ && 0 <= t < inc[i2]@.len()
                        && self.unit_names@[inc[i2]@[t] as int]@ == p;
                assert(i2 == i as int) by {
                    assert(sp_nodes_distinct(nn));
                    if i2 < i as int {
                        assert(nn[i2]@ != nn[i as int]@);
                    } else if i2 > i as int {
                        assert(nn[i as int]@ != nn[i2]@);
                    }
                }
                assert(e.paths()[t] == p);
                assert(e.paths().contains(p));
            }
            assert(e.path_set() =~= self.includers_of(name@));
            assert forall|t1: int, t2: int|
                0 <= t1 < e.paths().len() && 0 <= t2 < e.paths().len() && t1 != t2
                implies e.paths()[t1] != e.paths()[t2] by {
                let v1 = inc[i as int]@[t1] as int;
                let v2 = inc[i as int]@[t2] as int;
                assert(inc_list_wf(inc[i as int]@, self.unit_names@.len() as int));
                assert(v1 != v2) by {
                    if t1 < t2 {
                        assert(inc[i as int]@[t1] != inc[i as int]@[t2]);
                    } else {
                        assert(inc[i as int]@[t2] != inc[i as int]@[t1]);
                    }
                }
                if v1 < v2 {
                    assert(self.unit_names@[v1]@ != self.unit_names@[v2]@);
                } else {
                    assert(self.unit_names@[v2]@ != self.unit_names@[v1]@);
                }
            }
        }
        e
    }

    /// The inclusion map as ranking rows in node-creation order: one row per
    /// node, carrying the set of unit identities that directly reference it.
    pub fn get_inclusion_map(&self) -> (r: Vec<DependencyEntry>)
        requires
            self.wf(),
        ensures
            r@.len() == self.nodes().len(),
            forall|k: int|
                0 <= k < r@.len() ==> (#[trigger] r@[k]).name() == self.nodes()[k],
            forall|k: int|
                0 <= k < r@.len() ==> (#[trigger] r@[k]).path_set() == self.includers_of(
                    self.nodes()[k],
                ),
            forall|k: int| 0 <= k < r@.len() ==> (#[trigger] r@[k]).paths().no_duplicates(),
    {
        let n = self.node_names.len();
        let mut out: Vec<DependencyEntry> = Vec::new();
        let mut i: usize = 0;
        while i < n
            invariant
                self.wf(),
                n == self.node_names@.len(),
                i <= n,
                out@.len() == i,
                forall|k: int|
                    0 <= k < i ==> (#[trigger] out@[k]).name() == self.nodes()[k],
                forall|k: int|
                    0 <= k < i ==> (#[trigger] out@[k]).path_set() == self.includers_of(
                        self.nodes()[k],
                    ),
                forall|k: int| 0 <= k < i ==> (#[trigger] out@[k]).paths().no_duplicates(),
            decreases n - i,
        {
            proof {
                assert(self.graph_dom().contains(self.node_names@[i as int]@));
            }
            let e = self.build_entry(self.node_names[i].as_str());
            out.push(e);
            i = i + 1;
        }
        out
    }

    /// Shared body of the direct-inclusion rankings: one row per candidate
    /// name, carrying the node's direct including paths, sorted by descending
    /// count (ties keep candidate order).
    fn get_sorted_inclusion_impl(&self, included_files: &Vec<String>) -> (r: Vec<DependencyEntry>)
        requires
            self.wf(),
            forall|k: int|
                0 <= k < included_files@.len() ==> self.graph_dom().contains(
                    (#[trigger] included_files@[k])@,
                ),
            forall|k1: int, k2: int|
                0 <= k1 < k2 < included_files@.len() ==> included_files@[k1]@
                    != included_files@[k2]@,
        ensures
            r@.len() == included_files@.len(),
            forall|k: int|
                0 <= k < r@.len() ==> self.graph_dom().contains((#[trigger] r@[k]).name()),
            forall|k: int|
                0 <= k < r@.len() ==> (#[trigger] r@[k]).path_set() == self.includers_of(
                    r@[k].name(),
                ),
            forall|k: int| 0 <= k < r@.len() ==> (#[trigger] r@[k]).paths().no_duplicates(),
            forall|k: int|
                0 <= k < included_files@.len() ==> has_entry_named(
                    r@,
                    (#[trigger] included_files@[k])@,
                ),
            forall|k: int|
                0 <= k < r@.len() ==> names_contain(included_files@, (#[trigger] r@[k]).name()),
            forall|k1: int, k2: int| 0 <= k1 < k2 < r@.len() ==> r@[k1].name() != r@[k2].name(),
            forall|a: int, b: int| 0 <= a <= b < r@.len() ==> r@[a].count() >= r@[b].count(),
    {
        let n = included_files.len();
        let mut entries: Vec<DependencyEntry> = Vec::new();
        let mut i: usize = 0;
        while i < n
            invariant
                self.wf(),
                n == included_files@.len(),
                i <= n,
                entries@.len() == i,
                forall|k: int|
                    0 <= k < n ==> self.graph_dom().contains((#[trigger] included_files@[k])@),
                forall|k1: int, k2: int|
                    0 <= k1 < k2 < n ==> included_files@[k1]@ != included_files@[k2]@,
                forall|k: int|
                    0 <= k < i ==> (#[trigger] entries@[k]).name() == included_files@[k]@,
                forall|k: int|
                    0 <= k < i ==> (#[trigger] entries@[k]).path_set() == self.includers_of(
                        entries@[k].name(),
                    ),
                forall|k: int| 0 <= k < i ==> (#[trigger] entries@[k]).paths().no_duplicates(),
            decreases n - i,
        {
            let e = self.build_entry(included_files[i].as_str());
            entries.push(e);
            i = i + 1;
        }
        let ghost pre = entries@;
        sort_entries_desc(&mut entries);
        proof {
            lemma_sorted_perm_names(pre, entries@);
            assert forall|k: int| 0 <= k < entries@.len() implies self.graph_dom().contains(
                (#[trigger] entries@[k]).name(),
            ) && entries@[k].path_set() == self.includers_of(entries@[k].name())
                && entries@[k].paths().no_duplicates() && names_contain(
                included_files@,
                entries@[k].name(),
            ) by {
                assert(pre.contains(entries@[k]));
                let k2 = choose|k2: int| 0 <= k2 < pre.len() && pre[k2] == entries@[k];
                assert(pre[k2].name() == included_files@[k2]@);
            }
            assert forall|k: int| 0 <= k < included_files@.len() implies has_entry_named(
                entries@,
                (#[trigger] included_files@[k])@,
            ) by {
                assert(entries@.contains(pre[k]));
                let k2 = choose|k2: int| 0 <= k2 < entries@.len() && entries@[k2] == pre[k];
                assert(entries@[k2].name() == included_files@[k]@);
            }
        }
        entries
    }

    /// Direct-inclusion ranking of every graph node: each node with the set
    /// of unit identities that directly reference it, most referenced first.
    /// Fails exactly on a graph with no nodes.
    pub fn get_sorted_inclusion(&self) -> (r: Result<Vec<DependencyEntry>, AnalysisError>)
        requires
            self.wf(),
        ensures
            r is Ok <==> self.has_nodes(),
            !self.has_nodes() ==> r == Err::<Vec<DependencyEntry>, AnalysisError>(
                AnalysisError::EmptyGraph,
            ),
            r matches Ok(v) ==> {
                &&& forall|k: int|
                    0 <= k < v@.len() ==> self.graph_dom().contains((#[trigger] v@[k]).name())
                &&& forall|n: Seq<char>| #[trigger]
                    self.graph_dom().contains(n) ==> has_entry_named(v@, n)
                &&& forall|k: int|
                    0 <= k < v@.len() ==> (#[trigger] v@[k]).path_set() == self.includers_of(
                        v@[k].name(),
                    )
                &&& forall|k: int| 0 <= k < v@.len() ==> (#[trigger] v@[k]).paths().no_duplicates()
                &&& forall|k1: int, k2: int|
                    0 <= k1 < k2 < v@.len() ==> v@[k1].name() != v@[k2].name()
                &&& forall|a: int, b: int|
                    0 <= a <= b < v@.len() ==> v@[a].count() >= v@[b].count()
            },
    {
        let included_files = match self.get_included_files() {
            Ok(v) => v,
            Err(e) => {
                return Err(e);
            },
        };
        proof {
            self.lemma_nodes_dom();
            assert forall|k: int| 0 <= k < included_files@.len() implies self.graph_dom().contains(
                (#[trigger] included_files@[k])@,
            ) by {
                assert(included_files@[k]@ == self.nodes()[k]);
                assert(self.nodes().contains(self.nodes()[k]));
            }
            assert forall|k1: int, k2: int|
                0 <= k1 < k2 < included_files@.len() implies included_files@[k1]@
                != included_files@[k2]@ by {
                assert(included_files@[k1]@ == self.nodes()[k1]);
                assert(included_files@[k2]@ == self.nodes()[k2]);
            }
        }
        let r = self.get_sorted_inclusion_impl(&included_files);
        proof {
            assert forall|n: Seq<char>| #[trigger]
                self.graph_dom().contains(n) implies has_entry_named(r@, n) by {
                let i = choose|i: int| 0 <= i < self.nodes().len() && self.nodes()[i] == n;
                assert(included_files@[i]@ == n);
            }
        }
        Ok(r)
    }

    /// Whether `name` is the canonical identity of some scanned unit.
    fn is_scanned_canon(&self, name: &str) -> (r: bool)
        requires
            self.wf(),
        ensures
            r == self.scanned_canon().contains(name@),
    {
        let n = self.unit_names.len();
        let mut v: usize = 0;
        while v < n
            invariant
                n == self.unit_names@.len(),
                v <= n,
                forall|t: int| 0 <= t < v ==> canon(self.unit_names@[t]@) != name@,
            decreases n - v,
        {
            let c = Self::extract_filename_from_path(self.unit_names[v].as_str());
            if str_eq(c, name) {
                proof {
                    assert(canon(self.unit_names@[v as int]@) == name@);
                }
                return true;
            }
            v = v + 1;
        }
        false
    }

    /// Keeps only the node names whose canonical form is the canonical
    /// identity of some scanned unit, dropping external nodes (system
    /// headers and the like). Candidate order and duplicates-freeness are
    /// preserved.
    pub fn filter_outside_inclusions(&self, included_files: Vec<String>) -> (r: Vec<String>)
        requires
            self.wf(),
        ensures
            forall|k: int|
                0 <= k < r@.len() ==> self.scanned_canon().contains((#[trigger] r@[k])@),
            forall|k: int| 0 <= k < r@.len() ==> names_contain(included_files@, (#[trigger] r@[k])@),
            forall|k: int|
                0 <= k < included_files@.len() && self.scanned_canon().contains(
                    (#[trigger] included_files@[k])@,
                ) ==> names_contain(r@, included_files@[k]@),
            (forall|k1: int, k2: int|
                0 <= k1 < k2 < included_files@.len() ==> included_files@[k1]@
                    != included_files@[k2]@) ==> (forall|k1: int, k2: int|
                0 <= k1 < k2 < r@.len() ==> r@[k1]@ != r@[k2]@),
    {
        let n = included_files.len();
        let mut out: Vec<String> = Vec::new();
        let ghost mut srcs: Seq<int> = Seq::empty();
        let mut i: usize = 0;
        while i < n
            invariant
                self.wf(),
                n == included_files@.len(),
                i <= n,
                out@.len() == srcs.len(),
                forall|k: int| 0 <= k < srcs.len() ==> 0 <= #[trigger] srcs[k] < i,
                forall|k1: int, k2: int| 0 <= k1 < k2 < srcs.len() ==> srcs[k1] < srcs[k2],
                forall|k: int|
                    0 <= k < srcs.len() ==> (#[trigger] out@[k]) == included_files@[srcs[k]],
                forall|k: int|
                    0 <= k < out@.len() ==> self.scanned_canon().contains((#[trigger] out@[k])@),
                forall|t: int|
                    0 <= t < i && self.scanned_canon().contains(
                        (#[trigger] included_files@[t])@,
                    ) ==> names_contain(out@, included_files@[t]@),
            decreases n - i,
        {
            let keep = self.is_scanned_canon(included_files[i].as_str());
            let ghost out0 = out@;
            if keep {
                out.push(included_files[i].clone());
                proof {
                    srcs = srcs.push(i as int);
                    assert(out@[out@.len() - 1] == included_files@[i as int]);
                    assert forall|t: int|
                        0 <= t < i + 1 && self.scanned_canon().contains(
                            (#[trigger] included_files@[t])@,
                        ) implies names_contain(out@, included_files@[t]@) by {
                        if t == i as int {
                            assert(out@[out@.len() - 1]@ == included_files@[t]@);
                        } else {
                            assert(names_contain(out0, included_files@[t]@));
                            let k = choose|k: int|
                                0 <= k < out0.len() && (#[trigger] out0[k])@
                                    == included_files@[t]@;
                            assert(out@[k]@ == included_files@[t]@);
                        }
                    }
                }
            }
            i = i + 1;
        }
        proof {
            if forall|k1: int, k2: int|
                0 <= k1 < k2 < included_files@.len() ==> included_files@[k1]@
                    != included_files@[k2]@ {
                assert forall|k1: int, k2: int| 0 <= k1 < k2 < out@.len() implies out@[k1]@
                    != out@[k2]@ by {
                    assert(srcs[k1] < srcs[k2]);
                    assert(out@[k1] == included_files@[srcs[k1]]);
                    assert(out@[k2] == included_files@[srcs[k2]]);
                }
            }
            assert forall|k: int| 0 <= k < out@.len() implies names_contain(
                included_files@,
                (#[trigger] out@[k])@,
            ) by {
                assert(out@[k] == included_files@[srcs[k]]);
            }
        }
        out
    }

    /// Direct-inclusion ranking restricted to the scanned files themselves:
    /// external nodes never appear in it.
    pub fn get_sorted_inclusion_no_external(&self) -> (r: Result<
        Vec<DependencyEntry>,
        AnalysisError,
    >)
        requires
            self.wf(),
        ensures
            r is Ok <==> self.has_nodes(),
            !self.has_nodes() ==> r == Err::<Vec<DependencyEntry>, AnalysisError>(
                AnalysisError::EmptyGraph,
            ),
            r matches Ok(v) ==> {
                &&& forall|k: int|
                    0 <= k < v@.len() ==> self.graph_dom().contains((#[trigger] v@[k]).name())
                        && self.scanned_canon().contains(v@[k].name())
                &&& forall|n: Seq<char>| #[trigger]
                    self.graph_dom().contains(n) && self.scanned_canon().contains(n)
                        ==> has_entry_named(v@, n)
                &&& forall|k: int|
                    0 <= k < v@.len() ==> (#[trigger] v@[k]).path_set() == self.includers_of(
                        v@[k].name(),
                    )
                &&& forall|k: int| 0 <= k < v@.len() ==> (#[trigger] v@[k]).paths().no_duplicates()
                &&& forall|k1: int, k2: int|
                    0 <= k1 < k2 < v@.len() ==> v@[k1].name() != v@[k2].name()
                &&& forall|a: int, b: int|
                    0 <= a <= b < v@.len() ==> v@[a].count() >= v@[b].count()
            },
    {
        let included_files = match self.get_included_files() {
            Ok(v) => v,
            Err(e) => {
                return Err(e);
            },
        };
        proof {
            self.lemma_nodes_dom();
            assert forall|k1: int, k2: int|
                0 <= k1 < k2 < included_files@.len() implies included_files@[k1]@
                != included_files@[k2]@ by {
                assert(included_files@[k1]@ == self.nodes()[k1]);
                assert(included_files@[k2]@ == self.nodes()[k2]);
            }
        }
        let ghost inc0 = included_files@;
        let filtered = self.filter_outside_inclusions(included_files);
        proof {
            assert forall|k: int| 0 <= k < filtered@.len() implies self.graph_dom().contains(
                (#[trigger] filtered@[k])@,
            ) by {
                assert(names_contain(inc0, filtered@[k]@));
                let k2 = choose|k2: int|
                    0 <= k2 < inc0.len() && (#[trigger] inc0[k2])@ == filtered@[k]@;
                assert(self.nodes()[k2] == filtered@[k]@);
                assert(self.nodes().contains(filtered@[k]@));
            }
        }
        let r = self.get_sorted_inclusion_impl(&filtered);
        proof {
            assert forall|n: Seq<char>| #[trigger]
                self.graph_dom().contains(n) && self.scanned_canon().contains(n)
                implies has_entry_named(r@, n) by {
                let i = choose|i: int| 0 <= i < self.nodes().len() && self.nodes()[i] == n;
                assert(inc0[i]@ == n);
                assert(self.scanned_canon().contains(inc0[i]@));
                assert(names_contain(filtered@, n));
                let k = choose|k: int| 0 <= k < filtered@.len() && (#[trigger] filtered@[k])@ == n;
                assert(has_entry_named(r@, filtered@[k]@));
            }
            assert forall|k: int| 0 <= k < r@.len() implies self.scanned_canon().contains(
                (#[trigger] r@[k]).name(),
            ) by {
                assert(names_contain(filtered@, r@[k].name()));
                let k2 = choose|k2: int|
                    0 <= k2 < filtered@.len() && (#[trigger] filtered@[k2])@ == r@[k].name();
                assert(self.scanned_canon().contains(filtered@[k2]@));
            }
        }
        Ok(r)
    }

    /// Builds the impact ranking row of one node: the node name together
    /// with every other scanned unit's canonical identity reachable from it.
    fn build_impact_entry(&self, name: &str) -> (e: DependencyEntry)
        requires
            self.wf(),
            self.has_nodes(),
            self.graph_dom().contains(name@),
        ensures
            e.name() == name@,
            e.path_set() == self.impact_set(name@),
            e.paths().no_duplicates(),
    {
        let tree = match self.dfs_tree(name) {
            Ok(t) => t,
            Err(_) => {
                proof {
                    assert(false);
                }
                DFSTree::make()
            },
        };
        let order = tree.get_visit_order();
        let n = order.len();
        let mut paths: Vec<String> = Vec::new();
        let ghost mut srcs: Seq<int> = Seq::empty();
        let mut t: usize = 0;
        while t < n
            invariant
                self.wf(),
                n == order@.len(),
                order@.map_values(|s: String| s@) == tree.order(),
                t <= n,
                paths@.len() == srcs.len(),
                forall|k: int| 0 <= k < srcs.len() ==> 0 <= #[trigger] srcs[k] < t,
                forall|k1: int, k2: int| 0 <= k1 < k2 < srcs.len() ==> srcs[k1] < srcs[k2],
                forall|k: int|
                    0 <= k < srcs.len() ==> (#[trigger] paths@[k]) == order@[srcs[k]],
                forall|k: int|
                    0 <= k < paths@.len() ==> (#[trigger] paths@[k])@ != name@
                        && self.scanned_canon().contains(paths@[k]@) && tree.order().contains(
                        paths@[k]@,
                    ),
                forall|x: int|
                    0 <= x < t && (#[trigger] tree.order()[x]) != name@
                        && self.scanned_canon().contains(tree.order()[x]) ==> names_contain(
                        paths@,
                        tree.order()[x],
                    ),
            decreases n - t,
        {
            proof {
                assert(order@[t as int]@ == tree.order()[t as int]);
            }
            let keep = !str_eq(order[t].as_str(), name) && self.is_scanned_canon(
                order[t].as_str(),
            );
            let ghost paths0 = paths@;
            if keep {
                paths.push(order[t].clone());
                proof {
                    srcs = srcs.push(t as int);
                    assert(paths@[paths@.len() - 1] == order@[t as int]);
                    assert(tree.order().contains(tree.order()[t as int]));
                }
            }
            proof {
                assert forall|x: int|
                    0 <= x < t + 1 && (#[trigger] tree.order()[x]) != name@
                        && self.scanned_canon().contains(tree.order()[x]) implies names_contain(
                    paths@,
                    tree.order()[x],
                ) by {
                    if x == t as int {
                        assert(keep);
                        assert(paths@[paths@.len() - 1]@ == tree.order()[x]);
                    } else {
                        assert(names_contain(paths0, tree.order()[x]));
                        let k = choose|k: int|
                            0 <= k < paths0.len() && (#[trigger] paths0[k])@ == tree.order()[x];
                        assert(paths@[k]@ == tree.order()[x]);
                    }
                }
            }
            t = t + 1;
        }
        let e = DependencyEntry { file_name: name.to_owned(), including_files_paths: paths };
        proof {
            assert forall|p: Seq<char>| e.path_set().contains(p) implies self.impact_set(
                name@,
            ).contains(p) by {
                let k = choose|k: int| 0 <= k < e.paths().len() && e.paths()[k] == p;
                assert(e.paths()[k] == paths@[k]@);
                assert(tree.visited_set().contains(p));
                assert(self.reaches(name@, p));
            }
            assert forall|p: Seq<char>| self.impact_set(name@).contains(p)
                implies e.path_set().contains(p) by {
                assert(self.reaches(name@, p));
                assert(tree.visited_set().contains(p));
                let x = choose|x: int| 0 <= x < tree.order().len() && tree.order()[x] == p;
                assert(names_contain(paths@, tree.order()[x]));
                let k = choose|k: int| 0 <= k < paths@.len() && (#[trigger] paths@[k])@ == p;
                assert(e.paths()[k] == p);
                assert(e.paths().contains(p));
            }
            assert(e.path_set() =~= self.impact_set(name@));
            assert forall|t1: int, t2: int|
                0 <= t1 < e.paths().len() && 0 <= t2 < e.paths().len() && t1 != t2
                implies e.paths()[t1] != e.paths()[t2] by {
                let x1 = srcs[t1];
                let x2 = srcs[t2];
                assert(paths@[t1] == order@[x1] && paths@[t2] == order@[x2]);
                assert(tree.order()[x1] == order@[x1]@ && tree.order()[x2] == order@[x2]@);
                if x1 < x2 {
                    assert(tree.order()[x1] != tree.order()[x2]);
                } else {
                    assert(tree.order()[x2] != tree.order()[x1]);
                }
            }
        }
        e
    }

    /// Shared body of the transitive-impact rankings: one row per candidate
    /// name that is a node of the graph (a missing candidate is recoverable
    /// and simply skipped), carrying the node's impact set, sorted by
    /// descending count (ties keep candidate order).
    fn get_sorted_impact_impl(&self, included_files: &Vec<String>) -> (r: Vec<DependencyEntry>)
        requires
            self.wf(),
            self.has_nodes(),
            forall|k1: int, k2: int|
                0 <= k1 < k2 < included_files@.len() ==> included_files@[k1]@
                    != included_files@[k2]@,
        ensures
            forall|k: int|
                0 <= k < r@.len() ==> self.graph_dom().contains((#[trigger] r@[k]).name()),
            forall|k: int|
                0 <= k < r@.len() ==> (#[trigger] r@[k]).path_set() == self.impact_set(
                    r@[k].name(),
                ),
            forall|k: int| 0 <= k < r@.len() ==> (#[trigger] r@[k]).paths().no_duplicates(),
            forall|k: int|
                0 <= k < included_files@.len() && self.graph_dom().contains(
                    (#[trigger] included_files@[k])@,
                ) ==> has_entry_named(r@, included_files@[k]@),
            forall|k: int|
                0 <= k < r@.len() ==> names_contain(included_files@, (#[trigger] r@[k]).name()),
            forall|k1: int, k2: int| 0 <= k1 < k2 < r@.len() ==> r@[k1].name() != r@[k2].name(),
            forall|a: int, b: int| 0 <= a <= b < r@.len() ==> r@[a].count() >= r@[b].count(),
    {
        let n = included_files.len();
        let mut entries: Vec<DependencyEntry> = Vec::new();
        let ghost mut srcs: Seq<int> = Seq::empty();
        let mut i: usize = 0;
        while i < n
            invariant
                self.wf(),
                self.has_nodes(),
                n == included_files@.len(),
                i <= n,
                entries@.len() == srcs.len(),
                forall|k: int| 0 <= k < srcs.len() ==> 0 <= #[trigger] srcs[k] < i,
                forall|k1: int, k2: int| 0 <= k1 < k2 < srcs.len() ==> srcs[k1] < srcs[k2],
                forall|k: int|
                    0 <= k < srcs.len() ==> (#[trigger] entries@[k]).name()
                        == included_files@[srcs[k]]@,
                forall|k: int|
                    0 <= k < entries@.len() ==> self.graph_dom().contains(
                        (#[trigger] entries@[k]).name(),
                    ) && entries@[k].path_set() == self.impact_set(entries@[k].name())
                        && entries@[k].paths().no_duplicates(),
                forall|t: int|
                    0 <= t < i && self.graph_dom().contains((#[trigger] included_files@[t])@)
                        ==> has_entry_named(entries@, included_files@[t]@),
            decreases n - i,
        {
            let in_graph = find_node(&self.node_names, included_files[i].as_str());
            let ghost entries0 = entries@;
            match in_graph {
                Some(idx) => {
                    proof {
                        assert(self.graph_dom().contains(included_files@[i as int]@)) by {
                            assert(self.node_names@[idx as int]@ == included_files@[i as int]@);
                        }
                    }
                    let e = self.build_impact_entry(included_files[i].as_str());
                    entries.push(e);
                    proof {
                        srcs = srcs.push(i as int);
                    }
                },
                None => {
                    proof {
                        assert(!self.graph_dom().contains(included_files@[i as int]@));
                    }
                },
            }
            proof {
                assert forall|t: int|
                    0 <= t < i + 1 && self.graph_dom().contains(
                        (#[trigger] included_files@[t])@,
                    ) implies has_entry_named(entries@, included_files@[t]@) by {
                    if t == i as int {
                        assert(entries@[entries@.len() - 1].name() == included_files@[t]@);
                    } else {
                        assert(has_entry_named(entries0, included_files@[t]@));
                        let k = choose|k: int|
                            0 <= k < entries0.len() && (#[trigger] entries0[k]).name()
                                == included_files@[t]@;
                        assert(entries@[k].name() == included_files@[t]@);
                    }
                }
            }
            i = i + 1;
        }
        proof {
            assert forall|k1: int, k2: int|
                0 <= k1 < k2 < entries@.len() implies entries@[k1].name()
                != entries@[k2].name() by {
                assert(srcs[k1] < srcs[k2]);
                assert(entries@[k1].name() == included_files@[srcs[k1]]@);
                assert(entries@[k2].name() == included_files@[srcs[k2]]@);
            }
        }
        let ghost pre = entries@;
        sort_entries_desc(&mut entries);
        proof {
            lemma_sorted_perm_names(pre, entries@);
            assert forall|k: int| 0 <= k < entries@.len() implies self.graph_dom().contains(
                (#[trigger] entries@[k]).name(),
            ) && entries@[k].path_set() == self.impact_set(entries@[k].name())
                && entries@[k].paths().no_duplicates() && names_contain(
                included_files@,
                entries@[k].name(),
            ) by {
                assert(pre.contains(entries@[k]));
                let k2 = choose|k2: int| 0 <= k2 < pre.len() && pre[k2] == entries@[k];
                assert(pre[k2].name() == included_files@[srcs[k2]]@);
            }
            assert forall|k: int|
                0 <= k < included_files@.len() && self.graph_dom().contains(
                    (#[trigger] included_files@[k])@,
                ) implies has_entry_named(entries@, included_files@[k]@) by {
                assert(has_entry_named(pre, included_files@[k]@));
                let k2 = choose|k2: int|
                    0 <= k2 < pre.len() && (#[trigger] pre[k2]).name() == included_files@[k]@;
                assert(entries@.contains(pre[k2]));
                let k3 = choose|k3: int| 0 <= k3 < entries@.len() && entries@[k3] == pre[k2];
                assert(entries@[k3].name() == included_files@[k]@);
            }
        }
        entries
    }

    /// Transitive-impact ranking of every graph node: each node with the set
    /// of scanned units it can break when it changes, most impacting first.
    /// Cycles in the graph are tolerated. Fails exactly on a graph with no
    /// nodes.
    pub fn get_sorted_impact(&self) -> (r: Result<Vec<DependencyEntry>, AnalysisError>)
        requires
            self.wf(),
        ensures
            r is Ok <==> self.has_nodes(),
            !self.has_nodes() ==> r == Err::<Vec<DependencyEntry>, AnalysisError>(
                AnalysisError::EmptyGraph,
            ),
            r matches Ok(v) ==> {
                &&& forall|k: int|
                    0 <= k < v@.len() ==> self.graph_dom().contains((#[trigger] v@[k]).name())
                &&& forall|n: Seq<char>| #[trigger]
                    self.graph_dom().contains(n) ==> has_entry_named(v@, n)
                &&& forall|k: int|
                    0 <= k < v@.len() ==> (#[trigger] v@[k]).path_set() == self.impact_set(
                        v@[k].name(),
                    )
                &&& forall|k: int| 0 <= k < v@.len() ==> (#[trigger] v@[k]).paths().no_duplicates()
                &&& forall|k1: int, k2: int|
                    0 <= k1 < k2 < v@.len() ==> v@[k1].name() != v@[k2].name()
                &&& forall|a: int, b: int|
                    0 <= a <= b < v@.len() ==> v@[a].count() >= v@[b].count()
            },
    {
        let included_files = match self.get_included_files() {
            Ok(v) => v,
            Err(e) => {
                return Err(e);
            },
        };
        proof {
            self.lemma_nodes_dom();
            assert forall|k1: int, k2: int|
                0 <= k1 < k2 < included_files@.len() implies included_files@[k1]@
                != included_files@[k2]@ by {
                assert(included_files@[k1]@ == self.nodes()[k1]);
                assert(included_files@[k2]@ == self.nodes()[k2]);
            }
        }
        let r = self.get_sorted_impact_impl(&included_files);
        proof {
            assert forall|n: Seq<char>| #[trigger]
                self.graph_dom().contains(n) implies has_entry_named(r@, n) by {
                let i = choose|i: int| 0 <= i < self.nodes().len() && self.nodes()[i] == n;
                assert(included_files@[i]@ == n);
            }
        }
        Ok(r)
    }

    /// Transitive-impact ranking restricted to the scanned files themselves:
    /// external nodes never appear in it.
    pub fn get_sorted_impact_no_external(&self) -> (r: Result<Vec<DependencyEntry>, AnalysisError>)
        requires
            self.wf(),
        ensures
            r is Ok <==> self.has_nodes(),
            !self.has_nodes() ==> r == Err::<Vec<DependencyEntry>, AnalysisError>(
                AnalysisError::EmptyGraph,
            ),
            r matches Ok(v) ==> {
                &&& forall|k: int|
                    0 <= k < v@.len() ==> self.graph_dom().contains((#[trigger] v@[k]).name())
                        && self.scanned_canon().contains(v@[k].name())
                &&& forall|n: Seq<char>| #[trigger]
                    self.graph_dom().contains(n) && self.scanned_canon().contains(n)
                        ==> has_entry_named(v@, n)
                &&& forall|k: int|
                    0 <= k < v@.len() ==> (#[trigger] v@[k]).path_set() == self.impact_set(
                        v@[k].name(),
                    )
                &&& forall|k: int| 0 <= k < v@.len() ==> (#[trigger] v@[k]).paths().no_duplicates()
                &&& forall|k1: int, k2: int|
                    0 <= k1 < k2 < v@.len() ==> v@[k1].name() != v@[k2].name()
                &&& forall|a: int, b: int|
                    0 <= a <= b < v@.len() ==> v@[a].count() >= v@[b].count()
            },
    {
        let included_files = match self.get_included_files() {
            Ok(v) => v,
            Err(e) => {
                return Err(e);
            },
        };
        proof {
            self.lemma_nodes_dom();
            assert forall|k1: int, k2: int|
                0 <= k1 < k2 < included_files@.len() implies included_files@[k1]@
                != included_files@[k2]@ by {
                assert(included_files@[k1]@ == self.nodes()[k1]);
                assert(included_files@[k2]@ == self.nodes()[k2]);
            }
        }
        let ghost inc0 = included_files@;
        let filtered = self.filter_outside_inclusions(included_files);
        let r = self.get_sorted_impact_impl(&filtered);
        proof {
            assert forall|n: Seq<char>| #[trigger]
                self.graph_dom().contains(n) && self.scanned_canon().contains(n)
                implies has_entry_named(r@, n) by {
                let i = choose|i: int| 0 <= i < self.nodes().len() && self.nodes()[i] == n;
                assert(inc0[i]@ == n);
                assert(self.scanned_canon().contains(inc0[i]@));
                assert(names_contain(filtered@, n));
                let k = choose|k: int| 0 <= k < filtered@.len() && (#[trigger] filtered@[k])@ == n;
                assert(self.graph_dom().contains(filtered@[k]@));
                assert(has_entry_named(r@, filtered@[k]@));
            }
            assert forall|k: int| 0 <= k < r@.len() implies self.scanned_canon().contains(
                (#[trigger] r@[k]).name(),
            ) by {
                assert(names_contain(filtered@, r@[k].name()));
                let k2 = choose|k2: int|
                    0 <= k2 < filtered@.len() && (#[trigger] filtered@[k2])@ == r@[k].name();
                assert(self.scanned_canon().contains(filtered@[k2]@));
            }
        }
        Ok(r)
    }
}

/// The indices of the units that list node `n` among their canonical
/// references.
pub open spec fn units_listing(files: Seq<File>, n: Seq<char>) -> Set<int> {
    Set::new(|v: int| 0 <= v < files.len() && canon_refs_of(#[trigger] files[v]).contains(n))
}

/// The direct-inclusion count of a node is the number of distinct scanned
/// units that listed its canonical name among their references — duplicate
/// listings within one unit change nothing, since the including paths form
/// a set.
pub proof fn lemma_direct_inclusion_count(files: Seq<File>, n: Seq<char>)
    requires
        distinct_ids(files),
    ensures
        direct_includers(files, n).finite(),
        units_listing(files, n).finite(),
        direct_includers(files, n).len() == units_listing(files, n).len(),
    decreases files.len(),
{
    if files.len() == 0 {
        assert(direct_includers(files, n) =~= Set::<Seq<char>>::empty());
        assert(units_listing(files, n) =~= Set::<int>::empty());
    } else {
        let pre = files.drop_last();
        let last = files.last();
        let m = files.len() - 1;
        assert(distinct_ids(pre)) by {
            assert(forall|u1: int, u2: int|
                0 <= u1 < u2 < pre.len() ==> pre[u1] == files[u1] && pre[u2] == files[u2]);
        }
        lemma_direct_inclusion_count(pre, n);
        assert forall|v: int| 0 <= v < m implies #[trigger] files[v] == pre[v] by {}
        if canon_refs_of(last).contains(n) {
            assert(direct_includers(files, n) =~= direct_includers(pre, n).insert(last.id())) by {
                assert forall|p: Seq<char>| direct_includers(files, n).contains(p)
                    implies direct_includers(pre, n).insert(last.id()).contains(p) by {
                    let v = choose|v: int|
                        0 <= v < files.len() && files[v].id() == p && canon_refs_of(
                            files[v],
                        ).contains(n);
                    if v < m {
                        assert(pre[v].id() == p && canon_refs_of(pre[v]).contains(n));
                    }
                }
                assert forall|p: Seq<char>| direct_includers(pre, n).insert(last.id()).contains(p)
                    implies direct_includers(files, n).contains(p) by {
                    if p == last.id() {
                        assert(files[m].id() == p && canon_refs_of(files[m]).contains(n));
                    } else {
                        let v = choose|v: int|
                            0 <= v < pre.len() && pre[v].id() == p && canon_refs_of(
                                pre[v],
                            ).contains(n);
                        assert(files[v].id() == p && canon_refs_of(files[v]).contains(n));
                    }
                }
            }
            assert(!direct_includers(pre, n).contains(last.id())) by {
                if direct_includers(pre, n).contains(last.id()) {
                    let v = choose|v: int|
                        0 <= v < pre.len() && pre[v].id() == last.id() && canon_refs_of(
                            pre[v],
                        ).contains(n);
                    assert(files[v].id() == files[m].id());
                }
            }
            assert(units_listing(files, n) =~= units_listing(pre, n).insert(m)) by {
                assert(canon_refs_of(files[m]).contains(n));
            }
            assert(!units_listing(pre, n).contains(m));
        } else {
            assert(direct_includers(files, n) =~= direct_includers(pre, n)) by {
                assert forall|p: Seq<char>| direct_includers(files, n).contains(p)
                    implies direct_includers(pre, n).contains(p) by {
                    let v = choose|v: int|
                        0 <= v < files.len() && files[v].id() == p && canon_refs_of(
                            files[v],
                        ).contains(n);
                    assert(v != m);
                    assert(pre[v].id() == p && canon_refs_of(pre[v]).contains(n));
                }
                assert forall|p: Seq<char>| direct_includers(pre, n).contains(p)
                    implies direct_includers(files, n).contains(p) by {
                    let v = choose|v: int|
                        0 <= v < pre.len() && pre[v].id() == p && canon_refs_of(
                            pre[v],
                        ).contains(n);
                    assert(files[v].id() == p && canon_refs_of(files[v]).contains(n));
                }
            }
            assert(units_listing(files, n) =~= units_listing(pre, n));
        }
    }
}

/// The canonical identity set of finitely many units is finite.
pub proof fn lemma_scanned_canon_finite(files: Seq<File>)
    ensures
        scanned_canon_of(files).finite(),
        scanned_canon_of(files).len() <= files.len(),
    decreases files.len(),
{
    if files.len() == 0 {
        assert(scanned_canon_of(files) =~= Set::<Seq<char>>::empty());
    } else {
        let pre = files.drop_last();
        let m = files.len() - 1;
        lemma_scanned_canon_finite(pre);
        assert forall|v: int| 0 <= v < m implies #[trigger] files[v] == pre[v] by {}
        assert(scanned_canon_of(files) =~= scanned_canon_of(pre).insert(
            canon(files[m].id()),
        )) by {
            assert forall|b: Seq<char>| scanned_canon_of(files).contains(b)
                implies scanned_canon_of(pre).insert(canon(files[m].id())).contains(b) by {
                let v = choose|v: int| 0 <= v < files.len() && canon(files[v].id()) == b;
                if v < m {
                    assert(canon(pre[v].id()) == b);
                }
            }
            assert forall|b: Seq<char>| scanned_canon_of(pre).insert(
                canon(files[m].id()),
            ).contains(b) implies scanned_canon_of(files).contains(b) by {
                if b == canon(files[m].id()) {
                    assert(canon(files[m].id()) == b);
                } else {
                    let v = choose|v: int| 0 <= v < pre.len() && canon(pre[v].id()) == b;
                    assert(canon(files[v].id()) == b);
                }
            }
        }
    }
}

/// Even in the presence of reference cycles, a node's impact set is finite:
/// it never holds more names than there are scanned units.
pub proof fn lemma_impact_set_finite(files: Seq<File>, n: Seq<char>)
    ensures
        impact_of(files, n).finite(),
        impact_of(files, n).len() <= files.len(),
{
    lemma_scanned_canon_finite(files);
    assert(impact_of(files, n).subset_of(scanned_canon_of(files)));
    vstd::set_lib::lemma_len_subset(impact_of(files, n), scanned_canon_of(files));
}

/// The transitive impact of a node is at least its direct-inclusion count,
/// both restricted to scanned files: each direct includer is one inclusion
/// step away, so its canonical identity is in the impact set. The law asks
/// that no two scanned units share a canonical identity, and that node `n`
/// is not directly referenced by a unit that itself carries the name `n`
/// (such a self-reference is excluded from the impact set by definition).
pub proof fn lemma_impact_at_least_direct(files: Seq<File>, n: Seq<char>)
    requires
        forall|u1: int, u2: int|
            0 <= u1 < u2 < files.len() ==> canon(#[trigger] files[u1].id()) != canon(
                #[trigger] files[u2].id(),
            ),
        forall|p: Seq<char>| direct_includers(files, n).contains(p) ==> canon(p) != n,
    ensures
        impact_of(files, n).finite(),
        direct_includers(files, n).finite(),
        impact_of(files, n).len() >= direct_includers(files, n).len(),
{
    let d = direct_includers(files, n);
    let f = (|p: Seq<char>| canon(p));
    let c = d.map(f);
    assert(distinct_ids(files)) by {
        assert forall|u1: int, u2: int|
            0 <= u1 < u2 < files.len() implies files[u1].id() != files[u2].id() by {
            if files[u1].id() == files[u2].id() {
                assert(canon(files[u1].id()) == canon(files[u2].id()));
            }
        }
    }
    lemma_direct_inclusion_count(files, n);
    assert(vstd::relations::injective_on(f, d)) by {
        assert forall|p1: Seq<char>, p2: Seq<char>|
            #![trigger d.contains(p1), d.contains(p2)]
            d.contains(p1) && d.contains(p2) && f(p1) == f(p2) implies p1 == p2 by {
            let v1 = choose|v: int|
                0 <= v < files.len() && files[v].id() == p1 && canon_refs_of(files[v]).contains(n);
            let v2 = choose|v: int|
                0 <= v < files.len() && files[v].id() == p2 && canon_refs_of(files[v]).contains(n);
            if v1 != v2 {
                if v1 < v2 {
                    assert(canon(files[v1].id()) != canon(files[v2].id()));
                } else {
                    assert(canon(files[v2].id()) != canon(files[v1].id()));
                }
            }
        }
    }
    vstd::set_lib::lemma_map_size(d, c, f);
    assert(c.subset_of(impact_of(files, n))) by {
        assert forall|b: Seq<char>| c.contains(b) implies impact_of(files, n).contains(b) by {
            let p = choose|p: Seq<char>| d.contains(p) && f(p) == b;
            assert(canon(p) != n);
            assert(file_edge(files, n, b)) by {
                assert(direct_includers(files, n).contains(p) && canon(p) == b);
            }
            assert(file_reaches(files, n, b)) by {
                let q: Seq<Seq<char>> = seq![n, b];
                assert(file_path_ok(files, q)) by {
                    assert forall|x: int| 0 <= x < q.len() - 1 implies file_edge(
                        files,
                        #[trigger] q[x],
                        q[x + 1],
                    ) by {
                        assert(q[0] == n && q[1] == b);
                    }
                }
                assert(q[0] == n && q.last() == b);
            }
            assert(scanned_canon_of(files).contains(b)) by {
                let v = choose|v: int|
                    0 <= v < files.len() && files[v].id() == p && canon_refs_of(
                        files[v],
                    ).contains(n);
                assert(canon(files[v].id()) == b);
            }
        }
    }
    lemma_scanned_canon_finite(files);
    assert(impact_of(files, n).subset_of(scanned_canon_of(files)));
    vstd::set_lib::lemma_len_subset(impact_of(files, n), scanned_canon_of(files));
    vstd::set_lib::lemma_len_subset(c, impact_of(files, n));
}

/// The analyzer's model agrees with the unit-level model: a graph whose
/// includer sets and scanned identities match those computed from the units
/// has the same reachability and the same impact sets.
pub proof fn lemma_model_impact(a: DependencyAnalyzer, files: Seq<File>)
    requires
        forall|n: Seq<char>| #[trigger] a.includers_of(n) == direct_includers(files, n),
        a.scanned_canon() == scanned_canon_of(files),
    ensures
        forall|x: Seq<char>, b: Seq<char>| #[trigger]
            a.reaches(x, b) <==> file_reaches(files, x, b),
        forall|n: Seq<char>| #[trigger] a.impact_set(n) == impact_of(files, n),
{
    assert forall|x: Seq<char>, y: Seq<char>| #[trigger]
        a.edge(x, y) <==> file_edge(files, x, y) by {
        assert(a.includers_of(x) == direct_includers(files, x));
        if a.edge(x, y) {
            let p = choose|p: Seq<char>| a.includers_of(x).contains(p) && canon(p) == y;
            assert(direct_includers(files, x).contains(p));
        }
        if file_edge(files, x, y) {
            let p = choose|p: Seq<char>|
                direct_includers(files, x).contains(p) && canon(p) == y;
            assert(a.includers_of(x).contains(p));
        }
    }
    assert forall|x: Seq<char>, b: Seq<char>| #[trigger]
        a.reaches(x, b) <==> file_reaches(files, x, b) by {
        if a.reaches(x, b) {
            let q = choose|q: Seq<Seq<char>>| a.name_path_ok(q) && q[0] == x && q.last() == b;
            assert(file_path_ok(files, q)) by {
                assert forall|t: int| 0 <= t < q.len() - 1 implies file_edge(
                    files,
                    #[trigger] q[t],
                    q[t + 1],
                ) by {
                    assert(a.edge(q[t], q[t + 1]));
                }
            }
        }
        if file_reaches(files, x, b) {
            let q = choose|q: Seq<Seq<char>>|
                file_path_ok(files, q) && q[0] == x && q.last() == b;
            assert(a.name_path_ok(q)) by {
                assert forall|t: int| 0 <= t < q.len() - 1 implies a.edge(
                    #[trigger] q[t],
                    q[t + 1],
                ) by {
                    assert(file_edge(files, q[t], q[t + 1]));
                }
            }
        }
    }
    assert forall|n: Seq<char>| #[trigger] a.impact_set(n) == impact_of(files, n) by {
        assert forall|b: Seq<char>|
            a.impact_set(n).contains(b) == impact_of(files, n).contains(b) by {
            assert(a.reaches(n, b) <==> file_reaches(files, n, b));
        }
        assert(a.impact_set(n) =~= impact_of(files, n));
    }
}

} // verus!
