//! The mathematical model of the role graph.
//!
//! A manager's state is abstracted as a sequence of [`RoleView`] values: one
//! entry per role, in insertion order, each carrying the role's name and the
//! ordered names of its direct outbound edges.  Every contract of the
//! executable types is stated over this model, and the laws of the library
//! are proved about it here.

use vstd::prelude::*;

verus! {

/// The abstract value of a single role node: its name and the names of its
/// direct outbound edges, in insertion order.
#[verifier::ext_equal]
pub struct RoleView {
    pub name: Seq<char>,
    pub edges: Seq<Seq<char>>,
}

/// The view of an optional domain argument.
pub open spec fn dom_view(domain: Option<&str>) -> Option<Seq<char>> {
    match domain {
        Option::Some(d) => Option::Some(d@),
        Option::None => Option::None,
    }
}

/// The name a call works with once an optional domain is applied:
/// `"<domain>::<name>"` when a domain is present, the plain name otherwise.
pub open spec fn full_name(name: Seq<char>, domain: Option<Seq<char>>) -> Seq<char> {
    match domain {
        Option::Some(d) => scoped(d, name),
        Option::None => name,
    }
}

/// `"<domain>::"`, the prefix that domain scoping prepends.
pub open spec fn scope_prefix(domain: Seq<char>) -> Seq<char> {
    domain + "::"@
}

/// `"<domain>::<name>"`.
pub open spec fn scoped(domain: Seq<char>, name: Seq<char>) -> Seq<char> {
    scope_prefix(domain) + name
}

/// Whether `name` carries the `"<domain>::"` prefix.
pub open spec fn is_scoped(name: Seq<char>, domain: Seq<char>) -> bool {
    name.len() >= scope_prefix(domain).len() && name.subrange(
        0,
        scope_prefix(domain).len() as int,
    ) == scope_prefix(domain)
}

/// `name` with a leading `"<domain>::"` removed when it carries one, and
/// unchanged otherwise.
pub open spec fn strip_one(name: Seq<char>, domain: Option<Seq<char>>) -> Seq<char> {
    match domain {
        Option::Some(d) => if is_scoped(name, d) {
            name.subrange(scope_prefix(d).len() as int, name.len() as int)
        } else {
            name
        },
        Option::None => name,
    }
}

/// Whether some role in `rv` is named `n`.
pub open spec fn contains_role(rv: Seq<RoleView>, n: Seq<char>) -> bool {
    exists|i: int| 0 <= i < rv.len() && #[trigger] rv[i].name == n
}

/// The edge names of the role named `n`, or the empty sequence when no role
/// carries that name.  Well defined as soon as names are unique.
pub open spec fn edges_of(rv: Seq<RoleView>, n: Seq<char>) -> Seq<Seq<char>> {
    if contains_role(rv, n) {
        rv[choose|i: int| 0 <= i < rv.len() && #[trigger] rv[i].name == n].edges
    } else {
        Seq::empty()
    }
}

/// A single role is well formed when no two of its edges share a target name.
pub open spec fn role_wf(r: RoleView) -> bool {
    forall|k1: int, k2: int|
        0 <= k1 < k2 < r.edges.len() ==> #[trigger] r.edges[k1] != #[trigger] r.edges[k2]
}

/// The whole graph is well formed when role names are unique, each role is
/// well formed, and every edge targets a role that the index holds.
pub open spec fn graph_wf(rv: Seq<RoleView>) -> bool {
    &&& forall|i: int, j: int|
        0 <= i < j < rv.len() ==> #[trigger] rv[i].name != #[trigger] rv[j].name
    &&& forall|i: int| 0 <= i < rv.len() ==> role_wf(#[trigger] rv[i])
    &&& forall|i: int, k: int|
        0 <= i < rv.len() && 0 <= k < rv[i].edges.len() ==> contains_role(
            rv,
            #[trigger] rv[i].edges[k],
        )
}

/// Bounded reachability: `tgt` is reachable from `from` along at most
/// `budget` edges.  The identity case costs no budget; each hop costs one.
/// No visited set is kept: cycles are tolerated because the budget bounds
/// the traversal.
pub open spec fn reach(rv: Seq<RoleView>, from: Seq<char>, tgt: Seq<char>, budget: nat) -> bool
    decreases budget,
{
    ||| from == tgt
    ||| (budget > 0 && contains_role(rv, from) && exists|k: int|
        0 <= k < edges_of(rv, from).len() && reach(
            rv,
            #[trigger] edges_of(rv, from)[k],
            tgt,
            (budget - 1) as nat,
        ))
}

/// Membership as the manager tests it: exact name containment without a
/// matcher, "some indexed name matches under the predicate" with one.
pub open spec fn member(
    rv: Seq<RoleView>,
    n: Seq<char>,
    mf: Option<spec_fn(Seq<char>, Seq<char>) -> bool>,
) -> bool {
    match mf {
        Option::Some(f) => exists|i: int| 0 <= i < rv.len() && f(n, #[trigger] rv[i].name),
        Option::None => contains_role(rv, n),
    }
}

/// The graph after a node named `n` is introduced when absent: matcher-free
/// materialization changes nothing else.
pub open spec fn ensure_node(rv: Seq<RoleView>, n: Seq<char>) -> Seq<RoleView> {
    if contains_role(rv, n) {
        rv
    } else {
        rv.push(RoleView { name: n, edges: Seq::empty() })
    }
}

/// The graph after a directed edge `a -> b` is added: the role named `a`
/// gains `b` unless it already has it; every other role is untouched.
pub open spec fn with_edge(rv: Seq<RoleView>, a: Seq<char>, b: Seq<char>) -> Seq<RoleView> {
    rv.map(
        |i: int, r: RoleView|
            if r.name == a && !r.edges.contains(b) {
                RoleView { name: r.name, edges: r.edges.push(b) }
            } else {
                r
            },
    )
}

/// `edges` with every entry equal to `b` removed, order otherwise kept.
pub open spec fn remove_name(edges: Seq<Seq<char>>, b: Seq<char>) -> Seq<Seq<char>>
    decreases edges.len(),
{
    if edges.len() == 0 {
        Seq::empty()
    } else {
        remove_name(edges.drop_last(), b) + (if edges.last() == b {
            Seq::<Seq<char>>::empty()
        } else {
            seq![edges.last()]
        })
    }
}

/// The graph after the edge `a -> b` is deleted: the role named `a` keeps
/// only edges to other names; every other role is untouched.
pub open spec fn without_edge(rv: Seq<RoleView>, a: Seq<char>, b: Seq<char>) -> Seq<RoleView> {
    rv.map(
        |i: int, r: RoleView|
            if r.name == a {
                RoleView { name: r.name, edges: remove_name(r.edges, b) }
            } else {
                r
            },
    )
}

/// What materializing a node named `n` may do to the graph, with `mf` the
/// installed matcher, if any.  Existing roles keep their places and names;
/// a missing node is appended; the materialized node's old edges stay as a
/// prefix and its edge set grows by exactly the matching existing names.
/// The order of matcher-appended edges is left open.
pub open spec fn materialize_post(
    pre: Seq<RoleView>,
    post: Seq<RoleView>,
    n: Seq<char>,
    mf: Option<spec_fn(Seq<char>, Seq<char>) -> bool>,
) -> bool {
    let base = if contains_role(pre, n) {
        edges_of(pre, n)
    } else {
        Seq::empty()
    };
    &&& (if contains_role(pre, n) {
        post.len() == pre.len()
    } else {
        post.len() == pre.len() + 1 && post.last().name == n
    })
    &&& forall|i: int| 0 <= i < pre.len() ==> #[trigger] post[i].name == pre[i].name
    &&& forall|i: int| 0 <= i < pre.len() && pre[i].name != n ==> #[trigger] post[i] == pre[i]
    &&& contains_role(post, n)
    &&& base.is_prefix_of(edges_of(post, n))
    &&& match mf {
        Option::None => edges_of(post, n) == base,
        Option::Some(f) => forall|e: Seq<char>|
            #[trigger] edges_of(post, n).contains(e) <==> base.contains(e) || (e != n
                && contains_role(pre, e) && f(n, e)),
    }
}

/// What `has_link` answers on a matcher-free manager: identity, or bounded
/// reachability between two known scoped names.
pub open spec fn has_link_spec(
    rv: Seq<RoleView>,
    n1: Seq<char>,
    n2: Seq<char>,
    domain: Option<Seq<char>>,
    depth: nat,
) -> bool {
    let f1 = full_name(n1, domain);
    let f2 = full_name(n2, domain);
    ||| n1 == n2
    ||| (contains_role(rv, f1) && contains_role(rv, f2) && reach(rv, f1, f2, depth))
}

/// The names of the roles holding a direct edge to `f`, in index order.
pub open spec fn users_in(rv: Seq<RoleView>, f: Seq<char>) -> Seq<Seq<char>>
    decreases rv.len(),
{
    if rv.len() == 0 {
        Seq::empty()
    } else {
        users_in(rv.drop_last(), f) + (if rv.last().edges.contains(f) {
            seq![rv.last().name]
        } else {
            Seq::<Seq<char>>::empty()
        })
    }
}

/// `names` restricted to those scoped by `domain`, each with the prefix
/// removed; without a domain, `names` unchanged.
pub open spec fn strip_filtered(names: Seq<Seq<char>>, domain: Option<Seq<char>>) -> Seq<Seq<char>>
    decreases names.len(),
{
    match domain {
        Option::None => names,
        Option::Some(d) => if names.len() == 0 {
            Seq::empty()
        } else {
            strip_filtered(names.drop_last(), domain) + (if is_scoped(names.last(), d) {
                seq![names.last().subrange(scope_prefix(d).len() as int, names.last().len() as int)]
            } else {
                Seq::<Seq<char>>::empty()
            })
        },
    }
}

/// What `get_roles` answers on a matcher-free manager: the scoped node's
/// direct edges in insertion order, each stripped of the domain prefix it
/// carries; empty when the node is unknown.
pub open spec fn get_roles_spec(
    rv: Seq<RoleView>,
    name: Seq<char>,
    domain: Option<Seq<char>>,
) -> Seq<Seq<char>> {
    let f = full_name(name, domain);
    if contains_role(rv, f) {
        edges_of(rv, f).map_values(|e: Seq<char>| strip_one(e, domain))
    } else {
        Seq::empty()
    }
}

/// What `get_users` answers on a matcher-free manager: the names of the
/// roles with a direct edge to the scoped node, restricted under a domain
/// to names carrying its prefix and stripped of it; empty when the node is
/// unknown.
pub open spec fn get_users_spec(
    rv: Seq<RoleView>,
    name: Seq<char>,
    domain: Option<Seq<char>>,
) -> Seq<Seq<char>> {
    let f = full_name(name, domain);
    if contains_role(rv, f) {
        strip_filtered(users_in(rv, f), domain)
    } else {
        Seq::empty()
    }
}

/// The text before the first `"::"` of `n`, or all of `n` when it has none.
pub open spec fn domain_part(n: Seq<char>) -> Seq<char>
    decreases n.len(),
{
    if n.len() < 2 {
        n
    } else if n[0] == ':' && n[1] == ':' {
        Seq::empty()
    } else {
        seq![n[0]] + domain_part(n.skip(1))
    }
}

/// Whether a `"::"` separator starts at position `i` of `n`.
pub open spec fn sep_at(n: Seq<char>, i: int) -> bool {
    0 <= i && i + 2 <= n.len() && n[i] == ':' && n[i + 1] == ':'
}

/// A name without a separator is its own domain part.
pub proof fn lemma_domain_part_whole(n: Seq<char>)
    requires
        forall|j: int| !sep_at(n, j),
    ensures
        domain_part(n) == n,
    decreases n.len(),
{
    if n.len() < 2 {
    } else {
        assert(!sep_at(n, 0));
        assert(forall|j: int| sep_at(n.skip(1), j) ==> sep_at(n, j + 1));
        lemma_domain_part_whole(n.skip(1));
        assert(seq![n[0]] + n.skip(1) =~= n);
    }
}

/// The domain part ends at the first separator.
pub proof fn lemma_domain_part_take(n: Seq<char>, k: int)
    requires
        sep_at(n, k),
        forall|j: int| 0 <= j < k ==> !sep_at(n, j),
    ensures
        domain_part(n) == n.take(k),
    decreases k,
{
    if k == 0 {
        assert(domain_part(n) == Seq::<char>::empty());
        assert(n.take(0) =~= Seq::<char>::empty());
    } else {
        assert(!sep_at(n, 0));
        assert(n.len() >= 2);
        assert(sep_at(n.skip(1), k - 1));
        assert(forall|j: int| 0 <= j < k - 1 ==> sep_at(n.skip(1), j) ==> sep_at(n, j + 1));
        lemma_domain_part_take(n.skip(1), k - 1);
        assert(seq![n[0]] + n.skip(1).take(k - 1) =~= n.take(k));
    }
}

/// `remove_name` keeps exactly the entries that differ from `b`.
pub proof fn lemma_remove_name_contains(edges: Seq<Seq<char>>, b: Seq<char>)
    ensures
        forall|e: Seq<char>|
            #[trigger] remove_name(edges, b).contains(e) <==> (edges.contains(e) && e != b),
    decreases edges.len(),
{
    broadcast use vstd::seq_lib::lemma_seq_contains_after_push;
    broadcast use vstd::seq_lib::lemma_seq_empty_contains_nothing;
    broadcast use vstd::seq_lib::lemma_seq_concat_contains_all_elements;

    if edges.len() == 0 {
    } else {
        lemma_remove_name_contains(edges.drop_last(), b);
        assert(edges =~= edges.drop_last().push(edges.last()));
        assert forall|e: Seq<char>|
            #[trigger] remove_name(edges, b).contains(e) implies (edges.contains(e) && e != b) by {
            if remove_name(edges.drop_last(), b).contains(e) {
                assert(edges.drop_last().contains(e));
            } else {
                assert(e == edges.last());
                assert(edges.contains(e)) by {
                    assert(edges[edges.len() - 1] == e);
                }
            }
        }
        assert forall|e: Seq<char>|
            edges.contains(e) && e != b implies #[trigger] remove_name(edges, b).contains(e) by {
            if edges.drop_last().contains(e) {
                assert(remove_name(edges.drop_last(), b).contains(e));
            } else {
                assert(e == edges.last());
                assert(remove_name(edges, b) == remove_name(edges.drop_last(), b) + seq![e]);
            }
        }
    }
}

/// `remove_name` keeps entries pairwise distinct.
pub proof fn lemma_remove_name_distinct(edges: Seq<Seq<char>>, b: Seq<char>)
    requires
        forall|k1: int, k2: int|
            0 <= k1 < k2 < edges.len() ==> #[trigger] edges[k1] != #[trigger] edges[k2],
    ensures
        forall|k1: int, k2: int|
            0 <= k1 < k2 < remove_name(edges, b).len() ==> #[trigger] remove_name(edges, b)[k1]
                != #[trigger] remove_name(edges, b)[k2],
    decreases edges.len(),
{
    if edges.len() == 0 {
    } else {
        let rest = edges.drop_last();
        lemma_remove_name_distinct(rest, b);
        lemma_remove_name_contains(rest, b);
        let out = remove_name(edges, b);
        let short = remove_name(rest, b);
        assert forall|k1: int, k2: int|
            0 <= k1 < k2 < out.len() implies #[trigger] out[k1] != #[trigger] out[k2] by {
            if k2 < short.len() {
            } else {
                assert(edges.last() != b);
                assert(out[k2] == edges.last());
                assert(out[k1] == short[k1]);
                assert(short.contains(short[k1]));
                assert(rest.contains(short[k1]));
                let w = choose|w: int| 0 <= w < rest.len() && rest[w] == short[k1];
                assert(edges[w] == short[k1]);
                assert(edges[edges.len() - 1] == edges.last());
            }
        }
    }
}

/// Adding an edge between known roles preserves well-formedness, the node
/// names, and yields the edge.
pub proof fn lemma_with_edge_wf(rv: Seq<RoleView>, a: Seq<char>, b: Seq<char>)
    requires
        graph_wf(rv),
        contains_role(rv, b),
    ensures
        graph_wf(with_edge(rv, a, b)),
        with_edge(rv, a, b).len() == rv.len(),
        forall|i: int| 0 <= i < rv.len() ==> #[trigger] with_edge(rv, a, b)[i].name == rv[i].name,
        contains_role(rv, a) ==> edges_of(with_edge(rv, a, b), a).contains(b),
{
    broadcast use vstd::seq_lib::lemma_seq_contains_after_push;

    let out = with_edge(rv, a, b);
    assert forall|n: Seq<char>| contains_role(rv, n) == contains_role(out, n) by {
        if contains_role(rv, n) {
            let w = choose|w: int| 0 <= w < rv.len() && #[trigger] rv[w].name == n;
            assert(out[w].name == n);
        }
        if contains_role(out, n) {
            let w = choose|w: int| 0 <= w < out.len() && #[trigger] out[w].name == n;
            assert(rv[w].name == n);
        }
    }
    assert forall|i: int| 0 <= i < out.len() implies role_wf(#[trigger] out[i]) by {
        if rv[i].name == a && !rv[i].edges.contains(b) {
            assert(out[i].edges == rv[i].edges.push(b));
        } else {
            assert(out[i] == rv[i]);
        }
    }
    assert forall|i: int, k: int|
        0 <= i < out.len() && 0 <= k < out[i].edges.len() implies contains_role(
        out,
        #[trigger] out[i].edges[k],
    ) by {
        if rv[i].name == a && !rv[i].edges.contains(b) {
            assert(out[i].edges == rv[i].edges.push(b));
            if k < rv[i].edges.len() {
                assert(contains_role(rv, rv[i].edges[k]));
            } else {
                assert(out[i].edges[k] == b);
            }
        } else {
            assert(out[i] == rv[i]);
            assert(contains_role(rv, rv[i].edges[k]));
        }
    }
    if contains_role(rv, a) {
        let w = choose|w: int| 0 <= w < rv.len() && #[trigger] rv[w].name == a;
        lemma_edges_of_at(out, w);
        if rv[w].edges.contains(b) {
            assert(out[w] == rv[w]);
        } else {
            assert(out[w].edges == rv[w].edges.push(b));
            assert(out[w].edges[out[w].edges.len() - 1] == b);
        }
    }
}

/// Deleting an edge preserves well-formedness and the node names, and the
/// edge is gone.
pub proof fn lemma_without_edge_wf(rv: Seq<RoleView>, a: Seq<char>, b: Seq<char>)
    requires
        graph_wf(rv),
    ensures
        graph_wf(without_edge(rv, a, b)),
        without_edge(rv, a, b).len() == rv.len(),
        forall|i: int|
            0 <= i < rv.len() ==> #[trigger] without_edge(rv, a, b)[i].name == rv[i].name,
        !edges_of(without_edge(rv, a, b), a).contains(b),
{
    let out = without_edge(rv, a, b);
    assert forall|n: Seq<char>| contains_role(rv, n) == contains_role(out, n) by {
        if contains_role(rv, n) {
            let w = choose|w: int| 0 <= w < rv.len() && #[trigger] rv[w].name == n;
            assert(out[w].name == n);
        }
        if contains_role(out, n) {
            let w = choose|w: int| 0 <= w < out.len() && #[trigger] out[w].name == n;
            assert(rv[w].name == n);
        }
    }
    assert forall|i: int| 0 <= i < out.len() implies role_wf(#[trigger] out[i]) by {
        if rv[i].name == a {
            assert(out[i].edges == remove_name(rv[i].edges, b));
            lemma_remove_name_distinct(rv[i].edges, b);
        } else {
            assert(out[i] == rv[i]);
        }
    }
    assert forall|i: int, k: int|
        0 <= i < out.len() && 0 <= k < out[i].edges.len() implies contains_role(
        out,
        #[trigger] out[i].edges[k],
    ) by {
        if rv[i].name == a {
            assert(out[i].edges == remove_name(rv[i].edges, b));
            lemma_remove_name_contains(rv[i].edges, b);
            assert(out[i].edges.contains(out[i].edges[k]));
            assert(rv[i].edges.contains(out[i].edges[k]));
            let w = choose|w: int| 0 <= w < rv[i].edges.len() && rv[i].edges[w] == out[i].edges[k];
            assert(contains_role(rv, rv[i].edges[w]));
        } else {
            assert(out[i] == rv[i]);
            assert(contains_role(rv, rv[i].edges[k]));
        }
    }
    if contains_role(out, a) {
        let w = choose|w: int| 0 <= w < out.len() && #[trigger] out[w].name == a;
        lemma_edges_of_at(out, w);
        assert(rv[w].name == a);
        assert(out[w].edges == remove_name(rv[w].edges, b));
        lemma_remove_name_contains(rv[w].edges, b);
    }
}

/// Edge uniqueness: in a well-formed graph no role has two outbound edges
/// with the same target name, whatever mutations built it.
pub proof fn lemma_edges_unique(rv: Seq<RoleView>, i: int, k1: int, k2: int)
    requires
        graph_wf(rv),
        0 <= i < rv.len(),
        0 <= k1 < k2 < rv[i].edges.len(),
    ensures
        rv[i].edges[k1] != rv[i].edges[k2],
{
}

/// Symmetry of absence: when neither endpoint is a known role, distinct
/// names are never linked.
pub proof fn lemma_absent_not_linked(
    rv: Seq<RoleView>,
    n1: Seq<char>,
    n2: Seq<char>,
    domain: Option<Seq<char>>,
    depth: nat,
)
    requires
        n1 != n2,
        !contains_role(rv, full_name(n1, domain)),
        !contains_role(rv, full_name(n2, domain)),
    ensures
        !has_link_spec(rv, n1, n2, domain, depth),
{
}

/// Clear idempotence: on the empty graph, distinct names are never linked.
pub proof fn lemma_cleared_not_linked(
    n1: Seq<char>,
    n2: Seq<char>,
    domain: Option<Seq<char>>,
    depth: nat,
)
    requires
        n1 != n2,
    ensures
        !has_link_spec(Seq::<RoleView>::empty(), n1, n2, domain, depth),
{
}

/// Depth monotonicity for reachability: a larger budget reaches no less.
pub proof fn lemma_reach_depth_monotone(
    rv: Seq<RoleView>,
    from: Seq<char>,
    tgt: Seq<char>,
    b1: nat,
    b2: nat,
)
    requires
        b1 <= b2,
        reach(rv, from, tgt, b1),
    ensures
        reach(rv, from, tgt, b2),
    decreases b1,
{
    if from == tgt {
    } else {
        let es = edges_of(rv, from);
        let k = choose|k: int|
            0 <= k < es.len() && reach(rv, #[trigger] es[k], tgt, (b1 - 1) as nat);
        lemma_reach_depth_monotone(rv, es[k], tgt, (b1 - 1) as nat, (b2 - 1) as nat);
        assert(reach(rv, es[k], tgt, (b2 - 1) as nat));
    }
}

/// Depth monotonicity: raising the budget never turns a positive link
/// answer negative.
pub proof fn lemma_has_link_depth_monotone(
    rv: Seq<RoleView>,
    n1: Seq<char>,
    n2: Seq<char>,
    domain: Option<Seq<char>>,
    d1: nat,
    d2: nat,
)
    requires
        d1 <= d2,
        has_link_spec(rv, n1, n2, domain, d1),
    ensures
        has_link_spec(rv, n1, n2, domain, d2),
{
    if n1 != n2 {
        lemma_reach_depth_monotone(
            rv,
            full_name(n1, domain),
            full_name(n2, domain),
            d1,
            d2,
        );
    }
}

/// Every name listed by `users_in` belongs to a role with the edge.
pub proof fn lemma_users_in_source(rv: Seq<RoleView>, f: Seq<char>, t: Seq<char>)
    requires
        users_in(rv, f).contains(t),
    ensures
        exists|i: int|
            0 <= i < rv.len() && #[trigger] rv[i].name == t && rv[i].edges.contains(f),
    decreases rv.len(),
{
    if rv.len() == 0 {
        assert(false);
    } else {
        let rest = rv.drop_last();
        let head = users_in(rest, f);
        let w = choose|w: int| 0 <= w < users_in(rv, f).len() && users_in(rv, f)[w] == t;
        if w < head.len() {
            assert(head.contains(t)) by {
                assert(head[w] == t);
            }
            lemma_users_in_source(rest, f, t);
            let i = choose|i: int|
                0 <= i < rest.len() && #[trigger] rest[i].name == t && rest[i].edges.contains(f);
            assert(rv[i].name == t && rv[i].edges.contains(f));
        } else {
            assert(rv.last().edges.contains(f));
            assert(t == rv.last().name);
            assert(rv[rv.len() - 1].name == t && rv[rv.len() - 1].edges.contains(f));
        }
    }
}

/// Every name listed by `strip_filtered` under a domain comes from a scoped
/// name in the input.
pub proof fn lemma_strip_filtered_source(names: Seq<Seq<char>>, d: Seq<char>, t: Seq<char>)
    requires
        strip_filtered(names, Option::Some(d)).contains(t),
    ensures
        exists|full: Seq<char>|
            #[trigger] names.contains(full) && is_scoped(full, d) && t == full.subrange(
                scope_prefix(d).len() as int,
                full.len() as int,
            ),
    decreases names.len(),
{
    if names.len() == 0 {
        assert(false);
    } else {
        let rest = names.drop_last();
        let head = strip_filtered(rest, Option::Some(d));
        let out = strip_filtered(names, Option::Some(d));
        let w = choose|w: int| 0 <= w < out.len() && out[w] == t;
        if w < head.len() {
            assert(head.contains(t)) by {
                assert(head[w] == t);
            }
            lemma_strip_filtered_source(rest, d, t);
            let full = choose|full: Seq<char>|
                #[trigger] rest.contains(full) && is_scoped(full, d) && t == full.subrange(
                    scope_prefix(d).len() as int,
                    full.len() as int,
                );
            let v = choose|v: int| 0 <= v < rest.len() && rest[v] == full;
            assert(names[v] == full);
            assert(names.contains(full));
        } else {
            assert(is_scoped(names.last(), d));
            assert(t == names.last().subrange(
                scope_prefix(d).len() as int,
                names.last().len() as int,
            ));
            assert(names[names.len() - 1] == names.last());
            assert(names.contains(names.last()));
        }
    }
}

/// Scoping then stripping gives the name back, and the scoped form carries
/// the prefix.
pub proof fn lemma_scoped_roundtrip(d: Seq<char>, n: Seq<char>)
    ensures
        is_scoped(scoped(d, n), d),
        scoped(d, n).subrange(scope_prefix(d).len() as int, scoped(d, n).len() as int) == n,
{
    assert(scoped(d, n).subrange(0, scope_prefix(d).len() as int) =~= scope_prefix(d));
    assert(scoped(d, n).subrange(scope_prefix(d).len() as int, scoped(d, n).len() as int) =~= n);
}

/// Stripping then re-scoping gives a scoped name back.
pub proof fn lemma_strip_rescope(x: Seq<char>, d: Seq<char>)
    requires
        is_scoped(x, d),
    ensures
        scoped(d, x.subrange(scope_prefix(d).len() as int, x.len() as int)) == x,
{
    assert(scoped(d, x.subrange(scope_prefix(d).len() as int, x.len() as int)) =~= x);
}

/// Reverse consistency: on a matcher-free manager, every `a` that
/// `get_users(b, domain)` lists has `b` among `get_roles(a, domain)`.
pub proof fn lemma_reverse_consistency(
    rv: Seq<RoleView>,
    b: Seq<char>,
    domain: Option<Seq<char>>,
    a: Seq<char>,
)
    requires
        graph_wf(rv),
        get_users_spec(rv, b, domain).contains(a),
    ensures
        get_roles_spec(rv, a, domain).contains(b),
{
    let f = full_name(b, domain);
    assert(contains_role(rv, f));
    match domain {
        Option::None => {
            lemma_users_in_source(rv, b, a);
            let i = choose|i: int|
                0 <= i < rv.len() && #[trigger] rv[i].name == a && rv[i].edges.contains(b);
            lemma_edges_of_at(rv, i);
            let es = edges_of(rv, a);
            let k = choose|k: int| 0 <= k < es.len() && es[k] == b;
            let mapped = es.map_values(|e: Seq<char>| strip_one(e, domain));
            assert(mapped[k] == b);
            assert(mapped.contains(b));
        },
        Option::Some(d) => {
            lemma_strip_filtered_source(users_in(rv, f), d, a);
            let full = choose|full: Seq<char>|
                #[trigger] users_in(rv, f).contains(full) && is_scoped(full, d) && a
                    == full.subrange(scope_prefix(d).len() as int, full.len() as int);
            lemma_users_in_source(rv, f, full);
            let i = choose|i: int|
                0 <= i < rv.len() && #[trigger] rv[i].name == full && rv[i].edges.contains(f);
            lemma_strip_rescope(full, d);
            assert(full_name(a, domain) == full);
            lemma_edges_of_at(rv, i);
            let es = edges_of(rv, full);
            let k = choose|k: int| 0 <= k < es.len() && es[k] == f;
            lemma_scoped_roundtrip(d, b);
            let mapped = es.map_values(|e: Seq<char>| strip_one(e, domain));
            assert(mapped[k] == strip_one(f, domain));
            assert(strip_one(f, domain) == b);
            assert(mapped.contains(b));
        },
    }
}

/// A domain with no `':'` in it; the external interface reserves `"::"` and
/// expects callers to keep the separator out of names and domains.
pub open spec fn no_colon(d: Seq<char>) -> bool {
    forall|i: int| 0 <= i < d.len() ==> #[trigger] d[i] != ':'
}

/// Every edge of a role scoped by `d` targets a name scoped by `d`; this
/// holds of every graph built by matcher-free `add_link` calls on names
/// without `"::"`.
pub open spec fn domain_closed(rv: Seq<RoleView>, d: Seq<char>) -> bool {
    forall|i: int, k: int|
        #![trigger rv[i].edges[k]]
        0 <= i < rv.len() && is_scoped(rv[i].name, d) && 0 <= k < rv[i].edges.len() ==> is_scoped(
            rv[i].edges[k],
            d,
        )
}

/// A name scoped under one colon-free domain is never scoped under another.
pub proof fn lemma_scoped_unrelated(d1: Seq<char>, d2: Seq<char>, m: Seq<char>)
    requires
        no_colon(d1),
        no_colon(d2),
        d1 != d2,
    ensures
        !is_scoped(scoped(d1, m), d2),
{
    reveal_strlit("::");
    assert("::"@ =~= seq![':', ':']);
    let x = scoped(d1, m);
    if is_scoped(x, d2) {
        let sub = x.subrange(0, scope_prefix(d2).len() as int);
        if d1.len() == d2.len() {
            assert(d1 =~= d2) by {
                assert forall|i: int| 0 <= i < d1.len() implies d1[i] == d2[i] by {
                    assert(x[i] == d1[i]);
                    assert(sub[i] == d2[i]);
                }
            }
        } else if d1.len() < d2.len() {
            let p = d1.len() as int;
            assert(x[p] == ':');
            assert(sub[p] == d2[p]);
            assert(d2[p] != ':');
        } else {
            let p = d2.len() as int;
            assert(sub[p] == ':');
            assert(x[p] == d1[p]);
            assert(d1[p] != ':');
        }
    }
}

/// Introducing a missing node preserves well-formedness and the rest of the
/// graph.
pub proof fn lemma_ensure_node_wf(rv: Seq<RoleView>, n: Seq<char>)
    requires
        graph_wf(rv),
    ensures
        graph_wf(ensure_node(rv, n)),
        rv.len() <= ensure_node(rv, n).len(),
        forall|i: int| 0 <= i < rv.len() ==> #[trigger] ensure_node(rv, n)[i] == rv[i],
        contains_role(ensure_node(rv, n), n),
        forall|m: Seq<char>|
            #[trigger] contains_role(ensure_node(rv, n), m) <==> (contains_role(rv, m) || m == n),
        forall|i: int|
            rv.len() <= i < ensure_node(rv, n).len() ==> #[trigger] ensure_node(rv, n)[i].name
                == n && ensure_node(rv, n)[i].edges == Seq::<Seq<char>>::empty(),
{
    let out = ensure_node(rv, n);
    if contains_role(rv, n) {
        assert forall|m: Seq<char>|
            #[trigger] contains_role(out, m) <==> (contains_role(rv, m) || m == n) by {
        }
    } else {
        assert(out[rv.len() as int].name == n);
        assert forall|m: Seq<char>|
            #[trigger] contains_role(out, m) <==> (contains_role(rv, m) || m == n) by {
            if contains_role(rv, m) {
                let w = choose|w: int| 0 <= w < rv.len() && #[trigger] rv[w].name == m;
                assert(out[w].name == m);
            }
            if contains_role(out, m) && m != n {
                let w = choose|w: int| 0 <= w < out.len() && #[trigger] out[w].name == m;
                assert(w < rv.len());
                assert(rv[w].name == m);
            }
        }
        assert forall|i: int, k: int|
            0 <= i < out.len() && 0 <= k < out[i].edges.len() implies contains_role(
            out,
            #[trigger] out[i].edges[k],
        ) by {
            assert(i < rv.len());
            assert(out[i] == rv[i]);
            assert(contains_role(rv, rv[i].edges[k]));
        }
    }
}

/// Reachability from a `d`-scoped name depends only on the `d`-scoped part
/// of the graph, as long as that part never leaves the domain.
pub proof fn lemma_reach_domain_frame(
    rv1: Seq<RoleView>,
    rv2: Seq<RoleView>,
    d: Seq<char>,
    from: Seq<char>,
    tgt: Seq<char>,
    budget: nat,
)
    requires
        domain_closed(rv1, d),
        forall|n: Seq<char>|
            #[trigger] is_scoped(n, d) ==> (contains_role(rv1, n) <==> contains_role(rv2, n)),
        forall|n: Seq<char>|
            #[trigger] is_scoped(n, d) && contains_role(rv1, n) ==> edges_of(rv1, n) == edges_of(
                rv2,
                n,
            ),
        is_scoped(from, d),
    ensures
        reach(rv1, from, tgt, budget) == reach(rv2, from, tgt, budget),
    decreases budget,
{
    if from == tgt {
    } else if budget == 0 {
    } else {
        if !contains_role(rv1, from) {
            assert(!contains_role(rv2, from));
        } else {
            let es = edges_of(rv1, from);
            assert(edges_of(rv2, from) == es);
            let w = choose|w: int| 0 <= w < rv1.len() && #[trigger] rv1[w].name == from;
            assert forall|k: int| 0 <= k < es.len() implies #[trigger] reach(
                rv1,
                es[k],
                tgt,
                (budget - 1) as nat,
            ) == reach(rv2, es[k], tgt, (budget - 1) as nat) by {
                assert(es[k] == rv1[w].edges[k]);
                assert(is_scoped(es[k], d));
                lemma_reach_domain_frame(rv1, rv2, d, es[k], tgt, (budget - 1) as nat);
            }
            if reach(rv1, from, tgt, budget) {
                let k = choose|k: int|
                    0 <= k < es.len() && reach(rv1, #[trigger] es[k], tgt, (budget - 1) as nat);
                assert(reach(rv2, edges_of(rv2, from)[k], tgt, (budget - 1) as nat));
                assert(reach(rv2, from, tgt, budget));
            }
            if reach(rv2, from, tgt, budget) {
                let k = choose|k: int|
                    0 <= k < edges_of(rv2, from).len() && reach(
                        rv2,
                        #[trigger] edges_of(rv2, from)[k],
                        tgt,
                        (budget - 1) as nat,
                    );
                assert(reach(rv1, edges_of(rv1, from)[k], tgt, (budget - 1) as nat));
                assert(reach(rv1, from, tgt, budget));
            }
        }
    }
}

/// A matcher-free `add_link` keeps the graph within a domain: the one new
/// edge runs `f1 -> f2`, so as long as a `d`-scoped `f1` only ever gets a
/// `d`-scoped `f2` — true when both endpoints were scoped under the same
/// domain, and vacuous when `f1` lies outside `d` — every `d`-scoped role
/// still points only at `d`-scoped roles.
pub proof fn lemma_add_link_keeps_domain_closed(
    rv: Seq<RoleView>,
    f1: Seq<char>,
    f2: Seq<char>,
    d: Seq<char>,
)
    requires
        graph_wf(rv),
        domain_closed(rv, d),
        is_scoped(f1, d) ==> is_scoped(f2, d),
    ensures
        domain_closed(with_edge(ensure_node(ensure_node(rv, f1), f2), f1, f2), d),
{
    broadcast use vstd::seq_lib::lemma_seq_contains_after_push;

    lemma_ensure_node_wf(rv, f1);
    let rva = ensure_node(rv, f1);
    lemma_ensure_node_wf(rva, f2);
    let rvb = ensure_node(rva, f2);
    let out = with_edge(rvb, f1, f2);
    assert forall|i: int, k: int|
        0 <= i < out.len() && is_scoped(out[i].name, d) && 0 <= k
            < out[i].edges.len() implies is_scoped(#[trigger] out[i].edges[k], d) by {
        assert(out[i].name == rvb[i].name);
        if rvb[i].name == f1 && !rvb[i].edges.contains(f2) {
            assert(out[i].edges == rvb[i].edges.push(f2));
            if k < rvb[i].edges.len() {
                assert(rvb[i].edges[k] == out[i].edges[k]);
                if i < rv.len() {
                    assert(rvb[i] == rv[i]);
                    assert(is_scoped(rv[i].edges[k], d));
                } else {
                    assert(rvb[i].edges == Seq::<Seq<char>>::empty());
                }
            } else {
                assert(out[i].edges[k] == f2);
                assert(is_scoped(f1, d));
            }
        } else {
            assert(out[i] == rvb[i]);
            if i < rv.len() {
                assert(rvb[i] == rv[i]);
                assert(is_scoped(rv[i].edges[k], d));
            } else {
                assert(rvb[i].edges == Seq::<Seq<char>>::empty());
            }
        }
    }
}

/// Domain isolation: with no matcher, a link added under one colon-free
/// domain never changes a link query under a different colon-free domain.
/// The graph must so far stay within the queried domain, as every graph
/// built by matcher-free `add_link` calls on separator-free names does.
pub proof fn lemma_domain_isolation(
    rv: Seq<RoleView>,
    n1: Seq<char>,
    n2: Seq<char>,
    d1: Seq<char>,
    x: Seq<char>,
    y: Seq<char>,
    d2: Seq<char>,
    depth: nat,
)
    requires
        graph_wf(rv),
        domain_closed(rv, d2),
        no_colon(d1),
        no_colon(d2),
        d1 != d2,
    ensures
        ({
            let added = with_edge(
                ensure_node(ensure_node(rv, scoped(d1, n1)), scoped(d1, n2)),
                scoped(d1, n1),
                scoped(d1, n2),
            );
            has_link_spec(added, x, y, Option::Some(d2), depth) == has_link_spec(
                rv,
                x,
                y,
                Option::Some(d2),
                depth,
            )
        }),
{
    let s1 = scoped(d1, n1);
    let s2 = scoped(d1, n2);
    lemma_scoped_unrelated(d1, d2, n1);
    lemma_scoped_unrelated(d1, d2, n2);
    lemma_ensure_node_wf(rv, s1);
    let rva = ensure_node(rv, s1);
    lemma_ensure_node_wf(rva, s2);
    let rvb = ensure_node(rva, s2);
    lemma_with_edge_wf(rvb, s1, s2);
    let added = with_edge(rvb, s1, s2);
    assert forall|n: Seq<char>|
        #[trigger] is_scoped(n, d2) implies (contains_role(rv, n) <==> contains_role(
        added,
        n,
    )) by {
        if contains_role(rv, n) {
            let w = choose|w: int| 0 <= w < rv.len() && #[trigger] rv[w].name == n;
            assert(rvb[w].name == n);
            assert(added[w].name == n);
        }
        if contains_role(added, n) {
            let w = choose|w: int| 0 <= w < added.len() && #[trigger] added[w].name == n;
            assert(rvb[w].name == n);
            assert(contains_role(rvb, n));
            assert(n != s1 && n != s2);
            assert(contains_role(rv, n));
        }
    }
    assert forall|n: Seq<char>|
        #[trigger] is_scoped(n, d2) && contains_role(rv, n) implies edges_of(rv, n) == edges_of(
        added,
        n,
    ) by {
        let w = choose|w: int| 0 <= w < rv.len() && #[trigger] rv[w].name == n;
        lemma_edges_of_at(rv, w);
        assert(rvb[w] == rv[w]);
        assert(n != s1);
        assert(added[w] == rvb[w]) by {
            assert(rvb[w].name != s1);
        }
        assert forall|i: int, j: int|
            0 <= i < j < added.len() implies #[trigger] added[i].name != #[trigger] added[
            j
        ].name by {
            assert(added[i].name == rvb[i].name);
            assert(added[j].name == rvb[j].name);
        }
        lemma_edges_of_at(added, w);
    }
    let f1 = scoped(d2, x);
    let f2 = scoped(d2, y);
    lemma_scoped_roundtrip(d2, x);
    lemma_scoped_roundtrip(d2, y);
    if x != y && contains_role(rv, f1) && contains_role(added, f1) {
        lemma_reach_domain_frame(rv, added, d2, f1, f2, depth);
    }
}

/// With unique role names, the edges of the role at index `i` are the edges
/// of its name.
pub proof fn lemma_edges_of_at(rv: Seq<RoleView>, i: int)
    requires
        forall|p: int, q: int|
            0 <= p < q < rv.len() ==> #[trigger] rv[p].name != #[trigger] rv[q].name,
        0 <= i < rv.len(),
    ensures
        contains_role(rv, rv[i].name),
        edges_of(rv, rv[i].name) == rv[i].edges,
{
    assert(contains_role(rv, rv[i].name));
    let j = choose|j: int| 0 <= j < rv.len() && #[trigger] rv[j].name == rv[i].name;
    assert(j == i);
}

} // verus!
