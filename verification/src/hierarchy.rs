//! The executable role graph: role nodes and the manager that owns them.
//!
//! The manager owns all nodes in one arena vector; an edge names its target
//! role, and the names are unique, so the pair behaves as the usual graph of
//! shared nodes without shared ownership.

use vstd::prelude::*;
use vstd::string::{StrSliceExecFns, StringExecFns};

use crate::matching::Matcher;
use crate::model::{
    contains_role, dom_view, domain_part, edges_of, ensure_node, full_name, get_roles_spec,
    get_users_spec, lemma_domain_part_take, lemma_domain_part_whole, sep_at, graph_wf,
    has_link_spec, is_scoped, lemma_edges_of_at, lemma_with_edge_wf,
    lemma_without_edge_wf, materialize_post, member, reach, remove_name, role_wf, scope_prefix,
    scoped, strip_filtered, strip_one, users_in, with_edge, without_edge, RoleView,
};

verus! {

broadcast use
    vstd::seq_lib::lemma_seq_contains_after_push,
    vstd::seq_lib::lemma_seq_empty_contains_nothing,
    vstd::seq_lib::lemma_seq_concat_contains_all_elements,
;

/// The views of a sequence of roles, in the same order.
pub open spec fn views_of(roles: Seq<Role>) -> Seq<RoleView> {
    roles.map(|i: int, r: Role| r@)
}

/// What the expansion pass of materialization collects: exactly the names of
/// the roles other than the one at `idx` that match `n` under the predicate,
/// and nothing when no predicate is installed.
spec fn matched_set(
    matched: Seq<Seq<char>>,
    rv: Seq<RoleView>,
    n: Seq<char>,
    idx: int,
    mf: Option<spec_fn(Seq<char>, Seq<char>) -> bool>,
) -> bool {
    match mf {
        Option::Some(f) => {
            &&& forall|t: Seq<char>|
                #[trigger] matched.contains(t) ==> (t != n && contains_role(rv, t) && f(n, t))
            &&& forall|jj: int|
                0 <= jj < rv.len() && jj != idx && f(n, #[trigger] rv[jj].name)
                    ==> matched.contains(rv[jj].name)
        },
        Option::None => matched == Seq::<Seq<char>>::empty(),
    }
}

/// A single named principal and its direct outbound edges.
///
/// Edge order is insertion order; no two edges share a target name.
#[derive(Clone)]
pub struct Role {
    name: String,
    edges: Vec<String>,
}

impl View for Role {
    type V = RoleView;

    closed spec fn view(&self) -> RoleView {
        RoleView { name: self.name@, edges: self.edges.deep_view() }
    }
}

impl Role {
    /// A fresh role with no edges.
    pub fn new(name: &str) -> (r: Role)
        ensures
            r@.name == name@,
            r@.edges == Seq::<Seq<char>>::empty(),
    {
        let r = Role { name: name.to_owned(), edges: Vec::new() };
        proof {
            assert(r@.edges =~= Seq::<Seq<char>>::empty());
        }
        r
    }

    /// Whether this role has a direct edge to `name`.
    pub fn has_direct_role(&self, name: &str) -> (r: bool)
        ensures
            r == self@.edges.contains(name@),
    {
        let target: String = name.to_owned();
        let mut i: usize = 0;
        while i < self.edges.len()
            invariant
                i <= self.edges.len(),
                target@ == name@,
                forall|k: int| 0 <= k < i ==> #[trigger] self@.edges[k] != name@,
            decreases self.edges.len() - i,
        {
            proof {
                assert(self@.edges[i as int] == self.edges@[i as int]@);
            }
            if self.edges[i] == target {
                proof {
                    assert(self@.edges.contains(name@)) by {
                        assert(self@.edges[i as int] == name@);
                    }
                }
                return true;
            }
            i += 1;
        }
        proof {
            assert(forall|k: int| 0 <= k < self@.edges.len() ==> #[trigger] self@.edges[k] != name@);
        }
        false
    }

    /// Appends an edge to `n` unless one with that target name exists.
    fn add_edge_name(&mut self, n: String)
        ensures
            final(self)@.name == old(self)@.name,
            old(self)@.edges.contains(n@) ==> final(self)@.edges == old(self)@.edges,
            !old(self)@.edges.contains(n@) ==> final(self)@.edges == old(self)@.edges.push(n@),
    {
        if self.has_direct_role(n.as_str()) {
            return ;
        }
        self.edges.push(n);
        proof {
            assert(final(self)@.edges =~= old(self)@.edges.push(final(self).edges@.last()@));
        }
    }

    /// Adds an edge to `other`, deduplicated by target name.
    pub fn add_role(&mut self, other: &Role)
        ensures
            final(self)@.name == old(self)@.name,
            old(self)@.edges.contains(other@.name) ==> final(self)@.edges == old(self)@.edges,
            !old(self)@.edges.contains(other@.name) ==> final(self)@.edges == old(
                self,
            )@.edges.push(other@.name),
    {
        self.add_edge_name(other.name.clone());
    }

    /// Removes every edge whose target name equals `n`.
    fn remove_edge_name(&mut self, n: &String)
        ensures
            final(self)@.name == old(self)@.name,
            final(self)@.edges == remove_name(old(self)@.edges, n@),
    {
        let mut kept: Vec<String> = Vec::new();
        let mut i: usize = 0;
        while i < self.edges.len()
            invariant
                i <= self.edges.len(),
                kept.deep_view() == remove_name(self@.edges.take(i as int), n@),
            decreases self.edges.len() - i,
        {
            proof {
                assert(self@.edges.take(i as int + 1).drop_last() =~= self@.edges.take(i as int));
                assert(self@.edges.take(i as int + 1).last() == self@.edges[i as int]);
                assert(self@.edges[i as int] == self.edges@[i as int]@);
            }
            if !(self.edges[i] == *n) {
                let ghost pre = kept.deep_view();
                kept.push(self.edges[i].clone());
                proof {
                    assert(kept.deep_view() =~= pre.push(self@.edges[i as int]));
                    assert(remove_name(self@.edges.take(i as int + 1), n@) =~= pre.push(
                        self@.edges[i as int],
                    ));
                }
            }
            i += 1;
        }
        proof {
            assert(self@.edges.take(self.edges.len() as int) =~= self@.edges);
        }
        self.edges = kept;
    }

    /// Removes every edge whose target name equals `other`'s name.
    pub fn delete_role(&mut self, other: &Role)
        ensures
            final(self)@.name == old(self)@.name,
            final(self)@.edges == remove_name(old(self)@.edges, other@.name),
    {
        let n = other.name.clone();
        self.remove_edge_name(&n);
    }

    /// The tenant part of this role's name: the text before the first
    /// `"::"`, or the whole name when it has none.  Always some value.
    pub fn domain(&self) -> (r: Option<String>)
        ensures
            r is Some,
            r matches Some(d) ==> d@ == domain_part(self@.name),
    {
        let n = self.name.as_str();
        let len = n.unicode_len();
        let mut i: usize = 0;
        while i < len && i + 1 < len
            invariant
                len == self@.name.len(),
                n@ == self@.name,
                i <= len,
                forall|j: int| 0 <= j < i ==> !sep_at(self@.name, j),
            decreases len - i,
        {
            if n.get_char(i) == ':' && n.get_char(i + 1) == ':' {
                let d = n.substring_char(0, i).to_owned();
                proof {
                    lemma_domain_part_take(self@.name, i as int);
                    assert(d@ =~= self@.name.take(i as int));
                }
                return Some(d);
            }
            i += 1;
        }
        proof {
            assert(forall|j: int| !sep_at(self@.name, j));
            lemma_domain_part_whole(self@.name);
        }
        Some(self.name.clone())
    }

    /// Bounded depth-first reachability among the roles of `all`: whether a
    /// directed path of at most `hierarchy_level` edges leads from this role
    /// to one named `name`.  The identity case costs no budget.
    pub fn has_role(&self, all: &Vec<Role>, name: &str, hierarchy_level: usize) -> (r: bool)
        requires
            graph_wf(views_of(all@)),
            exists|i: int| 0 <= i < all@.len() && #[trigger] all@[i]@ == self@,
        ensures
            r == reach(views_of(all@), self@.name, name@, hierarchy_level as nat),
        decreases hierarchy_level,
    {
        let ghost rv = views_of(all@);
        let target: String = name.to_owned();
        if self.name == target {
            return true;
        }
        if hierarchy_level == 0 {
            return false;
        }
        proof {
            let i0 = choose|i: int| 0 <= i < all@.len() && #[trigger] all@[i]@ == self@;
            assert(rv[i0] == self@);
            lemma_edges_of_at(rv, i0);
        }
        let mut k: usize = 0;
        while k < self.edges.len()
            invariant
                graph_wf(rv),
                rv == views_of(all@),
                k <= self.edges.len(),
                contains_role(rv, self@.name),
                edges_of(rv, self@.name) == self@.edges,
                self@.name != name@,
                hierarchy_level >= 1,
                forall|kk: int|
                    0 <= kk < k ==> !reach(
                        rv,
                        #[trigger] self@.edges[kk],
                        name@,
                        (hierarchy_level - 1) as nat,
                    ),
            decreases self.edges.len() - k,
        {
            proof {
                assert(self@.edges[k as int] == self.edges@[k as int]@);
                let i0 = choose|i: int| 0 <= i < rv.len() && #[trigger] rv[i].name == self@.name;
                assert(rv[i0].edges == self@.edges) by {
                    lemma_edges_of_at(rv, i0);
                }
                assert(contains_role(rv, self@.edges[k as int]));
            }
            let j = find_index(all, &self.edges[k]);
            if all[j].has_role(all, name, hierarchy_level - 1) {
                proof {
                    assert(reach(rv, self@.name, name@, hierarchy_level as nat)) by {
                        assert(reach(
                            rv,
                            edges_of(rv, self@.name)[k as int],
                            name@,
                            (hierarchy_level - 1) as nat,
                        ));
                    }
                }
                return true;
            }
            k += 1;
        }
        proof {
            assert(!reach(rv, self@.name, name@, hierarchy_level as nat));
        }
        false
    }

    /// The names of the direct outbound neighbors, in insertion order.
    pub fn get_roles(&self) -> (r: Vec<String>)
        ensures
            r.deep_view() == self@.edges,
    {
        let mut r: Vec<String> = Vec::new();
        let mut i: usize = 0;
        while i < self.edges.len()
            invariant
                i <= self.edges.len(),
                r.deep_view() == self@.edges.take(i as int),
            decreases self.edges.len() - i,
        {
            let ghost pre = r.deep_view();
            r.push(self.edges[i].clone());
            proof {
                assert(r.deep_view() =~= pre.push(self@.edges[i as int]));
                assert(self@.edges.take(i as int + 1) =~= pre.push(self@.edges[i as int]));
            }
            i += 1;
        }
        proof {
            assert(self@.edges.take(self.edges.len() as int) =~= self@.edges);
        }
        r
    }
}

/// The position of the role named `n`, which the caller knows to exist.
fn find_index(all: &Vec<Role>, n: &String) -> (j: usize)
    requires
        contains_role(views_of(all@), n@),
    ensures
        j < all@.len(),
        views_of(all@)[j as int].name == n@,
{
    let mut j: usize = 0;
    while j < all.len()
        invariant
            j <= all@.len(),
            contains_role(views_of(all@), n@),
            forall|k: int| 0 <= k < j ==> #[trigger] views_of(all@)[k].name != n@,
        decreases all@.len() - j,
    {
        if all[j].name == *n {
            proof {
                assert(views_of(all@)[j as int].name == n@);
            }
            return j;
        }
        j += 1;
    }
    proof {
        let i = choose|i: int|
            0 <= i < views_of(all@).len() && #[trigger] views_of(all@)[i].name == n@;
        assert(false);
    }
    0
}

/// `"<domain>::<name>"` when a domain is given, the name itself otherwise.
fn scope_name(name: &str, domain: Option<&str>) -> (r: String)
    ensures
        r@ == full_name(name@, dom_view(domain)),
{
    match domain {
        Option::Some(d) => {
            let r = d.to_owned().concat("::").concat(name);
            proof {
                assert(r@ =~= scoped(d@, name@));
            }
            r
        },
        Option::None => name.to_owned(),
    }
}

/// Whether `name` starts with `"<domain>::"`.
fn scoped_test(name: &String, domain: &str) -> (r: bool)
    ensures
        r == is_scoped(name@, domain@),
{
    let nlen = name.as_str().unicode_len();
    let dlen = domain.unicode_len();
    proof {
        reveal_strlit("::");
        assert(scope_prefix(domain@).len() == dlen + 2);
    }
    if nlen >= 2 && dlen <= nlen - 2 {
        let p = name.as_str().substring_char(0, dlen + 2).to_owned();
        let pref = domain.to_owned().concat("::");
        proof {
            assert(pref@ =~= scope_prefix(domain@));
        }
        p == pref
    } else {
        false
    }
}

/// `name` without its leading `"<domain>::"` when it carries one, and
/// unchanged otherwise.
fn strip_scope(name: &String, domain: &str) -> (r: String)
    ensures
        r@ == strip_one(name@, Option::Some(domain@)),
{
    if scoped_test(name, domain) {
        let nlen = name.as_str().unicode_len();
        let dlen = domain.unicode_len();
        proof {
            reveal_strlit("::");
            assert(scope_prefix(domain@).len() == dlen + 2);
        }
        name.as_str().substring_char(dlen + 2, nlen).to_owned()
    } else {
        name.clone()
    }
}

/// The one failure this library reports: a `delete_link` whose endpoints are
/// not both known.  The payload names both endpoints, already domain-scoped.
#[derive(Debug)]
pub enum RbacError {
    NotFound(String),
}

/// The role manager: owns every role node, answers bounded reachability and
/// neighbor queries, and applies domain scoping at the boundary.
#[derive(Clone)]
pub struct DefaultRoleManager<M: Matcher> {
    roles: Vec<Role>,
    max_hierarchy_level: usize,
    matching_fn: Option<M>,
}

impl<M: Matcher> DefaultRoleManager<M> {
    /// The abstract graph: one view per role, in creation order.
    pub closed spec fn roles_v(&self) -> Seq<RoleView> {
        views_of(self.roles@)
    }

    /// The reachability budget.
    pub closed spec fn depth(&self) -> nat {
        self.max_hierarchy_level as nat
    }

    /// The installed matcher, if any.
    pub closed spec fn matcher(&self) -> Option<M> {
        self.matching_fn
    }

    /// The installed matcher as a predicate on name views.
    pub open spec fn mf(&self) -> Option<spec_fn(Seq<char>, Seq<char>) -> bool> {
        match self.matcher() {
            Option::Some(m) => Option::Some(
                |a: Seq<char>, b: Seq<char>| m.spec_matches(a, b),
            ),
            Option::None => Option::None,
        }
    }

    /// The manager's invariant: a well-formed graph.
    pub open spec fn wf(&self) -> bool {
        graph_wf(self.roles_v())
    }

    /// Matcher-aware membership of a scoped name.
    pub open spec fn spec_has_role(&self, n: Seq<char>) -> bool {
        member(self.roles_v(), n, self.mf())
    }

    /// An empty manager with the given reachability budget and no matcher.
    pub fn new(max_hierarchy_level: usize) -> (r: DefaultRoleManager<M>)
        ensures
            r.wf(),
            r.roles_v() == Seq::<RoleView>::empty(),
            r.depth() == max_hierarchy_level as nat,
            r.matcher() is None,
    {
        let r = DefaultRoleManager { roles: Vec::new(), max_hierarchy_level, matching_fn: None };
        proof {
            assert(r.roles_v() =~= Seq::<RoleView>::empty());
        }
        r
    }

    /// Installs the matching predicate; only later materializations see it.
    pub fn add_matching_fn(&mut self, matching_fn: M)
        ensures
            final(self).roles_v() == old(self).roles_v(),
            final(self).depth() == old(self).depth(),
            final(self).matcher() == Option::Some(matching_fn),
    {
        self.matching_fn = Some(matching_fn);
    }

    /// Discards every role and edge; budget and matcher stay.
    pub fn clear(&mut self)
        ensures
            final(self).wf(),
            final(self).roles_v() == Seq::<RoleView>::empty(),
            final(self).depth() == old(self).depth(),
            final(self).matcher() == old(self).matcher(),
    {
        self.roles = Vec::new();
        proof {
            assert(final(self).roles_v() =~= Seq::<RoleView>::empty());
        }
    }

    /// Materializes the role named `name`: looks it up, creating it when
    /// absent, and — when a matcher is installed — expands its edges to every
    /// other existing role whose name matches.  Returns the role's position.
    pub fn create_role(&mut self, name: &str) -> (idx: usize)
        requires
            old(self).wf(),
        ensures
            final(self).wf(),
            final(self).depth() == old(self).depth(),
            final(self).matcher() == old(self).matcher(),
            idx < final(self).roles_v().len(),
            final(self).roles_v()[idx as int].name == name@,
            materialize_post(old(self).roles_v(), final(self).roles_v(), name@, old(self).mf()),
            old(self).matcher() is None ==> final(self).roles_v() == ensure_node(
                old(self).roles_v(),
                name@,
            ),
    {
        let ghost pre = self.roles_v();
        let key: String = name.to_owned();
        let mut idx: usize = self.roles.len();
        let mut i: usize = 0;
        while i < self.roles.len()
            invariant
                i <= self.roles@.len(),
                *self == *old(self),
                pre == self.roles_v(),
                key@ == name@,
                idx == self.roles@.len() || (idx < i && pre[idx as int].name == name@),
                idx == self.roles@.len() ==> forall|k: int|
                    0 <= k < i ==> #[trigger] pre[k].name != name@,
            decreases self.roles@.len() - i,
        {
            if idx == self.roles.len() && self.roles[i].name == key {
                idx = i;
                proof {
                    assert(pre[i as int].name == name@);
                }
            }
            i += 1;
        }
        if idx == self.roles.len() {
            proof {
                assert(!contains_role(pre, name@));
            }
            self.roles.push(Role::new(name));
            proof {
                assert(self.roles_v() =~~= pre.push(
                    RoleView { name: name@, edges: Seq::<Seq<char>>::empty() },
                ));
            }
        } else {
            proof {
                assert(contains_role(pre, name@));
            }
        }
        let ghost rv1 = self.roles_v();
        proof {
            assert(idx < rv1.len() && rv1[idx as int].name == name@);
            assert(graph_wf(rv1)) by {
                if !contains_role(pre, name@) {
                    assert forall|n: Seq<char>|
                        contains_role(pre, n) implies contains_role(rv1, n) by {
                        let w = choose|w: int| 0 <= w < pre.len() && #[trigger] pre[w].name == n;
                        assert(rv1[w].name == n);
                    }
                    assert forall|i2: int, k: int|
                        0 <= i2 < rv1.len() && 0 <= k < rv1[i2].edges.len() implies contains_role(
                        rv1,
                        #[trigger] rv1[i2].edges[k],
                    ) by {
                        assert(i2 < pre.len());
                        assert(rv1[i2] == pre[i2]);
                        assert(contains_role(pre, pre[i2].edges[k]));
                    }
                }
            }
        }
        let mut matched: Vec<String> = Vec::new();
        match self.matching_fn.as_ref() {
            Some(m) => {
                let mut j: usize = 0;
                while j < self.roles.len()
                    invariant
                        j <= self.roles@.len(),
                        rv1 == self.roles_v(),
                        self.matcher() == Option::Some(*m),
                        self.matcher() == old(self).matcher(),
                        self.depth() == old(self).depth(),
                        graph_wf(rv1),
                        idx < rv1.len(),
                        rv1[idx as int].name == name@,
                        key@ == name@,
                        forall|t: Seq<char>|
                            #[trigger] matched.deep_view().contains(t) ==> (t != name@
                                && contains_role(rv1, t) && m.spec_matches(name@, t)),
                        forall|jj: int|
                            0 <= jj < j && jj != idx && m.spec_matches(
                                name@,
                                #[trigger] rv1[jj].name,
                            ) ==> matched.deep_view().contains(rv1[jj].name),
                    decreases self.roles@.len() - j,
                {
                    if j != idx {
                        if m.matches(name, self.roles[j].name.as_str()) {
                            let ghost prem = matched.deep_view();
                            matched.push(self.roles[j].name.clone());
                            proof {
                                assert(matched.deep_view() =~= prem.push(rv1[j as int].name));
                                assert(rv1[j as int].name != name@);
                                assert(contains_role(rv1, rv1[j as int].name));
                                assert(forall|t: Seq<char>|
                                    #[trigger] matched.deep_view().contains(t) ==> (prem.contains(
                                        t,
                                    ) || t == rv1[j as int].name));
                                assert(forall|jj: int|
                                    0 <= jj < rv1.len() && prem.contains(
                                        #[trigger] rv1[jj].name,
                                    ) ==> matched.deep_view().contains(rv1[jj].name));
                                assert(matched.deep_view().contains(rv1[j as int].name));
                            }
                        }
                    }
                    j += 1;
                }
                proof {
                    match self.mf() {
                        Option::Some(f) => {
                            assert forall|t: Seq<char>| #[trigger]
                                matched.deep_view().contains(t) implies (t != name@
                                && contains_role(rv1, t) && f(name@, t)) by {
                                assert(m.spec_matches(name@, t));
                            }
                            assert forall|jj: int|
                                0 <= jj < rv1.len() && jj != idx && f(
                                    name@,
                                    #[trigger] rv1[jj].name,
                                ) implies matched.deep_view().contains(rv1[jj].name) by {
                                assert(m.spec_matches(name@, rv1[jj].name));
                            }
                            assert(matched_set(
                                matched.deep_view(),
                                rv1,
                                name@,
                                idx as int,
                                self.mf(),
                            ));
                        },
                        Option::None => {
                            assert(false);
                        },
                    }
                }
            },
            None => {
                proof {
                    assert(matched.deep_view() =~= Seq::<Seq<char>>::empty());
                }
            },
        }
        let ghost base = rv1[idx as int].edges;
        let mut k: usize = 0;
        while k < matched.len()
            invariant
                k <= matched@.len(),
                idx < self.roles@.len(),
                self.roles@.len() == rv1.len(),
                self.matcher() == old(self).matcher(),
                self.depth() == old(self).depth(),
                graph_wf(rv1),
                rv1[idx as int].name == name@,
                base == rv1[idx as int].edges,
                matched_set(matched.deep_view(), rv1, name@, idx as int, self.mf()),
                forall|i2: int|
                    0 <= i2 < rv1.len() && i2 != idx ==> self.roles_v()[i2] == rv1[i2],
                self.roles_v()[idx as int].name == name@,
                base.is_prefix_of(self.roles_v()[idx as int].edges),
                role_wf(self.roles_v()[idx as int]),
                forall|e: Seq<char>|
                    #[trigger] self.roles_v()[idx as int].edges.contains(e) <==> (base.contains(e)
                        || matched.deep_view().take(k as int).contains(e)),
                self.mf() is None ==> self.roles_v() == rv1,
            decreases matched@.len() - k,
        {
            let ghost cur = self.roles_v()[idx as int].edges;
            let ghost t = matched.deep_view()[k as int];
            let s = matched[k].clone();
            proof {
                assert(s@ == t);
                assert(matched.deep_view().contains(t));
                assert(self.mf() is Some);
                assert(matched.deep_view().take(k as int + 1) =~= matched.deep_view().take(
                    k as int,
                ).push(t));
            }
            self.roles[idx].add_edge_name(s);
            proof {
                if cur.contains(t) {
                    assert(self.roles_v()[idx as int].edges == cur);
                } else {
                    assert(self.roles_v()[idx as int].edges == cur.push(t));
                    assert(base.is_prefix_of(cur.push(t))) by {
                        assert(cur.push(t).subrange(0, base.len() as int) =~= cur.subrange(
                            0,
                            base.len() as int,
                        ));
                    }
                    assert(role_wf(self.roles_v()[idx as int]));
                }
                assert(forall|e: Seq<char>|
                    #[trigger] self.roles_v()[idx as int].edges.contains(e) <==> (cur.contains(e)
                        || e == t));
            }
            k += 1;
        }
        proof {
            let rvf = self.roles_v();
            assert(matched.deep_view().take(matched@.len() as int) =~= matched.deep_view());
            assert(forall|i2: int| 0 <= i2 < rv1.len() ==> #[trigger] rvf[i2].name == rv1[i2].name);
            assert forall|n: Seq<char>|
                contains_role(rv1, n) == contains_role(rvf, n) by {
                if contains_role(rv1, n) {
                    let w = choose|w: int| 0 <= w < rv1.len() && #[trigger] rv1[w].name == n;
                    assert(rvf[w].name == n);
                }
                if contains_role(rvf, n) {
                    let w = choose|w: int| 0 <= w < rvf.len() && #[trigger] rvf[w].name == n;
                    assert(rv1[w].name == n);
                }
            }
            assert(graph_wf(rvf)) by {
                assert(rvf.len() == rv1.len());
                assert forall|i2: int, j2: int|
                    0 <= i2 < j2 < rvf.len() implies #[trigger] rvf[i2].name != #[trigger] rvf[
                    j2
                ].name by {
                    assert(rvf[i2].name == rv1[i2].name);
                    assert(rvf[j2].name == rv1[j2].name);
                }
                assert forall|i2: int| 0 <= i2 < rvf.len() implies role_wf(#[trigger] rvf[i2]) by {
                    if i2 != idx {
                        assert(rvf[i2] == rv1[i2]);
                    }
                }
                assert(forall|i2: int, k2: int|
                    0 <= i2 < rvf.len() && 0 <= k2 < rvf[i2].edges.len() ==> contains_role(
                        rvf,
                        #[trigger] rvf[i2].edges[k2],
                    )) by {
                    assert forall|i2: int, k2: int|
                        0 <= i2 < rvf.len() && 0 <= k2 < rvf[i2].edges.len() implies contains_role(
                        rvf,
                        rvf[i2].edges[k2],
                    ) by {
                        let e = rvf[i2].edges[k2];
                        if i2 != idx {
                            assert(rvf[i2] == rv1[i2]);
                            assert(rv1[i2].edges[k2] == e);
                            assert(contains_role(rv1, e));
                        } else {
                            assert(rvf[idx as int].edges.contains(e));
                            assert(base.contains(e) || matched.deep_view().contains(e));
                            if base.contains(e) {
                                assert(contains_role(rv1, e));
                            }
                        }
                    }
                }
            }
            lemma_edges_of_at(rvf, idx as int);
            if contains_role(pre, name@) {
                lemma_edges_of_at(pre, idx as int);
            }
            assert(materialize_post(pre, rvf, name@, old(self).mf())) by {
                let basep = if contains_role(pre, name@) {
                    edges_of(pre, name@)
                } else {
                    Seq::<Seq<char>>::empty()
                };
                assert(basep == base);
                assert forall|i2: int|
                    0 <= i2 < pre.len() && pre[i2].name != name@ implies #[trigger] rvf[i2]
                    == pre[i2] by {
                    assert(i2 != idx);
                    assert(rv1[i2] == pre[i2]);
                }
                match old(self).mf() {
                    Option::Some(f) => {
                        assert forall|e: Seq<char>| #[trigger]
                            edges_of(rvf, name@).contains(e) implies (basep.contains(e) || (e
                            != name@ && contains_role(pre, e) && f(name@, e))) by {
                            if !basep.contains(e) {
                                assert(matched.deep_view().contains(e));
                                assert(e != name@ && contains_role(rv1, e) && f(name@, e));
                                let w = choose|w: int|
                                    0 <= w < rv1.len() && #[trigger] rv1[w].name == e;
                                assert(w < pre.len());
                                assert(contains_role(pre, e));
                            }
                        }
                        assert forall|e: Seq<char>|
                            basep.contains(e) || (e != name@ && contains_role(pre, e) && f(
                                name@,
                                e,
                            )) implies #[trigger] edges_of(rvf, name@).contains(e) by {
                            if !basep.contains(e) {
                                let w = choose|w: int|
                                    0 <= w < pre.len() && #[trigger] pre[w].name == e;
                                assert(rv1[w].name == e);
                                assert(w != idx);
                                assert(matched.deep_view().contains(e));
                            }
                        }
                    },
                    Option::None => {
                        assert(edges_of(rvf, name@) == base);
                    },
                }
            }
            if old(self).matcher() is None {
                assert(rvf == rv1);
                assert(rvf =~~= ensure_node(pre, name@));
            }
        }
        idx
    }

    /// Materializes both (scoped) endpoints and adds the directed edge
    /// `name1 -> name2`; a duplicate edge is silently dropped.
    pub fn add_link(&mut self, name1: &str, name2: &str, domain: Option<&str>)
        requires
            old(self).wf(),
        ensures
            final(self).wf(),
            final(self).depth() == old(self).depth(),
            final(self).matcher() == old(self).matcher(),
            ({
                let f1 = full_name(name1@, dom_view(domain));
                let f2 = full_name(name2@, dom_view(domain));
                &&& contains_role(final(self).roles_v(), f1)
                &&& contains_role(final(self).roles_v(), f2)
                &&& edges_of(final(self).roles_v(), f1).contains(f2)
                &&& exists|mid1: Seq<RoleView>, mid2: Seq<RoleView>|
                    {
                        &&& #[trigger] materialize_post(
                            old(self).roles_v(),
                            mid1,
                            f1,
                            old(self).mf(),
                        )
                        &&& #[trigger] materialize_post(mid1, mid2, f2, old(self).mf())
                        &&& final(self).roles_v() == with_edge(mid2, f1, f2)
                    }
                &&& old(self).matcher() is None ==> final(self).roles_v() == with_edge(
                    ensure_node(ensure_node(old(self).roles_v(), f1), f2),
                    f1,
                    f2,
                )
            }),
    {
        let ghost pre = self.roles_v();
        let n1 = scope_name(name1, domain);
        let n2 = scope_name(name2, domain);
        let i1 = self.create_role(n1.as_str());
        let ghost rs1 = self.roles_v();
        let i2 = self.create_role(n2.as_str());
        let ghost rs2 = self.roles_v();
        let ghost f1 = full_name(name1@, dom_view(domain));
        let ghost f2 = full_name(name2@, dom_view(domain));
        proof {
            assert(i1 < rs2.len() && rs2[i1 as int].name == f1);
        }
        let target = self.roles[i2].name.clone();
        proof {
            assert(target@ == f2);
        }
        self.roles[i1].add_edge_name(target);
        proof {
            let rvf = self.roles_v();
            assert(forall|i: int|
                0 <= i < rs2.len() && i != i1 ==> #[trigger] rvf[i] == rs2[i]);
            assert(rvf.len() == rs2.len());
            assert(contains_role(rs2, f2));
            lemma_with_edge_wf(rs2, f1, f2);
            assert(rvf =~~= with_edge(rs2, f1, f2)) by {
                let we = with_edge(rs2, f1, f2);
                assert forall|i: int| 0 <= i < rs2.len() implies rvf[i] =~~= we[i] by {
                    if i == i1 {
                        if rs2[i1 as int].edges.contains(f2) {
                            assert(rvf[i] == rs2[i]);
                            assert(we[i] == rs2[i]);
                        } else {
                            assert(rvf[i].edges == rs2[i].edges.push(f2));
                            assert(we[i].edges == rs2[i].edges.push(f2));
                        }
                    } else {
                        assert(rs2[i].name != f1);
                        assert(we[i] == rs2[i]);
                    }
                }
            }
            assert(contains_role(rvf, f1)) by {
                assert(rvf[i1 as int].name == f1);
            }
            assert(contains_role(rvf, f2)) by {
                let w = choose|w: int| 0 <= w < rs2.len() && #[trigger] rs2[w].name == f2;
                assert(rvf[w].name == f2);
            }
            assert(materialize_post(pre, rs1, f1, old(self).mf()));
            assert(materialize_post(rs1, rs2, f2, old(self).mf()));
            if old(self).matcher() is None {
                assert(rs1 == ensure_node(pre, f1));
                assert(rs2 == ensure_node(rs1, f2));
            }
        }
    }

    /// Deletes the directed edge `name1 -> name2` between the scoped
    /// endpoints.  Fails when either endpoint is unknown under the
    /// matcher-aware membership test; deleting an absent edge is a no-op.
    /// Materialization still runs on both endpoints, so a matcher may grow
    /// their edge sets.
    pub fn delete_link(&mut self, name1: &str, name2: &str, domain: Option<&str>) -> (r: Result<
        (),
        RbacError,
    >)
        requires
            old(self).wf(),
        ensures
            final(self).wf(),
            final(self).depth() == old(self).depth(),
            final(self).matcher() == old(self).matcher(),
            ({
                let f1 = full_name(name1@, dom_view(domain));
                let f2 = full_name(name2@, dom_view(domain));
                &&& r is Err <==> !(old(self).spec_has_role(f1) && old(self).spec_has_role(f2))
                &&& r is Err ==> final(self).roles_v() == old(self).roles_v()
                &&& r is Ok ==> !edges_of(final(self).roles_v(), f1).contains(f2)
                &&& r is Ok ==> exists|mid1: Seq<RoleView>, mid2: Seq<RoleView>|
                    {
                        &&& #[trigger] materialize_post(
                            old(self).roles_v(),
                            mid1,
                            f1,
                            old(self).mf(),
                        )
                        &&& #[trigger] materialize_post(mid1, mid2, f2, old(self).mf())
                        &&& final(self).roles_v() == without_edge(mid2, f1, f2)
                    }
                &&& (r is Ok && old(self).matcher() is None) ==> final(self).roles_v()
                    == without_edge(old(self).roles_v(), f1, f2)
            }),
    {
        let ghost pre = self.roles_v();
        let n1 = scope_name(name1, domain);
        let n2 = scope_name(name2, domain);
        let ghost f1 = full_name(name1@, dom_view(domain));
        let ghost f2 = full_name(name2@, dom_view(domain));
        if !self.has_role(n1.as_str()) || !self.has_role(n2.as_str()) {
            let msg = n1.concat(" OR ").concat(n2.as_str());
            return Result::Err(RbacError::NotFound(msg));
        }
        let i1 = self.create_role(n1.as_str());
        let ghost rs1 = self.roles_v();
        let i2 = self.create_role(n2.as_str());
        let ghost rs2 = self.roles_v();
        proof {
            assert(i1 < rs2.len() && rs2[i1 as int].name == f1);
        }
        let target = self.roles[i2].name.clone();
        proof {
            assert(target@ == f2);
        }
        self.roles[i1].remove_edge_name(&target);
        proof {
            let rvf = self.roles_v();
            assert(forall|i: int|
                0 <= i < rs2.len() && i != i1 ==> #[trigger] rvf[i] == rs2[i]);
            lemma_without_edge_wf(rs2, f1, f2);
            assert(rvf =~~= without_edge(rs2, f1, f2)) by {
                let we = without_edge(rs2, f1, f2);
                assert forall|i: int| 0 <= i < rs2.len() implies rvf[i] =~~= we[i] by {
                    if i == i1 {
                        assert(rvf[i].edges == remove_name(rs2[i].edges, f2));
                        assert(we[i].edges == remove_name(rs2[i].edges, f2));
                    } else {
                        assert(rs2[i].name != f1);
                        assert(we[i] == rs2[i]);
                    }
                }
            }
            assert(materialize_post(pre, rs1, f1, old(self).mf()));
            assert(materialize_post(rs1, rs2, f2, old(self).mf()));
            if old(self).matcher() is None {
                assert(rs1 == ensure_node(pre, f1));
                assert(rs2 == ensure_node(rs1, f2));
            }
        }
        Result::Ok(())
    }

    /// Whether `name2` is reachable from `name1` within the configured
    /// budget, under the optional domain.  Equal names answer `true` at
    /// once; otherwise both scoped endpoints must pass the membership test,
    /// and `name1` is materialized before the bounded search runs.
    pub fn has_link(&mut self, name1: &str, name2: &str, domain: Option<&str>) -> (r: bool)
        requires
            old(self).wf(),
        ensures
            final(self).wf(),
            final(self).depth() == old(self).depth(),
            final(self).matcher() == old(self).matcher(),
            name1@ == name2@ ==> r && final(self).roles_v() == old(self).roles_v(),
            ({
                let f1 = full_name(name1@, dom_view(domain));
                let f2 = full_name(name2@, dom_view(domain));
                &&& (name1@ != name2@ && !(old(self).spec_has_role(f1) && old(self).spec_has_role(
                    f2,
                ))) ==> (!r && final(self).roles_v() == old(self).roles_v())
                &&& (name1@ != name2@ && old(self).spec_has_role(f1) && old(self).spec_has_role(
                    f2,
                )) ==> (materialize_post(old(self).roles_v(), final(self).roles_v(), f1, old(
                    self,
                ).mf()) && r == reach(final(self).roles_v(), f1, f2, old(self).depth()))
            }),
            old(self).matcher() is None ==> (final(self).roles_v() == old(self).roles_v() && r
                == has_link_spec(
                old(self).roles_v(),
                name1@,
                name2@,
                dom_view(domain),
                old(self).depth(),
            )),
    {
        let s1: String = name1.to_owned();
        let s2: String = name2.to_owned();
        if s1 == s2 {
            return true;
        }
        let n1 = scope_name(name1, domain);
        let n2 = scope_name(name2, domain);
        let ghost f1 = full_name(name1@, dom_view(domain));
        let ghost f2 = full_name(name2@, dom_view(domain));
        if !self.has_role(n1.as_str()) || !self.has_role(n2.as_str()) {
            proof {
                if old(self).matcher() is None {
                    assert(!(contains_role(self.roles_v(), f1) && contains_role(
                        self.roles_v(),
                        f2,
                    )));
                }
            }
            return false;
        }
        let i1 = self.create_role(n1.as_str());
        let ghost rvf = self.roles_v();
        proof {
            assert(i1 < rvf.len() && rvf[i1 as int].name == f1);
            assert(exists|i: int| 0 <= i < self.roles@.len() && #[trigger] self.roles@[i]@ == self.roles@[i1 as int]@);
        }
        let r = self.roles[i1].has_role(&self.roles, n2.as_str(), self.max_hierarchy_level);
        proof {
            if old(self).matcher() is None {
                assert(rvf == ensure_node(old(self).roles_v(), f1));
                assert(contains_role(old(self).roles_v(), f1));
                assert(rvf == old(self).roles_v());
            }
        }
        r
    }

    /// The direct outbound neighbors of the scoped `name`, in edge insertion
    /// order; empty when the node is unknown.  Under a domain, each returned
    /// name is stripped of the `"<domain>::"` prefix it carries.  The queried
    /// node is materialized, so a matcher may grow the graph.
    pub fn get_roles(&mut self, name: &str, domain: Option<&str>) -> (r: Vec<String>)
        requires
            old(self).wf(),
        ensures
            final(self).wf(),
            final(self).depth() == old(self).depth(),
            final(self).matcher() == old(self).matcher(),
            ({
                let f = full_name(name@, dom_view(domain));
                &&& !old(self).spec_has_role(f) ==> (r.deep_view() == Seq::<Seq<char>>::empty()
                    && final(self).roles_v() == old(self).roles_v())
                &&& old(self).spec_has_role(f) ==> (materialize_post(
                    old(self).roles_v(),
                    final(self).roles_v(),
                    f,
                    old(self).mf(),
                ) && r.deep_view() == edges_of(final(self).roles_v(), f).map_values(
                    |e: Seq<char>| strip_one(e, dom_view(domain)),
                ))
            }),
            old(self).matcher() is None ==> (final(self).roles_v() == old(self).roles_v()
                && r.deep_view() == get_roles_spec(old(self).roles_v(), name@, dom_view(domain))),
    {
        let n = scope_name(name, domain);
        let ghost f = full_name(name@, dom_view(domain));
        if !self.has_role(n.as_str()) {
            let r: Vec<String> = Vec::new();
            proof {
                assert(r.deep_view() =~= Seq::<Seq<char>>::empty());
            }
            return r;
        }
        let idx = self.create_role(n.as_str());
        let ghost rvf = self.roles_v();
        let edges = self.roles[idx].get_roles();
        proof {
            lemma_edges_of_at(rvf, idx as int);
            assert(edges.deep_view() == edges_of(rvf, f));
            if old(self).matcher() is None {
                assert(rvf == ensure_node(old(self).roles_v(), f));
                assert(contains_role(old(self).roles_v(), f));
                assert(rvf == old(self).roles_v());
            }
        }
        match domain {
            Option::None => {
                proof {
                    assert(edges.deep_view() =~= edges.deep_view().map_values(
                        |e: Seq<char>| strip_one(e, dom_view(domain)),
                    ));
                }
                edges
            },
            Option::Some(d) => {
                let ghost g = |e: Seq<char>| strip_one(e, dom_view(domain));
                let mut out: Vec<String> = Vec::new();
                let mut k: usize = 0;
                proof {
                    assert(out.deep_view() =~= edges.deep_view().take(0).map_values(g));
                }
                while k < edges.len()
                    invariant
                        k <= edges@.len(),
                        g == (|e: Seq<char>| strip_one(e, dom_view(domain))),
                        dom_view(domain) == Option::Some(d@),
                        out.deep_view() == edges.deep_view().take(k as int).map_values(g),
                    decreases edges@.len() - k,
                {
                    let ghost preo = out.deep_view();
                    let ghost e = edges.deep_view()[k as int];
                    proof {
                        assert(edges@[k as int]@ == e);
                    }
                    out.push(strip_scope(&edges[k], d));
                    proof {
                        assert(out.deep_view() =~= preo.push(g(e)));
                        assert(edges.deep_view().take(k as int + 1).map_values(g) =~= preo.push(
                            g(e),
                        ));
                    }
                    k += 1;
                }
                proof {
                    assert(edges.deep_view().take(edges@.len() as int) =~= edges.deep_view());
                }
                out
            },
        }
    }

    /// The names of every role holding a direct edge to the scoped `name`,
    /// in creation order; empty when the node is unknown.  Under a domain,
    /// only names carrying the `"<domain>::"` prefix are returned, each with
    /// the prefix stripped.  Never mutates the graph.
    pub fn get_users(&self, name: &str, domain: Option<&str>) -> (r: Vec<String>)
        requires
            self.wf(),
        ensures
            ({
                let f = full_name(name@, dom_view(domain));
                &&& !self.spec_has_role(f) ==> r.deep_view() == Seq::<Seq<char>>::empty()
                &&& self.spec_has_role(f) ==> r.deep_view() == strip_filtered(
                    users_in(self.roles_v(), f),
                    dom_view(domain),
                )
            }),
            self.matcher() is None ==> r.deep_view() == get_users_spec(
                self.roles_v(),
                name@,
                dom_view(domain),
            ),
    {
        let n = scope_name(name, domain);
        let ghost f = full_name(name@, dom_view(domain));
        if !self.has_role(n.as_str()) {
            let r: Vec<String> = Vec::new();
            proof {
                assert(r.deep_view() =~= Seq::<Seq<char>>::empty());
            }
            return r;
        }
        let ghost rv = self.roles_v();
        let mut out: Vec<String> = Vec::new();
        let mut j: usize = 0;
        proof {
            assert(rv.take(0) =~= Seq::<RoleView>::empty());
            assert(out.deep_view() =~= strip_filtered(users_in(rv.take(0), f), dom_view(domain)));
        }
        while j < self.roles.len()
            invariant
                j <= self.roles@.len(),
                rv == self.roles_v(),
                n@ == f,
                out.deep_view() == strip_filtered(users_in(rv.take(j as int), f), dom_view(domain)),
            decreases self.roles@.len() - j,
        {
            proof {
                assert(rv.take(j as int + 1).drop_last() =~= rv.take(j as int));
                assert(rv.take(j as int + 1).last() == rv[j as int]);
            }
            let ghost users_now = users_in(rv.take(j as int), f);
            if self.roles[j].has_direct_role(n.as_str()) {
                proof {
                    assert(rv[j as int].edges.contains(f));
                    assert(users_in(rv.take(j as int + 1), f) == users_now + seq![
                        rv[j as int].name,
                    ]);
                }
                match domain {
                    Option::None => {
                        let ghost preo = out.deep_view();
                        out.push(self.roles[j].name.clone());
                        proof {
                            assert(out.deep_view() =~= preo.push(rv[j as int].name));
                            assert(users_now + seq![rv[j as int].name] =~= users_now.push(
                                rv[j as int].name,
                            ));
                        }
                    },
                    Option::Some(d) => {
                        let ghost names1 = users_now + seq![rv[j as int].name];
                        proof {
                            assert(names1.drop_last() =~= users_now);
                            assert(names1.last() == rv[j as int].name);
                        }
                        if scoped_test(&self.roles[j].name, d) {
                            let ghost preo = out.deep_view();
                            out.push(strip_scope(&self.roles[j].name, d));
                            proof {
                                assert(is_scoped(rv[j as int].name, d@));
                                assert(strip_one(rv[j as int].name, Option::Some(d@)) == rv[
                                    j as int
                                ].name.subrange(
                                    scope_prefix(d@).len() as int,
                                    rv[j as int].name.len() as int,
                                ));
                                assert(out.deep_view() =~= preo.push(
                                    strip_one(rv[j as int].name, Option::Some(d@)),
                                ));
                                assert(strip_filtered(names1, dom_view(domain)) =~= preo.push(
                                    strip_one(rv[j as int].name, Option::Some(d@)),
                                ));
                            }
                        } else {
                            proof {
                                assert(strip_filtered(names1, dom_view(domain)) =~= out.deep_view());
                            }
                        }
                    },
                }
            } else {
                proof {
                    assert(!rv[j as int].edges.contains(f));
                    assert(users_in(rv.take(j as int + 1), f) =~= users_now);
                }
            }
            j += 1;
        }
        proof {
            assert(rv.take(self.roles@.len() as int) =~= rv);
        }
        out
    }

    /// Matcher-aware membership: exact containment without a matcher, "some
    /// indexed name matches" with one.
    pub fn has_role(&self, name: &str) -> (r: bool)
        ensures
            r == self.spec_has_role(name@),
    {
        match self.matching_fn.as_ref() {
            Some(m) => {
                let mut j: usize = 0;
                while j < self.roles.len()
                    invariant
                        j <= self.roles@.len(),
                        self.matcher() == Option::Some(*m),
                        forall|k: int|
                            0 <= k < j ==> !m.spec_matches(
                                name@,
                                #[trigger] views_of(self.roles@)[k].name,
                            ),
                    decreases self.roles@.len() - j,
                {
                    if m.matches(name, self.roles[j].name.as_str()) {
                        proof {
                            let rv = views_of(self.roles@);
                            assert(rv[j as int].name == self.roles@[j as int]@.name);
                            match self.mf() {
                                Option::Some(f) => {
                                    assert(f(name@, rv[j as int].name));
                                    assert(member(rv, name@, self.mf()));
                                },
                                Option::None => {
                                    assert(false);
                                },
                            }
                        }
                        return true;
                    }
                    j += 1;
                }
                proof {
                    let rv = views_of(self.roles@);
                    match self.mf() {
                        Option::Some(f) => {
                            assert forall|i: int| 0 <= i < rv.len() implies !f(
                                name@,
                                #[trigger] rv[i].name,
                            ) by {
                                assert(!m.spec_matches(name@, rv[i].name));
                            }
                            assert(!member(rv, name@, self.mf()));
                        },
                        Option::None => {
                            assert(false);
                        },
                    }
                }
                false
            },
            None => {
                let key: String = name.to_owned();
                let mut j: usize = 0;
                while j < self.roles.len()
                    invariant
                        j <= self.roles@.len(),
                        self.matcher() is None,
                        key@ == name@,
                        forall|k: int|
                            0 <= k < j ==> #[trigger] views_of(self.roles@)[k].name != name@,
                    decreases self.roles@.len() - j,
                {
                    if self.roles[j].name == key {
                        proof {
                            assert(views_of(self.roles@)[j as int].name == name@);
                            assert(member(views_of(self.roles@), name@, self.mf()));
                        }
                        return true;
                    }
                    j += 1;
                }
                false
            },
        }
    }
}

} // verus!
