//! The query-tree index: a parent map and a column-provider map derived from
//! one traversal of a plan tree, with ancestor queries and correlation
//! discovery built on them.

use crate::plan::{
    cols_set, has_node_id, ids_uniq, plan_id, table_cols, Column, ColumnV, NodeId, PlanV, RelNode,
};
use vstd::prelude::*;

verus! {

/// The parent a parent map assigns to a node: the first entry for it.
pub open spec fn pm_get(s: Seq<(NodeId, NodeId)>, c: int) -> Option<int>
    decreases s.len(),
{
    if s.len() == 0 {
        None
    } else if s[0].0 as int == c {
        Some(s[0].1 as int)
    } else {
        pm_get(s.drop_first(), c)
    }
}

pub proof fn lemma_pm_get_entry(s: Seq<(NodeId, NodeId)>, c: int)
    requires
        pm_get(s, c) is Some,
    ensures
        exists|k: int| #![auto]
            0 <= k < s.len() && s[k].0 as int == c && s[k].1 as int == pm_get(s, c)->Some_0,
    decreases s.len(),
{
    if s.len() > 0 {
        if s[0].0 as int == c {
            assert(s[0].0 as int == c && s[0].1 as int == pm_get(s, c)->Some_0);
        } else {
            lemma_pm_get_entry(s.drop_first(), c);
            let k = choose|k: int| #![auto]
                0 <= k < s.drop_first().len() && s.drop_first()[k].0 as int == c
                    && s.drop_first()[k].1 as int == pm_get(s.drop_first(), c)->Some_0;
            assert(s[k + 1].0 as int == c && s[k + 1].1 as int == pm_get(s, c)->Some_0);
        }
    }
}

/// The provider a provider map assigns to a column: the first entry for it.
pub open spec fn prov_get(s: Seq<(Column, NodeId)>, c: ColumnV) -> Option<int>
    decreases s.len(),
{
    if s.len() == 0 {
        None
    } else if s[0].0@ == c {
        Some(s[0].1 as int)
    } else {
        prov_get(s.drop_first(), c)
    }
}

/// Ancestor-or-self reachability through the parent map in a bounded number
/// of steps.
pub open spec fn anc_fuel(s: Seq<(NodeId, NodeId)>, a: int, x: int, fuel: nat) -> bool
    decreases fuel,
{
    x == a || (fuel > 0 && match pm_get(s, x) {
        Some(p) => anc_fuel(s, a, p, (fuel - 1) as nat),
        None => false,
    })
}

/// `a` is an ancestor of `x`, or `x` itself, through the parent map.
pub open spec fn is_anc(s: Seq<(NodeId, NodeId)>, a: int, x: int) -> bool {
    exists|fuel: nat| anc_fuel(s, a, x, fuel)
}

proof fn lemma_anc_fuel_trans(s: Seq<(NodeId, NodeId)>, a: int, b: int, c: int, fuel: nat)
    requires
        is_anc(s, a, b),
        anc_fuel(s, b, c, fuel),
    ensures
        is_anc(s, a, c),
    decreases fuel,
{
    if c == b {
    } else {
        let p = pm_get(s, c)->Some_0;
        lemma_anc_fuel_trans(s, a, b, p, (fuel - 1) as nat);
        let f2 = choose|f2: nat| anc_fuel(s, a, p, f2);
        assert(anc_fuel(s, a, c, f2 + 1));
    }
}

/// Ancestry is transitive.
pub proof fn lemma_anc_trans(s: Seq<(NodeId, NodeId)>, a: int, b: int, c: int)
    requires
        is_anc(s, a, b),
        is_anc(s, b, c),
    ensures
        is_anc(s, a, c),
{
    let fuel = choose|fuel: nat| anc_fuel(s, b, c, fuel);
    lemma_anc_fuel_trans(s, a, b, c, fuel);
}

pub proof fn lemma_anc_step(s: Seq<(NodeId, NodeId)>, a: int, x: int, p: int)
    requires
        pm_get(s, x) == Some(p),
        x != a,
    ensures
        is_anc(s, a, x) <==> is_anc(s, a, p),
{
    if is_anc(s, a, x) {
        let fuel = choose|fuel: nat| anc_fuel(s, a, x, fuel);
        assert(anc_fuel(s, a, p, (fuel - 1) as nat));
    }
    if is_anc(s, a, p) {
        let fuel = choose|fuel: nat| anc_fuel(s, a, p, fuel);
        assert(anc_fuel(s, a, x, fuel + 1));
    }
}

/// Every parent entry steps to a strictly smaller depth: ancestor walks
/// terminate.
pub open spec fn wf_pm(s: Seq<(NodeId, NodeId)>, dm: Map<int, nat>) -> bool {
    forall|k: int| #![auto]
        0 <= k < s.len() ==> dm.dom().contains(s[k].0 as int) && dm.dom().contains(
            s[k].1 as int,
        ) && dm[s[k].1 as int] < dm[s[k].0 as int]
}

/// A column a node itself introduces: base columns of a table leaf, computed
/// columns of a projection, keys and aggregate outputs of a grouping.
pub open spec fn own_cols(n: PlanV) -> Set<ColumnV> {
    match n {
        PlanV::Table { name, columns, .. } => table_cols(name, columns),
        PlanV::Project { mappings, .. } => crate::plan::mapping_keys(mappings),
        PlanV::GroupBy { keys, aggregates, .. } => crate::plan::colv_set(keys).union(
            crate::plan::mapping_keys(aggregates),
        ),
        _ => Set::empty(),
    }
}


} // verus!

verus! {

/// Some node of the tree with the given id introduces the column.
pub open spec fn introduces(n: PlanV, id: int, c: ColumnV) -> bool
    decreases n,
{
    (plan_id(n) == id && own_cols(n).contains(c)) || match n {
        PlanV::Table { .. } => false,
        PlanV::Select { input, .. } => introduces(*input, id, c),
        PlanV::Project { input, .. } => introduces(*input, id, c),
        PlanV::GroupBy { input, .. } => introduces(*input, id, c),
        PlanV::Join { left, right, .. } => introduces(*left, id, c) || introduces(*right, id, c),
    }
}

/// The id of the parent of the node carrying the given id, when the tree
/// holds such a node below its root.
pub open spec fn parent_in(n: PlanV, x: int) -> Option<int>
    decreases n,
{
    match n {
        PlanV::Table { .. } => None,
        PlanV::Select { id, input, .. } => if plan_id(*input) == x {
            Some(id)
        } else {
            parent_in(*input, x)
        },
        PlanV::Project { id, input, .. } => if plan_id(*input) == x {
            Some(id)
        } else {
            parent_in(*input, x)
        },
        PlanV::GroupBy { id, input, .. } => if plan_id(*input) == x {
            Some(id)
        } else {
            parent_in(*input, x)
        },
        PlanV::Join { id, left, right, .. } => if plan_id(*left) == x || plan_id(*right) == x {
            Some(id)
        } else if has_node_id(*left, x) {
            parent_in(*left, x)
        } else {
            parent_in(*right, x)
        },
    }
}

pub proof fn lemma_pm_get_append(a: Seq<(NodeId, NodeId)>, b: Seq<(NodeId, NodeId)>, c: int)
    ensures
        pm_get(a + b, c) == if pm_get(a, c) is Some {
            pm_get(a, c)
        } else {
            pm_get(b, c)
        },
    decreases a.len(),
{
    if a.len() == 0 {
        assert(a + b =~= b);
    } else {
        assert((a + b).drop_first() =~= a.drop_first() + b);
        lemma_pm_get_append(a.drop_first(), b, c);
    }
}

pub proof fn lemma_prov_get_append(a: Seq<(Column, NodeId)>, b: Seq<(Column, NodeId)>, c: ColumnV)
    ensures
        prov_get(a + b, c) == if prov_get(a, c) is Some {
            prov_get(a, c)
        } else {
            prov_get(b, c)
        },
    decreases a.len(),
{
    if a.len() == 0 {
        assert(a + b =~= b);
    } else {
        assert((a + b).drop_first() =~= a.drop_first() + b);
        lemma_prov_get_append(a.drop_first(), b, c);
    }
}

pub proof fn lemma_pm_get_none(s: Seq<(NodeId, NodeId)>, c: int)
    requires
        forall|k: int| 0 <= k < s.len() ==> (#[trigger] s[k]).0 as int != c,
    ensures
        pm_get(s, c) is None,
    decreases s.len(),
{
    if s.len() > 0 {
        lemma_pm_get_none(s.drop_first(), c);
    }
}

pub proof fn lemma_prov_entry_some(s: Seq<(Column, NodeId)>, c: ColumnV)
    requires
        exists|k: int| 0 <= k < s.len() && (#[trigger] s[k]).0@ == c,
    ensures
        prov_get(s, c) is Some,
    decreases s.len(),
{
    if s[0].0@ != c {
        let k = choose|k: int| 0 <= k < s.len() && (#[trigger] s[k]).0@ == c;
        assert(s.drop_first()[k - 1].0@ == c);
        lemma_prov_entry_some(s.drop_first(), c);
    }
}

/// An append-only extension preserves the lookups that already succeed, and
/// adds lookups for its own keys.
pub proof fn lemma_prov_get_extend(s: Seq<(Column, NodeId)>, t: Seq<(Column, NodeId)>, c: ColumnV)
    requires
        s.len() <= t.len(),
        forall|k: int| 0 <= k < s.len() ==> t[k] == s[k],
        prov_get(s, c) is Some,
    ensures
        prov_get(t, c) == prov_get(s, c),
    decreases s.len(),
{
    assert(t =~= s + t.skip(s.len() as int));
    lemma_prov_get_append(s, t.skip(s.len() as int), c);
}

/// Every node below the root has a parent in the tree: together with a
/// consistent index, every non-root id resolves to its parent.

pub proof fn lemma_parent_in_some(n: PlanV, x: int)
    requires
        has_node_id(n, x),
        x != plan_id(n),
    ensures
        parent_in(n, x) is Some,
    decreases n,
{
    match n {
        PlanV::Table { .. } => {},
        PlanV::Select { input, .. } => {
            if plan_id(*input) != x {
                lemma_parent_in_some(*input, x);
            }
        },
        PlanV::Project { input, .. } => {
            if plan_id(*input) != x {
                lemma_parent_in_some(*input, x);
            }
        },
        PlanV::GroupBy { input, .. } => {
            if plan_id(*input) != x {
                lemma_parent_in_some(*input, x);
            }
        },
        PlanV::Join { left, right, .. } => {
            if plan_id(*left) != x && plan_id(*right) != x {
                if has_node_id(*left, x) {
                    lemma_parent_in_some(*left, x);
                } else {
                    lemma_parent_in_some(*right, x);
                }
            }
        },
    }
}

/// The plan tree wrapped with its auxiliary indices: node-id to parent-id,
/// and column to producing-node-id, built by one traversal.
pub struct QueryTree {
    pub root: RelNode,
    pub parent: Vec<(NodeId, NodeId)>,
    pub providers: Vec<(Column, NodeId)>,
    pub depth: Ghost<Map<int, nat>>,
}

impl QueryTree {
    /// The parent index steps to strictly smaller depths, so ancestor walks
    /// terminate.
    pub open spec fn wf(self) -> bool {
        wf_pm(self.parent@, self.depth@)
    }

    /// The indices hold exactly the tree: the parent index is the tree's
    /// parent relation (nothing for the root), and the provider index names
    /// an introducing node for a column exactly when the tree has one.
    pub open spec fn index_consistent(self) -> bool {
        &&& pm_get(self.parent@, plan_id(self.root@)) is None
        &&& forall|x: int| #![auto]
            has_node_id(self.root@, x) && x != plan_id(self.root@) ==> pm_get(self.parent@, x)
                == parent_in(self.root@, x)
        &&& forall|x: int| #![auto]
            !has_node_id(self.root@, x) ==> pm_get(self.parent@, x) is None
        &&& forall|k: int| #![auto]
            0 <= k < self.providers@.len() ==> introduces(
                self.root@,
                self.providers@[k].1 as int,
                self.providers@[k].0@,
            )
        &&& forall|i: int, c: ColumnV| #![auto]
            introduces(self.root@, i, c) ==> prov_get(self.providers@, c) is Some
    }

    /// Record the columns this node itself introduces.
    #[verifier::loop_isolation(false)]
    fn collect_column_providers(node: &RelNode, prov: &mut Vec<(Column, NodeId)>)
        ensures
            old(prov)@.len() <= final(prov)@.len(),
            forall|k: int| 0 <= k < old(prov)@.len() ==> final(prov)@[k] == old(prov)@[k],
            forall|k: int| #![auto]
                old(prov)@.len() <= k < final(prov)@.len() ==> final(prov)@[k].1 as int == plan_id(
                    node@,
                ) && own_cols(node@).contains(final(prov)@[k].0@),
            forall|c: ColumnV| #![auto]
                own_cols(node@).contains(c) ==> exists|k: int| #![auto]
                    old(prov)@.len() <= k < final(prov)@.len() && final(prov)@[k].0@ == c,
    {
        let id = node.id();
        match node {
            RelNode::Table { name, columns, .. } => {
                let ghost cv = columns@.map_values(|s: String| s@);
                let mut i: usize = 0;
                while i < columns.len()
                    invariant
                        i <= columns.len(),
                        old(prov)@.len() <= prov@.len(),
                        forall|k: int| 0 <= k < old(prov)@.len() ==> prov@[k] == old(prov)@[k],
                        forall|k: int| #![auto]
                            old(prov)@.len() <= k < prov@.len() ==> prov@[k].1 as int == plan_id(
                                node@,
                            ) && own_cols(node@).contains(prov@[k].0@),
                        forall|c: ColumnV| #![auto]
                            table_cols(name@, cv.subrange(0, i as int)).contains(c) ==> exists|
                                k: int,
                            | #![auto]
                                old(prov)@.len() <= k < prov@.len() && prov@[k].0@ == c,
                    decreases columns.len() - i,
                {
                    let col = Column::new(name.as_str(), columns[i].as_str());
                    proof {
                        assert(cv[i as int] == columns@[i as int]@);
                        assert(table_cols(name@, cv).contains(col@));
                    }
                    let ghost pre = prov@;
                    prov.push((col, id));
                    proof {
                        assert(cv.subrange(0, i as int + 1) =~= cv.subrange(0, i as int).push(
                            cv[i as int],
                        ));
                        crate::plan::lemma_table_cols_push(
                            name@,
                            cv.subrange(0, i as int),
                            cv[i as int],
                        );
                        assert(prov@[prov@.len() - 1].0@ == col@);
                        assert forall|c: ColumnV| #![trigger table_cols(
                            name@,
                            cv.subrange(0, i as int + 1),
                        ).contains(c)]
                            table_cols(name@, cv.subrange(0, i as int + 1)).contains(
                                c,
                            ) implies exists|k: int| #![auto]
                            old(prov)@.len() <= k < prov@.len() && prov@[k].0@ == c by {
                            if table_cols(name@, cv.subrange(0, i as int)).contains(c) {
                                let k = choose|k: int| #![auto]
                                    old(prov)@.len() <= k < pre.len() && pre[k].0@ == c;
                                assert(prov@[k].0@ == c);
                            } else {
                                assert(prov@[prov@.len() - 1].0@ == c);
                            }
                        }
                    }
                    i = i + 1;
                }
                proof {
                    assert(cv.subrange(0, cv.len() as int) =~= cv);
                }
            },
            RelNode::Project { mappings, .. } => {
                let ghost vm = mappings@.map_values(|m: crate::plan::ColMapping| m@);
                let mut i: usize = 0;
                while i < mappings.len()
                    invariant
                        i <= mappings.len(),
                        old(prov)@.len() <= prov@.len(),
                        forall|k: int| 0 <= k < old(prov)@.len() ==> prov@[k] == old(prov)@[k],
                        forall|k: int| #![auto]
                            old(prov)@.len() <= k < prov@.len() ==> prov@[k].1 as int == plan_id(
                                node@,
                            ) && own_cols(node@).contains(prov@[k].0@),
                        forall|c: ColumnV| #![auto]
                            crate::plan::mapping_keys(vm.subrange(0, i as int)).contains(c)
                                ==> exists|k: int| #![auto]
                                old(prov)@.len() <= k < prov@.len() && prov@[k].0@ == c,
                    decreases mappings.len() - i,
                {
                    let col = mappings[i].col.clone();
                    proof {
                        crate::plan::lemma_mapping_view_index(mappings@, i as int);
                        assert(crate::plan::mapping_keys(vm).contains(col@));
                    }
                    let ghost pre = prov@;
                    prov.push((col, id));
                    proof {
                        assert(vm.subrange(0, i as int + 1) =~= vm.subrange(0, i as int).push(
                            vm[i as int],
                        ));
                        crate::plan::lemma_mapping_keys_push(vm.subrange(0, i as int), vm[i as int]);
                        assert(prov@[prov@.len() - 1].0@ == col@);
                        assert(col@ == vm[i as int].0);
                        assert forall|c: ColumnV| #![trigger crate::plan::mapping_keys(
                            vm.subrange(0, i as int + 1),
                        ).contains(c)]
                            crate::plan::mapping_keys(vm.subrange(0, i as int + 1)).contains(
                                c,
                            ) implies exists|k: int| #![auto]
                            old(prov)@.len() <= k < prov@.len() && prov@[k].0@ == c by {
                            if crate::plan::mapping_keys(vm.subrange(0, i as int)).contains(c) {
                                let k = choose|k: int| #![auto]
                                    old(prov)@.len() <= k < pre.len() && pre[k].0@ == c;
                                assert(prov@[k].0@ == c);
                            } else {
                                assert(prov@[prov@.len() - 1].0@ == c);
                            }
                        }
                    }
                    i = i + 1;
                }
                proof {
                    assert(vm.subrange(0, vm.len() as int) =~= vm);
                }
            },
            RelNode::GroupBy { keys, aggregates, .. } => {
                let ghost kv = keys@.map_values(|c: Column| c@);
                let ghost va = aggregates@.map_values(|m: crate::plan::ColMapping| m@);
                let mut i: usize = 0;
                while i < keys.len()
                    invariant
                        i <= keys.len(),
                        old(prov)@.len() <= prov@.len(),
                        forall|k: int| 0 <= k < old(prov)@.len() ==> prov@[k] == old(prov)@[k],
                        forall|k: int| #![auto]
                            old(prov)@.len() <= k < prov@.len() ==> prov@[k].1 as int == plan_id(
                                node@,
                            ) && own_cols(node@).contains(prov@[k].0@),
                        forall|c: ColumnV| #![trigger crate::plan::colv_set(
                            kv.subrange(0, i as int),
                        ).contains(c)]
                            crate::plan::colv_set(kv.subrange(0, i as int)).contains(c)
                                ==> exists|k: int| #![auto]
                                old(prov)@.len() <= k < prov@.len() && prov@[k].0@ == c,
                    decreases keys.len() - i,
                {
                    let col = keys[i].clone();
                    proof {
                        assert(kv[i as int] == keys@[i as int]@);
                        assert(crate::plan::colv_set(kv).contains(col@));
                    }
                    let ghost pre = prov@;
                    prov.push((col, id));
                    proof {
                        assert(prov@[prov@.len() - 1].0@ == kv[i as int]);
                        assert(kv.subrange(0, i as int + 1) =~= kv.subrange(0, i as int).push(
                            kv[i as int],
                        ));
                        crate::plan::lemma_colv_set_push(kv.subrange(0, i as int), kv[i as int]);
                        assert forall|c: ColumnV| #![trigger crate::plan::colv_set(
                            kv.subrange(0, i as int + 1),
                        ).contains(c)]
                            crate::plan::colv_set(kv.subrange(0, i as int + 1)).contains(
                                c,
                            ) implies exists|k: int| #![auto]
                            old(prov)@.len() <= k < prov@.len() && prov@[k].0@ == c by {
                            if crate::plan::colv_set(kv.subrange(0, i as int)).contains(c) {
                                let k = choose|k: int| #![auto]
                                    old(prov)@.len() <= k < pre.len() && pre[k].0@ == c;
                                assert(prov@[k].0@ == c);
                            } else {
                                assert(prov@[prov@.len() - 1].0@ == c);
                            }
                        }
                    }
                    i = i + 1;
                }
                proof {
                    assert(kv.subrange(0, kv.len() as int) =~= kv);
                }
                let mut j: usize = 0;
                while j < aggregates.len()
                    invariant
                        j <= aggregates.len(),
                        old(prov)@.len() <= prov@.len(),
                        forall|k: int| 0 <= k < old(prov)@.len() ==> prov@[k] == old(prov)@[k],
                        forall|k: int| #![auto]
                            old(prov)@.len() <= k < prov@.len() ==> prov@[k].1 as int == plan_id(
                                node@,
                            ) && own_cols(node@).contains(prov@[k].0@),
                        forall|c: ColumnV| #![trigger crate::plan::colv_set(kv).contains(c)]
                            crate::plan::colv_set(kv).contains(c) ==> exists|k: int| #![auto]
                                old(prov)@.len() <= k < prov@.len() && prov@[k].0@ == c,
                        forall|c: ColumnV| #![auto]
                            crate::plan::mapping_keys(va.subrange(0, j as int)).contains(c)
                                ==> exists|k: int| #![auto]
                                old(prov)@.len() <= k < prov@.len() && prov@[k].0@ == c,
                    decreases aggregates.len() - j,
                {
                    let col = aggregates[j].col.clone();
                    proof {
                        crate::plan::lemma_mapping_view_index(aggregates@, j as int);
                        assert(crate::plan::mapping_keys(va).contains(col@));
                    }
                    let ghost pre = prov@;
                    prov.push((col, id));
                    proof {
                        assert(va.subrange(0, j as int + 1) =~= va.subrange(0, j as int).push(
                            va[j as int],
                        ));
                        crate::plan::lemma_mapping_keys_push(va.subrange(0, j as int), va[j as int]);
                        assert(prov@[prov@.len() - 1].0@ == col@);
                        assert(col@ == va[j as int].0);
                        assert forall|c: ColumnV| #![trigger crate::plan::colv_set(kv).contains(
                            c,
                        )] crate::plan::colv_set(kv).contains(c) implies exists|k: int| #![auto]
                            old(prov)@.len() <= k < prov@.len() && prov@[k].0@ == c by {
                            let k = choose|k: int| #![auto]
                                old(prov)@.len() <= k < pre.len() && pre[k].0@ == c;
                            assert(prov@[k].0@ == c);
                        }
                        assert forall|c: ColumnV| #![trigger crate::plan::mapping_keys(
                            va.subrange(0, j as int + 1),
                        ).contains(c)]
                            crate::plan::mapping_keys(va.subrange(0, j as int + 1)).contains(
                                c,
                            ) implies exists|k: int| #![auto]
                            old(prov)@.len() <= k < prov@.len() && prov@[k].0@ == c by {
                            if crate::plan::mapping_keys(va.subrange(0, j as int)).contains(c) {
                                let k = choose|k: int| #![auto]
                                    old(prov)@.len() <= k < pre.len() && pre[k].0@ == c;
                                assert(prov@[k].0@ == c);
                            } else {
                                assert(prov@[prov@.len() - 1].0@ == c);
                            }
                        }
                    }
                    j = j + 1;
                }
                proof {
                    assert(va.subrange(0, va.len() as int) =~= va);
                    assert forall|c: ColumnV| #![auto] own_cols(node@).contains(c) implies exists|
                        k: int,
                    | #![auto] old(prov)@.len() <= k < prov@.len() && prov@[k].0@ == c by {
                        if crate::plan::colv_set(kv).contains(c) {
                            assert(crate::plan::colv_set(kv).contains(c));
                        } else {
                            assert(crate::plan::mapping_keys(va).contains(c));
                        }
                    }
                }
            },
            _ => {},
        }
    }
}

} // verus!

verus! {

/// Look a node up in a parent index.
pub fn pm_lookup(s: &Vec<(NodeId, NodeId)>, c: NodeId) -> (r: Option<NodeId>)
    ensures
        match r {
            Some(p) => pm_get(s@, c as int) == Some(p as int),
            None => pm_get(s@, c as int) is None,
        },
{
    proof {
        assert(s@.skip(0) =~= s@);
    }
    let mut i: usize = 0;
    while i < s.len()
        invariant
            i <= s.len(),
            pm_get(s@, c as int) == pm_get(s@.skip(i as int), c as int),
        decreases s.len() - i,
    {
        if s[i].0 == c {
            proof {
                assert(s@.skip(i as int)[0] == s@[i as int]);
            }
            return Some(s[i].1);
        }
        proof {
            assert(s@.skip(i as int)[0] == s@[i as int]);
            assert(s@.skip(i as int).drop_first() =~= s@.skip(i as int + 1));
        }
        i = i + 1;
    }
    proof {
        assert(s@.skip(s@.len() as int) =~= Seq::<(NodeId, NodeId)>::empty());
    }
    None
}

/// Look a column up in a provider index.
pub fn prov_lookup(s: &Vec<(Column, NodeId)>, c: &Column) -> (r: Option<NodeId>)
    ensures
        match r {
            Some(p) => prov_get(s@, c@) == Some(p as int),
            None => prov_get(s@, c@) is None,
        },
{
    proof {
        assert(s@.skip(0) =~= s@);
    }
    let mut i: usize = 0;
    while i < s.len()
        invariant
            i <= s.len(),
            prov_get(s@, c@) == prov_get(s@.skip(i as int), c@),
        decreases s.len() - i,
    {
        if s[i].0 == *c {
            proof {
                assert(s@.skip(i as int)[0] == s@[i as int]);
            }
            return Some(s[i].1);
        }
        proof {
            assert(s@.skip(i as int)[0] == s@[i as int]);
            assert(s@.skip(i as int).drop_first() =~= s@.skip(i as int + 1));
        }
        i = i + 1;
    }
    proof {
        assert(s@.skip(s@.len() as int) =~= Seq::<(Column, NodeId)>::empty());
    }
    None
}

impl QueryTree {
    /// One traversal: record each node's parent and each column's first
    /// introducing node, and extend the ghost depth map that witnesses that
    /// parent entries step upward.
    #[verifier::loop_isolation(false)]
    pub fn build_maps(
        node: &RelNode,
        parent: Option<NodeId>,
        pm: &mut Vec<(NodeId, NodeId)>,
        prov: &mut Vec<(Column, NodeId)>,
        Ghost(dm): Ghost<Map<int, nat>>,
        Ghost(depth): Ghost<nat>,
    ) -> (r: Ghost<Map<int, nat>>)
        requires
            ids_uniq(node@),
            wf_pm(old(pm)@, dm),
            parent matches Some(p) ==> dm.dom().contains(p as int) && dm[p as int] < depth,
            forall|x: int| has_node_id(node@, x) ==> !dm.dom().contains(x),
        ensures
            wf_pm(final(pm)@, r@),
            forall|x: int| #![auto]
                r@.dom().contains(x) <==> dm.dom().contains(x) || has_node_id(node@, x),
            forall|x: int| #![auto] dm.dom().contains(x) ==> r@[x] == dm[x],
            old(pm)@.len() <= final(pm)@.len(),
            forall|k: int| 0 <= k < old(pm)@.len() ==> final(pm)@[k] == old(pm)@[k],
            old(prov)@.len() <= final(prov)@.len(),
            forall|k: int| 0 <= k < old(prov)@.len() ==> final(prov)@[k] == old(prov)@[k],
            pm_get(final(pm)@, plan_id(node@)) == (match parent {
                Some(p) => Some(p as int),
                None => pm_get(old(pm)@, plan_id(node@)),
            }),
            forall|x: int| #![auto]
                has_node_id(node@, x) && x != plan_id(node@) ==> pm_get(final(pm)@, x)
                    == parent_in(node@, x),
            forall|x: int| #![auto]
                !has_node_id(node@, x) ==> pm_get(final(pm)@, x) == pm_get(old(pm)@, x),
            forall|k: int| #![auto]
                old(prov)@.len() <= k < final(prov)@.len() ==> introduces(
                    node@,
                    final(prov)@[k].1 as int,
                    final(prov)@[k].0@,
                ),
            forall|i: int, c: ColumnV| #![auto]
                introduces(node@, i, c) ==> prov_get(final(prov)@, c) is Some,
        decreases node,
    {
        let id = node.id();
        let ghost dm1 = dm.insert(plan_id(node@), depth);
        proof {
            assert forall|x: int| has_node_id(node@, x) implies pm_get(old(pm)@, x) is None by {
                if pm_get(old(pm)@, x) is Some {
                    lemma_pm_get_entry(old(pm)@, x);
                    let k = choose|k: int| #![auto]
                        0 <= k < old(pm)@.len() && old(pm)@[k].0 as int == x && old(pm)@[k].1 as int
                            == pm_get(old(pm)@, x)->Some_0;
                    assert(dm.dom().contains(old(pm)@[k].0 as int));
                }
            }
        }
        match parent {
            Some(p) => {
                pm.push((id, p));
                proof {
                    assert(wf_pm(pm@, dm1));
                }
            },
            None => {},
        }
        let ghost pm1 = pm@;
        proof {
            assert(has_node_id(node@, plan_id(node@)));
            assert(pm_get(old(pm)@, plan_id(node@)) is None);
            match parent {
                Some(p) => {
                    assert(pm1 =~= old(pm)@ + seq![(id, p)]);
                    lemma_pm_get_append(old(pm)@, seq![(id, p)], plan_id(node@));
                    assert(pm_get(seq![(id, p)], plan_id(node@)) == Some(p as int)) by {
                        assert(seq![(id, p)][0] == (id, p));
                    }
                    assert(pm_get(pm1, plan_id(node@)) == Some(p as int));
                    assert forall|x: int| x != plan_id(node@) implies pm_get(pm1, x) == pm_get(
                        old(pm)@,
                        x,
                    ) by {
                        lemma_pm_get_append(old(pm)@, seq![(id, p)], x);
                        assert(seq![(id, p)][0] == (id, p));
                        assert(seq![(id, p)].drop_first() =~= Seq::<(NodeId, NodeId)>::empty());
                        assert(pm_get(Seq::<(NodeId, NodeId)>::empty(), x) is None);
                        assert(pm_get(seq![(id, p)], x) is None);
                    }
                },
                None => {
                    assert(pm1 == old(pm)@);
                },
            }
        }
        Self::collect_column_providers(node, prov);
        let ghost prov_mine = prov@;
        match node {
            RelNode::Table { .. } => {
                proof {
                    assert forall|x: int| #![auto]
                        !has_node_id(node@, x) implies pm_get(pm@, x) == pm_get(
                        old(pm)@,
                        x,
                    ) by {
                        assert(x != plan_id(node@));
                    }
                    assert forall|i: int, c: ColumnV| #![auto]
                        introduces(node@, i, c) implies prov_get(prov@, c) is Some by {
                        assert(own_cols(node@).contains(c));
                        lemma_prov_entry_some(prov@, c);
                    }
                }
                Ghost(dm1)
            },
            RelNode::Select { input, .. } => {
                let r = Self::build_maps(input, Some(id), pm, prov, Ghost(dm1), Ghost(depth + 1));
                proof {
                    assert forall|x: int| #![auto]
                        has_node_id(node@, x) && x != plan_id(node@) implies pm_get(pm@, x)
                        == parent_in(node@, x) by {
                        if x == plan_id((**input)@) {
                            assert(pm_get(pm@, x) == Some(id as int));
                            assert(parent_in(node@, x) == Some(id as int));
                        } else {
                            assert(has_node_id((**input)@, x));
                            assert(pm_get(pm@, x) == parent_in((**input)@, x));
                            assert(parent_in(node@, x) == parent_in((**input)@, x));
                        }
                    }
                    assert forall|x: int| #![auto]
                        !has_node_id(node@, x) implies pm_get(pm@, x) == pm_get(
                        old(pm)@,
                        x,
                    ) by {
                        assert(x != plan_id(node@));
                        assert(!has_node_id((**input)@, x));
                        assert(pm_get(pm@, x) == pm_get(pm1, x));
                    }
                    assert forall|i: int, c: ColumnV| #![auto]
                        introduces(node@, i, c) implies prov_get(prov@, c) is Some by {
                        if plan_id(node@) == i && own_cols(node@).contains(c) {
                            let k = choose|k: int| #![auto]
                                old(prov)@.len() <= k < prov_mine.len() && prov_mine[k].0@ == c;
                            assert(prov@[k] == prov_mine[k]);
                            lemma_prov_entry_some(prov@, c);
                        } else {
                            assert(introduces((**input)@, i, c));
                        }
                    }
                }
                r
            },
            RelNode::Project { input, .. } => {
                let r = Self::build_maps(input, Some(id), pm, prov, Ghost(dm1), Ghost(depth + 1));
                proof {
                    assert forall|x: int| #![auto]
                        has_node_id(node@, x) && x != plan_id(node@) implies pm_get(pm@, x)
                        == parent_in(node@, x) by {
                        if x == plan_id((**input)@) {
                            assert(pm_get(pm@, x) == Some(id as int));
                            assert(parent_in(node@, x) == Some(id as int));
                        } else {
                            assert(has_node_id((**input)@, x));
                            assert(pm_get(pm@, x) == parent_in((**input)@, x));
                            assert(parent_in(node@, x) == parent_in((**input)@, x));
                        }
                    }
                    assert forall|x: int| #![auto]
                        !has_node_id(node@, x) implies pm_get(pm@, x) == pm_get(
                        old(pm)@,
                        x,
                    ) by {
                        assert(x != plan_id(node@));
                        assert(!has_node_id((**input)@, x));
                        assert(pm_get(pm@, x) == pm_get(pm1, x));
                    }
                    assert forall|i: int, c: ColumnV| #![auto]
                        introduces(node@, i, c) implies prov_get(prov@, c) is Some by {
                        if plan_id(node@) == i && own_cols(node@).contains(c) {
                            let k = choose|k: int| #![auto]
                                old(prov)@.len() <= k < prov_mine.len() && prov_mine[k].0@ == c;
                            assert(prov@[k] == prov_mine[k]);
                            lemma_prov_entry_some(prov@, c);
                        } else {
                            assert(introduces((**input)@, i, c));
                        }
                    }
                }
                r
            },
            RelNode::GroupBy { input, .. } => {
                let r = Self::build_maps(input, Some(id), pm, prov, Ghost(dm1), Ghost(depth + 1));
                proof {
                    assert forall|x: int| #![auto]
                        has_node_id(node@, x) && x != plan_id(node@) implies pm_get(pm@, x)
                        == parent_in(node@, x) by {
                        if x == plan_id((**input)@) {
                            assert(pm_get(pm@, x) == Some(id as int));
                            assert(parent_in(node@, x) == Some(id as int));
                        } else {
                            assert(has_node_id((**input)@, x));
                            assert(pm_get(pm@, x) == parent_in((**input)@, x));
                            assert(parent_in(node@, x) == parent_in((**input)@, x));
                        }
                    }
                    assert forall|x: int| #![auto]
                        !has_node_id(node@, x) implies pm_get(pm@, x) == pm_get(
                        old(pm)@,
                        x,
                    ) by {
                        assert(x != plan_id(node@));
                        assert(!has_node_id((**input)@, x));
                        assert(pm_get(pm@, x) == pm_get(pm1, x));
                    }
                    assert forall|i: int, c: ColumnV| #![auto]
                        introduces(node@, i, c) implies prov_get(prov@, c) is Some by {
                        if plan_id(node@) == i && own_cols(node@).contains(c) {
                            let k = choose|k: int| #![auto]
                                old(prov)@.len() <= k < prov_mine.len() && prov_mine[k].0@ == c;
                            assert(prov@[k] == prov_mine[k]);
                            lemma_prov_entry_some(prov@, c);
                        } else {
                            assert(introduces((**input)@, i, c));
                        }
                    }
                }
                r
            },
            RelNode::Join { left, right, .. } => {
                let r1 = Self::build_maps(left, Some(id), pm, prov, Ghost(dm1), Ghost(depth + 1));
                let ghost pml = pm@;
                let ghost provl = prov@;
                let r2 = Self::build_maps(right, Some(id), pm, prov, r1, Ghost(depth + 1));
                proof {
                    let lv = (**left)@;
                    let rv = (**right)@;
                    assert forall|x: int| #![auto]
                        has_node_id(node@, x) && x != plan_id(node@) implies pm_get(pm@, x)
                        == parent_in(node@, x) by {
                        if x == plan_id(lv) {
                            assert(pm_get(pml, x) == Some(id as int));
                            assert(!has_node_id(rv, x));
                            assert(pm_get(pm@, x) == Some(id as int));
                            assert(parent_in(node@, x) == Some(id as int));
                        } else if x == plan_id(rv) {
                            assert(pm_get(pm@, x) == Some(id as int));
                            assert(parent_in(node@, x) == Some(id as int));
                        } else if has_node_id(lv, x) {
                            assert(pm_get(pml, x) == parent_in(lv, x));
                            assert(!has_node_id(rv, x));
                            assert(pm_get(pm@, x) == parent_in(lv, x));
                            assert(parent_in(node@, x) == parent_in(lv, x));
                        } else {
                            assert(has_node_id(rv, x));
                            assert(!has_node_id(lv, x));
                            assert(pm_get(pml, x) == pm_get(pm1, x));
                            assert(pm_get(pm@, x) == parent_in(rv, x));
                            assert(parent_in(node@, x) == parent_in(rv, x));
                        }
                    }
                    assert(!has_node_id(lv, plan_id(node@)));
                    assert(!has_node_id(rv, plan_id(node@)));
                    assert(pm_get(pml, plan_id(node@)) == pm_get(pm1, plan_id(node@)));
                    assert(pm_get(pm@, plan_id(node@)) == pm_get(pm1, plan_id(node@)));
                    assert forall|x: int| #![auto]
                        !has_node_id(node@, x) implies pm_get(pm@, x) == pm_get(
                        old(pm)@,
                        x,
                    ) by {
                        assert(x != plan_id(node@));
                        assert(!has_node_id(lv, x));
                        assert(!has_node_id(rv, x));
                        assert(pm_get(pm@, x) == pm_get(pml, x));
                        assert(pm_get(pml, x) == pm_get(pm1, x));
                    }
                    assert forall|i: int, c: ColumnV| #![auto]
                        introduces(node@, i, c) implies prov_get(prov@, c) is Some by {
                        if plan_id(node@) == i && own_cols(node@).contains(c) {
                            let k = choose|k: int| #![auto]
                                old(prov)@.len() <= k < prov_mine.len() && prov_mine[k].0@ == c;
                            assert(prov@[k] == prov_mine[k]);
                            lemma_prov_entry_some(prov@, c);
                        } else if introduces(lv, i, c) {
                            assert(prov_get(provl, c) is Some);
                            lemma_prov_get_extend(provl, prov@, c);
                        } else {
                            assert(introduces(rv, i, c));
                        }
                    }
                }
                r2
            },
        }
    }

    /// Index a plan tree: build the parent and provider maps by one
    /// traversal.
    pub fn new(root: RelNode) -> (t: QueryTree)
        requires
            ids_uniq(root@),
        ensures
            t.root == root,
            t.wf(),
            t.index_consistent(),
    {
        let mut pm: Vec<(NodeId, NodeId)> = Vec::new();
        let mut prov: Vec<(Column, NodeId)> = Vec::new();
        let depth = QueryTree::build_maps(
            &root,
            None,
            &mut pm,
            &mut prov,
            Ghost(Map::empty()),
            Ghost(0),
        );
        proof {
            assert(pm_get(Seq::<(NodeId, NodeId)>::empty(), plan_id(root@)) is None);
            assert forall|x: int| #![auto] !has_node_id(root@, x) implies pm_get(pm@, x)
                is None by {
                assert(pm_get(Seq::<(NodeId, NodeId)>::empty(), x) is None);
            }
        }
        QueryTree { root, parent: pm, providers: prov, depth }
    }

    /// The tree's root.
    pub fn root(&self) -> (r: &RelNode)
        ensures
            r == &self.root,
    {
        &self.root
    }

    /// The node carrying the given id, if any.
    pub fn find_node(&self, id: NodeId) -> (r: Option<&RelNode>)
        ensures
            match r {
                Some(m) => crate::unnesting::find_in_plan(self.root@, id as int) == Some(m@),
                None => crate::unnesting::find_in_plan(self.root@, id as int) is None,
            },
    {
        crate::unnesting::find_node_by_id(&self.root, id)
    }

    /// Reflexive descendant test by repeated parent lookups.
    pub fn is_descendant_of(&self, node_id: NodeId, ancestor_id: NodeId) -> (r: bool)
        requires
            self.wf(),
        ensures
            r == is_anc(self.parent@, ancestor_id as int, node_id as int),
    {
        if node_id == ancestor_id {
            proof {
                assert(anc_fuel(self.parent@, ancestor_id as int, node_id as int, 0));
            }
            return true;
        }
        let ghost dm = self.depth@;
        let mut current: NodeId = node_id;
        loop
            invariant
                self.wf(),
                dm == self.depth@,
                current as int != ancestor_id as int,
                is_anc(self.parent@, ancestor_id as int, node_id as int) <==> is_anc(
                    self.parent@,
                    ancestor_id as int,
                    current as int,
                ),
            decreases (if dm.dom().contains(current as int) {
                dm[current as int]
            } else {
                0
            }),
        {
            match pm_lookup(&self.parent, current) {
                Some(parent_id) => {
                    proof {
                        lemma_pm_get_entry(self.parent@, current as int);
                        lemma_anc_step(
                            self.parent@,
                            ancestor_id as int,
                            current as int,
                            parent_id as int,
                        );
                    }
                    if parent_id == ancestor_id {
                        proof {
                            assert(anc_fuel(self.parent@, ancestor_id as int, parent_id as int, 0));
                        }
                        return true;
                    }
                    current = parent_id;
                },
                None => {
                    proof {
                        assert forall|fuel: nat|
                            !anc_fuel(
                                self.parent@,
                                ancestor_id as int,
                                current as int,
                                fuel,
                            ) by {}
                    }
                    return false;
                },
            }
        }
    }

    /// True iff the node descends from the join's left child.
    pub fn is_in_left_subtree(&self, node_id: NodeId, join_id: NodeId) -> (r: bool)
        requires
            self.wf(),
        ensures
            r == (crate::unnesting::find_in_plan(self.root@, join_id as int) matches Some(m)
                && m matches PlanV::Join { left, .. } && is_anc(
                self.parent@,
                plan_id(*left),
                node_id as int,
            )),
    {
        match self.find_node(join_id) {
            Some(join_node) => match join_node {
                RelNode::Join { left, .. } => {
                    let left_id = left.id();
                    self.is_descendant_of(node_id, left_id)
                },
                _ => false,
            },
            None => false,
        }
    }
}

} // verus!

verus! {

impl QueryTree {
    /// The lowest common ancestor: walk one node's ancestor chain into a
    /// set, then walk the other's chain until a member of that set is hit.
    /// The result is a common ancestor of both that every other common
    /// ancestor is an ancestor of, and `None` comes back only when the two
    /// ids share no ancestor at all.
    #[verifier::loop_isolation(false)]
    pub fn find_lca(&self, node1_id: NodeId, node2_id: NodeId) -> (r: Option<NodeId>)
        requires
            self.wf(),
        ensures
            match r {
                Some(l) => is_anc(self.parent@, l as int, node1_id as int) && is_anc(
                    self.parent@,
                    l as int,
                    node2_id as int,
                ) && (forall|c: int|
                    is_anc(self.parent@, c, node1_id as int) && is_anc(
                        self.parent@,
                        c,
                        node2_id as int,
                    ) ==> is_anc(self.parent@, c, l as int)),
                None => forall|c: int|
                    !(is_anc(self.parent@, c, node1_id as int) && is_anc(
                        self.parent@,
                        c,
                        node2_id as int,
                    )),
            },
    {
        let ghost pm = self.parent@;
        let ghost dm = self.depth@;
        let mut ancestors: Vec<NodeId> = Vec::new();
        let mut current: NodeId = node1_id;
        ancestors.push(current);
        proof {
            assert(anc_fuel(pm, current as int, node1_id as int, 0));
            crate::plan::lemma_ids_set_push(Seq::<NodeId>::empty(), current);
        }
        loop
            invariant
                self.wf(),
                pm == self.parent@,
                dm == self.depth@,
                is_anc(pm, current as int, node1_id as int),
                forall|x: int| #![auto]
                    crate::plan::ids_set(ancestors@).contains(x) ==> is_anc(
                        pm,
                        x,
                        node1_id as int,
                    ),
                forall|x: int| #![auto]
                    is_anc(pm, x, node1_id as int) <==> crate::plan::ids_set(
                        ancestors@,
                    ).contains(x) || (x != current as int && is_anc(pm, x, current as int)),
            decreases (if dm.dom().contains(current as int) {
                dm[current as int]
            } else {
                0
            }),
        {
            match pm_lookup(&self.parent, current) {
                Some(parent_id) => {
                    proof {
                        lemma_pm_get_entry(pm, current as int);
                    }
                    let ghost pre = ancestors@;
                    ancestors.push(parent_id);
                    proof {
                        crate::plan::lemma_ids_set_push(pre, parent_id);
                        assert(anc_fuel(pm, parent_id as int, parent_id as int, 0));
                        assert(anc_fuel(pm, parent_id as int, current as int, 1));
                        assert(is_anc(pm, parent_id as int, node1_id as int));
                        assert forall|x: int| #![auto]
                            is_anc(pm, x, node1_id as int) <==> crate::plan::ids_set(
                            ancestors@,
                        ).contains(x) || (x != parent_id as int && is_anc(
                            pm,
                            x,
                            parent_id as int,
                        )) by {
                            if x != current as int {
                                lemma_anc_step(pm, x, current as int, parent_id as int);
                            }
                        }
                    }
                    current = parent_id;
                },
                None => {
                    proof {
                        assert forall|x: int| #![auto]
                            is_anc(pm, x, node1_id as int) implies crate::plan::ids_set(
                            ancestors@,
                        ).contains(x) by {
                            if x != current as int && is_anc(pm, x, current as int) {
                                let fuel = choose|fuel: nat| anc_fuel(pm, x, current as int, fuel);
                            }
                        }
                    }
                    break ;
                },
            }
        }
        let mut current2: NodeId = node2_id;
        proof {
            assert(anc_fuel(pm, node2_id as int, node2_id as int, 0));
        }
        loop
            invariant
                self.wf(),
                pm == self.parent@,
                dm == self.depth@,
                forall|x: int| #![auto]
                    crate::plan::ids_set(ancestors@).contains(x) ==> is_anc(
                        pm,
                        x,
                        node1_id as int,
                    ),
                forall|x: int| #![auto]
                    is_anc(pm, x, node1_id as int) ==> crate::plan::ids_set(
                        ancestors@,
                    ).contains(x),
                is_anc(pm, current2 as int, node2_id as int),
                forall|x: int| #![auto]
                    is_anc(pm, x, node2_id as int) && crate::plan::ids_set(
                        ancestors@,
                    ).contains(x) ==> is_anc(pm, x, current2 as int),
            decreases (if dm.dom().contains(current2 as int) {
                dm[current2 as int]
            } else {
                0
            }),
        {
            if crate::plan::ids_contain(&ancestors, current2) {
                proof {
                    assert(anc_fuel(pm, current2 as int, current2 as int, 0));
                    assert forall|c: int|
                        is_anc(pm, c, node1_id as int) && is_anc(
                            pm,
                            c,
                            node2_id as int,
                        ) implies is_anc(pm, c, current2 as int) by {
                        assert(crate::plan::ids_set(ancestors@).contains(c));
                    }
                }
                return Some(current2);
            }
            match pm_lookup(&self.parent, current2) {
                Some(parent_id) => {
                    proof {
                        lemma_pm_get_entry(pm, current2 as int);
                        assert(anc_fuel(pm, parent_id as int, parent_id as int, 0));
                        assert(anc_fuel(pm, parent_id as int, current2 as int, 1));
                        lemma_anc_trans(
                            pm,
                            parent_id as int,
                            current2 as int,
                            node2_id as int,
                        );
                        assert(is_anc(pm, parent_id as int, node2_id as int));
                        assert forall|x: int| #![auto]
                            is_anc(pm, x, node2_id as int) && crate::plan::ids_set(
                            ancestors@,
                        ).contains(x) implies is_anc(pm, x, parent_id as int) by {
                            if x != current2 as int {
                                lemma_anc_step(pm, x, current2 as int, parent_id as int);
                            }
                        }
                    }
                    current2 = parent_id;
                },
                None => {
                    proof {
                        assert forall|c: int|
                            !(is_anc(pm, c, node1_id as int) && is_anc(
                                pm,
                                c,
                                node2_id as int,
                            )) by {
                            if is_anc(pm, c, node1_id as int) && is_anc(pm, c, node2_id as int) {
                                assert(crate::plan::ids_set(ancestors@).contains(c));
                                assert(is_anc(pm, c, current2 as int));
                                let fuel = choose|fuel: nat| anc_fuel(pm, c, current2 as int, fuel);
                                assert(c == current2 as int);
                                assert(crate::plan::ids_set(ancestors@).contains(
                                    current2 as int,
                                ));
                            }
                        }
                    }
                    return None;
                },
            }
        }
    }
}

} // verus!

verus! {

proof fn lemma_anc_depth(s: Seq<(NodeId, NodeId)>, dm: Map<int, nat>, a: int, x: int, fuel: nat)
    requires
        wf_pm(s, dm),
        anc_fuel(s, a, x, fuel),
        a != x,
    ensures
        dm.dom().contains(a) && dm.dom().contains(x) && dm[a] < dm[x],
    decreases fuel,
{
    let p = pm_get(s, x)->Some_0;
    lemma_pm_get_entry(s, x);
    if p != a {
        lemma_anc_depth(s, dm, a, p, (fuel - 1) as nat);
    }
}

/// Under an acyclic parent index, mutual ancestors are the same node.
pub proof fn lemma_anc_antisym(s: Seq<(NodeId, NodeId)>, dm: Map<int, nat>, a: int, b: int)
    requires
        wf_pm(s, dm),
        is_anc(s, a, b),
        is_anc(s, b, a),
    ensures
        a == b,
{
    if a != b {
        let f1 = choose|f1: nat| anc_fuel(s, a, b, f1);
        let f2 = choose|f2: nat| anc_fuel(s, b, a, f2);
        lemma_anc_depth(s, dm, a, b, f1);
        lemma_anc_depth(s, dm, b, a, f2);
    }
}

/// The lowest common ancestor: a common ancestor that every common ancestor
/// is an ancestor of.
pub open spec fn is_lca(s: Seq<(NodeId, NodeId)>, l: int, a: int, b: int) -> bool {
    &&& is_anc(s, l, a)
    &&& is_anc(s, l, b)
    &&& forall|c: int| is_anc(s, c, a) && is_anc(s, c, b) ==> is_anc(s, c, l)
}

/// The tree holds this exact node somewhere.
pub open spec fn subnode(n: PlanV, m: PlanV) -> bool
    decreases n,
{
    n == m || match n {
        PlanV::Table { .. } => false,
        PlanV::Select { input, .. } => subnode(*input, m),
        PlanV::Project { input, .. } => subnode(*input, m),
        PlanV::GroupBy { input, .. } => subnode(*input, m),
        PlanV::Join { left, right, .. } => subnode(*left, m) || subnode(*right, m),
    }
}

pub proof fn lemma_subnode_trans(a: PlanV, b: PlanV, c: PlanV)
    requires
        subnode(a, b),
        subnode(b, c),
    ensures
        subnode(a, c),
    decreases a,
{
    if a == b {
    } else {
        match a {
            PlanV::Table { .. } => {},
            PlanV::Select { input, .. } => {
                lemma_subnode_trans(*input, b, c);
            },
            PlanV::Project { input, .. } => {
                lemma_subnode_trans(*input, b, c);
            },
            PlanV::GroupBy { input, .. } => {
                lemma_subnode_trans(*input, b, c);
            },
            PlanV::Join { left, right, .. } => {
                if subnode(*left, b) {
                    lemma_subnode_trans(*left, b, c);
                } else {
                    lemma_subnode_trans(*right, b, c);
                }
            },
        }
    }
}

/// A sound correlation record: some node of the tree accesses a column that
/// a different node introduces per the provider index, and the recorded
/// ancestor is the lowest common ancestor of the two, with the provider
/// below the recorded join's left child.
pub open spec fn pair_ok(t: QueryTree, lca: int, nid: int) -> bool {
    exists|m: PlanV, c: ColumnV, p: int| #![auto]
        subnode(t.root@, m) && plan_id(m) == nid && crate::plan::accessed_cols(m).contains(c)
            && prov_get(t.providers@, c) == Some(p) && p != nid && is_lca(t.parent@, lca, nid, p)
            && (crate::unnesting::find_in_plan(t.root@, lca) matches Some(j) && j
            matches PlanV::Join { left, .. } && is_anc(t.parent@, plan_id(*left), p))
}

/// A correlation the discovery must record: a node accesses a column whose
/// provider per the index is a different node, the two have a lowest common
/// ancestor, and the provider sits below that ancestor join's left child.
pub open spec fn correlation_edge(t: QueryTree, m: PlanV, c: ColumnV, p: int, l: int) -> bool {
    &&& subnode(t.root@, m)
    &&& crate::plan::accessed_cols(m).contains(c)
    &&& prov_get(t.providers@, c) == Some(p)
    &&& p != plan_id(m)
    &&& is_lca(t.parent@, l, plan_id(m), p)
    &&& (crate::unnesting::find_in_plan(t.root@, l) matches Some(j) && j matches PlanV::Join {
        left,
        ..
    } && is_anc(t.parent@, plan_id(*left), p))
}

impl QueryTree {
    #[verifier::loop_isolation(false)]
    fn scan_correlations(&self, node: &RelNode, out: &mut Vec<(NodeId, NodeId)>)
        requires
            self.wf(),
            subnode(self.root@, node@),
            forall|k: int| #![auto]
                0 <= k < old(out)@.len() ==> pair_ok(
                    *self,
                    old(out)@[k].0 as int,
                    old(out)@[k].1 as int,
                ),
        ensures
            old(out)@.len() <= final(out)@.len(),
            forall|k: int| 0 <= k < old(out)@.len() ==> final(out)@[k] == old(out)@[k],
            forall|k: int| #![auto]
                0 <= k < final(out)@.len() ==> pair_ok(
                    *self,
                    final(out)@[k].0 as int,
                    final(out)@[k].1 as int,
                ),
            forall|m: PlanV, c: ColumnV, p: int, l: int|
                #![trigger correlation_edge(*self, m, c, p, l)]
                correlation_edge(*self, m, c, p, l) && subnode(node@, m) ==> exists|k: int|
                    #![auto]
                    0 <= k < final(out)@.len() && final(out)@[k].0 as int == l
                        && final(out)@[k].1 as int == plan_id(m),
        decreases node,
    {
        let node_id = node.id();
        let accessed = node.get_accessed_columns();
        let ghost dm = self.depth@;
        let mut i: usize = 0;
        while i < accessed.len()
            invariant
                i <= accessed.len(),
                old(out)@.len() <= out@.len(),
                forall|k: int| 0 <= k < old(out)@.len() ==> out@[k] == old(out)@[k],
                forall|k: int| #![auto]
                    0 <= k < out@.len() ==> pair_ok(*self, out@[k].0 as int, out@[k].1 as int),
                forall|c: ColumnV, p: int, l: int|
                    #![trigger correlation_edge(*self, node@, c, p, l)]
                    correlation_edge(*self, node@, c, p, l) && cols_set(
                        accessed@.subrange(0, i as int),
                    ).contains(c) ==> exists|k: int| #![auto]
                        0 <= k < out@.len() && out@[k].0 as int == l && out@[k].1 as int == plan_id(
                            node@,
                        ),
            decreases accessed.len() - i,
        {
            let col = &accessed[i];
            proof {
                assert(cols_set(accessed@).contains(col@));
            }
            let ghost pre = out@;
            match prov_lookup(&self.providers, col) {
                Some(provider_id) => {
                    if provider_id != node_id {
                        match self.find_lca(node_id, provider_id) {
                            Some(lca_id) => {
                                if self.is_in_left_subtree(provider_id, lca_id) {
                                    proof {
                                        assert(is_lca(
                                            self.parent@,
                                            lca_id as int,
                                            node_id as int,
                                            provider_id as int,
                                        ));
                                        assert(pair_ok(*self, lca_id as int, node_id as int));
                                    }
                                    out.push((lca_id, node_id));
                                    proof {
                                        assert forall|c: ColumnV, p: int, l: int|
                                            #![trigger correlation_edge(*self, node@, c, p, l)]
                                            correlation_edge(*self, node@, c, p, l) && c
                                            == col@ implies (exists|k: int| #![auto]
                                            0 <= k < out@.len() && out@[k].0 as int == l
                                                && out@[k].1 as int == plan_id(node@)) by {
                                            assert(p == provider_id as int);
                                            lemma_anc_antisym(
                                                self.parent@,
                                                dm,
                                                lca_id as int,
                                                l,
                                            );
                                            assert(out@[out@.len() - 1].0 as int == l);
                                            assert(out@[out@.len() - 1].1 as int == plan_id(
                                                node@,
                                            ));
                                        }
                                    }
                                } else {
                                    proof {
                                        assert forall|c: ColumnV, p: int, l: int|
                                            #![trigger correlation_edge(*self, node@, c, p, l)]
                                            correlation_edge(*self, node@, c, p, l) && c
                                            == col@ implies false by {
                                            assert(p == provider_id as int);
                                            lemma_anc_antisym(
                                                self.parent@,
                                                dm,
                                                lca_id as int,
                                                l,
                                            );
                                        }
                                    }
                                }
                            },
                            None => {
                                proof {
                                    assert forall|c: ColumnV, p: int, l: int|
                                        #![trigger correlation_edge(*self, node@, c, p, l)]
                                        correlation_edge(*self, node@, c, p, l) && c
                                        == col@ implies false by {
                                        assert(p == provider_id as int);
                                        assert(is_anc(self.parent@, l, node_id as int));
                                        assert(is_anc(self.parent@, l, p));
                                    }
                                }
                            },
                        }
                    } else {
                        proof {
                            assert forall|c: ColumnV, p: int, l: int|
                                #![trigger correlation_edge(*self, node@, c, p, l)]
                                correlation_edge(*self, node@, c, p, l) && c == col@ implies false
                                by {
                                assert(p == provider_id as int);
                            }
                        }
                    }
                },
                None => {
                    proof {
                        assert forall|c: ColumnV, p: int, l: int|
                            #![trigger correlation_edge(*self, node@, c, p, l)]
                            correlation_edge(*self, node@, c, p, l) && c == col@ implies false by {}
                    }
                },
            }
            proof {
                assert(accessed@.subrange(0, i as int + 1) =~= accessed@.subrange(
                    0,
                    i as int,
                ).push(accessed@[i as int]));
                crate::plan::lemma_cols_set_push(
                    accessed@.subrange(0, i as int),
                    accessed@[i as int],
                );
                assert forall|c: ColumnV, p: int, l: int|
                    #![trigger correlation_edge(*self, node@, c, p, l)]
                    correlation_edge(*self, node@, c, p, l) && cols_set(
                        accessed@.subrange(0, i as int + 1),
                    ).contains(c) implies (exists|k: int| #![auto]
                    0 <= k < out@.len() && out@[k].0 as int == l && out@[k].1 as int == plan_id(
                        node@,
                    )) by {
                    if cols_set(accessed@.subrange(0, i as int)).contains(c) {
                        let k = choose|k: int| #![auto]
                            0 <= k < pre.len() && pre[k].0 as int == l && pre[k].1 as int
                                == plan_id(node@);
                        assert(out@[k] == pre[k]);
                    }
                }
            }
            i = i + 1;
        }
        proof {
            assert(accessed@.subrange(0, accessed@.len() as int) =~= accessed@);
        }
        let ghost mine = out@;
        match node {
            RelNode::Table { .. } => {},
            RelNode::Select { input, .. } => {
                proof {
                    assert(subnode((**input)@, (**input)@));
                    assert(subnode(node@, (**input)@));
                    lemma_subnode_trans(self.root@, node@, (**input)@);
                }
                self.scan_correlations(input, out);
            },
            RelNode::Project { input, .. } => {
                proof {
                    assert(subnode((**input)@, (**input)@));
                    assert(subnode(node@, (**input)@));
                    lemma_subnode_trans(self.root@, node@, (**input)@);
                }
                self.scan_correlations(input, out);
            },
            RelNode::GroupBy { input, .. } => {
                proof {
                    assert(subnode((**input)@, (**input)@));
                    assert(subnode(node@, (**input)@));
                    lemma_subnode_trans(self.root@, node@, (**input)@);
                }
                self.scan_correlations(input, out);
            },
            RelNode::Join { left, right, .. } => {
                proof {
                    assert(subnode((**left)@, (**left)@));
                    assert(subnode((**right)@, (**right)@));
                    assert(subnode(node@, (**left)@));
                    assert(subnode(node@, (**right)@));
                    lemma_subnode_trans(self.root@, node@, (**left)@);
                    lemma_subnode_trans(self.root@, node@, (**right)@);
                }
                self.scan_correlations(left, out);
                let ghost afterl = out@;
                self.scan_correlations(right, out);
                proof {
                    assert forall|m: PlanV, c: ColumnV, p: int, l: int|
                        #![trigger correlation_edge(*self, m, c, p, l)]
                        correlation_edge(*self, m, c, p, l) && subnode((**left)@, m) implies (
                    exists|k: int| #![auto]
                        0 <= k < out@.len() && out@[k].0 as int == l && out@[k].1 as int == plan_id(
                            m,
                        )) by {
                        let k = choose|k: int| #![auto]
                            0 <= k < afterl.len() && afterl[k].0 as int == l && afterl[k].1 as int
                                == plan_id(m);
                        assert(out@[k] == afterl[k]);
                    }
                }
            },
        }
        proof {
            assert forall|m: PlanV, c: ColumnV, p: int, l: int|
                #![trigger correlation_edge(*self, m, c, p, l)]
                correlation_edge(*self, m, c, p, l) && subnode(node@, m) implies (exists|k: int|
                #![auto]
                0 <= k < out@.len() && out@[k].0 as int == l && out@[k].1 as int == plan_id(
                    m,
                )) by {
                if m == node@ {
                    let k = choose|k: int| #![auto]
                        0 <= k < mine.len() && mine[k].0 as int == l && mine[k].1 as int == plan_id(
                            node@,
                        );
                    assert(out@[k] == mine[k]);
                }
            }
        }
    }

    /// Walk every node: whenever a node accesses a column introduced by a
    /// different node that sits in the left subtree of their lowest common
    /// ancestor, record the pair `(ancestor, accessing node)`.
    pub fn identify_dependent_joins(&self) -> (r: Vec<(NodeId, NodeId)>)
        requires
            self.wf(),
        ensures
            forall|k: int| #![auto]
                0 <= k < r@.len() ==> pair_ok(*self, r@[k].0 as int, r@[k].1 as int),
            forall|m: PlanV, c: ColumnV, p: int, l: int|
                #![trigger correlation_edge(*self, m, c, p, l)]
                correlation_edge(*self, m, c, p, l) ==> exists|k: int| #![auto]
                    0 <= k < r@.len() && r@[k].0 as int == l && r@[k].1 as int == plan_id(m),
    {
        let mut relations: Vec<(NodeId, NodeId)> = Vec::new();
        self.scan_correlations(&self.root, &mut relations);
        relations
    }
}

/// One recorded pair applied: the accessing id joins the accessing set of
/// the dependent join carrying the recorded ancestor id.
pub open spec fn apply_acc(n: PlanV, lca: int, nid: int) -> PlanV
    decreases n,
{
    match n {
        PlanV::Table { .. } => n,
        PlanV::Select { id, predicate, input } => PlanV::Select {
            id,
            predicate,
            input: Box::new(apply_acc(*input, lca, nid)),
        },
        PlanV::Project { id, mappings, input } => PlanV::Project {
            id,
            mappings,
            input: Box::new(apply_acc(*input, lca, nid)),
        },
        PlanV::GroupBy { id, keys, aggregates, input } => PlanV::GroupBy {
            id,
            keys,
            aggregates,
            input: Box::new(apply_acc(*input, lca, nid)),
        },
        PlanV::Join { id, left, right, condition, is_dependent, accessing } => PlanV::Join {
            id,
            left: Box::new(apply_acc(*left, lca, nid)),
            right: Box::new(apply_acc(*right, lca, nid)),
            condition,
            is_dependent,
            accessing: if id == lca && is_dependent {
                accessing.insert(nid)
            } else {
                accessing
            },
        },
    }
}

/// Every recorded pair applied, in order.
pub open spec fn apply_rels(n: PlanV, rels: Seq<(NodeId, NodeId)>) -> PlanV
    decreases rels.len(),
{
    if rels.len() == 0 {
        n
    } else {
        apply_acc(apply_rels(n, rels.drop_last()), rels.last().0 as int, rels.last().1 as int)
    }
}

/// Add the accessing id to the accessing set of the dependent join carrying
/// the given id, anywhere in the tree.
fn add_accessing(node: &mut RelNode, lca: NodeId, nid: NodeId)
    ensures
        final(node)@ == apply_acc(old(node)@, lca as int, nid as int),
    decreases *old(node),
{
    match node {
        RelNode::Table { .. } => {},
        RelNode::Select { input, .. } => {
            add_accessing(&mut **input, lca, nid);
        },
        RelNode::Project { input, .. } => {
            add_accessing(&mut **input, lca, nid);
        },
        RelNode::GroupBy { input, .. } => {
            add_accessing(&mut **input, lca, nid);
        },
        RelNode::Join { id, left, right, is_dependent, accessing, .. } => {
            add_accessing(&mut **left, lca, nid);
            add_accessing(&mut **right, lca, nid);
            if *id == lca && *is_dependent {
                let ghost pre = accessing@;
                accessing.push(nid);
                proof {
                    crate::plan::lemma_ids_set_push(pre, nid);
                }
            }
        },
    }
}

impl QueryTree {
    /// Apply every recorded pair to the tree: each dependent join gains the
    /// accessing ids recorded against it.
    pub fn apply_dependencies(&mut self, relations: &Vec<(NodeId, NodeId)>)
        ensures
            final(self).root@ == apply_rels(old(self).root@, relations@),
            final(self).parent == old(self).parent,
            final(self).providers == old(self).providers,
            final(self).depth == old(self).depth,
    {
        let mut i: usize = 0;
        proof {
            assert(self.root@ == apply_rels(old(self).root@, relations@.subrange(0, 0)));
        }
        while i < relations.len()
            invariant
                i <= relations.len(),
                self.root@ == apply_rels(old(self).root@, relations@.subrange(0, i as int)),
                self.parent == old(self).parent,
                self.providers == old(self).providers,
                self.depth == old(self).depth,
            decreases relations.len() - i,
        {
            let (lca, nid) = relations[i];
            add_accessing(&mut self.root, lca, nid);
            proof {
                let sub = relations@.subrange(0, i as int + 1);
                assert(sub.drop_last() =~= relations@.subrange(0, i as int));
                assert(sub.last() == relations@[i as int]);
            }
            i = i + 1;
        }
        proof {
            assert(relations@.subrange(0, relations@.len() as int) =~= relations@);
        }
    }
}

} // verus!

verus! {

/// Build the column-provider and parent indices for a fresh tree in one
/// traversal; the returned depth map witnesses that the parent index is
/// acyclic.
pub fn build_column_lineage(
    node: &RelNode,
    providers: &mut Vec<(Column, NodeId)>,
    parent_map: &mut Vec<(NodeId, NodeId)>,
) -> (r: Ghost<Map<int, nat>>)
    requires
        ids_uniq(node@),
        old(providers)@.len() == 0,
        old(parent_map)@.len() == 0,
    ensures
        wf_pm(final(parent_map)@, r@),
        pm_get(final(parent_map)@, plan_id(node@)) is None,
        forall|x: int| #![auto]
            has_node_id(node@, x) && x != plan_id(node@) ==> pm_get(final(parent_map)@, x)
                == parent_in(node@, x),
        forall|x: int| #![auto]
            !has_node_id(node@, x) ==> pm_get(final(parent_map)@, x) is None,
        forall|k: int| #![auto]
            0 <= k < final(providers)@.len() ==> introduces(
                node@,
                final(providers)@[k].1 as int,
                final(providers)@[k].0@,
            ),
        forall|i: int, c: ColumnV| #![auto]
            introduces(node@, i, c) ==> prov_get(final(providers)@, c) is Some,
{
    let r = QueryTree::build_maps(node, None, parent_map, providers, Ghost(Map::empty()), Ghost(0));
    proof {
        assert(pm_get(Seq::<(NodeId, NodeId)>::empty(), plan_id(node@)) is None);
        assert forall|x: int| #![auto] !has_node_id(node@, x) implies pm_get(parent_map@, x)
            is None by {
            assert(pm_get(Seq::<(NodeId, NodeId)>::empty(), x) is None);
        }
    }
    r
}

} // verus!
