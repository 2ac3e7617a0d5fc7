//! The decorrelation rewrite engine: a top-down recursive rewrite that
//! carries a context of what the enclosing correlated scope must supply,
//! folds simple correlated filters into join conditions, and otherwise
//! decorrelates through a domain relation and equivalence-class-based
//! column substitution.

use crate::plan::{
    clone_columns, clone_ids, cols_contain, cols_set, expr_cols, expr_view, ids_set, plan_id,
    Column, ColumnV, ColMapping, Expr, ExprV, NodeId, PlanV, RelNode,
};
use vstd::prelude::*;

verus! {

/// One resolved outer reference: `from` is the outer column, `to` the
/// locally available equivalent that stands in for it.
pub struct Substitution {
    pub from: Column,
    pub to: Column,
}

impl Clone for Substitution {
    fn clone(&self) -> (r: Self)
        ensures
            r == *self,
    {
        Substitution { from: self.from.clone(), to: self.to.clone() }
    }
}

/// The substitute a representation map assigns to a column: the first
/// entry for it, if any.
pub open spec fn repr_get(s: Seq<Substitution>, c: ColumnV) -> Option<ColumnV>
    decreases s.len(),
{
    if s.len() == 0 {
        None
    } else if s[0].from@ == c {
        Some(s[0].to@)
    } else {
        repr_get(s.drop_first(), c)
    }
}

#[verifier::spinoff_prover]
pub proof fn lemma_repr_get_push(s: Seq<Substitution>, sub: Substitution, c: ColumnV)
    ensures
        repr_get(s.push(sub), c) == if repr_get(s, c) is Some {
            repr_get(s, c)
        } else if sub.from@ == c {
            Some(sub.to@)
        } else {
            None::<ColumnV>
        },
    decreases s.len(),
{
    let t = s.push(sub);
    if s.len() == 0 {
        assert(t.len() == 1);
        assert(t[0] == sub);
        assert(t.drop_first() =~= Seq::<Substitution>::empty());
        if sub.from@ == c {
            assert(repr_get(t, c) == Some(sub.to@));
        } else {
            assert(repr_get(t, c) == repr_get(t.drop_first(), c));
            assert(repr_get(t.drop_first(), c) is None);
        }
    } else {
        assert(t[0] == s[0]);
        assert(t.drop_first() =~= s.drop_first().push(sub));
        lemma_repr_get_push(s.drop_first(), sub, c);
        if s[0].from@ == c {
            assert(repr_get(t, c) == Some(s[0].to@));
        } else {
            assert(repr_get(t, c) == repr_get(t.drop_first(), c));
            assert(repr_get(s, c) == repr_get(s.drop_first(), c));
        }
    }
}

pub proof fn lemma_repr_get_concat(a: Seq<Substitution>, b: Seq<Substitution>, c: ColumnV)
    ensures
        repr_get(a + b, c) == if repr_get(a, c) is Some {
            repr_get(a, c)
        } else {
            repr_get(b, c)
        },
    decreases a.len(),
{
    if a.len() == 0 {
        assert(a + b =~= b);
    } else {
        assert((a + b).drop_first() =~= a.drop_first() + b);
        lemma_repr_get_concat(a.drop_first(), b, c);
    }
}

/// Look a column up in a representation map.
pub fn repr_lookup(s: &Vec<Substitution>, c: &Column) -> (r: Option<Column>)
    ensures
        match r {
            Some(x) => repr_get(s@, c@) == Some(x@),
            None => repr_get(s@, c@) is None,
        },
{
    proof {
        assert(s@.skip(0) =~= s@);
    }
    let mut i: usize = 0;
    while i < s.len()
        invariant
            i <= s.len(),
            repr_get(s@, c@) == repr_get(s@.skip(i as int), c@),
        decreases s.len() - i,
    {
        if s[i].from == *c {
            proof {
                assert(s@.skip(i as int)[0] == s@[i as int]);
            }
            return Some(s[i].to.clone());
        }
        proof {
            assert(s@.skip(i as int)[0] == s@[i as int]);
            assert(s@.skip(i as int).drop_first() =~= s@.skip(i as int + 1));
        }
        i = i + 1;
    }
    proof {
        assert(s@.skip(s@.len() as int) =~= Seq::<Substitution>::empty());
    }
    None
}

/// One equivalence class seen so far: columns known equal to `col` through
/// `Equal` predicates of the current correlated scope.
pub struct EquivClass {
    pub col: Column,
    pub members: Vec<Column>,
}

impl Clone for EquivClass {
    fn clone(&self) -> (r: Self)
        ensures
            r.col == self.col,
            r.members@ == self.members@,
    {
        EquivClass { col: self.col.clone(), members: clone_columns(&self.members) }
    }
}

/// Two columns are related when some recorded class for the first holds the
/// second.
pub open spec fn cc_rel(s: Seq<EquivClass>, a: ColumnV, b: ColumnV) -> bool {
    exists|k: int| 0 <= k < s.len() && s[k].col@ == a && cols_set(s[k].members@).contains(b)
}

/// All related pairs of a sequence of classes, as one set.
pub open spec fn cc_pairs(s: Seq<EquivClass>) -> Set<(ColumnV, ColumnV)> {
    Set::new(|p: (ColumnV, ColumnV)| cc_rel(s, p.0, p.1))
}

/// The pairs one class contributes.
pub open spec fn entry_pairs(col: ColumnV, members: Seq<Column>) -> Set<(ColumnV, ColumnV)> {
    Set::new(|p: (ColumnV, ColumnV)| p.0 == col && cols_set(members).contains(p.1))
}

pub proof fn lemma_cc_pairs_push(s: Seq<EquivClass>, e: EquivClass)
    ensures
        cc_pairs(s.push(e)) == cc_pairs(s).union(entry_pairs(e.col@, e.members@)),
{
    assert forall|p: (ColumnV, ColumnV)| cc_pairs(s.push(e)).contains(p) implies cc_pairs(
        s,
    ).union(entry_pairs(e.col@, e.members@)).contains(p) by {
        let k = choose|k: int|
            0 <= k < s.push(e).len() && s.push(e)[k].col@ == p.0 && cols_set(
                s.push(e)[k].members@,
            ).contains(p.1);
        if k < s.len() {
            assert(s[k].col@ == p.0 && cols_set(s[k].members@).contains(p.1));
        }
    }
    assert forall|p: (ColumnV, ColumnV)|
        cc_pairs(s).union(entry_pairs(e.col@, e.members@)).contains(p) implies cc_pairs(
        s.push(e),
    ).contains(p) by {
        if cc_pairs(s).contains(p) {
            let k = choose|k: int|
                0 <= k < s.len() && s[k].col@ == p.0 && cols_set(s[k].members@).contains(p.1);
            assert(s.push(e)[k].col@ == p.0 && cols_set(s.push(e)[k].members@).contains(p.1));
        } else {
            assert(s.push(e)[s.len() as int].col@ == p.0 && cols_set(
                s.push(e)[s.len() as int].members@,
            ).contains(p.1));
        }
    }
    assert(cc_pairs(s.push(e)) =~= cc_pairs(s).union(entry_pairs(e.col@, e.members@)));
}

/// The second column is reachable from the first through recorded
/// equivalences in a bounded number of steps.
pub open spec fn cc_reach_fuel(s: Seq<EquivClass>, a: ColumnV, b: ColumnV, fuel: nat) -> bool
    decreases fuel,
{
    cc_rel(s, a, b) || (fuel > 0 && exists|mid: ColumnV| #![auto]
        cc_reach_fuel(s, a, mid, (fuel - 1) as nat) && cc_rel(s, mid, b))
}

/// The transitive closure of the recorded equivalences: what spec the
/// equivalence class of a column is, across chains of `Equal` predicates.
pub open spec fn cc_reach(s: Seq<EquivClass>, a: ColumnV, b: ColumnV) -> bool {
    exists|fuel: nat| cc_reach_fuel(s, a, b, fuel)
}

pub proof fn lemma_reach_step(s: Seq<EquivClass>, a: ColumnV, mid: ColumnV, b: ColumnV)
    requires
        cc_reach(s, a, mid),
        cc_rel(s, mid, b),
    ensures
        cc_reach(s, a, b),
{
    let fuel = choose|fuel: nat| cc_reach_fuel(s, a, mid, fuel);
    assert(cc_reach_fuel(s, a, b, fuel + 1));
}

/// A set that holds every direct equivalent of the start column and of its
/// own members holds the whole closure.
pub open spec fn cc_closed(s: Seq<EquivClass>, c0: ColumnV, set: Set<ColumnV>) -> bool {
    forall|a: ColumnV, b: ColumnV| #![auto]
        cc_rel(s, a, b) && (a == c0 || set.contains(a)) ==> set.contains(b)
}

pub proof fn lemma_reach_in_closed(
    s: Seq<EquivClass>,
    c0: ColumnV,
    set: Set<ColumnV>,
    b: ColumnV,
    fuel: nat,
)
    requires
        cc_closed(s, c0, set),
        cc_reach_fuel(s, c0, b, fuel),
    ensures
        set.contains(b),
    decreases fuel,
{
    if !cc_rel(s, c0, b) {
        let mid = choose|mid: ColumnV| #![auto]
            cc_reach_fuel(s, c0, mid, (fuel - 1) as nat) && cc_rel(s, mid, b);
        lemma_reach_in_closed(s, c0, set, mid, (fuel - 1) as nat);
    }
}

/// Columns pairwise distinct by value.
pub open spec fn view_distinct(s: Seq<Column>) -> bool {
    forall|i: int, j: int| 0 <= i < j < s.len() ==> s[i]@ != s[j]@
}

proof fn lemma_cols_set_card(s: Seq<Column>)
    requires
        view_distinct(s),
    ensures
        cols_set(s).finite(),
        cols_set(s).len() == s.len(),
    decreases s.len(),
{
    if s.len() == 0 {
        assert(cols_set(s) =~= Set::<ColumnV>::empty());
    } else {
        let d = s.drop_last();
        lemma_cols_set_card(d);
        assert(s =~= d.push(s.last()));
        crate::plan::lemma_cols_set_push(d, s.last());
        assert(!cols_set(d).contains(s.last()@)) by {
            if cols_set(d).contains(s.last()@) {
                let k = choose|k: int| 0 <= k < d.len() && d[k]@ == s.last()@;
                assert(s[k]@ == s.last()@);
            }
        }
    }
}

proof fn lemma_cols_set_card_le(s: Seq<Column>)
    ensures
        cols_set(s).finite(),
        cols_set(s).len() <= s.len(),
    decreases s.len(),
{
    if s.len() == 0 {
        assert(cols_set(s) =~= Set::<ColumnV>::empty());
    } else {
        let d = s.drop_last();
        lemma_cols_set_card_le(d);
        assert(s =~= d.push(s.last()));
        crate::plan::lemma_cols_set_push(d, s.last());
    }
}

/// Record that `key` and `val` were seen equal.
pub fn cc_add(cc: &mut Vec<EquivClass>, key: &Column, val: &Column)
    ensures
        cc_pairs(final(cc)@) == cc_pairs(old(cc)@).insert((key@, val@)),
{
    let mut members: Vec<Column> = Vec::new();
    members.push(val.clone());
    let entry = EquivClass { col: key.clone(), members };
    cc.push(entry);
    proof {
        let e = cc@[cc@.len() - 1];
        assert(e.members@.len() == 1);
        assert(e.members@[0]@ == val@);
        lemma_cc_pairs_push(old(cc)@, e);
        assert forall|p: (ColumnV, ColumnV)|
            entry_pairs(e.col@, e.members@).contains(p) implies p == (key@, val@) by {
            if cols_set(e.members@).contains(p.1) {
                assert(p.1 == val@);
            }
        }
        assert(cols_set(e.members@).contains(val@));
        assert(entry_pairs(e.col@, e.members@) =~= Set::<(ColumnV, ColumnV)>::empty().insert(
            (key@, val@),
        ));
        assert(cc_pairs(cc@) =~= cc_pairs(old(cc)@).insert((key@, val@)));
    }
}

/// The equality pairs an expression's conjuncts establish between columns,
/// in both directions.
pub open spec fn expr_pairs(e: ExprV) -> Set<(ColumnV, ColumnV)>
    decreases e,
{
    match e {
        ExprV::Equal(l, r) => match *l {
            ExprV::ColumnRef(x) => match *r {
                ExprV::ColumnRef(y) => Set::empty().insert((x, y)).insert((y, x)),
                _ => Set::empty(),
            },
            _ => Set::empty(),
        },
        ExprV::And(l, r) => expr_pairs(*l).union(expr_pairs(*r)),
        _ => Set::empty(),
    }
}

/// Register every `column = column` conjunct of an expression as a
/// bidirectional equivalence.
pub fn add_equivalences_from_expr(expr: &Expr, cclasses: &mut Vec<EquivClass>)
    ensures
        cc_pairs(final(cclasses)@) == cc_pairs(old(cclasses)@).union(expr_pairs(expr@)),
    decreases expr,
{
    match expr {
        Expr::Equal(l, r) => {
            match &**l {
                Expr::ColumnRef(lc) => match &**r {
                    Expr::ColumnRef(rc) => {
                        cc_add(cclasses, lc, rc);
                        cc_add(cclasses, rc, lc);
                        proof {
                            assert(expr_view(**l) == ExprV::ColumnRef(lc@));
                            assert(expr_view(**r) == ExprV::ColumnRef(rc@));
                            assert(expr_pairs(expr@) == Set::<(ColumnV, ColumnV)>::empty().insert(
                                (lc@, rc@),
                            ).insert((rc@, lc@)));
                            assert(cc_pairs(cclasses@) =~= cc_pairs(old(cclasses)@).union(
                                expr_pairs(expr@),
                            ));
                        }
                    },
                    _ => {
                        proof {
                            assert(!(expr_view(**r) is ColumnRef));
                            assert(expr_pairs(expr@) == Set::<(ColumnV, ColumnV)>::empty());
                            assert(cc_pairs(cclasses@) =~= cc_pairs(old(cclasses)@).union(
                                expr_pairs(expr@),
                            ));
                        }
                    },
                },
                _ => {
                    proof {
                        assert(!(expr_view(**l) is ColumnRef));
                        assert(expr_pairs(expr@) == Set::<(ColumnV, ColumnV)>::empty());
                        assert(cc_pairs(cclasses@) =~= cc_pairs(old(cclasses)@).union(
                            expr_pairs(expr@),
                        ));
                    }
                },
            }
        },
        Expr::And(l, r) => {
            add_equivalences_from_expr(&**l, cclasses);
            let ghost mid = cclasses@;
            add_equivalences_from_expr(&**r, cclasses);
            proof {
                assert(expr_pairs(expr@) == expr_pairs(expr_view(**l)).union(
                    expr_pairs(expr_view(**r)),
                ));
                assert(cc_pairs(cclasses@) =~= cc_pairs(old(cclasses)@).union(
                    expr_pairs(expr@),
                ));
            }
        },
        _ => {
            proof {
                assert(expr_pairs(expr@) == Set::<(ColumnV, ColumnV)>::empty());
                assert(cc_pairs(cclasses@) =~= cc_pairs(old(cclasses)@).union(expr_pairs(expr@)));
            }
        },
    }
}

} // verus!

verus! {

/// The view of an optional plan node.
pub open spec fn dom_view(o: Option<RelNode>) -> Option<PlanV> {
    match o {
        Some(n) => Some(n@),
        None => None,
    }
}

fn clone_substs(v: &Vec<Substitution>) -> (r: Vec<Substitution>)
    ensures
        r@ == v@,
{
    let mut r: Vec<Substitution> = Vec::new();
    let mut i: usize = 0;
    while i < v.len()
        invariant
            i <= v.len(),
            r@ == v@.subrange(0, i as int),
        decreases v.len() - i,
    {
        r.push(v[i].clone());
        i = i + 1;
        proof {
            assert(r@ =~= v@.subrange(0, i as int));
        }
    }
    proof {
        assert(r@ =~= v@);
    }
    r
}

fn clone_classes(v: &Vec<EquivClass>) -> (r: Vec<EquivClass>)
    ensures
        cc_pairs(r@) == cc_pairs(v@),
{
    let mut r: Vec<EquivClass> = Vec::new();
    proof {
        assert(cc_pairs(r@) =~= cc_pairs(v@.subrange(0, 0)));
    }
    let mut i: usize = 0;
    while i < v.len()
        invariant
            i <= v.len(),
            cc_pairs(r@) == cc_pairs(v@.subrange(0, i as int)),
        decreases v.len() - i,
    {
        let ghost pre = r@;
        r.push(v[i].clone());
        proof {
            let e = r@[r@.len() - 1];
            lemma_cc_pairs_push(pre, e);
            assert(v@.subrange(0, i as int + 1) =~= v@.subrange(0, i as int).push(v@[i as int]));
            lemma_cc_pairs_push(v@.subrange(0, i as int), v@[i as int]);
            assert(entry_pairs(e.col@, e.members@) == entry_pairs(
                v@[i as int].col@,
                v@[i as int].members@,
            ));
            assert(cc_pairs(r@) =~= cc_pairs(v@.subrange(0, i as int + 1)));
        }
        i = i + 1;
    }
    proof {
        assert(v@.subrange(0, v@.len() as int) =~= v@);
    }
    r
}

/// The recursion-scoped context of the rewrite: the outer-referenced columns
/// this correlated scope must supply, the optional domain node built from
/// them, the equivalence classes seen so far, the representation map of
/// resolved outer references, and the enclosing scope's context.
pub struct UnnestingInfo {
    pub outer_refs: Vec<Column>,
    pub domain: Option<RelNode>,
    pub cclasses: Vec<EquivClass>,
    pub repr: Vec<Substitution>,
    pub parent: Option<Box<UnnestingInfo>>,
}

impl Clone for UnnestingInfo {
    fn clone(&self) -> (r: Self)
        ensures
            r.outer_refs@ == self.outer_refs@,
            r.repr@ == self.repr@,
            cc_pairs(r.cclasses@) == cc_pairs(self.cclasses@),
            dom_view(r.domain) == dom_view(self.domain),
            r.parent is Some <==> self.parent is Some,
        decreases self,
    {
        let domain: Option<RelNode> = match &self.domain {
            Some(n) => Some(n.clone()),
            None => None,
        };
        let parent: Option<Box<UnnestingInfo>> = match &self.parent {
            Some(p) => Some(Box::new((**p).clone())),
            None => None,
        };
        UnnestingInfo {
            outer_refs: clone_columns(&self.outer_refs),
            domain,
            cclasses: clone_classes(&self.cclasses),
            repr: clone_substs(&self.repr),
            parent,
        }
    }
}

impl UnnestingInfo {
    /// A fresh context for the given outer references and domain node.
    pub fn new(outer_refs: Vec<Column>, domain: Option<RelNode>) -> (r: Self)
        ensures
            r.outer_refs == outer_refs,
            r.domain == domain,
            r.cclasses@.len() == 0,
            r.repr@.len() == 0,
            r.parent is None,
    {
        UnnestingInfo { outer_refs, domain, cclasses: Vec::new(), repr: Vec::new(), parent: None }
    }

    /// The same context, linked to the enclosing scope's context.
    pub fn with_parent(self, parent: UnnestingInfo) -> (r: Self)
        ensures
            r.outer_refs == self.outer_refs,
            r.domain == self.domain,
            r.cclasses == self.cclasses,
            r.repr == self.repr,
            r.parent is Some,
    {
        UnnestingInfo {
            outer_refs: self.outer_refs,
            domain: self.domain,
            cclasses: self.cclasses,
            repr: self.repr,
            parent: Some(Box::new(parent)),
        }
    }

    /// Merge another context's equivalence classes into this one.
    pub fn merge_equivalence_classes(&mut self, other: &UnnestingInfo)
        ensures
            final(self).outer_refs == old(self).outer_refs,
            final(self).domain == old(self).domain,
            final(self).repr == old(self).repr,
            final(self).parent == old(self).parent,
            cc_pairs(final(self).cclasses@) == cc_pairs(old(self).cclasses@).union(
                cc_pairs(other.cclasses@),
            ),
    {
        let mut i: usize = 0;
        proof {
            assert(cc_pairs(self.cclasses@) =~= cc_pairs(old(self).cclasses@).union(
                cc_pairs(other.cclasses@.subrange(0, 0)),
            ));
        }
        while i < other.cclasses.len()
            invariant
                i <= other.cclasses.len(),
                self.outer_refs == old(self).outer_refs,
                self.domain == old(self).domain,
                self.repr == old(self).repr,
                self.parent == old(self).parent,
                cc_pairs(self.cclasses@) == cc_pairs(old(self).cclasses@).union(
                    cc_pairs(other.cclasses@.subrange(0, i as int)),
                ),
            decreases other.cclasses.len() - i,
        {
            let ghost pre = self.cclasses@;
            self.cclasses.push(other.cclasses[i].clone());
            proof {
                let e = self.cclasses@[self.cclasses@.len() - 1];
                lemma_cc_pairs_push(pre, e);
                assert(other.cclasses@.subrange(0, i as int + 1) =~= other.cclasses@.subrange(
                    0,
                    i as int,
                ).push(other.cclasses@[i as int]));
                lemma_cc_pairs_push(
                    other.cclasses@.subrange(0, i as int),
                    other.cclasses@[i as int],
                );
                assert(entry_pairs(e.col@, e.members@) == entry_pairs(
                    other.cclasses@[i as int].col@,
                    other.cclasses@[i as int].members@,
                ));
                assert(cc_pairs(self.cclasses@) =~= cc_pairs(old(self).cclasses@).union(
                    cc_pairs(other.cclasses@.subrange(0, i as int + 1)),
                ));
            }
            i = i + 1;
        }
        proof {
            assert(other.cclasses@.subrange(0, other.cclasses@.len() as int) =~= other.cclasses@);
        }
    }
}

} // verus!

verus! {

/// Search the transitive closure of a column's equivalence class for a
/// member that is currently available: first compute every column reachable
/// through recorded equivalences, then scan it against the available set.
#[verifier::loop_isolation(false)]
fn resolve_in_classes(cclasses: &Vec<EquivClass>, c: &Column, available: &Vec<Column>) -> (r:
    Option<Column>)
    ensures
        match r {
            Some(b) => cc_reach(cclasses@, c@, b@) && cols_set(available@).contains(b@),
            None => forall|b: ColumnV|
                !(cc_reach(cclasses@, c@, b) && cols_set(available@).contains(b)),
        },
{
    let mut universe: Vec<Column> = Vec::new();
    let mut u: usize = 0;
    while u < cclasses.len()
        invariant
            u <= cclasses.len(),
            forall|k: int| #![auto]
                0 <= k < u ==> cols_set(cclasses@[k].members@).subset_of(cols_set(universe@)),
        decreases cclasses.len() - u,
    {
        let ghost pre = universe@;
        crate::plan::extend_cols(&mut universe, &cclasses[u].members);
        proof {
            assert forall|k: int| #![auto]
                0 <= k < u + 1 implies cols_set(cclasses@[k].members@).subset_of(
                cols_set(universe@),
            ) by {
                assert(cols_set(universe@) == cols_set(pre).union(
                    cols_set(cclasses@[u as int].members@),
                ));
            }
        }
        u = u + 1;
    }
    let mut set: Vec<Column> = Vec::new();
    proof {
        assert(cols_set(set@) =~= Set::<ColumnV>::empty());
        lemma_cols_set_card_le(universe@);
    }
    loop
        invariant
            view_distinct(set@),
            cols_set(set@).subset_of(cols_set(universe@)),
            set@.len() <= universe@.len(),
            forall|b: ColumnV| #![auto]
                cols_set(set@).contains(b) ==> cc_reach(cclasses@, c@, b),
        decreases universe@.len() + 1 - set@.len(),
    {
        let before = set.len();
        let ghost start = set@;
        let mut k: usize = 0;
        while k < cclasses.len()
            invariant
                k <= cclasses.len(),
                view_distinct(set@),
                cols_set(set@).subset_of(cols_set(universe@)),
                set@.len() <= universe@.len(),
                before <= set@.len(),
                before == start.len(),
                forall|b: ColumnV| #![auto]
                    cols_set(set@).contains(b) ==> cc_reach(cclasses@, c@, b),
                set@.len() == start.len() ==> set@ == start,
                set@ == start ==> (forall|k2: int| #![auto]
                    0 <= k2 < k ==> ((cclasses@[k2].col@ == c@ || cols_set(start).contains(
                        cclasses@[k2].col@,
                    )) ==> cols_set(cclasses@[k2].members@).subset_of(cols_set(start)))),
            decreases cclasses.len() - k,
        {
            let head_matches = cclasses[k].col == *c || cols_contain(&set, &cclasses[k].col);
            if head_matches {
                proof {
                    if cclasses@[k as int].col@ != c@ {
                        assert(cc_reach(cclasses@, c@, cclasses@[k as int].col@));
                    }
                }
                let ghost hv = cclasses@[k as int].col@;
                let mut j: usize = 0;
                while j < cclasses[k].members.len()
                    invariant
                        k < cclasses@.len(),
                        j <= cclasses@[k as int].members@.len(),
                        view_distinct(set@),
                        cols_set(set@).subset_of(cols_set(universe@)),
                        set@.len() <= universe@.len(),
                        before <= set@.len(),
                        hv == cclasses@[k as int].col@,
                        hv == c@ || cc_reach(cclasses@, c@, hv),
                        forall|b: ColumnV| #![auto]
                            cols_set(set@).contains(b) ==> cc_reach(cclasses@, c@, b),
                        set@.len() == start.len() ==> set@ == start,
                        set@ == start ==> (forall|k2: int| #![auto]
                            0 <= k2 < k ==> ((cclasses@[k2].col@ == c@ || cols_set(
                                start,
                            ).contains(cclasses@[k2].col@)) ==> cols_set(
                                cclasses@[k2].members@,
                            ).subset_of(cols_set(start)))),
                        set@ == start ==> (forall|t: int|
                            0 <= t < j ==> cols_set(start).contains(
                                #[trigger] (cclasses@[k as int].members@[t]@),
                            )),
                    decreases cclasses@[k as int].members@.len() - j,
                {
                    let m = &cclasses[k].members[j];
                    if !cols_contain(&set, m) {
                        let ghost pre = set@;
                        set.push(m.clone());
                        proof {
                            crate::plan::lemma_cols_set_push(pre, set@[set@.len() - 1]);
                            assert(cc_rel(cclasses@, hv, m@)) by {
                                assert(cols_set(cclasses@[k as int].members@).contains(m@));
                            }
                            if hv == c@ {
                                assert(cc_reach_fuel(cclasses@, c@, m@, 0));
                            } else {
                                lemma_reach_step(cclasses@, c@, hv, m@);
                            }
                            assert(cols_set(cclasses@[k as int].members@).subset_of(
                                cols_set(universe@),
                            ));
                            lemma_cols_set_card(set@);
                            vstd::set_lib::lemma_len_subset(cols_set(set@), cols_set(universe@));
                            assert(set@.len() <= universe@.len());
                        }
                    }
                    j = j + 1;
                }
                proof {
                    assert(cclasses@[k as int].members@.subrange(
                        0,
                        cclasses@[k as int].members@.len() as int,
                    ) =~= cclasses@[k as int].members@);
                    if set@ == start {
                        assert forall|b: ColumnV|
                            cols_set(cclasses@[k as int].members@).contains(b) implies cols_set(
                            start,
                        ).contains(b) by {
                            let t = choose|t: int|
                                0 <= t < cclasses@[k as int].members@.len()
                                    && cclasses@[k as int].members@[t]@ == b;
                            assert(cols_set(start).contains(cclasses@[k as int].members@[t]@));
                        }
                    }
                }
            }
            k = k + 1;
        }
        if set.len() == before {
            proof {
                assert(set@ == start);
                assert(cc_closed(cclasses@, c@, cols_set(set@))) by {
                    assert forall|a: ColumnV, b: ColumnV| #![auto]
                        cc_rel(cclasses@, a, b) && (a == c@ || cols_set(set@).contains(
                            a,
                        )) implies cols_set(set@).contains(b) by {
                        let k0 = choose|k0: int|
                            0 <= k0 < cclasses@.len() && cclasses@[k0].col@ == a && cols_set(
                                cclasses@[k0].members@,
                            ).contains(b);
                        assert(cols_set(cclasses@[k0].members@).subset_of(cols_set(start)));
                    }
                }
            }
            break ;
        }
    }
    let mut t: usize = 0;
    while t < set.len()
        invariant
            cc_closed(cclasses@, c@, cols_set(set@)),
            forall|b: ColumnV| #![auto]
                cols_set(set@).contains(b) ==> cc_reach(cclasses@, c@, b),
            forall|q: int| 0 <= q < t ==> !cols_set(available@).contains(#[trigger] (set@[q]@)),
        decreases set@.len() - t,
    {
        if cols_contain(available, &set[t]) {
            proof {
                assert(cols_set(set@).contains(set@[t as int]@));
            }
            return Some(set[t].clone());
        }
        t = t + 1;
    }
    proof {
        assert forall|b: ColumnV|
            !(cc_reach(cclasses@, c@, b) && cols_set(available@).contains(b)) by {
            if cc_reach(cclasses@, c@, b) && cols_set(available@).contains(b) {
                let fuel = choose|fuel: nat| cc_reach_fuel(cclasses@, c@, b, fuel);
                lemma_reach_in_closed(cclasses@, c@, cols_set(set@), b, fuel);
                let q = choose|q: int| 0 <= q < set@.len() && set@[q]@ == b;
                assert(!cols_set(available@).contains(set@[q]@));
            }
        }
    }
    None
}

/// Some member of the column's equivalence class is available.
pub open spec fn resolvable(
    cc: Seq<EquivClass>,
    c: ColumnV,
    avail: Seq<Column>,
) -> bool {
    exists|b: ColumnV| #![auto] cc_reach(cc, c, b) && cols_set(avail).contains(b)
}

/// Entries of the earlier representation map keep their substitutes.
pub open spec fn repr_stable(old_repr: Seq<Substitution>, cur: Seq<Substitution>) -> bool {
    forall|c: ColumnV| #![trigger repr_get(cur, c)]
        repr_get(old_repr, c) is Some ==> repr_get(cur, c) == repr_get(old_repr, c)
}

/// Every substitute added since the earlier map resolves an outer reference
/// to an available member of its equivalence class.
pub open spec fn repr_sound(
    old_repr: Seq<Substitution>,
    cur: Seq<Substitution>,
    outer: Seq<Column>,
    cc: Seq<EquivClass>,
    avail: Seq<Column>,
) -> bool {
    forall|c: ColumnV| #![trigger repr_get(cur, c)]
        repr_get(old_repr, c) is None ==> (repr_get(cur, c) matches Some(b) ==> cols_set(
            outer,
        ).contains(c) && cc_reach(cc, c, b) && cols_set(avail).contains(b))
}

/// Every outer reference listed before the bound is resolved, unless no
/// member of its class is available.
pub open spec fn repr_progress(
    cur: Seq<Substitution>,
    outer: Seq<Column>,
    upto: int,
    cc: Seq<EquivClass>,
    avail: Seq<Column>,
) -> bool {
    forall|t: int| #![trigger outer[t]]
        0 <= t < upto ==> (repr_get(cur, outer[t]@) is Some || !resolvable(cc, outer[t]@, avail))
}

impl UnnestingInfo {
    /// For each not-yet-resolved outer reference, search its equivalence
    /// class for a column in the current available set; the first match
    /// becomes its substitute, and a substitute, once recorded, never
    /// changes.
    pub fn create_replacement_mappings(&mut self, available: &Vec<Column>)
        ensures
            final(self).outer_refs == old(self).outer_refs,
            final(self).domain == old(self).domain,
            final(self).cclasses == old(self).cclasses,
            final(self).parent == old(self).parent,
            repr_stable(old(self).repr@, final(self).repr@),
            repr_sound(
                old(self).repr@,
                final(self).repr@,
                old(self).outer_refs@,
                old(self).cclasses@,
                available@,
            ),
            repr_progress(
                final(self).repr@,
                old(self).outer_refs@,
                old(self).outer_refs@.len() as int,
                old(self).cclasses@,
                available@,
            ),
            old(self).outer_refs@.len() == 0 ==> final(self).repr == old(self).repr,
    {
        let ghost orefs = self.outer_refs@;
        let ghost cc = self.cclasses@;
        let mut i: usize = 0;
        proof {
            assert(repr_stable(old(self).repr@, self.repr@));
            assert(repr_sound(old(self).repr@, self.repr@, orefs, cc, available@));
            assert(repr_progress(self.repr@, orefs, 0, cc, available@));
        }
        while i < self.outer_refs.len()
            invariant
                i <= self.outer_refs.len(),
                self.outer_refs == old(self).outer_refs,
                self.domain == old(self).domain,
                self.cclasses == old(self).cclasses,
                self.parent == old(self).parent,
                orefs == self.outer_refs@,
                cc == self.cclasses@,
                old(self).outer_refs@.len() == 0 ==> self.repr == old(self).repr,
                repr_stable(old(self).repr@, self.repr@),
                repr_sound(old(self).repr@, self.repr@, orefs, cc, available@),
                repr_progress(self.repr@, orefs, i as int, cc, available@),
            decreases self.outer_refs.len() - i,
        {
            let c = self.outer_refs[i].clone();
            let already = repr_lookup(&self.repr, &c);
            if already.is_none() {
                let found = resolve_in_classes(&self.cclasses, &c, available);
                match found {
                    Some(b) => {
                        let ghost pre = self.repr@;
                        let ghost bv = b@;
                        self.repr.push(Substitution { from: c, to: b });
                        proof {
                            let sub = self.repr@[self.repr@.len() - 1];
                            assert(self.repr@ == pre.push(sub));
                            assert(sub.from@ == orefs[i as int]@);
                            assert(sub.to@ == bv);
                            assert(cols_set(orefs).contains(orefs[i as int]@));
                            assert(cc_reach(cc, sub.from@, sub.to@));
                            assert(repr_get(old(self).repr@, sub.from@) is None);
                            assert(repr_stable(old(self).repr@, self.repr@)) by {
                                assert forall|x: ColumnV| #![trigger repr_get(self.repr@, x)]
                                    repr_get(old(self).repr@, x) is Some implies repr_get(
                                    self.repr@,
                                    x,
                                ) == repr_get(old(self).repr@, x) by {
                                    lemma_repr_get_push(pre, sub, x);
                                    assert(repr_get(pre, x) == repr_get(old(self).repr@, x));
                                }
                            }
                            assert(repr_sound(
                                old(self).repr@,
                                self.repr@,
                                orefs,
                                cc,
                                available@,
                            )) by {
                                assert forall|x: ColumnV| #![trigger repr_get(self.repr@, x)]
                                    repr_get(old(self).repr@, x) is None implies (repr_get(
                                    self.repr@,
                                    x,
                                ) matches Some(y) ==> cols_set(orefs).contains(x) && cc_reach(
                                    cc,
                                    x,
                                    y,
                                ) && cols_set(available@).contains(y)) by {
                                    lemma_repr_get_push(pre, sub, x);
                                }
                            }
                            assert(repr_progress(self.repr@, orefs, i as int + 1, cc, available@))
                                by {
                                assert forall|t: int| #![trigger orefs[t]]
                                    0 <= t < i + 1 implies (repr_get(self.repr@, orefs[t]@)
                                    is Some || !resolvable(cc, orefs[t]@, available@)) by {
                                    lemma_repr_get_push(pre, sub, orefs[t]@);
                                }
                            }
                        }
                    },
                    None => {
                        proof {
                            assert(repr_progress(self.repr@, orefs, i as int + 1, cc, available@))
                                by {
                                assert forall|t: int| #![trigger orefs[t]]
                                    0 <= t < i + 1 implies (repr_get(self.repr@, orefs[t]@)
                                    is Some || !resolvable(cc, orefs[t]@, available@)) by {
                                    if t == i {
                                        assert(!resolvable(cc, orefs[t]@, available@)) by {
                                            if resolvable(cc, orefs[t]@, available@) {
                                                let y = choose|y: ColumnV| #![auto]
                                                    cc_reach(cc, orefs[t]@, y) && cols_set(
                                                        available@,
                                                    ).contains(y);
                                                assert(!(cc_reach(cc, c@, y) && cols_set(
                                                    available@,
                                                ).contains(y)));
                                            }
                                        }
                                    }
                                }
                            }
                        }
                    },
                }
            } else {
                proof {
                    assert(repr_progress(self.repr@, orefs, i as int + 1, cc, available@)) by {
                        assert forall|t: int| #![trigger orefs[t]]
                            0 <= t < i + 1 implies (repr_get(self.repr@, orefs[t]@) is Some
                            || !resolvable(cc, orefs[t]@, available@)) by {
                            if t == i {
                                assert(repr_get(self.repr@, c@) is Some);
                            }
                        }
                    }
                }
            }
            i = i + 1;
        }
    }
}

} // verus!

verus! {

/// An expression with every resolved outer reference replaced by its
/// substitute.
pub open spec fn rewrite_expr_spec(e: ExprV, repr: Seq<Substitution>) -> ExprV
    decreases e,
{
    match e {
        ExprV::ColumnRef(c) => match repr_get(repr, c) {
            Some(n) => ExprV::ColumnRef(n),
            None => ExprV::ColumnRef(c),
        },
        ExprV::Constant(s) => ExprV::Constant(s),
        ExprV::Equal(l, r) => ExprV::Equal(
            Box::new(rewrite_expr_spec(*l, repr)),
            Box::new(rewrite_expr_spec(*r, repr)),
        ),
        ExprV::And(l, r) => ExprV::And(
            Box::new(rewrite_expr_spec(*l, repr)),
            Box::new(rewrite_expr_spec(*r, repr)),
        ),
        ExprV::GreaterThan(l, r) => ExprV::GreaterThan(
            Box::new(rewrite_expr_spec(*l, repr)),
            Box::new(rewrite_expr_spec(*r, repr)),
        ),
        ExprV::Count => ExprV::Count,
        ExprV::Sum(e0) => ExprV::Sum(Box::new(rewrite_expr_spec(*e0, repr))),
    }
}

/// An empty representation map rewrites every expression to itself.
pub proof fn lemma_rewrite_expr_empty(e: ExprV, repr: Seq<Substitution>)
    requires
        repr.len() == 0,
    ensures
        rewrite_expr_spec(e, repr) == e,
    decreases e,
{
    match e {
        ExprV::ColumnRef(c) => {},
        ExprV::Constant(_) => {},
        ExprV::Equal(l, r) => {
            lemma_rewrite_expr_empty(*l, repr);
            lemma_rewrite_expr_empty(*r, repr);
        },
        ExprV::And(l, r) => {
            lemma_rewrite_expr_empty(*l, repr);
            lemma_rewrite_expr_empty(*r, repr);
        },
        ExprV::GreaterThan(l, r) => {
            lemma_rewrite_expr_empty(*l, repr);
            lemma_rewrite_expr_empty(*r, repr);
        },
        ExprV::Count => {},
        ExprV::Sum(e0) => {
            lemma_rewrite_expr_empty(*e0, repr);
        },
    }
}

/// Substitute every resolved outer reference of an expression.
pub fn rewrite_expr(expr: &Expr, repr: &Vec<Substitution>) -> (r: Expr)
    ensures
        r@ == rewrite_expr_spec(expr@, repr@),
    decreases expr,
{
    match expr {
        Expr::ColumnRef(col) => match repr_lookup(repr, col) {
            Some(n) => Expr::ColumnRef(n),
            None => Expr::ColumnRef(col.clone()),
        },
        Expr::Constant(s) => Expr::Constant(s.clone()),
        Expr::Equal(l, r) => Expr::Equal(
            Box::new(rewrite_expr(l, repr)),
            Box::new(rewrite_expr(r, repr)),
        ),
        Expr::And(l, r) => Expr::And(
            Box::new(rewrite_expr(l, repr)),
            Box::new(rewrite_expr(r, repr)),
        ),
        Expr::GreaterThan(l, r) => Expr::GreaterThan(
            Box::new(rewrite_expr(l, repr)),
            Box::new(rewrite_expr(r, repr)),
        ),
        Expr::Count => Expr::Count,
        Expr::Sum(e0) => Expr::Sum(Box::new(rewrite_expr(e0, repr))),
    }
}

/// Gather every column an expression mentions.
pub fn get_expr_columns(expr: &Expr) -> (r: Vec<Column>)
    ensures
        cols_set(r@) == expr_cols(expr@),
{
    let mut r: Vec<Column> = Vec::new();
    crate::plan::collect_columns_from_expr(expr, &mut r);
    proof {
        assert(cols_set(r@) =~= expr_cols(expr@));
    }
    r
}

/// The columns a node produces for its parent.
pub fn get_node_produced_columns(node: &RelNode) -> (r: Vec<Column>)
    ensures
        cols_set(r@) == crate::plan::produced_cols(node@),
{
    node.get_produced_columns()
}

/// Append the candidate columns that the excluded set does not hold.
fn push_missing(dst: &mut Vec<Column>, cand: &Vec<Column>, exclude: &Vec<Column>)
    ensures
        cols_set(final(dst)@) == cols_set(old(dst)@).union(
            cols_set(cand@).difference(cols_set(exclude@)),
        ),
{
    let mut i: usize = 0;
    proof {
        assert(cols_set(dst@) =~= cols_set(old(dst)@).union(
            cols_set(cand@.subrange(0, 0)).difference(cols_set(exclude@)),
        ));
    }
    while i < cand.len()
        invariant
            i <= cand.len(),
            cols_set(dst@) == cols_set(old(dst)@).union(
                cols_set(cand@.subrange(0, i as int)).difference(cols_set(exclude@)),
            ),
        decreases cand.len() - i,
    {
        if !cols_contain(exclude, &cand[i]) {
            crate::plan::push_col(dst, &cand[i]);
        }
        proof {
            assert(cand@.subrange(0, i as int + 1) =~= cand@.subrange(0, i as int).push(
                cand@[i as int],
            ));
            crate::plan::lemma_cols_set_push(cand@.subrange(0, i as int), cand@[i as int]);
            assert(cols_set(dst@) =~= cols_set(old(dst)@).union(
                cols_set(cand@.subrange(0, i as int + 1)).difference(cols_set(exclude@)),
            ));
        }
        i = i + 1;
    }
    proof {
        assert(cand@.subrange(0, cand@.len() as int) =~= cand@);
    }
}

/// The columns a subtree references without producing them itself.
pub fn get_node_free_variables(node: &RelNode) -> (r: Vec<Column>)
    ensures
        cols_set(r@) == crate::plan::free_vars(node@),
    decreases node,
{
    let mut result: Vec<Column> = Vec::new();
    proof {
        assert(cols_set(result@) =~= Set::<ColumnV>::empty());
    }
    match node {
        RelNode::Select { predicate, input, .. } => {
            let pred_cols = get_expr_columns(predicate);
            let input_cols = (**input).get_produced_columns();
            push_missing(&mut result, &pred_cols, &input_cols);
            let inner = get_node_free_variables(input);
            crate::plan::extend_cols(&mut result, &inner);
            proof {
                assert(cols_set(result@) =~= crate::plan::free_vars(node@));
            }
        },
        RelNode::Project { mappings, input, .. } => {
            let mut cand: Vec<Column> = Vec::new();
            let ghost vm = mappings@.map_values(|m: ColMapping| m@);
            proof {
                assert(cols_set(cand@) =~= crate::plan::mapping_expr_cols(vm.subrange(0, 0)));
            }
            let mut i: usize = 0;
            while i < mappings.len()
                invariant
                    i <= mappings.len(),
                    vm == mappings@.map_values(|m: ColMapping| m@),
                    cols_set(cand@) == crate::plan::mapping_expr_cols(vm.subrange(0, i as int)),
                decreases mappings.len() - i,
            {
                crate::plan::collect_columns_from_expr(&mappings[i].expr, &mut cand);
                proof {
                    assert(vm.subrange(0, i as int + 1) =~= vm.subrange(0, i as int).push(
                        vm[i as int],
                    ));
                    crate::plan::lemma_mapping_expr_cols_push(
                        vm.subrange(0, i as int),
                        vm[i as int],
                    );
                    assert(cols_set(cand@) =~= crate::plan::mapping_expr_cols(
                        vm.subrange(0, i as int + 1),
                    ));
                }
                i = i + 1;
            }
            proof {
                assert(vm.subrange(0, vm.len() as int) =~= vm);
            }
            let input_cols = (**input).get_produced_columns();
            push_missing(&mut result, &cand, &input_cols);
            let inner = get_node_free_variables(input);
            crate::plan::extend_cols(&mut result, &inner);
            proof {
                assert(cols_set(result@) =~= crate::plan::free_vars(node@));
            }
        },
        RelNode::GroupBy { aggregates, input, .. } => {
            let mut cand: Vec<Column> = Vec::new();
            let ghost va = aggregates@.map_values(|m: ColMapping| m@);
            proof {
                assert(cols_set(cand@) =~= crate::plan::mapping_expr_cols(va.subrange(0, 0)));
            }
            let mut i: usize = 0;
            while i < aggregates.len()
                invariant
                    i <= aggregates.len(),
                    va == aggregates@.map_values(|m: ColMapping| m@),
                    cols_set(cand@) == crate::plan::mapping_expr_cols(va.subrange(0, i as int)),
                decreases aggregates.len() - i,
            {
                crate::plan::collect_columns_from_expr(&aggregates[i].expr, &mut cand);
                proof {
                    assert(va.subrange(0, i as int + 1) =~= va.subrange(0, i as int).push(
                        va[i as int],
                    ));
                    crate::plan::lemma_mapping_expr_cols_push(
                        va.subrange(0, i as int),
                        va[i as int],
                    );
                    assert(cols_set(cand@) =~= crate::plan::mapping_expr_cols(
                        va.subrange(0, i as int + 1),
                    ));
                }
                i = i + 1;
            }
            proof {
                assert(va.subrange(0, va.len() as int) =~= va);
            }
            let input_cols = (**input).get_produced_columns();
            push_missing(&mut result, &cand, &input_cols);
            let inner = get_node_free_variables(input);
            crate::plan::extend_cols(&mut result, &inner);
            proof {
                assert(cols_set(result@) =~= crate::plan::free_vars(node@));
            }
        },
        RelNode::Join { condition, left, right, .. } => {
            let cond_cols = get_expr_columns(condition);
            let mut produced = (**left).get_produced_columns();
            let right_cols = (**right).get_produced_columns();
            crate::plan::extend_cols(&mut produced, &right_cols);
            push_missing(&mut result, &cond_cols, &produced);
            let left_free = get_node_free_variables(left);
            crate::plan::extend_cols(&mut result, &left_free);
            let right_free = get_node_free_variables(right);
            crate::plan::extend_cols(&mut result, &right_free);
            proof {
                assert(cols_set(result@) =~= crate::plan::free_vars(node@));
            }
        },
        RelNode::Table { .. } => {
            proof {
                assert(cols_set(result@) =~= crate::plan::free_vars(node@));
            }
        },
    }
    result
}

/// The columns the left side produces, and the free variables of the right
/// side: intersecting them yields the outer references of a dependent join.
pub fn find_correlation(left: &RelNode, right: &RelNode) -> (r: (Vec<Column>, Vec<Column>))
    ensures
        cols_set(r.0@) == crate::plan::produced_cols(left@),
        cols_set(r.1@) == crate::plan::free_vars(right@),
{
    let left_cols = left.get_produced_columns();
    let right_free_vars = get_node_free_variables(right);
    (left_cols, right_free_vars)
}

/// The columns held by both sets.
pub fn intersect_cols(a: &Vec<Column>, b: &Vec<Column>) -> (r: Vec<Column>)
    ensures
        cols_set(r@) == cols_set(a@).intersect(cols_set(b@)),
{
    let mut r: Vec<Column> = Vec::new();
    proof {
        assert(cols_set(r@) =~= cols_set(a@.subrange(0, 0)).intersect(cols_set(b@)));
    }
    let mut i: usize = 0;
    while i < a.len()
        invariant
            i <= a.len(),
            cols_set(r@) == cols_set(a@.subrange(0, i as int)).intersect(cols_set(b@)),
        decreases a.len() - i,
    {
        if cols_contain(b, &a[i]) {
            crate::plan::push_col(&mut r, &a[i]);
        }
        proof {
            assert(a@.subrange(0, i as int + 1) =~= a@.subrange(0, i as int).push(a@[i as int]));
            crate::plan::lemma_cols_set_push(a@.subrange(0, i as int), a@[i as int]);
            assert(cols_set(r@) =~= cols_set(a@.subrange(0, i as int + 1)).intersect(
                cols_set(b@),
            ));
        }
        i = i + 1;
    }
    proof {
        assert(a@.subrange(0, a@.len() as int) =~= a@);
    }
    r
}

} // verus!

verus! {

/// The allocator for the ids of synthesized nodes, threaded through one
/// rewrite invocation; it hands out strictly increasing ids.
pub struct IdGen {
    pub next: NodeId,
}

impl IdGen {
    /// An allocator whose first id is the given one.
    pub fn new(next: NodeId) -> (r: IdGen)
        ensures
            r.next == next,
    {
        IdGen { next }
    }

    /// Mint one previously unused id.
    pub fn fresh(&mut self) -> (r: NodeId)
        requires
            old(self).next < usize::MAX,
        ensures
            r == old(self).next,
            final(self).next == old(self).next + 1,
    {
        let r = self.next;
        self.next = self.next + 1;
        r
    }
}

/// The view of a domain node: a projection of the outer references over the
/// given input.
pub open spec fn domain_view(id: int, outer: Seq<Column>, input: PlanV) -> PlanV {
    PlanV::Project {
        id,
        mappings: outer.map_values(|c: Column| (c@, ExprV::ColumnRef(c@))),
        input: Box::new(input),
    }
}

/// Synthesize the domain node: a projection over the left side that
/// re-projects exactly the outer-referenced columns.
pub fn create_domain_node(left: &RelNode, outer_refs: &Vec<Column>, id: NodeId) -> (r: RelNode)
    ensures
        r@ == domain_view(id as int, outer_refs@, left@),
{
    let mut mappings: Vec<ColMapping> = Vec::new();
    let ghost target = outer_refs@.map_values(|c: Column| (c@, ExprV::ColumnRef(c@)));
    let mut i: usize = 0;
    while i < outer_refs.len()
        invariant
            i <= outer_refs.len(),
            target == outer_refs@.map_values(|c: Column| (c@, ExprV::ColumnRef(c@))),
            mappings@.map_values(|m: ColMapping| m@) == target.subrange(0, i as int),
        decreases outer_refs.len() - i,
    {
        let col = outer_refs[i].clone();
        let ghost pre = mappings@;
        mappings.push(ColMapping { col: col.clone(), expr: Expr::ColumnRef(col) });
        proof {
            let mm = mappings@[mappings@.len() - 1];
            assert(mm.expr@ == ExprV::ColumnRef(outer_refs@[i as int]@));
            assert(mm@ == (outer_refs@[i as int]@, ExprV::ColumnRef(outer_refs@[i as int]@)));
            assert(mm@ == target[i as int]);
            assert(mappings@ == pre.push(mm));
            pre.lemma_push_map_commute(|m: ColMapping| m@, mm);
            assert(mappings@.map_values(|m: ColMapping| m@) =~= target.subrange(0, i as int + 1));
        }
        i = i + 1;
    }
    proof {
        assert(target.subrange(0, target.len() as int) =~= target);
    }
    RelNode::Project { id, mappings, input: Box::new(left.clone()) }
}

/// The domain join condition: `true`, conjoined with one equality for every
/// resolved outer reference.
pub open spec fn domain_cond_spec(outer: Seq<Column>, repr: Seq<Substitution>) -> ExprV
    decreases outer.len(),
{
    if outer.len() == 0 {
        ExprV::Constant("true"@)
    } else {
        let rest = domain_cond_spec(outer.drop_last(), repr);
        match repr_get(repr, outer.last()@) {
            Some(n) => ExprV::And(
                Box::new(rest),
                Box::new(ExprV::Equal(
                    Box::new(ExprV::ColumnRef(outer.last()@)),
                    Box::new(ExprV::ColumnRef(n)),
                )),
            ),
            None => rest,
        }
    }
}

/// Build the condition that equates every resolved outer reference with its
/// substitute.
pub fn create_domain_join_condition(outer_refs: &Vec<Column>, repr: &Vec<Substitution>) -> (r:
    Expr)
    ensures
        r@ == domain_cond_spec(outer_refs@, repr@),
{
    let mut condition = Expr::Constant("true".to_owned());
    proof {
        assert(condition@ == domain_cond_spec(outer_refs@.subrange(0, 0), repr@));
    }
    let mut i: usize = 0;
    while i < outer_refs.len()
        invariant
            i <= outer_refs.len(),
            condition@ == domain_cond_spec(outer_refs@.subrange(0, i as int), repr@),
        decreases outer_refs.len() - i,
    {
        let outer_col = &outer_refs[i];
        let ghost prev = condition@;
        match repr_lookup(repr, outer_col) {
            Some(new_col) => {
                let ghost ncv = new_col@;
                let lref = Expr::ColumnRef(outer_col.clone());
                proof {
                    assert(lref@ == ExprV::ColumnRef(outer_refs@[i as int]@));
                }
                let ghost lrv = lref@;
                let rref = Expr::ColumnRef(new_col);
                proof {
                    assert(rref@ == ExprV::ColumnRef(ncv));
                }
                let ghost rrv = rref@;
                let eq_condition = Expr::Equal(Box::new(lref), Box::new(rref));
                proof {
                    assert(eq_condition@ == ExprV::Equal(Box::new(lrv), Box::new(rrv)));
                }
                let ghost eqv = eq_condition@;
                condition = Expr::And(Box::new(condition), Box::new(eq_condition));
                proof {
                    assert(condition@ == ExprV::And(Box::new(prev), Box::new(eqv)));
                }
            },
            None => {},
        }
        proof {
            let sub = outer_refs@.subrange(0, i as int + 1);
            assert(sub.drop_last() =~= outer_refs@.subrange(0, i as int));
            assert(sub.last() == outer_refs@[i as int]);
            assert(condition@ == domain_cond_spec(sub, repr@));
        }
        i = i + 1;
    }
    proof {
        assert(outer_refs@.subrange(0, outer_refs@.len() as int) =~= outer_refs@);
    }
    condition
}

/// The first node of a preorder walk that carries the given id.
pub open spec fn find_in_plan(n: PlanV, id: int) -> Option<PlanV>
    decreases n,
{
    if crate::plan::plan_id(n) == id {
        Some(n)
    } else {
        match n {
            PlanV::Table { .. } => None,
            PlanV::Select { input, .. } => find_in_plan(*input, id),
            PlanV::Project { input, .. } => find_in_plan(*input, id),
            PlanV::GroupBy { input, .. } => find_in_plan(*input, id),
            PlanV::Join { left, right, .. } => match find_in_plan(*left, id) {
                Some(m) => Some(m),
                None => find_in_plan(*right, id),
            },
        }
    }
}

/// Find the node with the given id, if the subtree holds one.
pub fn find_node_by_id(node: &RelNode, id: NodeId) -> (r: Option<&RelNode>)
    ensures
        match r {
            Some(m) => find_in_plan(node@, id as int) == Some(m@),
            None => find_in_plan(node@, id as int) is None,
        },
    decreases node,
{
    if node.id() == id {
        return Some(node);
    }
    match node {
        RelNode::Table { .. } => None,
        RelNode::Select { input, .. } => find_node_by_id(input, id),
        RelNode::Project { input, .. } => find_node_by_id(input, id),
        RelNode::GroupBy { input, .. } => find_node_by_id(input, id),
        RelNode::Join { left, right, .. } => match find_node_by_id(left, id) {
            Some(m) => Some(m),
            None => find_node_by_id(right, id),
        },
    }
}

/// Recursively decorrelate a subtree against the accumulated context of the
/// dependent join being rewritten: every nested dependent join below it is
/// discharged under that scope before the domain join is assembled, so the
/// result carries no dependent join and no accessing id, keeps its root's
/// id and kind, and mints ids only from the given allocator.
pub fn decorrelate_node(
    node: &RelNode,
    info: &UnnestingInfo,
    available_columns: &mut Vec<Column>,
    ids: &mut IdGen,
) -> (r: RelNode)
    requires
        old(ids).next as int + fresh_budget(node@) <= usize::MAX as int,
    ensures
        old(ids).next <= final(ids).next,
        final(ids).next as int <= old(ids).next as int + fresh_budget(node@),
        crate::plan::independent(r@),
        crate::plan::no_accessing(r@),
        crate::plan::plan_id(r@) == crate::plan::plan_id(node@),
        crate::plan::plan_kind(r@) == crate::plan::plan_kind(node@),
        crate::plan::independent(node@) ==> final(ids).next == old(ids).next,
        forall|x: int| #![auto]
            crate::plan::has_node_id(r@, x) ==> crate::plan::has_node_id(node@, x) || (old(
                ids,
            ).next <= x < final(ids).next),
    decreases node, 1int,
{
    let (rewritten, _inner) = process_node(node, Some(info.clone()), available_columns, ids);
    rewritten
}

} // verus!

verus! {

/// Combine the contexts two children returned: the side with outer
/// references wins; when both have them, their equivalence classes are
/// unioned and their resolved substitutes combined, the left side's first.
pub fn merge_unnesting_info(left: UnnestingInfo, right: UnnestingInfo) -> (r: UnnestingInfo)
    ensures
        left.outer_refs@.len() == 0 ==> r == right,
        left.outer_refs@.len() > 0 && right.outer_refs@.len() == 0 ==> r == left,
        left.outer_refs@.len() > 0 && right.outer_refs@.len() > 0 ==> {
            &&& r.outer_refs == left.outer_refs
            &&& r.domain == left.domain
            &&& r.parent == left.parent
            &&& cc_pairs(r.cclasses@) == cc_pairs(left.cclasses@).union(cc_pairs(right.cclasses@))
            &&& r.repr@ == left.repr@ + right.repr@
        },
{
    if left.outer_refs.len() == 0 {
        return right;
    }
    if right.outer_refs.len() == 0 {
        return left;
    }
    let ghost left_repr = left.repr@;
    let mut result = left;
    result.merge_equivalence_classes(&right);
    let mut i: usize = 0;
    proof {
        assert(result.repr@ =~= left_repr + right.repr@.subrange(0, 0));
    }
    while i < right.repr.len()
        invariant
            i <= right.repr.len(),
            result.outer_refs == left.outer_refs,
            result.domain == left.domain,
            result.parent == left.parent,
            cc_pairs(result.cclasses@) == cc_pairs(left.cclasses@).union(
                cc_pairs(right.cclasses@),
            ),
            result.repr@ == left_repr + right.repr@.subrange(0, i as int),
        decreases right.repr.len() - i,
    {
        result.repr.push(right.repr[i].clone());
        proof {
            assert(result.repr@ =~= left_repr + right.repr@.subrange(0, i as int + 1));
        }
        i = i + 1;
    }
    proof {
        assert(right.repr@.subrange(0, right.repr@.len() as int) =~= right.repr@);
    }
    result
}

/// The predicates of the accessing nodes, in order: absent nodes are
/// skipped, and a non-`Select` accessing node defeats the gathering.
pub open spec fn gathered_preds(root: PlanV, acc: Seq<NodeId>) -> Option<Seq<ExprV>>
    decreases acc.len(),
{
    if acc.len() == 0 {
        Some(Seq::empty())
    } else {
        match gathered_preds(root, acc.drop_last()) {
            None => None,
            Some(ps) => match find_in_plan(root, acc.last() as int) {
                None => Some(ps),
                Some(m) => match m {
                    PlanV::Select { predicate, .. } => Some(ps.push(predicate)),
                    _ => None,
                },
            },
        }
    }
}

/// A condition conjoined with each predicate in turn.
pub open spec fn and_fold(c: ExprV, ps: Seq<ExprV>) -> ExprV
    decreases ps.len(),
{
    if ps.len() == 0 {
        c
    } else {
        ExprV::And(Box::new(and_fold(c, ps.drop_last())), Box::new(ps.last()))
    }
}

proof fn lemma_gathered_none_extends(root: PlanV, acc: Seq<NodeId>, j: int)
    requires
        0 <= j <= acc.len(),
        gathered_preds(root, acc.subrange(0, j)) is None,
    ensures
        gathered_preds(root, acc) is None,
    decreases acc.len() - j,
{
    if j == acc.len() {
        assert(acc.subrange(0, j) =~= acc);
    } else {
        assert(acc.subrange(0, j + 1).drop_last() =~= acc.subrange(0, j));
        lemma_gathered_none_extends(root, acc, j + 1);
    }
}

/// The cheap path for the common correlated-filter shape: when every
/// accessing node is a `Select`, conjoin their predicates directly into the
/// join condition, and no domain relation is needed.
pub fn try_simple_unnesting(node: &RelNode, accessing: &Vec<NodeId>, condition: &mut Expr) -> (r:
    bool)
    ensures
        r == (gathered_preds(node@, accessing@) matches Some(ps) && ps.len() > 0),
        r ==> (gathered_preds(node@, accessing@) matches Some(ps) && final(condition)@ == and_fold(
            old(condition)@,
            ps,
        )),
        !r ==> *final(condition) == *old(condition),
{
    let mut predicates: Vec<Expr> = Vec::new();
    let mut i: usize = 0;
    proof {
        assert(accessing@.subrange(0, 0) =~= Seq::<NodeId>::empty());
        assert(predicates@.map_values(|e: Expr| e@) =~= Seq::<ExprV>::empty());
    }
    while i < accessing.len()
        invariant
            i <= accessing.len(),
            gathered_preds(node@, accessing@.subrange(0, i as int)) == Some(
                predicates@.map_values(|e: Expr| e@),
            ),
        decreases accessing.len() - i,
    {
        let ghost sub1 = accessing@.subrange(0, i as int + 1);
        proof {
            assert(sub1.drop_last() =~= accessing@.subrange(0, i as int));
            assert(sub1.last() == accessing@[i as int]);
        }
        match find_node_by_id(node, accessing[i]) {
            Some(acc_node) => match acc_node {
                RelNode::Select { predicate, .. } => {
                    let ghost pre = predicates@;
                    predicates.push(predicate.clone());
                    proof {
                        let mm = predicates@[predicates@.len() - 1];
                        assert(predicates@ == pre.push(mm));
                        pre.lemma_push_map_commute(|e: Expr| e@, mm);
                        assert(predicates@.map_values(|e: Expr| e@) =~= pre.map_values(
                            |e: Expr| e@,
                        ).push(mm@));
                    }
                },
                _ => {
                    proof {
                        assert(gathered_preds(node@, sub1) is None);
                        lemma_gathered_none_extends(node@, accessing@, i as int + 1);
                    }
                    return false;
                },
            },
            None => {},
        }
        i = i + 1;
    }
    proof {
        assert(accessing@.subrange(0, accessing@.len() as int) =~= accessing@);
    }
    if predicates.len() == 0 {
        return false;
    }
    let ghost pvs = predicates@.map_values(|e: Expr| e@);
    let mut new_condition = (*condition).clone();
    let mut j: usize = 0;
    proof {
        assert(pvs.subrange(0, 0) =~= Seq::<ExprV>::empty());
    }
    while j < predicates.len()
        invariant
            j <= predicates.len(),
            pvs == predicates@.map_values(|e: Expr| e@),
            new_condition@ == and_fold(old(condition)@, pvs.subrange(0, j as int)),
        decreases predicates.len() - j,
    {
        let ghost prev = new_condition@;
        let pred = predicates[j].clone();
        let ghost pv = pred@;
        new_condition = Expr::And(Box::new(new_condition), Box::new(pred));
        proof {
            assert(new_condition@ == ExprV::And(Box::new(prev), Box::new(pv)));
            let sub = pvs.subrange(0, j as int + 1);
            assert(sub.drop_last() =~= pvs.subrange(0, j as int));
            assert(sub.last() == pvs[j as int]);
            assert(pv == pvs[j as int]);
            assert(new_condition@ == and_fold(old(condition)@, sub));
        }
        j = j + 1;
    }
    proof {
        assert(pvs.subrange(0, pvs.len() as int) =~= pvs);
    }
    *condition = new_condition;
    true
}

} // verus!

verus! {

/// A context with no outer references and no resolved substitutes.
pub open spec fn info_clean(i: UnnestingInfo) -> bool {
    i.outer_refs@.len() == 0 && i.repr@.len() == 0
}

/// An absent context, or a clean one.
pub open spec fn opt_clean(o: Option<UnnestingInfo>) -> bool {
    match o {
        None => true,
        Some(i) => info_clean(i),
    }
}

/// How many fresh ids a rewrite of this subtree can mint at most: two per
/// join, for the domain node and the domain join.
pub open spec fn fresh_budget(n: PlanV) -> int
    decreases n,
{
    match n {
        PlanV::Table { .. } => 0,
        PlanV::Select { input, .. } => fresh_budget(*input),
        PlanV::Project { input, .. } => fresh_budget(*input),
        PlanV::GroupBy { input, .. } => fresh_budget(*input),
        PlanV::Join { left, right, .. } => 2 + fresh_budget(*left) + fresh_budget(*right),
    }
}

pub proof fn lemma_fresh_budget_nonneg(n: PlanV)
    ensures
        fresh_budget(n) >= 0,
    decreases n,
{
    match n {
        PlanV::Table { .. } => {},
        PlanV::Select { input, .. } => lemma_fresh_budget_nonneg(*input),
        PlanV::Project { input, .. } => lemma_fresh_budget_nonneg(*input),
        PlanV::GroupBy { input, .. } => lemma_fresh_budget_nonneg(*input),
        PlanV::Join { left, right, .. } => {
            lemma_fresh_budget_nonneg(*left);
            lemma_fresh_budget_nonneg(*right);
        },
    }
}

/// The grouping keys of a node; empty for anything but a `GroupBy`.
pub open spec fn groupby_keys(n: PlanV) -> Set<ColumnV> {
    match n {
        PlanV::GroupBy { keys, .. } => crate::plan::colv_set(keys),
        _ => Set::empty(),
    }
}

fn clone_opt_info(o: &Option<UnnestingInfo>) -> (r: Option<UnnestingInfo>)
    ensures
        r is Some <==> o is Some,
        opt_clean(*o) ==> opt_clean(r),
{
    match o {
        Some(p) => Some(p.clone()),
        None => None,
    }
}

} // verus!

verus! {

} // verus!

verus! {

/// The single recursive rewrite: rebuild the node with every dependence
/// discharged, threading the enclosing correlated scope's context top-down
/// and the set of columns visible at the current position left-to-right.
///
/// The result holds no dependent join and no leftover accessing id, on
/// every input. On a subtree that is already independent, under a context
/// with nothing to supply, the rewrite returns the subtree unchanged. A
/// rewritten `GroupBy` keeps the substitute of every resolved outer
/// reference among its grouping keys, and resets the available columns to
/// exactly its own outputs; a table leaf resets them to exactly the columns
/// it produces.
#[verifier::loop_isolation(false)]
#[verifier::rlimit(60)]
pub fn process_node(
    node: &RelNode,
    parent_info: Option<UnnestingInfo>,
    available_columns: &mut Vec<Column>,
    ids: &mut IdGen,
) -> (res: (RelNode, UnnestingInfo))
    requires
        old(ids).next as int + fresh_budget(node@) <= usize::MAX as int,
    ensures
        old(ids).next <= final(ids).next,
        final(ids).next as int <= old(ids).next as int + fresh_budget(node@),
        crate::plan::independent(res.0@),
        crate::plan::no_accessing(res.0@),
        crate::plan::plan_id(res.0@) == crate::plan::plan_id(node@),
        crate::plan::plan_kind(res.0@) == crate::plan::plan_kind(node@),
        crate::plan::independent(node@) ==> final(ids).next == old(ids).next,
        forall|x: int| #![auto]
            crate::plan::has_node_id(res.0@, x) ==> crate::plan::has_node_id(node@, x) || (old(
                ids,
            ).next <= x < final(ids).next),
        crate::plan::independent(node@) && crate::plan::no_accessing(node@) && opt_clean(
            parent_info,
        ) ==> res.0@ == node@ && info_clean(res.1),
        node@ is GroupBy ==> res.0@ is GroupBy && (forall|c: ColumnV, b: ColumnV| #![auto]
            cols_set(res.1.outer_refs@).contains(c) && repr_get(res.1.repr@, c) == Some(b)
                ==> groupby_keys(res.0@).contains(b)),
        node@ is Table ==> res.0@ == node@ && cols_set(final(available_columns)@)
            == crate::plan::produced_cols(node@),
        node@ is Table ==> (match parent_info {
            Some(p) => res.1 == p,
            None => res.1.outer_refs@.len() == 0 && res.1.repr@.len() == 0
                && res.1.cclasses@.len() == 0 && res.1.domain is None && res.1.parent is None,
        }),
        node@ is GroupBy ==> (res.0@ matches PlanV::GroupBy { keys, aggregates, .. } && cols_set(
            final(available_columns)@,
        ) == crate::plan::colv_set(keys).union(crate::plan::mapping_keys(aggregates))),
        node@ is Project ==> (res.0@ matches PlanV::Project { mappings, .. }
            && crate::plan::mapping_keys(mappings).subset_of(
            cols_set(final(available_columns)@),
        )),
        node@ is Join ==> (res.0@ matches PlanV::Join { id: rid, is_dependent: rdep, accessing: racc, .. }
            && rid == crate::plan::plan_id(node@) && rdep == false && racc == Set::<int>::empty()),
        node@ matches PlanV::Join { left, right, condition, is_dependent, accessing, .. } ==> ({
            &&& !(is_dependent && accessing != Set::<int>::empty()) ==> (res.0@ matches PlanV::Join {
                left: rl,
                right: rr,
                condition: rcond,
                ..
            } && rcond == rewrite_expr_spec(condition, res.1.repr@) && crate::plan::plan_id(*rl)
                == crate::plan::plan_id(*left) && crate::plan::plan_kind(*rl)
                == crate::plan::plan_kind(*left) && crate::plan::plan_id(*rr)
                == crate::plan::plan_id(*right) && crate::plan::plan_kind(*rr)
                == crate::plan::plan_kind(*right))
            &&& (is_dependent && accessing != Set::<int>::empty()) ==> ({
                ||| (exists|acc: Seq<NodeId>| #![auto]
                    ids_set(acc) == accessing && (gathered_preds(*right, acc) matches Some(ps)
                        && ps.len() > 0 && (res.0@ matches PlanV::Join {
                        left: rl,
                        right: rr,
                        condition: rcond,
                        ..
                    } && rcond == and_fold(condition, ps) && (crate::plan::independent(*left)
                        && crate::plan::no_accessing(*left) && opt_clean(parent_info) ==> *rl
                        == *left) && (crate::plan::independent(*right)
                        && crate::plan::no_accessing(*right) && opt_clean(parent_info) ==> *rr
                        == *right) && (crate::plan::independent(*left)
                        && crate::plan::independent(*right) ==> final(ids).next == old(
                        ids,
                    ).next))))
                ||| (res.0@ matches PlanV::Join { left: rleft, right: rright, condition: rcond, .. }
                    && {
                    &&& rcond == rewrite_expr_spec(condition, res.1.repr@)
                    &&& cols_set(res.1.outer_refs@) == crate::plan::produced_cols(
                        *rleft,
                    ).intersect(crate::plan::free_vars(*right))
                    &&& res.1.outer_refs@.len() > 0 ==> (*rright matches PlanV::Join {
                        left: dn,
                        right: dright,
                        condition: djc,
                        is_dependent: false,
                        ..
                    } && djc == domain_cond_spec(res.1.outer_refs@, res.1.repr@) && (exists|
                        did: int,
                    | #![auto]
                        *dn == domain_view(did, res.1.outer_refs@, *rleft) && old(ids).next <= did
                            < final(ids).next && did != crate::plan::plan_id(*rright))
                        && old(ids).next <= crate::plan::plan_id(*rright) < final(ids).next
                        && crate::plan::plan_id(*dright) == crate::plan::plan_id(*right)
                        && crate::plan::plan_kind(*dright) == crate::plan::plan_kind(*right))
                    &&& res.1.outer_refs@.len() == 0 ==> (crate::plan::plan_id(*rright)
                        == crate::plan::plan_id(*right) && crate::plan::plan_kind(*rright)
                        == crate::plan::plan_kind(*right))
                })
            })
        }),
    decreases node, 0int,
{
    let ghost p1 = crate::plan::independent(node@) && crate::plan::no_accessing(node@)
        && opt_clean(parent_info);
    match node {
        RelNode::Table { .. } => {
            let produced = node.get_produced_columns();
            available_columns.clear();
            crate::plan::extend_cols(available_columns, &produced);
            proof {
                assert(cols_set(available_columns@) =~= crate::plan::produced_cols(node@));
            }
            let info = match parent_info {
                Some(p) => p,
                None => UnnestingInfo::new(Vec::new(), None),
            };
            (node.clone(), info)
        },
        RelNode::Select { id, predicate, input } => {
            let mut info = match parent_info {
                Some(p) => p,
                None => UnnestingInfo::new(Vec::new(), None),
            };
            add_equivalences_from_expr(predicate, &mut info.cclasses);
            proof {
                lemma_fresh_budget_nonneg((**input)@);
            }
            let (new_input, input_info) = process_node(
                input,
                Some(info.clone()),
                available_columns,
                ids,
            );
            info.merge_equivalence_classes(&input_info);
            info.create_replacement_mappings(available_columns);
            let new_predicate = rewrite_expr(predicate, &info.repr);
            let result = RelNode::Select {
                id: *id,
                predicate: new_predicate,
                input: Box::new(new_input),
            };
            proof {
                if p1 {
                    lemma_rewrite_expr_empty(predicate@, info.repr@);
                }
                assert forall|x: int| #![auto]
                    crate::plan::has_node_id(result@, x) implies crate::plan::has_node_id(
                    node@,
                    x,
                ) || (old(ids).next <= x < ids.next) by {
                    if x != plan_id(node@) {
                        assert(crate::plan::has_node_id(new_input@, x));
                        assert(crate::plan::has_node_id((**input)@, x) || (old(ids).next <= x
                            < ids.next));
                        if crate::plan::has_node_id((**input)@, x) {
                            assert(crate::plan::has_node_id(node@, x));
                        }
                    }
                }
            }
            (result, info)
        },
        RelNode::Project { id, mappings, input } => {
            let passed = clone_opt_info(&parent_info);
            proof {
                lemma_fresh_budget_nonneg((**input)@);
            }
            let (new_input, input_info) = process_node(input, passed, available_columns, ids);
            let mut info = match parent_info {
                Some(p) => p,
                None => input_info,
            };
            info.create_replacement_mappings(available_columns);
            let ghost vm = mappings@.map_values(|m: ColMapping| m@);
            let ghost repr0 = info.repr@;
            let mut new_mappings: Vec<ColMapping> = Vec::new();
            proof {
                assert(new_mappings@.map_values(|m: ColMapping| m@) =~= vm.subrange(0, 0));
            }
            let mut i: usize = 0;
            while i < mappings.len()
                invariant
                    i <= mappings.len(),
                    new_mappings@.len() == i,
                    forall|k: int|
                        0 <= k < i ==> #[trigger] new_mappings@[k]@ == (
                            vm[k].0,
                            rewrite_expr_spec(vm[k].1, repr0),
                        ),
                    repr0.len() == 0 ==> new_mappings@.map_values(|m: ColMapping| m@)
                        == vm.subrange(0, i as int),
                decreases mappings.len() - i,
            {
                let ghost pre = new_mappings@;
                let col = mappings[i].col.clone();
                let rexpr = rewrite_expr(&mappings[i].expr, &info.repr);
                new_mappings.push(ColMapping { col, expr: rexpr });
                proof {
                    let mm = new_mappings@[new_mappings@.len() - 1];
                    crate::plan::lemma_mapping_view_index(mappings@, i as int);
                    assert(mm@ == (vm[i as int].0, rewrite_expr_spec(vm[i as int].1, repr0)));
                    if repr0.len() == 0 {
                        lemma_rewrite_expr_empty(vm[i as int].1, repr0);
                        pre.lemma_push_map_commute(|m: ColMapping| m@, mm);
                        assert(vm.subrange(0, i as int + 1) =~= vm.subrange(0, i as int).push(
                            vm[i as int],
                        ));
                        assert(mm@ == vm[i as int]);
                        assert(new_mappings@.map_values(|m: ColMapping| m@) =~= vm.subrange(
                            0,
                            i as int + 1,
                        ));
                    }
                }
                i = i + 1;
            }
            proof {
                assert(vm.subrange(0, vm.len() as int) =~= vm);
            }
            let mut j: usize = 0;
            while j < new_mappings.len()
                invariant
                    j <= new_mappings.len(),
                    forall|k: int|
                        0 <= k < j ==> cols_set(available_columns@).contains(
                            #[trigger] (new_mappings@[k].col@),
                        ),
                decreases new_mappings.len() - j,
            {
                crate::plan::push_col(available_columns, &new_mappings[j].col);
                j = j + 1;
            }
            let result = RelNode::Project {
                id: *id,
                mappings: new_mappings,
                input: Box::new(new_input),
            };
            proof {
                if p1 {
                    assert(result@ == node@);
                }
                assert forall|x: int| #![auto]
                    crate::plan::has_node_id(result@, x) implies crate::plan::has_node_id(
                    node@,
                    x,
                ) || (old(ids).next <= x < ids.next) by {
                    if x != plan_id(node@) {
                        assert(crate::plan::has_node_id(new_input@, x));
                        assert(crate::plan::has_node_id((**input)@, x) || (old(ids).next <= x
                            < ids.next));
                        if crate::plan::has_node_id((**input)@, x) {
                            assert(crate::plan::has_node_id(node@, x));
                        }
                    }
                }
                let mv = new_mappings@.map_values(|m: ColMapping| m@);
                assert forall|c: ColumnV|
                    crate::plan::mapping_keys(mv).contains(c) implies cols_set(
                    available_columns@,
                ).contains(c) by {
                    let k = choose|k: int| #![trigger mv[k]] 0 <= k < mv.len() && mv[k].0 == c;
                    crate::plan::lemma_mapping_view_index(new_mappings@, k);
                    assert(cols_set(available_columns@).contains(new_mappings@[k].col@));
                }
            }
            (result, info)
        },
        RelNode::GroupBy { id, keys, aggregates, input } => {
            let mut info = match parent_info {
                Some(p) => p,
                None => UnnestingInfo::new(Vec::new(), None),
            };
            proof {
                lemma_fresh_budget_nonneg((**input)@);
            }
            let (new_input, input_info) = process_node(
                input,
                Some(info.clone()),
                available_columns,
                ids,
            );
            info.merge_equivalence_classes(&input_info);
            info.create_replacement_mappings(available_columns);
            let ghost kv = keys@.map_values(|c: Column| c@);
            let ghost va = aggregates@.map_values(|m: ColMapping| m@);
            let ghost repr0 = info.repr@;
            let mut new_keys: Vec<Column> = Vec::new();
            let mut i: usize = 0;
            while i < keys.len()
                invariant
                    i <= keys.len(),
                    new_keys@.len() == i,
                    repr0.len() == 0 ==> new_keys@ == keys@.subrange(0, i as int),
                decreases keys.len() - i,
            {
                match repr_lookup(&info.repr, &keys[i]) {
                    Some(nk) => {
                        new_keys.push(nk);
                    },
                    None => {
                        new_keys.push(keys[i].clone());
                    },
                }
                proof {
                    if repr0.len() == 0 {
                        assert(new_keys@ =~= keys@.subrange(0, i as int + 1));
                    }
                }
                i = i + 1;
            }
            proof {
                assert(keys@.subrange(0, keys@.len() as int) =~= keys@);
            }
            let mut new_aggs: Vec<ColMapping> = Vec::new();
            proof {
                assert(new_aggs@.map_values(|m: ColMapping| m@) =~= va.subrange(0, 0));
            }
            let mut i2: usize = 0;
            while i2 < aggregates.len()
                invariant
                    i2 <= aggregates.len(),
                    new_aggs@.len() == i2,
                    repr0.len() == 0 ==> new_aggs@.map_values(|m: ColMapping| m@) == va.subrange(
                        0,
                        i2 as int,
                    ),
                decreases aggregates.len() - i2,
            {
                let ghost pre = new_aggs@;
                let col = aggregates[i2].col.clone();
                let rexpr = rewrite_expr(&aggregates[i2].expr, &info.repr);
                new_aggs.push(ColMapping { col, expr: rexpr });
                proof {
                    let mm = new_aggs@[new_aggs@.len() - 1];
                    crate::plan::lemma_mapping_view_index(aggregates@, i2 as int);
                    if repr0.len() == 0 {
                        lemma_rewrite_expr_empty(va[i2 as int].1, repr0);
                        pre.lemma_push_map_commute(|m: ColMapping| m@, mm);
                        assert(va.subrange(0, i2 as int + 1) =~= va.subrange(0, i2 as int).push(
                            va[i2 as int],
                        ));
                        assert(mm@ == va[i2 as int]);
                        assert(new_aggs@.map_values(|m: ColMapping| m@) =~= va.subrange(
                            0,
                            i2 as int + 1,
                        ));
                    }
                }
                i2 = i2 + 1;
            }
            proof {
                assert(va.subrange(0, va.len() as int) =~= va);
            }
            let ghost orefs0 = info.outer_refs@;
            let mut j: usize = 0;
            while j < info.outer_refs.len()
                invariant
                    j <= info.outer_refs.len(),
                    info.repr@ == repr0,
                    info.outer_refs@ == orefs0,
                    repr0.len() == 0 ==> new_keys@ == keys@,
                    forall|t: int| #![trigger orefs0[t]]
                        0 <= t < j ==> (repr_get(repr0, orefs0[t]@) matches Some(b) ==> cols_set(
                            new_keys@,
                        ).contains(b)),
                decreases info.outer_refs.len() - j,
            {
                match repr_lookup(&info.repr, &info.outer_refs[j]) {
                    Some(nc) => {
                        if !cols_contain(&new_keys, &nc) {
                            crate::plan::push_col(&mut new_keys, &nc);
                        }
                    },
                    None => {},
                }
                j = j + 1;
            }
            available_columns.clear();
            crate::plan::extend_cols(available_columns, &new_keys);
            let ghost va2 = new_aggs@.map_values(|m: ColMapping| m@);
            proof {
                assert(cols_set(available_columns@) =~= cols_set(new_keys@).union(
                    crate::plan::mapping_keys(va2.subrange(0, 0)),
                ));
            }
            let mut j2: usize = 0;
            while j2 < new_aggs.len()
                invariant
                    j2 <= new_aggs.len(),
                    va2 == new_aggs@.map_values(|m: ColMapping| m@),
                    cols_set(available_columns@) == cols_set(new_keys@).union(
                        crate::plan::mapping_keys(va2.subrange(0, j2 as int)),
                    ),
                decreases new_aggs.len() - j2,
            {
                crate::plan::push_col(available_columns, &new_aggs[j2].col);
                proof {
                    crate::plan::lemma_mapping_view_index(new_aggs@, j2 as int);
                    assert(va2.subrange(0, j2 as int + 1) =~= va2.subrange(0, j2 as int).push(
                        va2[j2 as int],
                    ));
                    crate::plan::lemma_mapping_keys_push(va2.subrange(0, j2 as int), va2[j2 as int]);
                    assert(cols_set(available_columns@) =~= cols_set(new_keys@).union(
                        crate::plan::mapping_keys(va2.subrange(0, j2 as int + 1)),
                    ));
                }
                j2 = j2 + 1;
            }
            proof {
                assert(va2.subrange(0, va2.len() as int) =~= va2);
            }
            let result = RelNode::GroupBy {
                id: *id,
                keys: new_keys,
                aggregates: new_aggs,
                input: Box::new(new_input),
            };
            proof {
                if p1 {
                    assert(result@ == node@);
                }
                crate::plan::lemma_cols_set_is_colv_set(new_keys@);
                crate::plan::lemma_cols_set_is_colv_set(match result {
                    RelNode::GroupBy { ref keys, .. } => keys@,
                    _ => arbitrary(),
                });
                assert forall|c: ColumnV, b: ColumnV| #![auto]
                    cols_set(info.outer_refs@).contains(c) && repr_get(info.repr@, c) == Some(
                    b,
                ) implies groupby_keys(result@).contains(b) by {
                    let t = choose|t: int| 0 <= t < orefs0.len() && orefs0[t]@ == c;
                }
                assert forall|x: int| #![auto]
                    crate::plan::has_node_id(result@, x) implies crate::plan::has_node_id(
                    node@,
                    x,
                ) || (old(ids).next <= x < ids.next) by {
                    if x != plan_id(node@) {
                        assert(crate::plan::has_node_id(new_input@, x));
                        assert(crate::plan::has_node_id((**input)@, x) || (old(ids).next <= x
                            < ids.next));
                        if crate::plan::has_node_id((**input)@, x) {
                            assert(crate::plan::has_node_id(node@, x));
                        }
                    }
                }
            }
            (result, info)
        },
        RelNode::Join { id, left, right, condition, is_dependent, accessing } => {
            proof {
                lemma_fresh_budget_nonneg((**left)@);
                lemma_fresh_budget_nonneg((**right)@);
            }
            if *is_dependent && accessing.len() > 0 {
                proof {
                    assert(ids_set(accessing@).contains(accessing@[0] as int));
                }
                let mut new_condition = condition.clone();
                if try_simple_unnesting(right, accessing, &mut new_condition) {
                    let mut local_available = clone_columns(available_columns);
                    let passed = clone_opt_info(&parent_info);
                    let (new_left, left_info) = process_node(
                        left,
                        passed,
                        &mut local_available,
                        ids,
                    );
                    let (new_right, right_info) = process_node(
                        right,
                        parent_info,
                        available_columns,
                        ids,
                    );
                    crate::plan::extend_cols(available_columns, &local_available);
                    let merged = merge_unnesting_info(left_info, right_info);
                    let result = RelNode::Join {
                        id: *id,
                        left: Box::new(new_left),
                        right: Box::new(new_right),
                        condition: new_condition,
                        is_dependent: false,
                        accessing: Vec::new(),
                    };
                    proof {
                        assert(ids_set(Seq::<NodeId>::empty()) =~= Set::<int>::empty());
                        assert forall|x: int| #![auto]
                            crate::plan::has_node_id(result@, x) implies crate::plan::has_node_id(
                            node@,
                            x,
                        ) || (old(ids).next <= x < ids.next) by {
                            if x != plan_id(node@) {
                                if crate::plan::has_node_id(new_left@, x) {
                                    assert(crate::plan::has_node_id((**left)@, x) || (old(
                                        ids,
                                    ).next <= x < ids.next));
                                } else {
                                    assert(crate::plan::has_node_id(new_right@, x));
                                    assert(crate::plan::has_node_id((**right)@, x) || (old(
                                        ids,
                                    ).next <= x < ids.next));
                                }
                            }
                        }
                    }
                    return (result, merged);
                }
                let mut left_available = clone_columns(available_columns);
                let passed_left = clone_opt_info(&parent_info);
                let (new_left, _left_info) = process_node(
                    left,
                    passed_left,
                    &mut left_available,
                    ids,
                );
                crate::plan::extend_cols(available_columns, &left_available);
                let (left_cols, right_free_vars) = find_correlation(&new_left, right);
                let outer_refs = intersect_cols(&left_cols, &right_free_vars);
                let ghost pre_domain_next = ids.next;
                let domain: Option<RelNode> = if outer_refs.len() > 0 {
                    let domain_id = ids.fresh();
                    let d = create_domain_node(&new_left, &outer_refs, domain_id);
                    proof {
                        assert(crate::plan::independent(d@));
                        assert(crate::plan::no_accessing(d@));
                        assert(d@ == domain_view(pre_domain_next as int, outer_refs@, new_left@));
                    }
                    Some(d)
                } else {
                    None
                };
                proof {
                    assert(dom_view(domain) matches Some(dv) ==> dv == domain_view(
                        pre_domain_next as int,
                        outer_refs@,
                        new_left@,
                    ));
                }
                let mut info = UnnestingInfo::new(clone_columns(&outer_refs), domain);
                info = match parent_info {
                    Some(p) => info.with_parent(p),
                    None => info,
                };
                add_equivalences_from_expr(condition, &mut info.cclasses);
                let decorrelated = decorrelate_node(right, &info, available_columns, ids);
                info.create_replacement_mappings(available_columns);
                let new_cond = rewrite_expr(condition, &info.repr);
                proof {
                    assert(crate::plan::independent(decorrelated@));
                    assert(crate::plan::no_accessing(decorrelated@));
                }
                let final_right: RelNode = match &info.domain {
                    Some(domain_node) => {
                        let dj_cond = create_domain_join_condition(&info.outer_refs, &info.repr);
                        let dj_id = ids.fresh();
                        let fr = RelNode::Join {
                            id: dj_id,
                            left: Box::new(domain_node.clone()),
                            right: Box::new(decorrelated),
                            condition: dj_cond,
                            is_dependent: false,
                            accessing: Vec::new(),
                        };
                        proof {
                            assert(ids_set(Seq::<NodeId>::empty()) =~= Set::<int>::empty());
                            assert(crate::plan::independent(fr@));
                            assert(crate::plan::no_accessing(fr@));
                        }
                        fr
                    },
                    None => decorrelated,
                };
                proof {
                    assert(crate::plan::independent(final_right@));
                    assert(crate::plan::no_accessing(final_right@));
                }
                let mut j: usize = 0;
                while j < info.outer_refs.len()
                    decreases info.outer_refs.len() - j,
                {
                    match repr_lookup(&info.repr, &info.outer_refs[j]) {
                        Some(nc) => {
                            crate::plan::push_col(available_columns, &nc);
                        },
                        None => {},
                    }
                    j = j + 1;
                }
                let result = RelNode::Join {
                    id: *id,
                    left: Box::new(new_left),
                    right: Box::new(final_right),
                    condition: new_cond,
                    is_dependent: false,
                    accessing: Vec::new(),
                };
                proof {
                    assert(ids_set(Seq::<NodeId>::empty()) =~= Set::<int>::empty());
                    assert(crate::plan::independent(result@));
                    assert(crate::plan::no_accessing(result@));
                    assert forall|x: int| #![auto]
                        crate::plan::has_node_id(result@, x) implies crate::plan::has_node_id(
                        node@,
                        x,
                    ) || (old(ids).next <= x < ids.next) by {
                        if x != plan_id(node@) {
                            if crate::plan::has_node_id(new_left@, x) {
                                assert(crate::plan::has_node_id((**left)@, x) || (old(
                                    ids,
                                ).next <= x < ids.next));
                            } else {
                                assert(crate::plan::has_node_id(final_right@, x));
                                if crate::plan::has_node_id(decorrelated@, x) {
                                    assert(crate::plan::has_node_id((**right)@, x) || (old(
                                        ids,
                                    ).next <= x < ids.next));
                                } else {
                                    match info.domain {
                                        Some(d) => {
                                            assert(d@ == domain_view(
                                                pre_domain_next as int,
                                                outer_refs@,
                                                new_left@,
                                            ));
                                            if x == crate::plan::plan_id(final_right@) {
                                                assert(old(ids).next <= x < ids.next);
                                            } else {
                                                assert(crate::plan::has_node_id(d@, x));
                                                assert(x == pre_domain_next as int
                                                    || crate::plan::has_node_id(new_left@, x));
                                                assert(old(ids).next <= x < ids.next);
                                            }
                                        },
                                        None => {
                                            assert(false);
                                        },
                                    }
                                }
                            }
                        }
                    }
                }
                (result, info)
            } else {
                proof {
                    if accessing@.len() == 0 {
                        assert(ids_set(accessing@) =~= Set::<int>::empty());
                    }
                }
                let mut left_available = clone_columns(available_columns);
                let passed = clone_opt_info(&parent_info);
                let (new_left, left_info) = process_node(left, passed, &mut left_available, ids);
                let (new_right, right_info) = process_node(
                    right,
                    parent_info,
                    available_columns,
                    ids,
                );
                crate::plan::extend_cols(available_columns, &left_available);
                let merged = merge_unnesting_info(left_info, right_info);
                let new_cond = rewrite_expr(condition, &merged.repr);
                proof {
                    assert(ids_set(Seq::<NodeId>::empty()) =~= Set::<int>::empty());
                    if p1 {
                        lemma_rewrite_expr_empty(condition@, merged.repr@);
                        assert(ids_set(accessing@) =~= Set::<int>::empty());
                    }
                }
                let result = RelNode::Join {
                    id: *id,
                    left: Box::new(new_left),
                    right: Box::new(new_right),
                    condition: new_cond,
                    is_dependent: false,
                    accessing: Vec::new(),
                };
                proof {
                    assert forall|x: int| #![auto]
                        crate::plan::has_node_id(result@, x) implies crate::plan::has_node_id(
                        node@,
                        x,
                    ) || (old(ids).next <= x < ids.next) by {
                        if x != plan_id(node@) {
                            if crate::plan::has_node_id(new_left@, x) {
                                assert(crate::plan::has_node_id((**left)@, x) || (old(
                                    ids,
                                ).next <= x < ids.next));
                            } else {
                                assert(crate::plan::has_node_id(new_right@, x));
                                assert(crate::plan::has_node_id((**right)@, x) || (old(
                                    ids,
                                ).next <= x < ids.next));
                            }
                        }
                    }
                }
                (result, merged)
            }
        },
    }
}

} // verus!

verus! {

/// Annotating accessing sets changes no flag, no expression and no shape:
/// independence, rewritability and the id budget are untouched, and an
/// already independent tree is returned as it stands.
pub proof fn lemma_apply_acc_preserves(n: PlanV, lca: int, nid: int)
    ensures
        crate::plan::independent(crate::query_tree::apply_acc(n, lca, nid))
            == crate::plan::independent(n),
        crate::plan::independent(n) ==> crate::query_tree::apply_acc(n, lca, nid) == n,
        fresh_budget(crate::query_tree::apply_acc(n, lca, nid)) == fresh_budget(n),
        forall|x: int| #![auto]
            crate::plan::has_node_id(crate::query_tree::apply_acc(n, lca, nid), x)
                == crate::plan::has_node_id(n, x),
    decreases n,
{
    match n {
        PlanV::Table { .. } => {},
        PlanV::Select { input, .. } => {
            lemma_apply_acc_preserves(*input, lca, nid);
            assert forall|x: int| #![auto]
                crate::plan::has_node_id(crate::query_tree::apply_acc(n, lca, nid), x)
                    == crate::plan::has_node_id(n, x) by {
                assert(crate::plan::has_node_id(crate::query_tree::apply_acc(*input, lca, nid), x)
                    == crate::plan::has_node_id(*input, x));
            }
        },
        PlanV::Project { input, .. } => {
            lemma_apply_acc_preserves(*input, lca, nid);
            assert forall|x: int| #![auto]
                crate::plan::has_node_id(crate::query_tree::apply_acc(n, lca, nid), x)
                    == crate::plan::has_node_id(n, x) by {
                assert(crate::plan::has_node_id(crate::query_tree::apply_acc(*input, lca, nid), x)
                    == crate::plan::has_node_id(*input, x));
            }
        },
        PlanV::GroupBy { input, .. } => {
            lemma_apply_acc_preserves(*input, lca, nid);
            assert forall|x: int| #![auto]
                crate::plan::has_node_id(crate::query_tree::apply_acc(n, lca, nid), x)
                    == crate::plan::has_node_id(n, x) by {
                assert(crate::plan::has_node_id(crate::query_tree::apply_acc(*input, lca, nid), x)
                    == crate::plan::has_node_id(*input, x));
            }
        },
        PlanV::Join { left, right, .. } => {
            lemma_apply_acc_preserves(*left, lca, nid);
            lemma_apply_acc_preserves(*right, lca, nid);
            assert forall|x: int| #![auto]
                crate::plan::has_node_id(crate::query_tree::apply_acc(n, lca, nid), x)
                    == crate::plan::has_node_id(n, x) by {
                assert(crate::plan::has_node_id(crate::query_tree::apply_acc(*left, lca, nid), x)
                    == crate::plan::has_node_id(*left, x));
                assert(crate::plan::has_node_id(crate::query_tree::apply_acc(*right, lca, nid), x)
                    == crate::plan::has_node_id(*right, x));
            }
        },
    }
}

/// The same, for a whole list of recorded pairs.
pub proof fn lemma_apply_rels_preserves(n: PlanV, rels: Seq<(NodeId, NodeId)>)
    ensures
        crate::plan::independent(crate::query_tree::apply_rels(n, rels))
            == crate::plan::independent(n),
        crate::plan::independent(n) ==> crate::query_tree::apply_rels(n, rels) == n,
        fresh_budget(crate::query_tree::apply_rels(n, rels)) == fresh_budget(n),
        forall|x: int| #![auto]
            crate::plan::has_node_id(crate::query_tree::apply_rels(n, rels), x)
                == crate::plan::has_node_id(n, x),
    decreases rels.len(),
{
    if rels.len() > 0 {
        lemma_apply_rels_preserves(n, rels.drop_last());
        lemma_apply_acc_preserves(
            crate::query_tree::apply_rels(n, rels.drop_last()),
            rels.last().0 as int,
            rels.last().1 as int,
        );
    }
}

/// Decorrelate a whole plan: index the tree, discover the correlation
/// edges, annotate the dependent joins with their accessing nodes, and run
/// the rewrite top-down. The result carries no dependent join and no
/// leftover accessing id, whatever the input; an already independent plan
/// comes back unchanged. The checked entry point `try_unnest_query` also
/// reports an unresolved outer reference instead of returning the plan.
pub fn unnest_query(query: RelNode) -> (r: RelNode)
    requires
        crate::plan::ids_uniq(query@),
        crate::plan::plan_max_id(query@) + 1 + fresh_budget(query@) <= usize::MAX as int,
    ensures
        crate::plan::independent(r@),
        crate::plan::no_accessing(r@),
        crate::plan::independent(query@) && crate::plan::no_accessing(query@) ==> r@ == query@
            && crate::plan::ids_uniq(r@),
        forall|x: int| #![auto]
            crate::plan::has_node_id(r@, x) ==> crate::plan::has_node_id(query@, x) || x
                > crate::plan::plan_max_id(query@),
{
    let ghost qv = query@;
    proof {
        lemma_fresh_budget_nonneg(qv);
    }
    let max_id = crate::plan::tree_max_id(&query);
    let mut tree = crate::query_tree::QueryTree::new(query);
    let relations = tree.identify_dependent_joins();
    tree.apply_dependencies(&relations);
    proof {
        lemma_apply_rels_preserves(qv, relations@);
    }
    let root_node = tree.root;
    let mut ids = IdGen::new(max_id + 1);
    let mut available_columns: Vec<Column> = Vec::new();
    let (result, _info) = process_node(&root_node, None, &mut available_columns, &mut ids);
    result
}

} // verus!

verus! {

/// Law (equivalence transitivity): in a scope whose predicates established
/// `a = b` and `b = c`, a reference to the outer column `a` resolves
/// whenever any column of `{b, c}` is available — the search runs through
/// the transitive closure of the recorded equivalences — and the substitute
/// is always an available member of `a`'s closure; once recorded, a
/// substitute never changes (see `repr_stable`).
pub proof fn lemma_equivalence_transitivity(
    cur: Seq<Substitution>,
    outer: Seq<Column>,
    cc: Seq<EquivClass>,
    avail: Seq<Column>,
    a: ColumnV,
    b: ColumnV,
    c: ColumnV,
)
    requires
        repr_sound(Seq::<Substitution>::empty(), cur, outer, cc, avail),
        repr_progress(cur, outer, outer.len() as int, cc, avail),
        cc_rel(cc, a, b),
        cc_rel(cc, b, c),
        cols_set(outer).contains(a),
        cols_set(avail).contains(b) || cols_set(avail).contains(c),
    ensures
        repr_get(cur, a) is Some,
        repr_get(cur, a) matches Some(s) ==> cols_set(avail).contains(s) && cc_reach(cc, a, s),
{
    let t = choose|t: int| 0 <= t < outer.len() && outer[t]@ == a;
    assert(cc_reach_fuel(cc, a, b, 0));
    assert(cc_reach_fuel(cc, a, c, 1)) by {
        assert(cc_reach_fuel(cc, a, b, 0) && cc_rel(cc, b, c));
    }
    assert(resolvable(cc, outer[t]@, avail)) by {
        if cols_set(avail).contains(b) {
            assert(cc_reach(cc, outer[t]@, b) && cols_set(avail).contains(b));
        } else {
            assert(cc_reach(cc, outer[t]@, c) && cols_set(avail).contains(c));
        }
    }
    assert(repr_get(cur, outer[t]@) is Some);
    assert(repr_get(Seq::<Substitution>::empty(), a) is None);
}

} // verus!

verus! {

/// The id headroom a rewrite of this tree needs, as a runtime value: `None`
/// when the bound itself leaves the machine range.
pub fn tree_fresh_budget(node: &RelNode) -> (r: Option<usize>)
    ensures
        r matches Some(b) ==> b as int == fresh_budget(node@),
        r is None ==> fresh_budget(node@) > usize::MAX,
    decreases node,
{
    match node {
        RelNode::Table { .. } => Some(0),
        RelNode::Select { input, .. } => tree_fresh_budget(input),
        RelNode::Project { input, .. } => tree_fresh_budget(input),
        RelNode::GroupBy { input, .. } => tree_fresh_budget(input),
        RelNode::Join { left, right, .. } => {
            proof {
                lemma_fresh_budget_nonneg((**left)@);
                lemma_fresh_budget_nonneg((**right)@);
            }
            match (tree_fresh_budget(left), tree_fresh_budget(right)) {
                (Some(a), Some(b)) => {
                    if a <= usize::MAX - 2 && b <= usize::MAX - 2 - a {
                        Some(2 + a + b)
                    } else {
                        None
                    }
                },
                _ => None,
            }
        },
    }
}

} // verus!

verus! {

/// Decorrelate a whole plan and report failure: an outer reference that
/// resolves against no available equivalent column leaves a dangling
/// reference in the rewritten tree, a non-recoverable planning failure.
/// Rather than handing the executor such a plan, this entry point returns
/// one dangling column as the error; a clean independent plan is owed back
/// unchanged.
pub fn try_unnest_query(query: RelNode) -> (r: Result<RelNode, Column>)
    requires
        crate::plan::ids_uniq(query@),
        crate::plan::plan_max_id(query@) + 1 + fresh_budget(query@) <= usize::MAX as int,
    ensures
        r matches Ok(p) ==> crate::plan::independent(p@) && crate::plan::no_accessing(p@)
            && crate::plan::supply_ok(p@),
        crate::plan::independent(query@) && crate::plan::no_accessing(query@)
            && crate::plan::supply_ok(query@) ==> (r matches Ok(p) && p@ == query@),
{
    let result = unnest_query(query);
    match crate::plan::find_unsupplied(&result) {
        None => Ok(result),
        Some(c) => Err(c),
    }
}

} // verus!
