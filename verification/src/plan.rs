//! The plan-node model: columns, algebraic expressions, and the
//! relational-algebra tree, together with the mathematical view of each.

use vstd::prelude::*;
use vstd::string::StringExecFns;

verus! {

/// Node identifiers are unique within one plan tree.
pub type NodeId = usize;

/// A qualified column: a `(table, name)` pair, value-equal.
pub struct Column {
    pub table: String,
    pub name: String,
}

/// The mathematical value of a [`Column`]: both parts as character sequences.
pub struct ColumnV {
    pub table: Seq<char>,
    pub name: Seq<char>,
}

impl View for Column {
    type V = ColumnV;

    open spec fn view(&self) -> ColumnV {
        ColumnV { table: self.table@, name: self.name@ }
    }
}

impl Clone for Column {
    fn clone(&self) -> (r: Self)
        ensures
            r == *self,
    {
        Column { table: self.table.clone(), name: self.name.clone() }
    }
}

impl PartialEq for Column {
    fn eq(&self, other: &Self) -> (r: bool) {
        self.table == other.table && self.name == other.name
    }
}

impl vstd::std_specs::cmp::PartialEqSpecImpl for Column {
    open spec fn obeys_eq_spec() -> bool {
        true
    }

    open spec fn eq_spec(&self, other: &Self) -> bool {
        self@ == other@
    }
}

impl Column {
    /// Build a column from its table qualifier and its name.
    pub fn new(table: &str, name: &str) -> (c: Column)
        ensures
            c@.table == table@,
            c@.name == name@,
    {
        Column { table: table.to_owned(), name: name.to_owned() }
    }

    /// Render the column as `table.name`.
    pub fn to_string(&self) -> (r: String)
        ensures
            r@ == self@.table + seq!['.'] + self@.name,
    {
        proof {
            reveal_strlit(".");
        }
        let mut r = self.table.clone();
        r.append(".");
        r.append(self.name.as_str());
        proof {
            assert(r@ =~= self@.table + seq!['.'] + self@.name);
        }
        r
    }
}

/// An algebraic expression, used inside predicates, projections and
/// aggregates.
pub enum Expr {
    ColumnRef(Column),
    Constant(String),
    Equal(Box<Expr>, Box<Expr>),
    And(Box<Expr>, Box<Expr>),
    GreaterThan(Box<Expr>, Box<Expr>),
    Count,
    Sum(Box<Expr>),
}

/// The mathematical value of an [`Expr`].
pub enum ExprV {
    ColumnRef(ColumnV),
    Constant(Seq<char>),
    Equal(Box<ExprV>, Box<ExprV>),
    And(Box<ExprV>, Box<ExprV>),
    GreaterThan(Box<ExprV>, Box<ExprV>),
    Count,
    Sum(Box<ExprV>),
}

pub open spec fn expr_view(e: Expr) -> ExprV
    decreases e,
{
    match e {
        Expr::ColumnRef(c) => ExprV::ColumnRef(c@),
        Expr::Constant(s) => ExprV::Constant(s@),
        Expr::Equal(l, r) => ExprV::Equal(Box::new(expr_view(*l)), Box::new(expr_view(*r))),
        Expr::And(l, r) => ExprV::And(Box::new(expr_view(*l)), Box::new(expr_view(*r))),
        Expr::GreaterThan(l, r) => ExprV::GreaterThan(
            Box::new(expr_view(*l)),
            Box::new(expr_view(*r)),
        ),
        Expr::Count => ExprV::Count,
        Expr::Sum(e0) => ExprV::Sum(Box::new(expr_view(*e0))),
    }
}

impl View for Expr {
    type V = ExprV;

    open spec fn view(&self) -> ExprV {
        expr_view(*self)
    }
}

impl Clone for Expr {
    fn clone(&self) -> (r: Self)
        ensures
            r == *self,
        decreases self,
    {
        match self {
            Expr::ColumnRef(c) => Expr::ColumnRef(c.clone()),
            Expr::Constant(s) => Expr::Constant(s.clone()),
            Expr::Equal(l, r) => Expr::Equal(Box::new((**l).clone()), Box::new((**r).clone())),
            Expr::And(l, r) => Expr::And(Box::new((**l).clone()), Box::new((**r).clone())),
            Expr::GreaterThan(l, r) => Expr::GreaterThan(
                Box::new((**l).clone()),
                Box::new((**r).clone()),
            ),
            Expr::Count => Expr::Count,
            Expr::Sum(e0) => Expr::Sum(Box::new((**e0).clone())),
        }
    }
}

/// The set of columns that occur anywhere in an expression.
pub open spec fn expr_cols(e: ExprV) -> Set<ColumnV>
    decreases e,
{
    match e {
        ExprV::ColumnRef(c) => Set::empty().insert(c),
        ExprV::Constant(_) => Set::empty(),
        ExprV::Equal(l, r) => expr_cols(*l).union(expr_cols(*r)),
        ExprV::And(l, r) => expr_cols(*l).union(expr_cols(*r)),
        ExprV::GreaterThan(l, r) => expr_cols(*l).union(expr_cols(*r)),
        ExprV::Count => Set::empty(),
        ExprV::Sum(e0) => expr_cols(*e0),
    }
}

/// One computed column of a `Project` node, or one aggregate output of a
/// `GroupBy` node.
pub struct ColMapping {
    pub col: Column,
    pub expr: Expr,
}

impl View for ColMapping {
    type V = (ColumnV, ExprV);

    open spec fn view(&self) -> (ColumnV, ExprV) {
        (self.col@, self.expr@)
    }
}

impl Clone for ColMapping {
    fn clone(&self) -> (r: Self)
        ensures
            r == *self,
    {
        ColMapping { col: self.col.clone(), expr: self.expr.clone() }
    }
}

/// A relational-algebra plan node; each variant owns its children outright,
/// so a plan is a strict tree.
pub enum RelNode {
    Table { id: NodeId, name: String, columns: Vec<String> },
    Select { id: NodeId, predicate: Expr, input: Box<RelNode> },
    Project { id: NodeId, mappings: Vec<ColMapping>, input: Box<RelNode> },
    GroupBy { id: NodeId, keys: Vec<Column>, aggregates: Vec<ColMapping>, input: Box<RelNode> },
    Join {
        id: NodeId,
        left: Box<RelNode>,
        right: Box<RelNode>,
        condition: Expr,
        is_dependent: bool,
        accessing: Vec<NodeId>,
    },
}

/// The mathematical value of a [`RelNode`].
pub enum PlanV {
    Table { id: int, name: Seq<char>, columns: Seq<Seq<char>> },
    Select { id: int, predicate: ExprV, input: Box<PlanV> },
    Project { id: int, mappings: Seq<(ColumnV, ExprV)>, input: Box<PlanV> },
    GroupBy { id: int, keys: Seq<ColumnV>, aggregates: Seq<(ColumnV, ExprV)>, input: Box<PlanV> },
    Join {
        id: int,
        left: Box<PlanV>,
        right: Box<PlanV>,
        condition: ExprV,
        is_dependent: bool,
        accessing: Set<int>,
    },
}

/// The set of node ids held by a sequence of ids.
pub open spec fn ids_set(s: Seq<NodeId>) -> Set<int> {
    Set::new(|i: int| exists|k: int| 0 <= k < s.len() && s[k] as int == i)
}

pub open spec fn plan_view(n: RelNode) -> PlanV
    decreases n,
{
    match n {
        RelNode::Table { id, name, columns } => PlanV::Table {
            id: id as int,
            name: name@,
            columns: columns@.map_values(|s: String| s@),
        },
        RelNode::Select { id, predicate, input } => PlanV::Select {
            id: id as int,
            predicate: predicate@,
            input: Box::new(plan_view(*input)),
        },
        RelNode::Project { id, mappings, input } => PlanV::Project {
            id: id as int,
            mappings: mappings@.map_values(|m: ColMapping| m@),
            input: Box::new(plan_view(*input)),
        },
        RelNode::GroupBy { id, keys, aggregates, input } => PlanV::GroupBy {
            id: id as int,
            keys: keys@.map_values(|c: Column| c@),
            aggregates: aggregates@.map_values(|m: ColMapping| m@),
            input: Box::new(plan_view(*input)),
        },
        RelNode::Join { id, left, right, condition, is_dependent, accessing } => PlanV::Join {
            id: id as int,
            left: Box::new(plan_view(*left)),
            right: Box::new(plan_view(*right)),
            condition: condition@,
            is_dependent,
            accessing: ids_set(accessing@),
        },
    }
}

impl View for RelNode {
    type V = PlanV;

    open spec fn view(&self) -> PlanV {
        plan_view(*self)
    }
}

impl Clone for RelNode {
    fn clone(&self) -> (r: Self)
        ensures
            r@ == self@,
        decreases self,
    {
        match self {
            RelNode::Table { id, name, columns } => RelNode::Table {
                id: *id,
                name: name.clone(),
                columns: clone_strings(columns),
            },
            RelNode::Select { id, predicate, input } => RelNode::Select {
                id: *id,
                predicate: predicate.clone(),
                input: Box::new((**input).clone()),
            },
            RelNode::Project { id, mappings, input } => RelNode::Project {
                id: *id,
                mappings: clone_mappings(mappings),
                input: Box::new((**input).clone()),
            },
            RelNode::GroupBy { id, keys, aggregates, input } => RelNode::GroupBy {
                id: *id,
                keys: clone_columns(keys),
                aggregates: clone_mappings(aggregates),
                input: Box::new((**input).clone()),
            },
            RelNode::Join { id, left, right, condition, is_dependent, accessing } => {
                RelNode::Join {
                    id: *id,
                    left: Box::new((**left).clone()),
                    right: Box::new((**right).clone()),
                    condition: condition.clone(),
                    is_dependent: *is_dependent,
                    accessing: clone_ids(accessing),
                }
            },
        }
    }
}

fn clone_strings(v: &Vec<String>) -> (r: Vec<String>)
    ensures
        r@ == v@,
{
    let mut r: Vec<String> = Vec::new();
    let mut i: usize = 0;
    while i < v.len()
        invariant
            i <= v.len(),
            r@ == v@.subrange(0, i as int),
        decreases v.len() - i,
    {
        r.push(v[i].clone());
        i = i + 1;
        proof {
            assert(r@ =~= v@.subrange(0, i as int));
        }
    }
    proof {
        assert(r@ =~= v@);
    }
    r
}

pub(crate) fn clone_columns(v: &Vec<Column>) -> (r: Vec<Column>)
    ensures
        r@ == v@,
{
    let mut r: Vec<Column> = Vec::new();
    let mut i: usize = 0;
    while i < v.len()
        invariant
            i <= v.len(),
            r@ == v@.subrange(0, i as int),
        decreases v.len() - i,
    {
        r.push(v[i].clone());
        i = i + 1;
        proof {
            assert(r@ =~= v@.subrange(0, i as int));
        }
    }
    proof {
        assert(r@ =~= v@);
    }
    r
}

fn clone_mappings(v: &Vec<ColMapping>) -> (r: Vec<ColMapping>)
    ensures
        r@ == v@,
{
    let mut r: Vec<ColMapping> = Vec::new();
    let mut i: usize = 0;
    while i < v.len()
        invariant
            i <= v.len(),
            r@ == v@.subrange(0, i as int),
        decreases v.len() - i,
    {
        r.push(v[i].clone());
        i = i + 1;
        proof {
            assert(r@ =~= v@.subrange(0, i as int));
        }
    }
    proof {
        assert(r@ =~= v@);
    }
    r
}

pub(crate) fn clone_ids(v: &Vec<NodeId>) -> (r: Vec<NodeId>)
    ensures
        r@ == v@,
{
    let mut r: Vec<NodeId> = Vec::new();
    let mut i: usize = 0;
    while i < v.len()
        invariant
            i <= v.len(),
            r@ == v@.subrange(0, i as int),
        decreases v.len() - i,
    {
        r.push(v[i]);
        i = i + 1;
        proof {
            assert(r@ =~= v@.subrange(0, i as int));
        }
    }
    proof {
        assert(r@ =~= v@);
    }
    r
}

} // verus!

verus! {

/// The set of columns held by a sequence of [`Column`] values.
pub open spec fn cols_set(s: Seq<Column>) -> Set<ColumnV> {
    Set::new(|c: ColumnV| exists|k: int| 0 <= k < s.len() && s[k]@ == c)
}

/// The set of columns held by a sequence of column values.
pub open spec fn colv_set(s: Seq<ColumnV>) -> Set<ColumnV> {
    Set::new(|c: ColumnV| exists|k: int| 0 <= k < s.len() && s[k] == c)
}

/// The output columns of a sequence of mappings: its keys.
pub open spec fn mapping_keys(s: Seq<(ColumnV, ExprV)>) -> Set<ColumnV> {
    Set::new(|c: ColumnV| exists|k: int| 0 <= k < s.len() && s[k].0 == c)
}

/// Every column that occurs in some expression of a sequence of mappings.
pub open spec fn mapping_expr_cols(s: Seq<(ColumnV, ExprV)>) -> Set<ColumnV> {
    Set::new(|c: ColumnV| exists|k: int| 0 <= k < s.len() && expr_cols(s[k].1).contains(c))
}

/// The columns a table leaf produces: its column names qualified by its own
/// name.
pub open spec fn table_cols(name: Seq<char>, columns: Seq<Seq<char>>) -> Set<ColumnV> {
    Set::new(|c: ColumnV| c.table == name && columns.contains(c.name))
}

/// The columns a node produces for its parent.
pub open spec fn produced_cols(n: PlanV) -> Set<ColumnV>
    decreases n,
{
    match n {
        PlanV::Table { name, columns, .. } => table_cols(name, columns),
        PlanV::Select { input, .. } => produced_cols(*input),
        PlanV::Project { mappings, input, .. } => produced_cols(*input).union(
            mapping_keys(mappings),
        ),
        PlanV::GroupBy { keys, aggregates, .. } => colv_set(keys).union(mapping_keys(aggregates)),
        PlanV::Join { left, right, .. } => produced_cols(*left).union(produced_cols(*right)),
    }
}

/// The columns a node's own expressions mention, not those merely passed
/// through from its children.
pub open spec fn accessed_cols(n: PlanV) -> Set<ColumnV> {
    match n {
        PlanV::Table { .. } => Set::empty(),
        PlanV::Select { predicate, .. } => expr_cols(predicate),
        PlanV::Project { mappings, .. } => mapping_expr_cols(mappings),
        PlanV::GroupBy { keys, aggregates, .. } => colv_set(keys).union(
            mapping_expr_cols(aggregates),
        ),
        PlanV::Join { condition, .. } => expr_cols(condition),
    }
}

/// The columns a subtree references without producing them itself.
pub open spec fn free_vars(n: PlanV) -> Set<ColumnV>
    decreases n,
{
    match n {
        PlanV::Table { .. } => Set::empty(),
        PlanV::Select { predicate, input, .. } => expr_cols(predicate).difference(
            produced_cols(*input),
        ).union(free_vars(*input)),
        PlanV::Project { mappings, input, .. } => mapping_expr_cols(mappings).difference(
            produced_cols(*input),
        ).union(free_vars(*input)),
        PlanV::GroupBy { aggregates, input, .. } => mapping_expr_cols(aggregates).difference(
            produced_cols(*input),
        ).union(free_vars(*input)),
        PlanV::Join { left, right, condition, .. } => expr_cols(condition).difference(
            produced_cols(*left).union(produced_cols(*right)),
        ).union(free_vars(*left)).union(free_vars(*right)),
    }
}

/// True when no join anywhere in the tree is flagged dependent.
pub open spec fn independent(n: PlanV) -> bool
    decreases n,
{
    match n {
        PlanV::Table { .. } => true,
        PlanV::Select { input, .. } => independent(*input),
        PlanV::Project { input, .. } => independent(*input),
        PlanV::GroupBy { input, .. } => independent(*input),
        PlanV::Join { left, right, is_dependent, .. } => !is_dependent && independent(*left)
            && independent(*right),
    }
}

/// True when no join anywhere in the tree carries an accessing id: the
/// accessing set is populated only while a join is dependent, so a rewritten
/// tree holds none.
pub open spec fn no_accessing(n: PlanV) -> bool
    decreases n,
{
    match n {
        PlanV::Table { .. } => true,
        PlanV::Select { input, .. } => no_accessing(*input),
        PlanV::Project { input, .. } => no_accessing(*input),
        PlanV::GroupBy { input, .. } => no_accessing(*input),
        PlanV::Join { left, right, accessing, .. } => accessing == Set::<int>::empty()
            && no_accessing(*left) && no_accessing(*right),
    }
}

/// The kind of a node, as a small tag: the rewrite never changes a node's
/// kind.
pub open spec fn plan_kind(n: PlanV) -> int {
    match n {
        PlanV::Table { .. } => 0,
        PlanV::Select { .. } => 1,
        PlanV::Project { .. } => 2,
        PlanV::GroupBy { .. } => 3,
        PlanV::Join { .. } => 4,
    }
}

/// The id of a node.
pub open spec fn plan_id(n: PlanV) -> int {
    match n {
        PlanV::Table { id, .. } => id,
        PlanV::Select { id, .. } => id,
        PlanV::Project { id, .. } => id,
        PlanV::GroupBy { id, .. } => id,
        PlanV::Join { id, .. } => id,
    }
}

/// The dependence flag of a node; only a join can carry one.
pub open spec fn plan_is_dependent(n: PlanV) -> bool {
    match n {
        PlanV::Join { is_dependent, .. } => is_dependent,
        _ => false,
    }
}

/// The accessing set of a node; empty for anything but a join.
pub open spec fn plan_accessing(n: PlanV) -> Set<int> {
    match n {
        PlanV::Join { accessing, .. } => accessing,
        _ => Set::empty(),
    }
}

/// The same node with its accessing set replaced, if it is a join.
pub open spec fn with_accessing(n: PlanV, acc: Set<int>) -> PlanV {
    match n {
        PlanV::Join { id, left, right, condition, is_dependent, .. } => PlanV::Join {
            id,
            left,
            right,
            condition,
            is_dependent,
            accessing: acc,
        },
        _ => n,
    }
}

/// The direct children of a node, left before right.
pub open spec fn plan_children(n: PlanV) -> Seq<PlanV> {
    match n {
        PlanV::Table { .. } => seq![],
        PlanV::Select { input, .. } => seq![*input],
        PlanV::Project { input, .. } => seq![*input],
        PlanV::GroupBy { input, .. } => seq![*input],
        PlanV::Join { left, right, .. } => seq![*left, *right],
    }
}

/// True when some node of the tree carries the given id.
pub open spec fn has_node_id(n: PlanV, i: int) -> bool
    decreases n,
{
    plan_id(n) == i || match n {
        PlanV::Table { .. } => false,
        PlanV::Select { input, .. } => has_node_id(*input, i),
        PlanV::Project { input, .. } => has_node_id(*input, i),
        PlanV::GroupBy { input, .. } => has_node_id(*input, i),
        PlanV::Join { left, right, .. } => has_node_id(*left, i) || has_node_id(*right, i),
    }
}

/// True when every node id occurs exactly once in the tree.
pub open spec fn ids_uniq(n: PlanV) -> bool
    decreases n,
{
    match n {
        PlanV::Table { .. } => true,
        PlanV::Select { id, input, .. } => !has_node_id(*input, id) && ids_uniq(*input),
        PlanV::Project { id, input, .. } => !has_node_id(*input, id) && ids_uniq(*input),
        PlanV::GroupBy { id, input, .. } => !has_node_id(*input, id) && ids_uniq(*input),
        PlanV::Join { id, left, right, .. } => !has_node_id(*left, id) && !has_node_id(*right, id)
            && ids_uniq(*left) && ids_uniq(*right) && (forall|i: int|
            has_node_id(*left, i) ==> !has_node_id(*right, i)),
    }
}

} // verus!

verus! {

/// The left input of a join; any other node is returned unchanged.
pub open spec fn plan_left(n: PlanV) -> PlanV {
    match n {
        PlanV::Join { left, .. } => *left,
        _ => n,
    }
}

/// The right input of a join; any other node is returned unchanged.
pub open spec fn plan_right(n: PlanV) -> PlanV {
    match n {
        PlanV::Join { right, .. } => *right,
        _ => n,
    }
}

pub proof fn lemma_cols_set_push(s: Seq<Column>, c: Column)
    ensures
        cols_set(s.push(c)) == cols_set(s).insert(c@),
{
    assert forall|x: ColumnV| cols_set(s.push(c)).contains(x) implies cols_set(s).insert(
        c@,
    ).contains(x) by {
        let k = choose|k: int| 0 <= k < s.push(c).len() && s.push(c)[k]@ == x;
        if k < s.len() {
            assert(s[k]@ == x);
        }
    }
    assert forall|x: ColumnV| cols_set(s).insert(c@).contains(x) implies cols_set(
        s.push(c),
    ).contains(x) by {
        if cols_set(s).contains(x) {
            let k = choose|k: int| 0 <= k < s.len() && s[k]@ == x;
            assert(s.push(c)[k]@ == x);
        } else {
            assert(s.push(c)[s.len() as int]@ == x);
        }
    }
    assert(cols_set(s.push(c)) =~= cols_set(s).insert(c@));
}

/// Append a copy of a column to a column set.
pub fn push_col(dst: &mut Vec<Column>, c: &Column)
    ensures
        cols_set(final(dst)@) == cols_set(old(dst)@).insert(c@),
{
    dst.push(c.clone());
    proof {
        lemma_cols_set_push(old(dst)@, dst@[dst@.len() - 1]);
        assert(dst@ == old(dst)@.push(dst@[dst@.len() - 1]));
    }
}

/// Append copies of all columns of `src` to `dst`.
pub fn extend_cols(dst: &mut Vec<Column>, src: &Vec<Column>)
    ensures
        cols_set(final(dst)@) == cols_set(old(dst)@).union(cols_set(src@)),
{
    let mut i: usize = 0;
    while i < src.len()
        invariant
            i <= src.len(),
            cols_set(dst@) == cols_set(old(dst)@).union(cols_set(src@.subrange(0, i as int))),
        decreases src.len() - i,
    {
        push_col(dst, &src[i]);
        proof {
            assert(src@.subrange(0, i + 1 as int) =~= src@.subrange(0, i as int).push(
                src@[i as int],
            ));
            lemma_cols_set_push(src@.subrange(0, i as int), src@[i as int]);
            assert(cols_set(dst@) =~= cols_set(old(dst)@).union(
                cols_set(src@.subrange(0, i + 1 as int)),
            ));
        }
        i = i + 1;
    }
    proof {
        assert(src@.subrange(0, src@.len() as int) =~= src@);
    }
}

/// Whether a column set holds the given column.
pub fn cols_contain(v: &Vec<Column>, c: &Column) -> (r: bool)
    ensures
        r == cols_set(v@).contains(c@),
{
    let mut i: usize = 0;
    while i < v.len()
        invariant
            i <= v.len(),
            forall|k: int| 0 <= k < i ==> v@[k]@ != c@,
        decreases v.len() - i,
    {
        if v[i] == *c {
            return true;
        }
        i = i + 1;
    }
    false
}

/// Gather every column that occurs in an expression.
pub fn collect_columns_from_expr(expr: &Expr, columns: &mut Vec<Column>)
    ensures
        cols_set(final(columns)@) == cols_set(old(columns)@).union(expr_cols(expr@)),
    decreases expr,
{
    match expr {
        Expr::ColumnRef(col) => {
            push_col(columns, col);
            proof {
                assert(cols_set(columns@) =~= cols_set(old(columns)@).union(expr_cols(expr@)));
            }
        },
        Expr::Constant(_) | Expr::Count => {
            proof {
                assert(cols_set(columns@) =~= cols_set(old(columns)@).union(expr_cols(expr@)));
            }
        },
        Expr::Equal(left, right) | Expr::And(left, right) | Expr::GreaterThan(left, right) => {
            collect_columns_from_expr(left, columns);
            collect_columns_from_expr(right, columns);
            proof {
                assert(cols_set(columns@) =~= cols_set(old(columns)@).union(expr_cols(expr@)));
            }
        },
        Expr::Sum(e0) => {
            collect_columns_from_expr(e0, columns);
        },
    }
}

impl RelNode {
    /// The id this node carries.
    pub fn id(&self) -> (r: NodeId)
        ensures
            r as int == plan_id(self@),
    {
        match self {
            RelNode::Table { id, .. } => *id,
            RelNode::Select { id, .. } => *id,
            RelNode::Project { id, .. } => *id,
            RelNode::GroupBy { id, .. } => *id,
            RelNode::Join { id, .. } => *id,
        }
    }

    /// The direct children of this node, left before right.
    pub fn children(&self) -> (r: Vec<&RelNode>)
        ensures
            r@.len() == plan_children(self@).len(),
            forall|k: int| 0 <= k < r@.len() ==> r@[k]@ == plan_children(self@)[k],
    {
        match self {
            RelNode::Table { .. } => vec![],
            RelNode::Select { input, .. } => vec![&**input],
            RelNode::Project { input, .. } => vec![&**input],
            RelNode::GroupBy { input, .. } => vec![&**input],
            RelNode::Join { left, right, .. } => vec![&**left, &**right],
        }
    }

    /// The left input of this join.
    pub fn left(&self) -> (r: &RelNode)
        requires
            self@ is Join,
        ensures
            r@ == plan_left(self@),
    {
        match self {
            RelNode::Join { left, .. } => &**left,
            _ => vstd::pervasive::unreached(),
        }
    }

    /// The right input of this join.
    pub fn right(&self) -> (r: &RelNode)
        requires
            self@ is Join,
        ensures
            r@ == plan_right(self@),
    {
        match self {
            RelNode::Join { right, .. } => &**right,
            _ => vstd::pervasive::unreached(),
        }
    }

    /// The accessing set of this join, open for updates.
    pub fn accessing_mut(&mut self) -> (r: &mut Vec<NodeId>)
        requires
            old(self)@ is Join,
        ensures
            ids_set(r@) == plan_accessing(old(self)@),
            final(self)@ == with_accessing(old(self)@, ids_set(final(r)@)),
    {
        match self {
            RelNode::Join { accessing, .. } => accessing,
            _ => vstd::pervasive::unreached(),
        }
    }

    /// Whether this node is a join flagged dependent.
    pub fn is_dependent_join(&self) -> (r: bool)
        ensures
            r == plan_is_dependent(self@),
    {
        match self {
            RelNode::Join { is_dependent, .. } => *is_dependent,
            _ => false,
        }
    }
}

} // verus!

verus! {

pub proof fn lemma_mapping_keys_push(s: Seq<(ColumnV, ExprV)>, p: (ColumnV, ExprV))
    ensures
        mapping_keys(s.push(p)) == mapping_keys(s).insert(p.0),
{
    assert forall|x: ColumnV| mapping_keys(s.push(p)).contains(x) implies mapping_keys(s).insert(
        p.0,
    ).contains(x) by {
        let k = choose|k: int| 0 <= k < s.push(p).len() && s.push(p)[k].0 == x;
        if k < s.len() {
            assert(s[k].0 == x);
        }
    }
    assert forall|x: ColumnV| mapping_keys(s).insert(p.0).contains(x) implies mapping_keys(
        s.push(p),
    ).contains(x) by {
        if mapping_keys(s).contains(x) {
            let k = choose|k: int| 0 <= k < s.len() && s[k].0 == x;
            assert(s.push(p)[k].0 == x);
        } else {
            assert(s.push(p)[s.len() as int].0 == x);
        }
    }
    assert(mapping_keys(s.push(p)) =~= mapping_keys(s).insert(p.0));
}

pub proof fn lemma_mapping_expr_cols_push(s: Seq<(ColumnV, ExprV)>, p: (ColumnV, ExprV))
    ensures
        mapping_expr_cols(s.push(p)) == mapping_expr_cols(s).union(expr_cols(p.1)),
{
    assert forall|x: ColumnV| mapping_expr_cols(s.push(p)).contains(x) implies mapping_expr_cols(
        s,
    ).union(expr_cols(p.1)).contains(x) by {
        let k = choose|k: int| 0 <= k < s.push(p).len() && expr_cols(s.push(p)[k].1).contains(x);
        if k < s.len() {
            assert(expr_cols(s[k].1).contains(x));
        }
    }
    assert forall|x: ColumnV| mapping_expr_cols(s).union(expr_cols(p.1)).contains(
        x,
    ) implies mapping_expr_cols(s.push(p)).contains(x) by {
        if mapping_expr_cols(s).contains(x) {
            let k = choose|k: int| 0 <= k < s.len() && expr_cols(s[k].1).contains(x);
            assert(expr_cols(s.push(p)[k].1).contains(x));
        } else {
            assert(expr_cols(s.push(p)[s.len() as int].1).contains(x));
        }
    }
    assert(mapping_expr_cols(s.push(p)) =~= mapping_expr_cols(s).union(expr_cols(p.1)));
}

pub proof fn lemma_mapping_view_index(s: Seq<ColMapping>, k: int)
    requires
        0 <= k < s.len(),
    ensures
        s.map_values(|m: ColMapping| m@)[k] == s[k]@,
{
}

pub proof fn lemma_colv_set_push(s: Seq<ColumnV>, c: ColumnV)
    ensures
        colv_set(s.push(c)) == colv_set(s).insert(c),
{
    assert forall|x: ColumnV| colv_set(s.push(c)).contains(x) implies colv_set(s).insert(
        c,
    ).contains(x) by {
        let k = choose|k: int| 0 <= k < s.push(c).len() && s.push(c)[k] == x;
        if k < s.len() {
            assert(s[k] == x);
        }
    }
    assert forall|x: ColumnV| colv_set(s).insert(c).contains(x) implies colv_set(
        s.push(c),
    ).contains(x) by {
        if colv_set(s).contains(x) {
            let k = choose|k: int| 0 <= k < s.len() && s[k] == x;
            assert(s.push(c)[k] == x);
        } else {
            assert(s.push(c)[s.len() as int] == x);
        }
    }
    assert(colv_set(s.push(c)) =~= colv_set(s).insert(c));
}

pub proof fn lemma_cols_set_is_colv_set(s: Seq<Column>)
    ensures
        cols_set(s) == colv_set(s.map_values(|c: Column| c@)),
{
    let m = s.map_values(|c: Column| c@);
    assert forall|x: ColumnV| cols_set(s).contains(x) implies colv_set(m).contains(x) by {
        let k = choose|k: int| 0 <= k < s.len() && s[k]@ == x;
        assert(m[k] == x);
    }
    assert forall|x: ColumnV| colv_set(m).contains(x) implies cols_set(s).contains(x) by {
        let k = choose|k: int| 0 <= k < m.len() && m[k] == x;
        assert(s[k]@ == x);
    }
    assert(cols_set(s) =~= colv_set(m));
}

pub proof fn lemma_table_cols_push(name: Seq<char>, s: Seq<Seq<char>>, x: Seq<char>)
    ensures
        table_cols(name, s.push(x)) == table_cols(name, s).insert(ColumnV { table: name, name: x }),
{
    assert forall|c: ColumnV| table_cols(name, s.push(x)).contains(c) implies table_cols(
        name,
        s,
    ).insert(ColumnV { table: name, name: x }).contains(c) by {
        let k = choose|k: int| 0 <= k < s.push(x).len() && s.push(x)[k] == c.name;
        if k < s.len() {
            assert(s[k] == c.name);
        } else {
            assert(c == ColumnV { table: name, name: x });
        }
    }
    assert forall|c: ColumnV| table_cols(name, s).insert(
        ColumnV { table: name, name: x },
    ).contains(c) implies table_cols(name, s.push(x)).contains(c) by {
        if table_cols(name, s).contains(c) {
            let k = choose|k: int| 0 <= k < s.len() && s[k] == c.name;
            assert(s.push(x)[k] == c.name);
        } else {
            assert(s.push(x)[s.len() as int] == c.name);
        }
    }
    assert(table_cols(name, s.push(x)) =~= table_cols(name, s).insert(
        ColumnV { table: name, name: x },
    ));
}

impl RelNode {
    /// The columns this node's own expressions mention.
    pub fn get_accessed_columns(&self) -> (r: Vec<Column>)
        ensures
            cols_set(r@) == accessed_cols(self@),
    {
        let mut columns: Vec<Column> = Vec::new();
        proof {
            assert(cols_set(columns@) =~= Set::<ColumnV>::empty());
        }
        match self {
            RelNode::Table { .. } => {},
            RelNode::Select { predicate, .. } => {
                collect_columns_from_expr(predicate, &mut columns);
                proof {
                    assert(cols_set(columns@) =~= accessed_cols(self@));
                }
            },
            RelNode::Project { mappings, .. } => {
                let ghost vm = mappings@.map_values(|m: ColMapping| m@);
                let mut i: usize = 0;
                while i < mappings.len()
                    invariant
                        i <= mappings.len(),
                        vm == mappings@.map_values(|m: ColMapping| m@),
                        cols_set(columns@) == mapping_expr_cols(vm.subrange(0, i as int)),
                    decreases mappings.len() - i,
                {
                    collect_columns_from_expr(&mappings[i].expr, &mut columns);
                    proof {
                        assert(vm.subrange(0, i as int + 1) =~= vm.subrange(0, i as int).push(
                            vm[i as int],
                        ));
                        lemma_mapping_expr_cols_push(vm.subrange(0, i as int), vm[i as int]);
                        assert(cols_set(columns@) =~= mapping_expr_cols(
                            vm.subrange(0, i as int + 1),
                        ));
                    }
                    i = i + 1;
                }
                proof {
                    assert(vm.subrange(0, vm.len() as int) =~= vm);
                }
            },
            RelNode::GroupBy { keys, aggregates, .. } => {
                extend_cols(&mut columns, keys);
                let ghost va = aggregates@.map_values(|m: ColMapping| m@);
                let ghost base = cols_set(columns@);
                let mut i: usize = 0;
                while i < aggregates.len()
                    invariant
                        i <= aggregates.len(),
                        va == aggregates@.map_values(|m: ColMapping| m@),
                        cols_set(columns@) == base.union(mapping_expr_cols(va.subrange(0, i as int))),
                    decreases aggregates.len() - i,
                {
                    collect_columns_from_expr(&aggregates[i].expr, &mut columns);
                    proof {
                        assert(va.subrange(0, i as int + 1) =~= va.subrange(0, i as int).push(
                            va[i as int],
                        ));
                        lemma_mapping_expr_cols_push(va.subrange(0, i as int), va[i as int]);
                        assert(cols_set(columns@) =~= base.union(
                            mapping_expr_cols(va.subrange(0, i as int + 1)),
                        ));
                    }
                    i = i + 1;
                }
                proof {
                    assert(va.subrange(0, va.len() as int) =~= va);
                    lemma_cols_set_is_colv_set(keys@);
                    assert(cols_set(columns@) =~= accessed_cols(self@));
                }
            },
            RelNode::Join { condition, .. } => {
                collect_columns_from_expr(condition, &mut columns);
                proof {
                    assert(cols_set(columns@) =~= accessed_cols(self@));
                }
            },
        }
        columns
    }

    /// The columns this node produces for its parent.
    pub fn get_produced_columns(&self) -> (r: Vec<Column>)
        ensures
            cols_set(r@) == produced_cols(self@),
        decreases self,
    {
        match self {
            RelNode::Table { name, columns, .. } => {
                let mut r: Vec<Column> = Vec::new();
                proof {
                    assert(cols_set(r@) =~= Set::<ColumnV>::empty());
                    assert(table_cols(name@, Seq::<Seq<char>>::empty()) =~= Set::<
                        ColumnV,
                    >::empty());
                }
                let ghost cv = columns@.map_values(|s: String| s@);
                let mut i: usize = 0;
                while i < columns.len()
                    invariant
                        i <= columns.len(),
                        cv == columns@.map_values(|s: String| s@),
                        cols_set(r@) == table_cols(name@, cv.subrange(0, i as int)),
                    decreases columns.len() - i,
                {
                    push_col(&mut r, &Column::new(name.as_str(), columns[i].as_str()));
                    proof {
                        assert(cv.subrange(0, i as int + 1) =~= cv.subrange(0, i as int).push(
                            cv[i as int],
                        ));
                        lemma_table_cols_push(name@, cv.subrange(0, i as int), cv[i as int]);
                        assert(cols_set(r@) =~= table_cols(name@, cv.subrange(0, i as int + 1)));
                    }
                    i = i + 1;
                }
                proof {
                    assert(cv.subrange(0, cv.len() as int) =~= cv);
                }
                r
            },
            RelNode::Select { input, .. } => (**input).get_produced_columns(),
            RelNode::Project { mappings, input, .. } => {
                let mut r = (**input).get_produced_columns();
                let ghost vm = mappings@.map_values(|m: ColMapping| m@);
                let ghost base = cols_set(r@);
                let mut i: usize = 0;
                while i < mappings.len()
                    invariant
                        i <= mappings.len(),
                        vm == mappings@.map_values(|m: ColMapping| m@),
                        cols_set(r@) == base.union(mapping_keys(vm.subrange(0, i as int))),
                    decreases mappings.len() - i,
                {
                    proof {
                        assert(cols_set(r@).insert(mappings@[i as int].col@) =~= base.union(
                            mapping_keys(vm.subrange(0, i as int)),
                        ).insert(vm[i as int].0));
                    }
                    push_col(&mut r, &mappings[i].col);
                    proof {
                        assert(vm.subrange(0, i as int + 1) =~= vm.subrange(0, i as int).push(
                            vm[i as int],
                        ));
                        lemma_mapping_keys_push(vm.subrange(0, i as int), vm[i as int]);
                        assert(cols_set(r@) =~= base.union(mapping_keys(vm.subrange(0, i as int + 1))));
                    }
                    i = i + 1;
                }
                proof {
                    assert(vm.subrange(0, vm.len() as int) =~= vm);
                    assert(cols_set(r@) =~= produced_cols(self@));
                }
                r
            },
            RelNode::GroupBy { keys, aggregates, .. } => {
                let mut r: Vec<Column> = Vec::new();
                proof {
                    assert(cols_set(r@) =~= Set::<ColumnV>::empty());
                }
                extend_cols(&mut r, keys);
                let ghost va = aggregates@.map_values(|m: ColMapping| m@);
                let ghost base = cols_set(r@);
                let mut i: usize = 0;
                while i < aggregates.len()
                    invariant
                        i <= aggregates.len(),
                        va == aggregates@.map_values(|m: ColMapping| m@),
                        cols_set(r@) == base.union(mapping_keys(va.subrange(0, i as int))),
                    decreases aggregates.len() - i,
                {
                    proof {
                        assert(cols_set(r@).insert(aggregates@[i as int].col@) =~= base.union(
                            mapping_keys(va.subrange(0, i as int)),
                        ).insert(va[i as int].0));
                    }
                    push_col(&mut r, &aggregates[i].col);
                    proof {
                        assert(va.subrange(0, i as int + 1) =~= va.subrange(0, i as int).push(
                            va[i as int],
                        ));
                        lemma_mapping_keys_push(va.subrange(0, i as int), va[i as int]);
                        assert(cols_set(r@) =~= base.union(mapping_keys(va.subrange(0, i as int + 1))));
                    }
                    i = i + 1;
                }
                proof {
                    assert(va.subrange(0, va.len() as int) =~= va);
                    lemma_cols_set_is_colv_set(keys@);
                    assert(cols_set(r@) =~= produced_cols(self@));
                }
                r
            },
            RelNode::Join { left, right, .. } => {
                let mut r = (**left).get_produced_columns();
                let right_cols = (**right).get_produced_columns();
                extend_cols(&mut r, &right_cols);
                proof {
                    assert(cols_set(r@) =~= produced_cols(self@));
                }
                r
            },
        }
    }
}

} // verus!

verus! {

/// Whether an id list holds the given id.
pub fn ids_contain(v: &Vec<NodeId>, x: NodeId) -> (r: bool)
    ensures
        r == ids_set(v@).contains(x as int),
{
    let mut i: usize = 0;
    while i < v.len()
        invariant
            i <= v.len(),
            forall|k: int| 0 <= k < i ==> v@[k] != x,
        decreases v.len() - i,
    {
        if v[i] == x {
            assert(v@[i as int] as int == x as int);
            return true;
        }
        i = i + 1;
    }
    assert(forall|k: int| 0 <= k < v@.len() ==> v@[k] as int != x as int);
    false
}

/// Whether two id lists hold the same set of ids.
pub fn ids_set_eq(a: &Vec<NodeId>, b: &Vec<NodeId>) -> (r: bool)
    ensures
        r == (ids_set(a@) == ids_set(b@)),
{
    let mut i: usize = 0;
    while i < a.len()
        invariant
            i <= a.len(),
            forall|k: int| 0 <= k < i ==> ids_set(b@).contains(#[trigger] a@[k] as int),
        decreases a.len() - i,
    {
        if !ids_contain(b, a[i]) {
            assert(ids_set(a@).contains(a@[i as int] as int));
            return false;
        }
        i = i + 1;
    }
    let mut j: usize = 0;
    while j < b.len()
        invariant
            j <= b.len(),
            forall|k: int| 0 <= k < a@.len() ==> ids_set(b@).contains(#[trigger] a@[k] as int),
            forall|k: int| 0 <= k < j ==> ids_set(a@).contains(#[trigger] b@[k] as int),
        decreases b.len() - j,
    {
        if !ids_contain(a, b[j]) {
            assert(ids_set(b@).contains(b@[j as int] as int));
            return false;
        }
        j = j + 1;
    }
    proof {
        assert forall|x: int| ids_set(a@).contains(x) implies ids_set(b@).contains(x) by {
            let k = choose|k: int| 0 <= k < a@.len() && a@[k] as int == x;
            assert(ids_set(b@).contains(a@[k] as int));
        }
        assert forall|x: int| ids_set(b@).contains(x) implies ids_set(a@).contains(x) by {
            let k = choose|k: int| 0 <= k < b@.len() && b@[k] as int == x;
            assert(ids_set(a@).contains(b@[k] as int));
        }
        assert(ids_set(a@) =~= ids_set(b@));
    }
    true
}

fn strings_eq(a: &Vec<String>, b: &Vec<String>) -> (r: bool)
    ensures
        r == (a@.map_values(|s: String| s@) == b@.map_values(|s: String| s@)),
{
    let ghost va = a@.map_values(|s: String| s@);
    let ghost vb = b@.map_values(|s: String| s@);
    if a.len() != b.len() {
        assert(va.len() != vb.len());
        return false;
    }
    let mut i: usize = 0;
    while i < a.len()
        invariant
            i <= a.len(),
            a@.len() == b@.len(),
            va == a@.map_values(|s: String| s@),
            vb == b@.map_values(|s: String| s@),
            forall|k: int| 0 <= k < i ==> va[k] == vb[k],
        decreases a.len() - i,
    {
        if !(a[i] == b[i]) {
            assert(va[i as int] != vb[i as int]);
            return false;
        }
        i = i + 1;
    }
    proof {
        assert(va =~= vb);
    }
    true
}

fn columns_eq(a: &Vec<Column>, b: &Vec<Column>) -> (r: bool)
    ensures
        r == (a@.map_values(|c: Column| c@) == b@.map_values(|c: Column| c@)),
{
    let ghost va = a@.map_values(|c: Column| c@);
    let ghost vb = b@.map_values(|c: Column| c@);
    if a.len() != b.len() {
        assert(va.len() != vb.len());
        return false;
    }
    let mut i: usize = 0;
    while i < a.len()
        invariant
            i <= a.len(),
            a@.len() == b@.len(),
            va == a@.map_values(|c: Column| c@),
            vb == b@.map_values(|c: Column| c@),
            forall|k: int| 0 <= k < i ==> va[k] == vb[k],
        decreases a.len() - i,
    {
        if !(a[i] == b[i]) {
            assert(va[i as int] != vb[i as int]);
            return false;
        }
        i = i + 1;
    }
    proof {
        assert(va =~= vb);
    }
    true
}

impl PartialEq for Expr {
    fn eq(&self, other: &Self) -> (r: bool)
        decreases self,
    {
        match self {
            Expr::ColumnRef(a) => match other {
                Expr::ColumnRef(b) => *a == *b,
                _ => false,
            },
            Expr::Constant(a) => match other {
                Expr::Constant(b) => *a == *b,
                _ => false,
            },
            Expr::Equal(al, ar) => match other {
                Expr::Equal(bl, br) => **al == **bl && **ar == **br,
                _ => false,
            },
            Expr::And(al, ar) => match other {
                Expr::And(bl, br) => **al == **bl && **ar == **br,
                _ => false,
            },
            Expr::GreaterThan(al, ar) => match other {
                Expr::GreaterThan(bl, br) => **al == **bl && **ar == **br,
                _ => false,
            },
            Expr::Count => match other {
                Expr::Count => true,
                _ => false,
            },
            Expr::Sum(a) => match other {
                Expr::Sum(b) => **a == **b,
                _ => false,
            },
        }
    }
}

impl vstd::std_specs::cmp::PartialEqSpecImpl for Expr {
    open spec fn obeys_eq_spec() -> bool {
        true
    }

    open spec fn eq_spec(&self, other: &Self) -> bool {
        self@ == other@
    }
}

fn mappings_eq(a: &Vec<ColMapping>, b: &Vec<ColMapping>) -> (r: bool)
    ensures
        r == (a@.map_values(|m: ColMapping| m@) == b@.map_values(|m: ColMapping| m@)),
{
    let ghost va = a@.map_values(|m: ColMapping| m@);
    let ghost vb = b@.map_values(|m: ColMapping| m@);
    if a.len() != b.len() {
        assert(va.len() != vb.len());
        return false;
    }
    let mut i: usize = 0;
    while i < a.len()
        invariant
            i <= a.len(),
            a@.len() == b@.len(),
            va == a@.map_values(|m: ColMapping| m@),
            vb == b@.map_values(|m: ColMapping| m@),
            forall|k: int| 0 <= k < i ==> va[k] == vb[k],
        decreases a.len() - i,
    {
        if !(a[i].col == b[i].col) {
            assert(va[i as int].0 != vb[i as int].0);
            return false;
        }
        if !(a[i].expr == b[i].expr) {
            assert(va[i as int].1 != vb[i as int].1);
            return false;
        }
        assert(va[i as int] == vb[i as int]);
        i = i + 1;
    }
    proof {
        assert(va =~= vb);
    }
    true
}

impl PartialEq for RelNode {
    fn eq(&self, other: &Self) -> (r: bool)
        decreases self,
    {
        match self {
            RelNode::Table { id: ia, name: na, columns: ca } => match other {
                RelNode::Table { id: ib, name: nb, columns: cb } => *ia == *ib && *na == *nb
                    && strings_eq(ca, cb),
                _ => false,
            },
            RelNode::Select { id: ia, predicate: pa, input: xa } => match other {
                RelNode::Select { id: ib, predicate: pb, input: xb } => *ia == *ib && *pa == *pb
                    && **xa == **xb,
                _ => false,
            },
            RelNode::Project { id: ia, mappings: ma, input: xa } => match other {
                RelNode::Project { id: ib, mappings: mb, input: xb } => *ia == *ib && mappings_eq(
                    ma,
                    mb,
                ) && **xa == **xb,
                _ => false,
            },
            RelNode::GroupBy { id: ia, keys: ka, aggregates: aa, input: xa } => match other {
                RelNode::GroupBy { id: ib, keys: kb, aggregates: ab, input: xb } => *ia == *ib
                    && columns_eq(ka, kb) && mappings_eq(aa, ab) && **xa == **xb,
                _ => false,
            },
            RelNode::Join {
                id: ia,
                left: la,
                right: ra,
                condition: ca,
                is_dependent: da,
                accessing: aa,
            } => match other {
                RelNode::Join {
                    id: ib,
                    left: lb,
                    right: rb,
                    condition: cb,
                    is_dependent: db,
                    accessing: ab,
                } => *ia == *ib && *da == *db && *ca == *cb && ids_set_eq(aa, ab) && **la == **lb
                    && **ra == **rb,
                _ => false,
            },
        }
    }
}

impl vstd::std_specs::cmp::PartialEqSpecImpl for RelNode {
    open spec fn obeys_eq_spec() -> bool {
        true
    }

    open spec fn eq_spec(&self, other: &Self) -> bool {
        self@ == other@
    }
}

/// Whether a subtree holds a node with the given id.
pub fn contains_id(n: &RelNode, x: NodeId) -> (r: bool)
    ensures
        r == has_node_id(n@, x as int),
    decreases n,
{
    if n.id() == x {
        return true;
    }
    match n {
        RelNode::Table { .. } => false,
        RelNode::Select { input, .. } => contains_id(input, x),
        RelNode::Project { input, .. } => contains_id(input, x),
        RelNode::GroupBy { input, .. } => contains_id(input, x),
        RelNode::Join { left, right, .. } => contains_id(left, x) || contains_id(right, x),
    }
}

pub proof fn lemma_ids_set_push(s: Seq<NodeId>, x: NodeId)
    ensures
        ids_set(s.push(x)) == ids_set(s).insert(x as int),
{
    assert forall|y: int| ids_set(s.push(x)).contains(y) implies ids_set(s).insert(
        x as int,
    ).contains(y) by {
        let k = choose|k: int| 0 <= k < s.push(x).len() && s.push(x)[k] as int == y;
        if k < s.len() {
            assert(s[k] as int == y);
        }
    }
    assert forall|y: int| ids_set(s).insert(x as int).contains(y) implies ids_set(
        s.push(x),
    ).contains(y) by {
        if ids_set(s).contains(y) {
            let k = choose|k: int| 0 <= k < s.len() && s[k] as int == y;
            assert(s.push(x)[k] as int == y);
        } else {
            assert(s.push(x)[s.len() as int] as int == y);
        }
    }
    assert(ids_set(s.push(x)) =~= ids_set(s).insert(x as int));
}

/// Gather every node id of a subtree.
pub fn collect_ids(n: &RelNode, out: &mut Vec<NodeId>)
    ensures
        forall|x: int| #[trigger]
            ids_set(final(out)@).contains(x) <==> ids_set(old(out)@).contains(x) || has_node_id(
                n@,
                x,
            ),
    decreases n,
{
    let ghost pre = out@;
    match n {
        RelNode::Table { id, .. } => {
            out.push(*id);
            proof {
                lemma_ids_set_push(pre, *id);
            }
        },
        RelNode::Select { id, input, .. } => {
            out.push(*id);
            proof {
                lemma_ids_set_push(pre, *id);
            }
            collect_ids(input, out);
        },
        RelNode::Project { id, input, .. } => {
            out.push(*id);
            proof {
                lemma_ids_set_push(pre, *id);
            }
            collect_ids(input, out);
        },
        RelNode::GroupBy { id, input, .. } => {
            out.push(*id);
            proof {
                lemma_ids_set_push(pre, *id);
            }
            collect_ids(input, out);
        },
        RelNode::Join { id, left, right, .. } => {
            out.push(*id);
            proof {
                lemma_ids_set_push(pre, *id);
            }
            collect_ids(left, out);
            collect_ids(right, out);
        },
    }
}

/// True when every node id occurs exactly once in this tree. Malformed
/// input is detected here, before any rewrite is attempted.
#[verifier::loop_isolation(false)]
pub fn has_unique_ids(n: &RelNode) -> (r: bool)
    ensures
        r == ids_uniq(n@),
    decreases n,
{
    match n {
        RelNode::Table { .. } => true,
        RelNode::Select { id, input, .. } => !contains_id(input, *id) && has_unique_ids(input),
        RelNode::Project { id, input, .. } => !contains_id(input, *id) && has_unique_ids(input),
        RelNode::GroupBy { id, input, .. } => !contains_id(input, *id) && has_unique_ids(input),
        RelNode::Join { id, left, right, .. } => {
            let ghost lv = (**left)@;
            let ghost rv = (**right)@;
            if contains_id(left, *id) || contains_id(right, *id) {
                return false;
            }
            if !has_unique_ids(left) || !has_unique_ids(right) {
                return false;
            }
            let mut left_ids: Vec<NodeId> = Vec::new();
            collect_ids(left, &mut left_ids);
            let mut i: usize = 0;
            while i < left_ids.len()
                invariant
                    i <= left_ids@.len(),
                    lv == (**left)@,
                    rv == (**right)@,
                    forall|x: int| ids_set(left_ids@).contains(x) <==> has_node_id(lv, x),
                    forall|k: int|
                        0 <= k < i ==> !has_node_id(rv, #[trigger] (left_ids@[k] as int)),
                decreases left_ids@.len() - i,
            {
                let x = left_ids[i];
                if contains_id(right, x) {
                    proof {
                        assert(ids_set(left_ids@).contains(left_ids@[i as int] as int));
                        assert(has_node_id(lv, x as int));
                        assert(has_node_id(rv, x as int));
                        assert(!ids_uniq(n@)) by {
                            if ids_uniq(n@) {
                                assert(plan_left(n@) == lv);
                                assert(plan_right(n@) == rv);
                                assert(has_node_id(plan_left(n@), x as int));
                                assert(!has_node_id(plan_right(n@), x as int));
                            }
                        }
                    }
                    return false;
                }
                proof {
                    assert(!has_node_id(rv, left_ids@[i as int] as int));
                }
                i = i + 1;
            }
            proof {
                assert forall|x: int| has_node_id(lv, x) implies !has_node_id(rv, x) by {
                    assert(ids_set(left_ids@).contains(x));
                    let k = choose|k: int| 0 <= k < left_ids@.len() && left_ids@[k] as int == x;
                    assert(!has_node_id(rv, left_ids@[k] as int));
                }
                assert(ids_uniq(n@));
            }
            true
        },
    }
}

} // verus!

verus! {

/// The largest node id in the tree.
pub open spec fn plan_max_id(n: PlanV) -> int
    decreases n,
{
    match n {
        PlanV::Table { id, .. } => id,
        PlanV::Select { id, input, .. } => if id > plan_max_id(*input) {
            id
        } else {
            plan_max_id(*input)
        },
        PlanV::Project { id, input, .. } => if id > plan_max_id(*input) {
            id
        } else {
            plan_max_id(*input)
        },
        PlanV::GroupBy { id, input, .. } => if id > plan_max_id(*input) {
            id
        } else {
            plan_max_id(*input)
        },
        PlanV::Join { id, left, right, .. } => {
            let m = if plan_max_id(*left) > plan_max_id(*right) {
                plan_max_id(*left)
            } else {
                plan_max_id(*right)
            };
            if id > m {
                id
            } else {
                m
            }
        },
    }
}

/// The largest node id in the tree.
pub fn tree_max_id(node: &RelNode) -> (r: NodeId)
    ensures
        r as int == plan_max_id(node@),
    decreases node,
{
    match node {
        RelNode::Table { id, .. } => *id,
        RelNode::Select { id, input, .. } => {
            let m = tree_max_id(input);
            if *id > m {
                *id
            } else {
                m
            }
        },
        RelNode::Project { id, input, .. } => {
            let m = tree_max_id(input);
            if *id > m {
                *id
            } else {
                m
            }
        },
        RelNode::GroupBy { id, input, .. } => {
            let m = tree_max_id(input);
            if *id > m {
                *id
            } else {
                m
            }
        },
        RelNode::Join { id, left, right, .. } => {
            let ml = tree_max_id(left);
            let mr = tree_max_id(right);
            let m = if ml > mr {
                ml
            } else {
                mr
            };
            if *id > m {
                *id
            } else {
                m
            }
        },
    }
}

} // verus!

verus! {

/// Whether the tree holds no dependent join: the output contract of the
/// rewrite.
pub fn is_independent(node: &RelNode) -> (r: bool)
    ensures
        r == independent(node@),
    decreases node,
{
    match node {
        RelNode::Table { .. } => true,
        RelNode::Select { input, .. } => is_independent(input),
        RelNode::Project { input, .. } => is_independent(input),
        RelNode::GroupBy { input, .. } => is_independent(input),
        RelNode::Join { left, right, is_dependent, .. } => !*is_dependent && is_independent(left)
            && is_independent(right),
    }
}

/// Every column a node's own expressions mention is produced below it: no
/// dangling reference anywhere in the tree.
pub open spec fn supply_ok(n: PlanV) -> bool
    decreases n,
{
    match n {
        PlanV::Table { .. } => true,
        PlanV::Select { predicate, input, .. } => expr_cols(predicate).subset_of(
            produced_cols(*input),
        ) && supply_ok(*input),
        PlanV::Project { mappings, input, .. } => mapping_expr_cols(mappings).subset_of(
            produced_cols(*input),
        ) && supply_ok(*input),
        PlanV::GroupBy { keys, aggregates, input, .. } => colv_set(keys).union(
            mapping_expr_cols(aggregates),
        ).subset_of(produced_cols(*input)) && supply_ok(*input),
        PlanV::Join { left, right, condition, .. } => expr_cols(condition).subset_of(
            produced_cols(*left).union(produced_cols(*right)),
        ) && supply_ok(*left) && supply_ok(*right),
    }
}

fn cols_subset(a: &Vec<Column>, b: &Vec<Column>) -> (r: bool)
    ensures
        r == cols_set(a@).subset_of(cols_set(b@)),
{
    let mut i: usize = 0;
    while i < a.len()
        invariant
            i <= a.len(),
            forall|k: int| 0 <= k < i ==> cols_set(b@).contains(#[trigger] (a@[k]@)),
        decreases a.len() - i,
    {
        if !cols_contain(b, &a[i]) {
            proof {
                assert(cols_set(a@).contains(a@[i as int]@));
            }
            return false;
        }
        i = i + 1;
    }
    proof {
        assert forall|x: ColumnV| cols_set(a@).contains(x) implies cols_set(b@).contains(x) by {
            let k = choose|k: int| 0 <= k < a@.len() && a@[k]@ == x;
            assert(cols_set(b@).contains(a@[k]@));
        }
    }
    true
}

/// Check the column-supply invariant: every column referenced by a node's
/// own expressions is produced by a node reachable as its descendant.
pub fn has_column_supply(node: &RelNode) -> (r: bool)
    ensures
        r == supply_ok(node@),
    decreases node,
{
    match node {
        RelNode::Table { .. } => true,
        RelNode::Select { input, .. } => {
            let accessed = node.get_accessed_columns();
            let produced = (**input).get_produced_columns();
            cols_subset(&accessed, &produced) && has_column_supply(input)
        },
        RelNode::Project { input, .. } => {
            let accessed = node.get_accessed_columns();
            let produced = (**input).get_produced_columns();
            cols_subset(&accessed, &produced) && has_column_supply(input)
        },
        RelNode::GroupBy { input, .. } => {
            let accessed = node.get_accessed_columns();
            let produced = (**input).get_produced_columns();
            cols_subset(&accessed, &produced) && has_column_supply(input)
        },
        RelNode::Join { left, right, .. } => {
            let accessed = node.get_accessed_columns();
            let mut produced = (**left).get_produced_columns();
            let right_cols = (**right).get_produced_columns();
            extend_cols(&mut produced, &right_cols);
            cols_subset(&accessed, &produced) && has_column_supply(left) && has_column_supply(
                right,
            )
        },
    }
}

} // verus!

verus! {

/// The first dangling column found, if any: a column some node's own
/// expressions mention that no node reachable as its descendant produces.
#[verifier::loop_isolation(false)]
pub fn find_unsupplied(node: &RelNode) -> (r: Option<Column>)
    ensures
        r is None <==> supply_ok(node@),
    decreases node,
{
    match node {
        RelNode::Table { .. } => None,
        RelNode::Select { input, .. } | RelNode::Project { input, .. } | RelNode::GroupBy {
            input,
            ..
        } => {
            let accessed = node.get_accessed_columns();
            let produced = (**input).get_produced_columns();
            let mut i: usize = 0;
            while i < accessed.len()
                invariant
                    i <= accessed.len(),
                    forall|k: int| 0 <= k < i ==> cols_set(produced@).contains(
                        #[trigger] (accessed@[k]@),
                    ),
                decreases accessed.len() - i,
            {
                if !cols_contain(&produced, &accessed[i]) {
                    proof {
                        assert(cols_set(accessed@).contains(accessed@[i as int]@));
                    }
                    return Some(accessed[i].clone());
                }
                i = i + 1;
            }
            proof {
                assert forall|x: ColumnV| cols_set(accessed@).contains(x) implies cols_set(
                    produced@,
                ).contains(x) by {
                    let k = choose|k: int| 0 <= k < accessed@.len() && accessed@[k]@ == x;
                    assert(cols_set(produced@).contains(accessed@[k]@));
                }
            }
            find_unsupplied(input)
        },
        RelNode::Join { left, right, .. } => {
            let accessed = node.get_accessed_columns();
            let mut produced = (**left).get_produced_columns();
            let right_cols = (**right).get_produced_columns();
            extend_cols(&mut produced, &right_cols);
            let mut i: usize = 0;
            while i < accessed.len()
                invariant
                    i <= accessed.len(),
                    forall|k: int| 0 <= k < i ==> cols_set(produced@).contains(
                        #[trigger] (accessed@[k]@),
                    ),
                decreases accessed.len() - i,
            {
                if !cols_contain(&produced, &accessed[i]) {
                    proof {
                        assert(cols_set(accessed@).contains(accessed@[i as int]@));
                    }
                    return Some(accessed[i].clone());
                }
                i = i + 1;
            }
            proof {
                assert forall|x: ColumnV| cols_set(accessed@).contains(x) implies cols_set(
                    produced@,
                ).contains(x) by {
                    let k = choose|k: int| 0 <= k < accessed@.len() && accessed@[k]@ == x;
                    assert(cols_set(produced@).contains(accessed@[k]@));
                }
            }
            match find_unsupplied(left) {
                Some(c) => Some(c),
                None => find_unsupplied(right),
            }
        },
    }
}

} // verus!
