use query_unnesting::plan::{
    has_column_supply, has_unique_ids, is_independent, ColMapping, Column, Expr, RelNode,
};
use query_unnesting::query_tree::QueryTree;
use query_unnesting::unnesting::{
    add_equivalences_from_expr, create_domain_join_condition, find_node_by_id, repr_lookup,
    rewrite_expr, try_unnest_query, unnest_query, EquivClass, Substitution, UnnestingInfo,
};

fn col(table: &str, name: &str) -> Column {
    Column::new(table, name)
}

fn cref(table: &str, name: &str) -> Expr {
    Expr::ColumnRef(col(table, name))
}

fn table_r(id: usize) -> RelNode {
    RelNode::Table {
        id,
        name: "R".to_string(),
        columns: vec!["X".to_string(), "Y".to_string()],
    }
}

fn table_s(id: usize) -> RelNode {
    RelNode::Table {
        id,
        name: "S".to_string(),
        columns: vec!["Y".to_string(), "Z".to_string()],
    }
}

#[test]
fn column_to_string_formats() {
    assert_eq!(col("R", "X").to_string(), "R.X");
    assert_eq!(col("orders", "total").to_string(), "orders.total");
}

#[test]
fn unique_ids_detects_duplicates() {
    let good = RelNode::Select {
        id: 2,
        predicate: Expr::GreaterThan(
            Box::new(cref("R", "X")),
            Box::new(Expr::Constant("5".to_string())),
        ),
        input: Box::new(table_r(1)),
    };
    assert!(has_unique_ids(&good));
    let bad = RelNode::Select {
        id: 1,
        predicate: Expr::Constant("true".to_string()),
        input: Box::new(table_r(1)),
    };
    assert!(!has_unique_ids(&bad));
}

#[test]
fn independent_plan_unchanged() {
    let plan = RelNode::Select {
        id: 4,
        predicate: Expr::GreaterThan(
            Box::new(cref("R", "X")),
            Box::new(Expr::Constant("5".to_string())),
        ),
        input: Box::new(RelNode::Join {
            id: 3,
            left: Box::new(table_r(1)),
            right: Box::new(table_s(2)),
            condition: Expr::Equal(Box::new(cref("R", "Y")), Box::new(cref("S", "Y"))),
            is_dependent: false,
            accessing: vec![],
        }),
    };
    let result = unnest_query(plan.clone());
    assert!(result == plan);
    assert!(is_independent(&result));
}

#[test]
fn two_independent_joins_pass_through() {
    let t = RelNode::Table {
        id: 5,
        name: "T".to_string(),
        columns: vec!["Z".to_string()],
    };
    let inner = RelNode::Join {
        id: 3,
        left: Box::new(table_r(1)),
        right: Box::new(table_s(2)),
        condition: Expr::Equal(Box::new(cref("R", "Y")), Box::new(cref("S", "Y"))),
        is_dependent: false,
        accessing: vec![],
    };
    let plan = RelNode::Join {
        id: 4,
        left: Box::new(inner),
        right: Box::new(t),
        condition: Expr::Equal(Box::new(cref("S", "Z")), Box::new(cref("T", "Z"))),
        is_dependent: false,
        accessing: vec![],
    };
    let result = unnest_query(plan.clone());
    assert!(result == plan);
}

#[test]
fn simple_unnesting_folds_filter() {
    // Table R(X,Y) dependently joined to Select[S.Y = R.Y](Table S(Y,Z)).
    let select = RelNode::Select {
        id: 4,
        predicate: Expr::Equal(Box::new(cref("S", "Y")), Box::new(cref("R", "Y"))),
        input: Box::new(table_s(2)),
    };
    let plan = RelNode::Join {
        id: 3,
        left: Box::new(table_r(1)),
        right: Box::new(select),
        condition: Expr::Constant("true".to_string()),
        is_dependent: true,
        accessing: vec![],
    };
    let result = unnest_query(plan);
    assert!(is_independent(&result));
    let expected = RelNode::Join {
        id: 3,
        left: Box::new(table_r(1)),
        right: Box::new(RelNode::Select {
            id: 4,
            predicate: Expr::Equal(Box::new(cref("S", "Y")), Box::new(cref("R", "Y"))),
            input: Box::new(table_s(2)),
        }),
        condition: Expr::And(
            Box::new(Expr::Constant("true".to_string())),
            Box::new(Expr::Equal(Box::new(cref("S", "Y")), Box::new(cref("R", "Y")))),
        ),
        is_dependent: false,
        accessing: vec![],
    };
    assert!(result == expected);
}

#[test]
fn discovery_records_dependent_join() {
    let select = RelNode::Select {
        id: 4,
        predicate: Expr::Equal(Box::new(cref("S", "Y")), Box::new(cref("R", "Y"))),
        input: Box::new(table_s(2)),
    };
    let plan = RelNode::Join {
        id: 3,
        left: Box::new(table_r(1)),
        right: Box::new(select),
        condition: Expr::Constant("true".to_string()),
        is_dependent: true,
        accessing: vec![],
    };
    let tree = QueryTree::new(plan);
    let relations = tree.identify_dependent_joins();
    assert_eq!(relations, vec![(3usize, 4usize)]);
}

#[test]
fn query_tree_ancestry() {
    let select = RelNode::Select {
        id: 4,
        predicate: Expr::Equal(Box::new(cref("S", "Y")), Box::new(cref("R", "Y"))),
        input: Box::new(table_s(2)),
    };
    let plan = RelNode::Join {
        id: 3,
        left: Box::new(table_r(1)),
        right: Box::new(select),
        condition: Expr::Constant("true".to_string()),
        is_dependent: true,
        accessing: vec![],
    };
    let tree = QueryTree::new(plan);
    assert!(tree.is_descendant_of(1, 3));
    assert!(tree.is_descendant_of(2, 4));
    assert!(tree.is_descendant_of(4, 4));
    assert!(!tree.is_descendant_of(3, 1));
    assert_eq!(tree.find_lca(4, 1), Some(3));
    assert_eq!(tree.find_lca(2, 1), Some(3));
    assert!(tree.is_in_left_subtree(1, 3));
    assert!(!tree.is_in_left_subtree(2, 3));
    assert!(tree.find_node(4).is_some());
    assert!(tree.find_node(9).is_none());
}

#[test]
fn groupby_decorrelation_appends_key() {
    // Dependent join whose accessing node is a GroupBy aggregating S by S.Z
    // with outer reference R.Y.
    let groupby = RelNode::GroupBy {
        id: 5,
        keys: vec![col("S", "Z")],
        aggregates: vec![ColMapping { col: col("S", "total"), expr: Expr::Sum(Box::new(cref("R", "Y"))) }],
        input: Box::new(table_s(2)),
    };
    let plan = RelNode::Join {
        id: 3,
        left: Box::new(table_r(1)),
        right: Box::new(groupby),
        condition: Expr::Equal(Box::new(cref("R", "Y")), Box::new(cref("S", "Y"))),
        is_dependent: true,
        accessing: vec![],
    };
    let result = unnest_query(plan);
    assert!(is_independent(&result));
    assert!(has_column_supply(&result));
    let expected = RelNode::Join {
        id: 3,
        left: Box::new(table_r(1)),
        right: Box::new(RelNode::Join {
            id: 7,
            left: Box::new(RelNode::Project {
                id: 6,
                mappings: vec![ColMapping { col: col("R", "Y"), expr: cref("R", "Y") }],
                input: Box::new(table_r(1)),
            }),
            right: Box::new(RelNode::GroupBy {
                id: 5,
                keys: vec![col("S", "Z"), col("S", "Y")],
                aggregates: vec![ColMapping {
                    col: col("S", "total"),
                    expr: Expr::Sum(Box::new(cref("S", "Y"))),
                }],
                input: Box::new(table_s(2)),
            }),
            condition: Expr::And(
                Box::new(Expr::Constant("true".to_string())),
                Box::new(Expr::Equal(Box::new(cref("R", "Y")), Box::new(cref("S", "Y")))),
            ),
            is_dependent: false,
            accessing: vec![],
        }),
        condition: Expr::Equal(Box::new(cref("S", "Y")), Box::new(cref("S", "Y"))),
        is_dependent: false,
        accessing: vec![],
    };
    assert!(result == expected);
}

#[test]
fn dependent_flag_cleared_without_accessing() {
    // A join flagged dependent whose right side has no correlation at all:
    // discovery records nothing, and the rewrite still emits the join with
    // its dependence flag cleared — no dependent join survives in any
    // output.
    let plan = RelNode::Join {
        id: 3,
        left: Box::new(table_r(1)),
        right: Box::new(table_s(2)),
        condition: Expr::Constant("true".to_string()),
        is_dependent: true,
        accessing: vec![],
    };
    let result = unnest_query(plan);
    assert!(is_independent(&result));
    let expected = RelNode::Join {
        id: 3,
        left: Box::new(table_r(1)),
        right: Box::new(table_s(2)),
        condition: Expr::Constant("true".to_string()),
        is_dependent: false,
        accessing: vec![],
    };
    assert!(result == expected);
}

#[test]
fn resolution_searches_transitive_closure() {
    // Predicates establish A = B and B = C; only C is available. The
    // reference to A must still resolve, through the closure, to C.
    let a = col("R", "A");
    let b = col("S", "B");
    let c = col("S", "C");
    let mut cclasses: Vec<EquivClass> = vec![];
    let pred = Expr::And(
        Box::new(Expr::Equal(Box::new(cref("R", "A")), Box::new(cref("S", "B")))),
        Box::new(Expr::Equal(Box::new(cref("S", "B")), Box::new(cref("S", "C")))),
    );
    add_equivalences_from_expr(&pred, &mut cclasses);
    let mut info = UnnestingInfo {
        outer_refs: vec![a.clone()],
        domain: None,
        cclasses,
        repr: vec![],
        parent: None,
    };
    info.create_replacement_mappings(&vec![c.clone()]);
    match repr_lookup(&info.repr, &a) {
        Some(sub) => assert!(sub == c),
        None => panic!("outer reference did not resolve through the closure"),
    }
    assert!(repr_lookup(&info.repr, &b).is_none());
}

#[test]
fn domain_join_condition_equates_resolved_columns() {
    let outer = vec![col("R", "Y")];
    let repr = vec![Substitution { from: col("R", "Y"), to: col("S", "Y") }];
    let cond = create_domain_join_condition(&outer, &repr);
    let expected = Expr::And(
        Box::new(Expr::Constant("true".to_string())),
        Box::new(Expr::Equal(Box::new(cref("R", "Y")), Box::new(cref("S", "Y")))),
    );
    assert!(cond == expected);
    // An unresolved outer reference contributes nothing.
    let empty: Vec<Substitution> = vec![];
    let cond2 = create_domain_join_condition(&outer, &empty);
    assert!(cond2 == Expr::Constant("true".to_string()));
}

#[test]
fn rewrite_expr_substitutes_resolved_references() {
    let repr = vec![Substitution { from: col("R", "Y"), to: col("S", "Y") }];
    let e = Expr::And(
        Box::new(Expr::Equal(Box::new(cref("R", "Y")), Box::new(cref("S", "Z")))),
        Box::new(Expr::Sum(Box::new(cref("R", "Y")))),
    );
    let rewritten = rewrite_expr(&e, &repr);
    let expected = Expr::And(
        Box::new(Expr::Equal(Box::new(cref("S", "Y")), Box::new(cref("S", "Z")))),
        Box::new(Expr::Sum(Box::new(cref("S", "Y")))),
    );
    assert!(rewritten == expected);
    let unchanged = rewrite_expr(&e, &vec![]);
    assert!(unchanged == e);
}

#[test]
fn find_node_walks_preorder() {
    let plan = RelNode::Select {
        id: 4,
        predicate: Expr::Constant("true".to_string()),
        input: Box::new(table_s(2)),
    };
    match find_node_by_id(&plan, 2) {
        Some(RelNode::Table { name, .. }) => assert_eq!(name, "S"),
        _ => panic!("table not found"),
    }
    assert!(find_node_by_id(&plan, 8).is_none());
}

#[test]
fn accessed_and_produced_columns() {
    let groupby = RelNode::GroupBy {
        id: 5,
        keys: vec![col("S", "Z")],
        aggregates: vec![ColMapping { col: col("S", "total"), expr: Expr::Sum(Box::new(cref("S", "Y"))) }],
        input: Box::new(table_s(2)),
    };
    let accessed = groupby.get_accessed_columns();
    assert!(accessed.contains(&col("S", "Z")));
    assert!(accessed.contains(&col("S", "Y")));
    let produced = groupby.get_produced_columns();
    assert!(produced.contains(&col("S", "Z")));
    assert!(produced.contains(&col("S", "total")));
    assert!(!produced.contains(&col("S", "Y")));
    let t = table_r(1);
    let tp = t.get_produced_columns();
    assert!(tp.contains(&col("R", "X")) && tp.contains(&col("R", "Y")));
    assert!(t.is_dependent_join() == false);
}

#[test]
fn join_accessors_and_accessing_mut() {
    let mut join = RelNode::Join {
        id: 3,
        left: Box::new(table_r(1)),
        right: Box::new(table_s(2)),
        condition: Expr::Constant("true".to_string()),
        is_dependent: true,
        accessing: vec![],
    };
    assert_eq!(join.left().id(), 1);
    assert_eq!(join.right().id(), 2);
    assert!(join.is_dependent_join());
    assert_eq!(join.children().len(), 2);
    assert_eq!(table_r(1).children().len(), 0);
    let acc = join.accessing_mut();
    acc.push(4);
    match &join {
        RelNode::Join { accessing, .. } => assert_eq!(accessing, &vec![4usize]),
        _ => unreachable!(),
    }
}

#[test]
fn column_equality_is_by_value() {
    assert!(col("R", "X") == col("R", "X"));
    assert!(col("R", "X") != col("R", "Y"));
    assert!(col("R", "X") != col("S", "X"));
}

#[test]
fn column_supply_detects_dangling_reference() {
    let dangling = RelNode::Select {
        id: 4,
        predicate: Expr::Equal(Box::new(cref("S", "Y")), Box::new(cref("R", "Y"))),
        input: Box::new(table_s(2)),
    };
    assert!(!has_column_supply(&dangling));
    let sound = RelNode::Select {
        id: 4,
        predicate: Expr::GreaterThan(
            Box::new(cref("S", "Z")),
            Box::new(Expr::Constant("0".to_string())),
        ),
        input: Box::new(table_s(2)),
    };
    assert!(has_column_supply(&sound));
}

#[test]
fn try_unnest_reports_dangling_reference() {
    // The simple-unnesting path folds the correlated predicate into the
    // join condition but keeps it inside the Select, whose own expressions
    // then still mention R.Y: the checked entry point reports that column
    // instead of returning the plan.
    let select = RelNode::Select {
        id: 4,
        predicate: Expr::Equal(Box::new(cref("S", "Y")), Box::new(cref("R", "Y"))),
        input: Box::new(table_s(2)),
    };
    let plan = RelNode::Join {
        id: 3,
        left: Box::new(table_r(1)),
        right: Box::new(select),
        condition: Expr::Constant("true".to_string()),
        is_dependent: true,
        accessing: vec![],
    };
    match try_unnest_query(plan) {
        Err(column) => assert!(column == col("R", "Y")),
        Ok(_) => panic!("dangling reference went unreported"),
    }
}

#[test]
fn try_unnest_returns_supplied_plan() {
    // The general path resolves the outer reference, so the rewritten tree
    // is fully supplied and comes back as a success.
    let groupby = RelNode::GroupBy {
        id: 5,
        keys: vec![col("S", "Z")],
        aggregates: vec![ColMapping { col: col("S", "total"), expr: Expr::Sum(Box::new(cref("R", "Y"))) }],
        input: Box::new(table_s(2)),
    };
    let plan = RelNode::Join {
        id: 3,
        left: Box::new(table_r(1)),
        right: Box::new(groupby),
        condition: Expr::Equal(Box::new(cref("R", "Y")), Box::new(cref("S", "Y"))),
        is_dependent: true,
        accessing: vec![],
    };
    match try_unnest_query(plan) {
        Ok(result) => {
            assert!(is_independent(&result));
            assert!(has_column_supply(&result));
        }
        Err(_) => panic!("a resolvable plan was rejected"),
    }
    let independent = RelNode::Join {
        id: 3,
        left: Box::new(table_r(1)),
        right: Box::new(table_s(2)),
        condition: Expr::Equal(Box::new(cref("R", "Y")), Box::new(cref("S", "Y"))),
        is_dependent: false,
        accessing: vec![],
    };
    match try_unnest_query(independent.clone()) {
        Ok(result) => assert!(result == independent),
        Err(_) => panic!("a clean plan was rejected"),
    }
}
