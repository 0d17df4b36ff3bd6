use witgen::affine_expression::{AffineExpression, Solution};
use witgen::bounded_solver::{solve_within, value_at, BoundedSolution};
use witgen::analyzed::{
    Analyzed, BinaryOperator, Expression, FunctionValueDefinition, Identity, PolyID, Polynomial,
    PolynomialReference, PolynomialType, QueryExpression, QueryItem, SelectedExpressions,
    UnaryOperator,
};
use witgen::column_map::WitnessColumnMap;
use witgen::eval_result::{
    Cell, Constraint, EvalError, EvalStatus, EvalValue, IncompleteCause,
};
use witgen::expression_evaluator::{evaluate, evaluate_affine, next_row};
use witgen::field::Field;
use witgen::generator::{ask_queries, certify, process_row, Generator};
use witgen::global_constraints::{
    capture, determine_global_constraints, enumerated_limit, GlobalConstraints,
};
use witgen::identity_processor::process_identity;
use witgen::verdict::{check_identity, Verdict};
use witgen::lookup::search_table;
use witgen::machines::fixed_lookup::{FixedLookup, LookupOutcome};
use witgen::machines::machine_extractor::{all_row_connected_witnesses, split_out_machines};
use witgen::machines::Machine;
use witgen::query_processor::{interpolate_query, process_query, query_outcome};
use witgen::range_constraints::RangeConstraint;
use witgen::rows::Rows;
use witgen::sequence_iterator::{SequenceIterator, Step};
use witgen::setup::ConfigError;
use witgen::{FixedColumn, FixedData, Query, QueryCallback, WitnessColumn};

struct Fixed(Option<u64>);

impl QueryCallback for Fixed {
    fn query(&mut self, _query: &str) -> Option<u64> {
        self.0
    }
}

fn reference(id: u64, ptype: PolynomialType, next: bool) -> Expression {
    Expression::PolynomialReference(PolynomialReference {
        name: format!("col{id}"),
        poly_id: Some(PolyID { id, ptype }),
        index: None,
        next,
    })
}

fn witness(id: u64) -> Expression {
    reference(id, PolynomialType::Committed, false)
}

fn witness_next(id: u64) -> Expression {
    reference(id, PolynomialType::Committed, true)
}

fn table(id: u64) -> Expression {
    reference(id, PolynomialType::Constant, false)
}

fn number(n: u64) -> Expression {
    Expression::Number(n)
}

fn binary(l: Expression, op: BinaryOperator, r: Expression) -> Expression {
    Expression::BinaryOperation(Box::new(l), op, Box::new(r))
}

fn minus(l: Expression, r: Expression) -> Expression {
    binary(l, BinaryOperator::Sub, r)
}

fn plus(l: Expression, r: Expression) -> Expression {
    binary(l, BinaryOperator::Add, r)
}

fn times(l: Expression, r: Expression) -> Expression {
    binary(l, BinaryOperator::Mul, r)
}

fn column(id: u64, name: &str) -> (Polynomial, Option<FunctionValueDefinition>) {
    (Polynomial { id, absolute_name: name.to_string(), length: None }, None)
}

fn system(width: u64, identities: Vec<Identity>) -> Analyzed {
    Analyzed {
        field: Field { modulus: 97 },
        committed: (0..width).map(|i| column(i, &format!("main.w{i}"))).collect(),
        identities,
    }
}

fn selected(selector: Option<Expression>, expressions: Vec<Expression>) -> SelectedExpressions {
    SelectedExpressions { selector, expressions }
}

fn lookup(left: Vec<Expression>, right: Vec<Expression>) -> Identity {
    Identity::Plookup(selected(None, left), selected(None, right))
}

fn setup_error(
    analyzed: &Analyzed,
    degree: u64,
    fixed_cols: &[(&str, Vec<u64>)],
    external: Vec<(&str, Vec<u64>)>,
) -> ConfigError {
    match FixedData::try_new(analyzed, degree, fixed_cols, external) {
        Ok(_) => panic!("the setup was accepted"),
        Err(e) => e,
    }
}

fn known_rows(fixed: &FixedData, columns: Vec<Vec<Option<u64>>>) -> Rows {
    let mut rows = Rows::new(fixed);
    for (c, column) in columns.into_iter().enumerate() {
        for (r, cell) in column.into_iter().enumerate() {
            if let Some(v) = cell {
                rows.set(fixed, c, r, v);
            }
        }
    }
    rows
}

#[test]
fn field_arithmetic() {
    let f = Field::new(97).unwrap();
    assert_eq!(f.add(90, 10), 3);
    assert_eq!(f.add(u64::MAX, u64::MAX), ((u64::MAX as u128 * 2) % 97) as u64);
    assert_eq!(f.sub(3, 10), 90);
    assert_eq!(f.sub(10, 3), 7);
    assert_eq!(f.neg(0), 0);
    assert_eq!(f.neg(1), 96);
    assert_eq!(f.mul(50, 50), 2500 % 97);
    assert_eq!(f.mul(u64::MAX, u64::MAX), ((u64::MAX as u128 * u64::MAX as u128) % 97) as u64);
    assert_eq!(f.reduce(200), 6);
    assert!(Field::new(1).is_none());
    assert!(Field::new(0).is_none());
    assert_eq!(Field::new(2).unwrap().modulus, 2);
}

#[test]
fn field_inverse() {
    let f = Field { modulus: 97 };
    assert_eq!(f.inverse(0), None);
    assert_eq!(f.inverse(1), Some(1));
    assert_eq!(f.inverse(3), Some(65));
    for a in 1..97 {
        let x = f.inverse(a).unwrap();
        assert_eq!(f.mul(a, x), 1);
    }
    let ring = Field { modulus: 12 };
    assert_eq!(ring.inverse(5), Some(5));
    assert_eq!(ring.inverse(7), Some(7));
    assert_eq!(ring.inverse(4), None);
    assert_eq!(ring.inverse(6), None);
    let goldilocks = Field { modulus: 0xffff_ffff_0000_0001 };
    let x = goldilocks.inverse(123_456_789_012_345).unwrap();
    assert_eq!(goldilocks.mul(123_456_789_012_345, x), 1);
}

#[test]
fn fixed_column_keeps_name_and_values() {
    let values = vec![0u64, 1, 0, 1];
    let col = FixedColumn::new("main.C", &values);
    assert_eq!(col.name, "main.C");
    assert_eq!(col.values, &values);
}

#[test]
fn witness_column_takes_query_from_declaration() {
    let query = Some(FunctionValueDefinition::Query(QueryExpression {
        items: vec![QueryItem::RowIndex],
    }));
    let with_query = WitnessColumn::new(3, "main.W", &query, Some(vec![1, 2]));
    assert_eq!(with_query.name, "main.W");
    assert_eq!(with_query.external_values, Some(vec![1, 2]));
    let q = with_query.query.unwrap();
    assert_eq!(q.poly.name, "main.W");
    assert_eq!(q.poly.poly_id, Some(PolyID { id: 3, ptype: PolynomialType::Committed }));
    assert_eq!(q.poly.index, None);
    assert!(!q.poly.next);
    assert_eq!(q.expr.items.len(), 1);

    let mapping = Some(FunctionValueDefinition::Mapping(number(1)));
    assert!(WitnessColumn::new(0, "main.V", &mapping, None).query.is_none());
    let nothing = None;
    let plain = WitnessColumn::new(0, "main.U", &nothing, None);
    assert!(plain.query.is_none());
    assert_eq!(plain.external_values, None);
}

#[test]
fn fixed_data_accessors() {
    let analyzed = system(2, vec![]);
    let fixed_cols = vec![("main.C", vec![4u64, 5, 6])];
    let fixed = FixedData::new(
        &analyzed,
        3,
        &fixed_cols,
        vec![("main.w1", vec![7, 8, 9])],
    );
    let w0 = PolyID { id: 0, ptype: PolynomialType::Committed };
    let w1 = PolyID { id: 1, ptype: PolynomialType::Committed };
    let c = PolyID { id: 0, ptype: PolynomialType::Constant };
    assert_eq!(fixed.column_name(&w0), "main.w0");
    assert_eq!(fixed.column_name(&w1), "main.w1");
    assert_eq!(fixed.column_name(&c), "main.C");
    assert_eq!(fixed.external_witness(0, &w0), None);
    assert_eq!(fixed.external_witness(0, &w1), Some(7));
    assert_eq!(fixed.external_witness(2, &w1), Some(9));
    assert_eq!(fixed.external_witness(3, &w1), Some(7));
    assert_eq!(fixed.external_witness(7, &w1), Some(8));
    let map: WitnessColumnMap<Option<u8>> = fixed.witness_map_with(Some(3));
    assert_eq!(map.values, vec![Some(3), Some(3)]);
    assert_eq!(map.len(), 2);
    assert_eq!(*map.get(&w1), Some(3));
    assert_eq!(fixed.degree, 3);
    assert_eq!(fixed.fixed_cols.len(), 1);
    assert_eq!(fixed.fixed_cols.get(&c).values, &vec![4u64, 5, 6]);
}

#[test]
fn setup_errors() {
    let plain = system(2, vec![]);
    let none: Vec<(&str, Vec<u64>)> = vec![];
    assert!(FixedData::try_new(&plain, 2, &none, vec![("main.w1", vec![1, 2])]).is_ok());
    assert_eq!(setup_error(&plain, 0, &none, vec![]), ConfigError::ZeroDegree);

    let mut no_field = system(1, vec![]);
    no_field.field = Field { modulus: 1 };
    assert_eq!(setup_error(&no_field, 2, &none, vec![]), ConfigError::InvalidField);

    let mut array = system(2, vec![]);
    array.committed[1].0.length = Some(4);
    assert_eq!(setup_error(&array, 2, &none, vec![]), ConfigError::CommittedArray { column: 1 });

    let mut misnumbered = system(2, vec![]);
    misnumbered.committed[1].0.id = 5;
    assert_eq!(
        setup_error(&misnumbered, 2, &none, vec![]),
        ConfigError::ColumnIdMismatch { column: 1 }
    );

    let mut twice = system(3, vec![]);
    twice.committed[2].0.absolute_name = "main.w0".to_string();
    assert_eq!(
        setup_error(&twice, 2, &none, vec![]),
        ConfigError::DuplicateColumnName { column: 2 }
    );

    assert_eq!(
        setup_error(&plain, 2, &none, vec![("main.w1", vec![1, 2, 3])]),
        ConfigError::ExternalWitnessLength { column: 1 }
    );
    assert_eq!(
        setup_error(&plain, 2, &none, vec![("main.w0", vec![1, 97])]),
        ConfigError::ExternalWitnessValue { column: 0, row: 1 }
    );
    assert_eq!(
        setup_error(&plain, 2, &none, vec![("main.w0", vec![1, 2]), ("main.x", vec![1, 2])]),
        ConfigError::UnknownExternalWitness { index: 1 }
    );
    assert_eq!(
        setup_error(&plain, 2, &none, vec![("main.w1", vec![1, 2, 3]), ("main.w1", vec![1, 2])]),
        ConfigError::ExternalWitnessTwice { index: 1 }
    );
    assert_eq!(
        setup_error(&plain, 2, &none, vec![("main.w1", vec![1, 2]), ("main.w1", vec![1, 2, 3])]),
        ConfigError::ExternalWitnessLength { column: 1 }
    );
    assert_eq!(
        setup_error(
            &plain,
            2,
            &none,
            vec![("main.w0", vec![1, 2]), ("main.w1", vec![3, 4]), ("main.w0", vec![1, 2])]
        ),
        ConfigError::ExternalWitnessTwice { index: 2 }
    );
    assert_eq!(
        setup_error(&plain, 2, &[("main.C", vec![1])], vec![]),
        ConfigError::FixedColumnLength { column: 0 }
    );
    assert_eq!(
        setup_error(&plain, 2, &[("main.C", vec![1, 2]), ("main.D", vec![100, 2])], vec![]),
        ConfigError::FixedColumnValue { column: 1, row: 0 }
    );

    let mut bad_query = system(1, vec![]);
    bad_query.committed[0].1 = Some(FunctionValueDefinition::Query(QueryExpression {
        items: vec![QueryItem::Value(witness(4))],
    }));
    assert_eq!(
        setup_error(&bad_query, 2, &none, vec![]),
        ConfigError::MalformedQuery { column: 0 }
    );

    let unknown_column = system(1, vec![Identity::Polynomial(witness(0)), Identity::Polynomial(table(0))]);
    assert_eq!(
        setup_error(&unknown_column, 2, &none, vec![]),
        ConfigError::MalformedIdentity { identity: 1 }
    );
    let uneven = system(2, vec![lookup(vec![witness(0), witness(1)], vec![witness(0)])]);
    assert_eq!(
        setup_error(&uneven, 2, &none, vec![]),
        ConfigError::MalformedIdentity { identity: 0 }
    );
    let intermediate =
        system(1, vec![Identity::Polynomial(reference(0, PolynomialType::Intermediate, false))]);
    assert_eq!(
        setup_error(&intermediate, 2, &none, vec![]),
        ConfigError::MalformedIdentity { identity: 0 }
    );
}

#[test]
fn rows_and_evaluation() {
    let analyzed = system(2, vec![]);
    let fixed_cols = vec![("main.C", vec![10u64, 20, 30])];
    let fixed = FixedData::new(&analyzed, 3, &fixed_cols, vec![]);
    let rows = known_rows(&fixed, vec![vec![Some(1), None, Some(3)], vec![None, None, None]]);
    assert_eq!(rows.get(&fixed, 0, 0), Some(1));
    assert_eq!(rows.get(&fixed, 0, 1), None);
    assert_eq!(next_row(&fixed, 0), 1);
    assert_eq!(next_row(&fixed, 2), 0);

    assert_eq!(evaluate(&fixed, &rows, &number(100), 0), Some(3));
    assert_eq!(evaluate(&fixed, &rows, &fixed_plus_witness(), 0), Some(11));
    assert_eq!(evaluate(&fixed, &rows, &fixed_plus_witness(), 1), None);
    assert_eq!(evaluate(&fixed, &rows, &fixed_plus_witness(), 2), Some(33));
    // the row after the last one is the first
    assert_eq!(evaluate(&fixed, &rows, &witness_next(0), 2), Some(1));
    assert_eq!(evaluate(&fixed, &rows, &witness_next(0), 0), None);
    assert_eq!(evaluate(&fixed, &rows, &minus(witness(0), table(0)), 0), Some(88));
    assert_eq!(evaluate(&fixed, &rows, &times(table(0), table(0)), 1), Some(400 % 97));
    let negated = Expression::UnaryOperation(UnaryOperator::Minus, Box::new(witness(0)));
    assert_eq!(evaluate(&fixed, &rows, &negated, 2), Some(94));
    let same = Expression::UnaryOperation(UnaryOperator::Plus, Box::new(witness(0)));
    assert_eq!(evaluate(&fixed, &rows, &same, 2), Some(3));
    // zero times an open cell is still open
    assert_eq!(evaluate(&fixed, &rows, &times(number(0), witness(1)), 0), None);
}

fn fixed_plus_witness() -> Expression {
    plus(table(0), witness(0))
}

#[test]
fn affine_forms_of_expressions() {
    let analyzed = system(2, vec![]);
    let fixed_cols = vec![("main.C", vec![10u64, 20, 30])];
    let fixed = FixedData::new(&analyzed, 3, &fixed_cols, vec![]);
    let rows = known_rows(&fixed, vec![vec![Some(1), None, Some(3)], vec![None, None, None]]);

    // 2 * w1 + w0' - C on row 0: w0 on row 1 and w1 on row 0 are open
    let e = minus(plus(times(number(2), witness(1)), witness_next(0)), table(0));
    let a = evaluate_affine(&fixed, &rows, &e, 0).unwrap();
    assert_eq!(a.current, vec![0, 2]);
    assert_eq!(a.next, vec![1, 0]);
    assert_eq!(a.offset, 87);
    assert!(!a.is_constant());
    assert_eq!(a.only_unknown(), None);
    assert_eq!(a.solve(&fixed.field), Solution::Undetermined);

    // on row 1 the next row holds w0 = 3
    let a = evaluate_affine(&fixed, &rows, &e, 1).unwrap();
    assert_eq!(a.current, vec![0, 2]);
    assert_eq!(a.next, vec![0, 0]);
    assert_eq!(a.offset, (3 + 97 - 20) % 97);
    assert_eq!(a.only_unknown(), Some((1, false)));
    // 2 * x + 80 = 0  =>  x = -40 = 57
    assert_eq!(
        a.solve(&fixed.field),
        Solution::Assignment { column: 1, next: false, value: 57 }
    );

    let product = times(witness(1), witness_next(1));
    assert!(evaluate_affine(&fixed, &rows, &product, 0).is_none());
    let cancelled = times(minus(witness(0), number(1)), witness(1));
    let a = evaluate_affine(&fixed, &rows, &cancelled, 0).unwrap();
    assert!(a.is_constant());
    assert_eq!(a.solve(&fixed.field), Solution::Satisfied);
    let off = plus(cancelled_copy(), number(5));
    let a = evaluate_affine(&fixed, &rows, &off, 0).unwrap();
    assert_eq!(a.solve(&fixed.field), Solution::Contradiction);
    let negated = Expression::UnaryOperation(UnaryOperator::Minus, Box::new(witness(1)));
    let a = evaluate_affine(&fixed, &rows, &negated, 0).unwrap();
    assert_eq!(a.current, vec![0, 96]);
}

fn cancelled_copy() -> Expression {
    times(minus(witness(0), number(1)), witness(1))
}

#[test]
fn affine_expression_operations() {
    let f = Field { modulus: 97 };
    let c = AffineExpression::constant(3, 5);
    assert_eq!((c.current.clone(), c.next.clone(), c.offset), (vec![0, 0, 0], vec![0, 0, 0], 5));
    let x = AffineExpression::unit(3, 1, false);
    let y = AffineExpression::unit(3, 2, true);
    assert_eq!((x.current.clone(), x.next.clone(), x.offset), (vec![0, 1, 0], vec![0, 0, 0], 0));
    assert_eq!((y.current.clone(), y.next.clone(), y.offset), (vec![0, 0, 0], vec![0, 0, 1], 0));
    let sum = x.add(&y, &f).add(&c, &f);
    assert_eq!((sum.current.clone(), sum.next.clone(), sum.offset), (vec![0, 1, 0], vec![0, 0, 1], 5));
    let scaled = sum.scale(96, &f);
    assert_eq!(
        (scaled.current.clone(), scaled.next.clone(), scaled.offset),
        (vec![0, 96, 0], vec![0, 0, 96], 92)
    );
    let difference = c.sub(&sum, &f);
    assert_eq!(
        (difference.current.clone(), difference.next.clone(), difference.offset),
        (vec![0, 96, 0], vec![0, 0, 96], 0)
    );
    // over the integers modulo 12 the coefficient 4 has no inverse
    let ring = Field { modulus: 12 };
    let four_x = AffineExpression::unit(1, 0, false).scale(4, &ring);
    assert_eq!(four_x.solve(&ring), Solution::Undetermined);
    let five_x = AffineExpression::unit(1, 0, false)
        .scale(5, &ring)
        .add(&AffineExpression::constant(1, 2), &ring);
    // 5 * x + 2 = 0 modulo 12  =>  x = 2
    assert_eq!(five_x.solve(&ring), Solution::Assignment { column: 0, next: false, value: 2 });
}

#[test]
fn sequence_of_steps() {
    let mut s = SequenceIterator::new(2);
    assert_eq!(s.next(), Some(Step::Identity(0)));
    assert_eq!(s.next(), Some(Step::Identity(1)));
    s.report_progress();
    assert_eq!(s.next(), Some(Step::Queries));
    // a second pass, because the first one made progress
    assert_eq!(s.next(), Some(Step::Identity(0)));
    s.report_progress();
    assert_eq!(s.next(), Some(Step::Identity(1)));
    assert_eq!(s.next(), Some(Step::Queries));
    // and a third, which learns nothing and is the last
    assert_eq!(s.next(), Some(Step::Identity(0)));
    assert_eq!(s.next(), Some(Step::Identity(1)));
    assert_eq!(s.next(), Some(Step::Queries));
    assert_eq!(s.next(), None);
    assert_eq!(s.next(), None);

    let mut idle = SequenceIterator::new(1);
    assert_eq!(idle.next(), Some(Step::Identity(0)));
    assert_eq!(idle.next(), Some(Step::Queries));
    assert_eq!(idle.next(), None);

    let mut queries_only = SequenceIterator::new(0);
    assert_eq!(queries_only.next(), Some(Step::Queries));
    queries_only.report_progress();
    assert_eq!(queries_only.next(), Some(Step::Queries));
    assert_eq!(queries_only.next(), None);
}

#[test]
fn fixed_lookup_outcomes() {
    let analyzed = system(1, vec![]);
    let fixed_cols = vec![
        ("main.A", vec![0u64, 1, 1, 2]),
        ("main.B", vec![5u64, 6, 6, 7]),
        ("main.C", vec![5u64, 6, 8, 7]),
    ];
    let fixed = FixedData::new(&analyzed, 4, &fixed_cols, vec![]);
    let mut machine = FixedLookup::new();
    let ab = selected(None, vec![table(0), table(1)]);
    let ac = selected(None, vec![table(0), table(2)]);
    assert!(matches!(
        machine.process_plookup(&fixed, &vec![Some(2), None], &ab),
        Some(LookupOutcome::Match(v)) if v == vec![2, 7]
    ));
    // two rows match, with the same tuple
    assert!(matches!(
        machine.process_plookup(&fixed, &vec![Some(1), None], &ab),
        Some(LookupOutcome::Match(v)) if v == vec![1, 6]
    ));
    assert!(matches!(
        machine.process_plookup(&fixed, &vec![Some(1), None], &ac),
        Some(LookupOutcome::Ambiguous)
    ));
    assert!(matches!(
        machine.process_plookup(&fixed, &vec![Some(1), Some(8)], &ac),
        Some(LookupOutcome::Match(v)) if v == vec![1, 8]
    ));
    assert!(matches!(
        machine.process_plookup(&fixed, &vec![Some(3), None], &ab),
        Some(LookupOutcome::Miss)
    ));
    assert!(matches!(
        machine.process_plookup(&fixed, &vec![None, None], &ab),
        Some(LookupOutcome::Ambiguous)
    ));
    // not a table of fixed columns
    let with_selector = selected(Some(table(0)), vec![table(0), table(1)]);
    assert!(machine.process_plookup(&fixed, &vec![None, None], &with_selector).is_none());
    let with_witness = selected(None, vec![table(0), witness(0)]);
    assert!(machine.process_plookup(&fixed, &vec![None, None], &with_witness).is_none());
    let shifted = selected(None, vec![reference(0, PolynomialType::Constant, true)]);
    assert!(machine.process_plookup(&fixed, &vec![None], &shifted).is_none());
}

fn outcome(value: EvalValue) -> (Vec<(Cell, Constraint)>, EvalStatus) {
    (value.constraints, value.status)
}

#[test]
fn identities_on_a_row() {
    let analyzed = system(3, vec![]);
    let fixed_cols = vec![("main.A", vec![0u64, 1, 1, 2]), ("main.B", vec![5u64, 6, 8, 7])];
    let fixed = FixedData::new(&analyzed, 4, &fixed_cols, vec![]);
    let rows = known_rows(
        &fixed,
        vec![vec![Some(2), Some(1), None, None], vec![None; 4], vec![None; 4]],
    );
    let mut machine = FixedLookup::new();
    let mut attempt = |identity: &Identity, row: usize| {
        process_identity(&fixed, &rows, &vec![None; 3], &mut machine, identity, 9, row)
    };

    // w1 = w0 + 3
    let sum = Identity::Polynomial(minus(witness(1), plus(witness(0), number(3))));
    assert_eq!(
        outcome(attempt(&sum, 0).unwrap()),
        (
            vec![(Cell { column: 1, next: false }, Constraint::Assignment(5))],
            EvalStatus::Complete
        )
    );
    assert_eq!(
        outcome(attempt(&sum, 2).unwrap()),
        (vec![], EvalStatus::Incomplete(IncompleteCause::MultipleUnknowns))
    );
    // w1' = 2 * w0
    let step = Identity::Polynomial(minus(witness_next(1), times(number(2), witness(0))));
    assert_eq!(
        outcome(attempt(&step, 1).unwrap()),
        (
            vec![(Cell { column: 1, next: true }, Constraint::Assignment(2))],
            EvalStatus::Complete
        )
    );
    let product = Identity::Polynomial(times(witness(1), witness(2)));
    assert_eq!(
        outcome(attempt(&product, 0).unwrap()),
        (vec![], EvalStatus::Incomplete(IncompleteCause::NonLinear))
    );
    let holds = Identity::Polynomial(minus(witness(0), number(2)));
    assert_eq!(outcome(attempt(&holds, 0).unwrap()), (vec![], EvalStatus::Complete));
    assert_eq!(
        attempt(&holds, 1).unwrap_err(),
        EvalError::ConstraintUnsatisfiable { row: 1, identity: 9 }
    );
    // (w0 - 2) * w1 + 1 = 0 on row 0 is contradicted whatever w1 is
    let hopeless = Identity::Polynomial(plus(times(minus(witness(0), number(2)), witness(1)), number(1)));
    assert_eq!(
        attempt(&hopeless, 0).unwrap_err(),
        EvalError::ConstraintUnsatisfiable { row: 0, identity: 9 }
    );

    // { w0, w1 + 1 } in { A, B }
    let look = |left: SelectedExpressions| Identity::Plookup(left, selected(None, vec![table(0), table(1)]));
    assert_eq!(
        outcome(attempt(&look(selected(None, vec![witness(0), plus(witness(1), number(1))])), 0).unwrap()),
        (
            vec![(Cell { column: 1, next: false }, Constraint::Assignment(6))],
            EvalStatus::Complete
        )
    );
    assert_eq!(
        outcome(attempt(&look(selected(None, vec![witness(0), witness(1)])), 1).unwrap()),
        (vec![], EvalStatus::Incomplete(IncompleteCause::MultipleLookupMatches))
    );
    assert_eq!(
        outcome(attempt(&look(selected(None, vec![witness(0), plus(witness(1), witness(2))])), 0).unwrap()),
        (vec![], EvalStatus::Incomplete(IncompleteCause::MultipleUnknowns))
    );
    assert_eq!(
        outcome(attempt(&look(selected(Some(witness(1)), vec![witness(0), witness(1)])), 0).unwrap()),
        (vec![], EvalStatus::Incomplete(IncompleteCause::UnknownSelector))
    );
    // the selector is zero on row 1: nothing is asked
    assert_eq!(
        outcome(attempt(&look(selected(Some(minus(witness(0), number(1))), vec![witness(2), witness(2)])), 1).unwrap()),
        (vec![], EvalStatus::Complete)
    );
    assert_eq!(
        attempt(&look(selected(None, vec![plus(witness(0), number(1)), witness(1)])), 0).unwrap_err(),
        EvalError::ConstraintUnsatisfiable { row: 0, identity: 9 }
    );
    let into_witness = Identity::Plookup(
        selected(None, vec![witness(0)]),
        selected(None, vec![witness(1)]),
    );
    assert_eq!(
        outcome(attempt(&into_witness, 0).unwrap()),
        (vec![], EvalStatus::Incomplete(IncompleteCause::NoLookupMachine))
    );
}

#[test]
fn verdicts() {
    let analyzed = system(2, vec![]);
    let fixed_cols = vec![("main.A", vec![0u64, 1, 1, 2])];
    let fixed = FixedData::new(&analyzed, 4, &fixed_cols, vec![]);
    let rows = known_rows(
        &fixed,
        vec![vec![Some(2), Some(1), Some(5), None], vec![Some(2), Some(2), Some(1), Some(1)]],
    );
    let equal = Identity::Polynomial(minus(witness(0), witness(1)));
    assert_eq!(check_identity(&fixed, &rows, &equal, 0), Verdict::Holds);
    assert_eq!(check_identity(&fixed, &rows, &equal, 1), Verdict::Violated);
    assert_eq!(check_identity(&fixed, &rows, &equal, 3), Verdict::Unresolved);
    let in_table = lookup(vec![witness(0)], vec![table(0)]);
    assert_eq!(check_identity(&fixed, &rows, &in_table, 0), Verdict::Holds);
    assert_eq!(check_identity(&fixed, &rows, &in_table, 2), Verdict::Violated);
    assert_eq!(check_identity(&fixed, &rows, &in_table, 3), Verdict::Unresolved);
    // w1 occurs in w0 where w0 is selected by A
    let selected_rows = Identity::Plookup(
        selected(None, vec![witness(1)]),
        selected(Some(table(0)), vec![witness(0)]),
    );
    // 2 is the value of w0 on row 0 only, which A does not select
    assert_eq!(check_identity(&fixed, &rows, &selected_rows, 0), Verdict::Unresolved);
    assert_eq!(check_identity(&fixed, &rows, &selected_rows, 2), Verdict::Holds);
    let complete = known_rows(
        &fixed,
        vec![vec![Some(2), Some(1), Some(5), Some(0)], vec![Some(2), Some(2), Some(1), Some(1)]],
    );
    assert_eq!(check_identity(&fixed, &complete, &selected_rows, 0), Verdict::Violated);
    assert_eq!(check_identity(&fixed, &complete, &selected_rows, 2), Verdict::Holds);
}

#[test]
fn query_texts() {
    let analyzed = system(2, vec![]);
    let fixed_cols = vec![("main.A", vec![0u64, 10, 96, 2])];
    let fixed = FixedData::new(&analyzed, 4, &fixed_cols, vec![]);
    let rows = known_rows(&fixed, vec![vec![Some(7), None, None, None], vec![None; 4]]);
    let query = QueryExpression {
        items: vec![
            QueryItem::Text("input".to_string()),
            QueryItem::RowIndex,
            QueryItem::Value(plus(table(0), witness(0))),
        ],
    };
    assert_eq!(interpolate_query(&fixed, &rows, &query, 0).unwrap(), "\"input\", 0, 7");
    assert_eq!(interpolate_query(&fixed, &rows, &query, 1), None);
    let short = QueryExpression { items: vec![QueryItem::Value(table(0))] };
    assert_eq!(interpolate_query(&fixed, &rows, &short, 1).unwrap(), "10");
    assert_eq!(interpolate_query(&fixed, &rows, &short, 2).unwrap(), "96");
    let empty = QueryExpression { items: vec![] };
    assert_eq!(interpolate_query(&fixed, &rows, &empty, 3).unwrap(), "");
    let index = QueryExpression { items: vec![QueryItem::RowIndex, QueryItem::RowIndex] };
    assert_eq!(interpolate_query(&fixed, &rows, &index, 3).unwrap(), "3, 3");
}

#[test]
fn query_outcomes() {
    let analyzed = system(2, vec![]);
    let none: Vec<(&str, Vec<u64>)> = vec![];
    let fixed = FixedData::new(&analyzed, 4, &none, vec![]);
    assert_eq!(
        outcome(query_outcome(&fixed, 1, Some(100))),
        (
            vec![(Cell { column: 1, next: false }, Constraint::Assignment(3))],
            EvalStatus::Complete
        )
    );
    assert_eq!(
        outcome(query_outcome(&fixed, 1, None)),
        (vec![], EvalStatus::Incomplete(IncompleteCause::NoQueryAnswer))
    );
    let rows = Rows::new(&fixed);
    let asks_row = QueryExpression { items: vec![QueryItem::RowIndex] };
    let asks_cell = QueryExpression { items: vec![QueryItem::Value(witness(0))] };
    let poly = |id: u64| PolynomialReference {
        name: "w".to_string(),
        poly_id: Some(PolyID { id, ptype: PolynomialType::Committed }),
        index: None,
        next: false,
    };
    let query = Query { expr: &asks_row, poly: poly(1) };
    let value = process_query(&fixed, &rows, &mut Fixed(Some(5)), &query, 1, 2);
    assert!(value.is_complete());
    assert_eq!(
        outcome(value),
        (
            vec![(Cell { column: 1, next: false }, Constraint::Assignment(5))],
            EvalStatus::Complete
        )
    );
    assert_eq!(
        outcome(process_query(&fixed, &rows, &mut Fixed(None), &query, 1, 2)),
        (vec![], EvalStatus::Incomplete(IncompleteCause::NoQueryAnswer))
    );
    let open = Query { expr: &asks_cell, poly: poly(1) };
    assert_eq!(
        outcome(process_query(&fixed, &rows, &mut Fixed(Some(5)), &open, 1, 2)),
        (vec![], EvalStatus::Incomplete(IncompleteCause::UnknownQueryArgument))
    );
}

#[test]
fn range_constraints() {
    let bit = RangeConstraint::below(2);
    let byte = RangeConstraint::below(256);
    assert!(bit.check(0) && bit.check(1) && !bit.check(2));
    assert!(byte.check(255) && !byte.check(256));
    assert_eq!(bit.conjunction(&byte), bit);
    assert_eq!(byte.conjunction(&bit), bit);
    assert_eq!(byte.conjunction(&byte), byte);
}

#[test]
fn limits_of_enumerations() {
    assert_eq!(enumerated_limit(&vec![0, 1, 2, 3]), Some(4));
    assert_eq!(enumerated_limit(&vec![3, 0, 2, 1, 1, 0]), Some(4));
    assert_eq!(enumerated_limit(&vec![0, 0]), Some(1));
    assert_eq!(enumerated_limit(&vec![0, 1, 3]), None);
    assert_eq!(enumerated_limit(&vec![1, 2, 3]), None);
    assert_eq!(enumerated_limit(&vec![0, 65536]), None);
    let all: Vec<u64> = (0..65536).collect();
    assert_eq!(enumerated_limit(&all), Some(65536));
    let too_many: Vec<u64> = (0..65537).collect();
    assert_eq!(enumerated_limit(&too_many), None);
}

#[test]
fn global_constraints_of_identities() {
    let x = || witness(0);
    let y = || witness(1);
    let identities = vec![
        // the four ways to say that a column holds bits
        Identity::Polynomial(times(x(), minus(x(), number(1)))),
        Identity::Polynomial(times(minus(y(), number(1)), y())),
        Identity::Polynomial(times(witness(2), minus(number(1), witness(2)))),
        Identity::Polynomial(times(minus(number(1), witness(3)), witness(3))),
        // no bit constraints
        Identity::Polynomial(times(x(), minus(y(), number(1)))),
        Identity::Polynomial(times(x(), minus(x(), number(2)))),
        Identity::Polynomial(times(witness_next(4), minus(witness_next(4), number(1)))),
        // membership in a column that holds 0 to 3, and in one that does not
        lookup(vec![witness(4)], vec![table(0)]),
        lookup(vec![witness(5)], vec![table(1)]),
        lookup(vec![x()], vec![table(0)]),
        Identity::Plookup(selected(Some(y()), vec![witness(5)]), selected(None, vec![table(0)])),
        lookup(vec![witness(5), witness(5)], vec![table(0), table(0)]),
    ];
    let analyzed = system(6, identities);
    let fixed_cols = vec![("main.QUAD", vec![0u64, 1, 2, 3]), ("main.ODD", vec![1u64, 3, 5, 7])];
    let fixed = FixedData::new(&analyzed, 4, &fixed_cols, vec![]);
    let (constraints, retained) = determine_global_constraints(&fixed, &analyzed.identities);
    let limits: Vec<Option<u64>> =
        constraints.witness_constraints.iter().map(|c| c.map(|rc| rc.limit)).collect();
    // the bit constraint on column 0 is tighter than its membership in QUAD
    assert_eq!(limits, vec![Some(2), Some(2), Some(2), Some(2), Some(4), None]);
    assert_eq!(
        retained,
        vec![false, false, false, false, true, true, true, false, true, false, true, true]
    );
    assert_eq!(
        capture(&fixed, &analyzed.identities[7]),
        Some((4, RangeConstraint { limit: 4 }))
    );
    assert_eq!(capture(&fixed, &analyzed.identities[8]), None);
}

#[test]
fn connected_columns() {
    // w0 - w1 = 0, w1 * w2' = 0, { w3 } in { w4 }, { w2, w5 } in { w6, w6 }
    let identities = vec![
        Identity::Polynomial(minus(witness(0), witness(1))),
        Identity::Polynomial(times(witness(1), witness_next(2))),
        lookup(vec![witness(3)], vec![witness(4)]),
        lookup(vec![witness(2), witness(5)], vec![witness(6), witness(6)]),
    ];
    let analyzed = system(7, identities);
    let none: Vec<(&str, Vec<u64>)> = vec![];
    let fixed = FixedData::new(&analyzed, 2, &none, vec![]);
    let all = vec![true; 7];
    let considered = vec![true; 4];
    let seed = |c: usize| (0..7).map(|i| i == c).collect::<Vec<bool>>();
    let closure = |c: usize, considered: &Vec<bool>, remaining: &Vec<bool>| {
        all_row_connected_witnesses(&fixed, &analyzed.identities, considered, seed(c), remaining)
    };
    // the two sides of a lookup are not connected with each other
    assert_eq!(
        closure(0, &considered, &all),
        vec![true, true, true, false, false, true, false]
    );
    assert_eq!(
        closure(5, &considered, &all),
        vec![true, true, true, false, false, true, false]
    );
    assert_eq!(
        closure(6, &considered, &all),
        vec![false, false, false, false, false, false, true]
    );
    assert_eq!(
        closure(3, &considered, &all),
        vec![false, false, false, true, false, false, false]
    );
    // without the second identity, w2 is connected with w5 only
    assert_eq!(
        closure(0, &vec![true, false, true, true], &all),
        vec![true, true, false, false, false, false, false]
    );
    // columns that do not remain connect nothing
    assert_eq!(
        closure(0, &considered, &vec![true, false, true, true, true, true, true]),
        vec![true, false, false, false, false, false, false]
    );
}

fn owned(machine: &Machine) -> (Vec<bool>, Vec<bool>) {
    match machine {
        Machine::Vm(g) => (g.witnesses.clone(), g.owned_identities.clone()),
    }
}

#[test]
fn machines_are_split_out() {
    let identities = vec![
        // main: w0 is a counter that is looked up in the first machine
        Identity::Polynomial(minus(witness_next(0), plus(witness(0), number(1)))),
        lookup(vec![witness(0)], vec![witness(1)]),
        // first machine: w1 and w2
        Identity::Polynomial(minus(witness(1), witness(2))),
        Identity::Polynomial(minus(witness(2), table(0))),
        // second machine: w3, looked up from the first machine
        lookup(vec![witness(2)], vec![witness(3)]),
        Identity::Polynomial(minus(witness(3), table(0))),
        // dropped for a bound
        Identity::Polynomial(times(witness(0), minus(witness(0), number(1)))),
        // mentions no witness column
        Identity::Polynomial(minus(table(0), table(0))),
    ];
    let analyzed = system(4, identities);
    let fixed_cols = vec![("main.F", vec![0u64, 1])];
    let fixed = FixedData::new(&analyzed, 2, &fixed_cols, vec![]);
    let (constraints, retained) = determine_global_constraints(&fixed, &analyzed.identities);
    assert_eq!(retained, vec![true, true, true, true, true, true, false, true]);
    let out = split_out_machines(&fixed, &analyzed.identities, &retained, &constraints);
    assert_eq!(out.machines.len(), 2);
    assert_eq!(
        owned(&out.machines[0]),
        (
            vec![false, true, true, false],
            vec![false, false, true, true, false, false, false, false]
        )
    );
    assert_eq!(
        owned(&out.machines[1]),
        (
            vec![false, false, false, true],
            vec![false, false, false, false, false, true, false, false]
        )
    );
    assert_eq!(out.base_witnesses, vec![true, false, false, false]);
    assert_eq!(
        out.base_identities,
        vec![true, true, false, false, true, false, false, true]
    );
    // every column and every identity that is kept has one owner
    for c in 0..4 {
        let owners = out.machines.iter().filter(|m| owned(m).0[c]).count()
            + usize::from(out.base_witnesses[c]);
        assert_eq!(owners, 1);
    }
    for i in 0..8 {
        let owners = out.machines.iter().filter(|m| owned(m).1[i]).count()
            + usize::from(out.base_identities[i]);
        assert_eq!(owners, usize::from(retained[i]));
    }
}

#[test]
fn solver_for_a_part() {
    let identities = vec![
        Identity::Polynomial(minus(witness(0), table(0))),
        Identity::Polynomial(minus(witness(1), witness(0))),
    ];
    let analyzed = system(2, identities);
    let fixed_cols = vec![("main.F", vec![4u64, 5, 6])];
    let fixed =
        FixedData::new(&analyzed, 3, &fixed_cols, vec![("main.w0", vec![4, 5, 6])]);
    let constraints = GlobalConstraints { witness_constraints: vec![None, None] };
    let mut machine = FixedLookup::new();

    let mut first = Generator::new(
        &fixed,
        &analyzed.identities,
        vec![true, false],
        vec![true, false],
        &constraints,
    );
    assert_eq!(first.rows.cells, vec![vec![Some(4), Some(5), Some(6)], vec![None; 3]]);
    assert_eq!(first.run_rows(&mut machine, &mut Fixed(None)), Ok(()));
    assert_eq!(first.take_witness_col_values(), vec![("main.w0", vec![4, 5, 6])]);

    // the second column is open and the solver owns nothing that it could fill
    let mut reader = Generator::new(
        &fixed,
        &analyzed.identities,
        vec![false, true],
        vec![true, false],
        &constraints,
    );
    assert_eq!(
        reader.run_rows(&mut machine, &mut Fixed(None)),
        Err(EvalError::Unresolved { row: 0, identity: 1 })
    );

    let mut second = Generator::new(
        &fixed,
        &analyzed.identities,
        vec![false, true],
        vec![false, true],
        &constraints,
    );
    second.import(&first);
    assert_eq!(second.rows.cells, vec![vec![Some(4), Some(5), Some(6)], vec![None; 3]]);
    assert_eq!(second.run_rows(&mut machine, &mut Fixed(None)), Ok(()));
    assert_eq!(second.take_witness_col_values(), vec![("main.w1", vec![4, 5, 6])]);
    assert_eq!(second.rows.cells[1], vec![Some(4), Some(5), Some(6)]);

    // the cell of a known column keeps its value when it is derived again
    let before = second.rows.cells.clone();
    assert_eq!(second.run_rows(&mut machine, &mut Fixed(Some(9))), Ok(()));
    assert_eq!(second.rows.cells, before);
}

#[test]
fn search_in_a_table_of_witness_columns() {
    let analyzed = system(3, vec![]);
    let fixed_cols = vec![("main.SEL", vec![1u64, 0, 1, 1])];
    let fixed = FixedData::new(&analyzed, 4, &fixed_cols, vec![]);
    let rows = known_rows(
        &fixed,
        vec![
            vec![Some(1), Some(2), Some(3), Some(3)],
            vec![Some(10), Some(20), Some(30), Some(31)],
            vec![Some(1), None, None, None],
        ],
    );
    // the rows that SEL selects of the table { w0, w1 + 1 }
    let right = selected(Some(table(0)), vec![witness(0), plus(witness(1), number(1))]);
    assert!(matches!(
        search_table(&fixed, &rows, &vec![Some(1), None], &right),
        Some(LookupOutcome::Match(v)) if v == vec![1, 11]
    ));
    // row 1 holds the tuple but is not selected
    assert!(matches!(
        search_table(&fixed, &rows, &vec![Some(2), None], &right),
        Some(LookupOutcome::Miss)
    ));
    assert!(matches!(
        search_table(&fixed, &rows, &vec![Some(3), None], &right),
        Some(LookupOutcome::Ambiguous)
    ));
    assert!(matches!(
        search_table(&fixed, &rows, &vec![Some(3), Some(32)], &right),
        Some(LookupOutcome::Match(v)) if v == vec![3, 32]
    ));
    // a table that reads an open cell is not searched
    let open = selected(None, vec![witness(0), witness(2)]);
    assert!(search_table(&fixed, &rows, &vec![Some(1), None], &open).is_none());
}

#[test]
fn lookup_into_known_witness_columns() {
    let analyzed = system(4, vec![]);
    let none: Vec<(&str, Vec<u64>)> = vec![];
    let fixed = FixedData::new(&analyzed, 3, &none, vec![]);
    let rows = known_rows(
        &fixed,
        vec![
            vec![Some(5), Some(6), Some(7)],
            vec![Some(50), Some(60), Some(70)],
            vec![Some(6), Some(9), None],
            vec![None, None, None],
        ],
    );
    let mut machine = FixedLookup::new();
    // { w2, 2 * w3 } in { w0, w1 }
    let identity = lookup(
        vec![witness(2), times(number(2), witness(3))],
        vec![witness(0), witness(1)],
    );
    assert_eq!(
        outcome(process_identity(&fixed, &rows, &vec![None; 4], &mut machine, &identity, 0, 0).unwrap()),
        (
            vec![(Cell { column: 3, next: false }, Constraint::Assignment(30))],
            EvalStatus::Complete
        )
    );
    assert_eq!(
        process_identity(&fixed, &rows, &vec![None; 4], &mut machine, &identity, 0, 1).unwrap_err(),
        EvalError::ConstraintUnsatisfiable { row: 1, identity: 0 }
    );
    assert_eq!(
        outcome(process_identity(&fixed, &rows, &vec![None; 4], &mut machine, &identity, 0, 2).unwrap()),
        (vec![], EvalStatus::Incomplete(IncompleteCause::MultipleLookupMatches))
    );
}

fn assignments(solution: BoundedSolution) -> Option<Vec<(usize, bool, u64)>> {
    match solution {
        BoundedSolution::Assignments(cs) => Some(
            cs.into_iter()
                .map(|(cell, c)| match c {
                    Constraint::Assignment(v) => (cell.column, cell.next, v),
                })
                .collect(),
        ),
        _ => None,
    }
}

#[test]
fn solving_within_bounds() {
    let f = Field { modulus: 97 };
    let unit = |column: usize, next: bool| AffineExpression::unit(3, column, next);
    // x0 + 2 * x1 + 4 * x2' - 5 = 0 with bits x0, x1 and x2
    let form = unit(0, false)
        .add(&unit(1, false).scale(2, &f), &f)
        .add(&unit(2, true).scale(4, &f), &f)
        .add(&AffineExpression::constant(3, 92), &f);
    assert_eq!(value_at(&form, &vec![1, 0, 9], &vec![9, 9, 1], &f), 0);
    assert_eq!(value_at(&form, &vec![1, 1, 0], &vec![0, 0, 0], &f), 95);
    let bits = vec![Some(2), Some(2), Some(2)];
    assert_eq!(
        assignments(solve_within(&form, &f, &bits)),
        Some(vec![(0, false, 1), (1, false, 0), (2, true, 1)])
    );
    // 8 is not the sum of the three bits
    let eight = form.add(&AffineExpression::constant(3, 94), &f);
    assert!(matches!(solve_within(&eight, &f, &bits), BoundedSolution::Contradiction));
    // a cell without a limit
    assert!(matches!(
        solve_within(&form, &f, &vec![Some(2), None, Some(2)]),
        BoundedSolution::Undetermined
    ));
    // with x1 below 4 the values 1, 0, 1 and 1, 2, 0 both make the form zero
    assert!(matches!(
        solve_within(&form, &f, &vec![Some(2), Some(4), Some(2)]),
        BoundedSolution::Undetermined
    ));
    // too many combinations
    assert!(matches!(
        solve_within(&form, &f, &vec![Some(97), Some(97), Some(97)]),
        BoundedSolution::Undetermined
    ));
    // a limit above the modulus
    assert!(matches!(
        solve_within(&form, &Field { modulus: 7 }, &vec![Some(2), Some(2), Some(8)]),
        BoundedSolution::Undetermined
    ));
    // nothing is open: the constant decides
    let zero = AffineExpression::constant(3, 0);
    assert_eq!(assignments(solve_within(&zero, &f, &bits)), Some(vec![]));
    let one = AffineExpression::constant(3, 1);
    assert!(matches!(solve_within(&one, &f, &bits), BoundedSolution::Contradiction));
}

#[test]
fn queries_of_a_row() {
    let mut analyzed = system(4, vec![]);
    let asks = |items: Vec<QueryItem>| Some(FunctionValueDefinition::Query(QueryExpression { items }));
    analyzed.committed[0].1 = asks(vec![QueryItem::RowIndex]);
    analyzed.committed[1].1 = asks(vec![QueryItem::Value(witness(3))]);
    analyzed.committed[2].1 = asks(vec![QueryItem::RowIndex]);
    let none: Vec<(&str, Vec<u64>)> = vec![];
    let fixed = FixedData::new(&analyzed, 2, &none, vec![]);
    let owned = vec![true, true, false, true];

    // Column 0 is asked for. The query of column 1 reads the open column 3,
    // column 2 is not owned, and column 3 has no query.
    let mut rows = Rows::new(&fixed);
    assert!(ask_queries(&fixed, &owned, &mut rows, &mut Fixed(Some(100)), 1));
    assert_eq!(
        rows.cells,
        vec![vec![None, Some(3)], vec![None, None], vec![None, None], vec![None, None]]
    );
    // The cell is known now: nothing is left to ask on the row.
    assert!(!ask_queries(&fixed, &owned, &mut rows, &mut Fixed(Some(5)), 1));
    assert_eq!(rows.cells[0], vec![None, Some(3)]);
    // Without an answer nothing changes.
    assert!(!ask_queries(&fixed, &owned, &mut rows, &mut Fixed(None), 0));
    assert_eq!(rows.cells[0], vec![None, Some(3)]);
    // Once column 3 is known on the row, the query of column 1 can be asked.
    rows.set(&fixed, 3, 0, 9);
    assert!(ask_queries(&fixed, &owned, &mut rows, &mut Fixed(Some(7)), 0));
    assert_eq!(
        rows.cells,
        vec![vec![Some(7), Some(3)], vec![Some(7), None], vec![None, None], vec![Some(9), None]]
    );
}

#[test]
fn work_on_one_row() {
    // w0 = 1 and w0 = 2 on every row, and w1 = w0 + F
    let identities = vec![
        Identity::Polynomial(minus(witness(1), plus(witness(0), table(0)))),
        Identity::Polynomial(minus(witness(0), number(1))),
        Identity::Polynomial(minus(witness(0), number(2))),
    ];
    let analyzed = system(2, identities);
    let fixed_cols = vec![("main.F", vec![10u64, 96])];
    let fixed = FixedData::new(&analyzed, 2, &fixed_cols, vec![]);
    let constraints = GlobalConstraints { witness_constraints: vec![None, None] };
    let mut machine = FixedLookup::new();
    let both = vec![true, true];

    // without the last identity the second pass finds w1
    let mut rows = Rows::new(&fixed);
    let r = process_row(
        &fixed,
        &analyzed.identities,
        &vec![true, true, false],
        &both,
        &constraints,
        &mut rows,
        &mut machine,
        &mut Fixed(None),
        1,
    );
    assert_eq!(r, Ok(()));
    assert_eq!(rows.cells, vec![vec![None, Some(1)], vec![None, Some(0)]]);

    // the last identity contradicts what the one before it has found
    let mut rows = Rows::new(&fixed);
    let r = process_row(
        &fixed,
        &analyzed.identities,
        &vec![true, true, true],
        &both,
        &constraints,
        &mut rows,
        &mut machine,
        &mut Fixed(None),
        0,
    );
    assert_eq!(r, Err(EvalError::ConstraintUnsatisfiable { row: 0, identity: 2 }));
    assert_eq!(rows.cells, vec![vec![Some(1), None], vec![None, None]]);

    // with the first identity alone nothing follows: the first open cell is stuck
    let mut rows = Rows::new(&fixed);
    let r = process_row(
        &fixed,
        &analyzed.identities,
        &vec![true, false, false],
        &both,
        &constraints,
        &mut rows,
        &mut machine,
        &mut Fixed(None),
        0,
    );
    assert_eq!(r, Err(EvalError::Stuck { row: 0, column: 0 }));
    assert_eq!(rows.cells, vec![vec![None, None], vec![None, None]]);

    // an answer for w0 lets the next pass find w1; w1 has no query
    let mut asking = system(2, vec![]);
    asking.identities.push(Identity::Polynomial(minus(witness(1), plus(witness(0), table(0)))));
    asking.committed[0].1 = Some(FunctionValueDefinition::Query(QueryExpression {
        items: vec![QueryItem::Text("w0".to_string())],
    }));
    let fixed = FixedData::new(&asking, 2, &fixed_cols, vec![]);
    let mut rows = Rows::new(&fixed);
    let r = process_row(
        &fixed,
        &asking.identities,
        &vec![true],
        &both,
        &constraints,
        &mut rows,
        &mut machine,
        &mut Fixed(Some(100)),
        0,
    );
    assert_eq!(r, Ok(()));
    assert_eq!(rows.cells, vec![vec![Some(3), None], vec![Some(13), None]]);
}

#[test]
fn first_fault_of_finished_work() {
    let identities = vec![
        Identity::Polynomial(minus(witness(0), table(0))),
        Identity::Polynomial(minus(witness(1), witness(0))),
    ];
    let analyzed = system(2, identities);
    let fixed_cols = vec![("main.F", vec![4u64, 5, 7])];
    let fixed = FixedData::new(&analyzed, 3, &fixed_cols, vec![]);
    let bounds = GlobalConstraints {
        witness_constraints: vec![None, Some(RangeConstraint { limit: 8 })],
    };
    let owned = vec![true, true];
    let judge = |columns: Vec<Vec<Option<u64>>>| {
        let rows = known_rows(&fixed, columns);
        certify(&fixed, &analyzed.identities, &owned, &owned, &bounds, &rows)
    };
    assert_eq!(
        judge(vec![vec![Some(4), Some(5), Some(7)], vec![Some(4), Some(5), Some(7)]]),
        Ok(())
    );
    // the columns come first, each on all rows
    assert_eq!(
        judge(vec![vec![Some(4), Some(5), None], vec![None, Some(9), Some(7)]]),
        Err(EvalError::Stuck { row: 2, column: 0 })
    );
    assert_eq!(
        judge(vec![vec![Some(4), Some(5), Some(6)], vec![Some(4), Some(9), None]]),
        Err(EvalError::RangeConstraintViolated { row: 1, column: 1 })
    );
    // then the identities, each on all rows
    assert_eq!(
        judge(vec![vec![Some(4), Some(5), Some(6)], vec![Some(4), Some(7), Some(6)]]),
        Err(EvalError::ConstraintUnsatisfiable { row: 2, identity: 0 })
    );
    assert_eq!(
        judge(vec![vec![Some(4), Some(5), Some(7)], vec![Some(4), Some(7), Some(6)]]),
        Err(EvalError::ConstraintUnsatisfiable { row: 1, identity: 1 })
    );
}
