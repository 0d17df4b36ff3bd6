use witgen::analyzed::{
    Analyzed, BinaryOperator, Expression, FunctionValueDefinition, Identity, PolyID, Polynomial,
    PolynomialReference, PolynomialType, QueryExpression, QueryItem, SelectedExpressions,
};
use witgen::eval_result::EvalError;
use witgen::field::Field;
use witgen::setup::ConfigError;
use witgen::{QueryCallback, WitgenError, WitnessGenerator};

struct NoAnswers;

impl QueryCallback for NoAnswers {
    fn query(&mut self, _query: &str) -> Option<u64> {
        None
    }
}

/// Answers `"input", <row>` with twice the row.
struct TwiceTheRow {
    asked: Vec<String>,
}

impl QueryCallback for TwiceTheRow {
    fn query(&mut self, query: &str) -> Option<u64> {
        self.asked.push(query.to_string());
        let row: u64 = query.rsplit(", ").next()?.parse().ok()?;
        Some(row * 2)
    }
}

struct Always(u64);

impl QueryCallback for Always {
    fn query(&mut self, _query: &str) -> Option<u64> {
        Some(self.0)
    }
}

fn reference(name: &str, id: u64, ptype: PolynomialType, next: bool) -> Expression {
    Expression::PolynomialReference(PolynomialReference {
        name: name.to_string(),
        poly_id: Some(PolyID { id, ptype }),
        index: None,
        next,
    })
}

fn witness(id: u64) -> Expression {
    reference("w", id, PolynomialType::Committed, false)
}

fn witness_next(id: u64) -> Expression {
    reference("w", id, PolynomialType::Committed, true)
}

fn fixed(id: u64) -> Expression {
    reference("f", id, PolynomialType::Constant, false)
}

fn number(n: u64) -> Expression {
    Expression::Number(n)
}

fn binary(l: Expression, op: BinaryOperator, r: Expression) -> Expression {
    Expression::BinaryOperation(Box::new(l), op, Box::new(r))
}

fn minus(l: Expression, r: Expression) -> Expression {
    binary(l, BinaryOperator::Sub, r)
}

fn times(l: Expression, r: Expression) -> Expression {
    binary(l, BinaryOperator::Mul, r)
}

fn plus(l: Expression, r: Expression) -> Expression {
    binary(l, BinaryOperator::Add, r)
}

fn column(id: u64, name: &str) -> (Polynomial, Option<FunctionValueDefinition>) {
    (Polynomial { id, absolute_name: name.to_string(), length: None }, None)
}

fn column_with_query(
    id: u64,
    name: &str,
    items: Vec<QueryItem>,
) -> (Polynomial, Option<FunctionValueDefinition>) {
    (
        Polynomial { id, absolute_name: name.to_string(), length: None },
        Some(FunctionValueDefinition::Query(QueryExpression { items })),
    )
}

fn system(
    committed: Vec<(Polynomial, Option<FunctionValueDefinition>)>,
    identities: Vec<Identity>,
) -> Analyzed {
    Analyzed { field: Field { modulus: 97 }, committed, identities }
}

fn lookup(left: Vec<Expression>, right: Vec<Expression>) -> Identity {
    Identity::Plookup(
        SelectedExpressions { selector: None, expressions: left },
        SelectedExpressions { selector: None, expressions: right },
    )
}

#[test]
fn witness_equal_to_fixed_column() {
    let analyzed = system(
        vec![column(0, "main.W")],
        vec![Identity::Polynomial(minus(witness(0), fixed(0)))],
    );
    let fixed_cols = vec![("main.C", vec![0u64, 1, 0, 1])];
    let columns = WitnessGenerator::new(&analyzed, 4, &fixed_cols, NoAnswers).generate().unwrap();
    assert_eq!(columns, vec![("main.W", vec![0u64, 1, 0, 1])]);
}

#[test]
fn witness_from_query_callback() {
    let analyzed = system(
        vec![column_with_query(
            0,
            "main.W",
            vec![QueryItem::Text("input".to_string()), QueryItem::RowIndex],
        )],
        vec![],
    );
    let fixed_cols: Vec<(&str, Vec<u64>)> = vec![];
    let callback = TwiceTheRow { asked: vec![] };
    let columns = WitnessGenerator::new(&analyzed, 4, &fixed_cols, callback).generate().unwrap();
    assert_eq!(columns, vec![("main.W", vec![0u64, 2, 4, 6])]);
}

#[test]
fn bit_constraint_without_resolution_is_stuck() {
    let bit = Identity::Polynomial(times(witness(0), minus(witness(0), number(1))));
    let analyzed = system(vec![column(0, "main.B")], vec![bit]);
    let fixed_cols: Vec<(&str, Vec<u64>)> = vec![];
    let r = WitnessGenerator::new(&analyzed, 4, &fixed_cols, NoAnswers).generate();
    assert_eq!(r, Err(WitgenError::Solving(EvalError::Stuck { row: 0, column: 0 })));
}

#[test]
fn bit_constraint_with_query_resolution() {
    let bit = Identity::Polynomial(times(witness(0), minus(witness(0), number(1))));
    let analyzed =
        system(vec![column_with_query(0, "main.B", vec![QueryItem::RowIndex])], vec![bit]);
    let fixed_cols: Vec<(&str, Vec<u64>)> = vec![];
    let columns = WitnessGenerator::new(&analyzed, 4, &fixed_cols, Always(1)).generate().unwrap();
    assert_eq!(columns, vec![("main.B", vec![1u64, 1, 1, 1])]);
}

#[test]
fn bit_constraint_rejects_other_values() {
    let bit = Identity::Polynomial(times(witness(0), minus(witness(0), number(1))));
    let analyzed =
        system(vec![column_with_query(0, "main.B", vec![QueryItem::RowIndex])], vec![bit]);
    let fixed_cols: Vec<(&str, Vec<u64>)> = vec![];
    let r = WitnessGenerator::new(&analyzed, 4, &fixed_cols, Always(5)).generate();
    assert_eq!(
        r,
        Err(WitgenError::Solving(EvalError::RangeConstraintViolated { row: 0, column: 0 }))
    );
}

#[test]
fn external_witness_one_row_short_fails_at_setup() {
    let analyzed = system(
        vec![column(0, "main.W")],
        vec![Identity::Polynomial(minus(witness(0), fixed(0)))],
    );
    let fixed_cols = vec![("main.C", vec![0u64, 1, 0, 1])];
    let mut callback = TwiceTheRow { asked: vec![] };
    let r = WitnessGenerator::new(&analyzed, 4, &fixed_cols, &mut callback_adapter(&mut callback))
        .with_external_witness_values(vec![("main.W", vec![0, 1, 0])])
        .generate();
    assert_eq!(r, Err(WitgenError::Setup(ConfigError::ExternalWitnessLength { column: 0 })));
    assert!(callback.asked.is_empty());
}

struct Adapter<'a>(&'a mut TwiceTheRow);

impl<'a> QueryCallback for &mut Adapter<'a> {
    fn query(&mut self, query: &str) -> Option<u64> {
        self.0.query(query)
    }
}

fn callback_adapter(callback: &mut TwiceTheRow) -> Adapter<'_> {
    Adapter(callback)
}

#[test]
fn contradicting_identities_are_a_conflict() {
    let analyzed = system(
        vec![column(0, "main.W")],
        vec![
            Identity::Polynomial(minus(witness(0), number(1))),
            Identity::Polynomial(minus(witness(0), number(2))),
        ],
    );
    let fixed_cols: Vec<(&str, Vec<u64>)> = vec![];
    let r = WitnessGenerator::new(&analyzed, 4, &fixed_cols, NoAnswers).generate();
    assert_eq!(
        r,
        Err(WitgenError::Solving(EvalError::ConstraintUnsatisfiable { row: 0, identity: 1 }))
    );
}

#[test]
fn zero_degree_is_rejected() {
    let analyzed = system(vec![column(0, "main.W")], vec![]);
    let fixed_cols: Vec<(&str, Vec<u64>)> = vec![];
    let r = WitnessGenerator::new(&analyzed, 0, &fixed_cols, NoAnswers).generate();
    assert_eq!(r, Err(WitgenError::Setup(ConfigError::ZeroDegree)));
}

#[test]
fn counter_over_the_cycle() {
    // FIRST * x = 0 and (1 - LAST) * (x' - x - 1) = 0
    let first = times(fixed(0), witness(0));
    let step = times(
        minus(number(1), fixed(1)),
        minus(minus(witness_next(0), witness(0)), number(1)),
    );
    let analyzed = system(
        vec![column(0, "main.x")],
        vec![Identity::Polynomial(step), Identity::Polynomial(first)],
    );
    let fixed_cols = vec![("main.FIRST", vec![1u64, 0, 0, 0]), ("main.LAST", vec![0u64, 0, 0, 1])];
    let columns = WitnessGenerator::new(&analyzed, 4, &fixed_cols, NoAnswers).generate().unwrap();
    assert_eq!(columns, vec![("main.x", vec![0u64, 1, 2, 3])]);
}

#[test]
fn counter_without_guard_contradicts_the_first_row() {
    // x' = x + 1 on every row cannot hold on a cycle of four rows.
    let first = times(fixed(0), witness(0));
    let step = minus(minus(witness_next(0), witness(0)), number(1));
    let analyzed = system(
        vec![column(0, "main.x")],
        vec![Identity::Polynomial(step), Identity::Polynomial(first)],
    );
    let fixed_cols = vec![("main.FIRST", vec![1u64, 0, 0, 0])];
    let r = WitnessGenerator::new(&analyzed, 4, &fixed_cols, NoAnswers).generate();
    assert_eq!(
        r,
        Err(WitgenError::Solving(EvalError::ConstraintUnsatisfiable { row: 3, identity: 0 }))
    );
}

#[test]
fn coefficient_is_inverted() {
    // 3 * W - 6 = 0 and 5 * V + W = 0 over the integers modulo 97
    let analyzed = system(
        vec![column(0, "main.W"), column(1, "main.V")],
        vec![
            Identity::Polynomial(plus(times(number(5), witness(1)), witness(0))),
            Identity::Polynomial(minus(times(number(3), witness(0)), number(6))),
        ],
    );
    let fixed_cols: Vec<(&str, Vec<u64>)> = vec![];
    let columns = WitnessGenerator::new(&analyzed, 2, &fixed_cols, NoAnswers).generate().unwrap();
    // 5 * 38 = 190 = 2 * 97 - 4, so 5 * 38 + 2 = 192 ... V = -2 / 5 = 19 (5 * 19 = 95 = -2)
    assert_eq!(columns, vec![("main.W", vec![2u64, 2]), ("main.V", vec![19u64, 19])]);
}

#[test]
fn lookup_into_fixed_table_gives_the_open_place() {
    // { X, Y } in { A, B } with B the square of A
    let analyzed = system(
        vec![column(0, "main.X"), column(1, "main.Y")],
        vec![lookup(vec![witness(0), witness(1)], vec![fixed(0), fixed(1)])],
    );
    let fixed_cols = vec![("main.A", vec![0u64, 1, 2, 3]), ("main.B", vec![0u64, 1, 4, 9])];
    let columns = WitnessGenerator::new(&analyzed, 4, &fixed_cols, NoAnswers)
        .with_external_witness_values(vec![("main.X", vec![2, 3, 0, 1])])
        .generate()
        .unwrap();
    assert_eq!(
        columns,
        vec![("main.X", vec![2u64, 3, 0, 1]), ("main.Y", vec![4u64, 9, 0, 1])]
    );
}

#[test]
fn lookup_miss_is_a_conflict() {
    let analyzed = system(
        vec![column(0, "main.X"), column(1, "main.Y")],
        vec![lookup(vec![witness(0), witness(1)], vec![fixed(0), fixed(1)])],
    );
    let fixed_cols = vec![("main.A", vec![0u64, 1, 2, 3]), ("main.B", vec![0u64, 1, 4, 9])];
    let r = WitnessGenerator::new(&analyzed, 4, &fixed_cols, NoAnswers)
        .with_external_witness_values(vec![("main.X", vec![2, 7, 0, 1])])
        .generate();
    assert_eq!(
        r,
        Err(WitgenError::Solving(EvalError::ConstraintUnsatisfiable { row: 1, identity: 0 }))
    );
}

#[test]
fn machine_columns_are_solved_and_looked_up() {
    // Column M copies the fixed column F; the main column a must occur in M.
    let analyzed = system(
        vec![column(0, "main.a"), column(1, "sub.M")],
        vec![
            lookup(vec![witness(0)], vec![witness(1)]),
            Identity::Polynomial(minus(witness(1), fixed(0))),
        ],
    );
    let fixed_cols = vec![("sub.F", vec![3u64, 5, 3, 8])];
    let columns = WitnessGenerator::new(&analyzed, 4, &fixed_cols, NoAnswers)
        .with_external_witness_values(vec![("main.a", vec![8, 8, 3, 5])])
        .generate()
        .unwrap();
    assert_eq!(
        columns,
        vec![("main.a", vec![8u64, 8, 3, 5]), ("sub.M", vec![3u64, 5, 3, 8])]
    );
    let r = WitnessGenerator::new(&analyzed, 4, &fixed_cols, NoAnswers)
        .with_external_witness_values(vec![("main.a", vec![8, 4, 3, 5])])
        .generate();
    assert_eq!(
        r,
        Err(WitgenError::Solving(EvalError::ConstraintUnsatisfiable { row: 1, identity: 0 }))
    );
}

#[test]
fn lookup_into_machine_table_gives_the_open_place() {
    // The machine holds the table of squares in K and S; the main columns x
    // and y must be a row of it: { x, y } in { K, S }.
    let analyzed = system(
        vec![column(0, "main.x"), column(1, "main.y"), column(2, "sq.K"), column(3, "sq.S")],
        vec![
            lookup(vec![witness(0), witness(1)], vec![witness(2), witness(3)]),
            Identity::Polynomial(minus(witness(2), fixed(0))),
            Identity::Polynomial(minus(witness(3), times(witness(2), witness(2)))),
        ],
    );
    let fixed_cols = vec![("sq.N", vec![0u64, 1, 2, 3, 4, 5, 6, 7])];
    let columns = WitnessGenerator::new(&analyzed, 8, &fixed_cols, NoAnswers)
        .with_external_witness_values(vec![("main.x", vec![7, 7, 1, 0, 5, 3, 2, 6])])
        .generate()
        .unwrap();
    assert_eq!(columns[0], ("main.x", vec![7u64, 7, 1, 0, 5, 3, 2, 6]));
    assert_eq!(columns[1], ("main.y", vec![49u64, 49, 1, 0, 25, 9, 4, 36]));
    assert_eq!(columns[2], ("sq.K", vec![0u64, 1, 2, 3, 4, 5, 6, 7]));
    assert_eq!(columns[3], ("sq.S", vec![0u64, 1, 4, 9, 16, 25, 36, 49]));
}

#[test]
fn supplied_columns_are_returned_unchanged() {
    let analyzed = system(
        vec![column(0, "main.W"), column(1, "main.V")],
        vec![Identity::Polynomial(minus(witness(1), plus(witness(0), witness(0))))],
    );
    let fixed_cols: Vec<(&str, Vec<u64>)> = vec![];
    let columns = WitnessGenerator::new(&analyzed, 3, &fixed_cols, NoAnswers)
        .with_external_witness_values(vec![("main.W", vec![7, 50, 96])])
        .generate()
        .unwrap();
    assert_eq!(columns[0], ("main.W", vec![7u64, 50, 96]));
    assert_eq!(columns[1], ("main.V", vec![14u64, 3, 95]));
}

#[test]
fn supplied_columns_that_contradict_are_rejected() {
    let analyzed = system(
        vec![column(0, "main.W")],
        vec![Identity::Polynomial(minus(witness(0), fixed(0)))],
    );
    let fixed_cols = vec![("main.C", vec![0u64, 1, 0, 1])];
    let r = WitnessGenerator::new(&analyzed, 4, &fixed_cols, NoAnswers)
        .with_external_witness_values(vec![("main.W", vec![0, 1, 1, 1])])
        .generate();
    assert_eq!(
        r,
        Err(WitgenError::Solving(EvalError::ConstraintUnsatisfiable { row: 2, identity: 0 }))
    );
}

#[test]
fn output_has_one_column_per_declaration_in_order() {
    let analyzed = system(
        vec![column(0, "main.c"), column(1, "main.a"), column(2, "main.b")],
        vec![
            Identity::Polynomial(minus(witness(2), number(3))),
            Identity::Polynomial(minus(witness(0), number(1))),
            Identity::Polynomial(minus(witness(1), number(2))),
        ],
    );
    let fixed_cols: Vec<(&str, Vec<u64>)> = vec![];
    let columns = WitnessGenerator::new(&analyzed, 5, &fixed_cols, NoAnswers).generate().unwrap();
    assert_eq!(columns.len(), 3);
    assert_eq!(columns[0], ("main.c", vec![1u64; 5]));
    assert_eq!(columns[1], ("main.a", vec![2u64; 5]));
    assert_eq!(columns[2], ("main.b", vec![3u64; 5]));
}

#[test]
fn pruned_membership_still_holds_in_the_output() {
    // { X } in { BYTES } is captured by a bound; X comes from the query callback.
    let analyzed = system(
        vec![column_with_query(
            0,
            "main.X",
            vec![QueryItem::Text("input".to_string()), QueryItem::RowIndex],
        )],
        vec![lookup(vec![witness(0)], vec![fixed(0)])],
    );
    let fixed_cols = vec![("main.BYTES", vec![3u64, 2, 1, 0, 4, 5, 6, 7])];
    let callback = TwiceTheRow { asked: vec![] };
    let r = WitnessGenerator::new(&analyzed, 8, &fixed_cols, callback).generate();
    // Rows 4 to 7 ask for 8, 10, 12 and 14, which are no values of BYTES.
    assert_eq!(
        r,
        Err(WitgenError::Solving(EvalError::RangeConstraintViolated { row: 4, column: 0 }))
    );
    let columns = WitnessGenerator::new(&analyzed, 8, &fixed_cols, Always(7)).generate().unwrap();
    assert_eq!(columns, vec![("main.X", vec![7u64; 8])]);
}

#[test]
fn number_is_taken_apart_into_bits() {
    // A = b0 + 2 * b1 + 4 * b2, where b0, b1 and b2 are bits
    let bit = |c: u64| Identity::Polynomial(times(witness(c), minus(witness(c), number(1))));
    let sum = plus(
        plus(witness(1), times(number(2), witness(2))),
        times(number(4), witness(3)),
    );
    let analyzed = system(
        vec![column(0, "main.A"), column(1, "main.b0"), column(2, "main.b1"), column(3, "main.b2")],
        vec![bit(1), bit(2), bit(3), Identity::Polynomial(minus(witness(0), sum))],
    );
    let fixed_cols: Vec<(&str, Vec<u64>)> = vec![];
    let columns = WitnessGenerator::new(&analyzed, 4, &fixed_cols, NoAnswers)
        .with_external_witness_values(vec![("main.A", vec![5, 0, 7, 2])])
        .generate()
        .unwrap();
    assert_eq!(columns[1], ("main.b0", vec![1u64, 0, 1, 0]));
    assert_eq!(columns[2], ("main.b1", vec![0u64, 0, 1, 1]));
    assert_eq!(columns[3], ("main.b2", vec![1u64, 0, 1, 0]));
    // 9 is no sum of three bits with these weights
    let r = WitnessGenerator::new(&analyzed, 4, &fixed_cols, NoAnswers)
        .with_external_witness_values(vec![("main.A", vec![5, 9, 7, 2])])
        .generate();
    assert_eq!(
        r,
        Err(WitgenError::Solving(EvalError::ConstraintUnsatisfiable { row: 1, identity: 3 }))
    );
}

#[test]
fn supplied_witness_is_returned_exactly_if_it_is_one() {
    // x' = x + 1 except on the last row, and { x } in { F }
    let step = times(
        minus(number(1), fixed(1)),
        minus(minus(witness_next(0), witness(0)), number(1)),
    );
    let analyzed = system(
        vec![column(0, "main.x"), column(1, "main.y")],
        vec![
            Identity::Polynomial(step),
            lookup(vec![witness(1)], vec![fixed(0)]),
            Identity::Polynomial(minus(witness(1), times(witness(0), witness(0)))),
        ],
    );
    let fixed_cols = vec![("main.F", vec![0u64, 1, 2, 3]), ("main.LAST", vec![0u64, 0, 0, 1])];
    let generate = |x: Vec<u64>, y: Vec<u64>| {
        WitnessGenerator::new(&analyzed, 4, &fixed_cols, NoAnswers)
            .with_external_witness_values(vec![("main.x", x), ("main.y", y)])
            .generate()
    };
    // 10 * 10 = 100 = 3 modulo 97
    assert_eq!(
        generate(vec![10, 11, 12, 13], vec![3, 24, 47, 72]),
        Err(WitgenError::Solving(EvalError::RangeConstraintViolated { row: 1, column: 1 }))
    );
    assert_eq!(
        generate(vec![96, 0, 1, 2], vec![1, 0, 1, 4]),
        Err(WitgenError::Solving(EvalError::RangeConstraintViolated { row: 3, column: 1 }))
    );
    assert_eq!(
        generate(vec![96, 0, 1, 96], vec![1, 0, 1, 1]),
        Err(WitgenError::Solving(EvalError::ConstraintUnsatisfiable { row: 2, identity: 0 }))
    );
    assert_eq!(
        generate(vec![95, 96, 0, 1], vec![4, 1, 0, 1]),
        Err(WitgenError::Solving(EvalError::RangeConstraintViolated { row: 0, column: 1 }))
    );
    assert_eq!(
        generate(vec![96, 0, 1, 1], vec![1, 0, 1, 1]),
        Err(WitgenError::Solving(EvalError::ConstraintUnsatisfiable { row: 2, identity: 0 }))
    );
    let columns = generate(vec![0, 1, 0, 1], vec![0, 1, 0, 1]);
    assert_eq!(
        columns,
        Err(WitgenError::Solving(EvalError::ConstraintUnsatisfiable { row: 1, identity: 0 }))
    );
    let x = vec![96u64, 0, 1, 2];
    let y = vec![1u64, 0, 1, 3];
    assert_eq!(
        generate(x.clone(), y.clone()),
        Err(WitgenError::Solving(EvalError::ConstraintUnsatisfiable { row: 3, identity: 2 }))
    );
    let fixed_wide = vec![("main.F", vec![0u64, 1, 2, 4]), ("main.LAST", vec![0u64, 0, 0, 1])];
    let ok = WitnessGenerator::new(&analyzed, 4, &fixed_wide, NoAnswers)
        .with_external_witness_values(vec![
            ("main.x", vec![96, 0, 1, 2]),
            ("main.y", vec![1, 0, 1, 4]),
        ])
        .generate()
        .unwrap();
    assert_eq!(ok, vec![("main.x", vec![96u64, 0, 1, 2]), ("main.y", vec![1u64, 0, 1, 4])]);
}

#[test]
fn column_supplied_twice_is_rejected() {
    let analyzed = system(
        vec![column(0, "main.W")],
        vec![Identity::Polynomial(minus(witness(0), fixed(0)))],
    );
    let fixed_cols = vec![("main.C", vec![0u64, 1, 0, 1])];
    // a column of the wrong length is not taken because the name comes again
    let r = WitnessGenerator::new(&analyzed, 4, &fixed_cols, NoAnswers)
        .with_external_witness_values(vec![
            ("main.W", vec![1, 2, 3]),
            ("main.W", vec![0, 1, 0, 1]),
        ])
        .generate();
    assert_eq!(r, Err(WitgenError::Setup(ConfigError::ExternalWitnessTwice { index: 1 })));
    let r = WitnessGenerator::new(&analyzed, 4, &fixed_cols, NoAnswers)
        .with_external_witness_values(vec![
            ("main.W", vec![0, 1, 0, 1]),
            ("main.W", vec![0, 1, 0, 1]),
        ])
        .generate();
    assert_eq!(r, Err(WitgenError::Setup(ConfigError::ExternalWitnessTwice { index: 1 })));
    let r = WitnessGenerator::new(&analyzed, 4, &fixed_cols, NoAnswers)
        .with_external_witness_values(vec![
            ("main.W", vec![0, 1, 0, 1]),
            ("main.W", vec![1, 2, 3]),
        ])
        .generate();
    assert_eq!(r, Err(WitgenError::Setup(ConfigError::ExternalWitnessLength { column: 0 })));
}

#[test]
fn column_is_solved_after_the_one_it_depends_on() {
    // A = Z + 1 comes before Z = C: the first pass finds Z, the second A
    let analyzed = system(
        vec![column(0, "main.A"), column(1, "main.Z")],
        vec![
            Identity::Polynomial(minus(minus(witness(0), witness(1)), number(1))),
            Identity::Polynomial(minus(witness(1), fixed(0))),
        ],
    );
    let fixed_cols = vec![("main.C", vec![5u64, 96, 0])];
    let columns = WitnessGenerator::new(&analyzed, 3, &fixed_cols, NoAnswers).generate().unwrap();
    assert_eq!(
        columns,
        vec![("main.A", vec![6u64, 0, 1]), ("main.Z", vec![5u64, 96, 0])]
    );
}

#[test]
fn a_row_takes_as_many_passes_as_it_needs() {
    // each column is one more than the next, and the last is the fixed
    // column: every pass over the identities finds one column more
    let width: u64 = 8;
    let names: Vec<String> = (0..width).map(|c| format!("main.A{c}")).collect();
    let committed = (0..width).map(|c| column(c, &names[c as usize])).collect();
    let mut identities: Vec<Identity> = (0..width - 1)
        .map(|c| Identity::Polynomial(minus(minus(witness(c), witness(c + 1)), number(1))))
        .collect();
    identities.push(Identity::Polynomial(minus(witness(width - 1), fixed(0))));
    let analyzed = system(committed, identities);
    let fixed_cols = vec![("main.C", vec![10u64, 95])];
    let columns = WitnessGenerator::new(&analyzed, 2, &fixed_cols, NoAnswers).generate().unwrap();
    assert_eq!(columns.len(), 8);
    for c in 0..8usize {
        let distance = 7 - c as u64;
        assert_eq!(columns[c].0, names[c]);
        assert_eq!(columns[c].1, vec![10 + distance, (95 + distance) % 97]);
    }
}

#[test]
fn answers_are_reduced_into_the_field() {
    let analyzed = system(
        vec![
            column_with_query(0, "main.W", vec![QueryItem::Text("w".to_string())]),
            column(1, "main.V"),
        ],
        vec![Identity::Polynomial(minus(witness(1), plus(witness(0), witness(0))))],
    );
    let fixed_cols: Vec<(&str, Vec<u64>)> = vec![];
    let columns = WitnessGenerator::new(&analyzed, 2, &fixed_cols, Always(100)).generate().unwrap();
    assert_eq!(columns, vec![("main.W", vec![3u64, 3]), ("main.V", vec![6u64, 6])]);
}

#[test]
fn supplied_answers_are_not_asked_for() {
    // values are supplied for the column with a query: nothing is asked
    let analyzed = system(
        vec![
            column_with_query(0, "main.W", vec![QueryItem::Text("w".to_string())]),
            column(1, "main.V"),
        ],
        vec![Identity::Polynomial(minus(witness(1), plus(witness(0), number(1))))],
    );
    let fixed_cols: Vec<(&str, Vec<u64>)> = vec![];
    let columns = WitnessGenerator::new(&analyzed, 2, &fixed_cols, Always(50))
        .with_external_witness_values(vec![("main.W", vec![7, 96])])
        .generate()
        .unwrap();
    assert_eq!(columns, vec![("main.W", vec![7u64, 96]), ("main.V", vec![8u64, 0])]);
}
