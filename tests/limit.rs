use lightdb::exec::{collect_rows, ExecError, LimitExec, RowSource, ValuesExec};
use lightdb::page::PageError;
use lightdb::plan::{
    LogicalLimit, LogicalPlan, LogicalValues, PhysicalLimit, PhysicalPlan, PhysicalPlanError,
    PhysicalPlaner, PhysicalValues, Row,
};

fn rows(n: i64) -> Vec<Row> {
    (0..n).map(|i| vec![i, 10 * i]).collect()
}

fn limit_over(offset: usize, limit: usize, n: i64) -> LimitExec<ValuesExec> {
    LimitExec::new(offset, limit, ValuesExec::new(rows(n)))
}

#[test]
fn limit_window_in_the_middle() {
    let mut l = limit_over(2, 3, 6);
    assert_eq!(collect_rows(&mut l).unwrap(), vec![vec![2, 20], vec![3, 30], vec![4, 40]]);
}

#[test]
fn limit_offset_past_the_rows() {
    let mut l = limit_over(10, 3, 6);
    assert_eq!(collect_rows(&mut l).unwrap(), Vec::<Row>::new());
}

#[test]
fn limit_zero_yields_nothing_after_skipping() {
    let mut l = limit_over(2, 0, 6);
    assert_eq!(l.next(), Ok(None));
    assert_eq!(l.into_child().rows_handed_out(), 2);
}

#[test]
fn limit_offset_zero_and_limit_past_the_end() {
    let mut l = limit_over(0, 100, 4);
    assert_eq!(collect_rows(&mut l).unwrap(), rows(4));
    let mut l = limit_over(3, 100, 6);
    assert_eq!(collect_rows(&mut l).unwrap(), vec![vec![3, 30], vec![4, 40], vec![5, 50]]);
}

#[test]
fn limit_stops_pulling_the_child() {
    let mut l = limit_over(2, 3, 6);
    assert_eq!(collect_rows(&mut l).unwrap().len(), 3);
    assert_eq!(l.next(), Ok(None));
    assert_eq!(l.into_child().rows_handed_out(), 5);
}

#[test]
fn exhausted_limit_stays_exhausted() {
    let mut l = limit_over(1, 1, 3);
    assert_eq!(l.next(), Ok(Some(vec![1, 10])));
    for _ in 0..5 {
        assert_eq!(l.next(), Ok(None));
        assert_eq!(l.next_row(), Ok(None));
    }
    assert_eq!(l.into_child().rows_handed_out(), 2);
}

#[test]
fn close_ends_the_limit() {
    let mut l = limit_over(0, 5, 6);
    assert_eq!(l.next(), Ok(Some(vec![0, 0])));
    l.close();
    l.close();
    assert_eq!(l.next(), Ok(None));
    assert_eq!(l.into_child().rows_handed_out(), 1);
}

#[test]
fn nested_limits() {
    let inner = limit_over(1, 4, 6);
    let mut outer = LimitExec::new(1, 2, inner);
    assert_eq!(collect_rows(&mut outer).unwrap(), vec![vec![2, 20], vec![3, 30]]);
}

#[test]
fn limit_from_plan() {
    let plan = PhysicalLimit {
        offset: 2,
        limit: 3,
        child: Box::new(PhysicalPlan::Values(PhysicalValues { rows: rows(6) })),
    };
    let child = match *plan.child {
        PhysicalPlan::Values(ref v) => ValuesExec::from_plan(PhysicalValues { rows: v.rows.clone() }),
        PhysicalPlan::Limit(_) => unreachable!(),
    };
    let mut l = LimitExec::from_plan(&plan, child);
    assert_eq!(collect_rows(&mut l).unwrap(), vec![vec![2, 20], vec![3, 30], vec![4, 40]]);
}

fn logical_limit(offset: usize, limit: usize, child: LogicalPlan) -> LogicalLimit {
    LogicalLimit { offset, limit, child: Box::new(child) }
}

#[test]
fn plan_limit_copies_and_plans_child() {
    let planer = PhysicalPlaner::new();
    let l = logical_limit(2, 3, LogicalPlan::Values(LogicalValues { width: 2, rows: rows(6) }));
    let p = planer.plan_limit(l).unwrap();
    assert_eq!(
        p,
        PhysicalPlan::Limit(PhysicalLimit {
            offset: 2,
            limit: 3,
            child: Box::new(PhysicalPlan::Values(PhysicalValues { rows: rows(6) })),
        })
    );
}

#[test]
fn plan_limit_propagates_child_error() {
    let planer = PhysicalPlaner::new();
    let mut bad = rows(3);
    bad[1].push(7);
    let direct = planer.plan(LogicalPlan::Values(LogicalValues { width: 2, rows: bad.clone() }));
    assert_eq!(direct, Err(PhysicalPlanError::InconsistentRowWidth));
    let nested = logical_limit(
        0,
        1,
        LogicalPlan::Limit(logical_limit(1, 1, LogicalPlan::Values(LogicalValues { width: 2, rows: bad }))),
    );
    assert_eq!(planer.plan(LogicalPlan::Limit(nested)), direct);
}

#[test]
fn plan_values_checks_width() {
    let planer = PhysicalPlaner::new();
    assert_eq!(
        planer.plan_values(LogicalValues { width: 0, rows: Vec::new() }),
        Ok(PhysicalPlan::Values(PhysicalValues { rows: Vec::new() }))
    );
    assert_eq!(
        planer.plan_values(LogicalValues { width: 3, rows: rows(2) }),
        Err(PhysicalPlanError::InconsistentRowWidth)
    );
}

#[test]
fn child_failure_passes_through_limit() {
    let err = ExecError::Storage(PageError::OutOfBounds);
    let mut l = LimitExec::new(1, 5, ValuesExec::failing(rows(3), err));
    assert_eq!(l.next(), Ok(Some(vec![1, 10])));
    assert_eq!(l.next(), Ok(Some(vec![2, 20])));
    assert_eq!(l.next(), Err(err));
    assert_eq!(l.next(), Ok(None));
    let mut l = LimitExec::new(5, 1, ValuesExec::failing(rows(3), err));
    assert_eq!(collect_rows(&mut l), Err(err));
    assert_eq!(l.next(), Ok(None));
}

#[test]
fn child_failure_past_the_window_is_not_reached() {
    let err = ExecError::Storage(PageError::InvalidLength);
    let mut l = LimitExec::new(1, 2, ValuesExec::failing(rows(3), err));
    assert_eq!(collect_rows(&mut l).unwrap(), vec![vec![1, 10], vec![2, 20]]);
    assert_eq!(l.into_child().rows_handed_out(), 3);
}

#[test]
fn limit_pulls_exactly_offset_plus_limit() {
    let mut l = limit_over(1, 3, 10);
    assert_eq!(collect_rows(&mut l).unwrap().len(), 3);
    for _ in 0..3 {
        assert_eq!(l.next(), Ok(None));
    }
    assert_eq!(l.into_child().rows_handed_out(), 4);
    let mut short = limit_over(4, 3, 5);
    assert_eq!(collect_rows(&mut short).unwrap(), vec![vec![4, 40]]);
    assert_eq!(short.into_child().rows_handed_out(), 5);
}
