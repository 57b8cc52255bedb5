//! Logical and physical plan trees, and the planner that compiles one into
//! the other.
use vstd::prelude::*;

verus! {

/// One row of values.
pub type Row = Vec<i64>;

/// Whether every row has `width` values.
pub open spec fn rows_have_width(rows: Seq<Row>, width: usize) -> bool {
    forall|i: int| 0 <= i < rows.len() ==> (#[trigger] rows[i])@.len() == width
}

/// Literal rows, each with `width` values.
pub struct LogicalValues {
    pub width: usize,
    pub rows: Vec<Row>,
}

/// Skip `offset` rows of the child, then keep at most `limit` rows.
pub struct LogicalLimit {
    pub offset: usize,
    pub limit: usize,
    pub child: Box<LogicalPlan>,
}

/// What a query computes.
pub enum LogicalPlan {
    Values(LogicalValues),
    Limit(LogicalLimit),
}

/// The rows to produce, in order.
#[derive(Debug, PartialEq)]
pub struct PhysicalValues {
    pub rows: Vec<Row>,
}

/// The physical plan of limit operation.
#[derive(Debug, PartialEq)]
pub struct PhysicalLimit {
    pub offset: usize,
    pub limit: usize,
    pub child: Box<PhysicalPlan>,
}

/// How a query is executed.
#[derive(Debug, PartialEq)]
pub enum PhysicalPlan {
    Values(PhysicalValues),
    Limit(PhysicalLimit),
}

/// Why a logical plan could not be compiled.
#[derive(Clone, Copy, Debug, PartialEq, Eq)]
pub enum PhysicalPlanError {
    /// A row of literal values does not have the declared number of values.
    InconsistentRowWidth,
}

/// The physical plan that `plan` makes of a logical plan.
pub open spec fn plan_spec(l: LogicalPlan) -> Result<PhysicalPlan, PhysicalPlanError>
    decreases l,
{
    match l {
        LogicalPlan::Values(v) => {
            if rows_have_width(v.rows@, v.width) {
                Ok(PhysicalPlan::Values(PhysicalValues { rows: v.rows }))
            } else {
                Err(PhysicalPlanError::InconsistentRowWidth)
            }
        },
        LogicalPlan::Limit(lim) => match plan_spec(*lim.child) {
            Ok(c) => Ok(
                PhysicalPlan::Limit(
                    PhysicalLimit { offset: lim.offset, limit: lim.limit, child: Box::new(c) },
                ),
            ),
            Err(e) => Err(e),
        },
    }
}

/// Compiles logical plans into physical plans.
pub struct PhysicalPlaner {}

impl PhysicalPlaner {
    pub fn new() -> (r: PhysicalPlaner) {
        PhysicalPlaner {  }
    }

    /// Compiles `plan`, children first; fails as a whole if any part fails.
    pub fn plan(&self, plan: LogicalPlan) -> (r: Result<PhysicalPlan, PhysicalPlanError>)
        ensures
            r == plan_spec(plan),
        decreases plan,
    {
        match plan {
            LogicalPlan::Values(v) => self.plan_values(v),
            LogicalPlan::Limit(lim) => self.plan_limit(lim),
        }
    }

    /// Literal rows, checked against their declared width.
    pub fn plan_values(&self, plan: LogicalValues) -> (r: Result<PhysicalPlan, PhysicalPlanError>)
        ensures
            r == plan_spec(LogicalPlan::Values(plan)),
    {
        let mut i: usize = 0;
        while i < plan.rows.len()
            invariant
                i <= plan.rows@.len(),
                forall|j: int| 0 <= j < i ==> (#[trigger] plan.rows@[j])@.len() == plan.width,
            decreases plan.rows@.len() - i,
        {
            if plan.rows[i].len() != plan.width {
                return Err(PhysicalPlanError::InconsistentRowWidth);
            }
            i = i + 1;
        }
        Ok(PhysicalPlan::Values(PhysicalValues { rows: plan.rows }))
    }

    /// Copies offset and limit and plans the child; a failure of the child's
    /// planning is returned unchanged.
    pub fn plan_limit(&self, plan: LogicalLimit) -> (r: Result<PhysicalPlan, PhysicalPlanError>)
        ensures
            r == plan_spec(LogicalPlan::Limit(plan)),
        decreases plan,
    {
        let child = self.plan(*plan.child);
        match child {
            Ok(c) => Ok(
                PhysicalPlan::Limit(
                    PhysicalLimit { offset: plan.offset, limit: plan.limit, child: Box::new(c) },
                ),
            ),
            Err(e) => Err(e),
        }
    }
}

/// Planning a limit whose child fails to plan fails with the child's error,
/// and planning a limit whose child plans yields a limit node over that plan.
pub proof fn lemma_plan_limit_total(l: LogicalLimit)
    ensures
        plan_spec(*l.child) is Err ==> plan_spec(LogicalPlan::Limit(l)) == plan_spec(*l.child),
        plan_spec(*l.child) is Ok ==> plan_spec(LogicalPlan::Limit(l)) == Ok::<PhysicalPlan, PhysicalPlanError>(
            PhysicalPlan::Limit(
                PhysicalLimit {
                    offset: l.offset,
                    limit: l.limit,
                    child: Box::new(plan_spec(*l.child)->Ok_0),
                },
            ),
        ),
{
}

} // verus!
