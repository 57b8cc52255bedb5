//! Pull-based evaluation: row sources, literal rows, and the limit operator.
use vstd::prelude::*;
use crate::page::PageError;
use crate::plan::{PhysicalLimit, PhysicalPlan, PhysicalValues, Row};

verus! {

/// Why evaluation failed.
#[derive(Clone, Copy, Debug, PartialEq, Eq)]
pub enum ExecError {
    /// A page access failed while producing rows.
    Storage(PageError),
}

/// An operator that hands out its rows one at a time, in order, and then
/// either ends cleanly or fails.
pub trait RowSource {
    /// The rows still to come, in order.
    spec fn pending(&self) -> Seq<Row>;

    /// How the rows end once the pending ones are out: `None` for a clean end,
    /// `Some(e)` for a failure with `e`.
    spec fn failure(&self) -> Option<ExecError>;

    /// The operator's internal consistency.
    spec fn inv(&self) -> bool;

    /// The next row; once the rows are out, the end of the sequence or the
    /// failure, after which the source stays at a clean end.
    fn next_row(&mut self) -> (r: Result<Option<Row>, ExecError>)
        requires
            old(self).inv(),
        ensures
            final(self).inv(),
            old(self).pending().len() > 0 ==> r == Ok::<Option<Row>, ExecError>(Some(old(self).pending()[0]))
                && final(self).pending() == old(self).pending().drop_first()
                && final(self).failure() == old(self).failure(),
            old(self).pending().len() == 0 ==> final(self).pending().len() == 0
                && final(self).failure() is None
                && r == match old(self).failure() {
                    None => Ok::<Option<Row>, ExecError>(None),
                    Some(e) => Err::<Option<Row>, ExecError>(e),
                },
    ;
}

/// Pulls every remaining row of `src`, in order; a failure of `src` is
/// returned as it came.
pub fn collect_rows<S: RowSource>(src: &mut S) -> (r: Result<Vec<Row>, ExecError>)
    requires
        old(src).inv(),
    ensures
        final(src).inv(),
        final(src).pending().len() == 0,
        old(src).failure() is None ==> r is Ok && r->Ok_0@ == old(src).pending(),
        old(src).failure() is Some ==> r == Err::<Vec<Row>, ExecError>(old(src).failure()->Some_0),
{
    let mut out: Vec<Row> = Vec::new();
    loop
        invariant
            src.inv(),
            out@ + src.pending() == old(src).pending(),
            src.failure() == old(src).failure(),
        decreases src.pending().len(),
    {
        match src.next_row() {
            Ok(Some(row)) => {
                out.push(row);
                proof {
                    assert(out@ + src.pending() =~= old(src).pending());
                }
            },
            Ok(None) => {
                assert(out@ =~= old(src).pending());
                return Ok(out);
            },
            Err(e) => {
                return Err(e);
            },
        }
    }
}

/// Literal rows, handed out in order, counting how many were handed out;
/// optionally failing once they are out.
pub struct ValuesExec {
    rows: Vec<Row>,
    failure: Option<ExecError>,
    handed_out: usize,
    total: usize,
}

impl ValuesExec {
    pub fn new(rows: Vec<Row>) -> (r: ValuesExec)
        ensures
            r.inv(),
            r.pending() == rows@,
            r.failure() is None,
            r.handed_out_spec() == 0,
    {
        let total = rows.len();
        ValuesExec { rows, failure: None, handed_out: 0, total }
    }

    /// Rows that end with the failure `e` instead of a clean end.
    pub fn failing(rows: Vec<Row>, e: ExecError) -> (r: ValuesExec)
        ensures
            r.inv(),
            r.pending() == rows@,
            r.failure() == Some(e),
            r.handed_out_spec() == 0,
    {
        let total = rows.len();
        ValuesExec { rows, failure: Some(e), handed_out: 0, total }
    }

    /// The operator for a physical plan of literal rows.
    pub fn from_plan(plan: PhysicalValues) -> (r: ValuesExec)
        ensures
            r.inv(),
            r.pending() == plan.rows@,
            r.pending() == plan_rows(PhysicalPlan::Values(plan)),
            r.failure() is None,
            r.handed_out_spec() == 0,
    {
        ValuesExec::new(plan.rows)
    }

    pub closed spec fn handed_out_spec(&self) -> nat {
        self.handed_out as nat
    }

    /// How many rows have been handed out so far.
    pub fn rows_handed_out(&self) -> (r: usize)
        ensures
            r == self.handed_out_spec(),
    {
        self.handed_out
    }
}

impl RowSource for ValuesExec {
    closed spec fn pending(&self) -> Seq<Row> {
        self.rows@
    }

    closed spec fn failure(&self) -> Option<ExecError> {
        self.failure
    }

    closed spec fn inv(&self) -> bool {
        self.handed_out + self.rows@.len() == self.total
    }

    fn next_row(&mut self) -> (r: Result<Option<Row>, ExecError>) {
        if self.rows.len() == 0 {
            match self.failure.take() {
                None => Ok(None),
                Some(e) => Err(e),
            }
        } else {
            let row = self.rows.remove(0);
            self.handed_out = self.handed_out + 1;
            proof {
                assert(self.rows@ =~= old(self).rows@.drop_first());
            }
            Ok(Some(row))
        }
    }
}

/// `min(a, b)` over integers.
pub open spec fn min_int(a: int, b: int) -> int {
    if a <= b {
        a
    } else {
        b
    }
}

/// The rows of `rows` from index `k`, at most `m` of them.
pub open spec fn window(rows: Seq<Row>, k: int, m: int) -> Seq<Row> {
    rows.subrange(min_int(k, rows.len() as int), min_int((k + m) as int, rows.len() as int))
}

/// The window from `k` of at most `m` rows is empty when `k` is past the rows or
/// `m` is zero, and is otherwise the rows from `k` up to `k + m` or the end.
pub proof fn lemma_window(rows: Seq<Row>, k: nat, m: nat)
    ensures
        k >= rows.len() || m == 0 ==> window(rows, k as int, m as int).len() == 0,
        k < rows.len() ==> window(rows, k as int, m as int) == rows.subrange(
            k as int,
            min_int((k + m) as int, rows.len() as int),
        ),
        window(rows, k as int, m as int).len() == min_int((k + m) as int, rows.len() as int) - min_int(
            k as int,
            rows.len() as int,
        ),
        forall|i: int|
            0 <= i < window(rows, k as int, m as int).len() ==> #[trigger] window(
                rows,
                k as int,
                m as int,
            )[i] == rows[k + i],
{
}

/// Where a limit operator stands.
#[derive(Clone, Copy, Debug, PartialEq, Eq)]
pub enum LimitState {
    /// Rows of the child still to discard.
    Skipping(usize),
    /// Rows still to hand out.
    Emitting(usize),
    /// Nothing more will be handed out.
    Exhausted,
}

/// Discards the first `offset` rows of its child, then hands out at most
/// `limit` rows.
pub struct LimitExec<C> {
    offset: usize,
    limit: usize,
    state: LimitState,
    child: C,
    source: Ghost<Seq<Row>>,
    taken: Ghost<nat>,
    pulls: Ghost<nat>,
    closed: Ghost<bool>,
}

impl<C: RowSource> LimitExec<C> {
    pub closed spec fn offset_spec(&self) -> nat {
        self.offset as nat
    }

    pub closed spec fn limit_spec(&self) -> nat {
        self.limit as nat
    }

    /// The rows the child had to give when the operator was built.
    pub closed spec fn source(&self) -> Seq<Row> {
        self.source@
    }

    /// How many rows the operator has taken from its child.
    pub closed spec fn taken(&self) -> nat {
        self.taken@
    }

    /// How many times the operator has pulled from its child, counting a pull
    /// that met the child's end.
    pub closed spec fn pulls(&self) -> nat {
        self.pulls@
    }

    /// Whether the operator has signalled its end and will not pull again.
    pub closed spec fn is_exhausted(&self) -> bool {
        self.state is Exhausted
    }

    /// Whether `close` has been called.
    pub closed spec fn is_closed(&self) -> bool {
        self.closed@
    }

    /// The child's rows still to come.
    pub closed spec fn child_pending(&self) -> Seq<Row> {
        self.child.pending()
    }

    /// How the child's rows end.
    pub closed spec fn child_failure(&self) -> Option<ExecError> {
        self.child.failure()
    }

    pub fn new(offset: usize, limit: usize, child: C) -> (r: LimitExec<C>)
        requires
            child.inv(),
        ensures
            r.inv(),
            r.pending() == window(child.pending(), offset as int, limit as int),
            r.failure() == (if offset + limit > child.pending().len() {
                child.failure()
            } else {
                None
            }),
            r.offset_spec() == offset,
            r.limit_spec() == limit,
            r.source() == child.pending(),
            r.taken() == 0,
            r.pulls() == 0,
            !r.is_closed(),
    {
        let ghost source = child.pending();
        let r = LimitExec {
            offset,
            limit,
            state: LimitState::Skipping(offset),
            child,
            source: Ghost(source),
            taken: Ghost(0),
            pulls: Ghost(0),
            closed: Ghost(false),
        };
        assert(source.subrange(0, source.len() as int) =~= source);
        r
    }

    /// The operator for a physical limit plan whose child has been opened as `child`.
    pub fn from_plan(plan: &PhysicalLimit, child: C) -> (r: LimitExec<C>)
        requires
            child.inv(),
        ensures
            r.inv(),
            r.pending() == window(child.pending(), plan.offset as int, plan.limit as int),
            child.pending() == plan_rows(*plan.child) ==> r.pending() == plan_rows(PhysicalPlan::Limit(*plan)),
            r.offset_spec() == plan.offset,
            r.limit_spec() == plan.limit,
            r.source() == child.pending(),
    {
        LimitExec::new(plan.offset, plan.limit, child)
    }

    /// The operator never pulls its child for a row past the first
    /// `offset + limit`: the child has given exactly the first `taken()` of its
    /// rows, at most `offset + limit` pulls were made, and at most one of them
    /// met the child's end. Once the operator has signalled its end without
    /// being closed, it has taken `min(offset + limit, rows of the child)` rows,
    /// so with at least `offset + limit` rows it pulled exactly that often.
    pub proof fn lemma_child_rows_taken(&self)
        requires
            self.inv(),
        ensures
            self.taken() <= self.offset_spec() + self.limit_spec(),
            self.pulls() <= self.offset_spec() + self.limit_spec(),
            self.pulls() == self.taken() || (self.is_exhausted() && self.pulls() == self.taken() + 1),
            self.taken() <= self.source().len(),
            self.child_pending() == self.source().subrange(self.taken() as int, self.source().len() as int),
            self.is_exhausted() && !self.is_closed() ==> self.taken() == min_int(
                (self.offset_spec() + self.limit_spec()) as int,
                self.source().len() as int,
            ),
            self.is_exhausted() && !self.is_closed() && self.offset_spec() + self.limit_spec()
                <= self.source().len() ==> self.pulls() == self.offset_spec() + self.limit_spec(),
    {
    }

    /// Nothing more will be handed out; the child is not pulled again.
    pub fn close(&mut self)
        requires
            old(self).inv(),
        ensures
            final(self).inv(),
            final(self).pending().len() == 0,
            final(self).failure() is None,
            final(self).is_exhausted(),
            final(self).is_closed(),
            final(self).offset_spec() == old(self).offset_spec(),
            final(self).limit_spec() == old(self).limit_spec(),
            final(self).source() == old(self).source(),
            final(self).taken() == old(self).taken(),
            final(self).pulls() == old(self).pulls(),
            final(self).child_pending() == old(self).child_pending(),
    {
        self.state = LimitState::Exhausted;
        self.closed = Ghost(true);
    }

    /// The next row in the window, pulling from the child only as far as
    /// needed; a failure of the child is returned as it came.
    pub fn next(&mut self) -> (r: Result<Option<Row>, ExecError>)
        requires
            old(self).inv(),
        ensures
            final(self).inv(),
            old(self).pending().len() > 0 ==> r == Ok::<Option<Row>, ExecError>(Some(old(self).pending()[0]))
                && final(self).pending() == old(self).pending().drop_first()
                && final(self).failure() == old(self).failure(),
            old(self).pending().len() == 0 ==> final(self).pending().len() == 0
                && final(self).failure() is None
                && final(self).is_exhausted()
                && r == match old(self).failure() {
                    None => Ok::<Option<Row>, ExecError>(None),
                    Some(e) => Err::<Option<Row>, ExecError>(e),
                },
            old(self).is_exhausted() ==> r == Ok::<Option<Row>, ExecError>(None)
                && final(self).child_pending() == old(self).child_pending()
                && final(self).taken() == old(self).taken()
                && final(self).pulls() == old(self).pulls(),
            final(self).offset_spec() == old(self).offset_spec(),
            final(self).limit_spec() == old(self).limit_spec(),
            final(self).source() == old(self).source(),
            final(self).is_closed() == old(self).is_closed(),
    {
        if let LimitState::Skipping(s) = self.state {
            let mut left: usize = s;
            while left > 0
                invariant
                    self.inv(),
                    self.state == LimitState::Skipping(left),
                    old(self).state is Skipping,
                    window(self.child.pending(), left as int, self.limit as int) == old(self).pending(),
                    self.failure() == old(self).failure(),
                    self.offset == old(self).offset,
                    self.limit == old(self).limit,
                    self.source == old(self).source,
                    self.closed == old(self).closed,
                decreases left,
            {
                let ghost p = self.child.pending();
                match self.child.next_row() {
                    Ok(Some(_)) => {
                        left = left - 1;
                        self.state = LimitState::Skipping(left);
                        self.taken = Ghost(self.taken@ + 1);
                        self.pulls = Ghost(self.pulls@ + 1);
                        proof {
                            assert(self.source@.subrange(self.taken@ as int, self.source@.len() as int)
                                =~= p.drop_first());
                            assert(window(self.child.pending(), left as int, self.limit as int)
                                =~= window(p, left + 1, self.limit as int));
                        }
                    },
                    Ok(None) => {
                        self.state = LimitState::Exhausted;
                        self.pulls = Ghost(self.pulls@ + 1);
                        assert(self.child.pending() =~= self.source@.subrange(
                            self.taken@ as int,
                            self.source@.len() as int,
                        ));
                        return Ok(None);
                    },
                    Err(e) => {
                        self.state = LimitState::Exhausted;
                        self.pulls = Ghost(self.pulls@ + 1);
                        assert(self.child.pending() =~= self.source@.subrange(
                            self.taken@ as int,
                            self.source@.len() as int,
                        ));
                        return Err(e);
                    },
                }
            }
            self.state = LimitState::Emitting(self.limit);
        }
        match self.state {
            LimitState::Emitting(e) => {
                if e == 0 {
                    self.state = LimitState::Exhausted;
                    return Ok(None);
                }
                let ghost p = self.child.pending();
                match self.child.next_row() {
                    Ok(Some(row)) => {
                        self.state = LimitState::Emitting(e - 1);
                        self.taken = Ghost(self.taken@ + 1);
                        self.pulls = Ghost(self.pulls@ + 1);
                        proof {
                            assert(self.source@.subrange(self.taken@ as int, self.source@.len() as int)
                                =~= p.drop_first());
                            assert(window(self.child.pending(), 0, e - 1) =~= window(p, 0, e as int).drop_first());
                        }
                        Ok(Some(row))
                    },
                    Ok(None) => {
                        self.state = LimitState::Exhausted;
                        self.pulls = Ghost(self.pulls@ + 1);
                        assert(self.child.pending() =~= self.source@.subrange(
                            self.taken@ as int,
                            self.source@.len() as int,
                        ));
                        Ok(None)
                    },
                    Err(err) => {
                        self.state = LimitState::Exhausted;
                        self.pulls = Ghost(self.pulls@ + 1);
                        assert(self.child.pending() =~= self.source@.subrange(
                            self.taken@ as int,
                            self.source@.len() as int,
                        ));
                        Err(err)
                    },
                }
            },
            _ => Ok(None),
        }
    }

    /// The child, once the operator is done with it.
    pub fn into_child(self) -> (r: C)
        ensures
            r.pending() == self.child_pending(),
            r.failure() == self.child_failure(),
    {
        self.child
    }
}

impl<C: RowSource> RowSource for LimitExec<C> {
    closed spec fn pending(&self) -> Seq<Row> {
        match self.state {
            LimitState::Skipping(s) => window(self.child.pending(), s as int, self.limit as int),
            LimitState::Emitting(e) => window(self.child.pending(), 0, e as int),
            LimitState::Exhausted => Seq::empty(),
        }
    }

    closed spec fn failure(&self) -> Option<ExecError> {
        match self.state {
            LimitState::Skipping(s) => if s + self.limit > self.child.pending().len() {
                self.child.failure()
            } else {
                None
            },
            LimitState::Emitting(e) => if e > self.child.pending().len() {
                self.child.failure()
            } else {
                None
            },
            LimitState::Exhausted => None,
        }
    }

    closed spec fn inv(&self) -> bool {
        &&& self.child.inv()
        &&& self.taken@ <= self.source@.len()
        &&& self.taken@ <= self.offset + self.limit
        &&& self.pulls@ <= self.offset + self.limit
        &&& (self.pulls@ == self.taken@ || (self.state is Exhausted && self.pulls@ == self.taken@ + 1))
        &&& self.child.pending() == self.source@.subrange(self.taken@ as int, self.source@.len() as int)
        &&& match self.state {
            LimitState::Skipping(s) => s <= self.offset && self.taken@ == self.offset - s,
            LimitState::Emitting(e) => e <= self.limit && self.taken@ == self.offset + self.limit - e,
            LimitState::Exhausted => !self.closed@ ==> self.taken@ == min_int(
                self.offset + self.limit,
                self.source@.len() as int,
            ),
        }
    }

    fn next_row(&mut self) -> (r: Result<Option<Row>, ExecError>) {
        self.next()
    }
}

} // verus!

verus! {

/// The rows that a physical plan yields when evaluated.
pub open spec fn plan_rows(p: PhysicalPlan) -> Seq<Row>
    decreases p,
{
    match p {
        PhysicalPlan::Values(v) => v.rows@,
        PhysicalPlan::Limit(l) => window(plan_rows(*l.child), l.offset as int, l.limit as int),
    }
}

} // verus!
