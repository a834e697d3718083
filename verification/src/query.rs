//! The query table: the declarative bodies of the tracked queries.
//!
//! A database is built over a fixed table of rules. Each rule stands for one
//! tracked query instance — one (query identity, argument key) pair — and
//! says what the query reads (its `children`, in read order) and how it
//! combines the values it read (its `op`). Queries are addressed by their
//! index in the table; input cells live in a separate keyed store.

use vstd::prelude::*;

verus! {

/// A reference to something a query reads: an input cell or another query.
#[derive(Clone, Copy, PartialEq, Eq, Structural, Debug)]
pub enum Dep {
    /// The input cell with this key.
    Input(usize),
    /// The query with this key.
    Query(usize),
}

/// How a query combines the values it reads into its own output.
#[derive(Clone, Copy, PartialEq, Eq, Structural, Debug)]
pub enum Op {
    /// Return this constant; the values read are ignored.
    Const(i64),
    /// The sum of all values read; the empty sum is 0.
    Sum,
    /// The product of all values read; the empty product is 1.
    Prod,
}

/// One tracked query instance: the dependencies it reads, in read order, and
/// the operation it applies to the values read.
#[derive(Debug)]
pub struct Rule {
    pub op: Op,
    pub children: Vec<Dep>,
}

/// An input cell: an externally written value, stamped with the revision at
/// which it last changed.
#[derive(Clone, Copy, PartialEq, Eq, Structural, Debug)]
pub struct Cell {
    pub value: i64,
    pub changed_at: u64,
}

/// The sum of a sequence of values, `None` if any partial sum leaves `i64`.
pub open spec fn sum_checked(vals: Seq<i64>) -> Option<i64>
    decreases vals.len(),
{
    if vals.len() == 0 {
        Some(0i64)
    } else {
        match sum_checked(vals.drop_last()) {
            None => None,
            Some(a) => {
                if i64::MIN <= a + vals.last() && a + vals.last() <= i64::MAX {
                    Some((a + vals.last()) as i64)
                } else {
                    None
                }
            },
        }
    }
}

/// The product of a sequence of values, `None` if any partial product leaves
/// `i64`.
pub open spec fn prod_checked(vals: Seq<i64>) -> Option<i64>
    decreases vals.len(),
{
    if vals.len() == 0 {
        Some(1i64)
    } else {
        match prod_checked(vals.drop_last()) {
            None => None,
            Some(a) => {
                if i64::MIN <= a * vals.last() && a * vals.last() <= i64::MAX {
                    Some((a * vals.last()) as i64)
                } else {
                    None
                }
            },
        }
    }
}

/// What a query body returns, given the values it read: `None` is the body
/// failing (an overflow), which the engine reports and never caches.
pub open spec fn apply_op(op: Op, vals: Seq<i64>) -> Option<i64> {
    match op {
        Op::Const(c) => Some(c),
        Op::Sum => sum_checked(vals),
        Op::Prod => prod_checked(vals),
    }
}

/// Runs a query body: applies `op` to the values read, with checked
/// arithmetic; `None` reports overflow.
pub fn run_op(op: Op, vals: &Vec<i64>) -> (r: Option<i64>)
    ensures
        r == apply_op(op, vals@),
{
    match op {
        Op::Const(c) => Some(c),
        Op::Sum => {
            let mut acc: i64 = 0;
            let mut i: usize = 0;
            while i < vals.len()
                invariant
                    op == Op::Sum,
                    0 <= i <= vals@.len(),
                    sum_checked(vals@.subrange(0, i as int)) == Some(acc),
                decreases vals@.len() - i,
            {
                proof {
                    assert(vals@.subrange(0, i + 1).drop_last() =~= vals@.subrange(0, i as int));
                }
                match acc.checked_add(vals[i]) {
                    None => {
                        proof {
                            assert(sum_checked(vals@.subrange(0, i + 1)) is None);
                            lemma_checked_prefix_none(vals@, i as int + 1, true);
                        }
                        return None;
                    },
                    Some(a) => {
                        acc = a;
                    },
                }
                i += 1;
            }
            proof {
                assert(vals@.subrange(0, vals@.len() as int) =~= vals@);
            }
            Some(acc)
        },
        Op::Prod => {
            let mut acc: i64 = 1;
            let mut i: usize = 0;
            while i < vals.len()
                invariant
                    op == Op::Prod,
                    0 <= i <= vals@.len(),
                    prod_checked(vals@.subrange(0, i as int)) == Some(acc),
                decreases vals@.len() - i,
            {
                proof {
                    assert(vals@.subrange(0, i + 1).drop_last() =~= vals@.subrange(0, i as int));
                }
                match acc.checked_mul(vals[i]) {
                    None => {
                        proof {
                            assert(prod_checked(vals@.subrange(0, i + 1)) is None);
                            lemma_checked_prefix_none(vals@, i as int + 1, false);
                        }
                        return None;
                    },
                    Some(a) => {
                        acc = a;
                    },
                }
                i += 1;
            }
            proof {
                assert(vals@.subrange(0, vals@.len() as int) =~= vals@);
            }
            Some(acc)
        },
    }
}

/// Once a partial sum or product has failed, the whole sum or product fails:
/// `None` propagates from any prefix to the full sequence.
proof fn lemma_checked_prefix_none(vals: Seq<i64>, i: int, summing: bool)
    requires
        0 <= i <= vals.len(),
        summing ==> sum_checked(vals.subrange(0, i)) is None,
        !summing ==> prod_checked(vals.subrange(0, i)) is None,
    ensures
        summing ==> sum_checked(vals) is None,
        !summing ==> prod_checked(vals) is None,
    decreases vals.len() - i,
{
    if i < vals.len() {
        assert(vals.subrange(0, i + 1).drop_last() =~= vals.subrange(0, i));
        lemma_checked_prefix_none(vals, i + 1, summing);
    } else {
        assert(vals.subrange(0, i) =~= vals);
    }
}

} // verus!
