//! The memo table and the evaluation engine.
//!
//! A [`Db`] owns the revision clock, the input cell store, and one memo entry
//! per query of its table. `evaluate` decides, per query, whether to reuse
//! the cached value, re-verify it against its recorded dependencies, or
//! recompute it; it detects cycles instead of diverging, and it caches only
//! successful computations. Its contract ties everything to the cache-free
//! semantics of [`crate::semantics`]: a returned value is exactly the value
//! the query has under the current inputs — the cache can never go stale.

use vstd::prelude::*;

use crate::query::{apply_op, run_op, Cell, Dep, Rule};
use crate::semantics::{cell_at, chain_wf, eval_dep, eval_deps, eval_to, eval_val, is_edge};
use crate::semantics::{
    lemma_cycle_has_no_value, lemma_eval_deps_each, lemma_eval_deps_mono, lemma_eval_deps_snoc,
    lemma_eval_val_mono,
};

verus! {

/// One recorded dependency of a memo entry: what was read, the value seen,
/// and the revision at which that value had last changed when it was read.
#[derive(Clone, Copy, PartialEq, Eq, Structural, Debug)]
pub struct DepRecord {
    pub dep: Dep,
    pub value: i64,
    pub changed_at: u64,
}

/// A memo entry: the last computed value of one query, the revision at which
/// it was last verified, the revision at which it last changed, and the
/// dependencies recorded while it was last computed, in read order.
///
/// An entry is created only by a successful computation, so `value` is always
/// present; a query that was never computed, or whose every computation
/// failed, simply has no entry. An entry is in progress exactly while its key
/// sits on the cycle-guard stack, and it is outdated exactly while
/// `verified_at` lags the database revision.
#[derive(Debug)]
pub struct Entry {
    pub value: i64,
    pub changed_at: u64,
    pub verified_at: u64,
    pub deps: Vec<DepRecord>,
}

/// Why an evaluation failed. Errors are never cached: a failed query is
/// retried on the next request.
#[derive(Debug, PartialEq, Eq)]
pub enum EvalError {
    /// The query transitively read itself: `path` is the full cyclic chain,
    /// each key reading the next and the last repeating the first.
    Cycle { path: Vec<usize> },
    /// The query read an input cell that was never written.
    MissingInput { input: usize },
    /// The key does not name a query of the table.
    UnknownQuery { query: usize },
    /// The query body overflowed while combining the values it read.
    Overflow { query: usize },
}

/// The database: the revision clock, the input cell store, the query table,
/// and the memo table, with an execution counter per query.
///
/// Concurrency policy, deliberately chosen and worth stating: input writes
/// take the database exclusively (`&mut`), so a write waits until every
/// outstanding evaluation is finished and never invalidates one in flight.
/// Readers fan out within a revision — see [`Db::evaluate_many`] — and each
/// batch observes one consistent revision; multiple independent databases can
/// be constructed freely.
pub struct Db {
    rules: Vec<Rule>,
    cells: Vec<Option<Cell>>,
    memos: Vec<Option<Entry>>,
    exec_counts: Vec<u64>,
    rev: u64,
    in_flight_peak: u64,
}

/// The cell store after one write: the store grows to cover the key, and the
/// cell is stamped with the new revision only if its value actually changed —
/// writing an equal value leaves the cell untouched ("backdating").
pub open spec fn cells_after_write(
    cells: Seq<Option<Cell>>,
    key: usize,
    value: i64,
    newrev: u64,
) -> Seq<Option<Cell>> {
    let n = if key + 1 > cells.len() {
        key + 1
    } else {
        cells.len() as int
    };
    Seq::new(
        n as nat,
        |i: int|
            if i == key {
                match cell_at(cells, key as int) {
                    Some(c) => if c.value == value {
                        Some(c)
                    } else {
                        Some(Cell { value, changed_at: newrev })
                    },
                    None => Some(Cell { value, changed_at: newrev }),
                }
            } else if 0 <= i < cells.len() {
                cells[i]
            } else {
                None
            },
    )
}

/// The cell store after a batch of writes, applied in order, all stamped with
/// the one new revision.
pub open spec fn cells_after_writes(
    cells: Seq<Option<Cell>>,
    writes: Seq<(usize, i64)>,
    newrev: u64,
) -> Seq<Option<Cell>>
    decreases writes.len(),
{
    if writes.len() == 0 {
        cells
    } else {
        cells_after_write(
            cells_after_writes(cells, writes.drop_last(), newrev),
            writes.last().0,
            writes.last().1,
            newrev,
        )
    }
}

/// A batch of writes either leaves a cell exactly as it was or replaces it
/// with one stamped at the new revision; it never removes a cell.
proof fn lemma_writes_evolution(
    cells: Seq<Option<Cell>>,
    writes: Seq<(usize, i64)>,
    newrev: u64,
    i: int,
)
    ensures
        cell_at(cells_after_writes(cells, writes, newrev), i) == cell_at(cells, i) || {
            &&& cell_at(cells_after_writes(cells, writes, newrev), i) is Some
            &&& cell_at(cells_after_writes(cells, writes, newrev), i).unwrap().changed_at == newrev
        },
        cell_at(cells, i) is Some ==> cell_at(cells_after_writes(cells, writes, newrev), i)
            is Some,
    decreases writes.len(),
{
    if writes.len() > 0 {
        lemma_writes_evolution(cells, writes.drop_last(), newrev, i);
    }
}

impl Db {
    /// The query table, as a sequence.
    pub closed spec fn rules_sq(&self) -> Seq<Rule> {
        self.rules@
    }

    /// The input cell store, as a sequence of optional cells.
    pub closed spec fn cells_sq(&self) -> Seq<Option<Cell>> {
        self.cells@
    }

    /// The memo table, as a sequence of optional entries.
    pub closed spec fn memos_sq(&self) -> Seq<Option<Entry>> {
        self.memos@
    }

    /// The per-query execution counters, as a sequence.
    pub closed spec fn counts_sq(&self) -> Seq<u64> {
        self.exec_counts@
    }

    /// The current revision.
    pub closed spec fn rev_spec(&self) -> u64 {
        self.rev
    }

    /// The greatest number of computations that have ever been in progress at
    /// once in this database.
    pub closed spec fn peak_spec(&self) -> u64 {
        self.in_flight_peak
    }

    /// How many queries the table holds.
    pub open spec fn n_queries(&self) -> int {
        self.rules_sq().len() as int
    }

    /// The memo entry of query `q`, `None` where none was ever computed.
    pub open spec fn memo_at(&self, q: int) -> Option<Entry> {
        if 0 <= q < self.memos_sq().len() {
            self.memos_sq()[q]
        } else {
            None
        }
    }

    /// How often the body of query `q` has executed to completion.
    pub open spec fn count_at(&self, q: int) -> u64 {
        if 0 <= q < self.counts_sq().len() {
            self.counts_sq()[q]
        } else {
            0
        }
    }

    /// Query `q` holds a value that was verified at the current revision:
    /// until the next input write, `evaluate(q)` returns it without any work.
    pub open spec fn verified_now(&self, q: int) -> bool {
        &&& self.memo_at(q) is Some
        &&& self.memo_at(q).unwrap().verified_at == self.rev_spec()
    }

    /// A recorded dependency is consistent with the present state: what it
    /// refers to exists, has not moved backwards, and — the soundness core —
    /// still holds the recorded value wherever its `changed_at` still equals
    /// the recorded one.
    pub open spec fn dep_record_ok(&self, rec: DepRecord) -> bool {
        &&& rec.changed_at <= self.rev_spec()
        &&& match rec.dep {
            Dep::Input(i) => {
                let c = cell_at(self.cells_sq(), i as int);
                &&& c is Some
                &&& rec.changed_at <= c.unwrap().changed_at
                &&& (c.unwrap().changed_at == rec.changed_at ==> c.unwrap().value == rec.value)
            },
            Dep::Query(p) => {
                let m = self.memo_at(p as int);
                &&& 0 <= (p as int) < self.memos_sq().len()
                &&& m is Some
                &&& rec.changed_at <= m.unwrap().changed_at
                &&& (m.unwrap().changed_at == rec.changed_at ==> m.unwrap().value == rec.value)
            },
        }
    }

    /// The internal invariant of one memo entry.
    pub open spec fn entry_ok(&self, q: int) -> bool
        recommends
            0 <= q < self.memos_sq().len(),
            self.memos_sq()[q] is Some,
    {
        let e = self.memos_sq()[q].unwrap();
        let children = self.rules_sq()[q].children@;
        &&& e.changed_at <= e.verified_at
        &&& e.verified_at <= self.rev_spec()
        &&& e.deps@.len() == children.len()
        &&& (forall|i: int| 0 <= i < children.len() ==> (#[trigger] e.deps@[i]).dep == children[i])
        &&& (forall|i: int| 0 <= i < children.len() ==> self.dep_record_ok(#[trigger] e.deps@[i]))
        &&& apply_op(self.rules_sq()[q].op, e.deps@.map_values(|r: DepRecord| r.value)) == Some(
            e.value,
        )
        &&& (e.verified_at == self.rev_spec() ==> eval_to(
            self.rules_sq(),
            self.cells_sq(),
            q,
            e.value,
        ))
        &&& self.counts_sq()[q] <= e.verified_at
    }

    /// The database invariant. Established by `new`, preserved by every
    /// operation.
    pub closed spec fn wf(&self) -> bool {
        &&& self.memos@.len() == self.rules@.len()
        &&& self.exec_counts@.len() == self.rules@.len()
        &&& self.rev >= 1
        &&& (forall|i: int|
            0 <= i < self.cells@.len() && (#[trigger] self.cells@[i]) is Some
                ==> self.cells@[i].unwrap().changed_at <= self.rev)
        &&& (forall|q: int|
            0 <= q < self.rules@.len() ==> match #[trigger] self.memos@[q] {
                Some(_) => self.entry_ok(q),
                None => self.exec_counts@[q] == 0,
            })
    }

    /// A recorded dependency now shows a newer change than was recorded: the
    /// ground for recomputing its dependent.
    pub open spec fn dep_now_newer(&self, rec: DepRecord) -> bool {
        match rec.dep {
            Dep::Input(i) => {
                let c = cell_at(self.cells_sq(), i as int);
                c is Some && c.unwrap().changed_at > rec.changed_at
            },
            Dep::Query(p) => {
                let m = self.memo_at(p as int);
                m is Some && m.unwrap().changed_at > rec.changed_at
            },
        }
    }

    /// Creates a database over a fixed query table, with no input cells, an
    /// empty memo table, and the revision clock at its first tick.
    pub fn new(rules: Vec<Rule>) -> (db: Db)
        ensures
            db.wf(),
            db.rules_sq() == rules@,
            db.rev_spec() == 1,
            db.cells_sq() == Seq::<Option<Cell>>::empty(),
            db.memos_sq().len() == rules@.len(),
            forall|q: int| 0 <= q < rules@.len() ==> db.memo_at(q) is None,
            forall|q: int| #![trigger db.count_at(q)] db.count_at(q) == 0,
            db.peak_spec() == 0,
    {
        let n = rules.len();
        let mut memos: Vec<Option<Entry>> = Vec::new();
        let mut counts: Vec<u64> = Vec::new();
        let mut i: usize = 0;
        while i < n
            invariant
                i <= n,
                memos@.len() == i,
                counts@.len() == i,
                forall|q: int| 0 <= q < i ==> (#[trigger] memos@[q]) is None,
                forall|q: int| 0 <= q < i ==> (#[trigger] counts@[q]) == 0,
            decreases n - i,
        {
            memos.push(None);
            counts.push(0);
            i += 1;
        }
        Db {
            rules,
            cells: Vec::new(),
            memos,
            exec_counts: counts,
            rev: 1,
            in_flight_peak: 0,
        }
    }

    /// The current revision of the database.
    pub fn revision(&self) -> (r: u64)
        ensures
            r == self.rev_spec(),
    {
        self.rev
    }

    /// The greatest number of computations that have been simultaneously in
    /// progress in this database.
    pub fn peak_in_flight(&self) -> (r: u64)
        ensures
            r == self.peak_spec(),
    {
        self.in_flight_peak
    }

    /// How often the body of query `k` has executed to completion.
    pub fn exec_count(&self, k: usize) -> (n: u64)
        ensures
            n == self.count_at(k as int),
    {
        if k < self.exec_counts.len() {
            self.exec_counts[k]
        } else {
            0
        }
    }

    /// The cached value of query `k` with the revisions at which it last
    /// changed and was last verified; `None` where no computation ever
    /// succeeded.
    pub fn memo_stamp(&self, k: usize) -> (r: Option<(i64, u64, u64)>)
        ensures
            r == match self.memo_at(k as int) {
                Some(e) => Some((e.value, e.changed_at, e.verified_at)),
                None => None::<(i64, u64, u64)>,
            },
    {
        if k < self.memos.len() {
            match &self.memos[k] {
                Some(e) => Some((e.value, e.changed_at, e.verified_at)),
                None => None,
            }
        } else {
            None
        }
    }

    /// Reads an input cell: its value and the revision at which it last
    /// changed. Never blocks and never fails once the cell exists; `None`
    /// exactly where no write ever created the cell.
    pub fn read_input(&self, key: usize) -> (r: Option<(i64, u64)>)
        ensures
            r == match cell_at(self.cells_sq(), key as int) {
                Some(c) => Some((c.value, c.changed_at)),
                None => None::<(i64, u64)>,
            },
    {
        if key < self.cells.len() {
            match self.cells[key] {
                Some(c) => Some((c.value, c.changed_at)),
                None => None,
            }
        } else {
            None
        }
    }

    /// Writes a batch of input cells made "at the same time": the revision
    /// clock ticks exactly once for the whole batch, however many cells it
    /// touches, and each write stamps its cell with the new revision only if
    /// the value actually changed under value equality — an unchanged write
    /// propagates no invalidation.
    pub fn write_batch(&mut self, writes: &Vec<(usize, i64)>)
        requires
            old(self).wf(),
            old(self).rev_spec() < u64::MAX,
            forall|j: int| 0 <= j < writes@.len() ==> (#[trigger] writes@[j]).0 < usize::MAX,
        ensures
            final(self).wf(),
            final(self).rev_spec() == old(self).rev_spec() + 1,
            final(self).rules_sq() == old(self).rules_sq(),
            final(self).memos_sq() == old(self).memos_sq(),
            final(self).counts_sq() == old(self).counts_sq(),
            final(self).peak_spec() == old(self).peak_spec(),
            final(self).cells_sq() == cells_after_writes(
                old(self).cells_sq(),
                writes@,
                (old(self).rev_spec() + 1) as u64,
            ),
    {
        let newrev = self.rev + 1;
        self.rev = newrev;
        let ghost cells0 = self.cells@;
        let mut w: usize = 0;
        while w < writes.len()
            invariant
                w <= writes@.len(),
                forall|j: int| 0 <= j < writes@.len() ==> (#[trigger] writes@[j]).0 < usize::MAX,
                self.cells@ == cells_after_writes(cells0, writes@.subrange(0, w as int), newrev),
                self.rules@ == old(self).rules@,
                self.memos@ == old(self).memos@,
                self.exec_counts@ == old(self).exec_counts@,
                self.rev == newrev,
                self.in_flight_peak == old(self).in_flight_peak,
            decreases writes@.len() - w,
        {
            let (key, value) = writes[w];
            let ghost pre = self.cells@;
            while self.cells.len() <= key
                invariant
                    forall|i: int| 0 <= i < pre.len() ==> pre[i] == #[trigger] self.cells@[i],
                    pre.len() <= self.cells@.len(),
                    self.cells@.len() <= key + 1 || self.cells@.len() == pre.len(),
                    forall|i: int|
                        pre.len() <= i < self.cells@.len() ==> (#[trigger] self.cells@[i]) is None,
                    key < usize::MAX,
                    self.rules@ == old(self).rules@,
                    self.memos@ == old(self).memos@,
                    self.exec_counts@ == old(self).exec_counts@,
                    self.rev == newrev,
                    self.in_flight_peak == old(self).in_flight_peak,
                decreases key + 1 - self.cells@.len(),
            {
                self.cells.push(None);
            }
            let write_needed = match self.cells[key] {
                Some(c) => c.value != value,
                None => true,
            };
            if write_needed {
                self.cells.set(key, Some(Cell { value, changed_at: newrev }));
            }
            proof {
                assert(self.cells@ =~= cells_after_write(pre, key, value, newrev));
                assert(writes@.subrange(0, w + 1).drop_last() =~= writes@.subrange(0, w as int));
            }
            w += 1;
        }
        proof {
            assert(writes@.subrange(0, writes@.len() as int) =~= writes@);
            let newc = self.cells@;
            assert forall|i: int|
                0 <= i < newc.len() && (#[trigger] newc[i]) is Some implies newc[i].unwrap().changed_at
                <= self.rev by {
                lemma_writes_evolution(cells0, writes@, newrev, i);
            }
            assert forall|q: int|
                0 <= q < self.rules@.len() && (#[trigger] self.memos@[q]) is Some implies self.entry_ok(
                q,
            ) by {
                assert(old(self).entry_ok(q));
                let e = self.memos@[q].unwrap();
                let children = self.rules@[q].children@;
                assert forall|i: int|
                    0 <= i < children.len() implies self.dep_record_ok(#[trigger] e.deps@[i]) by {
                    assert(old(self).dep_record_ok(e.deps@[i]));
                    match e.deps@[i].dep {
                        Dep::Input(c) => {
                            lemma_writes_evolution(cells0, writes@, newrev, c as int);
                        },
                        Dep::Query(_) => {},
                    }
                }
            }
        }
    }

    /// Writes one input cell, as a batch of one: the revision clock ticks
    /// once, and the cell is restamped only if the value changed.
    pub fn set_input(&mut self, key: usize, value: i64)
        requires
            old(self).wf(),
            old(self).rev_spec() < u64::MAX,
            key < usize::MAX,
        ensures
            final(self).wf(),
            final(self).rev_spec() == old(self).rev_spec() + 1,
            final(self).rules_sq() == old(self).rules_sq(),
            final(self).memos_sq() == old(self).memos_sq(),
            final(self).counts_sq() == old(self).counts_sq(),
            final(self).peak_spec() == old(self).peak_spec(),
            final(self).cells_sq() == cells_after_write(
                old(self).cells_sq(),
                key,
                value,
                (old(self).rev_spec() + 1) as u64,
            ),
    {
        let ghost c0 = old(self).cells_sq();
        let ghost nr = (old(self).rev_spec() + 1) as u64;
        let mut writes: Vec<(usize, i64)> = Vec::new();
        writes.push((key, value));
        self.write_batch(&writes);
        proof {
            assert(writes@.last() == (key, value));
            assert(writes@.drop_last() =~= Seq::<(usize, i64)>::empty());
            assert(cells_after_writes(c0, writes@.drop_last(), nr) == c0);
            assert(cells_after_writes(c0, writes@, nr) == cells_after_write(c0, key, value, nr));
        }
    }
}

/// One evaluated child, as the evaluation loop leaves it: an input child is
/// the cell itself; a query child is verified at the current revision and
/// holds the value and change stamp that were read.
pub open spec fn child_done(db: Db, d: Dep, v: i64, rv: u64) -> bool {
    match d {
        Dep::Input(i) => cell_at(db.cells_sq(), i as int) == Some(Cell { value: v, changed_at: rv }),
        Dep::Query(p) => {
            &&& db.verified_now(p as int)
            &&& db.memo_at(p as int).unwrap().value == v
            &&& db.memo_at(p as int).unwrap().changed_at == rv
        },
    }
}

/// How one call into the engine may move the database, inputs untouched.
/// This is where the engine's central guarantees live:
/// - an entry verified at the current revision is frozen, so a cached result
///   is returned as-is ("cache stability");
/// - a query body runs at most once per revision, so concurrent or repeated
///   requests for one key within a revision share one execution
///   ("single-flight", "diamond deduplication");
/// - a body runs only on evidence that a recorded dependency actually moved,
///   and an entry's `changed_at` moves only when its value really changed
///   ("early cutoff" with "backdating").
pub open spec fn evolves(pre: Db, post: Db) -> bool {
    &&& post.rules_sq() == pre.rules_sq()
    &&& post.cells_sq() == pre.cells_sq()
    &&& post.rev_spec() == pre.rev_spec()
    &&& post.memos_sq().len() == pre.memos_sq().len()
    &&& post.counts_sq().len() == pre.counts_sq().len()
    &&& post.peak_spec() >= pre.peak_spec()
    &&& (forall|q: int|
        #![trigger post.memo_at(q)]
        #![trigger post.count_at(q)]
        0 <= q < pre.memos_sq().len() ==> {
            &&& (pre.memo_at(q) is Some ==> post.memo_at(q) is Some)
            &&& (pre.verified_now(q) ==> post.memo_at(q) == pre.memo_at(q))
            &&& (post.memo_at(q) != pre.memo_at(q) ==> post.verified_now(q) && !pre.verified_now(
                q,
            ))
            &&& (pre.memo_at(q) is Some && post.memo_at(q) is Some ==> {
                let e0 = pre.memo_at(q).unwrap();
                let e1 = post.memo_at(q).unwrap();
                e1.changed_at == e0.changed_at || (e1.changed_at == post.rev_spec() && e1.value
                    != e0.value)
            })
            &&& (pre.memo_at(q) is None && post.memo_at(q) is Some ==> post.memo_at(
                q,
            ).unwrap().changed_at == post.rev_spec())
            &&& (post.count_at(q) == pre.count_at(q) || {
                &&& post.count_at(q) == pre.count_at(q) + 1
                &&& !pre.verified_now(q)
                &&& post.verified_now(q)
            })
            &&& (post.count_at(q) > pre.count_at(q) && pre.memo_at(q) is Some ==> exists|i: int|
                0 <= i < pre.memo_at(q).unwrap().deps@.len() && post.dep_now_newer(
                    #[trigger] pre.memo_at(q).unwrap().deps@[i],
                ))
        })
}

/// Early cutoff: a query's body runs only on evidence. However a call into
/// the engine moved the database, a query with a cached entry whose recorded
/// dependencies all kept their recorded change stamps was not re-executed.
/// With backdating — a dependency recomputed to an equal value keeps its
/// stamp — this is what stops an input change from cascading past the first
/// query whose value it does not actually alter.
pub proof fn lemma_early_cutoff(pre: Db, post: Db, q: int)
    requires
        evolves(pre, post),
        0 <= q < pre.memos_sq().len(),
        pre.memo_at(q) is Some,
        forall|i: int|
            0 <= i < pre.memo_at(q).unwrap().deps@.len() ==> !post.dep_now_newer(
                #[trigger] pre.memo_at(q).unwrap().deps@[i],
            ),
    ensures
        post.count_at(q) == pre.count_at(q),
{
}

/// Deduplication: one call into the engine executes each query's body at
/// most once, however many paths of the dependency graph — the two sides of
/// a diamond included — lead to it.
pub proof fn lemma_execute_at_most_once(pre: Db, post: Db, q: int)
    requires
        evolves(pre, post),
        0 <= q < pre.memos_sq().len(),
    ensures
        post.count_at(q) <= pre.count_at(q) + 1,
        post.count_at(q) > pre.count_at(q) ==> post.verified_now(q),
{
}

/// Single flight, over the whole revision: once a query is verified at the
/// current revision, further requests — from this call chain or any other —
/// execute nothing and leave its entry untouched, so all callers within one
/// revision share one computation and one result.
pub proof fn lemma_single_flight(pre: Db, post: Db, q: int)
    requires
        evolves(pre, post),
        0 <= q < pre.memos_sq().len(),
        pre.verified_now(q),
    ensures
        post.count_at(q) == pre.count_at(q),
        post.memo_at(q) == pre.memo_at(q),
        post.verified_now(q),
{
}

/// A database evolves to itself.
proof fn lemma_evolves_refl(db: Db)
    ensures
        evolves(db, db),
{
}

/// Evolution composes across successive calls into the engine.
proof fn lemma_evolves_trans(a: Db, b: Db, c: Db)
    requires
        a.wf(),
        b.wf(),
        c.wf(),
        evolves(a, b),
        evolves(b, c),
    ensures
        evolves(a, c),
{
    assert forall|q: int| 0 <= q < a.memos_sq().len() implies {
        &&& (a.memo_at(q) is Some ==> #[trigger] c.memo_at(q) is Some)
        &&& (a.verified_now(q) ==> c.memo_at(q) == a.memo_at(q))
        &&& (c.memo_at(q) != a.memo_at(q) ==> c.verified_now(q) && !a.verified_now(q))
        &&& (a.memo_at(q) is Some && c.memo_at(q) is Some ==> {
            let e0 = a.memo_at(q).unwrap();
            let e1 = c.memo_at(q).unwrap();
            e1.changed_at == e0.changed_at || (e1.changed_at == c.rev_spec() && e1.value
                != e0.value)
        })
        &&& (a.memo_at(q) is None && c.memo_at(q) is Some ==> c.memo_at(q).unwrap().changed_at
            == c.rev_spec())
        &&& (c.count_at(q) == a.count_at(q) || {
            &&& c.count_at(q) == a.count_at(q) + 1
            &&& !a.verified_now(q)
            &&& c.verified_now(q)
        })
        &&& (c.count_at(q) > a.count_at(q) && a.memo_at(q) is Some ==> exists|i: int|
            0 <= i < a.memo_at(q).unwrap().deps@.len() && c.dep_now_newer(
                #[trigger] a.memo_at(q).unwrap().deps@[i],
            ))
    } by {
        assert(0 <= q < b.memos_sq().len());
        let mab = b.memo_at(q) != a.memo_at(q);
        let mbc = c.memo_at(q) != b.memo_at(q);
        if a.verified_now(q) {
            assert(b.memo_at(q) == a.memo_at(q));
            assert(b.verified_now(q));
            assert(c.memo_at(q) == a.memo_at(q));
        }
        if mbc {
            assert(!b.verified_now(q));
            assert(!mab);
        }
        if c.count_at(q) > a.count_at(q) && a.memo_at(q) is Some {
            // the bump happened in exactly one of the two steps, against an
            // entry equal to a's; its evidence persists because a dependency's
            // `changed_at` never moves backwards
            if b.count_at(q) > a.count_at(q) {
                assert(b.verified_now(q));
                assert(c.memo_at(q) == b.memo_at(q));
                assert(c.count_at(q) == b.count_at(q));
                let i = choose|i: int|
                    0 <= i < a.memo_at(q).unwrap().deps@.len() && b.dep_now_newer(
                        #[trigger] a.memo_at(q).unwrap().deps@[i],
                    );
                let rec = a.memo_at(q).unwrap().deps@[i];
                assert(b.dep_now_newer(rec));
                match rec.dep {
                    Dep::Input(_) => {},
                    Dep::Query(p) => {
                        assert(b.memo_at(p as int) is Some);
                        let ep = b.memo_at(p as int).unwrap();
                        assert(b.entry_ok(p as int));
                        assert(c.memo_at(p as int) is Some);
                        let fp = c.memo_at(p as int).unwrap();
                        assert(fp.changed_at == ep.changed_at || fp.changed_at == c.rev_spec());
                        assert(ep.changed_at <= b.rev_spec());
                    },
                }
                assert(c.dep_now_newer(rec));
            } else {
                assert(c.count_at(q) > b.count_at(q));
                assert(!b.verified_now(q));
                assert(!mab);
                assert(b.memo_at(q) == a.memo_at(q));
            }
        }
    }
}

/// The surviving values and change stamps read for each child become its
/// dependency record.
fn build_deps(children: &Vec<Dep>, vals: &Vec<i64>, revs: &Vec<u64>) -> (deps: Vec<DepRecord>)
    requires
        children@.len() == vals@.len(),
        children@.len() == revs@.len(),
    ensures
        deps@.len() == children@.len(),
        forall|i: int|
            0 <= i < children@.len() ==> (#[trigger] deps@[i]) == (DepRecord {
                dep: children@[i],
                value: vals@[i],
                changed_at: revs@[i],
            }),
{
    let mut deps: Vec<DepRecord> = Vec::new();
    let mut i: usize = 0;
    while i < children.len()
        invariant
            i <= children@.len(),
            children@.len() == vals@.len(),
            children@.len() == revs@.len(),
            deps@.len() == i,
            forall|j: int|
                0 <= j < i ==> (#[trigger] deps@[j]) == (DepRecord {
                    dep: children@[j],
                    value: vals@[j],
                    changed_at: revs@[j],
                }),
        decreases children@.len() - i,
    {
        deps.push(DepRecord { dep: children[i], value: vals[i], changed_at: revs[i] });
        i += 1;
    }
    deps
}

/// A finished child stays finished while the engine works elsewhere: its
/// entry is verified at the current revision, hence frozen.
proof fn lemma_child_done_preserved(pre: Db, post: Db, d: Dep, v: i64, rv: u64)
    requires
        evolves(pre, post),
        child_done(pre, d, v, rv),
    ensures
        child_done(post, d, v, rv),
{
    match d {
        Dep::Input(_) => {},
        Dep::Query(p) => {
            assert(post.memo_at(p as int) == pre.memo_at(p as int));
        },
    }
}

/// What `evaluate` promises of its result: a returned value is the value the
/// query has under the current inputs, now verified in the memo table; an
/// error means the query has no well-founded value, and says precisely why —
/// a cyclic chain through the dependency graph, a missing input cell, an
/// unregistered key, or an overflowing body.
pub open spec fn eval_outcome_ok(pre: Db, post: Db, k: usize, r: Result<i64, EvalError>) -> bool {
    match r {
        Ok(v) => {
            &&& eval_to(pre.rules_sq(), pre.cells_sq(), k as int, v)
            &&& post.verified_now(k as int)
            &&& post.memo_at(k as int).unwrap().value == v
        },
        Err(e) => {
            &&& (forall|v: i64| !eval_to(pre.rules_sq(), pre.cells_sq(), k as int, v))
            &&& match e {
                EvalError::Cycle { path } => {
                    &&& path@.len() >= 2
                    &&& chain_wf(pre.rules_sq(), path@)
                    &&& path@[0] == path@.last()
                },
                EvalError::MissingInput { input } => cell_at(pre.cells_sq(), input as int) is None,
                EvalError::UnknownQuery { query } => !(0 <= (query as int)
                    < pre.rules_sq().len()),
                EvalError::Overflow { query } => 0 <= (query as int) < pre.rules_sq().len(),
            }
        },
    }
}

/// Commits one entry to the memo table and carries the database invariant
/// and the evolution guarantees across the write. `mid` is the database after
/// every dependency of `k` was brought up to date; `fin` is `mid` with `e1`
/// written under `k` and, on a recomputation, `k`'s execution counter bumped.
proof fn lemma_commit_entry(mid: Db, fin: Db, k: usize, e1: Entry)
    requires
        mid.wf(),
        0 <= (k as int) < mid.memos_sq().len(),
        !mid.verified_now(k as int),
        fin.rules_sq() == mid.rules_sq(),
        fin.cells_sq() == mid.cells_sq(),
        fin.rev_spec() == mid.rev_spec(),
        fin.peak_spec() == mid.peak_spec(),
        fin.memos_sq() == mid.memos_sq().update(k as int, Some(e1)),
        fin.counts_sq().len() == mid.counts_sq().len(),
        forall|q: int|
            0 <= q < mid.counts_sq().len() && q != k as int ==> fin.counts_sq()[q]
                == #[trigger] mid.counts_sq()[q],
        fin.count_at(k as int) == mid.count_at(k as int) || fin.count_at(k as int) == mid.count_at(
            k as int,
        ) + 1,
        fin.count_at(k as int) <= e1.verified_at,
        fin.count_at(k as int) > mid.count_at(k as int) && mid.memo_at(k as int) is Some
            ==> exists|i: int|
            0 <= i < mid.memo_at(k as int).unwrap().deps@.len() && fin.dep_now_newer(
                #[trigger] mid.memo_at(k as int).unwrap().deps@[i],
            ),
        e1.verified_at == fin.rev_spec(),
        e1.changed_at <= e1.verified_at,
        e1.deps@.len() == fin.rules_sq()[k as int].children@.len(),
        forall|i: int|
            0 <= i < e1.deps@.len() ==> (#[trigger] e1.deps@[i]).dep == fin.rules_sq()[k as int].children@[i],
        forall|i: int| 0 <= i < e1.deps@.len() ==> fin.dep_record_ok(#[trigger] e1.deps@[i]),
        apply_op(fin.rules_sq()[k as int].op, e1.deps@.map_values(|r: DepRecord| r.value)) == Some(
            e1.value,
        ),
        eval_to(fin.rules_sq(), fin.cells_sq(), k as int, e1.value),
        match mid.memo_at(k as int) {
            Some(e0) => (e1.changed_at == e0.changed_at && e1.value == e0.value) || (e1.changed_at
                == fin.rev_spec() && e1.value != e0.value),
            None => e1.changed_at == fin.rev_spec(),
        },
    ensures
        fin.wf(),
        evolves(mid, fin),
{
    let rev = fin.rev_spec();
    let n = mid.memos_sq().len() as int;
    assert(fin.memos_sq().len() == n);
    assert(fin.memo_at(k as int) == Some(e1));
    assert forall|q: int| 0 <= q < n && (#[trigger] fin.memos_sq()[q]) is Some implies fin.entry_ok(
        q,
    ) by {
        if q == k as int {
            assert(fin.entry_ok(q));
        } else {
            assert(fin.memos_sq()[q] == mid.memos_sq()[q]);
            assert(mid.entry_ok(q));
            let e = fin.memos_sq()[q].unwrap();
            assert forall|i: int|
                0 <= i < fin.rules_sq()[q].children@.len() implies fin.dep_record_ok(
                #[trigger] e.deps@[i],
            ) by {
                let rec = e.deps@[i];
                assert(mid.dep_record_ok(rec));
                match rec.dep {
                    Dep::Input(_) => {},
                    Dep::Query(p) => {
                        if p as int == k as int {
                            let e0 = mid.memo_at(k as int).unwrap();
                            assert(e0.verified_at < rev);
                            assert(rec.changed_at <= e0.changed_at);
                            assert(e0.changed_at <= e0.verified_at);
                        } else {
                            assert(fin.memo_at(p as int) == mid.memo_at(p as int));
                        }
                    },
                }
            }
        }
    }
    assert forall|q: int|
        0 <= q < n && (#[trigger] fin.memos_sq()[q]) is None implies fin.counts_sq()[q] == 0 by {
        assert(fin.memos_sq()[q] == mid.memos_sq()[q]);
    }
    assert(fin.wf());
    assert forall|q: int| 0 <= q < n implies {
        &&& (mid.memo_at(q) is Some ==> #[trigger] fin.memo_at(q) is Some)
        &&& (mid.verified_now(q) ==> fin.memo_at(q) == mid.memo_at(q))
        &&& (fin.memo_at(q) != mid.memo_at(q) ==> fin.verified_now(q) && !mid.verified_now(q))
        &&& (mid.memo_at(q) is Some && fin.memo_at(q) is Some ==> {
            let e0 = mid.memo_at(q).unwrap();
            let f1 = fin.memo_at(q).unwrap();
            f1.changed_at == e0.changed_at || (f1.changed_at == fin.rev_spec() && f1.value
                != e0.value)
        })
        &&& (mid.memo_at(q) is None && fin.memo_at(q) is Some ==> fin.memo_at(
            q,
        ).unwrap().changed_at == fin.rev_spec())
        &&& (fin.count_at(q) == mid.count_at(q) || {
            &&& fin.count_at(q) == mid.count_at(q) + 1
            &&& !mid.verified_now(q)
            &&& fin.verified_now(q)
        })
        &&& (fin.count_at(q) > mid.count_at(q) && mid.memo_at(q) is Some ==> exists|i: int|
            0 <= i < mid.memo_at(q).unwrap().deps@.len() && fin.dep_now_newer(
                #[trigger] mid.memo_at(q).unwrap().deps@[i],
            ))
    } by {
        if q != k as int {
            assert(fin.memo_at(q) == mid.memo_at(q));
            assert(fin.count_at(q) == mid.count_at(q));
        }
    }
}

/// A query inherits failure from any dependency: if one of the things it
/// reads has no value, neither has it.
proof fn lemma_dep_error_propagates(
    rules: Seq<Rule>,
    cells: Seq<Option<Cell>>,
    k: usize,
    ci: int,
)
    requires
        0 <= (k as int) < rules.len(),
        0 <= ci < rules[k as int].children@.len(),
        match rules[k as int].children@[ci] {
            Dep::Input(i) => cell_at(cells, i as int) is None,
            Dep::Query(q) => forall|v: i64| !eval_to(rules, cells, q as int, v),
        },
    ensures
        forall|v: i64| !eval_to(rules, cells, k as int, v),
{
    let children = rules[k as int].children@;
    assert forall|v: i64| !eval_to(rules, cells, k as int, v) by {
        if eval_to(rules, cells, k as int, v) {
            let f = choose|f: nat| eval_val(rules, cells, k as int, f) == Some(v);
            lemma_eval_deps_each(rules, cells, children, (f - 1) as nat);
            let vs = eval_deps(rules, cells, children, (f - 1) as nat).unwrap();
            assert(eval_dep(rules, cells, children[ci], (f - 1) as nat) == Some(vs[ci]));
            match children[ci] {
                Dep::Input(_) => {},
                Dep::Query(q) => {
                    assert(eval_val(rules, cells, q as int, (f - 1) as nat) == Some(vs[ci]));
                    assert(eval_to(rules, cells, q as int, vs[ci]));
                },
            }
        }
    }
}

/// A duplicate-free sequence of keys below `n` has at most `n` elements: the
/// cycle-guard stack can never outgrow the query table.
proof fn lemma_distinct_bounded(s: Seq<usize>, n: int)
    requires
        s.no_duplicates(),
        forall|j: int| 0 <= j < s.len() ==> (#[trigger] s[j] as int) < n,
        0 <= n,
    ensures
        s.len() <= n,
{
    let f = |x: usize| x as int;
    assert(vstd::relations::injective(f));
    s.lemma_no_duplicates_injective(f);
    let t = s.map_values(f);
    t.unique_seq_to_set();
    vstd::set_lib::lemma_int_range(0, n);
    assert(t.to_set().subset_of(vstd::set_lib::set_int_range(0, n))) by {
        assert forall|x: int| t.to_set().contains(x) implies vstd::set_lib::set_int_range(
            0,
            n,
        ).contains(x) by {
            let j = choose|j: int| 0 <= j < t.len() && t[j] == x;
            assert(s[j] as int == x);
        }
    }
    vstd::set_lib::lemma_len_subset(t.to_set(), vstd::set_lib::set_int_range(0, n));
}

impl Db {

    /// Decides, with every dependency of `k` freshly evaluated, whether the
    /// cached entry may be reused — no recorded dependency moved — or the
    /// body must run, and commits the outcome to the memo table. `vals` and
    /// `revs` carry, child by child, the value read and the revision at which
    /// it had last changed.
    #[verifier::rlimit(100)]
    #[verifier::loop_isolation(false)]
    fn finish(
        &mut self,
        k: usize,
        have_entry: bool,
        e_value: i64,
        e_changed: u64,
        e_verified: u64,
        children: &Vec<Dep>,
        vals: &Vec<i64>,
        revs: &Vec<u64>,
    ) -> (r: Result<i64, EvalError>)
        requires
            old(self).wf(),
            0 <= (k as int) < old(self).n_queries(),
            !old(self).verified_now(k as int),
            children@ == old(self).rules_sq()[k as int].children@,
            vals@.len() == children@.len(),
            revs@.len() == children@.len(),
            forall|i: int|
                0 <= i < children@.len() ==> child_done(
                    *old(self),
                    #[trigger] children@[i],
                    vals@[i],
                    revs@[i],
                ),
            exists|f: nat|
                eval_deps(old(self).rules_sq(), old(self).cells_sq(), children@, f) == Some(vals@),
            have_entry == (old(self).memo_at(k as int) is Some),
            have_entry ==> {
                let e0 = old(self).memo_at(k as int).unwrap();
                e0.value == e_value && e0.changed_at == e_changed && e0.verified_at == e_verified
            },
        ensures
            final(self).wf(),
            evolves(*old(self), *final(self)),
            eval_outcome_ok(*old(self), *final(self), k, r),
            forall|q: int| q != k as int ==> final(self).memo_at(q) == old(self).memo_at(q),
    {
        let ghost rules0 = old(self).rules_sq();
        let ghost cells0 = old(self).cells_sq();
        let ghost e_old: Option<Entry> = old(self).memo_at(k as int);
        let rev = self.rev;
        // validate: the entry may be reused if no recorded dependency has a
        // newer change than was recorded for it
        proof {
            if have_entry {
                assert(self.entry_ok(k as int));
                assert(e_old.unwrap().deps@.len() == children@.len());
            }
        }
        let mut dirty: bool = !have_entry;
        let mut di: usize = 0;
        while di < revs.len()
            invariant
                di <= revs@.len(),
                self.memo_at(k as int) == e_old,
                have_entry ==> e_old is Some && e_old.unwrap().deps@.len() == revs@.len(),
                k < self.memos@.len(),
                have_entry == (e_old is Some),
                !dirty ==> have_entry && forall|i: int|
                    0 <= i < di ==> revs@[i] <= (#[trigger] e_old.unwrap().deps@[i]).changed_at,
                dirty && have_entry ==> exists|i: int|
                    0 <= i < di && revs@[i] > (#[trigger] e_old.unwrap().deps@[i]).changed_at,
            decreases revs@.len() - di,
        {
            let rc: u64 = match &self.memos[k] {
                Some(e) => e.deps[di].changed_at,
                None => 0,
            };
            if revs[di] > rc {
                dirty = true;
            }
            di += 1;
        }

        if !dirty {
            // early cutoff: every dependency still changed at the recorded
            // revision, so the cached value is up to date; re-stamp it as
            // verified without executing the body
            let deps = build_deps(children, vals, revs);
            let entry = Entry { value: e_value, changed_at: e_changed, verified_at: rev, deps };
            let ghost mid = *self;
            self.memos.set(k, Some(entry));
            proof {
                let e0 = e_old.unwrap();
                let ghost e1 = self.memos@[k as int].unwrap();
                // under the clean check, each recorded dependency is exactly
                // what was just read: its stamp did not move, so its value
                // did not either
                assert forall|i: int| 0 <= i < children@.len() implies {
                    &&& (#[trigger] e0.deps@[i]).value == vals@[i]
                    &&& e0.deps@[i].changed_at == revs@[i]
                } by {
                    assert(mid.dep_record_ok(e0.deps@[i]));
                    assert(child_done(mid, children@[i], vals@[i], revs@[i]));
                    assert(e0.deps@[i].dep == children@[i]);
                }
                assert(e0.deps@.map_values(|r: DepRecord| r.value) =~= vals@);
                assert(e1.deps@.map_values(|r: DepRecord| r.value) =~= vals@);
                assert(apply_op(rules0[k as int].op, vals@) == Some(e_value));
                let f = choose|f: nat|
                    eval_deps(rules0, cells0, children@, f) == Some(vals@);
                assert(eval_val(rules0, cells0, k as int, f + 1) == Some(e_value));
                assert(eval_to(rules0, cells0, k as int, e_value));
                assert forall|i: int| 0 <= i < e1.deps@.len() implies self.dep_record_ok(
                    #[trigger] e1.deps@[i],
                ) by {
                    assert(child_done(mid, children@[i], vals@[i], revs@[i]));
                    match children@[i] {
                        Dep::Input(_) => {},
                        Dep::Query(p) => {
                            assert(!mid.verified_now(k as int));
                            assert(p as int != k as int);
                            assert(self.memo_at(p as int) == mid.memo_at(p as int));
                            assert(mid.entry_ok(p as int));
                        },
                    }
                }
                assert(e1.changed_at <= e1.verified_at) by {
                    assert(mid.entry_ok(k as int));
                }
                assert(self.count_at(k as int) == mid.count_at(k as int));
                assert(mid.count_at(k as int) == old(self).count_at(k as int));
                assert(self.count_at(k as int) <= e1.verified_at) by {
                    assert(mid.entry_ok(k as int));
                    assert(mid.counts_sq()[k as int] <= e0.verified_at);
                    assert(e0.verified_at <= rev);
                }
                lemma_commit_entry(mid, *self, k, e1);
                lemma_evolves_trans(*old(self), mid, *self);
            }
            return Ok(e_value);
        }

        // recompute: execute the body on the values just read
        let op = self.rules[k].op;
        match run_op(op, vals) {
            None => {
                // the body failed; leave the entry as it was, so the query is
                // retried on the next request, and report the failure
                proof {
                    assert forall|v: i64| !eval_to(rules0, cells0, k as int, v) by {
                        if eval_to(rules0, cells0, k as int, v) {
                            let f = choose|f: nat|
                                eval_val(rules0, cells0, k as int, f) == Some(v);
                            let ghost bigf = choose|bf: nat|
                                eval_deps(rules0, cells0, children@, bf) == Some(vals@);
                            let fm: nat = if bigf >= (f - 1) as nat {
                                bigf
                            } else {
                                (f - 1) as nat
                            };
                            lemma_eval_deps_mono(rules0, cells0, children@, bigf, fm);
                            lemma_eval_deps_mono(rules0, cells0, children@, (f - 1) as nat, fm);
                            assert(eval_deps(rules0, cells0, children@, (f - 1) as nat) == Some(
                                vals@,
                            ));
                            assert(apply_op(rules0[k as int].op, vals@) is None);
                        }
                    }
                }
                return Err(EvalError::Overflow { query: k });
            },
            Some(v) => {
                // backdating: if the body ran but produced the same value,
                // keep the old change stamp so dependents still cut off early
                let newc: u64 = if have_entry && e_value == v {
                    e_changed
                } else {
                    rev
                };
                let deps = build_deps(children, vals, revs);
                let cnt = self.exec_counts[k];
                proof {
                    assert(self.count_at(k as int) == old(self).count_at(k as int));
                    if have_entry {
                        assert(self.entry_ok(k as int));
                        assert(cnt <= e_verified && e_verified < rev);
                    } else {
                        assert(cnt == 0 && rev >= 1);
                    }
                }
                let entry = Entry { value: v, changed_at: newc, verified_at: rev, deps };
                let ghost mid = *self;
                self.exec_counts.set(k, cnt + 1);
                self.memos.set(k, Some(entry));
                proof {
                    let ghost e1 = self.memos@[k as int].unwrap();
                    let f = choose|f: nat|
                        eval_deps(rules0, cells0, children@, f) == Some(vals@);
                    assert(e1.deps@.map_values(|r: DepRecord| r.value) =~= vals@);
                    assert(eval_val(rules0, cells0, k as int, f + 1) == Some(v));
                    assert(eval_to(rules0, cells0, k as int, v));
                    assert forall|i: int| 0 <= i < e1.deps@.len() implies self.dep_record_ok(
                        #[trigger] e1.deps@[i],
                    ) by {
                        assert(child_done(mid, children@[i], vals@[i], revs@[i]));
                        match children@[i] {
                            Dep::Input(_) => {},
                            Dep::Query(p) => {
                                assert(!mid.verified_now(k as int));
                                assert(p as int != k as int);
                                assert(self.memo_at(p as int) == mid.memo_at(p as int));
                                assert(mid.entry_ok(p as int));
                            },
                        }
                    }
                    // the execution has its evidence: `dirty` points at a
                    // recorded dependency that truly moved
                    if have_entry {
                        let e0 = e_old.unwrap();
                        let i = choose|i: int|
                            0 <= i < revs@.len() && revs@[i] > (#[trigger] e0.deps@[i]).changed_at;
                        assert(child_done(mid, children@[i], vals@[i], revs@[i]));
                        assert(e0.deps@[i].dep == children@[i]) by {
                            assert(mid.entry_ok(k as int));
                        }
                        match children@[i] {
                            Dep::Input(_) => {},
                            Dep::Query(p) => {
                                assert(!mid.verified_now(k as int));
                                assert(p as int != k as int);
                                assert(self.memo_at(p as int) == mid.memo_at(p as int));
                            },
                        }
                        assert(self.dep_now_newer(e0.deps@[i]));
                    }
                    lemma_commit_entry(mid, *self, k, e1);
                    lemma_evolves_trans(*old(self), mid, *self);
                }
                return Ok(v);
            },
        }
    }

    /// One evaluation step, under the cycle guard `stack`: the chain of
    /// in-progress keys above this call, each reading the next and the last
    /// reading `k`. Decides whether to reuse, re-verify or recompute `k`, and
    /// recurses into `k`'s recorded dependencies.
    #[verifier::rlimit(100)]
    #[verifier::loop_isolation(false)]
    fn evaluate_at(&mut self, k: usize, stack: &mut Vec<usize>) -> (r: Result<i64, EvalError>)
        requires
            old(self).wf(),
            old(stack)@.no_duplicates(),
            forall|j: int|
                0 <= j < old(stack)@.len() ==> (#[trigger] old(stack)@[j] as int) < old(
                    self,
                ).n_queries(),
            forall|j: int|
                0 <= j < old(stack)@.len() ==> !old(self).verified_now(
                    #[trigger] old(stack)@[j] as int,
                ),
            chain_wf(old(self).rules_sq(), old(stack)@),
            old(stack)@.len() > 0 ==> is_edge(old(self).rules_sq(), old(stack)@.last(), k),
        ensures
            final(self).wf(),
            final(stack)@ == old(stack)@,
            evolves(*old(self), *final(self)),
            forall|j: int|
                0 <= j < old(stack)@.len() ==> final(self).memo_at(
                    #[trigger] old(stack)@[j] as int,
                ) == old(self).memo_at(old(stack)@[j] as int),
            eval_outcome_ok(*old(self), *final(self), k, r),
            old(self).verified_now(k as int) ==> *final(self) == *old(self) && r == Ok::<i64, EvalError>(
                old(self).memo_at(k as int).unwrap().value,
            ),
        decreases old(self).n_queries() - old(stack)@.len(),
    {
        let ghost rules0 = old(self).rules_sq();
        let ghost cells0 = old(self).cells_sq();
        let n = self.rules.len();

        // an unregistered key has no rule, so no value at any depth
        if k >= n {
            proof {
                lemma_evolves_refl(*self);
                assert forall|v: i64| !eval_to(rules0, cells0, k as int, v) by {
                    if eval_to(rules0, cells0, k as int, v) {
                        let f = choose|f: nat| eval_val(rules0, cells0, k as int, f) == Some(v);
                        assert(eval_val(rules0, cells0, k as int, f) is None);
                    }
                }
            }
            return Err(EvalError::UnknownQuery { query: k });
        }

        // cycle guard: re-entering an in-progress key is a cycle, reported
        // with the full cyclic chain and never cached
        let mut si: usize = 0;
        while si < stack.len()
            invariant
                si <= stack@.len(),
                forall|j: int| 0 <= j < si ==> stack@[j] != k,
            decreases stack@.len() - si,
        {
            if stack[si] == k {
                let mut path: Vec<usize> = Vec::new();
                let mut t: usize = si;
                while t < stack.len()
                    invariant
                        si <= t <= stack@.len(),
                        si < stack@.len(),
                        stack@[si as int] == k,
                        path@ == stack@.subrange(si as int, t as int),
                    decreases stack@.len() - t,
                {
                    path.push(stack[t]);
                    t += 1;
                    proof {
                        assert(path@ =~= stack@.subrange(si as int, t as int));
                    }
                }
                path.push(k);
                proof {
                    let p = path@;
                    let s = stack@;
                    assert(p.len() == s.len() - si + 1);
                    assert(p[0] == k && p.last() == k);
                    assert(chain_wf(rules0, p)) by {
                        assert forall|j: int| 0 <= j < p.len() - 1 implies #[trigger] is_edge(
                            rules0,
                            p[j],
                            p[j + 1],
                        ) by {
                            assert(p[j] == s[si + j]);
                            if j < p.len() - 2 {
                                assert(p[j + 1] == s[si + j + 1]);
                                assert(is_edge(rules0, s[si + j], s[si + j + 1]));
                            } else {
                                assert(p[j] == s.last());
                            }
                        }
                    }
                    assert forall|v: i64| !eval_to(rules0, cells0, k as int, v) by {
                        lemma_cycle_has_no_value(rules0, cells0, p, v);
                    }
                    lemma_evolves_refl(*self);
                }
                return Err(EvalError::Cycle { path });
            }
            si += 1;
        }

        // memo hit at the current revision: the entry was already verified
        // this round, so return it without any work
        let rev = self.rev;
        let mut have_entry: bool = false;
        let mut e_value: i64 = 0;
        let mut e_changed: u64 = 0;
        let mut e_verified: u64 = 0;
        match &self.memos[k] {
            Some(e) => {
                have_entry = true;
                e_value = e.value;
                e_changed = e.changed_at;
                e_verified = e.verified_at;
            },
            None => {},
        }
        if have_entry && e_verified == rev {
            proof {
                assert(self.entry_ok(k as int));
                lemma_evolves_refl(*self);
            }
            return Ok(e_value);
        }

        // mark in progress: push onto the cycle guard, note how many
        // computations are now in flight at once
        proof {
            assert(stack@.push(k).no_duplicates()) by {
                let s = stack@.push(k);
                assert forall|i: int, j: int| 0 <= i < j < s.len() implies s[i] != s[j] by {
                    if j < s.len() - 1 {
                        assert(stack@[i] != stack@[j]);
                    } else {
                        assert(stack@[i] != k);
                    }
                }
            }
            lemma_distinct_bounded(stack@.push(k), n as int);
            assert(chain_wf(rules0, stack@.push(k))) by {
                let s = stack@.push(k);
                assert forall|j: int| 0 <= j < s.len() - 1 implies #[trigger] is_edge(
                    rules0,
                    s[j],
                    s[j + 1],
                ) by {
                    if j < s.len() - 2 {
                        assert(s[j] == stack@[j] && s[j + 1] == stack@[j + 1]);
                        assert(is_edge(rules0, stack@[j], stack@[j + 1]));
                    } else {
                        assert(s[j] == stack@.last() && s[j + 1] == k);
                    }
                }
            }
        }
        stack.push(k);
        if (stack.len() as u64) > self.in_flight_peak {
            self.in_flight_peak = stack.len() as u64;
        }
        proof {
            assert(evolves(*old(self), *self));
        }

        // read the query's rule
        let mut children: Vec<Dep> = Vec::new();
        let mut c0: usize = 0;
        while c0 < self.rules[k].children.len()
            invariant
                k < self.rules@.len(),
                c0 <= self.rules@[k as int].children@.len(),
                children@ == self.rules@[k as int].children@.subrange(0, c0 as int),
            decreases self.rules@[k as int].children@.len() - c0,
        {
            let d = self.rules[k].children[c0];
            children.push(d);
            c0 += 1;
            proof {
                assert(children@ =~= self.rules@[k as int].children@.subrange(0, c0 as int));
            }
        }
        proof {
            assert(self.rules_sq() == rules0);
            assert(children@ =~= self.rules@[k as int].children@);
            assert(eval_deps(rules0, cells0, children@.subrange(0, 0), 0nat) == Some(
                Seq::<i64>::empty(),
            )) by {
                assert(children@.subrange(0, 0) =~= Seq::<Dep>::empty());
            }
        }

        // evaluate every dependency, in read order: inputs are read directly,
        // queries recursively, under the extended cycle guard
        let mut vals: Vec<i64> = Vec::new();
        let mut revs: Vec<u64> = Vec::new();
        let mut ci: usize = 0;
        proof {
            assert(vals@ =~= Seq::<i64>::empty());
        }
        while ci < children.len()
            invariant
                self.wf(),
                evolves(*old(self), *self),
                self.rules_sq() == rules0,
                self.cells_sq() == cells0,
                self.memos_sq().len() == old(self).memos_sq().len(),
                stack@ == old(stack)@.push(k),
                stack@.no_duplicates(),
                forall|j: int|
                    0 <= j < stack@.len() ==> (#[trigger] stack@[j] as int) < old(
                        self,
                    ).n_queries(),
                chain_wf(rules0, stack@),
                forall|j: int|
                    0 <= j < stack@.len() ==> self.memo_at(#[trigger] stack@[j] as int) == old(
                        self,
                    ).memo_at(stack@[j] as int),
                forall|j: int|
                    0 <= j < old(stack)@.len() ==> !old(self).verified_now(
                        #[trigger] old(stack)@[j] as int,
                    ),
                (k as int) < old(self).n_queries(),
                !old(self).verified_now(k as int),
                rev == self.rev_spec(),
                n == old(self).n_queries(),
                children@ == rules0[k as int].children@,
                ci <= children@.len(),
                vals@.len() == ci,
                revs@.len() == ci,
                forall|i: int|
                    0 <= i < ci ==> child_done(
                        *self,
                        #[trigger] children@[i],
                        vals@[i],
                        revs@[i],
                    ),
                exists|f: nat|
                    eval_deps(rules0, cells0, children@.subrange(0, ci as int), f) == Some(vals@),
            decreases children@.len() - ci,
        {
            let d = children[ci];
            let ghost mid = *self;
            let ghost vals_pre = vals@;
            let ghost revs_pre = revs@;
            match d {
                Dep::Input(ikey) => {
                    let cv = if ikey < self.cells.len() {
                        self.cells[ikey]
                    } else {
                        None
                    };
                    match cv {
                        Some(c) => {
                            vals.push(c.value);
                            revs.push(c.changed_at);
                            proof {
                                let f = choose|f: nat|
                                    eval_deps(rules0, cells0, children@.subrange(0, ci as int), f)
                                        == Some(vals_pre);
                                assert(cell_at(cells0, ikey as int) == Some(c));
                                assert(eval_dep(rules0, cells0, d, f) == Some(c.value));
                                lemma_eval_deps_snoc(
                                    rules0,
                                    cells0,
                                    children@.subrange(0, ci as int),
                                    d,
                                    f,
                                );
                                assert(children@.subrange(0, ci as int).push(d) =~= children@.subrange(
                                    0,
                                    ci + 1,
                                ));
                                assert(eval_deps(rules0, cells0, children@.subrange(0, ci + 1), f)
                                    == Some(vals@));
                                assert(child_done(*self, d, c.value, c.changed_at));
                            }
                        },
                        None => {
                            let _ = stack.pop();
                            proof {
                                assert(stack@ =~= old(stack)@);
                                assert(cell_at(cells0, ikey as int) is None);
                                assert(rules0[k as int].children@[ci as int] == Dep::Input(ikey));
                                lemma_dep_error_propagates(rules0, cells0, k, ci as int);
                            }
                            return Err(EvalError::MissingInput { input: ikey });
                        },
                    }
                },
                Dep::Query(qk) => {
                    proof {
                        assert(is_edge(rules0, k, qk)) by {
                            assert(rules0[k as int].children@[ci as int] == Dep::Query(qk));
                        }
                        assert(stack@.last() == k);
                        lemma_distinct_bounded(stack@, n as int);
                        assert forall|j: int|
                            0 <= j < stack@.len() implies !self.verified_now(
                            #[trigger] stack@[j] as int,
                        ) by {
                            assert(self.memo_at(stack@[j] as int) == old(self).memo_at(
                                stack@[j] as int,
                            ));
                            if j < stack@.len() - 1 {
                                assert(stack@[j] == old(stack)@[j]);
                                assert(!old(self).verified_now(old(stack)@[j] as int));
                            } else {
                                assert(stack@[j] == k);
                            }
                        }
                    }
                    let res = self.evaluate_at(qk, stack);
                    proof {
                        assert(mid.rules_sq() == rules0 && mid.cells_sq() == cells0);
                        lemma_evolves_trans(*old(self), mid, *self);
                    }
                    match res {
                        Ok(v) => {
                            proof {
                                assert(self.verified_now(qk as int));
                                assert((qk as int) < self.memos_sq().len());
                                assert(eval_to(rules0, cells0, qk as int, v));
                            }
                            let qch: u64 = match &self.memos[qk] {
                                Some(e) => e.changed_at,
                                None => 0,
                            };
                            vals.push(v);
                            revs.push(qch);
                            proof {
                                // the child is verified now; its entry is what
                                // we recorded
                                assert(child_done(*self, d, v, qch));
                                // earlier children stay done: they are frozen
                                assert forall|i: int| 0 <= i < ci implies child_done(
                                    *self,
                                    #[trigger] children@[i],
                                    vals@[i],
                                    revs@[i],
                                ) by {
                                    assert(child_done(mid, children@[i], vals_pre[i], revs_pre[i]));
                                    lemma_child_done_preserved(
                                        mid,
                                        *self,
                                        children@[i],
                                        vals_pre[i],
                                        revs_pre[i],
                                    );
                                    assert(vals@[i] == vals_pre[i] && revs@[i] == revs_pre[i]);
                                }
                                // extend the fuel witness by this child's
                                let f1 = choose|f: nat|
                                    eval_deps(rules0, cells0, children@.subrange(0, ci as int), f)
                                        == Some(vals_pre);
                                let f2 = choose|f: nat|
                                    eval_val(rules0, cells0, qk as int, f) == Some(v);
                                let fm: nat = if f1 >= f2 {
                                    f1
                                } else {
                                    f2
                                };
                                lemma_eval_deps_mono(
                                    rules0,
                                    cells0,
                                    children@.subrange(0, ci as int),
                                    f1,
                                    fm,
                                );
                                lemma_eval_val_mono(rules0, cells0, qk as int, f2, fm);
                                assert(eval_dep(rules0, cells0, d, fm) == Some(v));
                                lemma_eval_deps_snoc(
                                    rules0,
                                    cells0,
                                    children@.subrange(0, ci as int),
                                    d,
                                    fm,
                                );
                                assert(children@.subrange(0, ci as int).push(d) =~= children@.subrange(
                                    0,
                                    ci + 1,
                                ));
                                assert(eval_deps(rules0, cells0, children@.subrange(0, ci + 1), fm)
                                    == Some(vals@));
                            }
                        },
                        Err(er) => {
                            let _ = stack.pop();
                            proof {
                                assert(stack@ =~= old(stack)@);
                                assert(rules0[k as int].children@[ci as int] == Dep::Query(qk));
                                assert(forall|v: i64| !eval_to(rules0, cells0, qk as int, v));
                                lemma_dep_error_propagates(rules0, cells0, k, ci as int);
                            }
                            return Err(er);
                        },
                    }
                },
            }
            ci += 1;
        }
        let _ = stack.pop();
        proof {
            assert(stack@ =~= old(stack)@);
            assert(children@.subrange(0, children@.len() as int) =~= children@);
        }

        let ghost mid2 = *self;
        let res = self.finish(k, have_entry, e_value, e_changed, e_verified, &children, &vals, &revs);
        proof {
            assert(mid2.rules_sq() == rules0 && mid2.cells_sq() == cells0);
            lemma_evolves_trans(*old(self), mid2, *self);
            assert forall|j: int|
                0 <= j < old(stack)@.len() implies self.memo_at(
                #[trigger] old(stack)@[j] as int,
            ) == old(self).memo_at(old(stack)@[j] as int) by {
                assert(old(stack)@[j] != k);
                assert(self.memo_at(old(stack)@[j] as int) == mid2.memo_at(old(stack)@[j] as int));
            }
        }
        res
    }

    /// Evaluates a whole batch of queries against one consistent view of the
    /// database: no input write can interleave, so every answer reflects the
    /// same revision and the same inputs — the read consistency that a
    /// fan-out of independent consumers needs. Queries the batch shares,
    /// directly or through common dependencies, compute once and everyone
    /// receives that one result.
    pub fn evaluate_many(&mut self, roots: &Vec<usize>) -> (rs: Vec<Result<i64, EvalError>>)
        requires
            old(self).wf(),
        ensures
            final(self).wf(),
            evolves(*old(self), *final(self)),
            rs@.len() == roots@.len(),
            forall|t: int|
                0 <= t < roots@.len() ==> eval_outcome_ok(
                    *old(self),
                    *final(self),
                    roots@[t],
                    #[trigger] rs@[t],
                ),
    {
        let mut rs: Vec<Result<i64, EvalError>> = Vec::new();
        let mut i: usize = 0;
        proof {
            lemma_evolves_refl(*old(self));
        }
        while i < roots.len()
            invariant
                old(self).wf(),
                self.wf(),
                evolves(*old(self), *self),
                0 <= i <= roots@.len(),
                rs@.len() == i,
                forall|t: int|
                    0 <= t < i ==> eval_outcome_ok(*old(self), *self, roots@[t], #[trigger] rs@[t]),
            decreases roots@.len() - i,
        {
            let ghost mid = *self;
            let r = self.evaluate(roots[i]);
            proof {
                lemma_evolves_trans(*old(self), mid, *self);
                assert(mid.rules_sq() == old(self).rules_sq());
                assert(mid.cells_sq() == old(self).cells_sq());
                assert forall|t: int| 0 <= t < i implies eval_outcome_ok(
                    *old(self),
                    *self,
                    roots@[t],
                    #[trigger] rs@[t],
                ) by {
                    assert(eval_outcome_ok(*old(self), mid, roots@[t], rs@[t]));
                    match rs@[t] {
                        Ok(_) => {
                            assert(mid.verified_now(roots@[t] as int));
                            assert(self.memo_at(roots@[t] as int) == mid.memo_at(
                                roots@[t] as int,
                            ));
                        },
                        Err(_) => {},
                    }
                }
            }
            rs.push(r);
            i += 1;
        }
        rs
    }

    /// Evaluates a query: looks its entry up, validates it transitively
    /// against the recorded dependencies, and recomputes it only where a
    /// dependency's value truly changed. Returns the exact value the query
    /// denotes under the current inputs, or the precise reason none exists;
    /// errors are never cached. Within one revision a query body runs at most
    /// once, and a query already verified at the current revision is answered
    /// without touching anything.
    pub fn evaluate(&mut self, k: usize) -> (r: Result<i64, EvalError>)
        requires
            old(self).wf(),
        ensures
            final(self).wf(),
            evolves(*old(self), *final(self)),
            eval_outcome_ok(*old(self), *final(self), k, r),
            old(self).verified_now(k as int) ==> *final(self) == *old(self) && r == Ok::<i64, EvalError>(
                old(self).memo_at(k as int).unwrap().value,
            ),
            (r is Ok) <==> exists|v: i64|
                eval_to(old(self).rules_sq(), old(self).cells_sq(), k as int, v),
    {
        let mut guard: Vec<usize> = Vec::new();
        let res = self.evaluate_at(k, &mut guard);
        proof {
            match res {
                Ok(v) => {
                    assert(eval_to(old(self).rules_sq(), old(self).cells_sq(), k as int, v));
                },
                Err(_) => {},
            }
        }
        res
    }
}

} // verus!
