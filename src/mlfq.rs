use vstd::prelude::*;

verus! {

/// The clock period at which `update_time` boosts every process to level 0.
pub const BOOST_INTERVAL: u32 = 100;

/// A unit of schedulable work.
#[derive(Clone, Copy, Debug, PartialEq, Eq, Structural)]
pub struct Process {
    pub id: u32,
    /// The level of the queue that holds the process (0 is the highest).
    pub priority: usize,
    pub remaining_time: u32,
    pub total_executed_time: u32,
}

impl Process {
    /// The total work of the process: what is left plus what has run.
    pub open spec fn work(self) -> int {
        self.remaining_time + self.total_executed_time
    }

    /// The same process, placed at `level`.
    pub open spec fn at_level(self, level: int) -> Process {
        Process { priority: level as usize, ..self }
    }
}

/// The level at which a process that asks for `priority` is admitted.
pub open spec fn admission_level(priority: int, num_levels: int) -> int {
    if priority < num_levels { priority } else { num_levels - 1 }
}

/// Every process in `qs` carries the index of the queue that holds it.
pub open spec fn priorities_match(qs: Seq<Seq<Process>>) -> bool {
    forall|l: int, k: int|
        0 <= l < qs.len() && 0 <= k < qs[l].len() ==> #[trigger] qs[l][k].priority == l
}

/// No two queued processes, wherever they stand, share an id.
pub open spec fn ids_distinct(qs: Seq<Seq<Process>>) -> bool {
    forall|l1: int, k1: int, l2: int, k2: int|
        0 <= l1 < qs.len() && 0 <= k1 < qs[l1].len() && 0 <= l2 < qs.len() && 0 <= k2 < qs[l2].len()
            && (l1 != l2 || k1 != k2) ==> #[trigger] qs[l1][k1].id != #[trigger] qs[l2][k2].id
}

/// The level a process moves to after being preempted at `level`: one lower,
/// or the same at the lowest level.
pub open spec fn demotion_level(level: int, num_levels: int) -> int {
    if level + 1 < num_levels { level + 1 } else { level }
}

/// The process after running a full `quantum` without finishing, placed at `level`.
pub open spec fn preempted(p: Process, quantum: u32, level: int) -> Process {
    Process {
        priority: level as usize,
        remaining_time: (p.remaining_time - quantum) as u32,
        total_executed_time: (p.total_executed_time + quantum) as u32,
        ..p
    }
}

/// The process after running to completion.
pub open spec fn completed(p: Process) -> Process {
    Process {
        remaining_time: 0,
        total_executed_time: (p.total_executed_time + p.remaining_time) as u32,
        ..p
    }
}

/// The time that the next process of queue `q` runs for, under `quantum`.
pub open spec fn run_length(q: Seq<Process>, quantum: u32) -> nat {
    if q.len() == 0 {
        0
    } else if q[0].remaining_time > quantum {
        quantum as nat
    } else {
        q[0].remaining_time as nat
    }
}

/// The queue `q` with every process moved to level 0, in the same order.
pub open spec fn raised(q: Seq<Process>) -> Seq<Process> {
    q.map_values(|p: Process| p.at_level(0))
}

/// The processes of levels `1..upto` of `qs`, level by level and each level
/// in queue order, all moved to level 0.
pub open spec fn gathered(qs: Seq<Seq<Process>>, upto: int) -> Seq<Process>
    decreases upto,
{
    if upto <= 1 {
        Seq::empty()
    } else {
        gathered(qs, upto - 1) + raised(qs[upto - 1])
    }
}

/// The queues after a priority boost: level 0 keeps its processes and receives
/// those of every other level after them; the other levels are empty.
pub open spec fn boosted(qs: Seq<Seq<Process>>) -> Seq<Seq<Process>> {
    Seq::new(
        qs.len(),
        |l: int|
            if l == 0 {
                qs[0] + gathered(qs, qs.len() as int)
            } else {
                Seq::empty()
            },
    )
}

/// Every process of levels `1..upto` appears in `gathered(qs, upto)` at level 0.
pub proof fn lemma_gathered_contains(qs: Seq<Seq<Process>>, upto: int, l: int, k: int)
    requires
        1 <= l < upto <= qs.len(),
        0 <= k < qs[l].len(),
    ensures
        gathered(qs, upto).contains(qs[l][k].at_level(0)),
    decreases upto,
{
    let g = gathered(qs, upto);
    if l == upto - 1 {
        let prev = gathered(qs, upto - 1);
        assert(g[prev.len() + k] == qs[l][k].at_level(0));
    } else {
        lemma_gathered_contains(qs, upto - 1, l, k);
        let prev = gathered(qs, upto - 1);
        let j = choose|j: int| 0 <= j < prev.len() && #[trigger] prev[j] == qs[l][k].at_level(0);
        assert(g[j] == qs[l][k].at_level(0));
    }
}

/// Levels `1..upto` being empty, nothing is gathered from them.
proof fn lemma_gathered_empty(qs: Seq<Seq<Process>>, upto: int)
    requires
        upto <= qs.len(),
        forall|l: int| 1 <= l < upto ==> #[trigger] qs[l].len() == 0,
    ensures
        gathered(qs, upto) == Seq::<Process>::empty(),
    decreases upto,
{
    if upto > 1 {
        lemma_gathered_empty(qs, upto - 1);
        assert(raised(qs[upto - 1]) =~= Seq::<Process>::empty());
        assert(gathered(qs, upto) =~= Seq::<Process>::empty());
    }
}

/// A boost right after a boost changes nothing: the queues are boosted at
/// most once, however many times the boost condition is met in a row.
pub proof fn lemma_boost_idempotent(qs: Seq<Seq<Process>>)
    requires
        qs.len() >= 1,
    ensures
        boosted(boosted(qs)) == boosted(qs),
{
    let b = boosted(qs);
    lemma_gathered_empty(b, b.len() as int);
    assert(b[0] + gathered(b, b.len() as int) =~= b[0]);
    assert forall|l: int| 0 <= l < b.len() implies #[trigger] boosted(b)[l] =~= b[l] by {}
    assert(boosted(b) =~= b);
}

/// What one execution step did.
#[derive(Clone, Copy, Debug, PartialEq, Eq, Structural)]
pub enum StepOutcome {
    /// The queue was empty: nothing ran.
    Idle,
    /// The process ran a full quantum and was queued again, as given here.
    Preempted(Process),
    /// The process finished and left the scheduler, as given here.
    Completed(Process),
}

/// Why an engine could not be built.
#[derive(Clone, Copy, Debug, PartialEq, Eq, Structural)]
pub enum ConfigError {
    /// There are no levels, or the quantum table does not have one entry per level.
    InvalidConfiguration,
}

/// The scheduler: one FIFO queue per level, a quantum per level and a clock.
pub struct MLFQ {
    queues: Vec<Vec<Process>>,
    num_levels: usize,
    time_quanta: Vec<u32>,
    current_time: u32,
}

impl MLFQ {
    /// The contents of the queues, level by level, each head first.
    pub closed spec fn levels(&self) -> Seq<Seq<Process>> {
        Seq::new(self.queues@.len(), |l: int| self.queues@[l]@)
    }

    /// The quantum table.
    pub closed spec fn quanta(&self) -> Seq<u32> {
        self.time_quanta@
    }

    /// The simulated clock.
    pub closed spec fn clock(&self) -> nat {
        self.current_time as nat
    }

    /// The number of levels.
    pub closed spec fn level_count(&self) -> nat {
        self.num_levels as nat
    }

    /// At least one level, one queue and one quantum per level, a clock that
    /// fits in `u32`, and every
    /// queued process carries the level of its queue.
    pub open spec fn wf(&self) -> bool {
        &&& self.level_count() >= 1
        &&& self.clock() <= u32::MAX
        &&& self.levels().len() == self.level_count()
        &&& self.quanta().len() == self.level_count()
        &&& priorities_match(self.levels())
    }

    /// Builds an engine with `num_levels` empty queues and the given quanta.
    pub fn new(num_levels: usize, time_quanta: Vec<u32>) -> (r: MLFQ)
        requires
            num_levels >= 1,
            time_quanta@.len() == num_levels,
        ensures
            r.wf(),
            r.level_count() == num_levels,
            r.quanta() == time_quanta@,
            r.clock() == 0,
            forall|l: int| 0 <= l < num_levels ==> #[trigger] r.levels()[l].len() == 0,
    {
        let mut queues: Vec<Vec<Process>> = Vec::new();
        let mut i: usize = 0;
        while i < num_levels
            invariant
                i <= num_levels,
                queues@.len() == i,
                forall|l: int| 0 <= l < i ==> #[trigger] queues@[l]@.len() == 0,
            decreases num_levels - i,
        {
            queues.push(Vec::new());
            i += 1;
        }
        MLFQ { queues, num_levels, time_quanta, current_time: 0 }
    }

    /// Appends `process` to the queue of its priority, lowered to the last
    /// level where it lies beyond it; the process records the level it got.
    pub fn add_process(&mut self, process: Process)
        requires
            old(self).wf(),
        ensures
            final(self).wf(),
            final(self).level_count() == old(self).level_count(),
            final(self).quanta() == old(self).quanta(),
            final(self).clock() == old(self).clock(),
            ({
                let l = admission_level(process.priority as int, old(self).level_count() as int);
                final(self).levels() == old(self).levels().update(
                    l,
                    old(self).levels()[l].push(process.at_level(l)),
                )
            }),
            process.priority >= old(self).level_count() ==> final(self).levels()[old(self).level_count()
                - 1].last() == process.at_level(old(self).level_count() - 1),
    {
        let ghost qs = self.levels();
        let mut process = process;
        let mut priority: usize = process.priority;
        if priority > self.num_levels - 1 {
            priority = self.num_levels - 1;
        }
        process.priority = priority;
        self.queues[priority].push(process);
        proof {
            let q1 = qs.update(priority as int, qs[priority as int].push(process));
            assert(self.levels() =~= q1);
            assert forall|l: int, k: int|
                0 <= l < q1.len() && 0 <= k < q1[l].len() implies #[trigger] q1[l][k].priority == l by {
                if l != priority as int {
                    assert(q1[l] == qs[l]);
                } else if k < qs[l].len() {
                    assert(q1[l][k] == qs[l][k]);
                }
            }
        }
    }

    /// Runs the process at the head of queue `queue_index` for up to that
    /// level's quantum. A process that does not finish is demoted one level
    /// (or stays at the lowest level); one that finishes leaves the queues.
    /// An empty queue is left as it is.
    pub fn execute_process(&mut self, queue_index: usize) -> (r: StepOutcome)
        requires
            old(self).wf(),
            queue_index < old(self).level_count(),
            old(self).clock() + run_length(
                old(self).levels()[queue_index as int],
                old(self).quanta()[queue_index as int],
            ) <= u32::MAX,
            old(self).levels()[queue_index as int].len() > 0 ==>
                old(self).levels()[queue_index as int][0].total_executed_time + run_length(
                    old(self).levels()[queue_index as int],
                    old(self).quanta()[queue_index as int],
                ) <= u32::MAX,
        ensures
            final(self).wf(),
            final(self).level_count() == old(self).level_count(),
            final(self).quanta() == old(self).quanta(),
            final(self).clock() == old(self).clock() + run_length(
                old(self).levels()[queue_index as int],
                old(self).quanta()[queue_index as int],
            ),
            ({
                let qi = queue_index as int;
                let n = old(self).level_count() as int;
                let q = old(self).levels()[qi];
                let quantum = old(self).quanta()[qi];
                let dest = demotion_level(qi, n);
                if q.len() == 0 {
                    &&& r == StepOutcome::Idle
                    &&& final(self).levels() == old(self).levels()
                } else if q[0].remaining_time > quantum {
                    let p = preempted(q[0], quantum, dest);
                    &&& r == StepOutcome::Preempted(p)
                    &&& final(self).levels() == old(self).levels().update(qi, q.drop_first()).update(
                        dest,
                        old(self).levels().update(qi, q.drop_first())[dest].push(p),
                    )
                } else {
                    &&& r == StepOutcome::Completed(completed(q[0]))
                    &&& final(self).levels() == old(self).levels().update(qi, q.drop_first())
                }
            }),
            // the process that ran keeps its identity and its total work
            r matches StepOutcome::Preempted(p) ==> p.id == old(self).levels()[queue_index as int][0].id
                && p.work() == old(self).levels()[queue_index as int][0].work(),
            r matches StepOutcome::Completed(p) ==> p.id == old(self).levels()[queue_index as int][0].id
                && p.work() == old(self).levels()[queue_index as int][0].work(),
            // a preempted process moves to a lower level, or stays at the lowest
            r matches StepOutcome::Preempted(p) ==> {
                &&& (p.priority > queue_index || (queue_index + 1 == old(self).level_count()
                    && p.priority == queue_index))
                &&& p.priority < final(self).level_count()
                &&& final(self).levels()[p.priority as int].last() == p
            },
            r matches StepOutcome::Preempted(p) ==> p.remaining_time > 0,
            // a finished process is in no queue: only its queue lost its head
            r matches StepOutcome::Completed(p) ==> {
                &&& p.remaining_time == 0
                &&& ids_distinct(old(self).levels()) ==> forall|l: int, k: int|
                    0 <= l < final(self).levels().len() && 0 <= k < final(self).levels()[l].len()
                        ==> #[trigger] final(self).levels()[l][k].id != p.id
                &&& final(self).levels() == old(self).levels().update(
                    queue_index as int,
                    old(self).levels()[queue_index as int].drop_first(),
                )
            },
    {
        let ghost qs = self.levels();
        let time_quantum = self.time_quanta[queue_index];
        if self.queues[queue_index].is_empty() {
            return StepOutcome::Idle;
        }
        let mut process = self.queues[queue_index].remove(0);
        if process.remaining_time > time_quantum {
            self.current_time = self.current_time + time_quantum;
            process.total_executed_time = process.total_executed_time + time_quantum;
            process.remaining_time = process.remaining_time - time_quantum;
            let dest: usize = if queue_index + 1 < self.num_levels {
                queue_index + 1
            } else {
                queue_index
            };
            process.priority = dest;
            self.queues[dest].push(process);
            proof {
                let q1 = qs.update(queue_index as int, qs[queue_index as int].drop_first());
                let q2 = q1.update(dest as int, q1[dest as int].push(process));
                assert(self.levels() =~= q2);
                assert forall|l: int, k: int|
                    0 <= l < q2.len() && 0 <= k < q2[l].len() implies #[trigger] q2[l][k].priority == l by {
                    if l != queue_index as int && l != dest as int {
                        assert(q2[l] == qs[l]);
                    } else if l == dest as int && k == q2[l].len() - 1 {
                    } else if l == queue_index as int && l != dest as int {
                        assert(q2[l][k] == qs[l][k + 1]);
                    } else if l == dest as int && l != queue_index as int {
                        assert(q2[l][k] == qs[l][k]);
                    } else {
                        assert(q2[l][k] == qs[l][k + 1]);
                    }
                }
            }
            StepOutcome::Preempted(process)
        } else {
            self.current_time = self.current_time + process.remaining_time;
            process.total_executed_time = process.total_executed_time + process.remaining_time;
            process.remaining_time = 0;
            proof {
                let q1 = qs.update(queue_index as int, qs[queue_index as int].drop_first());
                assert(self.levels() =~= q1);
                assert forall|l: int, k: int|
                    0 <= l < q1.len() && 0 <= k < q1[l].len() implies #[trigger] q1[l][k].priority == l by {
                    if l == queue_index as int {
                        assert(q1[l][k] == qs[l][k + 1]);
                    } else {
                        assert(q1[l] == qs[l]);
                    }
                }
                if ids_distinct(qs) {
                    let head = qs[queue_index as int][0];
                    assert forall|l: int, k: int|
                        0 <= l < q1.len() && 0 <= k < q1[l].len() implies #[trigger] q1[l][k].id
                        != process.id by {
                        if l == queue_index as int {
                            assert(q1[l][k] == qs[l][k + 1]);
                            assert(qs[l][k + 1].id != head.id);
                        } else {
                            assert(q1[l] == qs[l]);
                            assert(qs[l][k].id != head.id);
                        }
                    }
                }
            }
            StepOutcome::Completed(process)
        }
    }

    /// Moves every process of levels `1..num_levels` to the tail of queue 0,
    /// level by level in ascending order and in queue order within a level,
    /// setting its priority to 0. Queue 0's own processes stay ahead of them.
    pub fn priority_boost(&mut self)
        requires
            old(self).wf(),
        ensures
            final(self).wf(),
            final(self).level_count() == old(self).level_count(),
            final(self).quanta() == old(self).quanta(),
            final(self).clock() == old(self).clock(),
            final(self).levels() == boosted(old(self).levels()),
            forall|l: int|
                1 <= l < final(self).level_count() ==> #[trigger] final(self).levels()[l].len() == 0,
            forall|l: int, k: int|
                1 <= l < old(self).level_count() && 0 <= k < old(self).levels()[l].len()
                    ==> final(self).levels()[0].contains(#[trigger] old(self).levels()[l][k].at_level(0)),
    {
        let ghost qs = self.levels();
        let n = self.num_levels;
        let mut level: usize = 1;
        while level < n
            invariant
                self.wf(),
                1 <= level <= n,
                n == self.num_levels,
                n == qs.len(),
                self.quanta() == old(self).quanta(),
                self.clock() == old(self).clock(),
                self.levels()[0] == qs[0] + gathered(qs, level as int),
                forall|l: int| 1 <= l < level ==> #[trigger] self.levels()[l].len() == 0,
                forall|l: int| level <= l < n ==> #[trigger] self.levels()[l] == qs[l],
            decreases n - level,
        {
            let ghost before_swap = self.levels();
            let mut moved: Vec<Process> = Vec::new();
            std::mem::swap(&mut moved, &mut self.queues[level]);
            proof {
                assert(moved@ == before_swap[level as int]);
                assert(self.levels() =~= before_swap.update(level as int, Seq::empty()));
                assert(priorities_match(self.levels())) by {
                    assert forall|l: int, k: int|
                        0 <= l < self.levels().len() && 0 <= k < self.levels()[l].len()
                        implies #[trigger] self.levels()[l][k].priority == l by {
                        assert(self.levels()[l] == before_swap[l]);
                    }
                }
            }
            let ghost base = self.levels()[0];
            let mut i: usize = 0;
            while i < moved.len()
                invariant
                    self.wf(),
                    1 <= level < n,
                    n == self.num_levels,
                    n == qs.len(),
                    moved@ == qs[level as int],
                    i <= moved@.len(),
                    self.quanta() == old(self).quanta(),
                    self.clock() == old(self).clock(),
                    base == qs[0] + gathered(qs, level as int),
                    self.levels()[0] == base + raised(moved@.take(i as int)),
                    forall|l: int| 1 <= l <= level ==> #[trigger] self.levels()[l].len() == 0,
                    forall|l: int| level < l < n ==> #[trigger] self.levels()[l] == qs[l],
                decreases moved@.len() - i,
            {
                let ghost before = self.levels();
                let mut process = moved[i];
                process.priority = 0;
                self.queues[0].push(process);
                proof {
                    assert(self.levels() =~= before.update(0, before[0].push(process)));
                    assert(raised(moved@.take(i + 1)) =~= raised(moved@.take(i as int)).push(process));
                    assert forall|l: int, k: int|
                        0 <= l < self.levels().len() && 0 <= k < self.levels()[l].len()
                        implies #[trigger] self.levels()[l][k].priority == l by {
                        if l == 0 && k < before[0].len() {
                            assert(self.levels()[l][k] == before[l][k]);
                        }
                    }
                }
                i += 1;
            }
            proof {
                assert(moved@.take(moved@.len() as int) =~= moved@);
                assert(self.levels()[0] =~= qs[0] + gathered(qs, level + 1));
            }
            level += 1;
        }
        proof {
            assert forall|l: int| 0 <= l < qs.len() implies #[trigger] self.levels()[l] =~= boosted(qs)[l] by {}
            assert(self.levels() =~= boosted(qs));
            assert forall|l: int, k: int|
                1 <= l < qs.len() && 0 <= k < qs[l].len()
                implies self.levels()[0].contains(#[trigger] qs[l][k].at_level(0)) by {
                lemma_gathered_contains(qs, qs.len() as int, l, k);
                let g = gathered(qs, qs.len() as int);
                let j = choose|j: int| 0 <= j < g.len() && #[trigger] g[j] == qs[l][k].at_level(0);
                assert(self.levels()[0][qs[0].len() + j] == qs[l][k].at_level(0));
            }
        }
    }

    /// Advances the clock by `elapsed_time`, then boosts every process to
    /// level 0 if the clock now stands on a nonzero multiple of `BOOST_INTERVAL`.
    pub fn update_time(&mut self, elapsed_time: u32)
        requires
            old(self).wf(),
            old(self).clock() + elapsed_time <= u32::MAX,
        ensures
            final(self).wf(),
            final(self).level_count() == old(self).level_count(),
            final(self).quanta() == old(self).quanta(),
            final(self).clock() == old(self).clock() + elapsed_time,
            final(self).clock() != 0 && final(self).clock() % (BOOST_INTERVAL as nat) == 0
                ==> final(self).levels() == boosted(old(self).levels()),
            final(self).clock() == 0 || final(self).clock() % (BOOST_INTERVAL as nat) != 0
                ==> final(self).levels() == old(self).levels(),
    {
        self.current_time = self.current_time + elapsed_time;
        if self.current_time != 0 && self.current_time % BOOST_INTERVAL == 0 {
            self.priority_boost();
        }
    }

    /// The queue of `level`, head first.
    pub fn queue(&self, level: usize) -> (r: &Vec<Process>)
        requires
            self.wf(),
            level < self.level_count(),
        ensures
            r@ == self.levels()[level as int],
    {
        &self.queues[level]
    }

    /// The number of levels.
    pub fn num_levels(&self) -> (r: usize)
        ensures
            r == self.level_count(),
    {
        self.num_levels
    }

    /// The quantum of `level`.
    pub fn time_quantum(&self, level: usize) -> (r: u32)
        requires
            self.wf(),
            level < self.level_count(),
        ensures
            r == self.quanta()[level as int],
    {
        self.time_quanta[level]
    }

    /// The simulated clock.
    pub fn current_time(&self) -> (r: u32)
        ensures
            r == self.clock(),
    {
        self.current_time
    }

    /// Builds an engine, or reports a configuration that has no levels or
    /// whose quantum table does not have one entry per level.
    pub fn try_new(num_levels: usize, time_quanta: Vec<u32>) -> (r: Result<MLFQ, ConfigError>)
        ensures
            r is Ok <==> (num_levels >= 1 && time_quanta@.len() == num_levels),
            r is Err ==> r == Err::<MLFQ, ConfigError>(ConfigError::InvalidConfiguration),
            r matches Ok(m) ==> {
                &&& m.wf()
                &&& m.level_count() == num_levels
                &&& m.quanta() == time_quanta@
                &&& m.clock() == 0
                &&& forall|l: int| 0 <= l < num_levels ==> #[trigger] m.levels()[l].len() == 0
            },
    {
        if num_levels == 0 || time_quanta.len() != num_levels {
            Err(ConfigError::InvalidConfiguration)
        } else {
            Ok(MLFQ::new(num_levels, time_quanta))
        }
    }
}

} // verus!
