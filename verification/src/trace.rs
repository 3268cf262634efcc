//! The trace builder: deterministically lowers (path, graph, nonce) into a
//! rectangular table of field elements, one row per step. Row `i` holds
//! the nonce, the node before step `i`, the stack accumulator, that node's
//! padded successor list, a validity flag, and the opcode-class flags.

use vstd::prelude::*;

use crate::Error;
use crate::cfg::{Cfg, lemma_succ_of_cases, succ_of};
use crate::field::{
    SENTINEL, bool_felt, combine, in_field, reduce, spec_bool_felt, spec_combine, spec_reduce,
};
use crate::path::{ExecutionPath, Step};

verus! {

/// The node where control stands before step `i` executes: the declared
/// start for `i = 0`, else the target of the previous step.
pub open spec fn cur_at(steps: Seq<Step>, start: u64, i: int) -> u64 {
    if i <= 0 {
        start
    } else {
        steps[i - 1].target()
    }
}

/// The pending return-address stack before step `i` executes. A call
/// pushes its return address; a return pops only when it matches.
pub open spec fn stack_at(steps: Seq<Step>, i: int) -> Seq<u64>
    decreases i,
{
    if i <= 0 {
        seq![]
    } else {
        let st = stack_at(steps, i - 1);
        match steps[i - 1] {
            Step::Jump { .. } => st,
            Step::Call { retaddr, .. } => st.push(retaddr),
            Step::Ret { retaddr } => if st.len() > 0 && st.last() == retaddr {
                st.drop_last()
            } else {
                st
            },
        }
    }
}

/// The scalar accumulator summarizing a pending stack: the empty stack is
/// 0, and each pushed address is folded in with the combining function.
pub open spec fn acc_of(st: Seq<u64>) -> u64
    decreases st.len(),
{
    if st.len() == 0 {
        0
    } else {
        spec_combine(acc_of(st.drop_last()), st.last())
    }
}

/// Whether step `i` is locally well-formed: a jump or call target must be
/// a graph successor of the current node, and a return address must match
/// the most recent unmatched call.
pub open spec fn step_ok(cfg: Seq<(u64, Seq<u64>)>, steps: Seq<Step>, start: u64, i: int) -> bool {
    match steps[i] {
        Step::Jump { addr } => succ_of(cfg, cur_at(steps, start, i)).contains(addr),
        Step::Call { addr, .. } => succ_of(cfg, cur_at(steps, start, i)).contains(addr),
        Step::Ret { retaddr } => stack_at(steps, i).len() > 0 && stack_at(steps, i).last()
            == retaddr,
    }
}

/// A successor list padded to the trace's neighbor-column width with the
/// reserved sentinel.
pub open spec fn padded_neighbors(s: Seq<u64>, w: int) -> Seq<u64> {
    Seq::new(w as nat, |j: int| if j < s.len() {
        s[j]
    } else {
        SENTINEL
    })
}

/// Row `i` of the trace.
pub open spec fn spec_row(
    cfg: Seq<(u64, Seq<u64>)>,
    steps: Seq<Step>,
    start: u64,
    nonce: u64,
    w: int,
    i: int,
) -> Seq<u64> {
    let c = cur_at(steps, start, i);
    seq![nonce, c, acc_of(stack_at(steps, i))] + padded_neighbors(succ_of(cfg, c), w) + seq![
        spec_bool_felt(step_ok(cfg, steps, start, i)),
        spec_bool_felt(steps[i] is Ret),
        spec_bool_felt(steps[i] is Call),
    ]
}

/// The execution trace: one row per step, plus the boundary data the
/// padding and the public inputs need.
pub struct Trace {
    /// Neighbor-column count: the graph's maximal out-degree, at least 1.
    pub w: usize,
    /// One row per step, each of width `w + 6`.
    pub rows: Vec<Vec<u64>>,
    /// The node after the last step; equals the declared end node.
    pub end: u64,
    /// The stack accumulator after the last step.
    pub last_stack: u64,
    /// The reduced nonce, constant across all rows.
    pub nonce: u64,
}

impl Trace {
    pub open spec fn width(self) -> int {
        self.w + 6
    }

    pub open spec fn wf(self) -> bool {
        &&& 1 <= self.w
        &&& in_field(self.end)
        &&& in_field(self.last_stack)
        &&& in_field(self.nonce)
        &&& forall|i: int|
            0 <= i < self.rows@.len() ==> (#[trigger] self.rows@[i])@.len() == self.width()
        &&& forall|i: int, j: int|
            0 <= i < self.rows@.len() && 0 <= j < self.rows@[i]@.len() ==> in_field(
                #[trigger] self.rows@[i]@[j],
            )
    }
}

/// Whether the vector carries the value.
fn vec_contains(v: &Vec<u64>, x: u64) -> (r: bool)
    ensures
        r == v@.contains(x),
{
    let n = v.len();
    let mut k: usize = 0;
    while k < n
        invariant
            k <= n,
            n == v@.len(),
            forall|m: int| 0 <= m < k ==> v@[m] != x,
        decreases n - k,
    {
        if v[k] == x {
            return true;
        }
        k = k + 1;
    }
    false
}

/// Builds the trace for a parsed path against a loaded graph. Succeeds
/// exactly when the node reached after the last step is the declared end
/// node; a semantically invalid step still yields its row, with the
/// validity flag cleared, so that the constraint system rejects it.
pub fn build_trace(path: &ExecutionPath, cfg: &Cfg, nonce: u64) -> (r: Result<Trace, Error>)
    requires
        path.wf(),
        cfg.wf(),
        cfg.max_deg + 8 <= usize::MAX,
    ensures
        match r {
            Ok(t) => {
                &&& cur_at(path.steps@, path.start, path.steps@.len() as int) == path.end
                &&& t.wf()
                &&& t.w == if cfg.max_deg == 0 {
                    1int
                } else {
                    cfg.max_deg as int
                }
                &&& t.rows@.len() == path.steps@.len()
                &&& forall|i: int|
                    0 <= i < path.steps@.len() ==> (#[trigger] t.rows@[i])@ == spec_row(
                        cfg.view_entries(),
                        path.steps@,
                        path.start,
                        spec_reduce(nonce),
                        t.w as int,
                        i,
                    )
                &&& t.end == path.end
                &&& t.nonce == spec_reduce(nonce)
                &&& t.last_stack == acc_of(stack_at(path.steps@, path.steps@.len() as int))
            },
            Err(e) => e == Error::StartEndMismatch && cur_at(
                path.steps@,
                path.start,
                path.steps@.len() as int,
            ) != path.end,
        },
{
    let ghost cfgv = cfg.view_entries();
    let ghost steps = path.steps@;
    let ghost start = path.start;
    let d = cfg.max_out_degree();
    let w: usize = if d == 0 {
        1
    } else {
        d
    };
    let nr = reduce(nonce);
    let mut rows: Vec<Vec<u64>> = Vec::new();
    let mut cur = path.start;
    let mut acc: u64 = 0;
    // each pending call: its return address and the accumulator before it
    let mut pending: Vec<(u64, u64)> = Vec::new();
    let n = path.steps.len();
    let mut i: usize = 0;
    while i < n
        invariant
            i <= n,
            n == steps.len(),
            steps == path.steps@,
            start == path.start,
            cfgv == cfg.view_entries(),
            path.wf(),
            cfg.wf(),
            cfg.max_deg <= w,
            1 <= w,
            w + 8 <= usize::MAX + 1,
            w == if cfg.max_deg == 0 {
                1int
            } else {
                cfg.max_deg as int
            },
            nr == spec_reduce(nonce),
            in_field(nr),
            cur == cur_at(steps, start, i as int),
            in_field(cur),
            pending@.map_values(|p: (u64, u64)| p.0) == stack_at(steps, i as int),
            acc == acc_of(stack_at(steps, i as int)),
            in_field(acc),
            forall|j: int|
                0 <= j < pending@.len() ==> (#[trigger] pending@[j]).1 == acc_of(
                    stack_at(steps, i as int).take(j),
                ) && in_field(pending@[j].0) && in_field(pending@[j].1),
            rows@.len() == i,
            forall|j: int|
                0 <= j < i ==> (#[trigger] rows@[j])@ == spec_row(cfgv, steps, start, nr, w as int, j),
            forall|j: int| 0 <= j < i ==> (#[trigger] rows@[j])@.len() == w + 6,
            forall|j: int, m: int|
                0 <= j < i && 0 <= m < rows@[j]@.len() ==> in_field(#[trigger] rows@[j]@[m]),
        decreases n - i,
    {
        let ghost stk = stack_at(steps, i as int);
        let step = path.steps[i];
        proof {
            assert(step.wf());
        }
        let succ = cfg.successors(cur);
        proof {
            lemma_succ_of_cases(cfgv, cur);
            if succ@ != Seq::<u64>::empty() {
                let k = choose|k: int|
                    0 <= k < cfgv.len() && (#[trigger] cfgv[k]).0 == cur && succ_of(cfgv, cur)
                        == cfgv[k].1;
                assert(cfgv[k].1.len() <= cfg.max_deg);
                assert(forall|m: int| 0 <= m < cfgv[k].1.len() ==> in_field(#[trigger] cfgv[k].1[m]));
            }
            assert(succ@.len() <= w);
            assert(forall|m: int| 0 <= m < succ@.len() ==> in_field(#[trigger] succ@[m]));
        }
        let mut row: Vec<u64> = Vec::new();
        row.push(nr);
        row.push(cur);
        row.push(acc);
        let mut j: usize = 0;
        while j < succ.len()
            invariant
                j <= succ@.len(),
                succ@.len() <= w,
                row@.len() == 3 + j,
                row@ == seq![nr, cur, acc] + succ@.take(j as int),
                forall|m: int| 0 <= m < succ@.len() ==> in_field(#[trigger] succ@[m]),
                in_field(nr) && in_field(cur) && in_field(acc),
                forall|m: int| 0 <= m < row@.len() ==> in_field(#[trigger] row@[m]),
            decreases succ@.len() - j,
        {
            row.push(succ[j]);
            proof {
                assert(row@ =~= seq![nr, cur, acc] + succ@.take(j as int + 1));
            }
            j = j + 1;
        }
        proof {
            assert(succ@.take(succ@.len() as int) =~= succ@);
        }
        while row.len() < 3 + w
            invariant
                succ@.len() <= w,
                w + 8 <= usize::MAX + 1,
                3 + succ@.len() <= row@.len() <= 3 + w,
                row@.len() >= 3,
                row@.take(3 + succ@.len() as int) == seq![nr, cur, acc] + succ@,
                forall|m: int| 3 + succ@.len() <= m < row@.len() ==> row@[m] == SENTINEL,
                forall|m: int| 0 <= m < row@.len() ==> in_field(#[trigger] row@[m]),
            decreases 3 + w - row@.len(),
        {
            row.push(SENTINEL);
            proof {
                assert(row@.take(3 + succ@.len() as int) =~= row@.drop_last().take(
                    3 + succ@.len() as int,
                ));
            }
        }
        // decide validity and the opcode flags
        let valid: bool;
        let retf: u64;
        let callf: u64;
        let next_cur: u64;
        match step {
            Step::Jump { addr } => {
                valid = vec_contains(&succ, addr);
                retf = 0;
                callf = 0;
                next_cur = addr;
            },
            Step::Call { addr, retaddr: _ } => {
                valid = vec_contains(&succ, addr);
                retf = 0;
                callf = 1;
                next_cur = addr;
            },
            Step::Ret { retaddr } => {
                valid = pending.len() > 0 && pending[pending.len() - 1].0 == retaddr;
                retf = 1;
                callf = 0;
                next_cur = retaddr;
                proof {
                    if pending@.len() > 0 {
                        assert(stk[stk.len() - 1] == pending@[pending@.len() - 1].0);
                    }
                }
            },
        }
        let ghost base = row@;
        row.push(bool_felt(valid));
        row.push(retf);
        row.push(callf);
        proof {
            let sr = spec_row(cfgv, steps, start, nr, w as int, i as int);
            let pn = padded_neighbors(succ@, w as int);
            assert(valid == step_ok(cfgv, steps, start, i as int));
            assert(row@ == base + seq![spec_bool_felt(valid), retf, callf]);
            assert(base.len() == 3 + w);
            assert(sr.len() == w + 6);
            assert(base.take(3 + succ@.len() as int) == seq![nr, cur, acc] + succ@);
            assert forall|m: int| 0 <= m < w + 6 implies row@[m] == sr[m] by {
                if m < 3 + succ@.len() {
                    assert(row@[m] == base[m]);
                    assert(base[m] == base.take(3 + succ@.len() as int)[m]);
                    assert(base[m] == (seq![nr, cur, acc] + succ@)[m]);
                    if m >= 3 {
                        assert(pn[m - 3] == succ@[m - 3]);
                    }
                } else if m < 3 + w {
                    assert(row@[m] == base[m]);
                    assert(base[m] == SENTINEL);
                    assert(pn[m - 3] == SENTINEL);
                } else {
                    assert(row@[m] == seq![spec_bool_felt(valid), retf, callf][m - 3 - w]);
                }
            }
            assert(row@ =~= sr);
        }
        rows.push(row);
        // advance the machine state
        match step {
            Step::Jump { .. } => {},
            Step::Call { addr: _, retaddr } => {
                pending.push((retaddr, acc));
                acc = combine(acc, retaddr);
            },
            Step::Ret { retaddr: _ } => {
                if valid {
                    let prev = pending[pending.len() - 1].1;
                    pending.pop();
                    proof {
                        assert(stk.drop_last() =~= stk.take(stk.len() - 1));
                    }
                    acc = prev;
                }
            },
        }
        cur = next_cur;
        i = i + 1;
        proof {
            let stk2 = stack_at(steps, i as int);
            match steps[i - 1] {
                Step::Jump { .. } => {
                    assert(stk2 == stk);
                },
                Step::Call { retaddr, .. } => {
                    assert(stk2 == stk.push(retaddr));
                    assert(pending@.map_values(|p: (u64, u64)| p.0) =~= stk2);
                    assert(forall|j: int| 0 <= j < stk.len() ==> stk2.take(j) =~= stk.take(j));
                    assert(stk2.take(stk.len() as int) =~= stk);
                    assert(stk2.drop_last() =~= stk);
                },
                Step::Ret { retaddr } => {
                    if stk.len() > 0 && stk.last() == retaddr {
                        assert(stk2 == stk.drop_last());
                        assert(pending@.map_values(|p: (u64, u64)| p.0) =~= stk2);
                        assert(forall|j: int| 0 <= j < stk2.len() ==> stk2.take(j) =~= stk.take(j));
                    } else {
                        assert(stk2 == stk);
                    }
                },
            }
            assert(cur == cur_at(steps, start, i as int));
        }
    }
    if cur != path.end {
        return Err(Error::StartEndMismatch);
    }
    Ok(Trace { w, rows, end: path.end, last_stack: acc, nonce: nr })
}

/// Where each column of a trace row stands.
pub proof fn lemma_row_cells(
    cfg: Seq<(u64, Seq<u64>)>,
    steps: Seq<Step>,
    start: u64,
    nonce: u64,
    w: int,
    i: int,
)
    requires
        0 <= i < steps.len(),
        succ_of(cfg, cur_at(steps, start, i)).len() <= w,
        1 <= w,
    ensures
        spec_row(cfg, steps, start, nonce, w, i).len() == w + 6,
        spec_row(cfg, steps, start, nonce, w, i)[0] == nonce,
        spec_row(cfg, steps, start, nonce, w, i)[1] == cur_at(steps, start, i),
        spec_row(cfg, steps, start, nonce, w, i)[2] == acc_of(stack_at(steps, i)),
        forall|j: int|
            0 <= j < w ==> spec_row(cfg, steps, start, nonce, w, i)[3 + j] == padded_neighbors(
                succ_of(cfg, cur_at(steps, start, i)),
                w,
            )[j],
        spec_row(cfg, steps, start, nonce, w, i)[3 + w] == spec_bool_felt(
            step_ok(cfg, steps, start, i),
        ),
        spec_row(cfg, steps, start, nonce, w, i)[4 + w] == spec_bool_felt(steps[i] is Ret),
        spec_row(cfg, steps, start, nonce, w, i)[5 + w] == spec_bool_felt(steps[i] is Call),
{
    let c = cur_at(steps, start, i);
    let head = seq![nonce, c, acc_of(stack_at(steps, i))];
    let pn = padded_neighbors(succ_of(cfg, c), w);
    let tail = seq![
        spec_bool_felt(step_ok(cfg, steps, start, i)),
        spec_bool_felt(steps[i] is Ret),
        spec_bool_felt(steps[i] is Call),
    ];
    assert(head.len() == 3 && pn.len() == w && tail.len() == 3);
    assert(spec_row(cfg, steps, start, nonce, w, i) == head + pn + tail);
}

/// Determinism: two traces whose rows both follow the row function of the
/// same graph, path, start node and nonce are identical, row for row.
pub proof fn lemma_build_deterministic(
    cfg: Seq<(u64, Seq<u64>)>,
    steps: Seq<Step>,
    start: u64,
    nonce: u64,
    w: int,
    t1: Trace,
    t2: Trace,
)
    requires
        t1.rows@.len() == steps.len(),
        t2.rows@.len() == steps.len(),
        forall|i: int|
            0 <= i < steps.len() ==> (#[trigger] t1.rows@[i])@ == spec_row(
                cfg,
                steps,
                start,
                nonce,
                w,
                i,
            ),
        forall|i: int|
            0 <= i < steps.len() ==> (#[trigger] t2.rows@[i])@ == spec_row(
                cfg,
                steps,
                start,
                nonce,
                w,
                i,
            ),
    ensures
        t1.rows@.map_values(|r: Vec<u64>| r@) == t2.rows@.map_values(|r: Vec<u64>| r@),
{
    assert(t1.rows@.map_values(|r: Vec<u64>| r@) =~= t2.rows@.map_values(|r: Vec<u64>| r@));
}

/// Edge-membership soundness: a jump or call whose target is not among
/// the graph successors of the current node leaves a cleared validity
/// flag in its row.
pub proof fn lemma_edge_membership(
    cfg: Seq<(u64, Seq<u64>)>,
    steps: Seq<Step>,
    start: u64,
    nonce: u64,
    w: int,
    i: int,
)
    requires
        0 <= i < steps.len(),
        steps[i] is Jump || steps[i] is Call,
        !succ_of(cfg, cur_at(steps, start, i)).contains(steps[i].target()),
        succ_of(cfg, cur_at(steps, start, i)).len() <= w,
        1 <= w,
    ensures
        !step_ok(cfg, steps, start, i),
        spec_row(cfg, steps, start, nonce, w, i)[3 + w] == 0,
{
    lemma_row_cells(cfg, steps, start, nonce, w, i);
}

/// Stack discipline: a return's row carries a set validity flag exactly
/// when the most recent unmatched call pushed that return address — the
/// pending stack is nonempty and its top is the claimed address.
pub proof fn lemma_stack_discipline(
    cfg: Seq<(u64, Seq<u64>)>,
    steps: Seq<Step>,
    start: u64,
    nonce: u64,
    w: int,
    i: int,
    r: u64,
)
    requires
        0 <= i < steps.len(),
        steps[i] == (Step::Ret { retaddr: r }),
        succ_of(cfg, cur_at(steps, start, i)).len() <= w,
        1 <= w,
    ensures
        spec_row(cfg, steps, start, nonce, w, i)[3 + w] == 1 <==> (stack_at(steps, i).len() > 0
            && stack_at(steps, i).last() == r),
        spec_row(cfg, steps, start, nonce, w, i)[3 + w] == 0 <==> !(stack_at(steps, i).len() > 0
            && stack_at(steps, i).last() == r),
{
    lemma_row_cells(cfg, steps, start, nonce, w, i);
}

/// Boundary correctness: the first row's current column is the declared
/// start node.
pub proof fn lemma_boundary_row0(
    cfg: Seq<(u64, Seq<u64>)>,
    steps: Seq<Step>,
    start: u64,
    nonce: u64,
    w: int,
)
    requires
        0 < steps.len(),
        succ_of(cfg, cur_at(steps, start, 0)).len() <= w,
        1 <= w,
    ensures
        spec_row(cfg, steps, start, nonce, w, 0)[1] == start,
{
    lemma_row_cells(cfg, steps, start, nonce, w, 0);
}

} // verus!
