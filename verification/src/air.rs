//! The constraint system: transition constraints that must evaluate to
//! zero between every pair of consecutive rows, and boundary constraints
//! pinning the first and last rows to the public inputs. The padded trace
//! of a valid path is proved to satisfy every constraint.

use vstd::prelude::*;

use crate::field::{
    SENTINEL, combine, felt_mul, felt_sub, in_field, spec_combine, spec_mul, spec_sub,
};
use crate::path::Step;
use crate::trace::{
    Trace, acc_of, cur_at, lemma_row_cells, padded_neighbors, spec_row, stack_at, step_ok,
};
use crate::cfg::succ_of;

verus! {

/// The values the prover and verifier must agree on.
#[derive(Clone, Copy, Debug, PartialEq, Eq, Structural)]
pub struct PublicInputs {
    pub start: u64,
    pub end: u64,
    pub nonce: u64,
}

impl PublicInputs {
    pub open spec fn wf(self) -> bool {
        in_field(self.start) && in_field(self.end) && in_field(self.nonce)
    }
}

/// Product of the differences between the claimed target and each
/// committed neighbor column from `j` on: zero exactly when the target
/// appears among the columns.
pub open spec fn neighbor_prod(a: Seq<u64>, t: u64, w: int, j: int) -> u64
    decreases w - j,
{
    if j >= w {
        1
    } else {
        spec_mul(spec_sub(t, a[3 + j]), neighbor_prod(a, t, w, j + 1))
    }
}

/// The nine transition-constraint evaluations on a row pair; the pair
/// satisfies the constraints exactly when every entry is zero.
pub open spec fn transition_evals(a: Seq<u64>, b: Seq<u64>, w: int) -> Seq<u64> {
    let call = a[5 + w];
    let ret = a[4 + w];
    let valid = a[3 + w];
    seq![
        // the nonce is constant
        spec_sub(b[0], a[0]),
        // the flags and the validity column are boolean
        spec_mul(call, spec_sub(call, 1)),
        spec_mul(ret, spec_sub(ret, 1)),
        spec_mul(valid, spec_sub(valid, 1)),
        // a step is a call or a return, never both
        spec_mul(call, ret),
        // every row is well-formed
        spec_sub(1, valid),
        // a jump or call target is committed among the neighbor columns
        spec_mul(spec_sub(1, ret), neighbor_prod(a, b[1], w, 0)),
        // a return pops: the popped address and the successor accumulator
        // reproduce the current accumulator
        spec_mul(ret, spec_sub(spec_combine(b[2], b[1]), a[2])),
        // only calls and returns may move the accumulator
        spec_mul(spec_sub(spec_sub(1, call), ret), spec_sub(b[2], a[2])),
    ]
}

pub open spec fn transition_holds(a: Seq<u64>, b: Seq<u64>, w: int) -> bool {
    forall|k: int| 0 <= k < 9 ==> transition_evals(a, b, w)[k] == 0
}

/// The boundary and transition constraints over a whole table.
pub open spec fn air_accepts(rows: Seq<Seq<u64>>, w: int, pubs: PublicInputs) -> bool {
    &&& rows.len() >= 1
    &&& forall|i: int| 0 <= i < rows.len() - 1 ==> transition_holds(#[trigger] rows[i], rows[i + 1], w)
    &&& rows[0][0] == pubs.nonce
    &&& rows[0][1] == pubs.start
    &&& rows[0][2] == 0
    &&& rows[rows.len() - 1][1] == pubs.end
}

/// Power-of-two lengths, as the proving backend requires.
pub open spec fn is_pow2(n: int) -> bool
    decreases n,
{
    if n <= 0 {
        false
    } else if n == 1 {
        true
    } else {
        n % 2 == 0 && is_pow2(n / 2)
    }
}

/// The row appended after the last step and repeated as padding: control
/// rests at the end node, which is committed as its own first neighbor so
/// the membership constraint holds between padding rows.
pub open spec fn spec_terminal_row(nonce: u64, end: u64, stack: u64, w: int) -> Seq<u64> {
    seq![nonce, end, stack] + Seq::new(w as nat, |j: int| if j == 0 {
        end
    } else {
        SENTINEL
    }) + seq![1u64, 0u64, 0u64]
}

/// The padded table: the step rows, then terminal rows up to `len`.
pub open spec fn spec_padded_rows(
    cfg: Seq<(u64, Seq<u64>)>,
    steps: Seq<Step>,
    start: u64,
    nonce: u64,
    w: int,
    len: int,
) -> Seq<Seq<u64>> {
    Seq::new(len as nat, |i: int| if i < steps.len() {
        spec_row(cfg, steps, start, nonce, w, i)
    } else {
        spec_terminal_row(
            nonce,
            cur_at(steps, start, steps.len() as int),
            acc_of(stack_at(steps, steps.len() as int)),
            w,
        )
    })
}

/// A trace padded for the proving backend.
pub struct PaddedTrace {
    pub w: usize,
    pub rows: Vec<Vec<u64>>,
}

pub open spec fn rows_view(rows: Seq<Vec<u64>>) -> Seq<Seq<u64>> {
    rows.map_values(|r: Vec<u64>| r@)
}

impl PaddedTrace {
    pub open spec fn wf(self) -> bool {
        &&& 1 <= self.w
        &&& self.rows@.len() >= 8
        &&& is_pow2(self.rows@.len() as int)
        &&& forall|i: int|
            0 <= i < self.rows@.len() ==> (#[trigger] self.rows@[i])@.len() == self.w + 6
        &&& forall|i: int, j: int|
            0 <= i < self.rows@.len() && 0 <= j < self.rows@[i]@.len() ==> in_field(
                #[trigger] self.rows@[i]@[j],
            )
    }
}

fn clone_row(r: &Vec<u64>) -> (c: Vec<u64>)
    ensures
        c@ == r@,
{
    let mut c: Vec<u64> = Vec::new();
    let mut k: usize = 0;
    while k < r.len()
        invariant
            k <= r@.len(),
            c@ == r@.take(k as int),
        decreases r@.len() - k,
    {
        c.push(r[k]);
        proof {
            assert(c@ =~= r@.take(k as int + 1));
        }
        k = k + 1;
    }
    proof {
        assert(r@.take(r@.len() as int) =~= r@);
    }
    c
}

/// Pads a built trace to the backend's shape: a terminal row is appended
/// and repeated until the length is a power of two of at least 8.
pub fn pad_trace(t: &Trace) -> (pt: PaddedTrace)
    requires
        t.wf(),
        t.rows@.len() <= 0x1000_0000,
    ensures
        pt.wf(),
        pt.w == t.w,
        pt.rows@.len() >= t.rows@.len() + 1,
        pt.rows@.len() == 8 || pt.rows@.len() < 2 * (t.rows@.len() + 1),
        forall|i: int| 0 <= i < t.rows@.len() ==> (#[trigger] pt.rows@[i])@ == t.rows@[i]@,
        forall|i: int|
            t.rows@.len() <= i < pt.rows@.len() ==> (#[trigger] pt.rows@[i])@ == spec_terminal_row(
                t.nonce,
                t.end,
                t.last_stack,
                t.w as int,
            ),
{
    let n = t.rows.len();
    let w = t.w;
    // the target length: the least power of two holding all step rows
    // and the terminal row
    proof {
        assert(is_pow2(1));
        assert(is_pow2(2));
        assert(is_pow2(4));
        assert(is_pow2(8));
    }
    let mut len: usize = 8;
    while len < n + 1
        invariant
            8 <= len <= 0x2000_0002,
            n <= 0x1000_0000,
            is_pow2(len as int),
            len == 8 || len < 2 * (n + 1),
        decreases 2 * (n + 1) - len,
    {
        proof {
            assert(is_pow2(2 * len as int)) by {
                assert((2 * len as int) / 2 == len as int);
            }
        }
        len = len * 2;
    }
    // the terminal row
    let mut term: Vec<u64> = Vec::new();
    term.push(t.nonce);
    term.push(t.end);
    term.push(t.last_stack);
    term.push(t.end);
    let mut j: usize = 1;
    while j < w
        invariant
            1 <= j <= w,
            term@.len() == 3 + j,
            term@[0] == t.nonce && term@[1] == t.end && term@[2] == t.last_stack,
            term@[3] == t.end,
            forall|m: int| 4 <= m < term@.len() ==> term@[m] == SENTINEL,
        decreases w - j,
    {
        term.push(SENTINEL);
        j = j + 1;
    }
    term.push(1);
    term.push(0);
    term.push(0);
    proof {
        assert(term@ =~= spec_terminal_row(t.nonce, t.end, t.last_stack, t.w as int));
        assert(in_field(1u64) && in_field(0u64) && in_field(SENTINEL));
        assert(forall|m: int| 0 <= m < term@.len() ==> in_field(#[trigger] term@[m]));
    }
    // assemble
    let mut rows: Vec<Vec<u64>> = Vec::new();
    let mut i: usize = 0;
    while i < n
        invariant
            i <= n,
            n == t.rows@.len(),
            t.wf(),
            rows@.len() == i,
            forall|m: int| 0 <= m < i ==> (#[trigger] rows@[m])@ == t.rows@[m]@,
        decreases n - i,
    {
        let r = clone_row(&t.rows[i]);
        rows.push(r);
        i = i + 1;
    }
    while rows.len() < len
        invariant
            n <= rows@.len() <= len,
            n == t.rows@.len(),
            t.wf(),
            term@ == spec_terminal_row(t.nonce, t.end, t.last_stack, t.w as int),
            forall|m: int| 0 <= m < term@.len() ==> in_field(#[trigger] term@[m]),
            forall|m: int| 0 <= m < n ==> (#[trigger] rows@[m])@ == t.rows@[m]@,
            forall|m: int|
                n <= m < rows@.len() ==> (#[trigger] rows@[m])@ == spec_terminal_row(
                    t.nonce,
                    t.end,
                    t.last_stack,
                    t.w as int,
                ),
        decreases len - rows@.len(),
    {
        let r = clone_row(&term);
        rows.push(r);
    }
    proof {
        assert(term@.len() == w + 6);
        assert(forall|m: int|
            0 <= m < rows@.len() ==> (#[trigger] rows@[m])@.len() == w + 6 && (forall|q: int|
                0 <= q < rows@[m]@.len() ==> in_field(#[trigger] rows@[m]@[q])));
    }
    PaddedTrace { w, rows }
}

/// Evaluates the neighbor-membership product on a row.
fn eval_neighbor_prod(a: &Vec<u64>, t: u64, w: usize) -> (p: u64)
    requires
        a@.len() == w + 6,
        forall|m: int| 0 <= m < a@.len() ==> in_field(#[trigger] a@[m]),
        in_field(t),
    ensures
        p == neighbor_prod(a@, t, w as int, 0),
        in_field(p),
{
    let total = a.len();
    let mut p: u64 = 1;
    let mut k: usize = w;
    while k > 0
        invariant
            k <= w,
            total == w + 6,
            a@.len() == w + 6,
            forall|m: int| 0 <= m < a@.len() ==> in_field(#[trigger] a@[m]),
            in_field(t),
            in_field(p),
            p == neighbor_prod(a@, t, w as int, k as int),
        decreases k,
    {
        k = k - 1;
        let d = felt_sub(t, a[3 + k]);
        p = felt_mul(d, p);
    }
    p
}

/// Evaluates the nine transition constraints on a row pair.
pub fn eval_transitions(a: &Vec<u64>, b: &Vec<u64>, w: usize) -> (out: Vec<u64>)
    requires
        a@.len() == w + 6,
        b@.len() == w + 6,
        forall|m: int| 0 <= m < a@.len() ==> in_field(#[trigger] a@[m]),
        forall|m: int| 0 <= m < b@.len() ==> in_field(#[trigger] b@[m]),
    ensures
        out@ == transition_evals(a@, b@, w as int),
{
    let total = a.len();
    let call = a[total - 1];
    let ret = a[total - 2];
    let valid = a[total - 3];
    proof {
        assert(call == a@[5 + w] && ret == a@[4 + w] && valid == a@[3 + w]);
    }
    let mut out: Vec<u64> = Vec::new();
    out.push(felt_sub(b[0], a[0]));
    out.push(felt_mul(call, felt_sub(call, 1)));
    out.push(felt_mul(ret, felt_sub(ret, 1)));
    out.push(felt_mul(valid, felt_sub(valid, 1)));
    out.push(felt_mul(call, ret));
    out.push(felt_sub(1, valid));
    let np = eval_neighbor_prod(a, b[1], w);
    out.push(felt_mul(felt_sub(1, ret), np));
    out.push(felt_mul(ret, felt_sub(combine(b[2], b[1]), a[2])));
    out.push(felt_mul(felt_sub(felt_sub(1, call), ret), felt_sub(b[2], a[2])));
    proof {
        assert(out@ =~= transition_evals(a@, b@, w as int));
    }
    out
}

/// Checks every boundary and transition constraint on a padded trace, as
/// the proving backend will; a table passes exactly when the constraint
/// system accepts it.
pub fn check_trace(pt: &PaddedTrace, pubs: &PublicInputs) -> (r: bool)
    requires
        pt.wf(),
    ensures
        r == air_accepts(rows_view(pt.rows@), pt.w as int, *pubs),
{
    let ghost rv = rows_view(pt.rows@);
    let n = pt.rows.len();
    proof {
        assert(rv.len() == n);
        assert(forall|i: int| 0 <= i < n ==> rv[i] == (#[trigger] pt.rows@[i])@);
    }
    let first = &pt.rows[0];
    if first[0] != pubs.nonce || first[1] != pubs.start || first[2] != 0 {
        return false;
    }
    let last = &pt.rows[n - 1];
    if last[1] != pubs.end {
        return false;
    }
    let mut i: usize = 0;
    while i + 1 < n
        invariant
            i < n,
            n == pt.rows@.len(),
            pt.wf(),
            rv == rows_view(pt.rows@),
            forall|m: int| 0 <= m < n ==> rv[m] == (#[trigger] pt.rows@[m])@,
            forall|m: int| 0 <= m < i ==> transition_holds(#[trigger] rv[m], rv[m + 1], pt.w as int),
        decreases n - i,
    {
        let evals = eval_transitions(&pt.rows[i], &pt.rows[i + 1], pt.w);
        let mut k: usize = 0;
        while k < evals.len()
            invariant
                k <= evals@.len(),
                evals@ == transition_evals(rv[i as int], rv[i as int + 1], pt.w as int),
                evals@.len() == 9,
                i + 1 < n,
                n == pt.rows@.len(),
                pt.wf(),
                rv == rows_view(pt.rows@),
                forall|m: int| 0 <= m < n ==> rv[m] == (#[trigger] pt.rows@[m])@,
                forall|m: int| 0 <= m < k ==> evals@[m] == 0,
            decreases evals@.len() - k,
        {
            if evals[k] != 0 {
                proof {
                    assert(!transition_holds(rv[i as int], rv[i as int + 1], pt.w as int));
                }
                return false;
            }
            k = k + 1;
        }
        proof {
            assert(transition_holds(rv[i as int], rv[i as int + 1], pt.w as int));
        }
        i = i + 1;
    }
    true
}

/// A factor of zero annihilates the membership product.
proof fn lemma_neighbor_prod_zero(a: Seq<u64>, t: u64, w: int, j: int, k: int)
    requires
        0 <= j <= k < w,
        spec_sub(t, a[3 + k]) == 0,
    ensures
        neighbor_prod(a, t, w, j) == 0,
    decreases k - j,
{
    if j == k {
        assert(neighbor_prod(a, t, w, j) == spec_mul(0, neighbor_prod(a, t, w, j + 1)));
    } else {
        lemma_neighbor_prod_zero(a, t, w, j + 1, k);
        assert(neighbor_prod(a, t, w, j) == spec_mul(spec_sub(t, a[3 + j]), 0));
    }
}

/// Where each column of a terminal row stands.
proof fn lemma_terminal_cells(nonce: u64, end: u64, stack: u64, w: int)
    requires
        1 <= w,
    ensures
        spec_terminal_row(nonce, end, stack, w).len() == w + 6,
        spec_terminal_row(nonce, end, stack, w)[0] == nonce,
        spec_terminal_row(nonce, end, stack, w)[1] == end,
        spec_terminal_row(nonce, end, stack, w)[2] == stack,
        spec_terminal_row(nonce, end, stack, w)[3] == end,
        spec_terminal_row(nonce, end, stack, w)[3 + w] == 1,
        spec_terminal_row(nonce, end, stack, w)[4 + w] == 0,
        spec_terminal_row(nonce, end, stack, w)[5 + w] == 0,
{
    let head = seq![nonce, end, stack];
    let pn = Seq::new(w as nat, |j: int| if j == 0 {
        end
    } else {
        SENTINEL
    });
    let tail = seq![1u64, 0u64, 0u64];
    assert(head.len() == 3 && pn.len() == w && tail.len() == 3);
    assert(spec_terminal_row(nonce, end, stack, w) == head + pn + tail);
}

/// Completeness of the constraint system: the padded trace built from a
/// path whose every step is well-formed satisfies every transition and
/// boundary constraint against the public inputs (start node, the node
/// the path ends on, and the nonce).
/// Every successor list of the graph fits the neighbor-column width.
proof fn lemma_succ_bound(cfg: Seq<(u64, Seq<u64>)>, node: u64, w: int)
    requires
        forall|k: int| 0 <= k < cfg.len() ==> (#[trigger] cfg[k]).1.len() <= w,
        0 <= w,
    ensures
        succ_of(cfg, node).len() <= w,
{
    crate::cfg::lemma_succ_of_cases(cfg, node);
    if succ_of(cfg, node) != Seq::<u64>::empty() {
        let q = choose|q: int|
            0 <= q < cfg.len() && (#[trigger] cfg[q]).0 == node && succ_of(cfg, node) == cfg[q].1;
        assert(cfg[q].1.len() <= w);
    }
}

/// Multiplying by zero annihilates in the field.
proof fn lemma_mul_zero(x: u64)
    ensures
        spec_mul(0, x) == 0,
        spec_mul(x, 0) == 0,
{
    assert(0int * (x as int) == 0) by (nonlinear_arith);
    assert((x as int) * 0int == 0) by (nonlinear_arith);
}

/// The nine constraint evaluations vanish on any row pair whose cells
/// satisfy the semantic relations.
proof fn lemma_trans_from_cells(a: Seq<u64>, b: Seq<u64>, w: int)
    requires
        b[0] == a[0],
        a[3 + w] == 1,
        a[4 + w] == 0 || a[4 + w] == 1,
        a[5 + w] == 0 || a[5 + w] == 1,
        !(a[4 + w] == 1 && a[5 + w] == 1),
        a[4 + w] == 0 ==> neighbor_prod(a, b[1], w, 0) == 0,
        a[4 + w] == 1 ==> spec_combine(b[2], b[1]) == a[2],
        a[4 + w] == 0 && a[5 + w] == 0 ==> b[2] == a[2],
    ensures
        transition_holds(a, b, w),
{
    let call = a[5 + w];
    let ret = a[4 + w];
    let valid = a[3 + w];
    let ev = transition_evals(a, b, w);
    assert(ev[0] == spec_sub(b[0], a[0]));
    assert(ev[1] == spec_mul(call, spec_sub(call, 1)));
    assert(ev[2] == spec_mul(ret, spec_sub(ret, 1)));
    assert(ev[3] == spec_mul(valid, spec_sub(valid, 1)));
    assert(ev[4] == spec_mul(call, ret));
    assert(ev[5] == spec_sub(1, valid));
    assert(ev[6] == spec_mul(spec_sub(1, ret), neighbor_prod(a, b[1], w, 0)));
    assert(ev[7] == spec_mul(ret, spec_sub(spec_combine(b[2], b[1]), a[2])));
    assert(ev[8] == spec_mul(spec_sub(spec_sub(1, call), ret), spec_sub(b[2], a[2])));
    assert(ev[0] == 0);
    assert(ev[1] == 0 && ev[2] == 0 && ev[3] == 0 && ev[4] == 0 && ev[5] == 0);
    if ret == 1 {
        lemma_mul_zero(neighbor_prod(a, b[1], w, 0));
        assert(ev[6] == spec_mul(0, neighbor_prod(a, b[1], w, 0)));
        assert(ev[6] == 0);
        assert(ev[7] == spec_mul(1, 0));
        assert(ev[7] == 0);
        assert(spec_sub(spec_sub(1, call), ret) == 0);
        lemma_mul_zero(spec_sub(b[2], a[2]));
        assert(ev[8] == 0);
    } else {
        assert(ev[6] == spec_mul(1, 0));
        assert(ev[6] == 0);
        lemma_mul_zero(spec_sub(spec_combine(b[2], b[1]), a[2]));
        assert(ev[7] == spec_mul(0, spec_sub(spec_combine(b[2], b[1]), a[2])));
        assert(ev[7] == 0);
        if call == 1 {
            assert(spec_sub(spec_sub(1, call), ret) == 0);
            lemma_mul_zero(spec_sub(b[2], a[2]));
            assert(ev[8] == 0);
        } else {
            assert(spec_sub(b[2], a[2]) == 0);
            lemma_mul_zero(spec_sub(spec_sub(1, call), ret));
            assert(ev[8] == 0);
        }
    }
    assert(forall|k: int| 0 <= k < 9 ==> ev[k] == 0) by {
        assert(ev[0] == 0 && ev[1] == 0 && ev[2] == 0 && ev[3] == 0 && ev[4] == 0 && ev[5] == 0
            && ev[6] == 0 && ev[7] == 0 && ev[8] == 0);
    }
}

/// One frame of the padded table of a valid path satisfies the
/// transition constraints.
#[verifier::rlimit(30)]
proof fn lemma_frame_ok(
    cfg: Seq<(u64, Seq<u64>)>,
    steps: Seq<Step>,
    start: u64,
    nonce: u64,
    w: int,
    len: int,
    i: int,
)
    requires
        1 <= w,
        forall|k: int| 0 <= k < cfg.len() ==> (#[trigger] cfg[k]).1.len() <= w,
        steps.len() + 1 <= len,
        forall|q: int| 0 <= q < steps.len() ==> step_ok(cfg, steps, start, q),
        0 <= i < len - 1,
    ensures
        transition_holds(
            spec_padded_rows(cfg, steps, start, nonce, w, len)[i],
            spec_padded_rows(cfg, steps, start, nonce, w, len)[i + 1],
            w,
        ),
{
    let rows = spec_padded_rows(cfg, steps, start, nonce, w, len);
    let end = cur_at(steps, start, steps.len() as int);
    let fstk = acc_of(stack_at(steps, steps.len() as int));
    let nsteps = steps.len() as int;
    let a = rows[i];
    let b = rows[i + 1];
    if i < nsteps {
        let stk = stack_at(steps, i);
        let cur = cur_at(steps, start, i);
        lemma_succ_bound(cfg, cur, w);
        lemma_row_cells(cfg, steps, start, nonce, w, i);
        assert(a == spec_row(cfg, steps, start, nonce, w, i));
        if i + 1 < nsteps {
            lemma_succ_bound(cfg, cur_at(steps, start, i + 1), w);
            lemma_row_cells(cfg, steps, start, nonce, w, i + 1);
            assert(b == spec_row(cfg, steps, start, nonce, w, i + 1));
        } else {
            lemma_terminal_cells(nonce, end, fstk, w);
            assert(b == spec_terminal_row(nonce, end, fstk, w));
        }
        assert(b[0] == nonce);
        assert(b[1] == cur_at(steps, start, i + 1));
        assert(b[2] == acc_of(stack_at(steps, i + 1)));
        assert(step_ok(cfg, steps, start, i));
        match steps[i] {
            Step::Jump { addr } => {
                assert(a[4 + w] == 0 && a[5 + w] == 0 && a[3 + w] == 1);
                assert(succ_of(cfg, cur).contains(addr));
                let k = choose|k: int|
                    0 <= k < succ_of(cfg, cur).len() && succ_of(cfg, cur)[k] == addr;
                assert(a[3 + k] == padded_neighbors(succ_of(cfg, cur), w)[k]);
                assert(a[3 + k] == addr && b[1] == addr);
                lemma_neighbor_prod_zero(a, b[1], w, 0, k);
                assert(stack_at(steps, i + 1) == stk);
                assert(b[2] == a[2]);
            },
            Step::Call { addr, retaddr } => {
                assert(a[4 + w] == 0 && a[5 + w] == 1 && a[3 + w] == 1);
                assert(succ_of(cfg, cur).contains(addr));
                let k = choose|k: int|
                    0 <= k < succ_of(cfg, cur).len() && succ_of(cfg, cur)[k] == addr;
                assert(a[3 + k] == padded_neighbors(succ_of(cfg, cur), w)[k]);
                assert(a[3 + k] == addr && b[1] == addr);
                lemma_neighbor_prod_zero(a, b[1], w, 0, k);
            },
            Step::Ret { retaddr } => {
                assert(a[4 + w] == 1 && a[5 + w] == 0 && a[3 + w] == 1);
                assert(stk.len() > 0 && stk.last() == retaddr);
                assert(stack_at(steps, i + 1) == stk.drop_last());
                assert(b[1] == retaddr);
                assert(b[2] == acc_of(stk.drop_last()));
                assert(a[2] == acc_of(stk));
                assert(acc_of(stk) == spec_combine(acc_of(stk.drop_last()), stk.last()));
                assert(spec_combine(b[2], b[1]) == a[2]);
            },
        }
        lemma_trans_from_cells(a, b, w);
    } else {
        lemma_terminal_cells(nonce, end, fstk, w);
        assert(a == spec_terminal_row(nonce, end, fstk, w));
        assert(b == spec_terminal_row(nonce, end, fstk, w));
        assert(a[4 + w] == 0 && a[5 + w] == 0 && a[3 + w] == 1);
        assert(a[3] == end && b[1] == end);
        assert(spec_sub(b[1], a[3int]) == 0);
        lemma_neighbor_prod_zero(a, b[1], w, 0, 0);
        assert(b[2] == fstk && a[2] == fstk);
        lemma_trans_from_cells(a, b, w);
    }
}

/// Completeness of the constraint system: the padded trace built from a
/// path whose every step is well-formed satisfies every transition and
/// boundary constraint against the public inputs (start node, the node
/// the path ends on, and the nonce).
/// Completeness of the constraint system: the padded trace built from a
/// path whose every step is well-formed satisfies every transition and
/// boundary constraint against the public inputs (start node, the node
/// the path ends on, and the nonce).
pub proof fn lemma_valid_path_accepted(
    cfg: Seq<(u64, Seq<u64>)>,
    steps: Seq<Step>,
    start: u64,
    nonce: u64,
    w: int,
    len: int,
)
    requires
        1 <= w,
        forall|k: int| 0 <= k < cfg.len() ==> (#[trigger] cfg[k]).1.len() <= w,
        steps.len() + 1 <= len,
        forall|i: int| 0 <= i < steps.len() ==> step_ok(cfg, steps, start, i),
    ensures
        air_accepts(
            spec_padded_rows(cfg, steps, start, nonce, w, len),
            w,
            PublicInputs {
                start,
                end: cur_at(steps, start, steps.len() as int),
                nonce,
            },
        ),
{
    let rows = spec_padded_rows(cfg, steps, start, nonce, w, len);
    let end = cur_at(steps, start, steps.len() as int);
    let fstk = acc_of(stack_at(steps, steps.len() as int));
    let nsteps = steps.len() as int;
    // boundary facts
    assert(stack_at(steps, 0) =~= Seq::<u64>::empty());
    if nsteps > 0 {
        lemma_succ_bound(cfg, cur_at(steps, start, 0), w);
        lemma_row_cells(cfg, steps, start, nonce, w, 0);
        assert(rows[0] == spec_row(cfg, steps, start, nonce, w, 0));
    } else {
        lemma_terminal_cells(nonce, end, fstk, w);
        assert(rows[0] == spec_terminal_row(nonce, end, fstk, w));
    }
    assert(rows[0][0] == nonce && rows[0][1] == start && rows[0][2] == 0);
    lemma_terminal_cells(nonce, end, fstk, w);
    assert(rows[len - 1] == spec_terminal_row(nonce, end, fstk, w));
    assert(rows[len - 1][1] == end);
    // transitions, frame by frame
    assert forall|i: int| 0 <= i < rows.len() - 1 implies transition_holds(
        #[trigger] rows[i],
        rows[i + 1],
        w,
    ) by {
        lemma_frame_ok(cfg, steps, start, nonce, w, len, i);
    }
}

} // verus!
