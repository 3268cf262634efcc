//! The execution path: a header declaring the start and end nodes, then
//! one `jump`/`call`/`ret` step per line, parsed into a typed sequence.

use vstd::prelude::*;

use crate::Error;
use crate::field::{in_field, spec_reduce, reduce};
use crate::text::{
    lines_from, lines_view, spec_parse_num, spec_parse_radix, split_lines, tokenize, tokens_from,
    tokens_view, parse_num, parse_dec,
};
use vstd::slice::slice_subrange;

verus! {

/// One step of the path. Addresses are canonical field elements.
#[derive(Clone, Copy, Debug, PartialEq, Eq, Structural)]
pub enum Step {
    /// Move control to `addr`.
    Jump { addr: u64 },
    /// Move control to `addr`, remembering `retaddr` as the return point.
    Call { addr: u64, retaddr: u64 },
    /// Return control to `retaddr`.
    Ret { retaddr: u64 },
}

impl Step {
    /// The node that control moves to when this step executes.
    pub open spec fn target(self) -> u64 {
        match self {
            Step::Jump { addr } => addr,
            Step::Call { addr, .. } => addr,
            Step::Ret { retaddr } => retaddr,
        }
    }

    /// The opcode tag used by the trace encoding.
    pub open spec fn opcode(self) -> u64 {
        match self {
            Step::Jump { .. } => 0,
            Step::Call { .. } => 1,
            Step::Ret { .. } => 2,
        }
    }

    pub open spec fn wf(self) -> bool {
        match self {
            Step::Jump { addr } => in_field(addr),
            Step::Call { addr, retaddr } => in_field(addr) && in_field(retaddr),
            Step::Ret { retaddr } => in_field(retaddr),
        }
    }
}

/// A parsed path: the declared boundary nodes and the ordered steps.
pub struct ExecutionPath {
    pub steps: Vec<Step>,
    pub start: u64,
    pub end: u64,
}

impl ExecutionPath {
    pub open spec fn wf(self) -> bool {
        &&& in_field(self.start)
        &&& in_field(self.end)
        &&& forall|i: int| 0 <= i < self.steps@.len() ==> (#[trigger] self.steps@[i]).wf()
    }
}

pub open spec fn kw_jump() -> Seq<u8> {
    seq![106u8, 117u8, 109u8, 112u8]
}

pub open spec fn kw_jmp() -> Seq<u8> {
    seq![106u8, 109u8, 112u8]
}

pub open spec fn kw_call() -> Seq<u8> {
    seq![99u8, 97u8, 108u8, 108u8]
}

pub open spec fn kw_ret() -> Seq<u8> {
    seq![114u8, 101u8, 116u8]
}

/// `initial_node=`
pub open spec fn key_initial() -> Seq<u8> {
    seq![105u8, 110u8, 105u8, 116u8, 105u8, 97u8, 108u8, 95u8, 110u8, 111u8, 100u8, 101u8, 61u8]
}

/// `final_node=`
pub open spec fn key_final() -> Seq<u8> {
    seq![102u8, 105u8, 110u8, 97u8, 108u8, 95u8, 110u8, 111u8, 100u8, 101u8, 61u8]
}

/// The declared value of a `<key>=<decimal>` header token; the last token
/// carrying the key wins, and a malformed value counts as absent.
pub open spec fn header_field(toks: Seq<Seq<u8>>, key: Seq<u8>) -> Option<u64>
    decreases toks.len(),
{
    if toks.len() == 0 {
        None
    } else if toks.last().len() >= key.len() && toks.last().take(key.len() as int) == key {
        spec_parse_radix(toks.last().skip(key.len() as int), false)
    } else {
        header_field(toks.drop_last(), key)
    }
}

/// One instruction line: an opcode and its operands.
pub open spec fn parse_step(toks: Seq<Seq<u8>>) -> Result<Step, Error> {
    let op = toks[0];
    if op == kw_jump() || op == kw_jmp() {
        if toks.len() < 2 {
            Err(Error::ArityMismatch)
        } else {
            match spec_parse_num(toks[1]) {
                None => Err(Error::InvalidNumber),
                Some(a) => Ok(Step::Jump { addr: spec_reduce(a) }),
            }
        }
    } else if op == kw_call() {
        if toks.len() < 3 {
            Err(Error::ArityMismatch)
        } else {
            match spec_parse_num(toks[1]) {
                None => Err(Error::InvalidNumber),
                Some(a) => match spec_parse_num(toks[2]) {
                    None => Err(Error::InvalidNumber),
                    Some(r) => Ok(Step::Call { addr: spec_reduce(a), retaddr: spec_reduce(r) }),
                },
            }
        }
    } else if op == kw_ret() {
        if toks.len() < 2 {
            Err(Error::ArityMismatch)
        } else {
            match spec_parse_num(toks[1]) {
                None => Err(Error::InvalidNumber),
                Some(r) => Ok(Step::Ret { retaddr: spec_reduce(r) }),
            }
        }
    } else {
        Err(Error::UnknownOpcode)
    }
}

/// Folds the remaining instruction lines onto the steps read so far,
/// skipping blank lines and failing on the first bad instruction.
pub open spec fn parse_steps_from(ls: Seq<Seq<u8>>, i: int, acc: Seq<Step>) -> Result<
    Seq<Step>,
    Error,
>
    decreases ls.len() - i,
{
    if i >= ls.len() {
        Ok(acc)
    } else {
        let toks = tokens_from(ls[i], 0);
        if toks.len() == 0 {
            parse_steps_from(ls, i + 1, acc)
        } else {
            match parse_step(toks) {
                Err(e) => Err(e),
                Ok(s) => parse_steps_from(ls, i + 1, acc.push(s)),
            }
        }
    }
}

/// What parsing a path source yields: the steps in file order and the
/// declared start and end nodes, reduced into the field.
pub open spec fn spec_parse_path(src: Seq<u8>) -> Result<(Seq<Step>, u64, u64), Error> {
    let ls = lines_from(src, 0);
    if ls.len() == 0 {
        Err(Error::MissingHeaderField)
    } else {
        let toks0 = tokens_from(ls[0], 0);
        match header_field(toks0, key_initial()) {
            None => Err(Error::MissingHeaderField),
            Some(s) => match header_field(toks0, key_final()) {
                None => Err(Error::MissingHeaderField),
                Some(e) => match parse_steps_from(ls, 1, seq![]) {
                    Err(er) => Err(er),
                    Ok(steps) => Ok((steps, spec_reduce(s), spec_reduce(e))),
                },
            },
        }
    }
}

fn tok_eq3(t: &Vec<u8>, a: u8, b: u8, c: u8) -> (r: bool)
    ensures
        r == (t@ == seq![a, b, c]),
{
    let r = t.len() == 3 && t[0] == a && t[1] == b && t[2] == c;
    proof {
        if r {
            assert(t@ =~= seq![a, b, c]);
        } else {
            if t@ == seq![a, b, c] {
                assert(t@.len() == 3 && t@[0] == a && t@[1] == b && t@[2] == c);
            }
        }
    }
    r
}

fn tok_eq4(t: &Vec<u8>, a: u8, b: u8, c: u8, d: u8) -> (r: bool)
    ensures
        r == (t@ == seq![a, b, c, d]),
{
    let r = t.len() == 4 && t[0] == a && t[1] == b && t[2] == c && t[3] == d;
    proof {
        if r {
            assert(t@ =~= seq![a, b, c, d]);
        } else {
            if t@ == seq![a, b, c, d] {
                assert(t@.len() == 4 && t@[0] == a && t@[1] == b && t@[2] == c && t@[3] == d);
            }
        }
    }
    r
}

/// Whether the token begins with the given key bytes.
fn has_prefix(t: &Vec<u8>, key: &Vec<u8>) -> (r: bool)
    ensures
        r == (t@.len() >= key@.len() && t@.take(key@.len() as int) == key@),
{
    let kn = key.len();
    if t.len() < kn {
        return false;
    }
    let mut j: usize = 0;
    while j < kn
        invariant
            j <= kn,
            kn == key@.len(),
            t@.len() >= kn,
            forall|m: int| 0 <= m < j ==> t@[m] == key@[m],
        decreases kn - j,
    {
        if t[j] != key[j] {
            proof {
                if t@.take(kn as int) == key@ {
                    assert(t@.take(kn as int)[j as int] == key@[j as int]);
                }
            }
            return false;
        }
        j = j + 1;
    }
    proof {
        assert(t@.take(kn as int) =~= key@);
    }
    true
}

fn key_initial_vec() -> (v: Vec<u8>)
    ensures
        v@ == key_initial(),
{
    let mut v: Vec<u8> = Vec::new();
    v.push(105);
    v.push(110);
    v.push(105);
    v.push(116);
    v.push(105);
    v.push(97);
    v.push(108);
    v.push(95);
    v.push(110);
    v.push(111);
    v.push(100);
    v.push(101);
    v.push(61);
    proof {
        assert(v@ =~= key_initial());
    }
    v
}

fn key_final_vec() -> (v: Vec<u8>)
    ensures
        v@ == key_final(),
{
    let mut v: Vec<u8> = Vec::new();
    v.push(102);
    v.push(105);
    v.push(110);
    v.push(97);
    v.push(108);
    v.push(95);
    v.push(110);
    v.push(111);
    v.push(100);
    v.push(101);
    v.push(61);
    proof {
        assert(v@ =~= key_final());
    }
    v
}

/// Scans the header tokens for `<key><decimal>`, later tokens winning.
fn header_field_exec(toks: &Vec<Vec<u8>>, key: &Vec<u8>) -> (r: Option<u64>)
    ensures
        r == header_field(tokens_view(toks@), key@),
{
    let ghost tv = tokens_view(toks@);
    let n = toks.len();
    let mut k: usize = n;
    proof {
        assert(tv.take(n as int) =~= tv);
    }
    while k > 0
        invariant
            k <= n,
            n == toks@.len(),
            tv == tokens_view(toks@),
            tv.len() == n,
            header_field(tv, key@) == header_field(tv.take(k as int), key@),
        decreases k,
    {
        k = k - 1;
        let t = &toks[k];
        proof {
            assert(tv[k as int] == toks@[k as int]@);
            assert(tv.take(k as int + 1).last() == tv[k as int]);
            assert(tv.take(k as int + 1).drop_last() =~= tv.take(k as int));
        }
        if has_prefix(t, key) {
            let suffix = slice_subrange(t.as_slice(), key.len(), t.len());
            let r = parse_dec(suffix);
            proof {
                assert(suffix@ == tv[k as int].skip(key@.len() as int));
                assert(header_field(tv.take(k as int + 1), key@) == spec_parse_radix(
                    tv[k as int].skip(key@.len() as int),
                    false,
                ));
            }
            return r;
        }
    }
    proof {
        assert(tv.take(0) =~= Seq::<Seq<u8>>::empty());
    }
    None
}

/// Parses a path source: line 0 declares `initial_node=` and `final_node=`
/// in either order; every later non-blank line is one instruction, `jump
/// <addr>` (or `jmp`), `call <addr> <retaddr>`, or `ret <retaddr>`, with
/// decimal or `0x`-prefixed operands.
pub fn parse_execution_path(src: &[u8]) -> (r: Result<ExecutionPath, Error>)
    ensures
        match r {
            Ok(p) => p.wf() && spec_parse_path(src@) == Ok::<_, Error>((p.steps@, p.start, p.end)),
            Err(e) => spec_parse_path(src@) == Err::<(Seq<Step>, u64, u64), Error>(e),
        },
{
    let ghost lsv = lines_from(src@, 0);
    let ls = split_lines(src);
    if ls.len() == 0 {
        return Err(Error::MissingHeaderField);
    }
    let toks0 = tokenize(&ls[0]);
    proof {
        assert(lines_view(ls@)[0] == ls@[0]@);
    }
    let ki = key_initial_vec();
    let kf = key_final_vec();
    let start_raw = match header_field_exec(&toks0, &ki) {
        Some(v) => v,
        None => {
            return Err(Error::MissingHeaderField);
        },
    };
    let end_raw = match header_field_exec(&toks0, &kf) {
        Some(v) => v,
        None => {
            return Err(Error::MissingHeaderField);
        },
    };
    let mut steps: Vec<Step> = Vec::new();
    let mut li: usize = 1;
    while li < ls.len()
        invariant
            1 <= li <= ls@.len(),
            lines_view(ls@) == lsv,
            lsv == lines_from(src@, 0),
            lsv.len() >= 1,
            header_field(tokens_from(lsv[0], 0), key_initial()) == Some(start_raw),
            header_field(tokens_from(lsv[0], 0), key_final()) == Some(end_raw),
            parse_steps_from(lsv, 1, seq![]) == parse_steps_from(lsv, li as int, steps@),
            forall|i: int| 0 <= i < steps@.len() ==> (#[trigger] steps@[i]).wf(),
        decreases ls@.len() - li,
    {
        let toks = tokenize(&ls[li]);
        let ghost toksv = tokens_from(lsv[li as int], 0);
        proof {
            assert(lines_view(ls@)[li as int] == ls@[li as int]@);
            assert(tokens_view(toks@) == toksv);
        }
        if toks.len() > 0 {
            proof {
                assert(toksv[0] == toks@[0]@);
            }
            let op = &toks[0];
            let step: Step;
            if tok_eq4(op, 106, 117, 109, 112) || tok_eq3(op, 106, 109, 112) {
                if toks.len() < 2 {
                    proof {
                        assert(parse_step(toksv) == Err::<Step, Error>(Error::ArityMismatch));
                    }
                    return Err(Error::ArityMismatch);
                }
                proof {
                    assert(toksv[1] == toks@[1]@);
                }
                match parse_num(toks[1].as_slice()) {
                    Some(a) => {
                        step = Step::Jump { addr: reduce(a) };
                    },
                    None => {
                        proof {
                            assert(parse_step(toksv) == Err::<Step, Error>(Error::InvalidNumber));
                        }
                        return Err(Error::InvalidNumber);
                    },
                }
            } else if tok_eq4(op, 99, 97, 108, 108) {
                if toks.len() < 3 {
                    proof {
                        assert(parse_step(toksv) == Err::<Step, Error>(Error::ArityMismatch));
                    }
                    return Err(Error::ArityMismatch);
                }
                proof {
                    assert(toksv[1] == toks@[1]@);
                    assert(toksv[2] == toks@[2]@);
                }
                let a = match parse_num(toks[1].as_slice()) {
                    Some(a) => a,
                    None => {
                        proof {
                            assert(parse_step(toksv) == Err::<Step, Error>(Error::InvalidNumber));
                        }
                        return Err(Error::InvalidNumber);
                    },
                };
                match parse_num(toks[2].as_slice()) {
                    Some(rv) => {
                        step = Step::Call { addr: reduce(a), retaddr: reduce(rv) };
                    },
                    None => {
                        proof {
                            assert(parse_step(toksv) == Err::<Step, Error>(Error::InvalidNumber));
                        }
                        return Err(Error::InvalidNumber);
                    },
                }
            } else if tok_eq3(op, 114, 101, 116) {
                if toks.len() < 2 {
                    proof {
                        assert(parse_step(toksv) == Err::<Step, Error>(Error::ArityMismatch));
                    }
                    return Err(Error::ArityMismatch);
                }
                proof {
                    assert(toksv[1] == toks@[1]@);
                }
                match parse_num(toks[1].as_slice()) {
                    Some(rv) => {
                        step = Step::Ret { retaddr: reduce(rv) };
                    },
                    None => {
                        proof {
                            assert(parse_step(toksv) == Err::<Step, Error>(Error::InvalidNumber));
                        }
                        return Err(Error::InvalidNumber);
                    },
                }
            } else {
                proof {
                    assert(parse_step(toksv) == Err::<Step, Error>(Error::UnknownOpcode));
                }
                return Err(Error::UnknownOpcode);
            }
            proof {
                assert(parse_step(toksv) == Ok::<Step, Error>(step));
            }
            steps.push(step);
        } else {
            proof {
                assert(parse_steps_from(lsv, li as int, steps@) == parse_steps_from(
                    lsv,
                    li as int + 1,
                    steps@,
                ));
            }
        }
        li = li + 1;
    }
    let p = ExecutionPath { steps, start: reduce(start_raw), end: reduce(end_raw) };
    proof {
        assert(parse_steps_from(lsv, li as int, p.steps@) == Ok::<Seq<Step>, Error>(p.steps@));
    }
    Ok(p)
}

} // verus!
