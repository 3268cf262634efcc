//! The control-flow graph: node ids mapped to their ordered successor
//! lists, loaded from an adjacency-list text where each line reads
//! `<node> <successor>*` in decimal.

use vstd::prelude::*;

use crate::Error;
use crate::field::{in_field, spec_reduce, reduce};
use crate::text::{
    lines_from, lines_view, spec_parse_radix, split_lines, tokenize, tokens_from, tokens_view,
};

verus! {

/// Ordered successor list of `node`: the list of the first entry keyed by
/// `node`, or empty for an unknown or sink node.
pub open spec fn succ_of(entries: Seq<(u64, Seq<u64>)>, node: u64) -> Seq<u64>
    decreases entries.len(),
{
    if entries.len() == 0 {
        seq![]
    } else if entries[0].0 == node {
        entries[0].1
    } else {
        succ_of(entries.drop_first(), node)
    }
}

pub open spec fn has_node(entries: Seq<(u64, Seq<u64>)>, node: u64) -> bool {
    exists|k: int| 0 <= k < entries.len() && entries[k].0 == node
}

/// The largest successor-list length.
pub open spec fn max_deg_of(entries: Seq<(u64, Seq<u64>)>) -> int
    decreases entries.len(),
{
    if entries.len() == 0 {
        0
    } else if entries.last().1.len() > max_deg_of(entries.drop_last()) {
        entries.last().1.len() as int
    } else {
        max_deg_of(entries.drop_last())
    }
}

/// One adjacency line: a node id followed by its successors, every token a
/// decimal numeral; all ids are reduced into the field.
pub open spec fn parse_cfg_line(l: Seq<u8>) -> Result<(u64, Seq<u64>), Error> {
    let toks = tokens_from(l, 0);
    if toks.len() == 0 || !(forall|k: int|
        0 <= k < toks.len() ==> spec_parse_radix(#[trigger] toks[k], false) is Some) {
        Err(Error::MalformedAdjacency)
    } else {
        Ok(
            (
                spec_reduce(spec_parse_radix(toks[0], false).unwrap()),
                toks.skip(1).map_values(
                    |t: Seq<u8>| spec_reduce(spec_parse_radix(t, false).unwrap()),
                ),
            ),
        )
    }
}

/// Folds the remaining adjacency lines onto the entries read so far,
/// failing on the first bad line or repeated node id.
pub open spec fn load_cfg_from(
    ls: Seq<Seq<u8>>,
    i: int,
    acc: Seq<(u64, Seq<u64>)>,
) -> Result<Seq<(u64, Seq<u64>)>, Error>
    decreases ls.len() - i,
{
    if i >= ls.len() {
        Ok(acc)
    } else {
        match parse_cfg_line(ls[i]) {
            Err(e) => Err(e),
            Ok(ent) => if has_node(acc, ent.0) {
                Err(Error::DuplicateNode)
            } else {
                load_cfg_from(ls, i + 1, acc.push(ent))
            },
        }
    }
}

/// What loading an adjacency-list source yields.
pub open spec fn spec_load_cfg(src: Seq<u8>) -> Result<Seq<(u64, Seq<u64>)>, Error> {
    load_cfg_from(lines_from(src, 0), 0, seq![])
}

/// A control-flow graph, immutable once loaded.
pub struct Cfg {
    pub entries: Vec<(u64, Vec<u64>)>,
    pub max_deg: usize,
}

impl Cfg {
    pub open spec fn view_entries(self) -> Seq<(u64, Seq<u64>)> {
        self.entries@.map_values(|e: (u64, Vec<u64>)| (e.0, e.1@))
    }

    pub open spec fn wf(self) -> bool {
        &&& forall|k: int, l: int|
            0 <= k < l < self.view_entries().len() ==> self.view_entries()[k].0
                != self.view_entries()[l].0
        &&& forall|k: int|
            0 <= k < self.view_entries().len() ==> in_field(#[trigger] self.view_entries()[k].0)
                && (forall|j: int|
                0 <= j < self.view_entries()[k].1.len() ==> in_field(
                    #[trigger] self.view_entries()[k].1[j],
                ))
        &&& forall|k: int|
            0 <= k < self.view_entries().len() ==> (#[trigger] self.view_entries()[k]).1.len()
                <= self.max_deg
        &&& self.max_deg == max_deg_of(self.view_entries())
    }

    /// The largest successor-list length, fixed at load time.
    pub fn max_out_degree(&self) -> (d: usize)
        ensures
            d == self.max_deg,
    {
        self.max_deg
    }

    /// Loads a graph from adjacency-list text: one line per node, decimal
    /// ids separated by whitespace, the first id the node, the rest its
    /// successors in order.
    pub fn load(src: &[u8]) -> (r: Result<Cfg, Error>)
        ensures
            match r {
                Ok(cfg) => cfg.wf() && spec_load_cfg(src@) == Ok::<_, Error>(cfg.view_entries()),
                Err(e) => spec_load_cfg(src@) == Err::<Seq<(u64, Seq<u64>)>, Error>(e),
            },
    {
        let ls = split_lines(src);
        let ghost lsv = lines_from(src@, 0);
        let mut entries: Vec<(u64, Vec<u64>)> = Vec::new();
        let mut max_deg: usize = 0;
        let mut li: usize = 0;
        proof {
            assert(entries@.map_values(|e: (u64, Vec<u64>)| (e.0, e.1@)) =~= Seq::<
                (u64, Seq<u64>),
            >::empty());
            assert(Seq::<(u64, Seq<u64>)>::empty() =~= seq![]);
        }
        while li < ls.len()
            invariant
                li <= ls@.len(),
                lines_view(ls@) == lsv,
                lsv == lines_from(src@, 0),
                load_cfg_from(lsv, 0, seq![]) == load_cfg_from(
                    lsv,
                    li as int,
                    entries@.map_values(|e: (u64, Vec<u64>)| (e.0, e.1@)),
                ),
                forall|k: int, l: int|
                    0 <= k < l < entries@.len() ==> entries@[k].0 != entries@[l].0,
                forall|k: int|
                    0 <= k < entries@.len() ==> in_field(#[trigger] entries@[k].0) && (forall|
                        j: int,
                    |
                        0 <= j < entries@[k].1@.len() ==> in_field(#[trigger] entries@[k].1@[j])),
                forall|k: int| 0 <= k < entries@.len() ==> (#[trigger] entries@[k]).1@.len() <= max_deg,
                max_deg == max_deg_of(entries@.map_values(|e: (u64, Vec<u64>)| (e.0, e.1@))),
            decreases ls@.len() - li,
        {
            let ghost accv = entries@.map_values(|e: (u64, Vec<u64>)| (e.0, e.1@));
            let toks = tokenize(&ls[li]);
            let ghost toksv = tokens_from(lsv[li as int], 0);
            proof {
                assert(lines_view(ls@)[li as int] == ls@[li as int]@);
                assert(tokens_view(toks@) == toksv);
            }
            if toks.len() == 0 {
                proof {
                    assert(parse_cfg_line(lsv[li as int]) == Err::<(u64, Seq<u64>), Error>(
                        Error::MalformedAdjacency,
                    ));
                    assert(load_cfg_from(lsv, li as int, accv) == Err::<
                        Seq<(u64, Seq<u64>)>,
                        Error,
                    >(Error::MalformedAdjacency));
                }
                return Err(Error::MalformedAdjacency);
            }
            // the node id heading the line
            let node = match crate::text::parse_dec(toks[0].as_slice()) {
                Some(v) => reduce(v),
                None => {
                    proof {
                        assert(toksv[0] == toks@[0]@);
                        assert(spec_parse_radix(toksv[0], false) is None);
                        assert(parse_cfg_line(lsv[li as int]) == Err::<(u64, Seq<u64>), Error>(
                            Error::MalformedAdjacency,
                        ));
                        assert(load_cfg_from(lsv, li as int, accv) == Err::<
                            Seq<(u64, Seq<u64>)>,
                            Error,
                        >(Error::MalformedAdjacency));
                    }
                    return Err(Error::MalformedAdjacency);
                },
            };
            // the successors on the rest of the line
            let mut succs: Vec<u64> = Vec::new();
            let mut k: usize = 1;
            while k < toks.len()
                invariant
                    1 <= k <= toks@.len(),
                    tokens_view(toks@) == toksv,
                    lines_view(ls@) == lsv,
                    lsv == lines_from(src@, 0),
                    accv == entries@.map_values(|e: (u64, Vec<u64>)| (e.0, e.1@)),
                    load_cfg_from(lsv, 0, seq![]) == load_cfg_from(lsv, li as int, accv),
                    li < lsv.len(),
                    toksv == tokens_from(lsv[li as int], 0),
                    toksv.len() == toks@.len(),
                    forall|m: int|
                        0 < m < k ==> spec_parse_radix(#[trigger] toksv[m], false) is Some,
                    succs@.len() == k - 1,
                    forall|m: int|
                        0 < m < k ==> succs@[m - 1] == spec_reduce(
                            spec_parse_radix(#[trigger] toksv[m], false).unwrap(),
                        ),
                    forall|m: int| 0 <= m < succs@.len() ==> in_field(#[trigger] succs@[m]),
                decreases toks@.len() - k,
            {
                match crate::text::parse_dec(toks[k].as_slice()) {
                    Some(v) => {
                        succs.push(reduce(v));
                        proof {
                            assert(toksv[k as int] == toks@[k as int]@);
                        }
                    },
                    None => {
                        proof {
                            assert(toksv[k as int] == toks@[k as int]@);
                            assert(spec_parse_radix(toksv[k as int], false) is None);
                            assert(parse_cfg_line(lsv[li as int]) == Err::<(u64, Seq<u64>), Error>(
                                Error::MalformedAdjacency,
                            ));
                            assert(load_cfg_from(lsv, li as int, accv) == Err::<
                                Seq<(u64, Seq<u64>)>,
                                Error,
                            >(Error::MalformedAdjacency));
                        }
                        return Err(Error::MalformedAdjacency);
                    },
                }
                k = k + 1;
            }
            let ghost ent = (
                spec_reduce(spec_parse_radix(toksv[0], false).unwrap()),
                toksv.skip(1).map_values(|t: Seq<u8>| spec_reduce(spec_parse_radix(t, false).unwrap())),
            );
            proof {
                assert(forall|m: int|
                    0 <= m < toksv.len() ==> spec_parse_radix(#[trigger] toksv[m], false) is Some);
                assert(parse_cfg_line(lsv[li as int]) == Ok::<_, Error>(ent));
                assert(succs@ =~= ent.1) by {
                    assert(forall|m: int|
                        0 <= m < succs@.len() ==> succs@[m] == ent.1[m] && ent.1[m] == spec_reduce(
                            spec_parse_radix(toksv.skip(1)[m], false).unwrap(),
                        ));
                }
                assert(node == ent.0);
            }
            // a node id may head only one line
            if has_key(&entries, node) {
                proof {
                    assert(load_cfg_from(lsv, li as int, accv) == Err::<
                        Seq<(u64, Seq<u64>)>,
                        Error,
                    >(Error::DuplicateNode));
                }
                return Err(Error::DuplicateNode);
            }
            if succs.len() > max_deg {
                max_deg = succs.len();
            }
            let ghost succsv = succs@;
            let ghost oldents = entries@;
            proof {
                assert(forall|m: int|
                    0 <= m < oldents.len() ==> accv[m] == (oldents[m].0, oldents[m].1@));
                assert(forall|m: int| 0 <= m < accv.len() ==> (#[trigger] accv[m]).0 != node);
                assert(forall|m: int| 0 <= m < oldents.len() ==> (#[trigger] oldents[m]).0
                    != node) by {
                    if exists|m: int|
                        0 <= m < oldents.len() && (#[trigger] oldents[m]).0 == node {
                        let m = choose|m: int|
                            0 <= m < oldents.len() && (#[trigger] oldents[m]).0 == node;
                        assert(accv[m] == (oldents[m].0, oldents[m].1@));
                        assert(false);
                    }
                };
            }
            entries.push((node, succs));
            li = li + 1;
            proof {
                let accv2 = entries@.map_values(|e: (u64, Vec<u64>)| (e.0, e.1@));
                assert(accv2 =~= accv.push(ent));
                assert(accv2.drop_last() =~= accv);
                assert(accv2.last() == ent);
                assert(max_deg == max_deg_of(accv2));
            }
        }
        proof {
            assert(load_cfg_from(lsv, li as int, entries@.map_values(|e: (u64, Vec<u64>)| (e.0, e.1@)))
                == Ok::<_, Error>(entries@.map_values(|e: (u64, Vec<u64>)| (e.0, e.1@))));
        }
        Ok(Cfg { entries, max_deg })
    }

    /// The ordered successors of `node`; empty for an unknown or sink node.
    pub fn successors(&self, node: u64) -> (out: Vec<u64>)
        ensures
            out@ == succ_of(self.view_entries(), node),
    {
        let n = self.entries.len();
        let mut k: usize = 0;
        while k < n
            invariant
                k <= n,
                n == self.entries@.len(),
                forall|m: int| 0 <= m < k ==> self.view_entries()[m].0 != node,
            decreases n - k,
        {
            if self.entries[k].0 == node {
                let mut out: Vec<u64> = Vec::new();
                let list = &self.entries[k].1;
                let mut j: usize = 0;
                while j < list.len()
                    invariant
                        j <= list@.len(),
                        out@ == list@.take(j as int),
                    decreases list@.len() - j,
                {
                    out.push(list[j]);
                    proof {
                        assert(out@ =~= list@.take(j as int + 1));
                    }
                    j = j + 1;
                }
                proof {
                    assert(out@ =~= list@);
                    assert(self.view_entries()[k as int].1 == list@);
                    lemma_succ_of_at(self.view_entries(), node, k as int);
                }
                return out;
            }
            k = k + 1;
        }
        proof {
            lemma_succ_of_absent(self.view_entries(), node);
        }
        Vec::new()
    }
}

/// Whether some entry already carries the key.
fn has_key(entries: &Vec<(u64, Vec<u64>)>, key: u64) -> (r: bool)
    ensures
        r == has_node(entries@.map_values(|e: (u64, Vec<u64>)| (e.0, e.1@)), key),
{
    let n = entries.len();
    let mut k: usize = 0;
    while k < n
        invariant
            k <= n,
            n == entries@.len(),
            forall|m: int| 0 <= m < k ==> entries@[m].0 != key,
        decreases n - k,
    {
        if entries[k].0 == key {
            proof {
                let ev = entries@.map_values(|e: (u64, Vec<u64>)| (e.0, e.1@));
                assert(ev[k as int].0 == key);
            }
            return true;
        }
        k = k + 1;
    }
    false
}

/// The successor list found at the first entry keyed by `node`.
pub proof fn lemma_succ_of_at(entries: Seq<(u64, Seq<u64>)>, node: u64, k: int)
    requires
        0 <= k < entries.len(),
        entries[k].0 == node,
        forall|m: int| 0 <= m < k ==> entries[m].0 != node,
    ensures
        succ_of(entries, node) == entries[k].1,
    decreases k,
{
    if k > 0 {
        lemma_succ_of_at(entries.drop_first(), node, k - 1);
    }
}

/// An absent node has no successors.
pub proof fn lemma_succ_of_absent(entries: Seq<(u64, Seq<u64>)>, node: u64)
    requires
        forall|m: int| 0 <= m < entries.len() ==> entries[m].0 != node,
    ensures
        succ_of(entries, node) == Seq::<u64>::empty(),
    decreases entries.len(),
{
    if entries.len() > 0 {
        lemma_succ_of_absent(entries.drop_first(), node);
    }
}

/// The successor list is empty or is the list of some entry keyed by
/// the node.
pub proof fn lemma_succ_of_cases(entries: Seq<(u64, Seq<u64>)>, node: u64)
    ensures
        succ_of(entries, node) == Seq::<u64>::empty() || exists|k: int|
            0 <= k < entries.len() && (#[trigger] entries[k]).0 == node && succ_of(entries, node)
                == entries[k].1,
    decreases entries.len(),
{
    if entries.len() > 0 && entries[0].0 != node {
        lemma_succ_of_cases(entries.drop_first(), node);
        if succ_of(entries.drop_first(), node) != Seq::<u64>::empty() {
            let k = choose|k: int|
                0 <= k < entries.drop_first().len() && (#[trigger] entries.drop_first()[k]).0
                    == node && succ_of(entries.drop_first(), node) == entries.drop_first()[k].1;
            assert(entries[k + 1] == entries.drop_first()[k]);
        }
    }
}

} // verus!
