//! The taint graph and its construction.
//!
//! The graph is an arena of nodes indexed by log-line ordinal; lines
//! that do not parse leave an absent entry so that indices and line
//! ordinals coincide. Ingestion consumes one line at a time: the node
//! builder produces the node, the manual-sink override and the
//! fold/drop rules decide what the variable table records, sinks are
//! appended to the sink list, and kept nodes get a metadata entry.

use vstd::prelude::*;

use std::collections::HashSet;

use crate::bytes::digits10;
use crate::bytes::count_digits10;
use crate::cli::Options;
use crate::meta::MetaError;
use crate::meta::TgMetaDb;
use crate::meta::TgMetaNode;
use crate::meta::is_lib_spec;
use crate::meta::meta_loc_spec;
use crate::parse::LineParts;
use crate::parse::is_tmp_var_spec;
use crate::parse::line_parts_spec;
use crate::tgnode::BuildError;
use crate::tgnode::NodeModel;
use crate::tgnode::TgNode;
use crate::tgnode::build_node;
use crate::tgnode::edges_dests_in;
use crate::tgnode::edges_in_some;
use crate::tgnode::node_m;
use crate::tgnode::node_some_at;
use crate::tgnode::opt_name_m;
use crate::tgnode::present_dests;
use crate::tgnode::reasons_in;
use crate::tgnode::reasons_m;
use crate::tgnode::reasons_some;
use crate::tgnode::table_resolves;
use crate::tgnode::taint_at;
use crate::tgnode::Taint;
use crate::vartable::VarTable;

verus! {

/// The fatal ingestion errors: an unparseable location field, a bad
/// address or line number in it, a variable defined on two lines
/// (both reported 1-based), two plain flow clauses naming different
/// variables, and a command field with more than one ` = `.
#[derive(Clone, Copy, PartialEq, Eq, Structural, Debug)]
pub enum IngestError {
    UnparseableLoc,
    BadAddress,
    BadLineNumber,
    DuplicateDefinition { first_line: usize, second_line: usize },
    ConflictingDefinition,
    MalformedCommand,
}

/// What became of the defined variable of a line: the line defined
/// none, the table now points at the new node, the node was dropped,
/// or the table was folded onto the predecessor with the given index.
#[derive(Clone, Copy, PartialEq, Eq, Structural, Debug)]
pub enum VarAction {
    NoVar,
    Defined,
    Dropped,
    FoldedTo(usize),
}

/// What one line did to the graph.
#[derive(Clone, Copy, PartialEq, Eq, Structural, Debug)]
pub enum LineOutcome {
    Skipped,
    Processed { taint: Taint, sink: bool, kept: bool, action: VarAction },
}

/// `__wrap_write`.
pub open spec fn tok_wrap_write() -> Seq<u8> {
    seq![95u8, 95u8, 119u8, 114u8, 97u8, 112u8, 95u8, 119u8, 114u8, 105u8, 116u8, 101u8]
}

/// `__wrap_malloc`.
pub open spec fn tok_wrap_malloc() -> Seq<u8> {
    seq![95u8, 95u8, 119u8, 114u8, 97u8, 112u8, 95u8, 109u8, 97u8, 108u8, 108u8, 111u8, 99u8]
}

/// The function names of the instrumentation's own wrappers.
pub open spec fn wrap_func(func: Seq<u8>) -> bool {
    func == tok_wrap_write() || func == tok_wrap_malloc()
}

/// The 1-based line number is in the manual sink list.
pub open spec fn in_sink_lines(sink_lines: Seq<usize>, lineno1: int) -> bool {
    exists|j: int| 0 <= j < sink_lines.len() && (#[trigger] sink_lines[j]) as int == lineno1
}

/// The manual-sink override. With no manual list the reasons stand.
/// A listed line's reasons are augmented with every present
/// predecessor, forcing it to be a sink; an unlisted line loses its
/// automatically detected reasons.
pub open spec fn override_reasons(
    reasons: Seq<int>,
    preds: Seq<(Seq<u8>, Option<int>)>,
    sink_lines: Seq<usize>,
    idx: int,
) -> Seq<int> {
    if sink_lines.len() == 0 {
        reasons
    } else if in_sink_lines(sink_lines, idx + 1) {
        reasons + present_dests(preds)
    } else {
        Seq::empty()
    }
}

/// The fold conditions checked before the duplicate-location rule: an
/// instrumentation wrapper frame, a temporary with temporaries hidden,
/// or a library frame (a missing source file or a shared object) with
/// libraries hidden.
pub open spec fn fold_prior(
    func: Seq<u8>,
    varname: Seq<u8>,
    file: Seq<u8>,
    opts: Options,
    file_missing: bool,
) -> bool {
    ||| wrap_func(func)
    ||| (opts.no_tmp_instr && is_tmp_var_spec(varname))
    ||| (opts.no_libs && (file_missing || is_lib_spec(file)))
}

/// What a triggered fold condition does to a variable-defining node:
/// with no predecessors the node is dropped; with exactly one present
/// predecessor of equal taint the variable folds onto it; with one
/// absent predecessor the node is dropped; anything else keeps the
/// definition.
pub open spec fn fold_action(cond: bool, nm: NodeModel, nodes: Seq<Option<TgNode>>) -> VarAction {
    if !cond {
        VarAction::Defined
    } else if nm.preds.len() == 0 {
        VarAction::Dropped
    } else if nm.preds.len() == 1 {
        match nm.preds[0].1 {
            Some(p) => if taint_at(nodes, p) == nm.taint {
                VarAction::FoldedTo(p as usize)
            } else {
                VarAction::Defined
            },
            None => VarAction::Dropped,
        }
    } else {
        VarAction::Defined
    }
}

/// Everything one ingested line decides: the returned outcome or
/// error; what entry the arena gains (`None`: nothing, on an error;
/// `Some(None)`: an absent entry, for an ignored line; `Some(Some(m))`:
/// a node of model `m`); the new variable table and locations-seen
/// set; whether the node joined the sink list; and whether its
/// metadata is kept.
pub struct IngestStep {
    pub result: Result<LineOutcome, IngestError>,
    pub push: Option<Option<NodeModel>>,
    pub table: Map<Seq<u8>, int>,
    pub locations: Set<u64>,
    pub sink_added: bool,
    pub kept: bool,
}

/// The ingestion of one line, per the component rules: parse the
/// fields (too few: the line is ignored), build the node, parse the
/// location metadata, apply the manual-sink override, reject duplicate
/// definitions, apply the fold/drop rules, record the sink.
pub open spec fn ingest_step(
    opts: Options,
    table: Map<Seq<u8>, int>,
    locations: Set<u64>,
    nodes: Seq<Option<TgNode>>,
    line: Seq<u8>,
    file_missing: bool,
) -> IngestStep {
    let idx = nodes.len() as int;
    match line_parts_spec(line) {
        None => IngestStep {
            result: Ok(LineOutcome::Skipped),
            push: Some(None),
            table,
            locations,
            sink_added: false,
            kept: false,
        },
        Some(parts) => match build_node(parts.0, parts.1, parts.2, idx, table, nodes) {
            Err(e) => IngestStep {
                result: Err(
                    match e {
                        BuildError::ConflictingDefinition => IngestError::ConflictingDefinition,
                        BuildError::MalformedCommand => IngestError::MalformedCommand,
                    },
                ),
                push: None,
                table,
                locations,
                sink_added: false,
                kept: false,
            },
            Ok(pair) => match meta_loc_spec(parts.0) {
                Err(me) => IngestStep {
                    result: Err(
                        match me {
                            MetaError::UnparseableLoc => IngestError::UnparseableLoc,
                            MetaError::BadAddress => IngestError::BadAddress,
                            MetaError::BadLineNumber => IngestError::BadLineNumber,
                        },
                    ),
                    push: None,
                    table,
                    locations,
                    sink_added: false,
                    kept: false,
                },
                Ok(mi) => {
                    let var = pair.0;
                    let rs = override_reasons(pair.1.reasons, pair.1.preds, opts.sink_lines@, idx);
                    let nm = NodeModel { idx, preds: pair.1.preds, reasons: rs, taint: pair.1.taint };
                    let is_sink = rs.len() > 0;
                    let dup = match var {
                        Some(v) => table.contains_key(v),
                        None => false,
                    };
                    if dup {
                        IngestStep {
                            result: Err(
                                IngestError::DuplicateDefinition {
                                    first_line: (table[match var {
                                        Some(v) => v,
                                        None => Seq::empty(),
                                    }] + 1) as usize,
                                    second_line: (idx + 1) as usize,
                                },
                            ),
                            push: None,
                            table,
                            locations,
                            sink_added: false,
                            kept: false,
                        }
                    } else {
                        let (act, check_loc) = match var {
                            Some(v) => {
                                let prior = fold_prior(mi.3, v, mi.1, opts, file_missing);
                                let seen = locations.contains(mi.0 as u64);
                                let cond = prior || (opts.unique_locs && seen);
                                (fold_action(cond, nm, nodes), !prior && opts.unique_locs)
                            },
                            None => (VarAction::NoVar, false),
                        };
                        let table2 = match (var, act) {
                            (Some(v), VarAction::Defined) => table.insert(v, idx),
                            (Some(v), VarAction::FoldedTo(p)) => table.insert(v, p as int),
                            _ => table,
                        };
                        let locations2 = if check_loc {
                            locations.insert(mi.0 as u64)
                        } else {
                            locations
                        };
                        let kept = (act is Defined) || is_sink;
                        IngestStep {
                            result: Ok(
                                LineOutcome::Processed {
                                    taint: nm.taint,
                                    sink: is_sink,
                                    kept,
                                    action: act,
                                },
                            ),
                            push: Some(Some(nm)),
                            table: table2,
                            locations: locations2,
                            sink_added: is_sink,
                            kept,
                        }
                    }
                },
            },
        },
    }
}

/// Whether the 1-based line number `v` is in the manual sink list.
fn sink_lines_contains(lines: &Vec<usize>, v: usize) -> (r: bool)
    ensures
        r == in_sink_lines(lines@, v as int),
{
    let n = lines.len();
    let mut i: usize = 0;
    while i < n
        invariant
            n == lines@.len(),
            0 <= i <= n,
            forall|j: int| 0 <= j < i ==> (#[trigger] lines@[j]) != v,
        decreases n - i,
    {
        if lines[i] == v {
            return true;
        }
        i += 1;
    }
    false
}

/// Append every present predecessor destination to `reasons`.
fn extend_present_dests(
    reasons: &mut Vec<usize>,
    preds: &Vec<crate::tgnode::TgEdge>,
    nodes: &Vec<Option<TgNode>>,
)
    requires
        edges_dests_in(preds@, nodes@.len() as int),
        edges_in_some(preds@, nodes@),
        reasons_in(old(reasons)@, nodes@.len() as int),
        reasons_some(old(reasons)@, nodes@),
    ensures
        reasons_m(final(reasons)@) == reasons_m(old(reasons)@) + present_dests(
            crate::tgnode::edges_m(preds@),
        ),
        reasons_in(final(reasons)@, nodes@.len() as int),
        reasons_some(final(reasons)@, nodes@),
{
    let ghost pm = crate::tgnode::edges_m(preds@);
    let ghost start = reasons_m(reasons@);
    let n = preds.len();
    let mut k: usize = 0;
    proof {
        reveal(Seq::filter);
        assert(pm.subrange(0, 0) =~= Seq::<(Seq<u8>, Option<int>)>::empty());
        assert(reasons_m(reasons@) =~= start + present_dests(pm.subrange(0, 0)));
    }
    while k < n
        invariant
            edges_dests_in(preds@, nodes@.len() as int),
            edges_in_some(preds@, nodes@),
            pm == crate::tgnode::edges_m(preds@),
            n == preds@.len(),
            0 <= k <= n,
            reasons_m(reasons@) == start + present_dests(pm.subrange(0, k as int)),
            reasons_in(reasons@, nodes@.len() as int),
            reasons_some(reasons@, nodes@),
        decreases n - k,
    {
        let ghost pre = pm.subrange(0, k as int);
        let ghost old_reasons = reasons@;
        let e = &preds[k];
        let mut pushed = false;
        match e.dest {
            Some(i) => {
                reasons.push(i);
                pushed = true;
            },
            None => {},
        }
        proof {
            reveal(Seq::filter);
            assert(pm[k as int] == preds@[k as int].m());
            assert(pm.subrange(0, k + 1).drop_last() =~= pre);
            assert(pm.subrange(0, k + 1).last() == pm[k as int]);
            if pushed {
                assert(present_dests(pm.subrange(0, k + 1)) =~= present_dests(pre).push(
                    reasons_m(reasons@).last(),
                ));
                assert(reasons_m(reasons@) =~= reasons_m(old_reasons).push(
                    reasons_m(reasons@).last(),
                ));
            } else {
                assert(present_dests(pm.subrange(0, k + 1)) =~= present_dests(pre));
            }
            assert(reasons_m(reasons@) =~= start + present_dests(pm.subrange(0, k + 1)));
        }
        k += 1;
    }
    proof {
        assert(pm.subrange(0, pm.len() as int) =~= pm);
    }
}

/// Pushing one entry onto the arena leaves every node well-formed.
proof fn lemma_wf_after_push(nodes: Seq<Option<TgNode>>, nodes2: Seq<Option<TgNode>>)
    requires
        nodes2.len() == nodes.len() + 1,
        forall|i: int| 0 <= i < nodes.len() ==> nodes2[i] == nodes[i],
        forall|i: int| 0 <= i < nodes.len() ==> node_wf_at(nodes, i),
    ensures
        forall|i: int| 0 <= i < nodes.len() ==> node_wf_at(nodes2, i),
{
    assert forall|i: int| 0 <= i < nodes.len() implies node_wf_at(nodes2, i) by {
        assert(node_wf_at(nodes, i));
        match nodes2[i] {
            Some(n) => {
                assert forall|k: int| 0 <= k < n.preds@.len() implies (match (
                #[trigger] n.preds@[k]).dest {
                    Some(d) => node_some_at(nodes2, d as int),
                    None => true,
                }) by {
                    match n.preds@[k].dest {
                        Some(d) => {
                            assert(node_some_at(nodes, d as int));
                        },
                        None => {},
                    }
                }
                assert forall|k: int| 0 <= k < n.sink_reasons@.len() implies node_some_at(
                    nodes2,
                    (#[trigger] n.sink_reasons@[k]) as int,
                ) by {
                    assert(node_some_at(nodes, n.sink_reasons@[k] as int));
                }
            },
            None => {},
        }
    }
}

/// The candidate predecessors of node `j` for the backward search:
/// its sink reasons when it has any, else the present destinations of
/// its edges.
pub open spec fn cand_preds(nodes: Seq<Option<TgNode>>, j: int) -> Seq<int> {
    if 0 <= j < nodes.len() {
        match nodes[j] {
            Some(n) => if n.sink_reasons@.len() > 0 {
                reasons_m(n.sink_reasons@)
            } else {
                present_dests(crate::tgnode::edges_m(n.preds@))
            },
            None => Seq::empty(),
        }
    } else {
        Seq::empty()
    }
}

/// The backward search steps from `j` to `p`: `p` is a candidate
/// predecessor of `j` and is not Green.
pub open spec fn step_to(nodes: Seq<Option<TgNode>>, j: int, p: int) -> bool {
    cand_preds(nodes, j).contains(p) && taint_at(nodes, p) != Taint::Green
}

/// A valid backward chain: it starts at the sink and every link is a
/// backward step.
pub open spec fn back_chain(nodes: Seq<Option<TgNode>>, sink: int, ch: Seq<int>) -> bool {
    ch.len() >= 1 && ch[0] == sink && forall|k: int|
        0 <= k < ch.len() - 1 ==> step_to(nodes, #[trigger] ch[k], ch[k + 1])
}

/// Node `i` is reachable from the sink by backward steps.
pub open spec fn reachable(nodes: Seq<Option<TgNode>>, sink: int, i: int) -> bool {
    exists|ch: Seq<int>| back_chain(nodes, sink, ch) && ch.last() == i
}

/// The arena holds a source node at `i`.
pub open spec fn is_source_at(nodes: Seq<Option<TgNode>>, i: int) -> bool {
    0 <= i < nodes.len() && (match nodes[i] {
        Some(n) => crate::tgnode::is_source_spec(n),
        None => false,
    })
}

/// A well-formed emitted trace: non-empty, from a source to the given
/// sink, each node a backward step from its successor, all nodes
/// present and pairwise distinct, and no node but possibly the sink
/// Green.
pub open spec fn trace_ok(nodes: Seq<Option<TgNode>>, sink: int, t: Seq<usize>) -> bool {
    &&& t.len() >= 1
    &&& t.last() as int == sink
    &&& is_source_at(nodes, t[0] as int)
    &&& (forall|k: int| 0 <= k < t.len() - 1 ==> step_to(nodes, t[k + 1] as int, (#[trigger] t[k]) as int))
    &&& (forall|k: int| 0 <= k < t.len() ==> node_some_at(nodes, (#[trigger] t[k]) as int))
    &&& (forall|a: int, b: int| 0 <= a < b < t.len() ==> t[a] != t[b])
    &&& (forall|k: int| 0 <= k < t.len() - 1 ==> taint_at(nodes, (#[trigger] t[k]) as int) != Taint::Green)
}

/// Every element of `present_dests` is some edge's destination.
proof fn lemma_present_dests_elems(preds: Seq<(Seq<u8>, Option<int>)>)
    ensures
        forall|k: int|
            0 <= k < present_dests(preds).len() ==> exists|j: int|
                0 <= j < preds.len() && preds[j].1 == Some(#[trigger] present_dests(preds)[k]),
    decreases preds.len(),
{
    reveal(Seq::filter);
    if preds.len() > 0 {
        lemma_present_dests_elems(preds.drop_last());
        let pre = preds.drop_last();
        if preds.last().1 is Some {
            assert(present_dests(preds) =~= present_dests(pre).push(
                match preds.last().1 {
                    Some(i) => i,
                    None => 0,
                },
            ));
        } else {
            assert(present_dests(preds) =~= present_dests(pre));
        }
        assert forall|k: int| 0 <= k < present_dests(preds).len() implies exists|j: int|
            0 <= j < preds.len() && preds[j].1 == Some(#[trigger] present_dests(preds)[k]) by {
            if k < present_dests(pre).len() {
                let j = choose|j: int|
                    0 <= j < pre.len() && pre[j].1 == Some(present_dests(pre)[k]);
                assert(preds[j].1 == Some(present_dests(preds)[k]));
            } else {
                assert(preds[preds.len() - 1].1 == Some(present_dests(preds)[k]));
            }
        }
    }
}

/// A backward step from a well-formed arena node lands strictly
/// earlier, on a present node.
proof fn lemma_step_bounds(nodes: Seq<Option<TgNode>>, j: int, p: int)
    requires
        forall|i: int| 0 <= i < nodes.len() ==> node_wf_at(nodes, i),
        step_to(nodes, j, p),
    ensures
        0 <= p < j < nodes.len(),
        node_some_at(nodes, p),
{
    let cs = cand_preds(nodes, j);
    assert(cs.contains(p));
    let k = choose|k: int| 0 <= k < cs.len() && cs[k] == p;
    assert(0 <= j < nodes.len());
    assert(node_wf_at(nodes, j));
    match nodes[j] {
        Some(n) => {
            if n.sink_reasons@.len() > 0 {
                assert(cs[k] == n.sink_reasons@[k] as int);
                assert(n.sink_reasons@[k] < j);
                assert(node_some_at(nodes, n.sink_reasons@[k] as int));
            } else {
                let pm = crate::tgnode::edges_m(n.preds@);
                lemma_present_dests_elems(pm);
                let j2 = choose|j2: int| 0 <= j2 < pm.len() && pm[j2].1 == Some(cs[k]);
                assert(pm[j2] == n.preds@[j2].m());
                match n.preds@[j2].dest {
                    Some(d) => {
                        assert(d as int == p);
                        assert(d < j);
                        assert(node_some_at(nodes, d as int));
                    },
                    None => {
                        assert(false);
                    },
                }
            }
        },
        None => {
            assert(false);
        },
    }
}

/// The sink reaches itself.
proof fn lemma_reachable_sink(nodes: Seq<Option<TgNode>>, sink: int)
    ensures
        reachable(nodes, sink, sink),
{
    let ch = seq![sink];
    assert(back_chain(nodes, sink, ch));
    assert(ch.last() == sink);
}

/// Reachability extends along a backward step.
proof fn lemma_reachable_step(nodes: Seq<Option<TgNode>>, sink: int, i: int, p: int)
    requires
        reachable(nodes, sink, i),
        step_to(nodes, i, p),
    ensures
        reachable(nodes, sink, p),
{
    let ch = choose|ch: Seq<int>| back_chain(nodes, sink, ch) && ch.last() == i;
    let ch2 = ch.push(p);
    assert forall|k: int| 0 <= k < ch2.len() - 1 implies step_to(
        nodes,
        #[trigger] ch2[k],
        ch2[k + 1],
    ) by {
        if k < ch.len() - 1 {
            assert(step_to(nodes, ch[k], ch[k + 1]));
        } else {
            assert(ch2[k] == i && ch2[k + 1] == p);
        }
    }
    assert(back_chain(nodes, sink, ch2));
    assert(ch2.last() == p);
}

/// In a detection map closed under backward steps and holding the
/// sink, every reachable node is detected.
proof fn lemma_closed_detected(
    nodes: Seq<Option<TgNode>>,
    sink: int,
    det: Seq<Option<Option<usize>>>,
    ch: Seq<int>,
)
    requires
        forall|i: int| 0 <= i < nodes.len() ==> node_wf_at(nodes, i),
        det.len() == nodes.len(),
        0 <= sink < det.len(),
        det[sink] is Some,
        forall|i: int, p: int|
            0 <= i < det.len() && det[i] is Some && #[trigger] step_to(nodes, i, p) ==> 0 <= p
                < det.len() && det[p] is Some,
        back_chain(nodes, sink, ch),
    ensures
        0 <= ch.last() < det.len() && det[ch.last()] is Some,
    decreases ch.len(),
{
    if ch.len() == 1 {
        assert(ch.last() == sink);
    } else {
        let pre = ch.drop_last();
        assert forall|k: int| 0 <= k < pre.len() - 1 implies step_to(
            nodes,
            #[trigger] pre[k],
            pre[k + 1],
        ) by {
            assert(step_to(nodes, ch[k], ch[k + 1]));
        }
        assert(back_chain(nodes, sink, pre));
        lemma_closed_detected(nodes, sink, det, pre);
        assert(step_to(nodes, ch[ch.len() - 2], ch[ch.len() - 1]));
        lemma_step_bounds(nodes, ch[ch.len() - 2], ch[ch.len() - 1]);
    }
}

/// A source has no candidate predecessors.
proof fn lemma_source_no_cands(nodes: Seq<Option<TgNode>>, i: int)
    requires
        is_source_at(nodes, i),
    ensures
        cand_preds(nodes, i).len() == 0,
{
    match nodes[i] {
        Some(n) => {
            let pm = crate::tgnode::edges_m(n.preds@);
            lemma_present_dests_elems(pm);
            if present_dests(pm).len() > 0 {
                let j = choose|j: int| 0 <= j < pm.len() && pm[j].1 == Some(present_dests(pm)[0]);
                assert(pm[j] == n.preds@[j].m());
                assert(n.preds@[j].dest is None);
                assert(false);
            }
        },
        None => {},
    }
}

/// The state of the backward search: the detection map (absent:
/// undetected; `Some(None)`: the sink; `Some(Some(s))`: detected, with
/// first-seen successor `s`), the work queue, and the sources found,
/// in discovery order.
pub struct BfsState {
    pub det: Seq<Option<Option<usize>>>,
    pub queue: Seq<usize>,
    pub sources: Seq<usize>,
}

/// A candidate is enqueued when it lies in the detection map, is not
/// yet detected, and carries the taint of the current pass: Red in the
/// first pass, Blue in the second; Green nodes are never entered.
pub open spec fn eligible(
    nodes: Seq<Option<TgNode>>,
    det: Seq<Option<Option<usize>>>,
    c: int,
    want_red: bool,
) -> bool {
    &&& 0 <= c < det.len()
    &&& det[c] is None
    &&& (if want_red {
        taint_at(nodes, c) == Taint::Red
    } else {
        taint_at(nodes, c) != Taint::Red && taint_at(nodes, c) != Taint::Green
    })
}

/// One enqueue pass of node `op` over its candidates from position
/// `k` on: each eligible candidate is marked detected with successor
/// `op` and appended to the queue, in candidate order.
pub open spec fn enqueue_pass(
    nodes: Seq<Option<TgNode>>,
    op: usize,
    cands: Seq<int>,
    k: int,
    want_red: bool,
    det: Seq<Option<Option<usize>>>,
    queue: Seq<usize>,
) -> (Seq<Option<Option<usize>>>, Seq<usize>)
    decreases cands.len() - k,
{
    if k < 0 || k >= cands.len() {
        (det, queue)
    } else {
        let c = cands[k];
        if eligible(nodes, det, c, want_red) {
            enqueue_pass(
                nodes,
                op,
                cands,
                k + 1,
                want_red,
                det.update(c, Some(Some(op))),
                queue.push(c as usize),
            )
        } else {
            enqueue_pass(nodes, op, cands, k + 1, want_red, det, queue)
        }
    }
}

/// One step of the search: dequeue the front node; a source is
/// recorded, any other node has its Red candidates enqueued first and
/// its Blue candidates second.
pub open spec fn bfs_step(nodes: Seq<Option<TgNode>>, st: BfsState) -> BfsState
    recommends
        st.queue.len() > 0,
{
    let op = st.queue[0];
    let rest = st.queue.subrange(1, st.queue.len() as int);
    if is_source_at(nodes, op as int) {
        BfsState { det: st.det, queue: rest, sources: st.sources.push(op) }
    } else {
        let cands = cand_preds(nodes, op as int);
        let pass1 = enqueue_pass(nodes, op, cands, 0, true, st.det, rest);
        let pass2 = enqueue_pass(nodes, op, cands, 0, false, pass1.0, pass1.1);
        BfsState { det: pass2.0, queue: pass2.1, sources: st.sources }
    }
}

/// An enqueue pass grows the queue and the detection count in step,
/// and never shrinks or resizes the map.
proof fn lemma_enqueue_pass_counts(
    nodes: Seq<Option<TgNode>>,
    op: usize,
    cands: Seq<int>,
    k: int,
    want_red: bool,
    det: Seq<Option<Option<usize>>>,
    queue: Seq<usize>,
)
    ensures
        ({
            let r = enqueue_pass(nodes, op, cands, k, want_red, det, queue);
            &&& r.0.len() == det.len()
            &&& r.1.len() - queue.len() == count_detected(r.0) - count_detected(det)
            &&& count_detected(r.0) >= count_detected(det)
        }),
    decreases cands.len() - k,
{
    if k < 0 || k >= cands.len() {
    } else {
        let c = cands[k];
        if eligible(nodes, det, c, want_red) {
            lemma_count_update(det, c, Some(Some(op)));
            lemma_enqueue_pass_counts(
                nodes,
                op,
                cands,
                k + 1,
                want_red,
                det.update(c, Some(Some(op))),
                queue.push(c as usize),
            );
        } else {
            lemma_enqueue_pass_counts(nodes, op, cands, k + 1, want_red, det, queue);
        }
    }
}

/// The search, run to an empty queue.
pub open spec fn bfs_run(nodes: Seq<Option<TgNode>>, st: BfsState) -> BfsState
    decreases st.queue.len() + (st.det.len() - count_detected(st.det)),
    via bfs_run_decreases
{
    if st.queue.len() == 0 {
        st
    } else {
        bfs_run(nodes, bfs_step(nodes, st))
    }
}

#[via_fn]
proof fn bfs_run_decreases(nodes: Seq<Option<TgNode>>, st: BfsState) {
    lemma_count_le(st.det);
    if st.queue.len() > 0 {
        let op = st.queue[0];
        let rest = st.queue.subrange(1, st.queue.len() as int);
        if is_source_at(nodes, op as int) {
        } else {
            let cands = cand_preds(nodes, op as int);
            lemma_enqueue_pass_counts(nodes, op, cands, 0, true, st.det, rest);
            let pass1 = enqueue_pass(nodes, op, cands, 0, true, st.det, rest);
            lemma_enqueue_pass_counts(nodes, op, cands, 0, false, pass1.0, pass1.1);
        }
        lemma_count_le(bfs_step(nodes, st).det);
    }
}

/// The path from `cur` toward the sink along recorded successors;
/// `fuel` bounds the walk and is never exhausted on the maps the
/// search builds.
pub open spec fn walk_path(det: Seq<Option<Option<usize>>>, cur: usize, fuel: nat) -> Seq<usize>
    decreases fuel,
{
    if fuel == 0 {
        seq![cur]
    } else {
        match det[cur as int] {
            Some(link) => match link {
                Some(s) => seq![cur] + walk_path(det, s, (fuel - 1) as nat),
                None => seq![cur],
            },
            None => seq![cur],
        }
    }
}

/// The detection map the search starts from: only the sink, with no
/// successor.
pub open spec fn bfs_init(nodes: Seq<Option<TgNode>>, sink: usize) -> BfsState {
    BfsState {
        det: Seq::new(
            nodes.len(),
            |i: int|
                if i == sink as int {
                    Some(None)
                } else {
                    None
                },
        ),
        queue: seq![sink],
        sources: Seq::empty(),
    }
}

/// Everything trace extraction returns, as a function of the graph
/// and the sink: one path per discovered source, in discovery order,
/// each walked from the source to the sink along first-seen
/// successors.
pub open spec fn bfs_traces(nodes: Seq<Option<TgNode>>, sink: usize) -> Seq<Seq<usize>> {
    let fin = bfs_run(nodes, bfs_init(nodes, sink));
    fin.sources.map_values(|s: usize| walk_path(fin.det, s, nodes.len()))
}

/// One entry of the backward search's detection map is consistent:
/// a detected node is present, ranked, and reachable; a detected node
/// other than the sink is non-Green and records a ranked, detected
/// successor one backward step ahead of it.
pub open spec fn det_entry_ok(
    nodes: Seq<Option<TgNode>>,
    sink: int,
    det: Seq<Option<Option<usize>>>,
    rank: Map<int, int>,
    bound: int,
    i: int,
) -> bool {
    match det[i] {
        Some(link) => {
            &&& node_some_at(nodes, i)
            &&& rank.contains_key(i)
            &&& 0 <= rank[i] < bound
            &&& reachable(nodes, sink, i)
            &&& (match link {
                Some(s) => {
                    &&& i != sink
                    &&& taint_at(nodes, i) != Taint::Green
                    &&& 0 <= (s as int) < det.len()
                    &&& det[s as int] is Some
                    &&& rank.contains_key(s as int)
                    &&& rank[s as int] < rank[i]
                    &&& step_to(nodes, s as int, i)
                },
                None => i == sink,
            })
        },
        None => true,
    }
}

/// The whole detection map is consistent.
pub open spec fn det_ok(
    nodes: Seq<Option<TgNode>>,
    sink: int,
    det: Seq<Option<Option<usize>>>,
    rank: Map<int, int>,
    bound: int,
) -> bool {
    forall|i: int| 0 <= i < det.len() ==> #[trigger] det_entry_ok(nodes, sink, det, rank, bound, i)
}

/// Queue entries are detected indices, each at most once.
pub open spec fn queue_ok(det: Seq<Option<Option<usize>>>, queue: Seq<usize>) -> bool {
    &&& forall|qk: int|
        0 <= qk < queue.len() ==> ((#[trigger] queue[qk]) as int) < det.len() && det[queue[qk] as int]
            is Some
    &&& forall|a: int, b: int| 0 <= a < b < queue.len() ==> queue[a] != queue[b]
}

/// Every detected node that is neither queued nor the exception
/// `skip` has all its eligible predecessors detected.
pub open spec fn closure_ok(
    nodes: Seq<Option<TgNode>>,
    det: Seq<Option<Option<usize>>>,
    queue: Seq<usize>,
    skip: int,
) -> bool {
    forall|i: int, p: int|
        (0 <= i < det.len() && det[i] is Some && i != skip && !queue.contains(i as usize)
            && #[trigger] step_to(nodes, i, p)) ==> (0 <= p < det.len() && det[p] is Some)
}

/// The source list holds exactly the detected sources that are
/// neither queued nor the exception `skip`, each once.
pub open spec fn sources_ok(
    nodes: Seq<Option<TgNode>>,
    det: Seq<Option<Option<usize>>>,
    queue: Seq<usize>,
    sources: Seq<usize>,
    skip: int,
) -> bool {
    &&& forall|a: int|
        0 <= a < sources.len() ==> ((#[trigger] sources[a]) as int) < det.len()
            && det[sources[a] as int] is Some && is_source_at(nodes, sources[a] as int)
            && !queue.contains(sources[a]) && sources[a] as int != skip
    &&& forall|a: int, b: int| 0 <= a < b < sources.len() ==> sources[a] != sources[b]
    &&& forall|i: int|
        (0 <= i < det.len() && det[i] is Some && i != skip && !queue.contains(i as usize)
            && is_source_at(nodes, i)) ==> sources.contains(i as usize)
}

/// How many entries of a detection map are set.
pub open spec fn count_detected(det: Seq<Option<Option<usize>>>) -> int
    decreases det.len(),
{
    if det.len() == 0 {
        0
    } else {
        count_detected(det.drop_last()) + (if det.last() is Some {
            1int
        } else {
            0int
        })
    }
}

proof fn lemma_count_le(det: Seq<Option<Option<usize>>>)
    ensures
        0 <= count_detected(det) <= det.len(),
    decreases det.len(),
{
    if det.len() > 0 {
        lemma_count_le(det.drop_last());
    }
}

proof fn lemma_count_update(det: Seq<Option<Option<usize>>>, i: int, v: Option<Option<usize>>)
    requires
        0 <= i < det.len(),
        det[i] is None,
        v is Some,
    ensures
        count_detected(det.update(i, v)) == count_detected(det) + 1,
    decreases det.len(),
{
    let det2 = det.update(i, v);
    if i == det.len() - 1 {
        assert(det2.drop_last() =~= det.drop_last());
    } else {
        assert(det2.drop_last() =~= det.drop_last().update(i, v));
        assert(det2.last() == det.last());
        lemma_count_update(det.drop_last(), i, v);
    }
}

/// A node of the arena is well-formed: it knows its own index, every
/// edge and sink reason points strictly backwards, and what they point
/// at is present.
pub open spec fn node_wf_at(nodes: Seq<Option<TgNode>>, i: int) -> bool {
    match nodes[i] {
        Some(n) => {
            &&& n.idx == i
            &&& edges_dests_in(n.preds@, i)
            &&& reasons_in(n.sink_reasons@, i)
            &&& edges_in_some(n.preds@, nodes)
            &&& reasons_some(n.sink_reasons@, nodes)
        },
        None => true,
    }
}

/// The taint data-flow graph over one log, together with the state of
/// its ingestion.
pub struct Graph {
    pub nodes: Vec<Option<TgNode>>,
    pub sinks: Vec<usize>,
    pub options: Options,
    pub var_table: VarTable,
    pub locations: HashSet<u64>,
    pub idxwidth: usize,
}

impl Graph {
    /// The graph invariant: the variable table resolves to present
    /// nodes below the arena length, every node points strictly
    /// backwards at present nodes, and the sink list holds exactly the
    /// indices of present nodes with a sink reason, in increasing
    /// order.
    pub open spec fn wf(&self) -> bool {
        &&& self.var_table.wf()
        &&& self.var_table.values_below(self.nodes@.len() as int)
        &&& table_resolves(self.var_table@, self.nodes@)
        &&& forall|i: int| 0 <= i < self.nodes@.len() ==> node_wf_at(self.nodes@, i)
        &&& forall|j: int|
            0 <= j < self.sinks@.len() ==> node_some_at(
                self.nodes@,
                (#[trigger] self.sinks@[j]) as int,
            )
        &&& forall|a: int, b: int|
            0 <= a < b < self.sinks@.len() ==> self.sinks@[a] < self.sinks@[b]
        &&& forall|i: int|
            0 <= i < self.nodes@.len() ==> ((exists|j: int|
                0 <= j < self.sinks@.len() && (#[trigger] self.sinks@[j]) as int == i) <==> (
            match #[trigger] self.nodes@[i] {
                Some(n) => n.sink_reasons@.len() > 0,
                None => false,
            }))
    }

    /// An empty graph ready to ingest a log.
    pub fn new(options: Options) -> (g: Graph)
        ensures
            g.wf(),
            g.nodes@.len() == 0,
            g.sinks@.len() == 0,
            g.options == options,
            g.var_table@ == Map::<Seq<u8>, int>::empty(),
            g.locations@ == Set::<u64>::empty(),
            g.idxwidth == 8,
    {
        let g = Graph {
            nodes: Vec::new(),
            sinks: Vec::new(),
            options,
            var_table: VarTable::new(),
            locations: HashSet::new(),
            idxwidth: 8,
        };
        g
    }

    /// Ingest one log line. `file_missing` says whether the source
    /// file the line's location names is absent from the working
    /// directory tree; the caller, who can reach the file system,
    /// supplies it for the library-frame rule.
    #[verifier::rlimit(100)]
    pub fn ingest_line<T: TgMetaDb>(
        &mut self,
        line: &[u8],
        file_missing: bool,
        meta_db: &mut T,
    ) -> (r: Result<LineOutcome, IngestError>)
        requires
            old(self).wf(),
            old(self).nodes@.len() < usize::MAX,
        ensures
            final(self).wf(),
            final(self).options == old(self).options,
            final(self).idxwidth == digits10((old(self).nodes@.len() + 1) as nat),
            ({
                let st = ingest_step(
                    old(self).options,
                    old(self).var_table@,
                    old(self).locations@,
                    old(self).nodes@,
                    line@,
                    file_missing,
                );
                let idx = old(self).nodes@.len() as usize;
                &&& r == st.result
                &&& final(self).var_table@ == st.table
                &&& final(self).locations@ == st.locations
                &&& (match st.push {
                    None => final(self).nodes@ == old(self).nodes@,
                    Some(None) => final(self).nodes@ == old(self).nodes@.push(None),
                    Some(Some(nm)) => {
                        &&& final(self).nodes@.len() == old(self).nodes@.len() + 1
                        &&& (forall|i: int|
                            0 <= i < old(self).nodes@.len() ==> final(self).nodes@[i] == old(
                                self,
                            ).nodes@[i])
                        &&& (match final(self).nodes@.last() {
                            Some(n) => node_m(n) == nm,
                            None => false,
                        })
                    },
                })
                &&& final(self).sinks@ == (if st.sink_added {
                    old(self).sinks@.push(idx)
                } else {
                    old(self).sinks@
                })
                &&& (((forall|k: Seq<u8>|
                    old(self).var_table@.contains_key(k) ==> old(meta_db).db().contains_key(
                        (#[trigger] old(self).var_table@[k]) as usize,
                    )) && (forall|j: int|
                    0 <= j < old(self).sinks@.len() ==> old(meta_db).db().contains_key(
                        #[trigger] old(self).sinks@[j],
                    ))) ==> ((forall|k: Seq<u8>|
                    final(self).var_table@.contains_key(k) ==> final(meta_db).db().contains_key(
                        (#[trigger] final(self).var_table@[k]) as usize,
                    )) && (forall|j: int|
                    0 <= j < final(self).sinks@.len() ==> final(meta_db).db().contains_key(
                        #[trigger] final(self).sinks@[j],
                    ))))
                &&& (if st.kept {
                    &&& final(meta_db).db().contains_key(idx)
                    &&& final(meta_db).db() == old(meta_db).db().insert(
                        idx,
                        final(meta_db).db()[idx],
                    )
                    &&& ({
                        let m = final(meta_db).db()[idx];
                        match line_parts_spec(line@) {
                            Some(parts) => match meta_loc_spec(parts.0) {
                                Ok(mi) => {
                                    &&& m.line@ == line@
                                    &&& m.loc.addr as int == mi.0
                                    &&& m.loc.file@ == mi.1
                                    &&& (match m.loc.lineno {
                                        Some(l) => mi.2 == Some(l as int),
                                        None => mi.2 is None,
                                    })
                                    &&& m.loc.func@ == mi.3
                                    &&& m.loc.src_line is None
                                },
                                Err(_) => false,
                            },
                            None => false,
                        }
                    })
                } else {
                    final(meta_db).db() == old(meta_db).db()
                })
            }),
    {
        let ghost st = ingest_step(
            self.options,
            self.var_table@,
            self.locations@,
            self.nodes@,
            line@,
            file_missing,
        );
        let ghost nodes0 = self.nodes@;
        let idx = self.nodes.len();
        self.idxwidth = count_digits10(idx + 1);
        let lp = match LineParts::new(line) {
            Some(lp) => lp,
            None => {
                self.nodes.push(None);
                proof {
                    lemma_wf_after_push(nodes0, self.nodes@);
                    assert forall|k: Seq<u8>| self.var_table@.contains_key(k) implies node_some_at(
                        self.nodes@,
                        #[trigger] self.var_table@[k],
                    ) by {
                        assert(node_some_at(nodes0, self.var_table@[k]));
                    }
                    assert forall|j: int| 0 <= j < self.sinks@.len() implies node_some_at(
                        self.nodes@,
                        (#[trigger] self.sinks@[j]) as int,
                    ) by {
                        assert(node_some_at(nodes0, self.sinks@[j] as int));
                    }
                    assert(self.wf());
                }
                return Ok(LineOutcome::Skipped);
            },
        };
        let built = TgNode::new(
            lp.loc.as_slice(),
            lp.cmd.as_slice(),
            lp.flow.as_slice(),
            idx,
            &self.var_table,
            &self.nodes,
        );
        let (var, mut node) = match built {
            Ok(p) => p,
            Err(e) => {
                return Err(
                    match e {
                        BuildError::ConflictingDefinition => IngestError::ConflictingDefinition,
                        BuildError::MalformedCommand => IngestError::MalformedCommand,
                    },
                );
            },
        };
        let raw = crate::bytes::sub_vec(line, 0, line.len());
        let meta = match TgMetaNode::new(raw, lp.loc.as_slice()) {
            Ok(m) => m,
            Err(e) => {
                return Err(
                    match e {
                        MetaError::UnparseableLoc => IngestError::UnparseableLoc,
                        MetaError::BadAddress => IngestError::BadAddress,
                        MetaError::BadLineNumber => IngestError::BadLineNumber,
                    },
                );
            },
        };
        // manual-sink override
        if self.options.sink_lines.len() > 0 {
            if sink_lines_contains(&self.options.sink_lines, idx + 1) {
                extend_present_dests(&mut node.sink_reasons, &node.preds, &self.nodes);
            } else {
                node.sink_reasons = Vec::new();
                proof {
                    assert(reasons_m(node.sink_reasons@) =~= Seq::<int>::empty());
                }
            }
        }
        // duplicate-definition check
        match &var {
            Some(v) => {
                match self.var_table.get(v.as_slice()) {
                    Some(first) => {
                        return Err(
                            IngestError::DuplicateDefinition {
                                first_line: first + 1,
                                second_line: idx + 1,
                            },
                        );
                    },
                    None => {},
                }
            },
            None => {},
        }
        // fold/drop rules and the variable-table commit
        let ghost nm = NodeModel {
            idx: idx as int,
            preds: crate::tgnode::edges_m(node.preds@),
            reasons: reasons_m(node.sink_reasons@),
            taint: node.taint,
        };
        let mut action = VarAction::NoVar;
        match var {
            Some(v) => {
                let ww_tok: [u8; 12] = [
                    95u8,
                    95u8,
                    119u8,
                    114u8,
                    97u8,
                    112u8,
                    95u8,
                    119u8,
                    114u8,
                    105u8,
                    116u8,
                    101u8,
                ];
                let wm_tok: [u8; 13] = [
                    95u8,
                    95u8,
                    119u8,
                    114u8,
                    97u8,
                    112u8,
                    95u8,
                    109u8,
                    97u8,
                    108u8,
                    108u8,
                    111u8,
                    99u8,
                ];
                proof {
                    assert(ww_tok@ =~= tok_wrap_write());
                    assert(wm_tok@ =~= tok_wrap_malloc());
                }
                let fs = meta.loc.func.as_slice();
                let prior = crate::bytes::bytes_eq(fs, ww_tok.as_slice())
                    || crate::bytes::bytes_eq(fs, wm_tok.as_slice()) || (self.options.no_tmp_instr
                    && crate::parse::is_tmp_var(v.as_slice())) || (self.options.no_libs && (
                file_missing || meta.is_lib()));
                let mut cond = prior;
                if !prior && self.options.unique_locs {
                    let newly = self.locations.insert(meta.loc.addr);
                    cond = !newly;
                }
                if !cond {
                    action = VarAction::Defined;
                    self.var_table.insert(v, idx);
                } else if node.preds.len() == 0 {
                    action = VarAction::Dropped;
                } else if node.preds.len() == 1 {
                    let d = node.preds[0].dest;
                    match d {
                        Some(p) => {
                            let mut same = false;
                            match &self.nodes[p] {
                                Some(pn) => {
                                    if pn.taint == node.taint {
                                        same = true;
                                    }
                                },
                                None => {},
                            }
                            if same {
                                action = VarAction::FoldedTo(p);
                                self.var_table.insert(v, p);
                            } else {
                                action = VarAction::Defined;
                                self.var_table.insert(v, idx);
                            }
                        },
                        None => {
                            action = VarAction::Dropped;
                        },
                    }
                } else {
                    action = VarAction::Defined;
                    self.var_table.insert(v, idx);
                }
            },
            None => {},
        }
        // sink recording
        let is_sink = node.sink_reasons.len() > 0;
        if is_sink {
            self.sinks.push(idx);
        }
        let kept = (match action {
            VarAction::Defined => true,
            _ => false,
        }) || is_sink;
        let taint = node.taint;
        self.nodes.push(Some(node));
        // metadata commit
        if kept {
            meta_db.insert(idx, meta);
        }
        proof {
            lemma_wf_after_push(nodes0, self.nodes@);
            let nodes2 = self.nodes@;
            assert forall|k: Seq<u8>| self.var_table@.contains_key(k) implies node_some_at(
                nodes2,
                #[trigger] self.var_table@[k],
            ) && 0 <= self.var_table@[k] < nodes2.len() by {
                if old(self).var_table@.contains_key(k) && self.var_table@[k] == old(
                    self,
                ).var_table@[k] {
                    assert(node_some_at(nodes0, self.var_table@[k]));
                }
            }
            assert forall|j: int| 0 <= j < self.sinks@.len() implies node_some_at(
                nodes2,
                (#[trigger] self.sinks@[j]) as int,
            ) by {
                if j < old(self).sinks@.len() {
                    assert(node_some_at(nodes0, self.sinks@[j] as int));
                }
            }
            assert forall|i: int|
                0 <= i < nodes2.len() implies ((exists|j: int|
                0 <= j < self.sinks@.len() && (#[trigger] self.sinks@[j]) as int == i) <==> (
            match #[trigger] nodes2[i] {
                Some(n) => n.sink_reasons@.len() > 0,
                None => false,
            })) by {
                if i < nodes0.len() {
                    if exists|j: int|
                        0 <= j < old(self).sinks@.len() && (#[trigger] old(self).sinks@[j]) as int
                            == i {
                        let j = choose|j: int|
                            0 <= j < old(self).sinks@.len() && (#[trigger] old(
                                self,
                            ).sinks@[j]) as int == i;
                        assert(0 <= j < self.sinks@.len() && self.sinks@[j] as int == i);
                    }
                    if exists|j: int|
                        0 <= j < self.sinks@.len() && (#[trigger] self.sinks@[j]) as int == i {
                        let j = choose|j: int|
                            0 <= j < self.sinks@.len() && (#[trigger] self.sinks@[j]) as int == i;
                        assert(0 <= j < old(self).sinks@.len() && old(self).sinks@[j] as int == i);
                    }
                } else {
                    if is_sink {
                        assert(self.sinks@[self.sinks@.len() - 1] as int == i);
                    }
                }
            }
            assert(self.wf());
            if (forall|k: Seq<u8>|
                old(self).var_table@.contains_key(k) ==> old(meta_db).db().contains_key(
                    (#[trigger] old(self).var_table@[k]) as usize,
                )) && (forall|j: int|
                0 <= j < old(self).sinks@.len() ==> old(meta_db).db().contains_key(
                    #[trigger] old(self).sinks@[j],
                )) {
                assert forall|k: Seq<u8>|
                    self.var_table@.contains_key(k) implies meta_db.db().contains_key(
                    (#[trigger] self.var_table@[k]) as usize,
                ) by {
                    if old(self).var_table@.contains_key(k) && self.var_table@[k] == old(
                        self,
                    ).var_table@[k] {
                        assert(old(meta_db).db().contains_key(
                            (old(self).var_table@[k]) as usize,
                        ));
                    } else {
                        match action {
                            VarAction::FoldedTo(p) => {
                                if self.var_table@[k] == p as int {
                                    match self.nodes@[idx as int] {
                                        Some(nd) => {
                                            assert(crate::tgnode::edges_resolved(
                                                nd.preds@,
                                                old(self).var_table@,
                                            ));
                                            let via0 = nd.preds@[0].via@;
                                            assert(nd.preds@[0].m().1 == crate::tgnode::dest_of(
                                                old(self).var_table@,
                                                via0,
                                            ));
                                            assert(old(self).var_table@.contains_key(via0) && old(
                                                self,
                                            ).var_table@[via0] == p as int);
                                            assert(old(meta_db).db().contains_key(p));
                                        },
                                        None => {},
                                    }
                                }
                            },
                            _ => {},
                        }
                    }
                }
                assert forall|j: int|
                    0 <= j < self.sinks@.len() implies meta_db.db().contains_key(
                    #[trigger] self.sinks@[j],
                ) by {
                    if j < old(self).sinks@.len() {
                        assert(old(meta_db).db().contains_key(old(self).sinks@[j]));
                    } else {
                        assert(self.sinks@[j] == idx);
                    }
                }
            }
        }
        Ok(LineOutcome::Processed { taint, sink: is_sink, kept, action })
    }

    /// The candidate predecessors of node `op`, as a list of indices.
    fn collect_cands(&self, op: usize) -> (r: Vec<usize>)
        requires
            self.wf(),
            (op as int) < self.nodes@.len(),
            self.nodes@[op as int] is Some,
        ensures
            r@.map_values(|u: usize| u as int) == cand_preds(self.nodes@, op as int),
            forall|k: int|
                0 <= k < r@.len() ==> (#[trigger] r@[k]) < op && node_some_at(
                    self.nodes@,
                    r@[k] as int,
                ),
    {
        let ghost nodes = self.nodes@;
        let mut r: Vec<usize> = Vec::new();
        match &self.nodes[op] {
            Some(n) => {
                if n.sink_reasons.len() > 0 {
                    let m = n.sink_reasons.len();
                    let mut k: usize = 0;
                    proof {
                        assert(r@.map_values(|u: usize| u as int) =~= reasons_m(
                            n.sink_reasons@.subrange(0, 0),
                        ));
                    }
                    while k < m
                        invariant
                            m == n.sink_reasons@.len(),
                            0 <= k <= m,
                            node_wf_at(nodes, op as int),
                            nodes[op as int] == Some(*n),
                            (op as int) < nodes.len(),
                            r@.map_values(|u: usize| u as int) == reasons_m(
                                n.sink_reasons@.subrange(0, k as int),
                            ),
                            forall|j: int|
                                0 <= j < r@.len() ==> (#[trigger] r@[j]) < op && node_some_at(
                                    nodes,
                                    r@[j] as int,
                                ),
                        decreases m - k,
                    {
                        let ghost old_r = r@;
                        let v = n.sink_reasons[k];
                        r.push(v);
                        proof {
                            assert(n.sink_reasons@.subrange(0, k + 1) =~= n.sink_reasons@.subrange(
                                0,
                                k as int,
                            ).push(v));
                            assert(r@.map_values(|u: usize| u as int) =~= old_r.map_values(
                                |u: usize| u as int,
                            ).push(v as int));
                            assert(reasons_m(n.sink_reasons@.subrange(0, k + 1)) =~= reasons_m(
                                n.sink_reasons@.subrange(0, k as int),
                            ).push(v as int));
                        }
                        k += 1;
                    }
                    proof {
                        assert(n.sink_reasons@.subrange(0, n.sink_reasons@.len() as int)
                            =~= n.sink_reasons@);
                    }
                } else {
                    let ghost pm = crate::tgnode::edges_m(n.preds@);
                    let m = n.preds.len();
                    let mut k: usize = 0;
                    proof {
                        reveal(Seq::filter);
                        assert(pm.subrange(0, 0) =~= Seq::<(Seq<u8>, Option<int>)>::empty());
                        assert(r@.map_values(|u: usize| u as int) =~= present_dests(
                            pm.subrange(0, 0),
                        ));
                    }
                    while k < m
                        invariant
                            m == n.preds@.len(),
                            0 <= k <= m,
                            node_wf_at(nodes, op as int),
                            nodes[op as int] == Some(*n),
                            (op as int) < nodes.len(),
                            pm == crate::tgnode::edges_m(n.preds@),
                            r@.map_values(|u: usize| u as int) == present_dests(
                                pm.subrange(0, k as int),
                            ),
                            forall|j: int|
                                0 <= j < r@.len() ==> (#[trigger] r@[j]) < op && node_some_at(
                                    nodes,
                                    r@[j] as int,
                                ),
                        decreases m - k,
                    {
                        let ghost pre = pm.subrange(0, k as int);
                        let ghost old_r = r@;
                        let e = &n.preds[k];
                        let mut pushed = false;
                        match e.dest {
                            Some(d) => {
                                r.push(d);
                                pushed = true;
                            },
                            None => {},
                        }
                        proof {
                            reveal(Seq::filter);
                            assert(pm[k as int] == n.preds@[k as int].m());
                            assert(pm.subrange(0, k + 1).drop_last() =~= pre);
                            assert(pm.subrange(0, k + 1).last() == pm[k as int]);
                            if pushed {
                                assert(present_dests(pm.subrange(0, k + 1)) =~= present_dests(
                                    pre,
                                ).push(r@.last() as int));
                                assert(r@.map_values(|u: usize| u as int) =~= old_r.map_values(
                                    |u: usize| u as int,
                                ).push(r@.last() as int));
                            } else {
                                assert(present_dests(pm.subrange(0, k + 1)) =~= present_dests(
                                    pre,
                                ));
                            }
                            assert(r@.map_values(|u: usize| u as int) =~= present_dests(
                                pm.subrange(0, k + 1),
                            ));
                        }
                        k += 1;
                    }
                    proof {
                        assert(pm.subrange(0, pm.len() as int) =~= pm);
                    }
                }
            },
            None => {
                proof {
                    assert(false);
                }
            },
        }
        r
    }

    /// Extract the traces that end at `sink`: one per source that the
    /// backward search reaches, each emitted source-first. The search
    /// is an iterative breadth-first walk over candidate predecessors,
    /// following sink reasons at sinks and present edges elsewhere,
    /// never entering a Green node, and expanding Red predecessors
    /// before Blue ones, ties in input order. The result equals
    /// `bfs_traces` of the graph and the sink — a function of its
    /// arguments — so trace order, each path's interior (parents are
    /// first-seen successors), and repeated calls are all determined.
    #[verifier::rlimit(100)]
    pub fn get_traces(&self, sink: usize) -> (r: Vec<Vec<usize>>)
        requires
            self.wf(),
            (sink as int) < self.nodes@.len(),
            self.nodes@[sink as int] is Some,
        ensures
            forall|a: int|
                0 <= a < r@.len() ==> trace_ok(self.nodes@, sink as int, (#[trigger] r@[a])@),
            forall|a: int, b: int|
                0 <= a < b < r@.len() ==> (#[trigger] r@[a])@[0] != (#[trigger] r@[b])@[0],
            forall|s: int|
                (reachable(self.nodes@, sink as int, s) && is_source_at(self.nodes@, s)) <==> (
                exists|a: int| 0 <= a < r@.len() && ((#[trigger] r@[a])@[0]) as int == s),
            r@.map_values(|t: Vec<usize>| t@) == bfs_traces(self.nodes@, sink),
    {
        let ghost nodes = self.nodes@;
        let n = self.nodes.len();
        let mut detected: Vec<Option<Option<usize>>> = Vec::new();
        let mut f: usize = 0;
        while f < n
            invariant
                0 <= f <= n,
                detected@.len() == f,
                forall|i: int| 0 <= i < f ==> (#[trigger] detected@[i]) is None,
                count_detected(detected@) == 0,
            decreases n - f,
        {
            let ghost pre = detected@;
            detected.push(None);
            proof {
                assert(detected@.drop_last() =~= pre);
            }
            f += 1;
        }
        let mut queue: std::collections::VecDeque<usize> = std::collections::VecDeque::new();
        let mut sources: Vec<usize> = Vec::new();
        let ghost mut rank: Map<int, int> = Map::empty();
        let ghost mut next_rank: int = 1;
        let ghost det0 = detected@;
        detected[sink] = Some(None);
        proof {
            rank = rank.insert(sink as int, 0);
            lemma_reachable_sink(nodes, sink as int);
            lemma_count_update(det0, sink as int, Some(None));
        }
        queue.push_back(sink);
        let ghost init = bfs_init(nodes, sink);
        let ghost fin = bfs_run(nodes, init);
        proof {
            assert(detected@ =~= init.det);
            assert(queue@ =~= init.queue);
            assert(sources@ =~= init.sources);
            assert(next_rank == count_detected(detected@));
            assert(det_ok(nodes, sink as int, detected@, rank, next_rank)) by {
                assert forall|i: int| 0 <= i < detected@.len() implies #[trigger] det_entry_ok(
                    nodes,
                    sink as int,
                    detected@,
                    rank,
                    next_rank,
                    i,
                ) by {
                    if detected@[i] is Some {
                        assert(i == sink as int);
                    }
                }
            }
            assert(queue@[0] == sink);
            assert(queue@.contains(sink));
            assert(closure_ok(nodes, detected@, queue@, -1)) by {
                assert forall|i: int, p: int|
                    (0 <= i < detected@.len() && detected@[i] is Some && i != -1
                        && !queue@.contains(i as usize) && #[trigger] step_to(nodes, i, p)) implies (
                0 <= p < detected@.len() && detected@[p] is Some) by {
                    assert(i == sink as int);
                    assert(queue@.contains(i as usize));
                }
            }
            assert(sources_ok(nodes, detected@, queue@, sources@, -1)) by {
                assert forall|i: int|
                    (0 <= i < detected@.len() && detected@[i] is Some && i != -1
                        && !queue@.contains(i as usize) && is_source_at(nodes, i)) implies sources@.contains(
                    i as usize,
                ) by {
                    assert(i == sink as int);
                    assert(queue@.contains(i as usize));
                }
            }
        }
        while queue.len() > 0
            invariant
                self.wf(),
                nodes == self.nodes@,
                n == nodes.len(),
                (sink as int) < n,
                nodes[sink as int] is Some,
                detected@.len() == n,
                detected@[sink as int] is Some,
                det_ok(nodes, sink as int, detected@, rank, next_rank),
                queue_ok(detected@, queue@),
                closure_ok(nodes, detected@, queue@, -1),
                sources_ok(nodes, detected@, queue@, sources@, -1),
                next_rank == count_detected(detected@),
                fin == bfs_run(nodes, bfs_init(nodes, sink)),
                bfs_run(
                    nodes,
                    BfsState { det: detected@, queue: queue@, sources: sources@ },
                ) == fin,
            decreases queue@.len() + (n - count_detected(detected@)),
        {
            let ghost old_queue = queue@;
            let ghost old_det = detected@;
            let ghost old_sources = sources@;
            let ghost pre_state = BfsState { det: old_det, queue: old_queue, sources: old_sources };
            proof {
                lemma_count_le(detected@);
            }
            let op = match queue.pop_front() {
                Some(x) => x,
                None => {
                    proof {
                        assert(false);
                    }
                    return Vec::new();
                },
            };
            proof {
                assert(detected@[op as int] is Some);
                assert(!queue@.contains(op)) by {
                    if queue@.contains(op) {
                        let qi = choose|qi: int| 0 <= qi < queue@.len() && queue@[qi] == op;
                        assert(old_queue[qi + 1] == op);
                        assert(old_queue[0] == op);
                    }
                }
                assert forall|x: usize| old_queue.contains(x) && x != op implies queue@.contains(
                    x,
                ) by {
                    let qi = choose|qi: int| 0 <= qi < old_queue.len() && old_queue[qi] == x;
                    assert(qi != 0);
                    assert(queue@[qi - 1] == x);
                }
                assert forall|x: usize| queue@.contains(x) implies old_queue.contains(x) by {
                    let qi = choose|qi: int| 0 <= qi < queue@.len() && queue@[qi] == x;
                    assert(old_queue[qi + 1] == x);
                }
                assert(det_entry_ok(nodes, sink as int, detected@, rank, next_rank, op as int));
            }
            let mut op_is_source = false;
            match &self.nodes[op] {
                Some(nd) => {
                    if nd.is_source() {
                        op_is_source = true;
                    }
                },
                None => {
                    proof {
                        assert(false);
                    }
                },
            }
            if op_is_source {
                sources.push(op);
                proof {
                    lemma_source_no_cands(nodes, op as int);
                    assert(is_source_at(nodes, op as int));
                    assert(pre_state.queue.subrange(1, pre_state.queue.len() as int) =~= queue@);
                    assert(bfs_step(nodes, pre_state) == BfsState {
                        det: detected@,
                        queue: queue@,
                        sources: sources@,
                    });
                    assert(bfs_run(nodes, pre_state) == bfs_run(
                        nodes,
                        bfs_step(nodes, pre_state),
                    ));
                    assert(closure_ok(nodes, detected@, queue@, -1)) by {
                        assert forall|i: int, p: int|
                            (0 <= i < detected@.len() && detected@[i] is Some && i != -1
                                && !queue@.contains(i as usize) && #[trigger] step_to(
                                nodes,
                                i,
                                p,
                            )) implies (0 <= p < detected@.len() && detected@[p] is Some) by {
                            if i == op as int {
                                assert(cand_preds(nodes, i).contains(p));
                                assert(false);
                            } else {
                                assert(!old_queue.contains(i as usize));
                            }
                        }
                    }
                    assert(sources_ok(nodes, detected@, queue@, sources@, -1)) by {
                        assert forall|i: int|
                            (0 <= i < detected@.len() && detected@[i] is Some && i != -1
                                && !queue@.contains(i as usize) && is_source_at(
                                nodes,
                                i,
                            )) implies sources@.contains(i as usize) by {
                            if i == op as int {
                                assert(sources@.last() == op);
                            } else {
                                assert(!old_queue.contains(i as usize));
                                assert(old_sources.contains(i as usize));
                                let a = choose|a: int|
                                    0 <= a < old_sources.len() && old_sources[a] == i as usize;
                                assert(sources@[a] == i as usize);
                            }
                        }
                        assert forall|a: int|
                            0 <= a < sources@.len() implies ((#[trigger] sources@[a]) as int) < n
                                && detected@[sources@[a] as int] is Some && is_source_at(
                                nodes,
                                sources@[a] as int,
                            ) && !queue@.contains(sources@[a]) && sources@[a] as int != -1 by {
                            if a < old_sources.len() {
                                assert(!old_queue.contains(old_sources[a]));
                            }
                        }
                    }
                }
                continue ;
            }
            let cands = self.collect_cands(op);
            let ghost cs = cand_preds(nodes, op as int);
            let ghost det_b = detected@;
            let ghost q_b = queue@;
            let ghost pass1 = enqueue_pass(nodes, op, cs, 0, true, det_b, q_b);
            let ghost pass2 = enqueue_pass(nodes, op, cs, 0, false, pass1.0, pass1.1);
            let mut pass: usize = 0;
            while pass < 2
                invariant
                    self.wf(),
                    nodes == self.nodes@,
                    n == nodes.len(),
                    (sink as int) < n,
                    nodes[sink as int] is Some,
                    detected@.len() == n,
                    detected@[sink as int] is Some,
                    0 <= pass <= 2,
                    (op as int) < n,
                    detected@[op as int] is Some,
                    !queue@.contains(op),
                    cs == cand_preds(nodes, op as int),
                    cands@.map_values(|u: usize| u as int) == cs,
                    forall|j: int|
                        0 <= j < cands@.len() ==> (#[trigger] cands@[j]) < op && node_some_at(
                            nodes,
                            cands@[j] as int,
                        ),
                    det_ok(nodes, sink as int, detected@, rank, next_rank),
                    queue_ok(detected@, queue@),
                    closure_ok(nodes, detected@, queue@, op as int),
                    sources_ok(nodes, detected@, queue@, sources@, op as int),
                    pass >= 1 ==> (forall|j: int|
                        0 <= j < cands@.len() && taint_at(nodes, (#[trigger] cands@[j]) as int)
                            == Taint::Red ==> detected@[cands@[j] as int] is Some),
                    pass >= 2 ==> (forall|j: int|
                        0 <= j < cands@.len() && taint_at(nodes, (#[trigger] cands@[j]) as int)
                            != Taint::Green ==> detected@[cands@[j] as int] is Some),
                    queue@.len() + (n - count_detected(detected@)) <= old_queue.len() - 1 + (n
                        - count_detected(old_det)),
                    next_rank == count_detected(detected@),
                    sources@ == old_sources,
                    pass1 == enqueue_pass(nodes, op, cs, 0, true, det_b, q_b),
                    pass2 == enqueue_pass(nodes, op, cs, 0, false, pass1.0, pass1.1),
                    pass == 0 ==> detected@ == det_b && queue@ == q_b,
                    pass == 1 ==> detected@ == pass1.0 && queue@ == pass1.1,
                    pass == 2 ==> detected@ == pass2.0 && queue@ == pass2.1,
                decreases 2 - pass,
            {
                let want_red = pass == 0;
                let m = cands.len();
                let mut k: usize = 0;
                while k < m
                    invariant
                        self.wf(),
                        nodes == self.nodes@,
                        n == nodes.len(),
                        (sink as int) < n,
                        nodes[sink as int] is Some,
                        detected@.len() == n,
                        detected@[sink as int] is Some,
                        m == cands@.len(),
                        0 <= k <= m,
                        (op as int) < n,
                        detected@[op as int] is Some,
                        !queue@.contains(op),
                        cs == cand_preds(nodes, op as int),
                        cands@.map_values(|u: usize| u as int) == cs,
                        forall|j: int|
                            0 <= j < cands@.len() ==> (#[trigger] cands@[j]) < op && node_some_at(
                                nodes,
                                cands@[j] as int,
                            ),
                        det_ok(nodes, sink as int, detected@, rank, next_rank),
                        queue_ok(detected@, queue@),
                        closure_ok(nodes, detected@, queue@, op as int),
                        sources_ok(nodes, detected@, queue@, sources@, op as int),
                        !want_red ==> (forall|j: int|
                            0 <= j < cands@.len() && taint_at(
                                nodes,
                                (#[trigger] cands@[j]) as int,
                            ) == Taint::Red ==> detected@[cands@[j] as int] is Some),
                        forall|j: int|
                            0 <= j < k && (if want_red {
                                taint_at(nodes, (#[trigger] cands@[j]) as int) == Taint::Red
                            } else {
                                taint_at(nodes, (#[trigger] cands@[j]) as int) != Taint::Green
                            }) ==> detected@[cands@[j] as int] is Some,
                        queue@.len() + (n - count_detected(detected@)) <= old_queue.len() - 1 + (n
                            - count_detected(old_det)),
                        next_rank == count_detected(detected@),
                        sources@ == old_sources,
                        (if want_red {
                            pass1
                        } else {
                            pass2
                        }) == enqueue_pass(nodes, op, cs, k as int, want_red, detected@, queue@),
                    decreases m - k,
                {
                    let c = cands[k];
                    let ghost det_at_k = detected@;
                    let ghost q_at_k = queue@;
                    let mut elig = false;
                    match &self.nodes[c] {
                        Some(cn) => {
                            let red = match cn.taint {
                                Taint::Red => true,
                                _ => false,
                            };
                            let green = match cn.taint {
                                Taint::Green => true,
                                _ => false,
                            };
                            if (if want_red {
                                red
                            } else {
                                !green && !red
                            }) {
                                match detected[c] {
                                    None => {
                                        elig = true;
                                    },
                                    Some(_) => {},
                                }
                            }
                        },
                        None => {
                            proof {
                                assert(false);
                            }
                        },
                    }
                    proof {
                        assert(cs[k as int] == cands@[k as int] as int);
                        assert(elig == eligible(nodes, det_at_k, cs[k as int], want_red));
                    }
                    if elig {
                        let ghost pre_det = detected@;
                        let ghost pre_queue = queue@;
                        let ghost pre_rank = rank;
                        detected[c] = Some(Some(op));
                        queue.push_back(c);
                        proof {
                            rank = rank.insert(c as int, next_rank);
                            next_rank = next_rank + 1;
                            lemma_count_update(pre_det, c as int, Some(Some(op)));
                            assert(detected@ == pre_det.update(cs[k as int], Some(Some(op))));
                            assert(queue@ == pre_queue.push(cs[k as int] as usize));
                            assert(enqueue_pass(nodes, op, cs, k as int, want_red, pre_det, pre_queue)
                                == enqueue_pass(nodes, op, cs, k + 1, want_red, detected@, queue@));
                            assert(cs.contains(cands@[k as int] as int)) by {
                                assert(cs[k as int] == cands@[k as int] as int);
                            }
                            assert(step_to(nodes, op as int, c as int));
                            assert(det_entry_ok(
                                nodes,
                                sink as int,
                                pre_det,
                                pre_rank,
                                next_rank - 1,
                                op as int,
                            ));
                            assert(reachable(nodes, sink as int, op as int));
                            lemma_reachable_step(nodes, sink as int, op as int, c as int);
                            assert(det_ok(nodes, sink as int, detected@, rank, next_rank)) by {
                                assert forall|i: int|
                                    0 <= i < detected@.len() implies #[trigger] det_entry_ok(
                                    nodes,
                                    sink as int,
                                    detected@,
                                    rank,
                                    next_rank,
                                    i,
                                ) by {
                                    if i != c as int {
                                        assert(det_entry_ok(
                                            nodes,
                                            sink as int,
                                            pre_det,
                                            pre_rank,
                                            next_rank - 1,
                                            i,
                                        ));
                                    } else {
                                        assert(det_entry_ok(
                                            nodes,
                                            sink as int,
                                            pre_det,
                                            pre_rank,
                                            next_rank - 1,
                                            op as int,
                                        ));
                                    }
                                }
                            }
                            assert(queue_ok(detected@, queue@)) by {
                                assert forall|a: int, b: int|
                                    0 <= a < b < queue@.len() implies queue@[a] != queue@[b] by {
                                    if b == queue@.len() - 1 {
                                        assert(pre_det[pre_queue[a] as int] is Some);
                                    }
                                }
                            }
                            assert(closure_ok(nodes, detected@, queue@, op as int)) by {
                                assert forall|i: int, p: int|
                                    (0 <= i < detected@.len() && detected@[i] is Some && i
                                        != op as int && !queue@.contains(i as usize)
                                        && #[trigger] step_to(nodes, i, p)) implies (0 <= p
                                        < detected@.len() && detected@[p] is Some) by {
                                    if i != c as int {
                                        assert(pre_det[i] is Some);
                                        assert(!pre_queue.contains(i as usize)) by {
                                            if pre_queue.contains(i as usize) {
                                                let qi = choose|qi: int|
                                                    0 <= qi < pre_queue.len() && pre_queue[qi]
                                                        == i as usize;
                                                assert(queue@[qi] == i as usize);
                                            }
                                        }
                                    } else {
                                        assert(queue@.last() == c);
                                        assert(queue@.contains(i as usize));
                                        assert(false);
                                    }
                                }
                            }
                            assert(sources_ok(nodes, detected@, queue@, sources@, op as int)) by {
                                assert forall|a: int|
                                    0 <= a < sources@.len() implies ((
                                    #[trigger] sources@[a]) as int) < n && detected@[sources@[a] as int]
                                        is Some && is_source_at(nodes, sources@[a] as int)
                                        && !queue@.contains(sources@[a]) && sources@[a] as int
                                        != op as int by {
                                    assert(!pre_queue.contains(sources@[a]));
                                    assert(pre_det[sources@[a] as int] is Some);
                                    assert(sources@[a] != c);
                                    assert forall|qk: int|
                                        0 <= qk < queue@.len() implies queue@[qk]
                                            != sources@[a] by {
                                        if qk < pre_queue.len() {
                                            assert(pre_queue[qk] == queue@[qk]);
                                        }
                                    }
                                    if queue@.contains(sources@[a]) {
                                        let qi = choose|qi: int|
                                            0 <= qi < queue@.len() && queue@[qi] == sources@[a];
                                    }
                                }
                                assert forall|i: int|
                                    (0 <= i < detected@.len() && detected@[i] is Some && i
                                        != op as int && !queue@.contains(i as usize)
                                        && is_source_at(nodes, i)) implies sources@.contains(
                                    i as usize,
                                ) by {
                                    if i != c as int {
                                        assert(pre_det[i] is Some);
                                        assert(!pre_queue.contains(i as usize)) by {
                                            if pre_queue.contains(i as usize) {
                                                let qi = choose|qi: int|
                                                    0 <= qi < pre_queue.len() && pre_queue[qi]
                                                        == i as usize;
                                                assert(queue@[qi] == i as usize);
                                            }
                                        }
                                    } else {
                                        assert(queue@.last() == c);
                                        assert(queue@.contains(i as usize));
                                        assert(false);
                                    }
                                }
                            }
                        }
                    } else {
                        proof {
                            assert(enqueue_pass(nodes, op, cs, k as int, want_red, detected@, queue@)
                                == enqueue_pass(nodes, op, cs, k + 1, want_red, detected@, queue@));
                        }
                    }
                    k += 1;
                }
                proof {
                    assert(enqueue_pass(nodes, op, cs, m as int, want_red, detected@, queue@) == (
                        detected@,
                        queue@,
                    ));
                }
                pass += 1;
            }
            proof {
                assert(closure_ok(nodes, detected@, queue@, -1)) by {
                    assert forall|i: int, p: int|
                        (0 <= i < detected@.len() && detected@[i] is Some && i != -1
                            && !queue@.contains(i as usize) && #[trigger] step_to(
                            nodes,
                            i,
                            p,
                        )) implies (0 <= p < detected@.len() && detected@[p] is Some) by {
                        if i == op as int {
                            assert(cs.contains(p));
                            let ck = choose|ck: int| 0 <= ck < cs.len() && cs[ck] == p;
                            assert(cands@.map_values(|u: usize| u as int)[ck] == p);
                            assert(cands@[ck] as int == p);
                            assert(taint_at(nodes, p) != Taint::Green);
                        }
                    }
                }
                assert(sources_ok(nodes, detected@, queue@, sources@, -1)) by {
                    assert forall|i: int|
                        (0 <= i < detected@.len() && detected@[i] is Some && i != -1
                            && !queue@.contains(i as usize) && is_source_at(
                            nodes,
                            i,
                        )) implies sources@.contains(i as usize) by {
                        if i == op as int {
                            assert(det_entry_ok(
                                nodes,
                                sink as int,
                                detected@,
                                rank,
                                next_rank,
                                i,
                            ));
                            assert(node_some_at(nodes, i));
                            match nodes[i] {
                                Some(nd) => {
                                    assert(crate::tgnode::is_source_spec(nd));
                                    assert(false);
                                },
                                None => {},
                            }
                        }
                    }
                }
                lemma_count_le(detected@);
                assert(pre_state.queue[0] == op);
                assert(!is_source_at(nodes, op as int));
                assert(bfs_step(nodes, pre_state) == BfsState {
                    det: detected@,
                    queue: queue@,
                    sources: sources@,
                });
                assert(bfs_run(nodes, pre_state) == bfs_run(nodes, bfs_step(nodes, pre_state)));
            }
        }
        proof {
            assert(bfs_run(
                nodes,
                BfsState { det: detected@, queue: queue@, sources: sources@ },
            ) == BfsState { det: detected@, queue: queue@, sources: sources@ });
            assert(detected@ == fin.det);
            assert(sources@ == fin.sources);
            lemma_count_le(detected@);
        }
        // every reachable node is now detected; build one trace per source
        let mut result: Vec<Vec<usize>> = Vec::new();
        let mut si: usize = 0;
        while si < sources.len()
            invariant
                self.wf(),
                nodes == self.nodes@,
                n == nodes.len(),
                (sink as int) < n,
                nodes[sink as int] is Some,
                detected@.len() == n,
                detected@[sink as int] is Some,
                0 <= si <= sources@.len(),
                result@.len() == si,
                det_ok(nodes, sink as int, detected@, rank, next_rank),
                next_rank <= n,
                fin == bfs_run(nodes, bfs_init(nodes, sink)),
                detected@ == fin.det,
                sources@ == fin.sources,
                forall|a: int|
                    0 <= a < sources@.len() ==> ((#[trigger] sources@[a]) as int) < n
                        && detected@[sources@[a] as int] is Some && is_source_at(
                        nodes,
                        sources@[a] as int,
                    ),
                forall|a: int, b: int|
                    0 <= a < b < sources@.len() ==> sources@[a] != sources@[b],
                forall|a: int|
                    0 <= a < si ==> trace_ok(nodes, sink as int, (#[trigger] result@[a])@) && (
                    result@[a])@[0] == sources@[a] && (result@[a])@ == walk_path(
                        detected@,
                        sources@[a],
                        n as nat,
                    ),
            decreases sources@.len() - si,
        {
            let src = sources[si];
            let mut trace: Vec<usize> = Vec::new();
            trace.push(src);
            let mut cur = src;
            proof {
                assert(det_entry_ok(nodes, sink as int, detected@, rank, next_rank, cur as int));
                assert(trace@.drop_last() =~= Seq::<usize>::empty());
                assert(walk_path(detected@, src, n as nat) =~= trace@.drop_last() + walk_path(
                    detected@,
                    cur,
                    (n - (trace@.len() - 1)) as nat,
                ));
            }
            loop
                invariant
                    nodes == self.nodes@,
                    n == nodes.len(),
                    (sink as int) < n,
                    detected@.len() == n,
                    det_ok(nodes, sink as int, detected@, rank, next_rank),
                    trace@.len() >= 1,
                    trace@[0] == src,
                    trace@.last() == cur,
                    (cur as int) < n,
                    detected@[cur as int] is Some,
                    rank.contains_key(cur as int),
                    0 <= rank[cur as int],
                    rank.contains_key(src as int),
                    0 <= rank[src as int] < next_rank,
                    next_rank <= n,
                    trace@.len() - 1 + rank[cur as int] <= rank[src as int],
                    walk_path(detected@, src, n as nat) == trace@.drop_last() + walk_path(
                        detected@,
                        cur,
                        (n - (trace@.len() - 1)) as nat,
                    ),
                    forall|a: int|
                        0 <= a < trace@.len() ==> ((#[trigger] trace@[a]) as int) < n
                            && detected@[trace@[a] as int] is Some && node_some_at(
                            nodes,
                            trace@[a] as int,
                        ) && rank.contains_key(trace@[a] as int),
                    forall|a: int|
                        0 <= a < trace@.len() - 1 ==> step_to(
                            nodes,
                            trace@[a + 1] as int,
                            (#[trigger] trace@[a]) as int,
                        ) && taint_at(nodes, (#[trigger] trace@[a]) as int) != Taint::Green,
                    forall|a: int, b: int|
                        0 <= a < b < trace@.len() ==> rank[(#[trigger] trace@[b]) as int] < rank[(
                        #[trigger] trace@[a]) as int],
                ensures
                    cur == sink,
                    trace@.last() == cur,
                    trace@.len() >= 1,
                    trace@[0] == src,
                    trace@ == walk_path(detected@, src, n as nat),
                    forall|a: int|
                        0 <= a < trace@.len() ==> ((#[trigger] trace@[a]) as int) < n
                            && node_some_at(nodes, trace@[a] as int),
                    forall|a: int|
                        0 <= a < trace@.len() - 1 ==> step_to(
                            nodes,
                            trace@[a + 1] as int,
                            (#[trigger] trace@[a]) as int,
                        ) && taint_at(nodes, (#[trigger] trace@[a]) as int) != Taint::Green,
                    forall|a: int, b: int|
                        0 <= a < b < trace@.len() ==> rank[(#[trigger] trace@[b]) as int] < rank[(
                        #[trigger] trace@[a]) as int],
                decreases rank[cur as int],
            {
                proof {
                    assert(det_entry_ok(
                        nodes,
                        sink as int,
                        detected@,
                        rank,
                        next_rank,
                        cur as int,
                    ));
                }
                let ghost t = trace@.len() - 1;
                let ghost fuel = (n - t) as nat;
                let ghost old_trace = trace@;
                let ghost prev = cur;
                let link = detected[cur];
                match link {
                    Some(inner) => {
                        match inner {
                            Some(s) => {
                                trace.push(s);
                                cur = s;
                                proof {
                                    assert(det_entry_ok(
                                        nodes,
                                        sink as int,
                                        detected@,
                                        rank,
                                        next_rank,
                                        cur as int,
                                    ));
                                    assert(fuel >= 1);
                                    assert(walk_path(detected@, prev, fuel) == seq![prev]
                                        + walk_path(detected@, s, (fuel - 1) as nat));
                                    assert(trace@.drop_last() =~= old_trace);
                                    assert(old_trace.drop_last() + walk_path(detected@, prev, fuel)
                                        =~= trace@.drop_last() + walk_path(
                                        detected@,
                                        cur,
                                        (n - (trace@.len() - 1)) as nat,
                                    ));
                                }
                            },
                            None => {
                                proof {
                                    assert(cur == sink);
                                    assert(walk_path(detected@, cur, fuel) =~= seq![cur]);
                                    assert(trace@.drop_last() + walk_path(detected@, cur, fuel)
                                        =~= trace@);
                                }
                                break ;
                            },
                        }
                    },
                    None => {
                        proof {
                            assert(false);
                        }
                        break ;
                    },
                }
            }
            proof {
                assert(trace@.last() as int == sink as int);
                assert(is_source_at(nodes, trace@[0] as int));
                assert forall|a: int, b: int| 0 <= a < b < trace@.len() implies trace@[a]
                    != trace@[b] by {
                    assert(rank[trace@[b] as int] < rank[trace@[a] as int]);
                }
                assert(trace_ok(nodes, sink as int, trace@));
                assert(trace@ == walk_path(detected@, sources@[si as int], n as nat));
            }
            result.push(trace);
            si += 1;
        }
        proof {
            assert forall|s: int|
                (reachable(nodes, sink as int, s) && is_source_at(nodes, s)) implies (exists|a: int|
                0 <= a < result@.len() && ((#[trigger] result@[a])@[0]) as int == s) by {
                let ch = choose|ch: Seq<int>| back_chain(nodes, sink as int, ch) && ch.last() == s;
                assert forall|i: int, p: int|
                    0 <= i < detected@.len() && detected@[i] is Some && #[trigger] step_to(
                    nodes,
                    i,
                    p,
                ) implies 0 <= p < detected@.len() && detected@[p] is Some by {
                    assert(!queue@.contains(i as usize));
                }
                lemma_closed_detected(nodes, sink as int, detected@, ch);
                assert(detected@[s] is Some);
                assert(sources@.contains(s as usize));
                let a = choose|a: int| 0 <= a < sources@.len() && sources@[a] == s as usize;
                assert((result@[a])@[0] as int == s);
            }
            assert forall|s: int|
                (exists|a: int| 0 <= a < result@.len() && ((#[trigger] result@[a])@[0]) as int
                    == s) implies (reachable(nodes, sink as int, s) && is_source_at(
                nodes,
                s,
            )) by {
                let a = choose|a: int|
                    0 <= a < result@.len() && ((#[trigger] result@[a])@[0]) as int == s;
                assert(sources@[a] as int == s);
                assert(detected@[s] is Some);
                assert(det_entry_ok(nodes, sink as int, detected@, rank, next_rank, s));
            }
            assert(result@.map_values(|t: Vec<usize>| t@) =~= bfs_traces(nodes, sink)) by {
                let expect = fin.sources.map_values(
                    |s: usize| walk_path(fin.det, s, nodes.len()),
                );
                assert(result@.len() == sources@.len());
                assert forall|a: int| 0 <= a < result@.len() implies result@.map_values(
                    |t: Vec<usize>| t@,
                )[a] == expect[a] by {
                    assert((result@[a])@ == walk_path(detected@, sources@[a], n as nat));
                    assert(fin.sources[a] == sources@[a]);
                }
            }
        }
        result
    }

    /// The node index the variable `name` currently resolves to.
    pub fn lookup_var(&self, name: &[u8]) -> (r: Option<usize>)
        requires
            self.wf(),
        ensures
            match r {
                Some(i) => self.var_table@.contains_key(name@) && self.var_table@[name@]
                    == i as int,
                None => !self.var_table@.contains_key(name@),
            },
    {
        self.var_table.get(name)
    }
}

/// The node stored at index `i` of the arena.
pub open spec fn node_at(nodes: Seq<Option<TgNode>>, i: int) -> TgNode {
    match nodes[i] {
        Some(n) => n,
        None => arbitrary(),
    }
}

/// Acyclicity: in a well-formed graph, every present edge and every
/// sink reason of a node points at a node with a strictly smaller
/// index. Ingestion preserves well-formedness, so this holds after
/// every insertion.
pub proof fn lemma_acyclicity(g: Graph, i: int)
    requires
        g.wf(),
        0 <= i < g.nodes@.len(),
        g.nodes@[i] is Some,
    ensures
        forall|k: int|
            0 <= k < node_at(g.nodes@, i).preds@.len() ==> (match (#[trigger] node_at(
                g.nodes@,
                i,
            ).preds@[k]).dest {
                Some(d) => d < i,
                None => true,
            }),
        forall|k: int|
            0 <= k < node_at(g.nodes@, i).sink_reasons@.len() ==> (#[trigger] node_at(
                g.nodes@,
                i,
            ).sink_reasons@[k]) < i,
{
    assert(node_wf_at(g.nodes@, i));
}

/// Uniqueness of definitions: in a well-formed graph the variable
/// table is a map, so a name resolves to at most one node; and the
/// ingestion of a line that defines a name the table already holds is
/// rejected as a duplicate definition, leaving the graph unchanged.
pub proof fn lemma_unique_definitions(
    opts: Options,
    table: Map<Seq<u8>, int>,
    locations: Set<u64>,
    nodes: Seq<Option<TgNode>>,
    line: Seq<u8>,
    file_missing: bool,
)
    ensures
        ({
            let st = ingest_step(opts, table, locations, nodes, line, file_missing);
            match line_parts_spec(line) {
                Some(parts) => match build_node(
                    parts.0,
                    parts.1,
                    parts.2,
                    nodes.len() as int,
                    table,
                    nodes,
                ) {
                    Ok(pair) => match pair.0 {
                        Some(v) => (table.contains_key(v) && meta_loc_spec(parts.0) is Ok) ==> ((
                        st.result matches Err(IngestError::DuplicateDefinition { .. }))
                            && st.table == table),
                        None => true,
                    },
                    Err(_) => true,
                },
                None => true,
            }
        }),
{
}

/// One of the emitted traces begins at node `h`.
pub open spec fn head_in(r: Seq<Vec<usize>>, h: usize) -> bool {
    exists|b: int| 0 <= b < r.len() && ((#[trigger] r[b])@[0]) == h
}

/// Determinism of extraction: any two trace lists that satisfy the
/// extractor's characterization for the same graph and sink name the
/// same sources. The graph is not changed by extraction, so the set
/// of (sink, sources) pairs over a run is independent of the order in
/// which sinks are queried.
pub proof fn lemma_source_set_deterministic(
    nodes: Seq<Option<TgNode>>,
    sink: int,
    r1: Seq<Vec<usize>>,
    r2: Seq<Vec<usize>>,
)
    requires
        forall|s: int|
            #![trigger reachable(nodes, sink, s)]
            (reachable(nodes, sink, s) && is_source_at(nodes, s)) <==> (exists|a: int|
                0 <= a < r1.len() && ((#[trigger] r1[a])@[0]) as int == s),
        forall|s: int|
            #![trigger reachable(nodes, sink, s)]
            (reachable(nodes, sink, s) && is_source_at(nodes, s)) <==> (exists|a: int|
                0 <= a < r2.len() && ((#[trigger] r2[a])@[0]) as int == s),
    ensures
        forall|a: int| #![trigger r1[a]] 0 <= a < r1.len() ==> head_in(r2, (r1[a])@[0]),
        forall|b: int| #![trigger r2[b]] 0 <= b < r2.len() ==> head_in(r1, (r2[b])@[0]),
{
    assert(forall|s: int|
        #![trigger reachable(nodes, sink, s)]
        (reachable(nodes, sink, s) && is_source_at(nodes, s)) <==> (exists|a: int|
            0 <= a < r1.len() && ((#[trigger] r1[a])@[0]) as int == s));
    assert forall|a: int| #![trigger r1[a]] 0 <= a < r1.len() implies head_in(
        r2,
        (r1[a])@[0],
    ) by {
        let s = (r1[a])@[0] as int;
        assert(exists|a2: int| 0 <= a2 < r1.len() && ((#[trigger] r1[a2])@[0]) as int == s) by {
            assert(0 <= a < r1.len() && ((r1[a])@[0]) as int == s);
        }
        assert(reachable(nodes, sink, s) && is_source_at(nodes, s));
        let b = choose|b: int| 0 <= b < r2.len() && ((#[trigger] r2[b])@[0]) as int == s;
        assert(((r2[b])@[0]) == (r1[a])@[0]);
    }
    assert forall|b: int| #![trigger r2[b]] 0 <= b < r2.len() implies head_in(
        r1,
        (r2[b])@[0],
    ) by {
        let s = (r2[b])@[0] as int;
        assert(exists|b2: int| 0 <= b2 < r2.len() && ((#[trigger] r2[b2])@[0]) as int == s) by {
            assert(0 <= b < r2.len() && ((r2[b])@[0]) as int == s);
        }
        assert(reachable(nodes, sink, s) && is_source_at(nodes, s));
        let a = choose|a: int| 0 <= a < r1.len() && ((#[trigger] r1[a])@[0]) as int == s;
        assert(((r1[a])@[0]) == (r2[b])@[0]);
    }
}

/// Sink classification: an index is in the sink list exactly when its
/// node exists and its sink-reason list is non-empty. Nodes are never
/// mutated after insertion, so the reasons seen here are the reasons
/// at insertion time.
pub proof fn lemma_sink_classification(g: Graph, i: int)
    requires
        g.wf(),
        0 <= i < g.nodes@.len(),
    ensures
        (exists|j: int| 0 <= j < g.sinks@.len() && (#[trigger] g.sinks@[j]) as int == i) <==> (
        g.nodes@[i] is Some && node_at(g.nodes@, i).sink_reasons@.len() > 0),
{
}

} // verus!
