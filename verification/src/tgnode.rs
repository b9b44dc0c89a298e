//! Taint colors and taint-graph nodes.
//!
//! One node is built per accepted log line. Node building has three
//! stages: analysing the taint-flow field (predecessor edges, memory
//! sink reasons, and the defined variable), computing the taint color
//! (inheritance, then command-driven refinement), and computing the
//! remaining sink reasons (exit calls and branches on dangerous
//! values). Each stage is specified by spec functions over the
//! variable-table view and the node arena, and the builder is proved
//! equal to their composition.

use vstd::prelude::*;

use crate::bytes::find_from;
use crate::bytes::starts_with_spec;
use crate::bytes::split_spec;
use crate::bytes::split_bytes;
use crate::parse::Clause;
use crate::parse::ClauseSpec;
use crate::parse::clause_spec;
use crate::parse::if_cond;
use crate::parse::if_cond_exec;
use crate::parse::sub_subtrahend;
use crate::parse::sub_subtrahend_exec;
use crate::parse::ternary_cond;
use crate::parse::ternary_cond_exec;
use crate::vartable::VarTable;

verus! {

/// The three-valued taint classification of a node.
///
/// `Green` is untainted, `Blue` carries taint in a harmless use, and
/// `Red` carries taint in a dangerous use. Taint inheritance joins
/// colors in the order `Green <= Blue <= Red`.
#[derive(Clone, Copy, PartialEq, Eq, Structural, Debug)]
pub enum Taint {
    Red,
    Blue,
    Green,
}

impl Taint {
    /// Single-character abbreviation of the color.
    pub fn abbrv(&self) -> (r: &'static str)
        ensures
            r@ == self.abbrv_spec(),
    {
        match *self {
            Taint::Red => "R",
            Taint::Blue => "B",
            Taint::Green => "G",
        }
    }

    /// The abbreviation as a sequence of characters.
    pub open spec fn abbrv_spec(self) -> Seq<char> {
        match self {
            Taint::Red => "R"@,
            Taint::Blue => "B"@,
            Taint::Green => "G"@,
        }
    }
}

/// An edge to a predecessor: the variable name over which the
/// predecessor was reached, and the predecessor's index when that
/// variable was defined earlier.
pub struct TgEdge {
    pub via: Vec<u8>,
    pub dest: Option<usize>,
}

impl TgEdge {
    /// The specification-level value of this edge.
    pub open spec fn m(&self) -> (Seq<u8>, Option<int>) {
        (
            self.via@,
            match self.dest {
                Some(i) => Some(i as int),
                None => None,
            },
        )
    }
}

/// The specification-level values of an edge list.
pub open spec fn edges_m(es: Seq<TgEdge>) -> Seq<(Seq<u8>, Option<int>)> {
    es.map_values(|e: TgEdge| e.m())
}

/// The specification-level values of a sink-reason list.
pub open spec fn reasons_m(rs: Seq<usize>) -> Seq<int> {
    rs.map_values(|u: usize| u as int)
}

/// One node of the taint graph. `idx` is the 0-based ordinal of the
/// log line the node was built from and serves as its identity.
pub struct TgNode {
    pub idx: usize,
    pub preds: Vec<TgEdge>,
    pub sink_reasons: Vec<usize>,
    pub taint: Taint,
}

/// The taint of the node at index `i` of the arena; absent or
/// out-of-range entries count as untainted.
pub open spec fn taint_at(nodes: Seq<Option<TgNode>>, i: int) -> Taint {
    if 0 <= i < nodes.len() {
        match nodes[i] {
            Some(n) => n.taint,
            None => Taint::Green,
        }
    } else {
        Taint::Green
    }
}

/// The node index a variable name resolves to, if the table knows it.
pub open spec fn dest_of(table: Map<Seq<u8>, int>, name: Seq<u8>) -> Option<int> {
    if table.contains_key(name) {
        Some(table[name])
    } else {
        None
    }
}

/// Whether `name` resolves to a node whose taint is Red.
pub open spec fn red_lookup(table: Map<Seq<u8>, int>, nodes: Seq<Option<TgNode>>, name: Seq<u8>) -> bool {
    table.contains_key(name) && taint_at(nodes, table[name]) == Taint::Red
}

/// The edges contributed by one right-hand-side variable list.
pub open spec fn pred_edges(rhs: Seq<Seq<u8>>, table: Map<Seq<u8>, int>) -> Seq<
    (Seq<u8>, Option<int>),
> {
    rhs.map_values(|f: Seq<u8>| (f, dest_of(table, f)))
}

/// The sink reasons contributed by one dereference or store clause:
/// each named variable that resolves to a Red node.
pub open spec fn mem_reasons(
    rhs: Seq<Seq<u8>>,
    table: Map<Seq<u8>, int>,
    nodes: Seq<Option<TgNode>>,
) -> Seq<int> {
    rhs.filter(|f: Seq<u8>| red_lookup(table, nodes, f)).map_values(|f: Seq<u8>| table[f])
}

/// Accumulated result of analysing the taint-flow field.
pub struct FlowAcc {
    pub var: Option<Seq<u8>>,
    pub preds: Seq<(Seq<u8>, Option<int>)>,
    pub reasons: Seq<int>,
    pub conflict: bool,
}

/// The effect of one flow clause on the accumulator. A plain clause
/// sets the defined variable (a second plain clause must agree, else
/// the conflict flag is raised) and contributes predecessor edges; a
/// dereference or store clause contributes sink reasons; a bare clause
/// contributes predecessor edges only.
pub open spec fn flow_step(
    acc: FlowAcc,
    c: Seq<u8>,
    table: Map<Seq<u8>, int>,
    nodes: Seq<Option<TgNode>>,
) -> FlowAcc {
    match clause_spec(c) {
        ClauseSpec::Assign { lhs, rhs } => FlowAcc {
            var: if acc.var is None {
                Some(lhs)
            } else {
                acc.var
            },
            conflict: acc.conflict || (match acc.var {
                Some(v) => v != lhs,
                None => false,
            }),
            preds: acc.preds + pred_edges(rhs, table),
            reasons: acc.reasons,
        },
        ClauseSpec::Mem { rhs } => FlowAcc {
            var: acc.var,
            conflict: acc.conflict,
            preds: acc.preds,
            reasons: acc.reasons + mem_reasons(rhs, table, nodes),
        },
        ClauseSpec::Bare { vars } => FlowAcc {
            var: acc.var,
            conflict: acc.conflict,
            preds: acc.preds + pred_edges(vars, table),
            reasons: acc.reasons,
        },
    }
}

/// The empty accumulator.
pub open spec fn flow_acc_init() -> FlowAcc {
    FlowAcc { var: None, preds: Seq::empty(), reasons: Seq::empty(), conflict: false }
}

/// Analysis of a whole clause list, left to right.
pub open spec fn analyze_flow(
    clauses: Seq<Seq<u8>>,
    table: Map<Seq<u8>, int>,
    nodes: Seq<Option<TgNode>>,
) -> FlowAcc
    decreases clauses.len(),
{
    if clauses.len() == 0 {
        flow_acc_init()
    } else {
        flow_step(analyze_flow(clauses.drop_last(), table, nodes), clauses.last(), table, nodes)
    }
}

/// The conflict flag never clears once raised.
pub proof fn lemma_conflict_monotone(
    clauses: Seq<Seq<u8>>,
    i: int,
    j: int,
    table: Map<Seq<u8>, int>,
    nodes: Seq<Option<TgNode>>,
)
    requires
        0 <= i <= j <= clauses.len(),
        analyze_flow(clauses.subrange(0, i), table, nodes).conflict,
    ensures
        analyze_flow(clauses.subrange(0, j), table, nodes).conflict,
    decreases j - i,
{
    if i < j {
        lemma_conflict_monotone(clauses, i, j - 1, table, nodes);
        let pre = clauses.subrange(0, j);
        assert(pre.drop_last() =~= clauses.subrange(0, j - 1));
        assert(analyze_flow(pre, table, nodes) == flow_step(
            analyze_flow(clauses.subrange(0, j - 1), table, nodes),
            pre.last(),
            table,
            nodes,
        ));
    }
}

/// Errors raised while building a node: two plain clauses defining
/// different variables, or a command with more than one ` = `.
#[derive(Clone, Copy, PartialEq, Eq, Structural, Debug)]
pub enum BuildError {
    ConflictingDefinition,
    MalformedCommand,
}

/// Every sink reason is below `bound`.
pub open spec fn reasons_in(rs: Seq<usize>, bound: int) -> bool {
    forall|k: int| 0 <= k < rs.len() ==> (#[trigger] rs[k]) < bound
}

/// The arena holds a node at index `i`.
pub open spec fn node_some_at(nodes: Seq<Option<TgNode>>, i: int) -> bool {
    0 <= i < nodes.len() && nodes[i] is Some
}

/// Every table entry points at a present arena node.
pub open spec fn table_resolves(table: Map<Seq<u8>, int>, nodes: Seq<Option<TgNode>>) -> bool {
    forall|k: Seq<u8>| table.contains_key(k) ==> node_some_at(nodes, #[trigger] table[k])
}

/// Every edge's destination is exactly the table lookup of the
/// variable it is labelled with.
pub open spec fn edges_resolved(es: Seq<TgEdge>, table: Map<Seq<u8>, int>) -> bool {
    forall|k: int|
        0 <= k < es.len() ==> (#[trigger] es[k]).m().1 == dest_of(table, es[k].via@)
}

/// Every present edge destination points at a present arena node.
pub open spec fn edges_in_some(es: Seq<TgEdge>, nodes: Seq<Option<TgNode>>) -> bool {
    forall|k: int|
        0 <= k < es.len() ==> (match (#[trigger] es[k]).dest {
            Some(i) => node_some_at(nodes, i as int),
            None => true,
        })
}

/// Every sink reason points at a present arena node.
pub open spec fn reasons_some(rs: Seq<usize>, nodes: Seq<Option<TgNode>>) -> bool {
    forall|k: int| 0 <= k < rs.len() ==> node_some_at(nodes, (#[trigger] rs[k]) as int)
}

/// Every present destination is below `bound`.
pub open spec fn edges_dests_in(es: Seq<TgEdge>, bound: int) -> bool {
    forall|k: int|
        0 <= k < es.len() ==> (match (#[trigger] es[k]).dest {
            Some(i) => i < bound,
            None => true,
        })
}

/// Append the edges of one right-hand-side variable list.
fn push_pred_edges(
    preds: &mut Vec<TgEdge>,
    rhs: &Vec<Vec<u8>>,
    table: &VarTable,
    nodes: &Vec<Option<TgNode>>,
)
    requires
        table.wf(),
        table.values_below(nodes@.len() as int),
        table_resolves(table@, nodes@),
        edges_dests_in(old(preds)@, nodes@.len() as int),
        edges_in_some(old(preds)@, nodes@),
        edges_resolved(old(preds)@, table@),
    ensures
        edges_m(final(preds)@) == edges_m(old(preds)@) + pred_edges(
            rhs@.map_values(|p: Vec<u8>| p@),
            table@,
        ),
        edges_dests_in(final(preds)@, nodes@.len() as int),
        edges_in_some(final(preds)@, nodes@),
        edges_resolved(final(preds)@, table@),
{
    let ghost rhs_m = rhs@.map_values(|p: Vec<u8>| p@);
    let ghost start = edges_m(preds@);
    let n = rhs.len();
    let mut k: usize = 0;
    proof {
        assert(pred_edges(rhs_m.subrange(0, 0), table@) =~= Seq::<
            (Seq<u8>, Option<int>),
        >::empty());
        assert(edges_m(preds@) =~= start + pred_edges(rhs_m.subrange(0, 0), table@));
    }
    while k < n
        invariant
            table.wf(),
            table.values_below(nodes@.len() as int),
            table_resolves(table@, nodes@),
            n == rhs@.len(),
            rhs_m == rhs@.map_values(|p: Vec<u8>| p@),
            0 <= k <= n,
            edges_m(preds@) == start + pred_edges(rhs_m.subrange(0, k as int), table@),
            edges_dests_in(preds@, nodes@.len() as int),
            edges_in_some(preds@, nodes@),
            edges_resolved(preds@, table@),
        decreases n - k,
    {
        let f = &rhs[k];
        let dest = table.get(f.as_slice());
        let via = crate::bytes::sub_vec(f.as_slice(), 0, f.len());
        let ghost old_preds = preds@;
        preds.push(TgEdge { via, dest });
        proof {
            assert(f@ == rhs_m[k as int]);
            assert(preds@[preds@.len() - 1].m() == (rhs_m[k as int], dest_of(
                table@,
                rhs_m[k as int],
            )));
            assert(edges_m(preds@) =~= edges_m(old_preds).push(
                preds@[preds@.len() - 1].m(),
            ));
            assert(pred_edges(rhs_m.subrange(0, k + 1), table@) =~= pred_edges(
                rhs_m.subrange(0, k as int),
                table@,
            ).push((rhs_m[k as int], dest_of(table@, rhs_m[k as int]))));
            assert(edges_m(preds@) =~= start + pred_edges(rhs_m.subrange(0, k + 1), table@));
        }
        k += 1;
    }
    proof {
        assert(rhs_m.subrange(0, rhs_m.len() as int) =~= rhs_m);
    }
}

/// Append the sink reasons of one dereference or store clause: every
/// named variable whose current node is Red.
fn push_mem_reasons(
    reasons: &mut Vec<usize>,
    rhs: &Vec<Vec<u8>>,
    table: &VarTable,
    nodes: &Vec<Option<TgNode>>,
)
    requires
        table.wf(),
        table.values_below(nodes@.len() as int),
        reasons_in(old(reasons)@, nodes@.len() as int),
        reasons_some(old(reasons)@, nodes@),
    ensures
        reasons_m(final(reasons)@) == reasons_m(old(reasons)@) + mem_reasons(
            rhs@.map_values(|p: Vec<u8>| p@),
            table@,
            nodes@,
        ),
        reasons_in(final(reasons)@, nodes@.len() as int),
        reasons_some(final(reasons)@, nodes@),
{
    let ghost rhs_m = rhs@.map_values(|p: Vec<u8>| p@);
    let ghost start = reasons_m(reasons@);
    let n = rhs.len();
    let mut k: usize = 0;
    proof {
        reveal(Seq::filter);
        assert(mem_reasons(rhs_m.subrange(0, 0), table@, nodes@) =~= Seq::<int>::empty());
        assert(reasons_m(reasons@) =~= start + mem_reasons(rhs_m.subrange(0, 0), table@, nodes@));
    }
    while k < n
        invariant
            table.wf(),
            table.values_below(nodes@.len() as int),
            n == rhs@.len(),
            rhs_m == rhs@.map_values(|p: Vec<u8>| p@),
            0 <= k <= n,
            reasons_m(reasons@) == start + mem_reasons(rhs_m.subrange(0, k as int), table@, nodes@),
            reasons_in(reasons@, nodes@.len() as int),
            reasons_some(reasons@, nodes@),
        decreases n - k,
    {
        let f = &rhs[k];
        let ghost old_reasons = reasons@;
        let ghost fm = rhs_m[k as int];
        let mut is_red = false;
        match table.get(f.as_slice()) {
            Some(i) => {
                match &nodes[i] {
                    Some(nd) => {
                        match nd.taint {
                            Taint::Red => {
                                is_red = true;
                                reasons.push(i);
                            },
                            _ => {},
                        }
                    },
                    None => {},
                }
            },
            None => {},
        }
        proof {
            reveal(Seq::filter);
            assert(f@ == fm);
            assert(is_red == red_lookup(table@, nodes@, fm));
            let pre = rhs_m.subrange(0, k as int);
            assert(rhs_m.subrange(0, k + 1).drop_last() =~= pre);
            assert(rhs_m.subrange(0, k + 1).last() == fm);
            if is_red {
                assert(mem_reasons(rhs_m.subrange(0, k + 1), table@, nodes@) =~= mem_reasons(
                    pre,
                    table@,
                    nodes@,
                ).push(table@[fm]));
                assert(reasons_m(reasons@) =~= reasons_m(old_reasons).push(
                    table@[fm],
                ));
            } else {
                assert(mem_reasons(rhs_m.subrange(0, k + 1), table@, nodes@) =~= mem_reasons(
                    pre,
                    table@,
                    nodes@,
                ));
            }
            assert(reasons_m(reasons@) =~= start + mem_reasons(
                rhs_m.subrange(0, k + 1),
                table@,
                nodes@,
            ));
        }
        k += 1;
    }
    proof {
        assert(rhs_m.subrange(0, rhs_m.len() as int) =~= rhs_m);
    }
}

/// The clause separator `; `.
pub open spec fn tok_clause_sep() -> Seq<u8> {
    seq![59u8, 32u8]
}

/// Some predecessor's present destination has taint `t`.
pub open spec fn has_taint_pred(
    preds: Seq<(Seq<u8>, Option<int>)>,
    nodes: Seq<Option<TgNode>>,
    t: Taint,
) -> bool {
    exists|k: int|
        0 <= k < preds.len() && (match (#[trigger] preds[k]).1 {
            Some(i) => taint_at(nodes, i) == t,
            None => false,
        })
}

/// Some predecessor has a present destination.
pub open spec fn has_present_pred(preds: Seq<(Seq<u8>, Option<int>)>) -> bool {
    exists|k: int| 0 <= k < preds.len() && (#[trigger] preds[k]).1 is Some
}

/// The taint inherited from the predecessors: Red if any present
/// predecessor is Red, else Blue if any is Blue, else Blue when the
/// node is a source (no present predecessor and no sink reason so
/// far), else Green.
pub open spec fn inherited_taint(
    preds: Seq<(Seq<u8>, Option<int>)>,
    reasons_empty: bool,
    nodes: Seq<Option<TgNode>>,
) -> Taint {
    if has_taint_pred(preds, nodes, Taint::Red) {
        Taint::Red
    } else if has_taint_pred(preds, nodes, Taint::Blue) {
        Taint::Blue
    } else if reasons_empty && !has_present_pred(preds) {
        Taint::Blue
    } else {
        Taint::Green
    }
}

/// A predecessor counts as non-Green when its destination is absent
/// or carries Blue or Red taint.
pub open spec fn pred_non_green(nodes: Seq<Option<TgNode>>, e: (Seq<u8>, Option<int>)) -> bool {
    match e.1 {
        None => true,
        Some(i) => taint_at(nodes, i) != Taint::Green,
    }
}

/// The non-Green predecessors, in order.
pub open spec fn non_green_preds(
    preds: Seq<(Seq<u8>, Option<int>)>,
    nodes: Seq<Option<TgNode>>,
) -> Seq<(Seq<u8>, Option<int>)> {
    preds.filter(|e: (Seq<u8>, Option<int>)| pred_non_green(nodes, e))
}

/// Every present predecessor is Blue.
pub open spec fn all_present_blue(
    preds: Seq<(Seq<u8>, Option<int>)>,
    nodes: Seq<Option<TgNode>>,
) -> bool {
    forall|k: int|
        0 <= k < preds.len() ==> (match (#[trigger] preds[k]).1 {
            Some(i) => taint_at(nodes, i) == Taint::Blue,
            None => true,
        })
}

/// `Mul`, `Div`, `Mod`, `And`, `Or`, `Xor`, `Shl`, `Sar`: opcodes
/// whose result leaks enough of a tainted operand to be dangerous.
pub open spec fn mul_family(rhs: Seq<u8>) -> bool {
    ||| starts_with_spec(rhs, seq![77u8, 117u8, 108u8])
    ||| starts_with_spec(rhs, seq![68u8, 105u8, 118u8])
    ||| starts_with_spec(rhs, seq![77u8, 111u8, 100u8])
    ||| starts_with_spec(rhs, seq![65u8, 110u8, 100u8])
    ||| starts_with_spec(rhs, seq![79u8, 114u8])
    ||| starts_with_spec(rhs, seq![88u8, 111u8, 114u8])
    ||| starts_with_spec(rhs, seq![83u8, 104u8, 108u8])
    ||| starts_with_spec(rhs, seq![83u8, 97u8, 114u8])
}

/// `Add`.
pub open spec fn tok_add() -> Seq<u8> {
    seq![65u8, 100u8, 100u8]
}

/// `Cmp`.
pub open spec fn tok_cmp() -> Seq<u8> {
    seq![67u8, 109u8, 112u8]
}

/// The command assignment separator ` = `.
pub open spec fn tok_eq_sep() -> Seq<u8> {
    seq![32u8, 61u8, 32u8]
}

/// Refinement of Blue taint by the command's right-hand side:
/// multiplicative and bitwise opcodes go Red; `Add` goes Red exactly
/// when at least two predecessors are non-Green; `Cmp` goes Green
/// exactly when all present predecessors are Blue, else Red; a `Sub`
/// opcode goes Red when two or more predecessors are non-Green, or
/// when exactly one is and it was reached over the subtrahend.
pub open spec fn refined_taint(
    rhs: Seq<u8>,
    preds: Seq<(Seq<u8>, Option<int>)>,
    nodes: Seq<Option<TgNode>>,
) -> Taint {
    if mul_family(rhs) {
        Taint::Red
    } else if starts_with_spec(rhs, tok_add()) {
        if non_green_preds(preds, nodes).len() >= 2 {
            Taint::Red
        } else {
            Taint::Blue
        }
    } else if starts_with_spec(rhs, tok_cmp()) {
        if all_present_blue(preds, nodes) {
            Taint::Green
        } else {
            Taint::Red
        }
    } else {
        match sub_subtrahend(rhs) {
            Some(st) => {
                let ng = non_green_preds(preds, nodes);
                if ng.len() >= 2 {
                    Taint::Red
                } else if ng.len() == 1 && ng[0].0 == st {
                    Taint::Red
                } else {
                    Taint::Blue
                }
            },
            None => Taint::Blue,
        }
    }
}

/// ` _Exit `: a process-exit call in the location field.
pub open spec fn tok_exit() -> Seq<u8> {
    seq![32u8, 95u8, 69u8, 120u8, 105u8, 116u8, 32u8]
}

/// The present destinations of the predecessors, in order.
pub open spec fn present_dests(preds: Seq<(Seq<u8>, Option<int>)>) -> Seq<int> {
    preds.filter(|e: (Seq<u8>, Option<int>)| e.1 is Some).map_values(
        |e: (Seq<u8>, Option<int>)|
            match e.1 {
                Some(i) => i,
                None => 0,
            },
    )
}

/// The present Red destinations reached over the variable `cond`.
pub open spec fn red_cond_dests(
    preds: Seq<(Seq<u8>, Option<int>)>,
    nodes: Seq<Option<TgNode>>,
    cond: Seq<u8>,
) -> Seq<int> {
    preds.filter(
        |e: (Seq<u8>, Option<int>)|
            e.0 == cond && (match e.1 {
                Some(i) => taint_at(nodes, i) == Taint::Red,
                None => false,
            }),
    ).map_values(
        |e: (Seq<u8>, Option<int>)|
            match e.1 {
                Some(i) => i,
                None => 0,
            },
    )
}

/// The branch condition of the command: an `IF` shape, or failing
/// that, a ternary shape.
pub open spec fn cond_of(cmd: Seq<u8>) -> Option<Seq<u8>> {
    if if_cond(cmd) is Some {
        if_cond(cmd)
    } else {
        ternary_cond(cmd)
    }
}

/// The sink reasons a non-Green node acquires beyond its memory
/// clauses: at a process-exit call, every present predecessor; at a
/// branch, every Red predecessor reached over the condition variable.
pub open spec fn sink_candidates(
    preds: Seq<(Seq<u8>, Option<int>)>,
    loc: Seq<u8>,
    cmd: Seq<u8>,
    nodes: Seq<Option<TgNode>>,
    t: Taint,
) -> Seq<int> {
    if t == Taint::Green {
        Seq::empty()
    } else if find_from(loc, tok_exit(), 0) is Some {
        present_dests(preds)
    } else {
        match cond_of(cmd) {
            Some(c) => red_cond_dests(preds, nodes, c),
            None => Seq::empty(),
        }
    }
}

/// The node's taint: the inherited color, refined by the command when
/// the inherited color is Blue. `None` when the command holds more
/// than one ` = ` (a malformed command, fatal on a Blue node).
pub open spec fn calc_taint_spec(
    preds: Seq<(Seq<u8>, Option<int>)>,
    reasons_empty: bool,
    cmd: Seq<u8>,
    nodes: Seq<Option<TgNode>>,
) -> Option<Taint> {
    let t = inherited_taint(preds, reasons_empty, nodes);
    if t != Taint::Blue {
        Some(t)
    } else {
        let parts = split_spec(cmd, tok_eq_sep());
        if parts.len() >= 3 {
            None
        } else if parts.len() == 2 {
            Some(refined_taint(parts[1], preds, nodes))
        } else {
            Some(Taint::Blue)
        }
    }
}

impl TgNode {
    /// The taint inherited from the predecessors.
    fn inherit_taint(preds: &Vec<TgEdge>, reasons_empty: bool, nodes: &Vec<Option<TgNode>>) -> (t:
        Taint)
        requires
            edges_dests_in(preds@, nodes@.len() as int),
        ensures
            t == inherited_taint(edges_m(preds@), reasons_empty, nodes@),
    {
        let ghost pm = edges_m(preds@);
        let mut has_red = false;
        let mut has_blue = false;
        let mut has_present = false;
        let n = preds.len();
        let mut k: usize = 0;
        while k < n
            invariant
                edges_dests_in(preds@, nodes@.len() as int),
                pm == edges_m(preds@),
                n == preds@.len(),
                0 <= k <= n,
                has_red == (exists|j: int|
                    0 <= j < k && (match (#[trigger] pm[j]).1 {
                        Some(i) => taint_at(nodes@, i) == Taint::Red,
                        None => false,
                    })),
                has_blue == (exists|j: int|
                    0 <= j < k && (match (#[trigger] pm[j]).1 {
                        Some(i) => taint_at(nodes@, i) == Taint::Blue,
                        None => false,
                    })),
                has_present == (exists|j: int| 0 <= j < k && (#[trigger] pm[j]).1 is Some),
            decreases n - k,
        {
            let e = &preds[k];
            match e.dest {
                Some(i) => {
                    has_present = true;
                    match &nodes[i] {
                        Some(nd) => {
                            match nd.taint {
                                Taint::Red => {
                                    has_red = true;
                                },
                                Taint::Blue => {
                                    has_blue = true;
                                },
                                Taint::Green => {},
                            }
                        },
                        None => {},
                    }
                },
                None => {},
            }
            proof {
                assert(pm[k as int] == preds@[k as int].m());
            }
            k += 1;
        }
        if has_red {
            Taint::Red
        } else if has_blue {
            Taint::Blue
        } else if reasons_empty && !has_present {
            Taint::Blue
        } else {
            Taint::Green
        }
    }

    /// Count the non-Green predecessors and hand out the variable name
    /// of the first one, if any.
    fn non_green_info(preds: &Vec<TgEdge>, nodes: &Vec<Option<TgNode>>) -> (r: (
        usize,
        Option<Vec<u8>>,
    ))
        requires
            edges_dests_in(preds@, nodes@.len() as int),
        ensures
            ({
                let ng = non_green_preds(edges_m(preds@), nodes@);
                &&& r.0 == ng.len()
                &&& (match r.1 {
                    Some(v) => ng.len() >= 1 && v@ == ng[0].0,
                    None => ng.len() == 0,
                })
            }),
    {
        let ghost pm = edges_m(preds@);
        let mut count: usize = 0;
        let mut first: Option<Vec<u8>> = None;
        let n = preds.len();
        let mut k: usize = 0;
        proof {
            reveal(Seq::filter);
            assert(pm.subrange(0, 0) =~= Seq::<(Seq<u8>, Option<int>)>::empty());
        }
        while k < n
            invariant
                edges_dests_in(preds@, nodes@.len() as int),
                pm == edges_m(preds@),
                n == preds@.len(),
                0 <= k <= n,
                count == non_green_preds(pm.subrange(0, k as int), nodes@).len(),
                (match first {
                    Some(ref v) => count >= 1 && v@ == non_green_preds(
                        pm.subrange(0, k as int),
                        nodes@,
                    )[0].0,
                    None => count == 0,
                }),
            decreases n - k,
        {
            let ghost pre = pm.subrange(0, k as int);
            let e = &preds[k];
            let mut ng = false;
            match e.dest {
                Some(i) => {
                    match &nodes[i] {
                        Some(nd) => {
                            match nd.taint {
                                Taint::Green => {},
                                _ => {
                                    ng = true;
                                },
                            }
                        },
                        None => {},
                    }
                },
                None => {
                    ng = true;
                },
            }
            proof {
                reveal(Seq::filter);
                assert(pm[k as int] == preds@[k as int].m());
                assert(ng == pred_non_green(nodes@, pm[k as int]));
                assert(pm.subrange(0, k + 1).drop_last() =~= pre);
                assert(pm.subrange(0, k + 1).last() == pm[k as int]);
                if ng {
                    assert(non_green_preds(pm.subrange(0, k + 1), nodes@) =~= non_green_preds(
                        pre,
                        nodes@,
                    ).push(pm[k as int]));
                } else {
                    assert(non_green_preds(pm.subrange(0, k + 1), nodes@) =~= non_green_preds(
                        pre,
                        nodes@,
                    ));
                }
            }
            if ng {
                if count == 0 {
                    first = Some(crate::bytes::sub_vec(e.via.as_slice(), 0, e.via.len()));
                }
                count += 1;
            }
            k += 1;
        }
        proof {
            assert(pm.subrange(0, pm.len() as int) =~= pm);
        }
        (count, first)
    }

    /// Compute the node's taint from its predecessors, sink reasons
    /// found so far, and the command field.
    fn calc_taint(
        preds: &Vec<TgEdge>,
        reasons_empty: bool,
        cmd: &[u8],
        nodes: &Vec<Option<TgNode>>,
    ) -> (r: Result<Taint, BuildError>)
        requires
            edges_dests_in(preds@, nodes@.len() as int),
        ensures
            ({
                let spec = calc_taint_spec(edges_m(preds@), reasons_empty, cmd@, nodes@);
                match r {
                    Ok(t) => spec == Some(t),
                    Err(e) => e == BuildError::MalformedCommand && spec is None,
                }
            }),
    {
        let ghost pm = edges_m(preds@);
        let t = Self::inherit_taint(preds, reasons_empty, nodes);
        let is_blue = match t {
            Taint::Blue => true,
            _ => false,
        };
        if !is_blue {
            return Ok(t);
        }
        let eq_tok: [u8; 3] = [32u8, 61u8, 32u8];
        proof {
            assert(eq_tok@ =~= tok_eq_sep());
        }
        let parts = split_bytes(cmd, eq_tok.as_slice());
        proof {
            assert(parts@.map_values(|p: Vec<u8>| p@).len() == parts@.len());
        }
        if parts.len() >= 3 {
            return Err(BuildError::MalformedCommand);
        }
        if parts.len() < 2 {
            return Ok(Taint::Blue);
        }
        let rhs = &parts[1];
        proof {
            assert(rhs@ == split_spec(cmd@, tok_eq_sep())[1]);
        }
        let mul_tok: [u8; 3] = [77u8, 117u8, 108u8];
        let div_tok: [u8; 3] = [68u8, 105u8, 118u8];
        let mod_tok: [u8; 3] = [77u8, 111u8, 100u8];
        let and_tok: [u8; 3] = [65u8, 110u8, 100u8];
        let or_tok: [u8; 2] = [79u8, 114u8];
        let xor_tok: [u8; 3] = [88u8, 111u8, 114u8];
        let shl_tok: [u8; 3] = [83u8, 104u8, 108u8];
        let sar_tok: [u8; 3] = [83u8, 97u8, 114u8];
        let add_tok: [u8; 3] = [65u8, 100u8, 100u8];
        let cmp_tok: [u8; 3] = [67u8, 109u8, 112u8];
        proof {
            assert(mul_tok@ =~= seq![77u8, 117u8, 108u8]);
            assert(div_tok@ =~= seq![68u8, 105u8, 118u8]);
            assert(mod_tok@ =~= seq![77u8, 111u8, 100u8]);
            assert(and_tok@ =~= seq![65u8, 110u8, 100u8]);
            assert(or_tok@ =~= seq![79u8, 114u8]);
            assert(xor_tok@ =~= seq![88u8, 111u8, 114u8]);
            assert(shl_tok@ =~= seq![83u8, 104u8, 108u8]);
            assert(sar_tok@ =~= seq![83u8, 97u8, 114u8]);
            assert(add_tok@ =~= tok_add());
            assert(cmp_tok@ =~= tok_cmp());
        }
        let rs = rhs.as_slice();
        if crate::bytes::starts_with(rs, mul_tok.as_slice()) || crate::bytes::starts_with(
            rs,
            div_tok.as_slice(),
        ) || crate::bytes::starts_with(rs, mod_tok.as_slice()) || crate::bytes::starts_with(
            rs,
            and_tok.as_slice(),
        ) || crate::bytes::starts_with(rs, or_tok.as_slice()) || crate::bytes::starts_with(
            rs,
            xor_tok.as_slice(),
        ) || crate::bytes::starts_with(rs, shl_tok.as_slice()) || crate::bytes::starts_with(
            rs,
            sar_tok.as_slice(),
        ) {
            return Ok(Taint::Red);
        }
        if crate::bytes::starts_with(rs, add_tok.as_slice()) {
            let info = Self::non_green_info(preds, nodes);
            if info.0 >= 2 {
                return Ok(Taint::Red);
            } else {
                return Ok(Taint::Blue);
            }
        }
        if crate::bytes::starts_with(rs, cmp_tok.as_slice()) {
            let mut all_blue = true;
            let n = preds.len();
            let mut k: usize = 0;
            while k < n
                invariant
                    edges_dests_in(preds@, nodes@.len() as int),
                    pm == edges_m(preds@),
                    n == preds@.len(),
                    0 <= k <= n,
                    all_blue == (forall|j: int|
                        0 <= j < k ==> (match (#[trigger] pm[j]).1 {
                            Some(i) => taint_at(nodes@, i) == Taint::Blue,
                            None => true,
                        })),
                decreases n - k,
            {
                let e = &preds[k];
                match e.dest {
                    Some(i) => {
                        match &nodes[i] {
                            Some(nd) => {
                                match nd.taint {
                                    Taint::Blue => {},
                                    _ => {
                                        all_blue = false;
                                    },
                                }
                            },
                            None => {
                                all_blue = false;
                            },
                        }
                    },
                    None => {},
                }
                proof {
                    assert(pm[k as int] == preds@[k as int].m());
                }
                k += 1;
            }
            if all_blue {
                return Ok(Taint::Green);
            } else {
                return Ok(Taint::Red);
            }
        }
        match sub_subtrahend_exec(rs) {
            Some(st) => {
                let info = Self::non_green_info(preds, nodes);
                if info.0 >= 2 {
                    Ok(Taint::Red)
                } else {
                    match info.1 {
                        Some(v) => {
                            if info.0 == 1 && crate::bytes::bytes_eq(
                                v.as_slice(),
                                st.as_slice(),
                            ) {
                                Ok(Taint::Red)
                            } else {
                                Ok(Taint::Blue)
                            }
                        },
                        None => Ok(Taint::Blue),
                    }
                }
            },
            None => Ok(Taint::Blue),
        }
    }

    /// Analyse the taint-flow field: collect predecessor edges and
    /// memory sink reasons, and return the defined variable, if any.
    fn analyze_taint_flow(
        flow: &[u8],
        table: &VarTable,
        nodes: &Vec<Option<TgNode>>,
    ) -> (r: Result<(Option<Vec<u8>>, Vec<TgEdge>, Vec<usize>), BuildError>)
        requires
            table.wf(),
            table.values_below(nodes@.len() as int),
            table_resolves(table@, nodes@),
        ensures
            ({
                let acc = analyze_flow(split_spec(flow@, tok_clause_sep()), table@, nodes@);
                match r {
                    Ok((var, preds, reasons)) => {
                        &&& !acc.conflict
                        &&& (match (var, acc.var) {
                            (Some(v), Some(w)) => v@ == w,
                            (None, None) => true,
                            _ => false,
                        })
                        &&& edges_m(preds@) == acc.preds
                        &&& reasons_m(reasons@) == acc.reasons
                        &&& edges_dests_in(preds@, nodes@.len() as int)
                        &&& reasons_in(reasons@, nodes@.len() as int)
                        &&& edges_in_some(preds@, nodes@)
                        &&& reasons_some(reasons@, nodes@)
                        &&& edges_resolved(preds@, table@)
                    },
                    Err(e) => e == BuildError::ConflictingDefinition && acc.conflict,
                }
            }),
    {
        let semi: [u8; 2] = [59u8, 32u8];
        proof {
            assert(semi@ =~= tok_clause_sep());
        }
        let clauses = split_bytes(flow, semi.as_slice());
        let ghost cl_m = split_spec(flow@, tok_clause_sep());
        let mut var: Option<Vec<u8>> = None;
        let mut preds: Vec<TgEdge> = Vec::new();
        let mut reasons: Vec<usize> = Vec::new();
        let n = clauses.len();
        let mut ci: usize = 0;
        proof {
            assert(cl_m.subrange(0, 0) =~= Seq::<Seq<u8>>::empty());
            assert(edges_m(preds@) =~= Seq::<(Seq<u8>, Option<int>)>::empty());
            assert(reasons_m(reasons@) =~= Seq::<int>::empty());
        }
        while ci < n
            invariant
                table.wf(),
                table.values_below(nodes@.len() as int),
                table_resolves(table@, nodes@),
                n == clauses@.len(),
                cl_m == clauses@.map_values(|p: Vec<u8>| p@),
                cl_m == split_spec(flow@, tok_clause_sep()),
                0 <= ci <= n,
                ({
                    let acc = analyze_flow(cl_m.subrange(0, ci as int), table@, nodes@);
                    &&& !acc.conflict
                    &&& (match (var, acc.var) {
                        (Some(ref v), Some(w)) => v@ == w,
                        (None, None) => true,
                        _ => false,
                    })
                    &&& edges_m(preds@) == acc.preds
                    &&& reasons_m(reasons@) == acc.reasons
                }),
                edges_dests_in(preds@, nodes@.len() as int),
                reasons_in(reasons@, nodes@.len() as int),
                edges_in_some(preds@, nodes@),
                reasons_some(reasons@, nodes@),
                edges_resolved(preds@, table@),
            decreases n - ci,
        {
            let ghost acc_pre = analyze_flow(cl_m.subrange(0, ci as int), table@, nodes@);
            proof {
                assert(cl_m.subrange(0, ci + 1).drop_last() =~= cl_m.subrange(0, ci as int));
                assert(cl_m.subrange(0, ci + 1).last() == cl_m[ci as int]);
            }
            let c = &clauses[ci];
            assert(c@ == cl_m[ci as int]);
            let cl = Clause::parse(c.as_slice());
            let ghost clm = cl.model();
            match cl {
                Clause::Assign { lhs, rhs } => {
                    let ghost lhs_m = lhs@;
                    let mut conflict = false;
                    match &var {
                        Some(v) => {
                            if !crate::bytes::bytes_eq(v.as_slice(), lhs.as_slice()) {
                                conflict = true;
                            }
                        },
                        None => {
                            var = Some(lhs);
                        },
                    }
                    if conflict {
                        proof {
                            assert(acc_pre.var matches Some(w) && w != lhs_m);
                            assert(clause_spec(cl_m[ci as int]) matches ClauseSpec::Assign {
                                lhs, ..
                            } && lhs == lhs_m);
                            assert(flow_step(acc_pre, cl_m[ci as int], table@, nodes@).conflict);
                            assert(analyze_flow(
                                cl_m.subrange(0, ci + 1),
                                table@,
                                nodes@,
                            ).conflict);
                            lemma_conflict_monotone(
                                cl_m,
                                ci + 1,
                                cl_m.len() as int,
                                table@,
                                nodes@,
                            );
                            assert(cl_m.subrange(0, cl_m.len() as int) =~= cl_m);
                            assert(analyze_flow(cl_m, table@, nodes@).conflict);
                            assert(cl_m == split_spec(flow@, tok_clause_sep()));
                            assert(analyze_flow(
                                split_spec(flow@, tok_clause_sep()),
                                table@,
                                nodes@,
                            ).conflict);
                        }
                        return Err(BuildError::ConflictingDefinition);
                    }
                    push_pred_edges(&mut preds, &rhs, table, nodes);
                },
                Clause::Mem { rhs } => {
                    push_mem_reasons(&mut reasons, &rhs, table, nodes);
                },
                Clause::Bare { vars } => {
                    push_pred_edges(&mut preds, &vars, table, nodes);
                },
            }
            ci += 1;
        }
        proof {
            assert(cl_m.subrange(0, cl_m.len() as int) =~= cl_m);
        }
        Ok((var, preds, reasons))
    }

    /// Append the sink reasons the location and command fields give a
    /// node of taint `t`.
    fn calc_sink(
        reasons: &mut Vec<usize>,
        preds: &Vec<TgEdge>,
        loc: &[u8],
        cmd: &[u8],
        t: Taint,
        nodes: &Vec<Option<TgNode>>,
    )
        requires
            edges_dests_in(preds@, nodes@.len() as int),
            edges_in_some(preds@, nodes@),
            reasons_in(old(reasons)@, nodes@.len() as int),
            reasons_some(old(reasons)@, nodes@),
        ensures
            reasons_m(final(reasons)@) == reasons_m(old(reasons)@) + sink_candidates(
                edges_m(preds@),
                loc@,
                cmd@,
                nodes@,
                t,
            ),
            reasons_in(final(reasons)@, nodes@.len() as int),
            reasons_some(final(reasons)@, nodes@),
    {
        let ghost pm = edges_m(preds@);
        let ghost start = reasons_m(reasons@);
        let is_green = match t {
            Taint::Green => true,
            _ => false,
        };
        if is_green {
            proof {
                assert(reasons_m(reasons@) =~= start + sink_candidates(pm, loc@, cmd@, nodes@, t));
            }
            return ;
        }
        let exit_tok: [u8; 7] = [32u8, 95u8, 69u8, 120u8, 105u8, 116u8, 32u8];
        proof {
            assert(exit_tok@ =~= tok_exit());
        }
        if crate::bytes::contains_sub(loc, exit_tok.as_slice()) {
            let n = preds.len();
            let mut k: usize = 0;
            proof {
                reveal(Seq::filter);
                assert(pm.subrange(0, 0) =~= Seq::<(Seq<u8>, Option<int>)>::empty());
                assert(reasons_m(reasons@) =~= start + present_dests(pm.subrange(0, 0)));
            }
            while k < n
                invariant
                    edges_dests_in(preds@, nodes@.len() as int),
                    pm == edges_m(preds@),
                    n == preds@.len(),
                    0 <= k <= n,
                    reasons_m(reasons@) == start + present_dests(pm.subrange(0, k as int)),
                    reasons_in(reasons@, nodes@.len() as int),
                    reasons_some(reasons@, nodes@),
                    edges_in_some(preds@, nodes@),
                decreases n - k,
            {
                let ghost pre = pm.subrange(0, k as int);
                let ghost old_reasons = reasons@;
                let e = &preds[k];
                let mut pushed = false;
                match e.dest {
                    Some(i) => {
                        reasons.push(i);
                        pushed = true;
                    },
                    None => {},
                }
                proof {
                    reveal(Seq::filter);
                    assert(pm[k as int] == preds@[k as int].m());
                    assert(pm.subrange(0, k + 1).drop_last() =~= pre);
                    assert(pm.subrange(0, k + 1).last() == pm[k as int]);
                    if pushed {
                        assert(present_dests(pm.subrange(0, k + 1)) =~= present_dests(pre).push(
                            reasons_m(reasons@).last(),
                        ));
                        assert(reasons_m(reasons@) =~= reasons_m(old_reasons).push(
                            reasons_m(reasons@).last(),
                        ));
                    } else {
                        assert(present_dests(pm.subrange(0, k + 1)) =~= present_dests(pre));
                    }
                    assert(reasons_m(reasons@) =~= start + present_dests(pm.subrange(0, k + 1)));
                }
                k += 1;
            }
            proof {
                assert(pm.subrange(0, pm.len() as int) =~= pm);
            }
            return ;
        }
        let cond_opt = match if_cond_exec(cmd) {
            Some(c) => Some(c),
            None => ternary_cond_exec(cmd),
        };
        let cond = match cond_opt {
            Some(c) => c,
            None => {
                proof {
                    assert(reasons_m(reasons@) =~= start + sink_candidates(
                        pm,
                        loc@,
                        cmd@,
                        nodes@,
                        t,
                    ));
                }
                return ;
            },
        };
        let n = preds.len();
        let mut k: usize = 0;
        proof {
            reveal(Seq::filter);
            assert(pm.subrange(0, 0) =~= Seq::<(Seq<u8>, Option<int>)>::empty());
            assert(reasons_m(reasons@) =~= start + red_cond_dests(
                pm.subrange(0, 0),
                nodes@,
                cond@,
            ));
        }
        while k < n
            invariant
                edges_dests_in(preds@, nodes@.len() as int),
                pm == edges_m(preds@),
                n == preds@.len(),
                0 <= k <= n,
                reasons_m(reasons@) == start + red_cond_dests(
                    pm.subrange(0, k as int),
                    nodes@,
                    cond@,
                ),
                reasons_in(reasons@, nodes@.len() as int),
                reasons_some(reasons@, nodes@),
                edges_in_some(preds@, nodes@),
            decreases n - k,
        {
            let ghost pre = pm.subrange(0, k as int);
            let ghost old_reasons = reasons@;
            let e = &preds[k];
            let mut pushed = false;
            if crate::bytes::bytes_eq(e.via.as_slice(), cond.as_slice()) {
                match e.dest {
                    Some(i) => {
                        match &nodes[i] {
                            Some(nd) => {
                                match nd.taint {
                                    Taint::Red => {
                                        reasons.push(i);
                                        pushed = true;
                                    },
                                    _ => {},
                                }
                            },
                            None => {},
                        }
                    },
                    None => {},
                }
            }
            proof {
                reveal(Seq::filter);
                assert(pm[k as int] == preds@[k as int].m());
                assert(pm.subrange(0, k + 1).drop_last() =~= pre);
                assert(pm.subrange(0, k + 1).last() == pm[k as int]);
                if pushed {
                    assert(red_cond_dests(pm.subrange(0, k + 1), nodes@, cond@) =~= red_cond_dests(
                        pre,
                        nodes@,
                        cond@,
                    ).push(reasons_m(reasons@).last()));
                    assert(reasons_m(reasons@) =~= reasons_m(old_reasons).push(
                        reasons_m(reasons@).last(),
                    ));
                } else {
                    assert(red_cond_dests(pm.subrange(0, k + 1), nodes@, cond@) =~= red_cond_dests(
                        pre,
                        nodes@,
                        cond@,
                    ));
                }
                assert(reasons_m(reasons@) =~= start + red_cond_dests(
                    pm.subrange(0, k + 1),
                    nodes@,
                    cond@,
                ));
            }
            k += 1;
        }
        proof {
            assert(pm.subrange(0, pm.len() as int) =~= pm);
        }
    }
}

/// The specification-level value of a node.
pub struct NodeModel {
    pub idx: int,
    pub preds: Seq<(Seq<u8>, Option<int>)>,
    pub reasons: Seq<int>,
    pub taint: Taint,
}

/// The model of a built node.
pub open spec fn node_m(n: TgNode) -> NodeModel {
    NodeModel {
        idx: n.idx as int,
        preds: edges_m(n.preds@),
        reasons: reasons_m(n.sink_reasons@),
        taint: n.taint,
    }
}

/// The model of an optional variable name.
pub open spec fn opt_name_m(v: Option<Vec<u8>>) -> Option<Seq<u8>> {
    match v {
        Some(n) => Some(n@),
        None => None,
    }
}

/// What building a node from the three fields of line `idx` yields:
/// the defined variable and the node, or the fatal error.
pub open spec fn build_node(
    loc: Seq<u8>,
    cmd: Seq<u8>,
    flow: Seq<u8>,
    idx: int,
    table: Map<Seq<u8>, int>,
    nodes: Seq<Option<TgNode>>,
) -> Result<(Option<Seq<u8>>, NodeModel), BuildError> {
    let acc = analyze_flow(split_spec(flow, tok_clause_sep()), table, nodes);
    if acc.conflict {
        Err(BuildError::ConflictingDefinition)
    } else {
        match calc_taint_spec(acc.preds, acc.reasons.len() == 0, cmd, nodes) {
            None => Err(BuildError::MalformedCommand),
            Some(t) => Ok(
                (
                    acc.var,
                    NodeModel {
                        idx,
                        preds: acc.preds,
                        reasons: acc.reasons + sink_candidates(acc.preds, loc, cmd, nodes, t),
                        taint: t,
                    },
                ),
            ),
        }
    }
}

impl TgNode {
    /// Build the node of line `idx` from its location, command and
    /// taint-flow fields, resolving predecessors through the variable
    /// table. Returns the variable the node defines, if any, together
    /// with the node.
    pub fn new(
        loc_part: &[u8],
        cmd_part: &[u8],
        tnt_flow: &[u8],
        idx: usize,
        table: &VarTable,
        nodes: &Vec<Option<TgNode>>,
    ) -> (r: Result<(Option<Vec<u8>>, TgNode), BuildError>)
        requires
            table.wf(),
            table.values_below(nodes@.len() as int),
            table_resolves(table@, nodes@),
        ensures
            ({
                let b = build_node(loc_part@, cmd_part@, tnt_flow@, idx as int, table@, nodes@);
                match r {
                    Ok((var, node)) => b matches Ok(p) && p.0 == opt_name_m(var) && p.1 == node_m(
                        node,
                    ) && node.idx == idx && edges_dests_in(node.preds@, nodes@.len() as int)
                        && reasons_in(node.sink_reasons@, nodes@.len() as int) && edges_in_some(
                        node.preds@,
                        nodes@,
                    ) && reasons_some(node.sink_reasons@, nodes@) && edges_resolved(
                        node.preds@,
                        table@,
                    ),
                    Err(e) => b == Err::<(Option<Seq<u8>>, NodeModel), BuildError>(e),
                }
            }),
    {
        let parts = match Self::analyze_taint_flow(tnt_flow, table, nodes) {
            Ok(p) => p,
            Err(e) => {
                return Err(e);
            },
        };
        let (var, preds, mut sink_reasons) = parts;
        let taint = match Self::calc_taint(&preds, sink_reasons.is_empty(), cmd_part, nodes) {
            Ok(t) => t,
            Err(e) => {
                return Err(e);
            },
        };
        Self::calc_sink(&mut sink_reasons, &preds, loc_part, cmd_part, taint, nodes);
        let node = TgNode { idx, preds, sink_reasons, taint };
        Ok((var, node))
    }

    /// A node is a source exactly when it has no sink reasons and
    /// none of its edges has a present destination.
    pub fn is_source(&self) -> (r: bool)
        ensures
            r == is_source_spec(*self),
    {
        if !self.sink_reasons.is_empty() {
            return false;
        }
        let n = self.preds.len();
        let mut k: usize = 0;
        while k < n
            invariant
                n == self.preds@.len(),
                0 <= k <= n,
                forall|j: int| 0 <= j < k ==> (#[trigger] self.preds@[j]).dest is None,
            decreases n - k,
        {
            let e = &self.preds[k];
            match e.dest {
                Some(_) => {
                    return false;
                },
                None => {},
            }
            k += 1;
        }
        true
    }

    /// A node is a sink exactly when it has a sink reason.
    pub fn is_sink(&self) -> (r: bool)
        ensures
            r == (self.sink_reasons@.len() > 0),
    {
        !self.sink_reasons.is_empty()
    }

    /// Whether the node's taint is Red.
    pub fn is_red(&self) -> (r: bool)
        ensures
            r == (self.taint == Taint::Red),
    {
        match self.taint {
            Taint::Red => true,
            _ => false,
        }
    }

    /// Whether the node's taint is Blue.
    pub fn is_blue(&self) -> (r: bool)
        ensures
            r == (self.taint == Taint::Blue),
    {
        match self.taint {
            Taint::Blue => true,
            _ => false,
        }
    }

    /// Whether the node's taint is Green.
    pub fn is_green(&self) -> (r: bool)
        ensures
            r == (self.taint == Taint::Green),
    {
        match self.taint {
            Taint::Green => true,
            _ => false,
        }
    }
}

/// Taint monotonicity: a node whose inherited taint is Red keeps
/// taint Red through command refinement; refinement touches Blue
/// nodes only.
pub proof fn lemma_taint_monotone(
    preds: Seq<(Seq<u8>, Option<int>)>,
    reasons_empty: bool,
    cmd: Seq<u8>,
    nodes: Seq<Option<TgNode>>,
)
    requires
        inherited_taint(preds, reasons_empty, nodes) == Taint::Red,
    ensures
        calc_taint_spec(preds, reasons_empty, cmd, nodes) == Some(Taint::Red),
{
}

/// A node is a source when nothing in the graph feeds it: it has no
/// sink reasons and every edge's destination is absent.
pub open spec fn is_source_spec(n: TgNode) -> bool {
    n.sink_reasons@.len() == 0 && forall|j: int|
        0 <= j < n.preds@.len() ==> (#[trigger] n.preds@[j]).dest is None
}

} // verus!
