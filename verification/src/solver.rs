//! Dataflow solver: one analysis node per instruction, and a worklist
//! fixpoint iteration that computes the least solution of the points-to
//! lattice over the control-flow graph.
//!
//! Each node stores the abstract state observed on entry to its
//! instruction. One step applies the instruction's transfer function to
//! that state and joins the output into every successor; a successor
//! whose state grew is queued again. All transfer functions are
//! monotone unions and the lattice is finite, so the iteration
//! terminates, and what it terminates on is the least solution.
use vstd::prelude::*;

use crate::env::Env;
use crate::env::VarSet;
use crate::env::env_get;
use crate::env::env_join;
use crate::env::env_keys;
use crate::env::env_le;
use crate::env::env_map;
use crate::env::env_size;
use crate::env::env_vars;
use crate::env::env_wf;
use crate::env::lemma_env_join_extends;
use crate::env::lemma_env_join_least;
use crate::env::lemma_env_keys_index;
use crate::env::lemma_env_keys_len;
use crate::env::lemma_env_le_antisym;
use crate::env::lemma_env_le_trans;
use crate::env::lemma_env_map_dom;
use crate::env::lemma_env_map_push;
use crate::env::lemma_env_size_bounded;
use crate::env::lemma_vs_seq_index;
use crate::env::lemma_vs_seq_len;
use crate::env::vs_seq;
use crate::env::vs_wf;
use crate::parser::IR;
use crate::parser::IRv;
use crate::parser::Stmt;
use crate::parser::Stmtv;
use crate::parser::irs_view;
use crate::parser::targets_view;
use crate::parser::wf_instrs;
use std::collections::VecDeque;

verus! {

/// One analysis node: an instruction's statement (if it is one), its
/// successor positions, the points-to state observed entering it, and
/// its checkpoint tag (if it is one).
#[derive(Debug)]
pub struct Node {
    pub stmt: Option<Stmt>,
    pub next: Vec<usize>,
    pub data: Env,
    pub tag: Option<String>,
}

/// The statement an optional statement stands for.
pub open spec fn stmt_view(s: Option<Stmt>) -> Option<Stmtv> {
    match s {
        Some(x) => Some(x@),
        None => None,
    }
}

/// The tag an optional tag stands for.
pub open spec fn tag_view(t: Option<String>) -> Option<Seq<char>> {
    match t {
        Some(x) => Some(x@),
        None => None,
    }
}

/// The statement an instruction carries, if it is a statement.
pub open spec fn stmt_of(ir: IRv) -> Option<Stmtv> {
    match ir {
        IRv::Stmt(s) => Some(s),
        _ => None,
    }
}

/// The checkpoint tag an instruction carries, if it is a checkpoint.
pub open spec fn tag_of(ir: IRv) -> Option<Seq<char>> {
    match ir {
        IRv::Check(t) => Some(t),
        _ => None,
    }
}

/// The successor positions of the instruction at position `i` in an
/// array of `n` instructions: a branch's explicit target list, or the
/// fallthrough position when one exists.
pub open spec fn succs_of(ir: IRv, i: int, n: int) -> Seq<int> {
    match ir {
        IRv::Branch(ts) => ts,
        _ => if i + 1 < n {
            seq![i + 1]
        } else {
            Seq::empty()
        },
    }
}

/// A node carries exactly its instruction's statement, tag and
/// successors.
pub open spec fn node_matches(nd: Node, ir: IRv, i: int, n: int) -> bool {
    &&& stmt_view(nd.stmt) == stmt_of(ir)
    &&& tag_view(nd.tag) == tag_of(ir)
    &&& targets_view(nd.next@) == succs_of(ir, i, n)
}

/// The per-node environments a node vector records.
pub open spec fn sol_of(nodes: Seq<Node>) -> Seq<Map<Seq<char>, Set<Seq<char>>>> {
    nodes.map_values(|nd: Node| nd.data@)
}

/// A recorded solution is as long as the node vector.
pub broadcast proof fn lemma_sol_of_len(nodes: Seq<Node>)
    ensures
        #[trigger] sol_of(nodes).len() == nodes.len(),
{
}

/// A recorded solution views its node vector element by element.
pub broadcast proof fn lemma_sol_of_index(nodes: Seq<Node>, k: int)
    requires
        0 <= k < nodes.len(),
    ensures
        #![trigger sol_of(nodes), nodes[k]]
        sol_of(nodes)[k] == nodes[k].data@,
{
}

/// The union of the points-to sets of every variable in `s`.
pub open spec fn du(m: Map<Seq<char>, Set<Seq<char>>>, s: Set<Seq<char>>) -> Set<Seq<char>> {
    Set::new(
        |x: Seq<char>| exists|v: Seq<char>| #[trigger] s.contains(v) && env_get(m, v).contains(x),
    )
}

/// The transfer function of one instruction, applied to the state
/// entering it. Branches, merge points and checkpoints leave the state
/// unchanged; the four statement kinds only add, never remove:
/// a `DerefWrite` is a weak update, unioning into every possible
/// target's set.
pub open spec fn transfer_spec(
    e: Map<Seq<char>, Set<Seq<char>>>,
    s: Option<Stmtv>,
) -> Map<Seq<char>, Set<Seq<char>>> {
    match s {
        None => e,
        Some(Stmtv::Ref { lhs, rhs }) => e.insert(lhs, env_get(e, lhs).insert(rhs)),
        Some(Stmtv::Alias { lhs, rhs }) => if !e.dom().contains(rhs) {
            e
        } else {
            e.insert(lhs, env_get(e, lhs).union(e[rhs]))
        },
        Some(Stmtv::DerefRead { lhs, rhs }) => if !e.dom().contains(rhs) {
            e
        } else {
            e.insert(lhs, env_get(e, lhs).union(du(e, e[rhs])))
        },
        Some(Stmtv::DerefWrite { lhs, rhs }) => if !e.dom().contains(lhs) || !e.dom().contains(
            rhs,
        ) {
            e
        } else {
            Map::new(
                |k: Seq<char>| e.dom().contains(k) || e[lhs].contains(k),
                |k: Seq<char>|
                    if e[lhs].contains(k) {
                        env_get(e, k).union(e[rhs])
                    } else {
                        e[k]
                    },
            )
        },
    }
}

/// A solution of the dataflow system: one environment per instruction,
/// such that along every control edge the source's transferred state
/// lies below the target's state.
pub open spec fn edge_ok(
    irs: Seq<IRv>,
    sol: Seq<Map<Seq<char>, Set<Seq<char>>>>,
    i: int,
    j: int,
) -> bool {
    let ss = succs_of(irs[i], i, irs.len() as int);
    0 <= ss[j] < irs.len() ==> env_le(transfer_spec(sol[i], stmt_of(irs[i])), sol[ss[j]])
}

/// Whether every control edge of node `i` is satisfied.
pub open spec fn node_ok(irs: Seq<IRv>, sol: Seq<Map<Seq<char>, Set<Seq<char>>>>, i: int) -> bool {
    forall|j: int|
        0 <= j < succs_of(irs[i], i, irs.len() as int).len() ==> #[trigger] edge_ok(irs, sol, i, j)
}

/// Whether `sol` is a solution of the whole system.
pub open spec fn is_solution(irs: Seq<IRv>, sol: Seq<Map<Seq<char>, Set<Seq<char>>>>) -> bool {
    sol.len() == irs.len() && (forall|i: int| 0 <= i < irs.len() ==> #[trigger] node_ok(irs, sol, i))
}

/// Pointwise lattice order on whole solutions.
pub open spec fn sols_le(
    a: Seq<Map<Seq<char>, Set<Seq<char>>>>,
    b: Seq<Map<Seq<char>, Set<Seq<char>>>>,
) -> bool {
    a.len() == b.len() && (forall|i: int| 0 <= i < a.len() ==> env_le(#[trigger] a[i], b[i]))
}

/// Whether `sol` is the least solution: a solution that lies below
/// every solution.
pub open spec fn is_least_solution(
    irs: Seq<IRv>,
    sol: Seq<Map<Seq<char>, Set<Seq<char>>>>,
) -> bool {
    is_solution(irs, sol) && (forall|other: Seq<Map<Seq<char>, Set<Seq<char>>>>|
        #[trigger] is_solution(irs, other) ==> sols_le(sol, other))
}

/// The variables a statement names.
pub open spec fn stmt_vars(s: Option<Stmtv>) -> Set<Seq<char>> {
    match s {
        None => Set::empty(),
        Some(Stmtv::Ref { lhs, rhs }) => Set::empty().insert(lhs).insert(rhs),
        Some(Stmtv::Alias { lhs, rhs }) => Set::empty().insert(lhs).insert(rhs),
        Some(Stmtv::DerefRead { lhs, rhs }) => Set::empty().insert(lhs).insert(rhs),
        Some(Stmtv::DerefWrite { lhs, rhs }) => Set::empty().insert(lhs).insert(rhs),
    }
}

/// Every variable an instruction array names.
pub open spec fn allvars(irs: Seq<IRv>) -> Set<Seq<char>>
    decreases irs.len(),
{
    if irs.len() == 0 {
        Set::empty()
    } else {
        allvars(irs.drop_last()).union(stmt_vars(stmt_of(irs.last())))
    }
}

/// The variable universe of a finite instruction array is finite.
pub proof fn lemma_allvars_finite(irs: Seq<IRv>)
    ensures
        allvars(irs).finite(),
    decreases irs.len(),
{
    if irs.len() > 0 {
        lemma_allvars_finite(irs.drop_last());
    }
}

/// Each instruction's variables lie in the array's universe.
pub proof fn lemma_allvars_instr(irs: Seq<IRv>, i: int)
    requires
        0 <= i < irs.len(),
    ensures
        stmt_vars(stmt_of(irs[i])).subset_of(allvars(irs)),
    decreases irs.len(),
{
    if i == irs.len() - 1 {
        assert(irs.last() == irs[i]);
    } else {
        lemma_allvars_instr(irs.drop_last(), i);
        assert(irs.drop_last()[i] == irs[i]);
    }
}

/// Under the lattice order, every variable's set only grows.
proof fn lemma_env_get_mono(
    a: Map<Seq<char>, Set<Seq<char>>>,
    b: Map<Seq<char>, Set<Seq<char>>>,
    k: Seq<char>,
)
    requires
        env_le(a, b),
    ensures
        env_get(a, k).subset_of(env_get(b, k)),
{
}

/// A variable's recorded set lies within the environment's variables.
proof fn lemma_env_get_sub_vars(e: Map<Seq<char>, Set<Seq<char>>>, k: Seq<char>)
    ensures
        env_get(e, k).subset_of(env_vars(e)),
{
    assert forall|x: Seq<char>| env_get(e, k).contains(x) implies env_vars(e).contains(x) by {
        assert(e.dom().contains(k) && e[k].contains(x));
    }
}

/// A dereference union lies within the environment's variables.
proof fn lemma_du_sub_vars(e: Map<Seq<char>, Set<Seq<char>>>, s: Set<Seq<char>>)
    ensures
        du(e, s).subset_of(env_vars(e)),
{
    assert forall|x: Seq<char>| du(e, s).contains(x) implies env_vars(e).contains(x) by {
        let v = choose|v: Seq<char>| #[trigger] s.contains(v) && env_get(e, v).contains(x);
        assert(env_get(e, v).contains(x));
        assert(e.dom().contains(v) && e[v].contains(x));
    }
}

/// Recording more into one variable keeps all variables within the old
/// ones, the key, and the recorded set.
proof fn lemma_env_vars_insert(e: Map<Seq<char>, Set<Seq<char>>>, k: Seq<char>, v: Set<Seq<char>>)
    ensures
        env_vars(e.insert(k, v)).subset_of(env_vars(e).union(v).insert(k)),
{
    let e2 = e.insert(k, v);
    assert forall|x: Seq<char>| env_vars(e2).contains(x) implies env_vars(e).union(v).insert(
        k,
    ).contains(x) by {
        if e2.dom().contains(x) {
            if x != k {
                assert(e.dom().contains(x));
            }
        } else {
            let q = choose|q: Seq<char>| #[trigger] e2.dom().contains(q) && e2[q].contains(x);
            if q == k {
                assert(v.contains(x));
            } else {
                assert(e.dom().contains(q) && e[q].contains(x));
                assert(env_vars(e).contains(x));
            }
        }
    }
}

/// The dereference union is monotone in both the environment and the
/// set dereferenced.
proof fn lemma_du_mono(
    a: Map<Seq<char>, Set<Seq<char>>>,
    b: Map<Seq<char>, Set<Seq<char>>>,
    s1: Set<Seq<char>>,
    s2: Set<Seq<char>>,
)
    requires
        env_le(a, b),
        s1.subset_of(s2),
    ensures
        du(a, s1).subset_of(du(b, s2)),
{
    assert forall|x: Seq<char>| du(a, s1).contains(x) implies du(b, s2).contains(x) by {
        let v = choose|v: Seq<char>| #[trigger] s1.contains(v) && env_get(a, v).contains(x);
        lemma_env_get_mono(a, b, v);
        assert(s2.contains(v) && env_get(b, v).contains(x));
    }
}

/// Every transfer function only adds: the input state lies below the
/// output state. For a `DerefWrite` this is the weak update property:
/// no affected pointee's set loses an element.
pub proof fn lemma_transfer_increasing(e: Map<Seq<char>, Set<Seq<char>>>, s: Option<Stmtv>)
    ensures
        env_le(e, transfer_spec(e, s)),
{
    let out = transfer_spec(e, s);
    match s {
        None => {},
        Some(Stmtv::Ref { lhs, rhs }) => {
            assert forall|k: Seq<char>| #[trigger] e.dom().contains(k) implies out.dom().contains(
                k,
            ) && e[k].subset_of(out[k]) by {}
        },
        Some(Stmtv::Alias { lhs, rhs }) => {
            assert forall|k: Seq<char>| #[trigger] e.dom().contains(k) implies out.dom().contains(
                k,
            ) && e[k].subset_of(out[k]) by {}
        },
        Some(Stmtv::DerefRead { lhs, rhs }) => {
            assert forall|k: Seq<char>| #[trigger] e.dom().contains(k) implies out.dom().contains(
                k,
            ) && e[k].subset_of(out[k]) by {}
        },
        Some(Stmtv::DerefWrite { lhs, rhs }) => {
            assert forall|k: Seq<char>| #[trigger] e.dom().contains(k) implies out.dom().contains(
                k,
            ) && e[k].subset_of(out[k]) by {}
        },
    }
}

/// Every transfer function is monotone: a larger input state gives a
/// larger output state.
pub proof fn lemma_transfer_monotone(
    a: Map<Seq<char>, Set<Seq<char>>>,
    b: Map<Seq<char>, Set<Seq<char>>>,
    s: Option<Stmtv>,
)
    requires
        env_le(a, b),
    ensures
        env_le(transfer_spec(a, s), transfer_spec(b, s)),
{
    let ta = transfer_spec(a, s);
    let tb = transfer_spec(b, s);
    match s {
        None => {},
        Some(Stmtv::Ref { lhs, rhs }) => {
            assert forall|k: Seq<char>| #[trigger] ta.dom().contains(k) implies tb.dom().contains(
                k,
            ) && ta[k].subset_of(tb[k]) by {
                lemma_env_get_mono(a, b, k);
            }
        },
        Some(Stmtv::Alias { lhs, rhs }) => {
            if !a.dom().contains(rhs) {
                lemma_transfer_increasing(b, s);
                lemma_env_le_trans(a, b, tb);
            } else {
                assert forall|k: Seq<char>| #[trigger] ta.dom().contains(
                    k,
                ) implies tb.dom().contains(k) && ta[k].subset_of(tb[k]) by {
                    lemma_env_get_mono(a, b, k);
                }
            }
        },
        Some(Stmtv::DerefRead { lhs, rhs }) => {
            if !a.dom().contains(rhs) {
                lemma_transfer_increasing(b, s);
                lemma_env_le_trans(a, b, tb);
            } else {
                lemma_du_mono(a, b, a[rhs], b[rhs]);
                assert forall|k: Seq<char>| #[trigger] ta.dom().contains(
                    k,
                ) implies tb.dom().contains(k) && ta[k].subset_of(tb[k]) by {
                    lemma_env_get_mono(a, b, k);
                }
            }
        },
        Some(Stmtv::DerefWrite { lhs, rhs }) => {
            if !a.dom().contains(lhs) || !a.dom().contains(rhs) {
                lemma_transfer_increasing(b, s);
                lemma_env_le_trans(a, b, tb);
            } else {
                assert forall|k: Seq<char>| #[trigger] ta.dom().contains(
                    k,
                ) implies tb.dom().contains(k) && ta[k].subset_of(tb[k]) by {
                    lemma_env_get_mono(a, b, k);
                    assert(a[lhs].subset_of(b[lhs]));
                    if a[lhs].contains(k) {
                        assert(ta[k] == env_get(a, k).union(a[rhs]));
                        assert(tb[k] == env_get(b, k).union(b[rhs]));
                    } else if a.dom().contains(k) {
                        assert(ta[k] == a[k]);
                        assert(a[k].subset_of(b[k]));
                        if b[lhs].contains(k) {
                            assert(tb[k] == env_get(b, k).union(b[rhs]));
                        } else {
                            assert(tb[k] == b[k]);
                        }
                    }
                }
            }
        },
    }
}

/// A transfer's output names no variable beyond the input state's and
/// the statement's own.
pub proof fn lemma_transfer_vars(e: Map<Seq<char>, Set<Seq<char>>>, s: Option<Stmtv>)
    ensures
        env_vars(transfer_spec(e, s)).subset_of(env_vars(e).union(stmt_vars(s))),
{
    let out = transfer_spec(e, s);
    let bound = env_vars(e).union(stmt_vars(s));
    match s {
        None => {},
        Some(Stmtv::Ref { lhs, rhs }) => {
            lemma_env_vars_insert(e, lhs, env_get(e, lhs).insert(rhs));
            lemma_env_get_sub_vars(e, lhs);
        },
        Some(Stmtv::Alias { lhs, rhs }) => {
            if e.dom().contains(rhs) {
                lemma_env_vars_insert(e, lhs, env_get(e, lhs).union(e[rhs]));
                lemma_env_get_sub_vars(e, lhs);
                lemma_env_get_sub_vars(e, rhs);
                assert(e[rhs] == env_get(e, rhs));
            }
        },
        Some(Stmtv::DerefRead { lhs, rhs }) => {
            if e.dom().contains(rhs) {
                lemma_env_vars_insert(e, lhs, env_get(e, lhs).union(du(e, e[rhs])));
                lemma_env_get_sub_vars(e, lhs);
                lemma_du_sub_vars(e, e[rhs]);
            }
        },
        Some(Stmtv::DerefWrite { lhs, rhs }) => {
            if e.dom().contains(lhs) && e.dom().contains(rhs) {
                lemma_env_get_sub_vars(e, rhs);
                assert(e[rhs] == env_get(e, rhs));
                assert forall|x: Seq<char>| env_vars(out).contains(x) implies bound.contains(
                    x,
                ) by {
                    lemma_env_get_sub_vars(e, lhs);
                    if out.dom().contains(x) {
                        if e.dom().contains(x) {
                            assert(env_vars(e).contains(x));
                        } else {
                            assert(e[lhs].contains(x));
                            assert(env_get(e, lhs).contains(x));
                        }
                    } else {
                        let q = choose|q: Seq<char>|
                            #[trigger] out.dom().contains(q) && out[q].contains(x);
                        if e[lhs].contains(q) {
                            assert(out[q] == env_get(e, q).union(e[rhs]));
                            if env_get(e, q).contains(x) {
                                lemma_env_get_sub_vars(e, q);
                            }
                        } else {
                            assert(out[q] == e[q]);
                            assert(e.dom().contains(q) && e[q].contains(x));
                            assert(env_vars(e).contains(x));
                        }
                    }
                }
            }
        },
    }
}

/// The union of the points-to sets of the variables in a name list,
/// built up front to back.
spec fn du_seq(m: Map<Seq<char>, Set<Seq<char>>>, vs: Seq<Seq<char>>) -> Set<Seq<char>>
    decreases vs.len(),
{
    if vs.len() == 0 {
        Set::empty()
    } else {
        du_seq(m, vs.drop_last()).union(env_get(m, vs.last()))
    }
}

/// Walking a name list unions exactly the dereference union of the
/// names' set.
proof fn lemma_du_seq_is_du(m: Map<Seq<char>, Set<Seq<char>>>, vs: Seq<Seq<char>>)
    ensures
        du_seq(m, vs) == du(m, vs.to_set()),
    decreases vs.len(),
{
    broadcast use vstd::prelude::Seq::lemma_push_to_set_commute;

    if vs.len() == 0 {
        assert forall|x: Seq<char>| !du(m, vs.to_set()).contains(x) by {
            if du(m, vs.to_set()).contains(x) {
                let v = choose|v: Seq<char>|
                    #[trigger] vs.to_set().contains(v) && env_get(m, v).contains(x);
                assert(vs.contains(v));
            }
        }
        assert(du_seq(m, vs) =~= du(m, vs.to_set()));
    } else {
        let dl = vs.drop_last();
        lemma_du_seq_is_du(m, dl);
        assert(vs =~= dl.push(vs.last()));
        assert(vs.to_set() == dl.to_set().insert(vs.last()));
        assert forall|x: Seq<char>| du_seq(m, vs).contains(x) implies du(m, vs.to_set()).contains(
            x,
        ) by {
            if du(m, dl.to_set()).contains(x) {
                let v = choose|v: Seq<char>|
                    #[trigger] dl.to_set().contains(v) && env_get(m, v).contains(x);
                assert(vs.to_set().contains(v) && env_get(m, v).contains(x));
            } else {
                assert(env_get(m, vs.last()).contains(x));
                assert(vs.to_set().contains(vs.last()));
            }
        }
        assert forall|x: Seq<char>| du(m, vs.to_set()).contains(x) implies du_seq(m, vs).contains(
            x,
        ) by {
            let v = choose|v: Seq<char>|
                #[trigger] vs.to_set().contains(v) && env_get(m, v).contains(x);
            if v == vs.last() {
                assert(env_get(m, vs.last()).contains(x));
            } else {
                assert(dl.to_set().contains(v));
                assert(du(m, dl.to_set()).contains(x));
            }
        }
        assert(du_seq(m, vs) =~= du(m, vs.to_set()));
    }
}

/// The running state of a weak update: the variables in `processed`
/// have already gained `r`, the rest still read as in `e`.
spec fn dw_apply(
    e: Map<Seq<char>, Set<Seq<char>>>,
    processed: Set<Seq<char>>,
    r: Set<Seq<char>>,
) -> Map<Seq<char>, Set<Seq<char>>> {
    Map::new(
        |k: Seq<char>| e.dom().contains(k) || processed.contains(k),
        |k: Seq<char>|
            if processed.contains(k) {
                env_get(e, k).union(r)
            } else {
                e[k]
            },
    )
}

/// Apply one instruction's transfer function to the given state, in
/// place.
fn transfer(data: &mut Env, stmt: &Option<Stmt>)
    requires
        env_wf(*old(data)),
    ensures
        env_wf(*final(data)),
        final(data)@ == transfer_spec(old(data)@, stmt_view(*stmt)),
{
    let ghost e0 = data@;
    match stmt {
        None => {},
        Some(Stmt::Ref { lhs, rhs }) => {
            let mut single = VarSet::new();
            single.insert(rhs);
            data.union_into_key(lhs, &single);
            proof {
                assert(single@ =~= Set::empty().insert(rhs@));
                assert(env_get(e0, lhs@).union(single@) =~= env_get(e0, lhs@).insert(rhs@));
                assert(data@ =~~= transfer_spec(e0, stmt_view(*stmt)));
            }
        },
        Some(Stmt::Alias { lhs, rhs }) => {
            let rset_opt = match data.lookup(rhs) {
                Some(vs) => Some(vs.clone_of()),
                None => None,
            };
            match rset_opt {
                None => {},
                Some(rset) => {
                    proof {
                        assert(vs_wf(rset));
                    }
                    data.union_into_key(lhs, &rset);
                    proof {
                        assert(data@ =~~= transfer_spec(e0, stmt_view(*stmt)));
                    }
                },
            }
        },
        Some(Stmt::DerefRead { lhs, rhs }) => {
            let rset_opt = match data.lookup(rhs) {
                Some(vs) => Some(vs.clone_of()),
                None => None,
            };
            match rset_opt {
                None => {},
                Some(rset) => {
                    let mut acc = VarSet::new();
                    let n = rset.items.len();
                    let mut k: usize = 0;
                    proof {
                        assert(vs_seq(rset).take(0) =~= Seq::<Seq<char>>::empty());
                        assert(acc@ =~= du_seq(e0, vs_seq(rset).take(0)));
                    }
                    while k < n
                        invariant
                            k <= n,
                            n == rset.items@.len(),
                            env_wf(*data),
                            data@ == e0,
                            vs_wf(acc),
                            e0.dom().contains(rhs@),
                            rset@ == e0[rhs@],
                            acc@ == du_seq(e0, vs_seq(rset).take(k as int)),
                        decreases n - k,
                    {
                        let ghost accpre = acc@;
                        match data.lookup(&rset.items[k]) {
                            Some(vs) => {
                                acc.union_from(vs);
                            },
                            None => {},
                        }
                        proof {
                            broadcast use lemma_vs_seq_len, lemma_vs_seq_index;

                            let stepped = vs_seq(rset).take(k + 1);
                            assert(stepped.drop_last() =~= vs_seq(rset).take(k as int));
                            assert(stepped.last() == rset.items@[k as int]@);
                            if e0.dom().contains(rset.items@[k as int]@) {
                                assert(acc@ =~= accpre.union(env_get(e0, stepped.last())));
                            } else {
                                assert(env_get(e0, stepped.last()) =~= Set::<Seq<char>>::empty());
                                assert(acc@ =~= accpre.union(env_get(e0, stepped.last())));
                            }
                            assert(acc@ == du_seq(e0, stepped));
                        }
                        k += 1;
                    }
                    proof {
                        broadcast use lemma_vs_seq_len, lemma_vs_seq_index;

                        assert(vs_seq(rset).take(n as int) =~= vs_seq(rset));
                        lemma_du_seq_is_du(e0, vs_seq(rset));
                    }
                    data.union_into_key(lhs, &acc);
                    proof {
                        assert(acc@ == du(e0, e0[rhs@]));
                        assert(data@ =~~= transfer_spec(e0, stmt_view(*stmt)));
                    }
                },
            }
        },
        Some(Stmt::DerefWrite { lhs, rhs }) => {
            let lset_opt = match data.lookup(lhs) {
                Some(vs) => Some(vs.clone_of()),
                None => None,
            };
            let rset_opt = match data.lookup(rhs) {
                Some(vs) => Some(vs.clone_of()),
                None => None,
            };
            match (lset_opt, rset_opt) {
                (Some(lset), Some(rset)) => {
                    let n = lset.items.len();
                    let mut k: usize = 0;
                    proof {
                        assert(vs_seq(lset).take(0).to_set() =~= Set::<Seq<char>>::empty());
                        assert(data@ =~~= dw_apply(e0, vs_seq(lset).take(0).to_set(), rset@));
                    }
                    while k < n
                        invariant
                            k <= n,
                            n == lset.items@.len(),
                            env_wf(*data),
                            vs_wf(rset),
                            e0.dom().contains(lhs@),
                            e0.dom().contains(rhs@),
                            lset@ == e0[lhs@],
                            rset@ == e0[rhs@],
                            data@ == dw_apply(e0, vs_seq(lset).take(k as int).to_set(), rset@),
                        decreases n - k,
                    {
                        let ghost cur = data@;
                        let ghost processed = vs_seq(lset).take(k as int).to_set();
                        data.union_into_key(&lset.items[k], &rset);
                        proof {
                            broadcast use lemma_vs_seq_len, lemma_vs_seq_index;
                            broadcast use vstd::prelude::Seq::lemma_push_to_set_commute;

                            let v = lset.items@[k as int]@;
                            assert(vs_seq(lset).take(k + 1) =~= vs_seq(lset).take(k as int).push(
                                v,
                            ));
                            assert(vs_seq(lset).take(k + 1).to_set() == processed.insert(v));
                            if processed.contains(v) {
                                assert(env_get(cur, v) =~= env_get(e0, v).union(rset@));
                            } else if e0.dom().contains(v) {
                                assert(env_get(cur, v) == e0[v]);
                            } else {
                                assert(env_get(cur, v) =~= Set::<Seq<char>>::empty());
                            }
                            assert(data@ =~~= dw_apply(e0, processed.insert(v), rset@));
                        }
                        k += 1;
                    }
                    proof {
                        broadcast use lemma_vs_seq_len, lemma_vs_seq_index;

                        assert(vs_seq(lset).take(n as int) =~= vs_seq(lset));
                        assert(data@ =~~= transfer_spec(e0, stmt_view(*stmt)));
                    }
                },
                _ => {},
            }
        },
    }
}

/// Join `src` into `data` pointwise; reports whether `data` grew. The
/// stored state never loses an element: the old state lies below the
/// new one.
fn meet(data: &mut Env, src: &Env) -> (changed: bool)
    requires
        env_wf(*old(data)),
        env_wf(*src),
    ensures
        env_wf(*final(data)),
        final(data)@ == env_join(old(data)@, src@),
        env_le(old(data)@, final(data)@),
        env_size(old(data).items@) <= env_size(final(data).items@),
        changed ==> env_size(final(data).items@) > env_size(old(data).items@),
        !changed ==> *final(data) == *old(data),
{
    let ghost a = data@;
    let n = src.items.len();
    let mut k: usize = 0;
    let mut changed = false;
    proof {
        assert(src.items@.take(0) =~= Seq::<(String, VarSet)>::empty());
        assert(data@ =~~= env_join(a, env_map(src.items@.take(0))));
    }
    while k < n
        invariant
            k <= n,
            n == src.items@.len(),
            env_wf(*data),
            env_wf(*src),
            data@ == env_join(a, env_map(src.items@.take(k as int))),
            env_size(old(data).items@) <= env_size(data.items@),
            changed ==> env_size(data.items@) > env_size(old(data).items@),
            !changed ==> *data == *old(data),
        decreases n - k,
    {
        let ghost cur = data@;
        let c = data.union_into_key(&src.items[k].0, &src.items[k].1);
        if c {
            changed = true;
        }
        proof {
            broadcast use lemma_env_keys_len, lemma_env_keys_index;

            let taken = src.items@.take(k as int);
            let m = env_map(taken);
            let key = src.items@[k as int].0@;
            let v = src.items@[k as int].1@;
            lemma_env_map_dom(taken);
            assert(env_keys(taken) =~= env_keys(src.items@).take(k as int));
            assert(!m.dom().contains(key)) by {
                if m.dom().contains(key) {
                    let q = choose|q: int|
                        0 <= q < env_keys(taken).len() && env_keys(taken)[q] == key;
                    assert(env_keys(src.items@)[q] == env_keys(src.items@)[k as int]);
                }
            }
            assert(env_get(cur, key) =~= env_get(a, key).union(env_get(m, key)));
            assert(data@ =~~= env_join(a, m.insert(key, v)));
            assert(src.items@.take(k + 1) =~= taken.push(src.items@[k as int]));
            lemma_env_map_push(taken, src.items@[k as int]);
        }
        k += 1;
    }
    proof {
        assert(src.items@.take(n as int) =~= src.items@);
        lemma_env_join_extends(a, src@);
    }
    changed
}

/// The combined store measure of all nodes' environments.
spec fn total_size(s: Seq<Node>) -> nat
    decreases s.len(),
{
    if s.len() == 0 {
        0
    } else {
        total_size(s.drop_last()) + env_size(s.last().data.items@)
    }
}

/// Replacing one node changes the combined measure by the difference
/// of the two environments' measures.
proof fn lemma_total_size_update(s: Seq<Node>, t: int, nd: Node)
    requires
        0 <= t < s.len(),
    ensures
        total_size(s.update(t, nd)) + env_size(s[t].data.items@) == total_size(s) + env_size(
            nd.data.items@,
        ),
    decreases s.len(),
{
    if t == s.len() - 1 {
        assert(s.update(t, nd).drop_last() =~= s.drop_last());
        assert(s.update(t, nd).last() == nd);
    } else {
        assert(s.update(t, nd).drop_last() =~= s.drop_last().update(t, nd));
        assert(s.update(t, nd).last() == s.last());
        assert(s.drop_last()[t] == s[t]);
        lemma_total_size_update(s.drop_last(), t, nd);
    }
}

/// With every node's measure at most `per`, the combined measure is at
/// most `per` per node.
proof fn lemma_total_size_le(s: Seq<Node>, per: nat)
    requires
        forall|i: int| 0 <= i < s.len() ==> env_size((#[trigger] s[i]).data.items@) <= per,
    ensures
        total_size(s) <= s.len() * per,
    decreases s.len(),
{
    if s.len() > 0 {
        assert forall|i: int| 0 <= i < s.drop_last().len() implies env_size(
            (#[trigger] s.drop_last()[i]).data.items@,
        ) <= per by {
            assert(s.drop_last()[i] == s[i]);
        }
        lemma_total_size_le(s.drop_last(), per);
        assert(s.last() == s[s.len() - 1]);
        assert((s.len() - 1) * per + per == s.len() * per) by (nonlinear_arith);
    }
}

/// One propagated control edge: the transferred output already lies
/// below the target's state (when the target is a real position).
spec fn edge_propagated(
    irs: Seq<IRv>,
    i: int,
    j: int,
    outv: Map<Seq<char>, Set<Seq<char>>>,
    sol: Seq<Map<Seq<char>, Set<Seq<char>>>>,
) -> bool {
    let tt = succs_of(irs[i], i, irs.len() as int)[j];
    0 <= tt < irs.len() ==> env_le(outv, sol[tt])
}

/// A join's variables come from its two sides.
pub proof fn lemma_env_join_vars(
    a: Map<Seq<char>, Set<Seq<char>>>,
    b: Map<Seq<char>, Set<Seq<char>>>,
)
    ensures
        env_vars(env_join(a, b)).subset_of(env_vars(a).union(env_vars(b))),
{
    let j = env_join(a, b);
    assert forall|x: Seq<char>| env_vars(j).contains(x) implies env_vars(a).union(
        env_vars(b),
    ).contains(x) by {
        if j.dom().contains(x) {
        } else {
            let q = choose|q: Seq<char>| #[trigger] j.dom().contains(q) && j[q].contains(x);
            assert(j[q] == env_get(a, q).union(env_get(b, q)));
            if env_get(a, q).contains(x) {
                lemma_env_get_sub_vars(a, q);
            } else {
                lemma_env_get_sub_vars(b, q);
            }
        }
    }
}

/// Solving is deterministic: a dataflow system has at most one least
/// solution, so two solves of the same instruction array record
/// identical final environments.
pub proof fn lemma_solve_deterministic(
    irs: Seq<IRv>,
    a: Seq<Map<Seq<char>, Set<Seq<char>>>>,
    b: Seq<Map<Seq<char>, Set<Seq<char>>>>,
)
    requires
        is_least_solution(irs, a),
        is_least_solution(irs, b),
    ensures
        a == b,
{
    assert(sols_le(a, b));
    assert(sols_le(b, a));
    assert forall|i: int| 0 <= i < a.len() implies a[i] == b[i] by {
        lemma_env_le_antisym(a[i], b[i]);
    }
    assert(a =~= b);
}

/// Weak-update soundness: a `DerefWrite` never removes an element from
/// any affected pointee's set. Every variable recorded before is still
/// recorded, with at least its old pointees.
pub proof fn lemma_deref_write_weak_update(
    e: Map<Seq<char>, Set<Seq<char>>>,
    lhs: Seq<char>,
    rhs: Seq<char>,
)
    ensures
        env_le(e, transfer_spec(e, Some(Stmtv::DerefWrite { lhs, rhs }))),
{
    lemma_transfer_increasing(e, Some(Stmtv::DerefWrite { lhs, rhs }));
}

/// Run the worklist fixpoint iteration over an instruction array.
///
/// Returns one analysis node per instruction, in instruction order,
/// each carrying the abstract state observed entering it. The recorded
/// states form the least solution of the dataflow system, so the
/// result is a function of the instruction array alone. Every state
/// starts empty and only ever grows; the iteration terminates because
/// each growing update raises a store measure bounded by the number of
/// nodes times the squared number of variables.
#[verifier::rlimit(100)]
pub fn solve(ir_list: Vec<IR>) -> (nodes: Vec<Node>)
    requires
        wf_instrs(irs_view(ir_list@)),
    ensures
        nodes@.len() == ir_list@.len(),
        forall|i: int|
            0 <= i < nodes@.len() ==> node_matches(
                #[trigger] nodes@[i],
                irs_view(ir_list@)[i],
                i,
                ir_list@.len() as int,
            ),
        forall|i: int| 0 <= i < nodes@.len() ==> env_wf((#[trigger] nodes@[i]).data),
        is_least_solution(irs_view(ir_list@), sol_of(nodes@)),
{
    broadcast use lemma_sol_of_len, lemma_sol_of_index;
    broadcast use crate::parser::lemma_irs_view_len, crate::parser::lemma_irs_view_index;

    let ghost irs = irs_view(ir_list@);
    let n_total = ir_list.len();
    let mut rest = ir_list;
    let mut nodes: Vec<Node> = Vec::new();
    while nodes.len() < n_total
        invariant
            nodes@.len() + rest@.len() == n_total,
            irs.len() == n_total,
            irs_view(rest@) == irs.skip(nodes@.len() as int),
            forall|i: int|
                0 <= i < nodes@.len() ==> node_matches(
                    #[trigger] nodes@[i],
                    irs[i],
                    i,
                    n_total as int,
                ),
            forall|i: int|
                0 <= i < nodes@.len() ==> env_wf((#[trigger] nodes@[i]).data) && nodes@[i].data@
                    == Map::<Seq<char>, Set<Seq<char>>>::empty() && env_size(
                    nodes@[i].data.items@,
                ) == 0,
        decreases n_total - nodes@.len(),
    {
        let i = nodes.len();
        let ghost rest0 = rest@;
        let ir = rest.remove(0);
        let ghost irv = ir@;
        proof {
            assert(irs_view(rest0)[0] == irv);
            assert(irv == irs[i as int]);
            assert(irs_view(rest@) =~= irs.skip(i + 1));
        }
        let mut stmt: Option<Stmt> = None;
        let mut tag: Option<String> = None;
        let mut next: Vec<usize> = Vec::new();
        match ir {
            IR::Stmt(s) => {
                if i + 1 < n_total {
                    next.push(i + 1);
                }
                stmt = Some(s);
            },
            IR::Branch(ts) => {
                next = ts;
            },
            IR::Check(t) => {
                if i + 1 < n_total {
                    next.push(i + 1);
                }
                tag = Some(t);
            },
            IR::Nop => {
                if i + 1 < n_total {
                    next.push(i + 1);
                }
            },
        }
        let nd = Node { stmt, next, data: Env::new(), tag };
        proof {
            if !(irv is Branch) {
                if i + 1 < n_total {
                    assert(targets_view(nd.next@) =~= seq![(i + 1) as int]);
                } else {
                    assert(targets_view(nd.next@) =~= Seq::<int>::empty());
                }
            }
            assert(node_matches(nd, irs[i as int], i as int, n_total as int));
        }
        nodes.push(nd);
    }
    // seed the worklist with every node
    let mut queue: VecDeque<usize> = VecDeque::new();
    let mut qi: usize = 0;
    while qi < n_total
        invariant
            qi <= n_total,
            queue@.len() == qi,
            forall|m: int| 0 <= m < qi ==> #[trigger] queue@[m] == m,
        decreases n_total - qi,
    {
        queue.push_back(qi);
        qi += 1;
    }
    let ghost av = allvars(irs);
    let ghost per = av.len() * (1 + av.len());
    let ghost bound = (n_total as nat) * per;
    proof {
        lemma_allvars_finite(irs);
        assert forall|i: int| 0 <= i < n_total implies queue@.contains(#[trigger] (i as usize)) by {
            assert(queue@[i] == i as usize);
        }
        assert forall|i: int| 0 <= i < n_total implies env_vars(
            (#[trigger] nodes@[i]).data@,
        ).subset_of(av) by {
            assert(nodes@[i].data@.dom() =~= Set::<Seq<char>>::empty());
            assert(env_vars(nodes@[i].data@) =~= Set::<Seq<char>>::empty());
        }
        assert forall|other: Seq<Map<Seq<char>, Set<Seq<char>>>>|
            #[trigger] is_solution(irs, other) implies sols_le(sol_of(nodes@), other) by {
            assert forall|i: int| 0 <= i < n_total implies env_le(
                #[trigger] sol_of(nodes@)[i],
                other[i],
            ) by {
                assert(sol_of(nodes@)[i].dom() =~= Set::<Seq<char>>::empty());
            }
        }
    }
    while queue.len() > 0
        invariant
            n_total == nodes@.len(),
            n_total == irs.len(),
            av == allvars(irs),
            per == av.len() * (1 + av.len()),
            bound == (n_total as nat) * per,
            av.finite(),
            wf_instrs(irs),
            forall|i: int|
                0 <= i < n_total ==> node_matches(#[trigger] nodes@[i], irs[i], i, n_total as int),
            forall|i: int| 0 <= i < n_total ==> env_wf((#[trigger] nodes@[i]).data),
            forall|i: int|
                0 <= i < n_total ==> env_vars((#[trigger] nodes@[i]).data@).subset_of(av),
            forall|i: int|
                0 <= i < n_total ==> env_size((#[trigger] nodes@[i]).data.items@) <= per,
            forall|m: int| 0 <= m < queue@.len() ==> #[trigger] queue@[m] < n_total,
            forall|i: int|
                0 <= i < n_total && !queue@.contains(i as usize) ==> node_ok(
                    irs,
                    sol_of(nodes@),
                    i,
                ),
            forall|other: Seq<Map<Seq<char>, Set<Seq<char>>>>|
                #[trigger] is_solution(irs, other) ==> sols_le(sol_of(nodes@), other),
        decreases bound - total_size(nodes@), queue@.len(),
    {
        let ghost qatpop = queue@;
        let popped = queue.pop_front();
        let node_idx = popped.unwrap();
        let ghost nodes0 = nodes@;
        let ghost sol0 = sol_of(nodes@);
        let ghost queue0 = queue@;
        proof {
            assert(qatpop[0] == node_idx);
            assert forall|i: int|
                0 <= i < n_total && i != node_idx && !queue@.contains(i as usize) implies node_ok(
                irs,
                sol_of(nodes@),
                i,
            ) by {
                if qatpop.contains(i as usize) {
                    let m = choose|m: int| 0 <= m < qatpop.len() && qatpop[m] == i as usize;
                    assert(queue@[m - 1] == i as usize);
                }
            }
        }
        let mut out = nodes[node_idx].data.clone_of();
        transfer(&mut out, &nodes[node_idx].stmt);
        let ghost outv = out@;
        proof {
            assert(stmt_view(nodes@[node_idx as int].stmt) == stmt_of(irs[node_idx as int]));
            assert(outv == transfer_spec(sol0[node_idx as int], stmt_of(irs[node_idx as int])));
            lemma_transfer_vars(sol0[node_idx as int], stmt_of(irs[node_idx as int]));
            lemma_allvars_instr(irs, node_idx as int);
            assert(env_vars(outv).subset_of(av));
        }
        let nsucc = nodes[node_idx].next.len();
        let mut sidx: usize = 0;
        let mut progressed = false;
        while sidx < nsucc
            invariant
                sidx <= nsucc,
                n_total == nodes@.len(),
                nsucc as int == succs_of(irs[node_idx as int], node_idx as int, n_total as int).len(),
                node_idx < n_total,
                forall|i: int|
                    0 <= i < n_total ==> node_matches(
                        #[trigger] nodes@[i],
                        irs[i],
                        i,
                        n_total as int,
                    ),
                forall|i: int| 0 <= i < n_total ==> env_wf((#[trigger] nodes@[i]).data),
                forall|i: int|
                    0 <= i < n_total ==> env_vars((#[trigger] nodes@[i]).data@).subset_of(av),
                forall|i: int|
                    0 <= i < n_total ==> env_size((#[trigger] nodes@[i]).data.items@) <= per,
                forall|i: int| 0 <= i < n_total ==> env_le(#[trigger] sol0[i], sol_of(nodes@)[i]),
                total_size(nodes0) <= total_size(nodes@),
                progressed ==> total_size(nodes@) > total_size(nodes0),
                !progressed ==> nodes@ == nodes0 && queue@ == queue0,
                forall|m: int| 0 <= m < queue@.len() ==> #[trigger] queue@[m] < n_total,
                forall|u: usize| queue0.contains(u) ==> queue@.contains(u),
                forall|i: int|
                    0 <= i < n_total && i != node_idx && !queue@.contains(i as usize) ==> node_ok(
                        irs,
                        sol_of(nodes@),
                        i,
                    ),
                nodes@[node_idx as int].data == nodes0[node_idx as int].data || queue@.contains(
                    node_idx,
                ),
                forall|j: int|
                    0 <= j < sidx ==> #[trigger] edge_propagated(
                        irs,
                        node_idx as int,
                        j,
                        outv,
                        sol_of(nodes@),
                    ),
                forall|other: Seq<Map<Seq<char>, Set<Seq<char>>>>|
                    #[trigger] is_solution(irs, other) ==> sols_le(sol_of(nodes@), other),
            decreases nsucc - sidx,
        {
            let t = nodes[node_idx].next[sidx];
            proof {
                assert(targets_view(nodes@[node_idx as int].next@)[sidx as int] == t as int);
                assert(succs_of(irs[node_idx as int], node_idx as int, n_total as int)[sidx as int]
                    == t as int);
            }
            if t < n_total {
                let ghost pre_nodes = nodes@;
                let ghost pre_sol = sol_of(nodes@);
                let ghost pre_queue = queue@;
                let changed = meet(&mut nodes[t].data, &out);
                if changed {
                    queue.push_back(t);
                    progressed = true;
                }
                proof {
                    let ti = t as int;
                    assert forall|u: usize| pre_queue.contains(u) implies queue@.contains(u) by {
                        let m = choose|m: int| 0 <= m < pre_queue.len() && pre_queue[m] == u;
                        assert(queue@[m] == u);
                    }
                    if changed {
                        assert(queue@[queue@.len() - 1] == t);
                        assert(queue@.contains(t));
                    }
                    assert forall|u: usize| queue0.contains(u) implies queue@.contains(u) by {
                        assert(pre_queue.contains(u));
                    }
                    let nd_new = nodes@[ti];
                    assert(nodes@ =~= pre_nodes.update(ti, nd_new));
                    assert(nd_new.stmt == pre_nodes[ti].stmt);
                    assert(nd_new.next == pre_nodes[ti].next);
                    assert(nd_new.tag == pre_nodes[ti].tag);
                    assert(nd_new.data@ == env_join(pre_sol[ti], outv));
                    // structure is untouched
                    assert forall|i: int| 0 <= i < n_total implies node_matches(
                        #[trigger] nodes@[i],
                        irs[i],
                        i,
                        n_total as int,
                    ) by {
                        if i != ti {
                            assert(nodes@[i] == pre_nodes[i]);
                        }
                    }
                    // the touched state stays well formed and bounded
                    lemma_env_join_vars(pre_sol[ti], outv);
                    lemma_env_size_bounded(nd_new.data, av);
                    lemma_total_size_update(pre_nodes, ti, nd_new);
                    // every state only grows
                    lemma_env_join_extends(pre_sol[ti], outv);
                    assert forall|i: int| 0 <= i < n_total implies env_le(
                        #[trigger] sol0[i],
                        sol_of(nodes@)[i],
                    ) by {
                        if i == ti {
                            lemma_env_le_trans(sol0[i], pre_sol[i], sol_of(nodes@)[i]);
                        } else {
                            assert(sol_of(nodes@)[i] == pre_sol[i]);
                        }
                    }
                    // the new edge is propagated, and earlier ones stay so
                    assert forall|j: int| 0 <= j < sidx + 1 implies #[trigger] edge_propagated(
                        irs,
                        node_idx as int,
                        j,
                        outv,
                        sol_of(nodes@),
                    ) by {
                        let tt = succs_of(irs[node_idx as int], node_idx as int, n_total as int)[j];
                        if 0 <= tt < n_total {
                            if j < sidx {
                                assert(edge_propagated(irs, node_idx as int, j, outv, pre_sol));
                                if tt == ti {
                                    lemma_env_le_trans(outv, pre_sol[tt], sol_of(nodes@)[tt]);
                                } else {
                                    assert(sol_of(nodes@)[tt] == pre_sol[tt]);
                                }
                            } else {
                                assert(tt == ti);
                            }
                        }
                    }
                    // nodes outside the queue keep their obligations
                    assert forall|i: int|
                        0 <= i < n_total && i != node_idx && !queue@.contains(
                            i as usize,
                        ) implies node_ok(irs, sol_of(nodes@), i) by {
                        assert(!pre_queue.contains(i as usize));
                        assert(node_ok(irs, pre_sol, i));
                        assert(sol_of(nodes@)[i] == pre_sol[i]) by {
                            if i == ti {
                                if changed {
                                    assert(queue@.contains(t));
                                    assert(false);
                                } else {
                                    assert(nodes@[ti].data == pre_nodes[ti].data);
                                }
                            }
                        }
                        assert forall|j: int|
                            0 <= j < succs_of(irs[i], i, n_total as int).len() implies #[trigger] edge_ok(
                            irs,
                            sol_of(nodes@),
                            i,
                            j,
                        ) by {
                            assert(edge_ok(irs, pre_sol, i, j));
                            let tt = succs_of(irs[i], i, n_total as int)[j];
                            if 0 <= tt < n_total {
                                if tt == ti {
                                    lemma_env_le_trans(
                                        transfer_spec(pre_sol[i], stmt_of(irs[i])),
                                        pre_sol[tt],
                                        sol_of(nodes@)[tt],
                                    );
                                } else {
                                    assert(sol_of(nodes@)[tt] == pre_sol[tt]);
                                }
                            }
                        }
                    }
                    // the popped node's state is untouched unless requeued
                    if !(nodes@[node_idx as int].data == nodes0[node_idx as int].data) {
                        if pre_nodes[node_idx as int].data == nodes0[node_idx as int].data {
                            assert(ti == node_idx as int && changed);
                            assert(queue@.contains(node_idx));
                        } else {
                            assert(pre_queue.contains(node_idx));
                            assert(queue@.contains(node_idx));
                        }
                    }
                    // the result still lies below every solution
                    assert forall|other: Seq<Map<Seq<char>, Set<Seq<char>>>>|
                        #[trigger] is_solution(irs, other) implies sols_le(
                        sol_of(nodes@),
                        other,
                    ) by {
                        assert(sols_le(pre_sol, other));
                        assert(sols_le(sol0, other)) by {
                            assert forall|i: int| 0 <= i < n_total implies env_le(
                                #[trigger] sol0[i],
                                other[i],
                            ) by {
                                lemma_env_le_trans(sol0[i], pre_sol[i], other[i]);
                            }
                        }
                        lemma_transfer_monotone(
                            sol0[node_idx as int],
                            other[node_idx as int],
                            stmt_of(irs[node_idx as int]),
                        );
                        assert(node_ok(irs, other, node_idx as int));
                        assert(edge_ok(irs, other, node_idx as int, sidx as int));
                        assert(env_le(
                            transfer_spec(other[node_idx as int], stmt_of(irs[node_idx as int])),
                            other[ti],
                        ));
                        lemma_env_le_trans(
                            outv,
                            transfer_spec(other[node_idx as int], stmt_of(irs[node_idx as int])),
                            other[ti],
                        );
                        lemma_env_join_least(pre_sol[ti], outv, other[ti]);
                        assert forall|i: int| 0 <= i < n_total implies env_le(
                            #[trigger] sol_of(nodes@)[i],
                            other[i],
                        ) by {
                            if i != ti {
                                assert(sol_of(nodes@)[i] == pre_sol[i]);
                            }
                        }
                    }
                }
            } else {
                proof {
                    assert forall|j: int| 0 <= j < sidx + 1 implies #[trigger] edge_propagated(
                        irs,
                        node_idx as int,
                        j,
                        outv,
                        sol_of(nodes@),
                    ) by {}
                }
            }
            sidx += 1;
        }
        proof {
            // restore the outer obligations for the popped node
            assert forall|i: int|
                0 <= i < n_total && !queue@.contains(i as usize) implies node_ok(
                irs,
                sol_of(nodes@),
                i,
            ) by {
                if i == node_idx as int {
                    assert(nodes@[i].data == nodes0[i].data);
                    assert(sol_of(nodes@)[i] == sol0[i]);
                    assert forall|j: int|
                        0 <= j < succs_of(irs[i], i, n_total as int).len() implies #[trigger] edge_ok(
                        irs,
                        sol_of(nodes@),
                        i,
                        j,
                    ) by {
                        assert(edge_propagated(irs, i, j, outv, sol_of(nodes@)));
                    }
                }
            }
            lemma_total_size_le(nodes@, per);
            assert(total_size(nodes@) <= (n_total as nat) * per) by (nonlinear_arith)
                requires
                    total_size(nodes@) <= nodes@.len() * per,
                    nodes@.len() == n_total,
            ;
            if !progressed {
                assert(total_size(nodes@) == total_size(nodes0));
                assert(queue@ =~= queue0);
            }
        }
    }
    proof {
        assert(is_solution(irs, sol_of(nodes@))) by {
            assert forall|i: int| 0 <= i < irs.len() implies #[trigger] node_ok(
                irs,
                sol_of(nodes@),
                i,
            ) by {
                assert(!queue@.contains(i as usize));
            }
        }
    }
    nodes
}

} // verus!
