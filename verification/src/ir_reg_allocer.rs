//! The register allocator: backward liveness analysis over the function
//! body, construction of the register interference graph (RIG), and
//! Chaitin-style graph coloring by iterative simplification with a widening
//! color count.
//!
//! The RIG keeps every edge it ever saw and models node removal by setting
//! edge weights to zero: weight one is an active edge, weight zero a
//! disabled one, and `reconnect_edges` restores them all.

use vstd::prelude::*;

use crate::ir_parser::{Node, Stmt, StmtV, clone_string, stmts_view};
use crate::rig_graph::{
    RigStore, edge_key, gm_edges, gm_nodes, graph_add_edge, graph_add_node, graph_edge_weight,
    graph_new, graph_set_edge_weight,
};

verus! {

// ------------------------------------------------------------------
// Per-statement definitions and uses
// ------------------------------------------------------------------

/// The names a sequence of strings stands for.
pub open spec fn strs_view(s: Seq<String>) -> Seq<Seq<char>> {
    s.map_values(|x: String| x@)
}

/// The variables a statement defines (removed from the live set, walking
/// backward).
pub open spec fn stmt_def_seq(s: StmtV) -> Seq<Seq<char>> {
    match s {
        StmtV::Add(d, _, _) => seq![d.name],
        StmtV::Sub(d, _, _) => seq![d.name],
        StmtV::Let(d, _) => seq![d.name],
        StmtV::Ret(_) => Seq::empty(),
        StmtV::Call(d, _, _) => seq![d.name],
    }
}

/// The variables a statement uses (added to the live set, walking
/// backward).
pub open spec fn stmt_use_seq(s: StmtV) -> Seq<Seq<char>> {
    match s {
        StmtV::Add(_, l, r) => seq![l, r],
        StmtV::Sub(_, l, r) => seq![l, r],
        StmtV::Let(_, v) => match v {
            crate::ir_parser::LetValueV::Var(nm) => seq![nm],
            crate::ir_parser::LetValueV::Int(_) => Seq::empty(),
        },
        StmtV::Ret(o) => match o {
            Some(nm) => seq![nm],
            None => Seq::empty(),
        },
        StmtV::Call(_, _, args) => args,
    }
}

/// The remove list and the add list of one statement: the defined names,
/// and the used names.
pub fn stmt_liveness(stmt: &Stmt) -> (r: (Vec<String>, Vec<String>))
    ensures
        strs_view(r.0@) == stmt_def_seq(stmt@),
        strs_view(r.1@) == stmt_use_seq(stmt@),
{
    let mut removes: Vec<String> = Vec::new();
    let mut adds: Vec<String> = Vec::new();
    match stmt {
        Stmt::AddInst(d, l, r) => {
            removes.push(clone_string(&d.name));
            adds.push(clone_string(&l.name));
            adds.push(clone_string(&r.name));
        },
        Stmt::SubInst(d, l, r) => {
            removes.push(clone_string(&d.name));
            adds.push(clone_string(&l.name));
            adds.push(clone_string(&r.name));
        },
        Stmt::LetInst(d, v) => {
            removes.push(clone_string(&d.name));
            match v {
                crate::ir_parser::LetValue::LetVariable(var) => {
                    adds.push(clone_string(&var.name));
                },
                crate::ir_parser::LetValue::LetInteger(_) => {},
            }
        },
        Stmt::RetInst(o) => {
            match o {
                Some(var) => {
                    adds.push(clone_string(&var.name));
                },
                None => {},
            }
        },
        Stmt::CallInst(d, _, args) => {
            removes.push(clone_string(&d.name));
            let mut k: usize = 0;
            while k < args.len()
                invariant
                    k <= args@.len(),
                    strs_view(adds@) == crate::ir_parser::vars_view(args@).take(k as int),
                decreases args@.len() - k,
            {
                adds.push(clone_string(&args[k].name));
                proof {
                    assert(strs_view(adds@) =~= crate::ir_parser::vars_view(args@).take(
                        k as int,
                    ).push(args@[k as int]@));
                    assert(crate::ir_parser::vars_view(args@).take(k + 1) =~= crate::ir_parser::vars_view(
                        args@,
                    ).take(k as int).push(args@[k as int]@));
                }
                k += 1;
            }
            proof {
                assert(crate::ir_parser::vars_view(args@).take(args@.len() as int)
                    =~= crate::ir_parser::vars_view(args@));
            }
        },
    }
    proof {
        assert(strs_view(removes@) =~= stmt_def_seq(stmt@));
        assert(strs_view(adds@) =~= stmt_use_seq(stmt@));
    }
    (removes, adds)
}

// ------------------------------------------------------------------
// Live sets
// ------------------------------------------------------------------

/// Appends each used name that the live list does not already hold, in
/// order.
pub open spec fn add_uses(l: Seq<Seq<char>>, u: Seq<Seq<char>>) -> Seq<Seq<char>>
    decreases u.len(),
{
    if u.len() == 0 {
        l
    } else {
        add_uses(
            if l.contains(u[0]) {
                l
            } else {
                l.push(u[0])
            },
            u.drop_first(),
        )
    }
}

/// Removes every occurrence of one name, keeping the order of the rest.
pub open spec fn remove_name(l: Seq<Seq<char>>, nm: Seq<char>) -> Seq<Seq<char>>
    decreases l.len(),
{
    if l.len() == 0 {
        Seq::empty()
    } else if l.last() == nm {
        remove_name(l.drop_last(), nm)
    } else {
        remove_name(l.drop_last(), nm).push(l.last())
    }
}

/// Removes every defined name.
pub open spec fn remove_defs(l: Seq<Seq<char>>, d: Seq<Seq<char>>) -> Seq<Seq<char>>
    decreases d.len(),
{
    if d.len() == 0 {
        l
    } else {
        remove_defs(remove_name(l, d[0]), d.drop_first())
    }
}

/// One backward dataflow step: the live set before a statement is its live
/// set after it, plus the uses, minus the definitions.
pub open spec fn live_step(prev: Seq<Seq<char>>, s: StmtV) -> Seq<Seq<char>> {
    remove_defs(add_uses(prev, stmt_use_seq(s)), stmt_def_seq(s))
}

/// The live sets of a statement run, one per statement, tail first: entry
/// `0` belongs to the last statement, whose live-out set is empty, and each
/// later entry feeds the one after it.
pub open spec fn live_sets(stmts: Seq<StmtV>) -> Seq<Seq<Seq<char>>>
    decreases stmts.len(),
{
    if stmts.len() == 0 {
        Seq::empty()
    } else {
        let rest = live_sets(stmts.drop_first());
        let prev = if rest.len() == 0 {
            Seq::<Seq<char>>::empty()
        } else {
            rest.last()
        };
        rest.push(live_step(prev, stmts[0]))
    }
}

proof fn lemma_live_sets_len(stmts: Seq<StmtV>)
    ensures
        live_sets(stmts).len() == stmts.len(),
    decreases stmts.len(),
{
    if stmts.len() > 0 {
        lemma_live_sets_len(stmts.drop_first());
    }
}

/// Whether a live list holds a name.
fn contains_name(v: &Vec<String>, nm: &String) -> (r: bool)
    ensures
        r == strs_view(v@).contains(nm@),
{
    let mut i: usize = 0;
    while i < v.len()
        invariant
            i <= v@.len(),
            forall|j: int| 0 <= j < i ==> strs_view(v@)[j] != nm@,
        decreases v@.len() - i,
    {
        if v[i] == *nm {
            proof {
                assert(strs_view(v@)[i as int] == nm@);
            }
            return true;
        }
        i += 1;
    }
    proof {
        assert(!strs_view(v@).contains(nm@)) by {
            if strs_view(v@).contains(nm@) {
                let j = choose|j: int| 0 <= j < strs_view(v@).len() && strs_view(v@)[j] == nm@;
                assert(strs_view(v@)[j] != nm@);
            }
        }
    }
    false
}

/// A copy of a name list.
fn clone_names(v: &Vec<String>) -> (r: Vec<String>)
    ensures
        strs_view(r@) == strs_view(v@),
{
    let mut out: Vec<String> = Vec::new();
    let mut i: usize = 0;
    while i < v.len()
        invariant
            i <= v@.len(),
            strs_view(out@) == strs_view(v@).take(i as int),
        decreases v@.len() - i,
    {
        out.push(clone_string(&v[i]));
        proof {
            assert(strs_view(out@) =~= strs_view(v@).take(i as int).push(v@[i as int]@));
            assert(strs_view(v@).take(i + 1) =~= strs_view(v@).take(i as int).push(
                v@[i as int]@,
            ));
        }
        i += 1;
    }
    proof {
        assert(strs_view(v@).take(v@.len() as int) =~= strs_view(v@));
    }
    out
}

/// The list without any occurrence of one name.
fn remove_name_exec(v: &Vec<String>, nm: &String) -> (r: Vec<String>)
    ensures
        strs_view(r@) == remove_name(strs_view(v@), nm@),
{
    let ghost full = strs_view(v@);
    let mut out: Vec<String> = Vec::new();
    let mut i: usize = 0;
    proof {
        assert(full.take(0) =~= Seq::<Seq<char>>::empty());
    }
    while i < v.len()
        invariant
            i <= v@.len(),
            full == strs_view(v@),
            strs_view(out@) == remove_name(full.take(i as int), nm@),
        decreases v@.len() - i,
    {
        proof {
            assert(full.take(i + 1).drop_last() =~= full.take(i as int));
            assert(full.take(i + 1).last() == v@[i as int]@);
        }
        if !(v[i] == *nm) {
            out.push(clone_string(&v[i]));
            proof {
                assert(strs_view(out@) =~= remove_name(full.take(i as int), nm@).push(
                    v@[i as int]@,
                ));
            }
        }
        i += 1;
    }
    proof {
        assert(full.take(v@.len() as int) =~= full);
    }
    out
}

/// The live-set snapshots of the function body, one per statement, in
/// reverse execution order: the first snapshot belongs to the last
/// statement.
pub fn get_funcdef_liveness_ranges(stmts: &Vec<Stmt>) -> (r: Vec<Vec<String>>)
    ensures
        r@.map_values(|v: Vec<String>| strs_view(v@)) == live_sets(stmts_view(stmts@)),
{
    let ghost full = stmts_view(stmts@);
    let mut out: Vec<Vec<String>> = Vec::new();
    let mut prev: Vec<String> = Vec::new();
    let mut idx: usize = stmts.len();
    proof {
        assert(full.skip(full.len() as int) =~= Seq::<StmtV>::empty());
        assert(out@.map_values(|v: Vec<String>| strs_view(v@)) =~= live_sets(
            full.skip(full.len() as int),
        ));
    }
    while idx > 0
        invariant
            idx <= stmts@.len(),
            full == stmts_view(stmts@),
            out@.map_values(|v: Vec<String>| strs_view(v@)) == live_sets(full.skip(idx as int)),
            live_sets(full.skip(idx as int)).len() == out@.len(),
            strs_view(prev@) == if out@.len() == 0 {
                Seq::<Seq<char>>::empty()
            } else {
                live_sets(full.skip(idx as int)).last()
            },
        decreases idx,
    {
        idx -= 1;
        let lists = stmt_liveness(&stmts[idx]);
        let removes = lists.0;
        let adds = lists.1;
        let mut ls = clone_names(&prev);
        let ghost before_adds = strs_view(ls@);
        let mut k: usize = 0;
        proof {
            assert(strs_view(adds@).skip(0) =~= strs_view(adds@));
        }
        while k < adds.len()
            invariant
                k <= adds@.len(),
                add_uses(before_adds, strs_view(adds@)) == add_uses(
                    strs_view(ls@),
                    strs_view(adds@).skip(k as int),
                ),
            decreases adds@.len() - k,
        {
            let ghost lsv0 = strs_view(ls@);
            proof {
                assert(strs_view(adds@).skip(k as int)[0] == adds@[k as int]@);
                assert(strs_view(adds@).skip(k as int).drop_first() =~= strs_view(adds@).skip(
                    k + 1,
                ));
            }
            if !contains_name(&ls, &adds[k]) {
                ls.push(clone_string(&adds[k]));
                proof {
                    assert(strs_view(ls@) =~= lsv0.push(adds@[k as int]@));
                }
            }
            proof {
                assert(add_uses(lsv0, strs_view(adds@).skip(k as int)) == add_uses(
                    strs_view(ls@),
                    strs_view(adds@).skip(k + 1),
                ));
            }
            k += 1;
        }
        proof {
            assert(strs_view(adds@).skip(adds@.len() as int) =~= Seq::<Seq<char>>::empty());
        }
        let ghost after_adds = strs_view(ls@);
        let mut k2: usize = 0;
        let mut cur = ls;
        proof {
            assert(strs_view(removes@).skip(0) =~= strs_view(removes@));
        }
        while k2 < removes.len()
            invariant
                k2 <= removes@.len(),
                remove_defs(after_adds, strs_view(removes@)) == remove_defs(
                    strs_view(cur@),
                    strs_view(removes@).skip(k2 as int),
                ),
            decreases removes@.len() - k2,
        {
            let ghost curv0 = strs_view(cur@);
            proof {
                assert(strs_view(removes@).skip(k2 as int)[0] == removes@[k2 as int]@);
                assert(strs_view(removes@).skip(k2 as int).drop_first() =~= strs_view(
                    removes@,
                ).skip(k2 + 1));
            }
            cur = remove_name_exec(&cur, &removes[k2]);
            proof {
                assert(remove_defs(curv0, strs_view(removes@).skip(k2 as int)) == remove_defs(
                    strs_view(cur@),
                    strs_view(removes@).skip(k2 + 1),
                ));
            }
            k2 += 1;
        }
        proof {
            assert(strs_view(removes@).skip(removes@.len() as int) =~= Seq::<Seq<char>>::empty());
        }
        let finished = cur;
        proof {
            assert(strs_view(finished@) == live_step(strs_view(prev@), full[idx as int]));
            assert(full.skip(idx as int)[0] == full[idx as int]);
            assert(full.skip(idx as int).drop_first() =~= full.skip(idx as int + 1));
            lemma_live_sets_len(full.skip(idx as int));
            lemma_live_sets_len(full.skip(idx as int + 1));
        }
        let copy = clone_names(&finished);
        out.push(copy);
        prev = finished;
        proof {
            assert(out@.map_values(|v: Vec<String>| strs_view(v@)) =~= live_sets(
                full.skip(idx as int),
            ));
        }
    }
    proof {
        assert(full.skip(0) =~= full);
    }
    out
}


// ------------------------------------------------------------------
// The interference graph
// ------------------------------------------------------------------

/// Pairwise distinct names.
pub open spec fn distinct_names(l: Seq<Seq<char>>) -> bool {
    forall|i: int, j: int| 0 <= i < j < l.len() ==> l[i] != l[j]
}

/// The register interference graph: nodes are variable names, interned to
/// indices in first-appearance order; edges carry weight one while active
/// and weight zero while virtually removed.
pub struct Rig {
    names: Vec<String>,
    graph: RigStore,
}

/// The interned names, in insertion order; a node's index is its identity.
pub closed spec fn rig_names(r: Rig) -> Seq<Seq<char>> {
    strs_view(r.names@)
}

/// The edge weights, keyed by ascending index pairs.
pub closed spec fn rig_edges(r: Rig) -> Map<(usize, usize), i64> {
    gm_edges(r.graph)
}

/// Well-formedness: the store's nodes are exactly the indices of the
/// interned names in order, the names are pairwise distinct, and every
/// edge joins two distinct in-range nodes with weight zero or one.
pub closed spec fn rig_wf(r: Rig) -> bool {
    &&& gm_nodes(r.graph) == Seq::new(r.names@.len() as nat, |i: int| i as usize)
    &&& distinct_names(strs_view(r.names@))
    &&& gm_edges(r.graph).dom().finite()
    &&& forall|k: (usize, usize)| #[trigger]
        gm_edges(r.graph).dom().contains(k) ==> k.0 < k.1 && (k.1 as int) < r.names@.len()
    &&& forall|k: (usize, usize)| #[trigger]
        gm_edges(r.graph).dom().contains(k) ==> gm_edges(r.graph)[k] == 0 || gm_edges(r.graph)[k]
            == 1
}

impl Rig {
    /// An empty interference graph.
    pub fn new() -> (r: Rig)
        ensures
            rig_wf(r),
            rig_names(r) == Seq::<Seq<char>>::empty(),
            rig_edges(r) == Map::<(usize, usize), i64>::empty(),
    {
        let r = Rig { names: Vec::new(), graph: graph_new() };
        proof {
            assert(gm_nodes(r.graph) =~= Seq::new(0nat, |i: int| i as usize));
            assert(strs_view(r.names@) =~= Seq::<Seq<char>>::empty());
        }
        r
    }

    /// How many nodes the graph holds.
    pub fn node_count(&self) -> (n: usize)
        ensures
            n == rig_names(*self).len(),
    {
        self.names.len()
    }

    /// The name interned at one index.
    pub fn node_name(&self, i: usize) -> (r: String)
        requires
            (i as int) < rig_names(*self).len(),
        ensures
            r@ == rig_names(*self)[i as int],
    {
        clone_string(&self.names[i])
    }

    /// The weight of the edge between two nodes, if the pair has ever
    /// interfered.
    pub fn edge_weight(&self, a: usize, b: usize) -> (r: Option<i64>)
        ensures
            r == if rig_edges(*self).contains_key(edge_key(a, b)) {
                Some(rig_edges(*self)[edge_key(a, b)])
            } else {
                None::<i64>
            },
    {
        graph_edge_weight(&self.graph, a, b)
    }
}

/// One interning step: a known name leaves the list alone, a new one is
/// appended.
pub open spec fn intern_one(names: Seq<Seq<char>>, nm: Seq<char>) -> Seq<Seq<char>> {
    if names.contains(nm) {
        names
    } else {
        names.push(nm)
    }
}

/// Interning a whole list, in order.
pub open spec fn intern_list(names: Seq<Seq<char>>, l: Seq<Seq<char>>) -> Seq<Seq<char>>
    decreases l.len(),
{
    if l.len() == 0 {
        names
    } else {
        intern_list(intern_one(names, l[0]), l.drop_first())
    }
}

/// Interns one name: returns its index, appending the name (and a graph
/// node for it) when it is new.
fn intern(rig: &mut Rig, name: &String) -> (id: usize)
    requires
        rig_wf(*old(rig)),
    ensures
        rig_wf(*final(rig)),
        rig_edges(*final(rig)) == rig_edges(*old(rig)),
        rig_names(*final(rig)) == intern_one(rig_names(*old(rig)), name@),
        (id as int) < rig_names(*final(rig)).len(),
        rig_names(*final(rig))[id as int] == name@,
        rig_names(*old(rig)).contains(name@) ==> rig_names(*final(rig)) == rig_names(*old(rig)),
        !rig_names(*old(rig)).contains(name@) ==> id as int == rig_names(*old(rig)).len(),
{
    let n = rig.names.len();
    let mut i: usize = 0;
    loop
        invariant_except_break
            *rig == *old(rig),
            rig_wf(*rig),
            n == rig.names@.len(),
            i <= n,
            forall|j: int| 0 <= j < i ==> strs_view(rig.names@)[j] != name@,
        ensures
            *rig == *old(rig),
            n == rig.names@.len(),
            !rig_names(*rig).contains(name@),
        decreases n - i,
    {
        if i == n {
            proof {
                assert(!rig_names(*rig).contains(name@)) by {
                    if rig_names(*rig).contains(name@) {
                        let j = choose|j: int|
                            0 <= j < rig_names(*rig).len() && rig_names(*rig)[j] == name@;
                        assert(strs_view(rig.names@)[j] != name@);
                    }
                }
            }
            break;
        }
        if rig.names[i] == *name {
            proof {
                assert(rig_names(*rig)[i as int] == name@);
                assert(rig_names(*rig).contains(name@));
            }
            return i;
        }
        i += 1;
    }
    let ghost names0 = rig_names(*rig);
    let ghost g0 = rig.graph;
    rig.names.push(clone_string(name));
    proof {
        assert(strs_view(rig.names@) =~= names0.push(name@));
        assert(!gm_nodes(g0).contains(n)) by {
            if gm_nodes(g0).contains(n) {
                let j = choose|j: int| 0 <= j < gm_nodes(g0).len() && gm_nodes(g0)[j] == n;
                assert(gm_nodes(g0)[j] == j as usize);
            }
        }
    }
    graph_add_node(&mut rig.graph, n);
    proof {
        assert(gm_nodes(rig.graph) =~= Seq::new(rig.names@.len() as nat, |i: int| i as usize));
        assert(rig_wf(*rig)) by {
            assert forall|i1: int, j1: int|
                0 <= i1 < j1 < strs_view(rig.names@).len() implies strs_view(rig.names@)[i1]
                != strs_view(rig.names@)[j1] by {
                if j1 < names0.len() {
                } else {
                    assert(strs_view(rig.names@)[j1] == name@);
                    assert(!names0.contains(name@));
                    if names0[i1] == name@ {
                        assert(names0.contains(name@));
                    }
                }
            }
        }
    }
    n
}

/// The index a name is interned at; meaningful when the names are distinct
/// and the name is present.
pub open spec fn name_id(names: Seq<Seq<char>>, nm: Seq<char>) -> usize {
    choose|i: usize| (i as int) < names.len() && names[i as int] == nm
}

proof fn lemma_name_id(names: Seq<Seq<char>>, nm: Seq<char>)
    requires
        names.contains(nm),
        names.len() <= usize::MAX,
    ensures
        (name_id(names, nm) as int) < names.len(),
        names[name_id(names, nm) as int] == nm,
{
    let j = choose|j: int| 0 <= j < names.len() && names[j] == nm;
    let ju = j as usize;
    assert((ju as int) < names.len() && names[ju as int] == nm);
}

proof fn lemma_name_id_unique(names: Seq<Seq<char>>, i: int)
    requires
        distinct_names(names),
        0 <= i < names.len(),
        names.len() <= usize::MAX,
    ensures
        name_id(names, names[i]) as int == i,
{
    let iu = i as usize;
    assert((iu as int) < names.len() && names[iu as int] == names[i]);
    lemma_name_id(names, names[i]);
    let id = name_id(names, names[i]) as int;
    if id != i {
        if id < i {
            assert(names[id] != names[i]);
        } else {
            assert(names[i] != names[id]);
        }
    }
}

/// Whether `k` is the edge between the interned nodes of two distinct
/// members of a live set.
pub open spec fn ls_edge(names: Seq<Seq<char>>, ls: Seq<Seq<char>>, k: (usize, usize)) -> bool {
    exists|x: int, y: int|
        0 <= x < ls.len() && 0 <= y < ls.len() && x != y && k == edge_key(
            name_id(names, ls[x]),
            name_id(names, ls[y]),
        )
}

/// Interns every member of a live set and joins every distinct pair with
/// an active edge.
pub fn add_liveset_to_rig(rig: &mut Rig, liveset: &Vec<String>)
    requires
        rig_wf(*old(rig)),
        distinct_names(strs_view(liveset@)),
    ensures
        rig_wf(*final(rig)),
        rig_names(*final(rig)) == intern_list(rig_names(*old(rig)), strs_view(liveset@)),
        forall|k: (usize, usize)| #[trigger]
            rig_edges(*final(rig)).contains_key(k) <==> rig_edges(*old(rig)).contains_key(k)
                || ls_edge(rig_names(*final(rig)), strs_view(liveset@), k),
        forall|k: (usize, usize)| #[trigger]
            rig_edges(*final(rig)).contains_key(k) ==> rig_edges(*final(rig))[k] == if ls_edge(
                rig_names(*final(rig)),
                strs_view(liveset@),
                k,
            ) {
                1i64
            } else {
                rig_edges(*old(rig))[k]
            },
{
    let ghost ls = strs_view(liveset@);
    let ghost names0 = rig_names(*old(rig));
    let len = liveset.len();
    let mut t: usize = 0;
    proof {
        assert(ls.skip(0) =~= ls);
    }
    while t < len
        invariant
            rig_wf(*rig),
            len == liveset@.len(),
            ls == strs_view(liveset@),
            names0 == rig_names(*old(rig)),
            t <= len,
            rig_edges(*rig) == rig_edges(*old(rig)),
            intern_list(names0, ls) == intern_list(rig_names(*rig), ls.skip(t as int)),
            forall|x: int| 0 <= x < t ==> rig_names(*rig).contains(ls[x]),
            forall|i: int|
                0 <= i < names0.len() ==> rig_names(*rig)[i] == names0[i],
            names0.len() <= rig_names(*rig).len(),
        decreases len - t,
    {
        let ghost namesb = rig_names(*rig);
        proof {
            assert(ls.skip(t as int)[0] == ls[t as int]);
            assert(ls.skip(t as int).drop_first() =~= ls.skip(t as int + 1));
        }
        let id_t = intern(rig, &liveset[t]);
        proof {
            assert(rig_names(*rig).contains(ls[t as int])) by {
                assert(rig_names(*rig)[id_t as int] == ls[t as int]);
            }
            assert forall|x: int| 0 <= x < t + 1 implies rig_names(*rig).contains(ls[x]) by {
                if x < t {
                    let w = choose|w: int| 0 <= w < namesb.len() && namesb[w] == ls[x];
                    assert(rig_names(*rig)[w] == ls[x]);
                }
            }
            assert forall|i2: int| 0 <= i2 < names0.len() implies rig_names(*rig)[i2]
                == names0[i2] by {
                assert(namesb[i2] == names0[i2]);
            }
        }
        t += 1;
    }
    proof {
        assert(ls.skip(len as int) =~= Seq::<Seq<char>>::empty());
    }
    let ghost names_f = rig_names(*rig);
    let ghost e0 = rig_edges(*old(rig));
    // Reading the length as a machine integer witnesses that it fits one.
    let _name_count = rig.names.len();
    proof {
        assert(names_f.len() <= usize::MAX);
    }
    // Every pair of distinct members now gets an active edge.
    let mut vi: usize = 0;
    while vi < len
        invariant
            rig_wf(*rig),
            len == liveset@.len(),
            ls == strs_view(liveset@),
            distinct_names(ls),
            names_f == rig_names(*rig),
            names_f.len() <= usize::MAX,
            e0.dom().finite(),
            forall|x: int| 0 <= x < len ==> names_f.contains(ls[x]),
            vi <= len,
            forall|k: (usize, usize)| #[trigger]
                rig_edges(*rig).contains_key(k) <==> e0.contains_key(k) || pair_upto(
                    names_f,
                    ls,
                    k,
                    vi as int,
                    0,
                ),
            forall|k: (usize, usize)| #[trigger]
                rig_edges(*rig).contains_key(k) ==> rig_edges(*rig)[k] == if pair_upto(
                    names_f,
                    ls,
                    k,
                    vi as int,
                    0,
                ) {
                    1i64
                } else {
                    e0[k]
                },
        decreases len - vi,
    {
        let idv = intern(rig, &liveset[vi]);
        proof {
            assert(names_f.contains(ls[vi as int]));
            assert(rig_names(*rig) == names_f);
            lemma_name_id_unique(names_f, idv as int);
        }
        let mut oi: usize = 0;
        while oi < len
            invariant
                rig_wf(*rig),
                len == liveset@.len(),
                ls == strs_view(liveset@),
                distinct_names(ls),
                names_f == rig_names(*rig),
                names_f.len() <= usize::MAX,
                e0.dom().finite(),
                forall|x: int| 0 <= x < len ==> names_f.contains(ls[x]),
                vi < len,
                oi <= len,
                (idv as int) < names_f.len(),
                names_f[idv as int] == ls[vi as int],
                idv == name_id(names_f, ls[vi as int]),
                forall|k: (usize, usize)| #[trigger]
                    rig_edges(*rig).contains_key(k) <==> e0.contains_key(k) || pair_upto(
                        names_f,
                        ls,
                        k,
                        vi as int,
                        oi as int,
                    ),
                forall|k: (usize, usize)| #[trigger]
                    rig_edges(*rig).contains_key(k) ==> rig_edges(*rig)[k] == if pair_upto(
                        names_f,
                        ls,
                        k,
                        vi as int,
                        oi as int,
                    ) {
                        1i64
                    } else {
                        e0[k]
                    },
            decreases len - oi,
        {
            if oi != vi {
                let ido = intern(rig, &liveset[oi]);
                proof {
                    assert(names_f.contains(ls[oi as int]));
                    assert(rig_names(*rig) == names_f);
                    lemma_name_id_unique(names_f, ido as int);
                    assert(ls[vi as int] != ls[oi as int]);
                    assert(idv != ido);
                    assert(gm_nodes(rig.graph).contains(idv)) by {
                        assert(gm_nodes(rig.graph)[idv as int] == idv);
                    }
                    assert(gm_nodes(rig.graph).contains(ido)) by {
                        assert(gm_nodes(rig.graph)[ido as int] == ido);
                    }
                }
                let ghost eb = rig_edges(*rig);
                graph_add_edge(&mut rig.graph, idv, ido, 1);
                proof {
                    let kk = edge_key(idv, ido);
                    assert(rig_edges(*rig) == eb.insert(kk, 1i64));
                    assert(pair_upto(names_f, ls, kk, vi as int, oi as int + 1)) by {
                        assert(pair_witness(
                            names_f,
                            ls,
                            kk,
                            vi as int,
                            oi as int + 1,
                            vi as int,
                            oi as int,
                        ));
                    }
                    assert forall|k: (usize, usize)|
                        k != kk implies (pair_upto(names_f, ls, k, vi as int, oi as int + 1)
                        == pair_upto(names_f, ls, k, vi as int, oi as int)) by {
                        if pair_upto(names_f, ls, k, vi as int, oi as int + 1) {
                            let (x, y): (int, int) = choose|x: int, y: int| #[trigger] pair_witness(names_f, ls, k, vi as int, oi as int + 1, x, y);
                            if x == vi && y == oi {
                                assert(k == kk);
                            } else {
                                assert(pair_witness(names_f, ls, k, vi as int, oi as int, x, y));
                            }
                        }
                        if pair_upto(names_f, ls, k, vi as int, oi as int) {
                            let (x, y): (int, int) = choose|x: int, y: int| #[trigger] pair_witness(names_f, ls, k, vi as int, oi as int, x, y);
                            assert(pair_witness(names_f, ls, k, vi as int, oi as int + 1, x, y));
                        }
                    }
                    assert forall|k: (usize, usize)| #[trigger]
                        rig_edges(*rig).contains_key(k) <==> e0.contains_key(k) || pair_upto(
                            names_f,
                            ls,
                            k,
                            vi as int,
                            oi as int + 1,
                        ) by {
                        if k == kk {
                            assert(rig_edges(*rig).contains_key(k));
                        } else {
                            assert(rig_edges(*rig).contains_key(k) == eb.contains_key(k));
                        }
                    }
                    assert forall|k: (usize, usize)| #[trigger]
                        rig_edges(*rig).contains_key(k) implies rig_edges(*rig)[k] == (
                        if pair_upto(names_f, ls, k, vi as int, oi as int + 1) {
                            1i64
                        } else {
                            e0[k]
                        }) by {
                        if k == kk {
                        } else {
                            assert(rig_edges(*rig)[k] == eb[k]);
                        }
                    }
                }
            } else {
                proof {
                    assert forall|k: (usize, usize)|
                        pair_upto(names_f, ls, k, vi as int, oi as int + 1) == pair_upto(
                        names_f,
                        ls,
                        k,
                        vi as int,
                        oi as int,
                    ) by {
                        if pair_upto(names_f, ls, k, vi as int, oi as int + 1) {
                            let (x, y): (int, int) = choose|x: int, y: int| #[trigger] pair_witness(names_f, ls, k, vi as int, oi as int + 1, x, y);
                            assert(pair_witness(names_f, ls, k, vi as int, oi as int, x, y));
                        }
                        if pair_upto(names_f, ls, k, vi as int, oi as int) {
                            let (x, y): (int, int) = choose|x: int, y: int| #[trigger] pair_witness(names_f, ls, k, vi as int, oi as int, x, y);
                            assert(pair_witness(names_f, ls, k, vi as int, oi as int + 1, x, y));
                        }
                    }
                }
            }
            oi += 1;
        }
        proof {
            assert forall|k: (usize, usize)|
                pair_upto(names_f, ls, k, vi as int + 1, 0) implies pair_upto(
                names_f,
                ls,
                k,
                vi as int,
                len as int,
            ) by {
                let (x, y): (int, int) = choose|x: int, y: int| #[trigger] pair_witness(names_f, ls, k, vi as int + 1, 0, x, y);
                assert(pair_witness(names_f, ls, k, vi as int, len as int, x, y));
            }
            assert forall|k: (usize, usize)|
                pair_upto(names_f, ls, k, vi as int, len as int) implies pair_upto(
                names_f,
                ls,
                k,
                vi as int + 1,
                0,
            ) by {
                let (x, y): (int, int) = choose|x: int, y: int| #[trigger] pair_witness(names_f, ls, k, vi as int, len as int, x, y);
                assert(pair_witness(names_f, ls, k, vi as int + 1, 0, x, y));
            }
        }
        vi += 1;
    }
    proof {
        assert forall|k: (usize, usize)|
            pair_upto(names_f, ls, k, len as int, 0) == ls_edge(names_f, ls, k) by {
            if pair_upto(names_f, ls, k, len as int, 0) {
                let (x, y): (int, int) = choose|x: int, y: int| #[trigger] pair_witness(names_f, ls, k, len as int, 0, x, y);
                assert(0 <= x < ls.len() && 0 <= y < ls.len() && x != y && k == edge_key(
                    name_id(names_f, ls[x]),
                    name_id(names_f, ls[y]),
                ));
            }
            if ls_edge(names_f, ls, k) {
                let (x, y): (int, int) = choose|x: int, y: int|
                    0 <= x < ls.len() && 0 <= y < ls.len() && x != y && k == edge_key(
                        name_id(names_f, ls[x]),
                        name_id(names_f, ls[y]),
                    );
                if x < len {
                    assert(pair_witness(names_f, ls, k, len as int, 0, x, y));
                }
            }
        }
    }
}

/// A helper for the edge-filling sweep: whether `k` joins liveset members
/// `x` and `y` with `x` before the sweep position `(vi, oi)`.
pub open spec fn pair_witness(
    names: Seq<Seq<char>>,
    ls: Seq<Seq<char>>,
    k: (usize, usize),
    vi: int,
    oi: int,
    x: int,
    y: int,
) -> bool {
    &&& 0 <= x < ls.len()
    &&& 0 <= y < ls.len()
    &&& x != y
    &&& (x < vi || (x == vi && y < oi))
    &&& k == edge_key(name_id(names, ls[x]), name_id(names, ls[y]))
}

/// Whether some pair before the sweep position explains the edge `k`.
pub open spec fn pair_upto(
    names: Seq<Seq<char>>,
    ls: Seq<Seq<char>>,
    k: (usize, usize),
    vi: int,
    oi: int,
) -> bool {
    exists|x: int, y: int| #[trigger] pair_witness(names, ls, k, vi, oi, x, y)
}


// ------------------------------------------------------------------
// Membership and distinctness of live sets
// ------------------------------------------------------------------

proof fn lemma_contains_push<A>(s: Seq<A>, a: A)
    ensures
        forall|x: A| s.push(a).contains(x) <==> s.contains(x) || x == a,
{
    assert forall|x: A| s.push(a).contains(x) <==> s.contains(x) || x == a by {
        if s.push(a).contains(x) {
            let i = choose|i: int| 0 <= i < s.push(a).len() && s.push(a)[i] == x;
            if i < s.len() {
                assert(s[i] == x);
            }
        }
        if s.contains(x) {
            let i = choose|i: int| 0 <= i < s.len() && s[i] == x;
            assert(s.push(a)[i] == x);
        }
        if x == a {
            assert(s.push(a)[s.len() as int] == x);
        }
    }
}

proof fn lemma_contains_last<A>(s: Seq<A>)
    requires
        s.len() > 0,
    ensures
        forall|x: A| s.contains(x) <==> s.drop_last().contains(x) || x == s.last(),
{
    assert forall|x: A| s.contains(x) <==> s.drop_last().contains(x) || x == s.last() by {
        if s.contains(x) {
            let i = choose|i: int| 0 <= i < s.len() && s[i] == x;
            if i < s.len() - 1 {
                assert(s.drop_last()[i] == x);
            }
        }
        if s.drop_last().contains(x) {
            let i = choose|i: int| 0 <= i < s.drop_last().len() && s.drop_last()[i] == x;
            assert(s[i] == x);
        }
        if x == s.last() {
            assert(s[s.len() - 1] == x);
        }
    }
}

proof fn lemma_contains_first<A>(s: Seq<A>)
    requires
        s.len() > 0,
    ensures
        forall|x: A| s.contains(x) <==> s.drop_first().contains(x) || x == s[0],
{
    assert forall|x: A| s.contains(x) <==> s.drop_first().contains(x) || x == s[0] by {
        if s.contains(x) {
            let i = choose|i: int| 0 <= i < s.len() && s[i] == x;
            if i > 0 {
                assert(s.drop_first()[i - 1] == x);
            }
        }
        if s.drop_first().contains(x) {
            let i = choose|i: int| 0 <= i < s.drop_first().len() && s.drop_first()[i] == x;
            assert(s[i + 1] == x);
        }
        if x == s[0] {
            assert(s[0] == x);
        }
    }
}

/// What `remove_name` holds: everything of the list except the removed
/// name.
proof fn lemma_remove_name_mem(l: Seq<Seq<char>>, nm: Seq<char>)
    ensures
        forall|x: Seq<char>| #[trigger]
            remove_name(l, nm).contains(x) <==> l.contains(x) && x != nm,
    decreases l.len(),
{
    if l.len() > 0 {
        lemma_remove_name_mem(l.drop_last(), nm);
        lemma_contains_last(l);
        if l.last() != nm {
            lemma_contains_push(remove_name(l.drop_last(), nm), l.last());
        }
        assert forall|x: Seq<char>|
            #[trigger] remove_name(l, nm).contains(x) <==> l.contains(x) && x != nm by {
            assert(remove_name(l.drop_last(), nm).contains(x) <==> l.drop_last().contains(x) && x
                != nm);
            if l.last() == nm {
                assert(remove_name(l, nm) == remove_name(l.drop_last(), nm));
            } else {
                assert(remove_name(l, nm) == remove_name(l.drop_last(), nm).push(l.last()));
                assert(remove_name(l, nm).contains(x) <==> remove_name(l.drop_last(), nm).contains(
                    x,
                ) || x == l.last());
            }
            assert(l.contains(x) <==> l.drop_last().contains(x) || x == l.last());
        }
    } else {
        assert forall|x: Seq<char>|
            #[trigger] remove_name(l, nm).contains(x) <==> l.contains(x) && x != nm by {
            assert(!remove_name(l, nm).contains(x));
            assert(!l.contains(x));
        }
    }
}

proof fn lemma_remove_name_distinct(l: Seq<Seq<char>>, nm: Seq<char>)
    requires
        distinct_names(l),
    ensures
        distinct_names(remove_name(l, nm)),
    decreases l.len(),
{
    if l.len() > 0 {
        assert forall|i: int, j: int|
            0 <= i < j < l.drop_last().len() implies l.drop_last()[i] != l.drop_last()[j] by {
            assert(l[i] == l.drop_last()[i] && l[j] == l.drop_last()[j]);
        }
        lemma_remove_name_distinct(l.drop_last(), nm);
        if l.last() != nm {
            lemma_remove_name_mem(l.drop_last(), nm);
            let r0 = remove_name(l.drop_last(), nm);
            assert forall|i: int, j: int|
                0 <= i < j < r0.push(l.last()).len() implies r0.push(l.last())[i] != r0.push(
                l.last(),
            )[j] by {
                if j == r0.len() {
                    assert(r0.push(l.last())[i] == r0[i]);
                    if r0[i] == l.last() {
                        assert(r0.contains(r0[i]));
                        assert(l.drop_last().contains(l.last()));
                        let w = choose|w: int|
                            0 <= w < l.drop_last().len() && l.drop_last()[w] == l.last();
                        assert(l[w] == l[l.len() - 1]);
                    }
                } else {
                    assert(r0.push(l.last())[i] == r0[i] && r0.push(l.last())[j] == r0[j]);
                }
            }
        }
    }
}

proof fn lemma_remove_defs_mem(l: Seq<Seq<char>>, d: Seq<Seq<char>>)
    ensures
        forall|x: Seq<char>| #[trigger]
            remove_defs(l, d).contains(x) <==> l.contains(x) && !d.contains(x),
    decreases d.len(),
{
    if d.len() > 0 {
        lemma_remove_name_mem(l, d[0]);
        lemma_remove_defs_mem(remove_name(l, d[0]), d.drop_first());
        lemma_contains_first(d);
        assert forall|x: Seq<char>|
            #[trigger] remove_defs(l, d).contains(x) <==> l.contains(x) && !d.contains(x) by {
            assert(remove_defs(l, d) == remove_defs(remove_name(l, d[0]), d.drop_first()));
            assert(remove_defs(remove_name(l, d[0]), d.drop_first()).contains(x) <==> remove_name(
                l,
                d[0],
            ).contains(x) && !d.drop_first().contains(x));
            assert(remove_name(l, d[0]).contains(x) <==> l.contains(x) && x != d[0]);
            assert(d.contains(x) <==> d.drop_first().contains(x) || x == d[0]);
        }
    }
}

proof fn lemma_remove_defs_distinct(l: Seq<Seq<char>>, d: Seq<Seq<char>>)
    requires
        distinct_names(l),
    ensures
        distinct_names(remove_defs(l, d)),
    decreases d.len(),
{
    if d.len() > 0 {
        lemma_remove_name_distinct(l, d[0]);
        lemma_remove_defs_distinct(remove_name(l, d[0]), d.drop_first());
    }
}

proof fn lemma_add_uses_mem(l: Seq<Seq<char>>, u: Seq<Seq<char>>)
    ensures
        forall|x: Seq<char>| #[trigger]
            add_uses(l, u).contains(x) <==> l.contains(x) || u.contains(x),
    decreases u.len(),
{
    if u.len() > 0 {
        let l1 = if l.contains(u[0]) {
            l
        } else {
            l.push(u[0])
        };
        lemma_contains_push(l, u[0]);
        lemma_add_uses_mem(l1, u.drop_first());
        lemma_contains_first(u);
        assert forall|x: Seq<char>|
            #[trigger] add_uses(l, u).contains(x) <==> l.contains(x) || u.contains(x) by {
            assert(add_uses(l, u) == add_uses(l1, u.drop_first()));
            assert(add_uses(l1, u.drop_first()).contains(x) <==> l1.contains(x)
                || u.drop_first().contains(x));
            assert(l1.contains(x) <==> l.contains(x) || x == u[0]);
            assert(u.contains(x) <==> u.drop_first().contains(x) || x == u[0]);
        }
    }
}

proof fn lemma_add_uses_distinct(l: Seq<Seq<char>>, u: Seq<Seq<char>>)
    requires
        distinct_names(l),
    ensures
        distinct_names(add_uses(l, u)),
    decreases u.len(),
{
    if u.len() > 0 {
        let l1 = if l.contains(u[0]) {
            l
        } else {
            l.push(u[0])
        };
        assert(distinct_names(l1)) by {
            if !l.contains(u[0]) {
                assert forall|i: int, j: int|
                    0 <= i < j < l1.len() implies l1[i] != l1[j] by {
                    if j == l.len() {
                        assert(l1[i] == l[i]);
                        if l[i] == u[0] {
                            assert(l.contains(l[i]));
                        }
                    } else {
                        assert(l1[i] == l[i] && l1[j] == l[j]);
                    }
                }
            }
        }
        lemma_add_uses_distinct(l1, u.drop_first());
    }
}

/// Every live set holds pairwise distinct names.
pub proof fn lemma_live_sets_distinct(stmts: Seq<StmtV>)
    ensures
        forall|j: int|
            0 <= j < live_sets(stmts).len() ==> distinct_names(#[trigger] live_sets(stmts)[j]),
    decreases stmts.len(),
{
    if stmts.len() > 0 {
        let rest = live_sets(stmts.drop_first());
        lemma_live_sets_distinct(stmts.drop_first());
        let prev = if rest.len() == 0 {
            Seq::<Seq<char>>::empty()
        } else {
            rest.last()
        };
        assert(distinct_names(prev)) by {
            if rest.len() > 0 {
                assert(rest[rest.len() - 1] == rest.last());
            }
        }
        lemma_add_uses_distinct(prev, stmt_use_seq(stmts[0]));
        lemma_remove_defs_distinct(add_uses(prev, stmt_use_seq(stmts[0])), stmt_def_seq(stmts[0]));
        assert forall|j: int|
            0 <= j < live_sets(stmts).len() implies distinct_names(
            #[trigger] live_sets(stmts)[j],
        ) by {
            if j < rest.len() {
                assert(live_sets(stmts)[j] == rest[j]);
            } else {
                assert(live_sets(stmts)[j] == live_step(prev, stmts[0]));
            }
        }
    }
}

// ------------------------------------------------------------------
// Building the whole graph
// ------------------------------------------------------------------

/// Interning is cumulative: the old names keep their places, interned
/// names are present, and present names stay present.
proof fn lemma_intern_list_grows(names: Seq<Seq<char>>, l: Seq<Seq<char>>)
    ensures
        intern_list(names, l).len() >= names.len(),
        forall|i: int| 0 <= i < names.len() ==> intern_list(names, l)[i] == names[i],
        forall|x: int| 0 <= x < l.len() ==> intern_list(names, l).contains(l[x]),
        forall|nm: Seq<char>|
            names.contains(nm) ==> #[trigger] intern_list(names, l).contains(nm),
    decreases l.len(),
{
    if l.len() > 0 {
        let n1 = intern_one(names, l[0]);
        lemma_contains_push(names, l[0]);
        lemma_intern_list_grows(n1, l.drop_first());
        assert(n1.contains(l[0]));
        assert forall|i: int| 0 <= i < names.len() implies intern_list(names, l)[i]
            == names[i] by {
            assert(n1[i] == names[i]);
            assert(intern_list(n1, l.drop_first())[i] == n1[i]);
        }
        assert forall|x: int| 0 <= x < l.len() implies intern_list(names, l).contains(l[x]) by {
            if x == 0 {
                assert(intern_list(n1, l.drop_first()).contains(l[0]));
            } else {
                assert(l.drop_first()[x - 1] == l[x]);
            }
        }
    }
}

/// The names after interning all live sets, in order.
pub open spec fn intern_lsets(names: Seq<Seq<char>>, ll: Seq<Seq<Seq<char>>>) -> Seq<Seq<char>>
    decreases ll.len(),
{
    if ll.len() == 0 {
        names
    } else {
        intern_lsets(intern_list(names, ll[0]), ll.drop_first())
    }
}

/// The names after also interning each statement's defined names, in
/// order.
pub open spec fn intern_defs(names: Seq<Seq<char>>, stmts: Seq<StmtV>) -> Seq<Seq<char>>
    decreases stmts.len(),
{
    if stmts.len() == 0 {
        names
    } else {
        intern_defs(intern_list(names, stmt_def_seq(stmts[0])), stmts.drop_first())
    }
}

/// The node names of the interference graph of a function body: the
/// members of its live sets in order of appearance, then any defined names
/// that were never live.
pub open spec fn rig_names_spec(stmts: Seq<StmtV>) -> Seq<Seq<char>> {
    intern_defs(intern_lsets(Seq::empty(), live_sets(stmts)), stmts)
}

/// Whether two names are both members of one live set.
pub open spec fn lset_pair(s: Seq<Seq<char>>, a: Seq<char>, b: Seq<char>) -> bool {
    s.contains(a) && s.contains(b)
}

/// Whether two names are live at the same program point.
pub open spec fn interferes(ll: Seq<Seq<Seq<char>>>, a: Seq<char>, b: Seq<char>) -> bool {
    exists|j: int| 0 <= j < ll.len() && #[trigger] lset_pair(ll[j], a, b)
}

/// The edge produced for a live set is exactly a pair of its members.
proof fn lemma_ls_edge_iff(names: Seq<Seq<char>>, ls: Seq<Seq<char>>, k: (usize, usize))
    requires
        distinct_names(names),
        distinct_names(ls),
        forall|x: int| 0 <= x < ls.len() ==> names.contains(#[trigger] ls[x]),
        names.len() <= usize::MAX,
    ensures
        ls_edge(names, ls, k) <==> (k.0 < k.1 && (k.1 as int) < names.len() && lset_pair(
            ls,
            names[k.0 as int],
            names[k.1 as int],
        )),
{
    if ls_edge(names, ls, k) {
        let (x, y): (int, int) = choose|x: int, y: int|
            0 <= x < ls.len() && 0 <= y < ls.len() && x != y && k == edge_key(
                name_id(names, ls[x]),
                name_id(names, ls[y]),
            );
        lemma_name_id(names, ls[x]);
        lemma_name_id(names, ls[y]);
        let ix = name_id(names, ls[x]);
        let iy = name_id(names, ls[y]);
        assert(ls[x] != ls[y]);
        assert(ix != iy) by {
            if ix == iy {
                assert(names[ix as int] == ls[x] && names[iy as int] == ls[y]);
            }
        }
        assert(names[k.0 as int] == ls[x] || names[k.0 as int] == ls[y]);
        assert(names[k.1 as int] == ls[x] || names[k.1 as int] == ls[y]);
        assert(ls.contains(names[k.0 as int]));
        assert(ls.contains(names[k.1 as int]));
    }
    if k.0 < k.1 && (k.1 as int) < names.len() && lset_pair(ls, names[k.0 as int], names[k.1 as int])
    {
        let a = names[k.0 as int];
        let b = names[k.1 as int];
        let x = choose|x: int| 0 <= x < ls.len() && ls[x] == a;
        let y = choose|y: int| 0 <= y < ls.len() && ls[y] == b;
        assert(a != b);
        assert(x != y);
        lemma_name_id_unique(names, k.0 as int);
        lemma_name_id_unique(names, k.1 as int);
        assert(k == edge_key(name_id(names, ls[x]), name_id(names, ls[y])));
        assert(ls_edge(names, ls, k)) by {
            assert(0 <= x < ls.len() && 0 <= y < ls.len() && x != y && k == edge_key(
                name_id(names, ls[x]),
                name_id(names, ls[y]),
            ));
        }
    }
}

/// Builds the register interference graph of one function: every pair of
/// names that are live at the same program point shares an active edge,
/// and every name a statement defines appears as a node even when it is
/// never live.
pub fn generate_rig(ast: &Node) -> (r: Rig)
    ensures
        rig_wf(r),
        rig_names(r) == rig_names_spec(ast@->FuncDef_1),
        forall|k: (usize, usize)| #[trigger]
            rig_edges(r).contains_key(k) <==> (k.0 < k.1 && (k.1 as int) < rig_names(r).len()
                && interferes(
                live_sets(ast@->FuncDef_1),
                rig_names(r)[k.0 as int],
                rig_names(r)[k.1 as int],
            )),
        forall|k: (usize, usize)| #[trigger]
            rig_edges(r).contains_key(k) ==> rig_edges(r)[k] == 1i64,
{
    let ghost body = ast@->FuncDef_1;
    let ghost lg = live_sets(body);
    let stmts = match ast {
        Node::FuncDef(_, stmts) => stmts,
    };
    let mut rig = Rig::new();
    let livesets = get_funcdef_liveness_ranges(stmts);
    proof {
        lemma_live_sets_len(body);
        lemma_live_sets_distinct(body);
        assert(livesets@.map_values(|v: Vec<String>| strs_view(v@)) == lg);
    }
    let mut t: usize = 0;
    while t < livesets.len()
        invariant
            livesets@.map_values(|v: Vec<String>| strs_view(v@)) == lg,
            lg == live_sets(body),
            forall|j: int| 0 <= j < lg.len() ==> distinct_names(#[trigger] lg[j]),
            t <= livesets@.len(),
            lg.len() == livesets@.len(),
            rig_wf(rig),
            rig_names(rig) == intern_lsets(Seq::<Seq<char>>::empty(), lg.take(t as int)),
            forall|j: int, x: int|
                0 <= j < t && 0 <= x < lg[j].len() ==> rig_names(rig).contains(
                    #[trigger] lg[j][x],
                ),
            forall|k: (usize, usize)| #[trigger]
                rig_edges(rig).contains_key(k) <==> (k.0 < k.1 && (k.1 as int) < rig_names(
                    rig,
                ).len() && interferes(
                    lg.take(t as int),
                    rig_names(rig)[k.0 as int],
                    rig_names(rig)[k.1 as int],
                )),
            forall|k: (usize, usize)| #[trigger]
                rig_edges(rig).contains_key(k) ==> rig_edges(rig)[k] == 1i64,
        decreases livesets@.len() - t,
    {
        let ghost names_b = rig_names(rig);
        let ghost e_b = rig_edges(rig);
        proof {
            assert(strs_view(livesets@[t as int]@) == lg[t as int]);
        }
        add_liveset_to_rig(&mut rig, &livesets[t]);
        proof {
            let ls = lg[t as int];
            let names_a = rig_names(rig);
            lemma_intern_list_grows(names_b, ls);
            assert(lg.take(t as int + 1).drop_last() =~= lg.take(t as int));
            assert(lg.take(t as int + 1).last() == lg[t as int]);
            assert(intern_lsets(Seq::<Seq<char>>::empty(), lg.take(t as int + 1))
                == intern_list(names_b, ls)) by {
                lemma_intern_lsets_snoc(lg, t as int);
            }
            // Reading the length as a machine integer witnesses that it fits one.
            let _name_count = rig.names.len();
            assert(names_a.len() <= usize::MAX);
            lemma_ls_edge_iff(names_a, ls, ((0usize, 0usize)));
            assert forall|k: (usize, usize)| #[trigger]
                rig_edges(rig).contains_key(k) <==> (k.0 < k.1 && (k.1 as int) < names_a.len()
                    && interferes(
                    lg.take(t as int + 1),
                    names_a[k.0 as int],
                    names_a[k.1 as int],
                )) by {
                lemma_ls_edge_iff(names_a, ls, k);
                if rig_edges(rig).contains_key(k) {
                    if e_b.contains_key(k) {
                        assert(k.0 < k.1 && (k.1 as int) < names_b.len());
                        assert(names_a[k.0 as int] == names_b[k.0 as int]);
                        assert(names_a[k.1 as int] == names_b[k.1 as int]);
                        let j = choose|j: int|
                            0 <= j < lg.take(t as int).len() && #[trigger] lset_pair(
                                lg.take(t as int)[j],
                                names_b[k.0 as int],
                                names_b[k.1 as int],
                            );
                        assert(lg.take(t as int + 1)[j] == lg.take(t as int)[j]);
                        assert(lset_pair(
                            lg.take(t as int + 1)[j],
                            names_a[k.0 as int],
                            names_a[k.1 as int],
                        ));
                    } else {
                        assert(ls_edge(names_a, ls, k));
                        assert(lg.take(t as int + 1)[t as int] == ls);
                        assert(lset_pair(
                            lg.take(t as int + 1)[t as int],
                            names_a[k.0 as int],
                            names_a[k.1 as int],
                        ));
                    }
                } else {
                    if k.0 < k.1 && (k.1 as int) < names_a.len() && interferes(
                        lg.take(t as int + 1),
                        names_a[k.0 as int],
                        names_a[k.1 as int],
                    ) {
                        let j = choose|j: int|
                            0 <= j < lg.take(t as int + 1).len() && #[trigger] lset_pair(
                                lg.take(t as int + 1)[j],
                                names_a[k.0 as int],
                                names_a[k.1 as int],
                            );
                        if j < t {
                            assert(lg.take(t as int)[j] == lg.take(t as int + 1)[j]);
                            assert(names_a.contains(names_a[k.0 as int]));
                            assert(lg[j].contains(names_a[k.0 as int]) && lg[j].contains(
                                names_a[k.1 as int],
                            ));
                            assert((k.1 as int) < names_b.len()) by {
                                lemma_names_of_prefix(names_b, names_a, lg[j], k.1 as int);
                            }
                            assert((k.0 as int) < names_b.len());
                            assert(names_a[k.0 as int] == names_b[k.0 as int]);
                            assert(names_a[k.1 as int] == names_b[k.1 as int]);
                            assert(lset_pair(
                                lg.take(t as int)[j],
                                names_b[k.0 as int],
                                names_b[k.1 as int],
                            ));
                            assert(e_b.contains_key(k));
                        } else {
                            assert(lg.take(t as int + 1)[j] == ls);
                            assert(ls_edge(names_a, ls, k));
                        }
                    }
                }
            }
        }
        t += 1;
    }
    proof {
        assert(lg.take(lg.len() as int) =~= lg);
    }
    let ghost names_l = rig_names(rig);
    let ghost e_l = rig_edges(rig);
    let mut si: usize = 0;
    proof {
        assert(body.take(0) =~= Seq::<StmtV>::empty());
    }
    while si < stmts.len()
        invariant
            lg == live_sets(body),
            body == stmts_view(stmts@),
            si <= stmts@.len(),
            rig_wf(rig),
            rig_edges(rig) == e_l,
            rig_names(rig) == intern_defs(names_l, body.take(si as int)),
            names_l.len() <= rig_names(rig).len(),
            forall|i: int| 0 <= i < names_l.len() ==> rig_names(rig)[i] == names_l[i],
            forall|j: int, x: int|
                0 <= j < lg.len() && 0 <= x < lg[j].len() ==> names_l.contains(#[trigger] lg[j][x]),
            forall|i: int, j: int|
                names_l.len() <= i < rig_names(rig).len() && 0 <= j < lg.len() ==> !(#[trigger] lg[j].contains(rig_names(rig)[i])),
        decreases stmts@.len() - si,
    {
        let ghost names_s = rig_names(rig);
        let lists = stmt_liveness(&stmts[si]);
        let defs = lists.0;
        let ghost dseq = stmt_def_seq(body[si as int]);
        let mut k: usize = 0;
        proof {
            assert(dseq.skip(0) =~= dseq);
        }
        while k < defs.len()
            invariant
                lg == live_sets(body),
                strs_view(defs@) == dseq,
                k <= defs@.len(),
                rig_wf(rig),
                rig_edges(rig) == e_l,
                intern_list(names_s, dseq) == intern_list(rig_names(rig), dseq.skip(k as int)),
                names_s.len() <= rig_names(rig).len(),
                forall|i: int| 0 <= i < names_s.len() ==> rig_names(rig)[i] == names_s[i],
                names_l.len() <= names_s.len(),
                forall|i: int| 0 <= i < names_l.len() ==> names_s[i] == names_l[i],
                forall|j: int, x: int|
                    0 <= j < lg.len() && 0 <= x < lg[j].len() ==> names_l.contains(
                        #[trigger] lg[j][x],
                    ),
                forall|i: int, j: int|
                    names_l.len() <= i < rig_names(rig).len() && 0 <= j < lg.len()
                        ==> !(#[trigger] lg[j].contains(rig_names(rig)[i])),
            decreases defs@.len() - k,
        {
            let ghost names_k = rig_names(rig);
            proof {
                assert(dseq.skip(k as int)[0] == dseq[k as int]);
                assert(dseq.skip(k as int).drop_first() =~= dseq.skip(k as int + 1));
            }
            let idd = intern(&mut rig, &defs[k]);
            proof {
                let nm = dseq[k as int];
                assert forall|i: int, j: int|
                    names_l.len() <= i < rig_names(rig).len() && 0 <= j < lg.len()
                    implies !(#[trigger] lg[j].contains(rig_names(rig)[i])) by {
                    if i < names_k.len() {
                        assert(rig_names(rig)[i] == names_k[i]);
                    } else {
                        assert(rig_names(rig) == names_k.push(nm));
                        assert(rig_names(rig)[i] == nm);
                        if lg[j].contains(nm) {
                            let x = choose|x: int| 0 <= x < lg[j].len() && lg[j][x] == nm;
                            assert(names_l.contains(lg[j][x]));
                            let w = choose|w: int|
                                0 <= w < names_l.len() && names_l[w] == nm;
                            assert(names_k[w] == nm);
                            assert(names_k.contains(nm));
                        }
                    }
                }
            }
            k += 1;
        }
        proof {
            assert(dseq.skip(defs@.len() as int) =~= Seq::<Seq<char>>::empty());
            assert(body.take(si as int + 1).drop_last() =~= body.take(si as int));
            assert(body.take(si as int + 1).last() == body[si as int]);
            lemma_intern_defs_snoc(names_l, body, si as int);
        }
        si += 1;
    }
    proof {
        assert(body.take(body.len() as int) =~= body);
        let names_f2 = rig_names(rig);
        assert forall|k: (usize, usize)| #[trigger]
            rig_edges(rig).contains_key(k) <==> (k.0 < k.1 && (k.1 as int) < names_f2.len()
                && interferes(lg, names_f2[k.0 as int], names_f2[k.1 as int])) by {
            if rig_edges(rig).contains_key(k) {
                assert(e_l.contains_key(k));
                assert(k.0 < k.1 && (k.1 as int) < names_l.len());
                assert(names_f2[k.0 as int] == names_l[k.0 as int]);
                assert(names_f2[k.1 as int] == names_l[k.1 as int]);
                assert(interferes(lg.take(lg.len() as int), names_l[k.0 as int], names_l[k.1 as int]));
                let j = choose|j: int|
                    0 <= j < lg.take(lg.len() as int).len() && #[trigger] lset_pair(
                        lg.take(lg.len() as int)[j],
                        names_l[k.0 as int],
                        names_l[k.1 as int],
                    );
                assert(lset_pair(lg[j], names_f2[k.0 as int], names_f2[k.1 as int]));
            } else {
                if k.0 < k.1 && (k.1 as int) < names_f2.len() && interferes(
                    lg,
                    names_f2[k.0 as int],
                    names_f2[k.1 as int],
                ) {
                    let j = choose|j: int|
                        0 <= j < lg.len() && #[trigger] lset_pair(
                            lg[j],
                            names_f2[k.0 as int],
                            names_f2[k.1 as int],
                        );
                    assert((k.1 as int) < names_l.len()) by {
                        if (k.1 as int) >= names_l.len() {
                            assert(!lg[j].contains(names_f2[k.1 as int]));
                        }
                    }
                    assert((k.0 as int) < names_l.len());
                    assert(names_f2[k.0 as int] == names_l[k.0 as int]);
                    assert(names_f2[k.1 as int] == names_l[k.1 as int]);
                    assert(lg.take(lg.len() as int)[j] == lg[j]);
                    assert(lset_pair(
                        lg.take(lg.len() as int)[j],
                        names_l[k.0 as int],
                        names_l[k.1 as int],
                    ));
                    assert(e_l.contains_key(k));
                }
            }
        }
    }
    rig
}

/// Folding one more statement's definitions into the interning.
proof fn lemma_intern_defs_snoc(names: Seq<Seq<char>>, stmts: Seq<StmtV>, t: int)
    requires
        0 <= t < stmts.len(),
    ensures
        intern_defs(names, stmts.take(t + 1)) == intern_list(
            intern_defs(names, stmts.take(t)),
            stmt_def_seq(stmts[t]),
        ),
    decreases t,
{
    if t == 0 {
        assert(stmts.take(0) =~= Seq::<StmtV>::empty());
        assert(stmts.take(1).drop_first() =~= Seq::<StmtV>::empty());
        assert(stmts.take(1)[0] == stmts[0]);
        assert(intern_defs(
            intern_list(names, stmt_def_seq(stmts[0])),
            Seq::<StmtV>::empty(),
        ) == intern_list(names, stmt_def_seq(stmts[0])));
        assert(intern_defs(names, stmts.take(1)) == intern_defs(
            intern_list(names, stmt_def_seq(stmts[0])),
            stmts.take(1).drop_first(),
        ));
    } else {
        let rest = stmts.drop_first();
        lemma_intern_defs_snoc(intern_list(names, stmt_def_seq(stmts[0])), rest, t - 1);
        assert(stmts.take(t + 1).drop_first() =~= rest.take(t));
        assert(stmts.take(t).drop_first() =~= rest.take(t - 1));
        assert(stmts.take(t + 1)[0] == stmts[0]);
        assert(stmts.take(t)[0] == stmts[0]);
        assert(rest[t - 1] == stmts[t]);
        assert(intern_defs(names, stmts.take(t + 1)) == intern_defs(
            intern_list(names, stmt_def_seq(stmts[0])),
            rest.take(t),
        ));
        assert(intern_defs(names, stmts.take(t)) == intern_defs(
            intern_list(names, stmt_def_seq(stmts[0])),
            rest.take(t - 1),
        ));
    }
}

/// Folding one more live set into the interning.
proof fn lemma_intern_lsets_snoc(ll: Seq<Seq<Seq<char>>>, t: int)
    requires
        0 <= t < ll.len(),
    ensures
        intern_lsets(Seq::empty(), ll.take(t + 1)) == intern_list(
            intern_lsets(Seq::empty(), ll.take(t)),
            ll[t],
        ),
{
    lemma_intern_lsets_snoc_gen(Seq::empty(), ll, t);
}

proof fn lemma_intern_lsets_snoc_gen(names: Seq<Seq<char>>, ll: Seq<Seq<Seq<char>>>, t: int)
    requires
        0 <= t < ll.len(),
    ensures
        intern_lsets(names, ll.take(t + 1)) == intern_list(intern_lsets(names, ll.take(t)), ll[t]),
    decreases t,
{
    if t == 0 {
        assert(ll.take(0) =~= Seq::<Seq<Seq<char>>>::empty());
        assert(ll.take(1).drop_first() =~= Seq::<Seq<Seq<char>>>::empty());
        assert(ll.take(1)[0] == ll[0]);
        assert(intern_lsets(intern_list(names, ll[0]), Seq::<Seq<Seq<char>>>::empty())
            == intern_list(names, ll[0]));
        assert(intern_lsets(names, ll.take(1)) == intern_lsets(
            intern_list(names, ll[0]),
            ll.take(1).drop_first(),
        ));
    } else {
        let rest = ll.drop_first();
        lemma_intern_lsets_snoc_gen(intern_list(names, ll[0]), rest, t - 1);
        assert(ll.take(t + 1).drop_first() =~= rest.take(t));
        assert(ll.take(t).drop_first() =~= rest.take(t - 1));
        assert(ll.take(t + 1)[0] == ll[0]);
        assert(ll.take(t)[0] == ll[0]);
        assert(rest[t - 1] == ll[t]);
        assert(intern_lsets(names, ll.take(t + 1)) == intern_lsets(
            intern_list(names, ll[0]),
            rest.take(t),
        ));
        assert(intern_lsets(names, ll.take(t)) == intern_lsets(
            intern_list(names, ll[0]),
            rest.take(t - 1),
        ));
    }
}

/// A name of the extended list that belongs to an already-interned live
/// set already had its place in the shorter list.
proof fn lemma_names_of_prefix(
    names_b: Seq<Seq<char>>,
    names_a: Seq<Seq<char>>,
    ls: Seq<Seq<char>>,
    i: int,
)
    requires
        0 <= i < names_a.len(),
        names_a.len() >= names_b.len(),
        forall|j: int| 0 <= j < names_b.len() ==> names_a[j] == names_b[j],
        distinct_names(names_a),
        ls.contains(names_a[i]),
        forall|x: int| 0 <= x < ls.len() ==> names_b.contains(#[trigger] ls[x]),
    ensures
        i < names_b.len(),
{
    if i >= names_b.len() {
        let x = choose|x: int| 0 <= x < ls.len() && ls[x] == names_a[i];
        let w = choose|w: int| 0 <= w < names_b.len() && names_b[w] == ls[x];
        assert(names_a[w] == names_a[i]);
    }
}


// ------------------------------------------------------------------
// Active degrees and node disconnection
// ------------------------------------------------------------------

/// Whether nodes `a` and `b` share an active edge.
pub open spec fn active(e: Map<(usize, usize), i64>, a: usize, b: usize) -> bool {
    e.contains_key(edge_key(a, b)) && e[edge_key(a, b)] > 0
}

/// How many of the nodes below `i` are active neighbors of `v`.
pub open spec fn deg_upto(e: Map<(usize, usize), i64>, v: usize, i: int) -> int
    decreases i,
{
    if i <= 0 {
        0
    } else {
        deg_upto(e, v, i - 1) + if ((i - 1) as usize) != v && active(e, v, (i - 1) as usize) {
            1int
        } else {
            0int
        }
    }
}

/// The active degree of `v` in a graph of `n` nodes.
pub open spec fn deg(e: Map<(usize, usize), i64>, n: int, v: usize) -> int {
    deg_upto(e, v, n)
}

proof fn lemma_deg_upto_bound(e: Map<(usize, usize), i64>, v: usize, i: int)
    ensures
        0 <= deg_upto(e, v, i) <= i || i < 0,
        i >= 0 ==> 0 <= deg_upto(e, v, i) <= i,
    decreases i,
{
    if i > 0 {
        lemma_deg_upto_bound(e, v, i - 1);
    }
}

/// A positive degree exhibits an active neighbor.
proof fn lemma_deg_witness(e: Map<(usize, usize), i64>, v: usize, i: int)
    requires
        deg_upto(e, v, i) > 0,
    ensures
        exists|u: usize| (u as int) < i && u != v && #[trigger] active(e, v, u),
    decreases i,
{
    if i > 0 {
        if ((i - 1) as usize) != v && active(e, v, (i - 1) as usize) {
            assert((((i - 1) as usize) as int) < i && ((i - 1) as usize) != v && active(
                e,
                v,
                (i - 1) as usize,
            ));
        } else {
            lemma_deg_witness(e, v, i - 1);
        }
    }
}

/// Fewer active edges never raise a degree, and a zero degree stays zero.
proof fn lemma_deg_upto_monotone(
    e1: Map<(usize, usize), i64>,
    e2: Map<(usize, usize), i64>,
    v: usize,
    i: int,
)
    requires
        forall|a: usize, b: usize| #[trigger] active(e2, a, b) ==> active(e1, a, b),
    ensures
        deg_upto(e2, v, i) <= deg_upto(e1, v, i),
    decreases i,
{
    if i > 0 {
        lemma_deg_upto_monotone(e1, e2, v, i - 1);
        lemma_deg_upto_bound(e1, v, i);
        lemma_deg_upto_bound(e2, v, i);
    }
}

/// Counts the active neighbors of `v` among the nodes `0 .. n`.
fn count_active(g: &RigStore, n: usize, v: usize) -> (r: usize)
    ensures
        r as int == deg(gm_edges(*g), n as int, v),
        r <= n,
{
    let mut count: usize = 0;
    let mut u: usize = 0;
    while u < n
        invariant
            u <= n,
            count as int == deg_upto(gm_edges(*g), v, u as int),
            count <= u,
        decreases n - u,
    {
        if u != v {
            match graph_edge_weight(g, v, u) {
                Some(w) => {
                    if w > 0 {
                        count += 1;
                    }
                },
                None => {},
            }
        }
        u += 1;
    }
    count
}

/// The active degree of one node: the count of its incident edges with
/// positive weight.
pub fn active_edges(rig: &Rig, v: usize) -> (r: usize)
    ensures
        r as int == deg(rig_edges(*rig), rig_names(*rig).len() as int, v),
{
    count_active(&rig.graph, rig.names.len(), v)
}

/// The graph with every edge at `v` disabled.
pub open spec fn zero_node(e: Map<(usize, usize), i64>, v: usize) -> Map<(usize, usize), i64> {
    Map::new(
        |k: (usize, usize)| e.dom().contains(k),
        |k: (usize, usize)|
            if k.0 == v || k.1 == v {
                0i64
            } else {
                e[k]
            },
    )
}

/// One pass over the nodes in order: each node whose active degree is
/// exactly `d` at its turn has all its edges disabled and joins the output
/// list.
pub open spec fn sweep(e: Map<(usize, usize), i64>, n: int, d: int, i: int) -> (
    Map<(usize, usize), i64>,
    Seq<usize>,
)
    decreases n - i,
{
    if i < 0 || i >= n {
        (e, Seq::empty())
    } else {
        if deg(e, n, i as usize) == d {
            let r = sweep(zero_node(e, i as usize), n, d, i + 1);
            (r.0, seq![i as usize] + r.1)
        } else {
            sweep(e, n, d, i + 1)
        }
    }
}

/// What one sweep guarantees: the edge set's keys are untouched, activity
/// only shrinks, every listed node had a positive degree before and has
/// none after, an empty list means an untouched graph, and a non-empty
/// list means at least one edge was disabled.
proof fn lemma_sweep(e: Map<(usize, usize), i64>, n: int, d: int, i: int)
    requires
        d >= 1,
        0 <= i,
        n <= usize::MAX,
    ensures
        sweep(e, n, d, i).0.dom() == e.dom(),
        forall|a: usize, b: usize| #[trigger]
            active(sweep(e, n, d, i).0, a, b) ==> active(e, a, b),
        forall|x: int|
            0 <= x < sweep(e, n, d, i).1.len() ==> (#[trigger] sweep(e, n, d, i).1[x] as int) < n
                && i <= sweep(e, n, d, i).1[x] as int,
        forall|x: int|
            0 <= x < sweep(e, n, d, i).1.len() ==> deg(e, n, #[trigger] sweep(e, n, d, i).1[x])
                >= 1,
        forall|x: int|
            0 <= x < sweep(e, n, d, i).1.len() ==> deg(
                sweep(e, n, d, i).0,
                n,
                #[trigger] sweep(e, n, d, i).1[x],
            ) == 0,
        forall|v: usize| deg(e, n, v) == 0 ==> deg(sweep(e, n, d, i).0, n, v) == 0,
        sweep(e, n, d, i).1.len() == 0 ==> sweep(e, n, d, i).0 == e,
        forall|k: (usize, usize)| #[trigger]
            sweep(e, n, d, i).0.contains_key(k) ==> sweep(e, n, d, i).0[k] == 0 || sweep(
                e,
                n,
                d,
                i,
            ).0[k] == e[k],
        forall|x1: int, x2: int|
            0 <= x1 < x2 < sweep(e, n, d, i).1.len() ==> #[trigger] sweep(e, n, d, i).1[x1]
                < #[trigger] sweep(e, n, d, i).1[x2],
    decreases n - i,
{
    if 0 <= i < n {
        let r = sweep(e, n, d, i);
        if deg(e, n, i as usize) == d {
            let e2 = zero_node(e, i as usize);
            let r2 = sweep(e2, n, d, i + 1);
            lemma_sweep(e2, n, d, i + 1);
            assert forall|a: usize, b: usize| #[trigger] active(e2, a, b) implies active(
                e,
                a,
                b,
            ) by {}
            assert forall|v: usize| deg(e, n, v) == 0 implies deg(r.0, n, v) == 0 by {
                lemma_deg_upto_monotone(e, e2, v, n);
                lemma_deg_upto_bound(e2, v, n);
                lemma_deg_upto_bound(e, v, n);
                assert(deg(e2, n, v) == 0);
                assert(deg(r2.0, n, v) == 0);
            }
            assert(deg(e2, n, i as usize) == 0) by {
                lemma_deg_upto_bound(e2, i as usize, n);
                if deg_upto(e2, i as usize, n) > 0 {
                    lemma_deg_witness(e2, i as usize, n);
                    let u = choose|u: usize|
                        (u as int) < n && u != (i as usize) && #[trigger] active(e2, i as usize, u);
                    assert(!active(e2, i as usize, u));
                }
            }
            assert forall|x: int| 0 <= x < r.1.len() implies deg(r.0, n, #[trigger] r.1[x])
                == 0 by {
                if x == 0 {
                    assert(r.1[0] == i as usize);
                    lemma_deg_upto_monotone(e2, r2.0, i as usize, n);
                    lemma_deg_upto_bound(r2.0, i as usize, n);
                } else {
                    assert(r.1[x] == r2.1[x - 1]);
                }
            }
            assert forall|x: int| 0 <= x < r.1.len() implies deg(e, n, #[trigger] r.1[x])
                >= 1 by {
                if x == 0 {
                    assert(r.1[0] == i as usize);
                } else {
                    assert(r.1[x] == r2.1[x - 1]);
                    assert(deg(e2, n, r2.1[x - 1]) >= 1);
                    lemma_deg_upto_monotone(e, e2, r2.1[x - 1], n);
                }
            }
            assert forall|x: int| 0 <= x < r.1.len() implies ((#[trigger] r.1[x] as int) < n && i
                <= r.1[x] as int) by {
                if x == 0 {
                    assert(r.1[0] == i as usize);
                    assert((i as usize) as int == i);
                } else {
                    assert(r.1[x] == r2.1[x - 1]);
                }
            }
            assert forall|x1: int, x2: int|
                0 <= x1 < x2 < r.1.len() implies #[trigger] r.1[x1] < #[trigger] r.1[x2] by {
                if x1 == 0 {
                    assert(r.1[0] == i as usize);
                    assert(r.1[x2] == r2.1[x2 - 1]);
                    assert(i + 1 <= r2.1[x2 - 1] as int);
                } else {
                    assert(r.1[x1] == r2.1[x1 - 1]);
                    assert(r.1[x2] == r2.1[x2 - 1]);
                }
            }
        } else {
            lemma_sweep(e, n, d, i + 1);
        }
    }
}

/// Disables the edges of every node whose active degree is exactly `d`,
/// sweeping the nodes in order, and returns the nodes it disconnected.
pub fn disconnect_k_connected_nodes(rig: &mut Rig, d: i64) -> (r: Vec<usize>)
    requires
        rig_wf(*old(rig)),
        1 <= d,
    ensures
        rig_wf(*final(rig)),
        rig_names(*final(rig)) == rig_names(*old(rig)),
        rig_edges(*final(rig)) == sweep(
            rig_edges(*old(rig)),
            rig_names(*old(rig)).len() as int,
            d as int,
            0,
        ).0,
        r@ == sweep(rig_edges(*old(rig)), rig_names(*old(rig)).len() as int, d as int, 0).1,
{
    let n = rig.names.len();
    let ghost e0 = rig_edges(*old(rig));
    let ghost dd = d as int;
    let dm: Option<usize> = if (d as u64) <= (n as u64) {
        Some(d as usize)
    } else {
        None
    };
    let mut out: Vec<usize> = Vec::new();
    let mut i: usize = 0;
    while i < n
        invariant
            rig_wf(*rig),
            rig_names(*rig) == rig_names(*old(rig)),
            n == rig.names@.len(),
            e0 == rig_edges(*old(rig)),
            dd == d as int,
            1 <= d,
            dm == if (d as int) <= (n as int) {
                Some(d as usize)
            } else {
                None::<usize>
            },
            i <= n,
            sweep(e0, n as int, dd, 0).0 == sweep(rig_edges(*rig), n as int, dd, i as int).0,
            sweep(e0, n as int, dd, 0).1 == out@ + sweep(rig_edges(*rig), n as int, dd, i as int).1,
        decreases n - i,
    {
        let ghost eb = rig_edges(*rig);
        let degv = count_active(&rig.graph, n, i);
        let matched = match dm {
            Some(dv) => degv == dv,
            None => false,
        };
        proof {
            if dm is None {
                lemma_deg_upto_bound(eb, i, n as int);
                assert(deg(eb, n as int, i) != dd);
            }
        }
        if matched {
            // Disable every edge at node `i`.
            let mut u: usize = 0;
            while u < n
                invariant
                    rig_wf(*rig),
                    rig_names(*rig) == rig_names(*old(rig)),
                    n == rig.names@.len(),
                    i < n,
                    u <= n,
                    rig_edges(*rig).dom() == eb.dom(),
                    forall|k: (usize, usize)| #[trigger]
                        rig_edges(*rig).contains_key(k) ==> rig_edges(*rig)[k] == (
                        if (k.0 == i && (k.1 as int) < u as int) || (k.1 == i && (k.0 as int)
                            < u as int) {
                            0i64
                        } else {
                            eb[k]
                        }),
                decreases n - u,
            {
                if u != i {
                    let ghost ec = rig_edges(*rig);
                    let existed = graph_set_edge_weight(&mut rig.graph, i, u, 0);
                    proof {
                        assert forall|k: (usize, usize)| #[trigger]
                            rig_edges(*rig).contains_key(k) implies rig_edges(*rig)[k] == (
                            if (k.0 == i && (k.1 as int) < u as int + 1) || (k.1 == i && (
                            k.0 as int) < u as int + 1) {
                                0i64
                            } else {
                                eb[k]
                            }) by {
                            if k == edge_key(i, u) {
                            } else {
                                assert(rig_edges(*rig)[k] == ec[k]);
                            }
                        }
                    }
                }
                u += 1;
            }
            proof {
                assert(rig_edges(*rig) =~= zero_node(eb, i)) by {
                    assert forall|k: (usize, usize)| #[trigger]
                        rig_edges(*rig).dom().contains(k) implies rig_edges(*rig)[k] == zero_node(
                        eb,
                        i,
                    )[k] by {
                        assert(k.0 < k.1 && (k.1 as int) < n as int);
                    }
                }
            }
            out.push(i);
            proof {
                assert(sweep(eb, n as int, dd, i as int).0 == sweep(
                    rig_edges(*rig),
                    n as int,
                    dd,
                    i as int + 1,
                ).0);
                assert(sweep(eb, n as int, dd, i as int).1 == seq![i] + sweep(
                    rig_edges(*rig),
                    n as int,
                    dd,
                    i as int + 1,
                ).1);
                assert((out@.drop_last() + (seq![i] + sweep(
                    rig_edges(*rig),
                    n as int,
                    dd,
                    i as int + 1,
                ).1)) =~= out@ + sweep(rig_edges(*rig), n as int, dd, i as int + 1).1);
            }
        } else {
            proof {
                assert(sweep(eb, n as int, dd, i as int) == sweep(eb, n as int, dd, i as int + 1));
            }
        }
        i += 1;
    }
    proof {
        assert(sweep(rig_edges(*rig), n as int, dd, n as int).0 == rig_edges(*rig));
        assert(sweep(rig_edges(*rig), n as int, dd, n as int).1 =~= Seq::<usize>::empty());
        assert(out@ + Seq::<usize>::empty() =~= out@);
    }
    out
}

/// The graph with every edge enabled.
pub open spec fn all_one(e: Map<(usize, usize), i64>) -> Map<(usize, usize), i64> {
    Map::new(|k: (usize, usize)| e.dom().contains(k), |k: (usize, usize)| 1i64)
}

/// Re-enables every edge of the graph.
pub fn reconnect_edges(rig: &mut Rig)
    requires
        rig_wf(*old(rig)),
    ensures
        rig_wf(*final(rig)),
        rig_names(*final(rig)) == rig_names(*old(rig)),
        rig_edges(*final(rig)) == all_one(rig_edges(*old(rig))),
{
    let n = rig.names.len();
    let ghost e0 = rig_edges(*old(rig));
    let mut a: usize = 0;
    while a < n
        invariant
            rig_wf(*rig),
            rig_names(*rig) == rig_names(*old(rig)),
            n == rig.names@.len(),
            e0 == rig_edges(*old(rig)),
            a <= n,
            rig_edges(*rig).dom() == e0.dom(),
            forall|k: (usize, usize)| #[trigger]
                rig_edges(*rig).contains_key(k) ==> rig_edges(*rig)[k] == (
                if (k.0 as int) < a as int {
                    1i64
                } else {
                    e0[k]
                }),
        decreases n - a,
    {
        let mut b: usize = a + 1;
        while b < n
            invariant
                rig_wf(*rig),
                rig_names(*rig) == rig_names(*old(rig)),
                n == rig.names@.len(),
                e0 == rig_edges(*old(rig)),
                a < n,
                a < b <= n || b == a + 1,
                rig_edges(*rig).dom() == e0.dom(),
                forall|k: (usize, usize)| #[trigger]
                    rig_edges(*rig).contains_key(k) ==> rig_edges(*rig)[k] == (
                    if (k.0 as int) < a as int || (k.0 == a && (k.1 as int) < b as int) {
                        1i64
                    } else {
                        e0[k]
                    }),
            decreases n - b,
        {
            let ghost ec = rig_edges(*rig);
            let _ = graph_set_edge_weight(&mut rig.graph, a, b, 1);
            proof {
                assert forall|k: (usize, usize)| #[trigger]
                    rig_edges(*rig).contains_key(k) implies rig_edges(*rig)[k] == (
                    if (k.0 as int) < a as int || (k.0 == a && (k.1 as int) < b as int + 1) {
                        1i64
                    } else {
                        e0[k]
                    }) by {
                    if k == edge_key(a, b) {
                    } else {
                        assert(rig_edges(*rig)[k] == ec[k]);
                    }
                }
            }
            b += 1;
        }
        a += 1;
    }
    proof {
        assert(rig_edges(*rig) =~= all_one(e0)) by {
            assert forall|k: (usize, usize)| #[trigger]
                rig_edges(*rig).dom().contains(k) implies rig_edges(*rig)[k] == 1i64 by {
                assert(k.0 < k.1 && (k.1 as int) < n as int);
            }
        }
    }
}


// ------------------------------------------------------------------
// Building a coloring stack
// ------------------------------------------------------------------

/// The set of currently active edges.
pub open spec fn active_set(e: Map<(usize, usize), i64>) -> Set<(usize, usize)> {
    e.dom().filter(|k: (usize, usize)| e[k] > 0)
}

/// How many edges are currently active.
pub open spec fn total_active(e: Map<(usize, usize), i64>) -> nat {
    active_set(e).len()
}

/// An active incident edge witnesses a positive degree.
proof fn lemma_deg_positive(e: Map<(usize, usize), i64>, v: usize, u: usize, i: int)
    requires
        u != v,
        (u as int) < i,
        active(e, v, u),
    ensures
        deg_upto(e, v, i) >= 1,
    decreases i,
{
    if (u as int) == i - 1 {
        lemma_deg_upto_bound(e, v, i - 1);
    } else {
        lemma_deg_positive(e, v, u, i - 1);
        lemma_deg_upto_bound(e, v, i);
        lemma_deg_upto_bound(e, v, i - 1);
    }
}

/// A sweep never enables an edge, and a non-empty sweep disables at least
/// one.
proof fn lemma_sweep_total(e: Map<(usize, usize), i64>, n: int, d: int, i: int)
    requires
        d >= 1,
        0 <= i,
        n <= usize::MAX,
        e.dom().finite(),
    ensures
        sweep(e, n, d, i).0.dom().finite(),
        total_active(sweep(e, n, d, i).0) <= total_active(e),
        sweep(e, n, d, i).1.len() > 0 ==> total_active(sweep(e, n, d, i).0) < total_active(e),
{
    let r = sweep(e, n, d, i);
    lemma_sweep(e, n, d, i);
    e.dom().lemma_len_filter(|k: (usize, usize)| e[k] > 0);
    r.0.dom().lemma_len_filter(|k: (usize, usize)| r.0[k] > 0);
    assert(active_set(r.0).subset_of(active_set(e))) by {
        assert forall|k: (usize, usize)| #[trigger] active_set(r.0).contains(k) implies active_set(
            e,
        ).contains(k) by {
            assert(r.0[k] == 0 || r.0[k] == e[k]);
        }
    }
    vstd::set_lib::lemma_len_subset(active_set(r.0), active_set(e));
    if r.1.len() > 0 {
        let v = r.1[0];
        assert(deg(e, n, v) >= 1);
        lemma_deg_witness(e, v, n);
        let u = choose|u: usize| (u as int) < n && u != v && #[trigger] active(e, v, u);
        let kk = edge_key(v, u);
        assert(active_set(e).contains(kk));
        assert(!active_set(r.0).contains(kk)) by {
            if active_set(r.0).contains(kk) {
                assert(active(r.0, v, u));
                lemma_deg_positive(r.0, v, u, n);
                assert(deg(r.0, n, v) == 0);
            }
        }
        assert(active_set(r.0).subset_of(active_set(e).remove(kk)));
        vstd::set_lib::lemma_len_subset(active_set(r.0), active_set(e).remove(kk));
        assert(active_set(e).remove(kk).len() == active_set(e).len() - 1);
    }
}

/// The simplification loop: sweep at degree `d`, retrying at the same `d`
/// while nodes still fall, and lowering `d` when none do; the second
/// component lists the fallen nodes in order.
pub open spec fn simplify(e: Map<(usize, usize), i64>, n: int, d: int) -> (
    Map<(usize, usize), i64>,
    Seq<usize>,
)
    decreases total_active(e), d,
        when n <= usize::MAX && e.dom().finite()
        via simplify_decreases
{
    if d <= 0 {
        (e, Seq::empty())
    } else {
        let s = sweep(e, n, d, 0);
        if s.1.len() == 0 {
            simplify(e, n, d - 1)
        } else {
            let r = simplify(s.0, n, d);
            (r.0, s.1 + r.1)
        }
    }
}

#[via_fn]
proof fn simplify_decreases(e: Map<(usize, usize), i64>, n: int, d: int) {
    if d > 0 {
        lemma_sweep_total(e, n, d, 0);
    }
}

/// The node indices below `n` that a list does not hold, in order.
pub open spec fn rest_ids(s: Seq<usize>, n: int, i: int) -> Seq<usize>
    decreases n - i,
{
    if i < 0 || i >= n {
        Seq::empty()
    } else if s.contains(i as usize) {
        rest_ids(s, n, i + 1)
    } else {
        seq![i as usize] + rest_ids(s, n, i + 1)
    }
}

/// One attempt at `k` colors: enable every edge, simplify down from degree
/// `k - 1`, and succeed exactly when no active edge survives; the stack is
/// the fallen nodes followed by the untouched (isolated) ones.
pub open spec fn attempt(e: Map<(usize, usize), i64>, n: int, k: int) -> Option<Seq<usize>> {
    let r = simplify(all_one(e), n, k - 1);
    if forall|v: usize| (v as int) < n ==> deg(r.0, n, v) == 0 {
        Some(r.1 + rest_ids(r.1, n, 0))
    } else {
        None
    }
}


proof fn lemma_rest_ids_mem(s: Seq<usize>, n: int, i: int)
    requires
        0 <= i,
        n <= usize::MAX,
    ensures
        forall|u: usize|
            rest_ids(s, n, i).contains(u) <==> (i <= u as int && (u as int) < n && !s.contains(u)),
        forall|x1: int, x2: int|
            0 <= x1 < x2 < rest_ids(s, n, i).len() ==> #[trigger] rest_ids(s, n, i)[x1]
                < #[trigger] rest_ids(s, n, i)[x2],
        forall|x: int|
            0 <= x < rest_ids(s, n, i).len() ==> i <= (#[trigger] rest_ids(s, n, i)[x] as int)
                < n,
    decreases n - i,
{
    if 0 <= i < n {
        lemma_rest_ids_mem(s, n, i + 1);
        let r = rest_ids(s, n, i);
        if !s.contains(i as usize) {
            let rr = rest_ids(s, n, i + 1);
            assert forall|u: usize|
                r.contains(u) <==> (i <= u as int && (u as int) < n && !s.contains(u)) by {
                lemma_contains_first(r);
                assert(r[0] == i as usize);
                assert(r.drop_first() =~= rr);
            }
        }
        assert forall|x: int| 0 <= x < r.len() implies i <= (#[trigger] r[x] as int) < n by {
            if !s.contains(i as usize) && x > 0 {
                assert(r[x] == rest_ids(s, n, i + 1)[x - 1]);
            }
        }
        assert forall|x1: int, x2: int|
            0 <= x1 < x2 < r.len() implies #[trigger] r[x1] < #[trigger] r[x2] by {
            if !s.contains(i as usize) {
                assert(r[0] == i as usize);
                if x1 > 0 {
                    assert(r[x1] == rest_ids(s, n, i + 1)[x1 - 1]);
                }
                assert(r[x2] == rest_ids(s, n, i + 1)[x2 - 1]);
            }
        }
    }
}

proof fn lemma_rest_ids_snoc(s: Seq<usize>, hi: int, i: int)
    requires
        0 <= i <= hi,
    ensures
        rest_ids(s, hi + 1, i) == rest_ids(s, hi, i) + (if s.contains(hi as usize) {
            Seq::<usize>::empty()
        } else {
            seq![hi as usize]
        }),
    decreases hi - i,
{
    if i == hi {
        assert(rest_ids(s, hi, i) =~= Seq::<usize>::empty());
        assert(rest_ids(s, hi + 1, hi + 1) =~= Seq::<usize>::empty());
        if s.contains(hi as usize) {
            assert(rest_ids(s, hi + 1, i) =~= rest_ids(s, hi, i) + Seq::<usize>::empty());
        } else {
            assert(rest_ids(s, hi + 1, i) =~= seq![hi as usize] + rest_ids(s, hi + 1, hi + 1));
            assert(rest_ids(s, hi + 1, i) =~= rest_ids(s, hi, i) + seq![hi as usize]);
        }
    } else {
        lemma_rest_ids_snoc(s, hi, i + 1);
        if s.contains(i as usize) {
        } else {
            if s.contains(hi as usize) {
                assert(rest_ids(s, hi + 1, i) =~= rest_ids(s, hi, i) + Seq::<usize>::empty());
            } else {
                assert((seq![i as usize] + (rest_ids(s, hi, i + 1) + seq![hi as usize])) =~= (
                seq![i as usize] + rest_ids(s, hi, i + 1)) + seq![hi as usize]);
            }
        }
    }
}

/// Builds a coloring stack for `k` colors: every edge is enabled, nodes of
/// active degree below `k` are peeled off in passes, and the attempt
/// succeeds exactly when no active edge survives; isolated nodes are
/// stacked last. The graph is handed back fully reconnected either way.
pub fn generate_coloring_stack(rig: &mut Rig, k: i64) -> (r: Option<Vec<usize>>)
    requires
        rig_wf(*old(rig)),
        1 <= k,
    ensures
        rig_wf(*final(rig)),
        rig_names(*final(rig)) == rig_names(*old(rig)),
        rig_edges(*final(rig)) == all_one(rig_edges(*old(rig))),
        ({
            let att = attempt(
                rig_edges(*old(rig)),
                rig_names(*old(rig)).len() as int,
                k as int,
            );
            &&& (att matches Some(st) ==> (r matches Some(v) && v@ == st))
            &&& (att is None ==> r is None)
        }),
        r matches Some(v) ==> ((forall|x: int|
            0 <= x < v@.len() ==> ((#[trigger] v@[x]) as int) < rig_names(*old(rig)).len())
            && (forall|id: usize|
            (id as int) < rig_names(*old(rig)).len() ==> v@.contains(id)) && (forall|
            x1: int,
            x2: int,
        |
            0 <= x1 < x2 < v@.len() ==> v@[x1] != v@[x2])),
{
    let n = rig.names.len();
    let ghost e0 = rig_edges(*old(rig));
    reconnect_edges(rig);
    let ghost e1 = rig_edges(*rig);
    let mut k_minus: i64 = k - 1;
    let mut stack: Vec<usize> = Vec::new();
    let mut ignore: Vec<bool> = Vec::new();
    while ignore.len() < n
        invariant
            ignore@.len() <= n,
            forall|j: int| 0 <= j < ignore@.len() ==> !ignore@[j],
        decreases n - ignore@.len(),
    {
        ignore.push(false);
    }
    while k_minus > 0
        invariant
            rig_wf(*rig),
            rig_names(*rig) == rig_names(*old(rig)),
            n == rig.names@.len(),
            e0 == rig_edges(*old(rig)),
            e1 == all_one(e0),
            rig_edges(*rig).dom() == e1.dom(),
            0 <= k_minus <= k - 1,
            simplify(e1, n as int, (k - 1) as int).0 == simplify(
                rig_edges(*rig),
                n as int,
                k_minus as int,
            ).0,
            simplify(e1, n as int, (k - 1) as int).1 == stack@ + simplify(
                rig_edges(*rig),
                n as int,
                k_minus as int,
            ).1,
            ignore@.len() == n,
            forall|id: usize|
                (id as int) < n ==> (ignore@[id as int] == stack@.contains(id)),
            forall|x: int| 0 <= x < stack@.len() ==> ((#[trigger] stack@[x]) as int) < n,
            forall|x1: int, x2: int| 0 <= x1 < x2 < stack@.len() ==> stack@[x1] != stack@[x2],
            forall|x: int|
                0 <= x < stack@.len() ==> deg(rig_edges(*rig), n as int, #[trigger] stack@[x])
                    == 0,
        decreases total_active(rig_edges(*rig)), k_minus,
    {
        let ghost eb = rig_edges(*rig);
        let sub = disconnect_k_connected_nodes(rig, k_minus);
        proof {
            lemma_sweep(eb, n as int, k_minus as int, 0);
            lemma_sweep_total(eb, n as int, k_minus as int, 0);
        }
        if sub.len() > 0 {
            let ghost stack_o = stack@;
            let ghost ea = rig_edges(*rig);
            let mut si: usize = 0;
            while si < sub.len()
                invariant
                    n == rig.names@.len(),
                    sub@ == sweep(eb, n as int, k_minus as int, 0).1,
                    ea == sweep(eb, n as int, k_minus as int, 0).0,
                    forall|x: int|
                        0 <= x < sub@.len() ==> ((#[trigger] sub@[x]) as int) < n as int,
                    forall|x: int|
                        0 <= x < sub@.len() ==> deg(eb, n as int, #[trigger] sub@[x]) >= 1,
                    forall|x: int|
                        0 <= x < sub@.len() ==> deg(ea, n as int, #[trigger] sub@[x]) == 0,
                    forall|x1: int, x2: int|
                        0 <= x1 < x2 < sub@.len() ==> #[trigger] sub@[x1] < #[trigger] sub@[x2],
                    forall|v2: usize| deg(eb, n as int, v2) == 0 ==> deg(ea, n as int, v2) == 0,
                    forall|x: int|
                        0 <= x < stack_o.len() ==> deg(eb, n as int, #[trigger] stack_o[x]) == 0,
                    si <= sub@.len(),
                    stack@ == stack_o + sub@.take(si as int),
                    ignore@.len() == n,
                    forall|id: usize|
                        (id as int) < n ==> (ignore@[id as int] == stack@.contains(id)),
                    forall|x: int|
                        0 <= x < stack@.len() ==> ((#[trigger] stack@[x]) as int) < n,
                    forall|x1: int, x2: int|
                        0 <= x1 < x2 < stack@.len() ==> stack@[x1] != stack@[x2],
                decreases sub@.len() - si,
            {
                let id = sub[si];
                proof {
                    assert(deg(eb, n as int, id) >= 1);
                    assert(!stack_o.contains(id)) by {
                        if stack_o.contains(id) {
                            let w = choose|w: int|
                                0 <= w < stack_o.len() && stack_o[w] == id;
                            assert(deg(eb, n as int, stack_o[w]) == 0);
                        }
                    }
                    assert(!sub@.take(si as int).contains(id)) by {
                        if sub@.take(si as int).contains(id) {
                            let w = choose|w: int|
                                0 <= w < si as int && sub@.take(si as int)[w] == id;
                            assert(sub@[w] < sub@[si as int]);
                        }
                    }
                    assert(!stack@.contains(id)) by {
                        if stack@.contains(id) {
                            let w = choose|w: int| 0 <= w < stack@.len() && stack@[w] == id;
                            if w < stack_o.len() {
                                assert(stack_o[w] == id);
                                assert(stack_o.contains(id));
                            } else {
                                assert(sub@.take(si as int)[w - stack_o.len()] == id);
                                assert(sub@.take(si as int).contains(id));
                            }
                        }
                    }
                }
                if !ignore[id] {
                    let ghost st_b = stack@;
                    stack.push(id);
                    ignore.set(id, true);
                    proof {
                        assert(stack@ =~= stack_o + sub@.take(si as int + 1));
                        assert forall|id2: usize|
                            (id2 as int) < n implies (ignore@[id2 as int] == stack@.contains(
                            id2,
                        )) by {
                            lemma_contains_push(st_b, id);
                        }
                        assert forall|x1: int, x2: int|
                            0 <= x1 < x2 < stack@.len() implies stack@[x1] != stack@[x2] by {
                            if x2 == stack@.len() - 1 {
                                assert(stack@[x1] == st_b[x1]);
                                if st_b[x1] == id {
                                    assert(st_b.contains(st_b[x1]));
                                }
                            } else {
                                assert(stack@[x1] == st_b[x1] && stack@[x2] == st_b[x2]);
                            }
                        }
                    }
                } else {
                    // A freshly disconnected node still had an active edge, so
                    // it cannot have been stacked before: this branch is dead.
                    proof {
                        assert(false);
                    }
                }
                si += 1;
            }
            proof {
                assert(sub@.take(sub@.len() as int) =~= sub@);
                let s1 = simplify(rig_edges(*rig), n as int, k_minus as int);
                assert(simplify(eb, n as int, k_minus as int).0 == s1.0);
                assert(simplify(eb, n as int, k_minus as int).1 == sub@ + s1.1);
                assert((stack_o + (sub@ + s1.1)) =~= ((stack_o + sub@) + s1.1));
            }
        } else {
            proof {
                assert(rig_edges(*rig) == eb);
                assert(simplify(eb, n as int, k_minus as int) == simplify(
                    eb,
                    n as int,
                    (k_minus - 1) as int,
                ));
            }
            k_minus -= 1;
        }
    }
    let ghost e_s = rig_edges(*rig);
    let ghost stack_b = stack@;
    proof {
        assert(simplify(e_s, n as int, 0) == (e_s, Seq::<usize>::empty()));
        assert(stack_b + Seq::<usize>::empty() =~= stack_b);
        assert(simplify(e1, n as int, (k - 1) as int).0 == e_s);
        assert(simplify(e1, n as int, (k - 1) as int).1 == stack_b);
    }
    // First decide whether any node still has an active edge.
    let mut failure = false;
    let mut v: usize = 0;
    while v < n
        invariant
            rig_wf(*rig),
            n == rig.names@.len(),
            e_s == rig_edges(*rig),
            v <= n,
            !failure ==> forall|v2: usize|
                (v2 as int) < v as int ==> deg(e_s, n as int, v2) == 0,
            failure ==> exists|v2: usize|
                (v2 as int) < n as int && deg(e_s, n as int, v2) != 0,
        decreases n - v,
    {
        let dv = count_active(&rig.graph, n, v);
        if dv != 0 {
            proof {
                assert((v as int) < n as int && deg(e_s, n as int, v) != 0);
            }
            failure = true;
        }
        v += 1;
    }
    if failure {
        reconnect_edges(rig);
        proof {
            assert(rig_edges(*rig) =~= all_one(e0));
            assert(attempt(e0, n as int, k as int) is None);
        }
        return None;
    }
    // Stack the isolated nodes that have not fallen yet, in index order.
    let mut v2: usize = 0;
    proof {
        assert(rest_ids(stack_b, 0, 0) =~= Seq::<usize>::empty());
        assert(stack_b + Seq::<usize>::empty() =~= stack_b);
    }
    while v2 < n
        invariant
            rig_wf(*rig),
            n == rig.names@.len(),
            e_s == rig_edges(*rig),
            v2 <= n,
            n <= usize::MAX,
            ignore@.len() == n,
            stack@ == stack_b + rest_ids(stack_b, v2 as int, 0),
            forall|id: usize|
                (id as int) < n ==> (ignore@[id as int] == stack@.contains(id)),
            forall|x: int| 0 <= x < stack@.len() ==> ((#[trigger] stack@[x]) as int) < n,
            forall|x1: int, x2: int| 0 <= x1 < x2 < stack@.len() ==> stack@[x1] != stack@[x2],
        decreases n - v2,
    {
        proof {
            lemma_rest_ids_mem(stack_b, v2 as int, 0);
            lemma_rest_ids_snoc(stack_b, v2 as int, 0);
            assert(!rest_ids(stack_b, v2 as int, 0).contains(v2));
            assert(stack@.contains(v2) == stack_b.contains(v2)) by {
                if stack@.contains(v2) {
                    let w = choose|w: int| 0 <= w < stack@.len() && stack@[w] == v2;
                    if w >= stack_b.len() {
                        assert(rest_ids(stack_b, v2 as int, 0)[w - stack_b.len()] == v2);
                        assert(rest_ids(stack_b, v2 as int, 0).contains(v2));
                    }
                }
                if stack_b.contains(v2) {
                    let w = choose|w: int| 0 <= w < stack_b.len() && stack_b[w] == v2;
                    assert(stack@[w] == v2);
                }
            }
        }
        if !ignore[v2] {
            let ghost st_b = stack@;
            stack.push(v2);
            ignore.set(v2, true);
            proof {
                assert(stack@ =~= stack_b + rest_ids(stack_b, v2 as int + 1, 0));
                assert forall|id2: usize|
                    (id2 as int) < n implies (ignore@[id2 as int] == stack@.contains(id2)) by {
                    lemma_contains_push(st_b, v2);
                }
                assert forall|x1: int, x2: int|
                    0 <= x1 < x2 < stack@.len() implies stack@[x1] != stack@[x2] by {
                    if x2 == stack@.len() - 1 {
                        assert(stack@[x1] == st_b[x1]);
                        if st_b[x1] == v2 {
                            assert(st_b.contains(st_b[x1]));
                        }
                    } else {
                        assert(stack@[x1] == st_b[x1] && stack@[x2] == st_b[x2]);
                    }
                }
            }
        } else {
            proof {
                assert(stack@ =~= stack_b + rest_ids(stack_b, v2 as int + 1, 0));
            }
        }
        v2 += 1;
    }
    proof {
        assert(attempt(e0, n as int, k as int) == Some(stack_b + rest_ids(stack_b, n as int, 0)));
        lemma_rest_ids_mem(stack_b, n as int, 0);
        assert forall|id: usize| (id as int) < n implies stack@.contains(id) by {
            if !stack_b.contains(id) {
                assert(rest_ids(stack_b, n as int, 0).contains(id));
                let w = choose|w: int|
                    0 <= w < rest_ids(stack_b, n as int, 0).len() && rest_ids(
                        stack_b,
                        n as int,
                        0,
                    )[w] == id;
                assert(stack@[stack_b.len() + w] == id);
            } else {
                let w = choose|w: int| 0 <= w < stack_b.len() && stack_b[w] == id;
                assert(stack@[w] == id);
            }
        }
    }
    reconnect_edges(rig);
    proof {
        assert(rig_edges(*rig) =~= all_one(e0));
    }
    Some(stack)
}

/// Searches for the smallest number of colors, from two up to (but not
/// including) `bound`, at which a coloring stack can be built. Returns the
/// stack and that number, or nothing when every attempt in the range
/// fails.
pub fn find_minimum_k(rig: &mut Rig, bound: i64) -> (r: Option<(Vec<usize>, i64)>)
    requires
        rig_wf(*old(rig)),
    ensures
        rig_wf(*final(rig)),
        rig_names(*final(rig)) == rig_names(*old(rig)),
        ({
            let e0 = rig_edges(*old(rig));
            let n = rig_names(*old(rig)).len() as int;
            &&& (r matches Some(p) ==> (2 <= p.1 < bound && attempt(e0, n, p.1 as int)
                == Some(p.0@) && (forall|k2: int|
                2 <= k2 < p.1 as int ==> attempt(e0, n, k2) is None)))
            &&& (r is None ==> (forall|k2: int| 2 <= k2 < bound as int ==> attempt(e0, n, k2) is None))
            &&& (r matches Some(p) ==> ((forall|x: int|
                0 <= x < p.0@.len() ==> ((#[trigger] p.0@[x]) as int) < n) && (forall|id: usize|
                (id as int) < n ==> p.0@.contains(id)) && (forall|x1: int, x2: int|
                0 <= x1 < x2 < p.0@.len() ==> p.0@[x1] != p.0@[x2])))
        }),
        bound <= 2 ==> rig_edges(*final(rig)) == rig_edges(*old(rig)),
        bound > 2 ==> rig_edges(*final(rig)) == all_one(rig_edges(*old(rig))),
{
    let ghost e0 = rig_edges(*old(rig));
    let ghost nn = rig_names(*old(rig)).len() as int;
    let mut k: i64 = 2;
    while k < bound
        invariant
            rig_wf(*rig),
            rig_names(*rig) == rig_names(*old(rig)),
            e0 == rig_edges(*old(rig)),
            nn == rig_names(*old(rig)).len() as int,
            2 <= k,
            bound > 2 ==> k <= bound,
            bound <= 2 ==> k == 2,
            k == 2 ==> rig_edges(*rig) == e0,
            k > 2 ==> rig_edges(*rig) == all_one(e0),
            forall|k2: int| 2 <= k2 < k as int ==> attempt(e0, nn, k2) is None,
        decreases bound - k,
    {
        let ghost eb = rig_edges(*rig);
        let attempt_r = generate_coloring_stack(rig, k);
        proof {
            assert(all_one(eb) =~= all_one(e0));
            assert(all_one(all_one(e0)) =~= all_one(e0));
            assert(attempt(eb, nn, k as int) == attempt(e0, nn, k as int)) by {
                assert(all_one(eb) =~= all_one(e0));
            }
        }
        match attempt_r {
            Some(stack) => {
                return Some((stack, k));
            },
            None => {
                k += 1;
            },
        }
    }
    None
}


// ------------------------------------------------------------------
// Colors and color assignment
// ------------------------------------------------------------------

/// A display color for one register.
#[derive(PartialEq, Eq, Structural, Hash, Clone, Copy, Debug)]
pub struct Color {
    pub red: u8,
    pub green: u8,
    pub blue: u8,
}

pub assume_specification<T>[ rand::random::<T> ]() -> (r: T)
    where
        rand::distributions::Standard: rand::distributions::Distribution<T>,
;

impl Color {
    /// A color with components drawn from the environment's randomness.
    pub fn new() -> Self {
        Color {
            red: rand::random::<u8>() % 0xFF,
            green: rand::random::<u8>() % 0xFF,
            blue: rand::random::<u8>() % 0xFF,
        }
    }
}

/// A palette of `k` pairwise distinct color tokens; the first component
/// makes them distinct, the rest is random display data.
pub fn make_palette(k: usize) -> (r: Vec<Color>)
    requires
        k <= 256,
    ensures
        r@.len() == k,
        forall|i: int, j: int| 0 <= i < j < r@.len() ==> r@[i] != r@[j],
{
    let mut palette: Vec<Color> = Vec::new();
    let mut i: usize = 0;
    while i < k
        invariant
            i <= k,
            k <= 256,
            palette@.len() == i,
            forall|j: int| 0 <= j < i ==> (#[trigger] palette@[j]).red == j as u8,
        decreases k - i,
    {
        let c = Color::new();
        palette.push(Color { red: i as u8, green: c.green, blue: c.blue });
        i += 1;
    }
    proof {
        assert forall|i2: int, j2: int|
            0 <= i2 < j2 < palette@.len() implies palette@[i2] != palette@[j2] by {
            assert(palette@[i2].red == i2 as u8 && palette@[j2].red == j2 as u8);
        }
    }
    palette
}

/// The colors already taken by the assigned neighbors of `v`.
pub open spec fn taken_colors(
    e: Map<(usize, usize), i64>,
    acc: Seq<(usize, Color)>,
    v: usize,
) -> Set<Color> {
    Set::new(
        |c: Color|
            exists|idx: int|
                0 <= idx < acc.len() && (#[trigger] acc[idx]).1 == c && active(e, v, acc[idx].0),
    )
}

/// The first palette color that is not taken, scanning from `j`.
pub open spec fn first_free(pal: Seq<Color>, taken: Set<Color>, j: int) -> Option<Color>
    decreases pal.len() - j,
{
    if j < 0 || j >= pal.len() {
        None
    } else if !taken.contains(pal[j]) {
        Some(pal[j])
    } else {
        first_free(pal, taken, j + 1)
    }
}

proof fn lemma_first_free(pal: Seq<Color>, taken: Set<Color>, j: int)
    ensures
        first_free(pal, taken, j) matches Some(c) ==> !taken.contains(c),
    decreases pal.len() - j,
{
    if 0 <= j < pal.len() {
        if taken.contains(pal[j]) {
            lemma_first_free(pal, taken, j + 1);
        }
    }
}

/// Walks the stack in order, giving each node the first palette color that
/// no already-colored neighbor holds; fails when the palette is exhausted.
pub open spec fn assign_from(
    e: Map<(usize, usize), i64>,
    stack: Seq<usize>,
    pal: Seq<Color>,
    acc: Seq<(usize, Color)>,
    i: int,
) -> Option<Seq<(usize, Color)>>
    decreases stack.len() - i,
{
    if i < 0 || i >= stack.len() {
        Some(acc)
    } else {
        match first_free(pal, taken_colors(e, acc, stack[i]), 0) {
            None => None,
            Some(c) => assign_from(e, stack, pal, acc.push((stack[i], c)), i + 1),
        }
    }
}

/// The color map for a whole stack.
pub open spec fn assign(
    e: Map<(usize, usize), i64>,
    stack: Seq<usize>,
    pal: Seq<Color>,
) -> Option<Seq<(usize, Color)>> {
    assign_from(e, stack, pal, Seq::empty(), 0)
}

/// Assigns a color to every stacked node: each gets the first palette
/// color not already held by an assigned neighbor. Returns the assignment
/// in stack order, or nothing when some node finds every color taken.
pub fn color_mappings(rig: &Rig, stack: &Vec<usize>, palette: &Vec<Color>) -> (r: Option<
    Vec<(usize, Color)>,
>)
    ensures
        ({
            let a = assign(rig_edges(*rig), stack@, palette@);
            &&& (a matches Some(m) ==> (r matches Some(v) && v@ == m))
            &&& (a is None ==> r is None)
        }),
{
    let ghost e = rig_edges(*rig);
    let mut out: Vec<(usize, Color)> = Vec::new();
    let mut i: usize = 0;
    while i < stack.len()
        invariant
            e == rig_edges(*rig),
            i <= stack@.len(),
            assign(e, stack@, palette@) == assign_from(e, stack@, palette@, out@, i as int),
        decreases stack@.len() - i,
    {
        let v = stack[i];
        let ghost tk = taken_colors(e, out@, v);
        // Gather the colors of already-assigned active neighbors.
        let mut taken: Vec<Color> = Vec::new();
        let mut j: usize = 0;
        while j < out.len()
            invariant
                e == rig_edges(*rig),
                j <= out@.len(),
                tk == taken_colors(e, out@, v),
                forall|c: Color|
                    taken@.contains(c) <==> exists|idx: int|
                        0 <= idx < j as int && (#[trigger] out@[idx]).1 == c && active(
                            e,
                            v,
                            out@[idx].0,
                        ),
            decreases out@.len() - j,
        {
            let entry = out[j];
            let mut is_active = false;
            match graph_edge_weight(&rig.graph, v, entry.0) {
                Some(w) => {
                    if w > 0 {
                        is_active = true;
                    }
                },
                None => {},
            }
            let ghost taken_b = taken@;
            if is_active {
                taken.push(entry.1);
            }
            proof {
                lemma_contains_push(taken_b, entry.1);
                assert forall|c: Color|
                    taken@.contains(c) <==> exists|idx: int|
                        0 <= idx < j as int + 1 && (#[trigger] out@[idx]).1 == c && active(
                            e,
                            v,
                            out@[idx].0,
                        ) by {
                    if taken@.contains(c) {
                        if taken_b.contains(c) {
                            let w2 = choose|idx: int|
                                0 <= idx < j as int && (#[trigger] out@[idx]).1 == c && active(
                                    e,
                                    v,
                                    out@[idx].0,
                                );
                            assert(out@[w2].1 == c && active(e, v, out@[w2].0));
                            assert(0 <= w2 && w2 < j as int + 1);
                        } else {
                            assert(is_active && c == entry.1);
                            assert(out@[j as int].1 == c && active(e, v, out@[j as int].0));
                        }
                    }
                    if exists|idx: int|
                        0 <= idx < j as int + 1 && (#[trigger] out@[idx]).1 == c && active(
                            e,
                            v,
                            out@[idx].0,
                        ) {
                        let idx = choose|idx: int|
                            0 <= idx < j as int + 1 && (#[trigger] out@[idx]).1 == c && active(
                                e,
                                v,
                                out@[idx].0,
                            );
                        if idx < j as int {
                            assert(taken_b.contains(c));
                        } else {
                            assert(is_active && c == entry.1);
                        }
                    }
                }
            }
            j += 1;
        }
        proof {
            assert forall|c: Color| taken@.contains(c) <==> tk.contains(c) by {}
        }
        // Pick the first palette color that is free.
        let mut chosen: Option<Color> = None;
        let mut p: usize = 0;
        while p < palette.len() && chosen.is_none()
            invariant
                p <= palette@.len(),
                tk == taken_colors(e, out@, v),
                forall|c: Color| taken@.contains(c) <==> tk.contains(c),
                chosen is None ==> first_free(palette@, tk, 0) == first_free(
                    palette@,
                    tk,
                    p as int,
                ),
                chosen matches Some(c) ==> first_free(palette@, tk, 0) == Some(c),
            decreases palette@.len() - p,
        {
            let cand = palette[p];
            let mut in_taken = false;
            let mut q: usize = 0;
            while q < taken.len()
                invariant
                    q <= taken@.len(),
                    in_taken ==> taken@.contains(cand),
                    !in_taken ==> forall|w: int| 0 <= w < q as int ==> taken@[w] != cand,
                decreases taken@.len() - q,
            {
                if taken[q] == cand {
                    proof {
                        assert(taken@[q as int] == cand);
                    }
                    in_taken = true;
                }
                q += 1;
            }
            proof {
                if !in_taken {
                    assert(!taken@.contains(cand)) by {
                        if taken@.contains(cand) {
                            let w = choose|w: int|
                                0 <= w < taken@.len() && taken@[w] == cand;
                            assert(taken@[w] != cand);
                        }
                    }
                    assert(!tk.contains(cand));
                    assert(first_free(palette@, tk, p as int) == Some(cand));
                } else {
                    assert(tk.contains(cand));
                    assert(first_free(palette@, tk, p as int) == first_free(
                        palette@,
                        tk,
                        p as int + 1,
                    ));
                }
            }
            if !in_taken {
                chosen = Some(cand);
            }
            p += 1;
        }
        match chosen {
            None => {
                proof {
                    assert(p as int == palette@.len());
                    assert(first_free(palette@, tk, p as int) is None);
                    assert(assign_from(e, stack@, palette@, out@, i as int) is None);
                }
                return None;
            },
            Some(c) => {
                proof {
                    assert(stack@[i as int] == v);
                    assert(assign_from(e, stack@, palette@, out@, i as int) == assign_from(
                        e,
                        stack@,
                        palette@,
                        out@.push((v, c)),
                        i as int + 1,
                    ));
                }
                out.push((v, c));
            },
        }
        i += 1;
    }
    proof {
        assert(assign_from(e, stack@, palette@, out@, stack@.len() as int) == Some(out@));
    }
    Some(out)
}

/// A properly colored assignment: assigned neighbors never share a color.
pub open spec fn proper_coloring(e: Map<(usize, usize), i64>, m: Seq<(usize, Color)>) -> bool {
    forall|i1: int, i2: int|
        0 <= i1 < i2 < m.len() && active(e, m[i1].0, m[i2].0) ==> (#[trigger] m[i1]).1 != (
        #[trigger] m[i2]).1
}

proof fn lemma_assign_from_proper(
    e: Map<(usize, usize), i64>,
    stack: Seq<usize>,
    pal: Seq<Color>,
    acc: Seq<(usize, Color)>,
    i: int,
)
    requires
        proper_coloring(e, acc),
    ensures
        assign_from(e, stack, pal, acc, i) matches Some(m) ==> proper_coloring(e, m),
    decreases stack.len() - i,
{
    if 0 <= i < stack.len() {
        match first_free(pal, taken_colors(e, acc, stack[i]), 0) {
            None => {},
            Some(c) => {
                lemma_first_free(pal, taken_colors(e, acc, stack[i]), 0);
                let acc2 = acc.push((stack[i], c));
                assert(proper_coloring(e, acc2)) by {
                    assert forall|i1: int, i2: int|
                        0 <= i1 < i2 < acc2.len() && active(e, acc2[i1].0, acc2[i2].0)
                        implies (#[trigger] acc2[i1]).1 != (#[trigger] acc2[i2]).1 by {
                        if i2 == acc2.len() - 1 {
                            assert(acc2[i1] == acc[i1]);
                            assert(acc2[i2] == (stack[i], c));
                            assert(active(e, stack[i], acc[i1].0)) by {
                                assert(edge_key(acc[i1].0, stack[i]) == edge_key(
                                    stack[i],
                                    acc[i1].0,
                                ));
                            }
                            if acc[i1].1 == c {
                                assert(taken_colors(e, acc, stack[i]).contains(c));
                            }
                        } else {
                            assert(acc2[i1] == acc[i1] && acc2[i2] == acc[i2]);
                        }
                    }
                }
                lemma_assign_from_proper(e, stack, pal, acc2, i + 1);
            },
        }
    }
}

/// Coloring correctness: in any assignment the engine produces, two nodes
/// that share an active edge never share a color.
pub proof fn lemma_coloring_proper(
    e: Map<(usize, usize), i64>,
    stack: Seq<usize>,
    pal: Seq<Color>,
)
    ensures
        assign(e, stack, pal) matches Some(m) ==> proper_coloring(e, m),
{
    lemma_assign_from_proper(e, stack, pal, Seq::empty(), 0);
}


// ------------------------------------------------------------------
// What the live sets guarantee
// ------------------------------------------------------------------

/// Liveness correctness. Writing `live_in(s)` for the snapshot emitted
/// for statement `s` (snapshot `len - 1 - j` belongs to statement `j`):
/// every used variable is live on entry unless the same statement also
/// defines it (hence the premise that no statement uses its own
/// definition); no defined variable is live on entry; and each snapshot
/// is exactly the dataflow step from the snapshot after it, the last
/// statement stepping from the empty live-out set.
#[verifier::rlimit(60)]
pub proof fn lemma_liveness(stmts: Seq<StmtV>)
    requires
        forall|j: int, nm: Seq<char>|
            0 <= j < stmts.len() && #[trigger] stmt_def_seq(stmts[j]).contains(nm)
                ==> !stmt_use_seq(stmts[j]).contains(nm),
    ensures
        live_sets(stmts).len() == stmts.len(),
        forall|j: int, nm: Seq<char>|
            0 <= j < stmts.len() && #[trigger] stmt_use_seq(stmts[j]).contains(nm)
                ==> live_sets(stmts)[stmts.len() - 1 - j].contains(nm),
        forall|j: int, nm: Seq<char>|
            0 <= j < stmts.len() && #[trigger] stmt_def_seq(stmts[j]).contains(nm)
                ==> !live_sets(stmts)[stmts.len() - 1 - j].contains(nm),
        forall|j: int|
            0 <= j < stmts.len() ==> #[trigger] live_sets(stmts)[j] == live_step(
                if j == 0 {
                    Seq::<Seq<char>>::empty()
                } else {
                    live_sets(stmts)[j - 1]
                },
                stmts[stmts.len() - 1 - j],
            ),
    decreases stmts.len(),
{
    lemma_live_sets_len(stmts);
    if stmts.len() > 0 {
        let m = stmts.len() as int;
        let rest = live_sets(stmts.drop_first());
        let prev = if rest.len() == 0 {
            Seq::<Seq<char>>::empty()
        } else {
            rest.last()
        };
        lemma_live_sets_len(stmts.drop_first());
        assert forall|j: int, nm: Seq<char>|
            0 <= j < stmts.drop_first().len() && #[trigger] stmt_def_seq(
                stmts.drop_first()[j],
            ).contains(nm) implies !stmt_use_seq(stmts.drop_first()[j]).contains(nm) by {
            assert(stmts.drop_first()[j] == stmts[j + 1]);
        }
        lemma_liveness(stmts.drop_first());
        let top = live_step(prev, stmts[0]);
        let uses = stmt_use_seq(stmts[0]);
        let defs = stmt_def_seq(stmts[0]);
        lemma_add_uses_mem(prev, uses);
        lemma_remove_defs_mem(add_uses(prev, uses), defs);
        assert forall|j: int, nm: Seq<char>|
            0 <= j < m && #[trigger] stmt_use_seq(stmts[j]).contains(nm) implies live_sets(
            stmts,
        )[m - 1 - j].contains(nm) by {
            if j == 0 {
                assert(live_sets(stmts)[m - 1] == top);
                assert(!defs.contains(nm));
            } else {
                assert(stmts.drop_first()[j - 1] == stmts[j]);
                assert(live_sets(stmts)[m - 1 - j] == rest[m - 2 - (j - 1)]);
            }
        }
        assert forall|j: int, nm: Seq<char>|
            0 <= j < m && #[trigger] stmt_def_seq(stmts[j]).contains(nm) implies !live_sets(
            stmts,
        )[m - 1 - j].contains(nm) by {
            if j == 0 {
                assert(live_sets(stmts)[m - 1] == top);
            } else {
                assert(stmts.drop_first()[j - 1] == stmts[j]);
                assert(live_sets(stmts)[m - 1 - j] == rest[m - 2 - (j - 1)]);
            }
        }
        assert forall|j: int|
            0 <= j < m implies #[trigger] live_sets(stmts)[j] == live_step(
            if j == 0 {
                Seq::<Seq<char>>::empty()
            } else {
                live_sets(stmts)[j - 1]
            },
            stmts[m - 1 - j],
        ) by {
            if j == m - 1 {
                assert(live_sets(stmts)[j] == top);
                if m == 1 {
                    assert(rest.len() == 0);
                } else {
                    assert(live_sets(stmts)[j - 1] == rest[m - 2]);
                    assert(rest[m - 2] == rest.last());
                }
            } else {
                assert(live_sets(stmts)[j] == rest[j]);
                assert(rest[j] == live_step(
                    if j == 0 {
                        Seq::<Seq<char>>::empty()
                    } else {
                        rest[j - 1]
                    },
                    stmts.drop_first()[stmts.drop_first().len() - 1 - j],
                ));
                assert(stmts.drop_first()[stmts.drop_first().len() - 1 - j] == stmts[m - 1 - j]);
                if j > 0 {
                    assert(live_sets(stmts)[j - 1] == rest[j - 1]);
                }
            }
        }
    }
}

} // verus!
