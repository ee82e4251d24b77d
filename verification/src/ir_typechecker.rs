//! The static type checker: a single forward pass over the function body
//! with a symbol table from variable names to their declared types.
//!
//! The checker is specified by the ghost function `spec_typecheck`;
//! `lemma_typecheck_sound` states what acceptance guarantees about every
//! statement of the body.

use vstd::prelude::*;

use crate::ir_parser::{
    FuncSig, FuncSigV, LetValue, LetValueV, Node, NodeV, Stmt, StmtV, Type, TypeV, VarTypePair,
    VtpV, is_promotable_to, promotable, stmts_view, vtps_view,
};

verus! {

// ------------------------------------------------------------------
// Ghost mirror of the checker
// ------------------------------------------------------------------

/// Seeds the symbol table with the parameters, in order; a duplicate
/// parameter name is a failure.
pub open spec fn seed_params(args: Seq<VtpV>, tab: Map<Seq<char>, TypeV>) -> Option<
    Map<Seq<char>, TypeV>,
>
    decreases args.len(),
{
    if args.len() == 0 {
        Some(tab)
    } else if tab.contains_key(args[0].name) {
        None
    } else {
        seed_params(args.drop_first(), tab.insert(args[0].name, args[0].typ))
    }
}

/// Checks the statements in order, threading the symbol table. `call`
/// statements are structurally accepted: nothing is checked and the
/// destination is not bound.
pub open spec fn tc_stmts(stmts: Seq<StmtV>, ret: TypeV, tab: Map<Seq<char>, TypeV>) -> bool
    decreases stmts.len(),
{
    if stmts.len() == 0 {
        true
    } else {
        let rest = stmts.drop_first();
        match stmts[0] {
            StmtV::Add(d, l, r) | StmtV::Sub(d, l, r) => {
                &&& tab.contains_key(l)
                &&& promotable(tab[l], d.typ)
                &&& tab.contains_key(r)
                &&& promotable(tab[r], d.typ)
                &&& !tab.contains_key(d.name)
                &&& tc_stmts(rest, ret, tab.insert(d.name, d.typ))
            },
            StmtV::Let(d, v) => {
                &&& (match v {
                    LetValueV::Int(_) => !(d.typ is Ptr) && !(d.typ is UserType),
                    LetValueV::Var(nm) => tab.contains_key(nm) ==> promotable(tab[nm], d.typ),
                })
                &&& !tab.contains_key(d.name)
                &&& tc_stmts(rest, ret, tab.insert(d.name, d.typ))
            },
            StmtV::Ret(o) => {
                &&& (match o {
                    Some(nm) => if tab.contains_key(nm) {
                        promotable(tab[nm], ret)
                    } else {
                        promotable(TypeV::Void, ret)
                    },
                    None => true,
                })
                &&& tc_stmts(rest, ret, tab)
            },
            StmtV::Call(_, _, _) => tc_stmts(rest, ret, tab),
        }
    }
}

/// Checks one function definition against a starting symbol table.
pub open spec fn tc_funcdef(
    sig: FuncSigV,
    stmts: Seq<StmtV>,
    tab: Map<Seq<char>, TypeV>,
) -> bool {
    match seed_params(sig.args, tab) {
        None => false,
        Some(t) => tc_stmts(stmts, sig.typ, t),
    }
}

/// Whether the whole program typechecks.
pub open spec fn spec_typecheck(nv: NodeV) -> bool {
    match nv {
        NodeV::FuncDef(sig, stmts) => tc_funcdef(sig, stmts, Map::empty()),
    }
}

/// The symbol table after one statement: `add`, `sub` and `let` bind their
/// destination; `ret` and `call` bind nothing.
pub open spec fn tc_step(tab: Map<Seq<char>, TypeV>, s: StmtV) -> Map<Seq<char>, TypeV> {
    match s {
        StmtV::Add(d, _, _) => tab.insert(d.name, d.typ),
        StmtV::Sub(d, _, _) => tab.insert(d.name, d.typ),
        StmtV::Let(d, _) => tab.insert(d.name, d.typ),
        StmtV::Ret(_) => tab,
        StmtV::Call(_, _, _) => tab,
    }
}

/// The symbol table after a run of statements.
pub open spec fn tc_tab(stmts: Seq<StmtV>, tab: Map<Seq<char>, TypeV>) -> Map<Seq<char>, TypeV>
    decreases stmts.len(),
{
    if stmts.len() == 0 {
        tab
    } else {
        tc_tab(stmts.drop_first(), tc_step(tab, stmts[0]))
    }
}

pub proof fn lemma_tc_tab_snoc(stmts: Seq<StmtV>, j: int, tab: Map<Seq<char>, TypeV>)
    requires
        0 <= j < stmts.len(),
    ensures
        tc_tab(stmts.take(j + 1), tab) == tc_step(tc_tab(stmts.take(j), tab), stmts[j]),
    decreases j,
{
    if j == 0 {
        assert(stmts.take(0) =~= Seq::<StmtV>::empty());
        assert(stmts.take(1).drop_first() =~= Seq::<StmtV>::empty());
        assert(stmts.take(1)[0] == stmts[0]);
        assert(tc_tab(Seq::<StmtV>::empty(), tc_step(tab, stmts[0])) == tc_step(tab, stmts[0]));
        assert(tc_tab(stmts.take(1), tab) == tc_step(tc_tab(stmts.take(0), tab), stmts[0]));
    } else {
        let rest = stmts.drop_first();
        let t1 = tc_step(tab, stmts[0]);
        lemma_tc_tab_snoc(rest, j - 1, t1);
        assert(stmts.take(j + 1).drop_first() =~= rest.take(j));
        assert(stmts.take(j).drop_first() =~= rest.take(j - 1));
        assert(stmts.take(j + 1)[0] == stmts[0]);
        assert(stmts.take(j)[0] == stmts[0]);
        assert(rest[j - 1] == stmts[j]);
        assert(tc_tab(stmts.take(j + 1), tab) == tc_tab(rest.take(j), t1));
        assert(tc_tab(stmts.take(j), tab) == tc_tab(rest.take(j - 1), t1));
        assert(tc_tab(stmts.take(j + 1), tab) == tc_step(tc_tab(stmts.take(j), tab), stmts[j]));
    }
}

// ------------------------------------------------------------------
// The executable checker
// ------------------------------------------------------------------

/// The map a symbol-table vector stands for; a later binding wins.
pub open spec fn tab_of(s: Seq<VarTypePair>) -> Map<Seq<char>, TypeV>
    decreases s.len(),
{
    if s.len() == 0 {
        Map::empty()
    } else {
        tab_of(s.drop_last()).insert(s.last().name@, s.last().typename@)
    }
}

proof fn lemma_tab_of_skip(s: Seq<VarTypePair>, i: int, nm: Seq<char>)
    requires
        0 <= i <= s.len(),
        forall|j: int| i <= j < s.len() ==> s[j].name@ != nm,
    ensures
        tab_of(s).contains_key(nm) == tab_of(s.subrange(0, i)).contains_key(nm),
        tab_of(s).contains_key(nm) ==> tab_of(s)[nm] == tab_of(s.subrange(0, i))[nm],
    decreases s.len() - i,
{
    if i < s.len() {
        assert(s.subrange(0, s.len() as int) =~= s);
        lemma_tab_of_skip(s, i + 1, nm);
        assert(s.subrange(0, i + 1).drop_last() =~= s.subrange(0, i));
        assert(s.subrange(0, i + 1).last() == s[i]);
    } else {
        assert(s.subrange(0, i) =~= s);
    }
}

/// Looks a name up in the symbol table; the latest binding wins.
fn tab_lookup(tab: &Vec<VarTypePair>, name: &String) -> (r: Option<Type>)
    ensures
        r matches Some(t) ==> tab_of(tab@).contains_key(name@) && t@ == tab_of(tab@)[name@],
        r is None ==> !tab_of(tab@).contains_key(name@),
{
    let mut i: usize = tab.len();
    loop
        invariant_except_break
            i <= tab@.len(),
            forall|j: int| i <= j < tab@.len() ==> tab@[j].name@ != name@,
        ensures
            !tab_of(tab@).contains_key(name@),
        decreases i,
    {
        if i == 0 {
            proof {
                lemma_tab_of_skip(tab@, 0, name@);
                assert(tab@.subrange(0, 0) =~= Seq::<VarTypePair>::empty());
            }
            break;
        }
        i -= 1;
        if tab[i].name == *name {
            proof {
                lemma_tab_of_skip(tab@, i + 1, name@);
                assert(tab@.subrange(0, i + 1).drop_last() =~= tab@.subrange(0, i as int));
                assert(tab@.subrange(0, i + 1).last() == tab@[i as int]);
            }
            return Some(tab[i].typename.clone());
        }
    }
    None
}

/// Whether the table binds a name.
fn tab_contains(tab: &Vec<VarTypePair>, name: &String) -> (r: bool)
    ensures
        r == tab_of(tab@).contains_key(name@),
{
    match tab_lookup(tab, name) {
        Some(_) => true,
        None => false,
    }
}

/// Checks the statements of a function body in order, extending the symbol
/// table at each definition site.
pub fn typecheck_stmts(stmts: &Vec<Stmt>, ret_type: &Type, sym_tab: &mut Vec<VarTypePair>) -> (r:
    bool)
    ensures
        r == tc_stmts(stmts_view(stmts@), ret_type@, tab_of(old(sym_tab)@)),
        r ==> tab_of(final(sym_tab)@) == tc_tab(stmts_view(stmts@), tab_of(old(sym_tab)@)),
{
    let ghost full = stmts_view(stmts@);
    let ghost tab0 = tab_of(old(sym_tab)@);
    let mut i: usize = 0;
    proof {
        assert(full.skip(0) =~= full);
        assert(full.take(0) =~= Seq::<StmtV>::empty());
    }
    loop
        invariant_except_break
            i <= stmts@.len(),
            full == stmts_view(stmts@),
            tab0 == tab_of(old(sym_tab)@),
            tc_stmts(full, ret_type@, tab0) == tc_stmts(
                full.skip(i as int),
                ret_type@,
                tab_of(sym_tab@),
            ),
            tab_of(sym_tab@) == tc_tab(full.take(i as int), tab0),
        ensures
            i == stmts@.len(),
            tc_stmts(full, ret_type@, tab0),
            tab_of(sym_tab@) == tc_tab(full.take(i as int), tab0),
        decreases stmts@.len() - i,
    {
        if i == stmts.len() {
            proof {
                assert(full.skip(i as int) =~= Seq::<StmtV>::empty());
            }
            break;
        }
        let ghost cur = full.skip(i as int);
        let ghost tab_cur = tab_of(sym_tab@);
        proof {
            assert(cur[0] == full[i as int]);
            assert(cur.drop_first() =~= full.skip(i as int + 1));
        }
        let stmt = &stmts[i];
        match stmt {
            Stmt::AddInst(dest, left, right) | Stmt::SubInst(dest, left, right) => {
                match tab_lookup(sym_tab, &left.name) {
                    Some(lt) => {
                        if !is_promotable_to(&lt, &dest.typename) {
                            proof {
                                assert(!tc_stmts(cur, ret_type@, tab_cur));
                            }
                            return false;
                        }
                    },
                    None => {
                        proof {
                            assert(!tc_stmts(cur, ret_type@, tab_cur));
                        }
                        return false;
                    },
                }
                match tab_lookup(sym_tab, &right.name) {
                    Some(rt) => {
                        if !is_promotable_to(&rt, &dest.typename) {
                            proof {
                                assert(!tc_stmts(cur, ret_type@, tab_cur));
                            }
                            return false;
                        }
                    },
                    None => {
                        proof {
                            assert(!tc_stmts(cur, ret_type@, tab_cur));
                        }
                        return false;
                    },
                }
                if tab_contains(sym_tab, &dest.name) {
                    proof {
                        assert(!tc_stmts(cur, ret_type@, tab_cur));
                    }
                    return false;
                }
                let ghost tab_pre = sym_tab@;
                sym_tab.push(dest.clone());
                proof {
                    assert(sym_tab@.drop_last() =~= tab_pre);
                    lemma_tc_tab_snoc(full, i as int, tab0);
                }
            },
            Stmt::LetInst(dest, value) => {
                match value {
                    LetValue::LetInteger(_) => {
                        match &dest.typename {
                            Type::Ptr(_) => {
                                proof {
                                    assert(!tc_stmts(cur, ret_type@, tab_cur));
                                }
                                return false;
                            },
                            Type::UserType(_) => {
                                proof {
                                    assert(!tc_stmts(cur, ret_type@, tab_cur));
                                }
                                return false;
                            },
                            _ => {},
                        }
                    },
                    LetValue::LetVariable(v) => {
                        match tab_lookup(sym_tab, &v.name) {
                            Some(vt) => {
                                if !is_promotable_to(&vt, &dest.typename) {
                                    proof {
                                        assert(!tc_stmts(cur, ret_type@, tab_cur));
                                    }
                                    return false;
                                }
                            },
                            None => {},
                        }
                    },
                }
                if tab_contains(sym_tab, &dest.name) {
                    proof {
                        assert(!tc_stmts(cur, ret_type@, tab_cur));
                    }
                    return false;
                }
                let ghost tab_pre = sym_tab@;
                sym_tab.push(dest.clone());
                proof {
                    assert(sym_tab@.drop_last() =~= tab_pre);
                    lemma_tc_tab_snoc(full, i as int, tab0);
                }
            },
            Stmt::RetInst(value) => {
                match value {
                    Some(v) => {
                        match tab_lookup(sym_tab, &v.name) {
                            Some(vt) => {
                                if !is_promotable_to(&vt, ret_type) {
                                    proof {
                                        assert(!tc_stmts(cur, ret_type@, tab_cur));
                                    }
                                    return false;
                                }
                            },
                            None => {
                                if !is_promotable_to(&Type::Void, ret_type) {
                                    proof {
                                        assert(!tc_stmts(cur, ret_type@, tab_cur));
                                    }
                                    return false;
                                }
                            },
                        }
                    },
                    None => {},
                }
            },
            Stmt::CallInst(_, _, _) => {},
        }
        proof {
            lemma_tc_tab_snoc(full, i as int, tab0);
        }
        i += 1;
    }
    proof {
        assert(full.take(full.len() as int) =~= full);
    }
    true
}

/// Seeds the symbol table with the signature's parameters, then checks the
/// body against the declared return type.
pub fn typecheck_funcdef(sig: &FuncSig, stmts: &Vec<Stmt>, sym_tab: &mut Vec<VarTypePair>) -> (r:
    bool)
    ensures
        r == tc_funcdef(sig@, stmts_view(stmts@), tab_of(old(sym_tab)@)),
{
    let ghost args_full = vtps_view(sig.arglist@);
    let ghost tab0 = tab_of(old(sym_tab)@);
    let mut i: usize = 0;
    proof {
        assert(args_full.skip(0) =~= args_full);
    }
    loop
        invariant_except_break
            i <= sig.arglist@.len(),
            args_full == vtps_view(sig.arglist@),
            tab0 == tab_of(old(sym_tab)@),
            seed_params(args_full, tab0) == seed_params(
                args_full.skip(i as int),
                tab_of(sym_tab@),
            ),
        ensures
            seed_params(args_full, tab0) == Some(tab_of(sym_tab@)),
            i == sig.arglist@.len(),
        decreases sig.arglist@.len() - i,
    {
        if i == sig.arglist.len() {
            proof {
                assert(args_full.skip(i as int) =~= Seq::<VtpV>::empty());
            }
            break;
        }
        let ghost cur = args_full.skip(i as int);
        proof {
            assert(cur[0] == args_full[i as int]);
            assert(cur.drop_first() =~= args_full.skip(i as int + 1));
        }
        let arg = &sig.arglist[i];
        if tab_contains(sym_tab, &arg.name) {
            proof {
                assert(seed_params(cur, tab_of(sym_tab@)) is None);
            }
            return false;
        }
        let ghost tab_pre = sym_tab@;
        sym_tab.push(arg.clone());
        proof {
            assert(sym_tab@.drop_last() =~= tab_pre);
        }
        i += 1;
    }
    typecheck_stmts(stmts, &sig.typename, sym_tab)
}

/// Whether the program typechecks: a boolean accept/reject that does not
/// mutate the syntax tree.
pub fn typecheck(ast: &Node) -> (r: bool)
    ensures
        r == spec_typecheck(ast@),
{
    let mut sym_tab: Vec<VarTypePair> = Vec::new();
    match ast {
        Node::FuncDef(sig, stmts) => typecheck_funcdef(sig, stmts, &mut sym_tab),
    }
}


// ------------------------------------------------------------------
// What acceptance guarantees
// ------------------------------------------------------------------

/// The destination a statement binds, if any; `ret` binds none, and the
/// checker does not bind a `call` destination either.
pub open spec fn stmt_dest(s: StmtV) -> Option<VtpV> {
    match s {
        StmtV::Add(d, _, _) => Some(d),
        StmtV::Sub(d, _, _) => Some(d),
        StmtV::Let(d, _) => Some(d),
        StmtV::Ret(_) => None,
        StmtV::Call(_, _, _) => None,
    }
}

/// The symbol table the parameters seed, where seeding succeeds.
pub open spec fn seed_tab(args: Seq<VtpV>) -> Map<Seq<char>, TypeV> {
    seed_params(args, Map::empty())->Some_0
}

/// What holds of one statement under the symbol table in force before it:
/// operands of `add` and `sub` are bound with types promotable to the
/// destination type; a `let` from a literal has a primitive destination; a
/// `let` from a bound variable promotes; a returned bound variable promotes
/// to the return type, an unbound one is checked as `void`; and no bound
/// destination is rebound.
pub open spec fn stmt_checks(tab: Map<Seq<char>, TypeV>, ret: TypeV, s: StmtV) -> bool {
    match s {
        StmtV::Add(d, l, r) | StmtV::Sub(d, l, r) => {
            &&& tab.contains_key(l)
            &&& promotable(tab[l], d.typ)
            &&& tab.contains_key(r)
            &&& promotable(tab[r], d.typ)
            &&& !tab.contains_key(d.name)
        },
        StmtV::Let(d, v) => {
            &&& (match v {
                LetValueV::Int(_) => !(d.typ is Ptr) && !(d.typ is UserType),
                LetValueV::Var(nm) => tab.contains_key(nm) ==> promotable(tab[nm], d.typ),
            })
            &&& !tab.contains_key(d.name)
        },
        StmtV::Ret(o) => {
            match o {
                Some(nm) => if tab.contains_key(nm) {
                    promotable(tab[nm], ret)
                } else {
                    promotable(TypeV::Void, ret)
                },
                None => true,
            }
        },
        StmtV::Call(_, _, _) => true,
    }
}

/// A name bound before seeding is still bound after it.
proof fn lemma_seed_mono(args: Seq<VtpV>, tab: Map<Seq<char>, TypeV>, nm: Seq<char>)
    requires
        seed_params(args, tab) is Some,
        tab.contains_key(nm),
    ensures
        seed_params(args, tab)->Some_0.contains_key(nm),
    decreases args.len(),
{
    if args.len() > 0 {
        lemma_seed_mono(args.drop_first(), tab.insert(args[0].name, args[0].typ), nm);
    }
}

/// Every parameter name ends up bound, and none was bound beforehand.
proof fn lemma_seed_contains(args: Seq<VtpV>, tab: Map<Seq<char>, TypeV>, k: int)
    requires
        seed_params(args, tab) is Some,
        0 <= k < args.len(),
    ensures
        seed_params(args, tab)->Some_0.contains_key(args[k].name),
        !tab.contains_key(args[k].name),
    decreases args.len(),
{
    let rest = args.drop_first();
    let tab1 = tab.insert(args[0].name, args[0].typ);
    if k == 0 {
        lemma_seed_mono(rest, tab1, args[0].name);
    } else {
        assert(rest[k - 1] == args[k]);
        lemma_seed_contains(rest, tab1, k - 1);
    }
}

/// Successful seeding means the parameter names are pairwise distinct.
proof fn lemma_seed_distinct(args: Seq<VtpV>, tab: Map<Seq<char>, TypeV>)
    requires
        seed_params(args, tab) is Some,
    ensures
        forall|i1: int, i2: int|
            0 <= i1 < i2 < args.len() ==> args[i1].name != args[i2].name,
    decreases args.len(),
{
    if args.len() > 0 {
        let rest = args.drop_first();
        let tab1 = tab.insert(args[0].name, args[0].typ);
        lemma_seed_distinct(rest, tab1);
        assert forall|i1: int, i2: int|
            0 <= i1 < i2 < args.len() implies args[i1].name != args[i2].name by {
            if i1 == 0 {
                assert(rest[i2 - 1] == args[i2]);
                lemma_seed_contains(rest, tab1, i2 - 1);
            } else {
                assert(rest[i1 - 1] == args[i1]);
                assert(rest[i2 - 1] == args[i2]);
            }
        }
    }
}

/// Splitting a statement run splits the symbol-table fold.
proof fn lemma_tc_tab_app(a: Seq<StmtV>, b: Seq<StmtV>, tab: Map<Seq<char>, TypeV>)
    ensures
        tc_tab(a + b, tab) == tc_tab(b, tc_tab(a, tab)),
    decreases a.len(),
{
    if a.len() == 0 {
        assert(a + b =~= b);
    } else {
        assert((a + b).drop_first() =~= a.drop_first() + b);
        assert((a + b)[0] == a[0]);
        lemma_tc_tab_app(a.drop_first(), b, tc_step(tab, a[0]));
    }
}

/// A name bound before a run of statements is still bound after it.
proof fn lemma_tc_tab_mono(stmts: Seq<StmtV>, tab: Map<Seq<char>, TypeV>, nm: Seq<char>)
    requires
        tab.contains_key(nm),
    ensures
        tc_tab(stmts, tab).contains_key(nm),
    decreases stmts.len(),
{
    if stmts.len() > 0 {
        lemma_tc_tab_mono(stmts.drop_first(), tc_step(tab, stmts[0]), nm);
    }
}

proof fn lemma_tc_stmts_sound(stmts: Seq<StmtV>, ret: TypeV, tab: Map<Seq<char>, TypeV>)
    requires
        tc_stmts(stmts, ret, tab),
    ensures
        forall|j: int|
            0 <= j < stmts.len() ==> stmt_checks(tc_tab(stmts.take(j), tab), ret, stmts[j]),
    decreases stmts.len(),
{
    if stmts.len() > 0 {
        let rest = stmts.drop_first();
        let tab1 = tc_step(tab, stmts[0]);
        assert(tc_stmts(rest, ret, tab1));
        lemma_tc_stmts_sound(rest, ret, tab1);
        assert forall|j: int|
            0 <= j < stmts.len() implies stmt_checks(tc_tab(stmts.take(j), tab), ret, stmts[j]) by {
            if j == 0 {
                assert(stmts.take(0) =~= Seq::<StmtV>::empty());
                assert(stmt_checks(tab, ret, stmts[0]));
            } else {
                assert(stmts.take(j).drop_first() =~= rest.take(j - 1));
                assert(stmts.take(j)[0] == stmts[0]);
                assert(tc_tab(stmts.take(j), tab) == tc_tab(rest.take(j - 1), tab1));
                assert(rest[j - 1] == stmts[j]);
                assert(stmt_checks(tc_tab(rest.take(j - 1), tab1), ret, rest[j - 1]));
            }
        }
    }
}

/// Type checker soundness: when the checker accepts a function, the
/// parameters have pairwise distinct names and every statement satisfies
/// the typing rules under the symbol table in force before it: bound
/// operands promotable to the destination type for `add` and `sub`, a
/// primitive destination for a `let` from a literal, promotability for a
/// `let` from a bound variable, the return rule for `ret`, and no
/// rebinding of a bound name.
pub proof fn lemma_typecheck_sound(sig: FuncSigV, stmts: Seq<StmtV>)
    requires
        spec_typecheck(NodeV::FuncDef(sig, stmts)),
    ensures
        seed_params(sig.args, Map::<Seq<char>, TypeV>::empty()) is Some,
        forall|i1: int, i2: int|
            0 <= i1 < i2 < sig.args.len() ==> sig.args[i1].name != sig.args[i2].name,
        forall|j: int|
            0 <= j < stmts.len() ==> stmt_checks(
                tc_tab(stmts.take(j), seed_tab(sig.args)),
                sig.typ,
                stmts[j],
            ),
{
    let t0 = seed_tab(sig.args);
    lemma_seed_distinct(sig.args, Map::empty());
    lemma_tc_stmts_sound(stmts, sig.typ, t0);
}

/// The no-rebinding invariant, spelled out: in a function the checker
/// accepts whose body contains no `call` statement, the names introduced by
/// the parameters and by the `add`, `sub` and `let` destinations are
/// pairwise distinct.
pub proof fn lemma_typecheck_unique_defs(sig: FuncSigV, stmts: Seq<StmtV>)
    requires
        spec_typecheck(NodeV::FuncDef(sig, stmts)),
        forall|j: int| 0 <= j < stmts.len() ==> !(stmts[j] is Call),
    ensures
        forall|i1: int, i2: int|
            0 <= i1 < i2 < sig.args.len() ==> sig.args[i1].name != sig.args[i2].name,
        forall|i: int, j: int|
            0 <= i < sig.args.len() && 0 <= j < stmts.len() && stmt_dest(stmts[j]) is Some
                ==> sig.args[i].name != stmt_dest(stmts[j])->Some_0.name,
        forall|j1: int, j2: int|
            0 <= j1 < j2 < stmts.len() && stmt_dest(stmts[j1]) is Some && stmt_dest(
                stmts[j2],
            ) is Some ==> stmt_dest(stmts[j1])->Some_0.name != stmt_dest(stmts[j2])->Some_0.name,
{
    let t0 = seed_tab(sig.args);
    lemma_typecheck_sound(sig, stmts);
    assert forall|i: int, j: int|
        0 <= i < sig.args.len() && 0 <= j < stmts.len() && stmt_dest(stmts[j]) is Some
        implies sig.args[i].name != stmt_dest(stmts[j])->Some_0.name by {
        lemma_seed_contains(sig.args, Map::empty(), i);
        lemma_tc_tab_mono(stmts.take(j), t0, sig.args[i].name);
        assert(stmt_checks(tc_tab(stmts.take(j), t0), sig.typ, stmts[j]));
    }
    assert forall|j1: int, j2: int|
        0 <= j1 < j2 < stmts.len() && stmt_dest(stmts[j1]) is Some && stmt_dest(stmts[j2]) is Some
        implies stmt_dest(stmts[j1])->Some_0.name != stmt_dest(stmts[j2])->Some_0.name by {
        let d1 = stmt_dest(stmts[j1])->Some_0;
        lemma_tc_tab_snoc(stmts, j1, t0);
        assert(tc_tab(stmts.take(j1 + 1), t0).contains_key(d1.name));
        assert(stmts.take(j2) =~= stmts.take(j1 + 1) + stmts.take(j2).subrange(
            j1 + 1,
            j2,
        ));
        lemma_tc_tab_app(
            stmts.take(j1 + 1),
            stmts.take(j2).subrange(j1 + 1, j2),
            t0,
        );
        lemma_tc_tab_mono(
            stmts.take(j2).subrange(j1 + 1, j2),
            tc_tab(stmts.take(j1 + 1), t0),
            d1.name,
        );
        assert(stmt_checks(tc_tab(stmts.take(j2), t0), sig.typ, stmts[j2]));
    }
}

} // verus!
