//! The addressing of bound variables: what it means that every reference of a
//! tree finds its parameter, and that reduction keeps it so.

use vstd::prelude::*;
use crate::errors::Fault;
use crate::naming::Registry;
use crate::objects::Expression;
use crate::printer::{render, render_spine, scope_of, Scope};
use crate::term::{
    clone_all, clone_term, drive_term, expand_term, is_wrapper, lower_each, lower_term, mint_vars,
    reduce_all, reduce_term, settle_term, subst_all, subst_term, takes_argument, Term,
};

verus! {

/// Whether every reference of `t` finds its parameter and every name of `t`
/// is registered. `env` holds the number of parameters of each abstraction
/// that encloses `t`, the outermost first; `names` is the number of
/// registered names.
pub open spec fn scoped(t: Term, env: Seq<nat>, names: nat) -> bool
    decreases t,
{
    match t {
        Term::Free { name } => name < names,
        Term::Var { depth, position } => depth < env.len() && position < env[env.len() - 1 - depth],
        Term::Func { vars, inner } => {
            &&& forall|k: int| 0 <= k < vars.len() ==> (#[trigger] vars[k]).0 < names
            &&& forall|i: int|
                0 <= i < inner.len() ==> scoped(#[trigger] inner[i], env.push(vars.len()), names)
        },
    }
}

/// Whether an expression is well formed: every reference of its tree finds
/// its parameter, every name of the tree is registered and has its counter,
/// and a name stands for a registered name only.
pub open spec fn well_formed(e: Expression) -> bool {
    e.registry.wf() && scoped(e.term, Seq::empty(), e.registry.names.len())
}

/// Whether every tree of `ts` is scoped.
pub open spec fn all_scoped(ts: Seq<Term>, env: Seq<nat>, names: nat) -> bool {
    forall|i: int| 0 <= i < ts.len() ==> scoped(#[trigger] ts[i], env, names)
}

/// Whether `r` is a success or the failure of a size limit.
pub open spec fn failing<T>(r: Result<T, Fault>) -> bool {
    r matches Err(e) ==> e == Fault::ExpressionSizeLimit
}

/// Lowering past a wrapper without parameters keeps a tree scoped: the
/// wrapper leaves the environment.
pub proof fn lemma_lower_scoped(t: Term, outer: Seq<nat>, local: Seq<nat>, names: nat)
    requires
        scoped(t, outer.push(0) + local, names),
    ensures
        scoped(lower_term(t, local.len()), outer + local, names),
    decreases t,
{
    let before = outer.push(0) + local;
    let after = outer + local;
    match t {
        Term::Func { vars, inner } => {
            let low = lower_term(t, local.len());
            assert forall|i: int| 0 <= i < inner.len() implies scoped(
                #[trigger] low->inner[i],
                after.push(vars.len()),
                names,
            ) by {
                assert(before.push(vars.len()) =~= outer.push(0) + local.push(vars.len()));
                assert(after.push(vars.len()) =~= outer + local.push(vars.len()));
                lemma_lower_scoped(inner[i], outer, local.push(vars.len()), names);
            }
        },
        Term::Var { depth, position } => {
            let index = before.len() - 1 - depth;
            if depth > local.len() {
                assert(before[index] == outer[index]);
                assert(after[after.len() - 1 - (depth - 1)] == outer[index]);
            } else if depth == local.len() {
                assert(before[index] == 0);
            } else {
                assert(before[index] == local[index - outer.len() - 1]);
                assert(after[after.len() - 1 - depth] == local[index - outer.len() - 1]);
            }
        },
        Term::Free { name } => {},
    }
}

/// Fresh duplication ids change no name and no count of parameters.
pub proof fn lemma_mint_keeps_names(
    vars: Seq<(nat, nat)>,
    k: nat,
    acc: Seq<(nat, nat)>,
    copies: Seq<nat>,
)
    requires
        k <= vars.len(),
        acc.len() == k,
        forall|j: int| 0 <= j < k ==> (#[trigger] acc[j]).0 == vars[j].0,
    ensures
        mint_vars(vars, k, acc, copies) matches Ok((minted, c)) ==> minted.len() == vars.len()
            && c.len() == copies.len() && forall|j: int|
            0 <= j < vars.len() ==> (#[trigger] minted[j]).0 == vars[j].0,
        (forall|j: int| 0 <= j < vars.len() ==> (#[trigger] vars[j]).0 < copies.len()) ==> failing(
            mint_vars(vars, k, acc, copies),
        ),
    decreases vars.len() - k,
{
    if k < vars.len() {
        let name = vars[k as int].0;
        if name < copies.len() && copies[name as int] < usize::MAX {
            lemma_mint_keeps_names(
                vars,
                k + 1,
                acc.push((name, copies[name as int])),
                copies.update(name as int, copies[name as int] + 1),
            );
        }
    }
}

/// A copy is scoped at its site, `offset` abstractions below the one whose
/// parameter it replaces; the source stays scoped where it stands.
pub proof fn lemma_clone_scoped(
    t: Term,
    copies: Seq<nat>,
    offset: nat,
    level: nat,
    base: Seq<nat>,
    site: Seq<nat>,
    local: Seq<nat>,
    names: nat,
)
    requires
        scoped(t, base + local, names),
        site.len() == offset + 1,
        local.len() == level,
    ensures
        clone_term(t, copies, offset, level) matches Ok(c) ==> scoped(
            c.copy,
            base + site + local,
            names,
        ) && scoped(c.source, base + local, names) && c.copies.len() == copies.len(),
        names <= copies.len() ==> failing(clone_term(t, copies, offset, level)),
    decreases t, 0nat,
{
    let before = base + local;
    let after = base + site + local;
    if offset + level <= crate::MAX_OBJECT_DEPTH {
        match t {
            Term::Func { vars, inner } => {
                lemma_mint_keeps_names(vars, 0, Seq::empty(), copies);
                if let Ok((minted, c1)) = mint_vars(vars, 0, Seq::empty(), copies) {
                    assert(before.push(vars.len()) =~= base + local.push(vars.len()));
                    assert(after.push(vars.len()) =~= base + site + local.push(vars.len()));
                    lemma_clone_all_scoped(
                        inner,
                        0,
                        Seq::empty(),
                        Seq::empty(),
                        c1,
                        offset,
                        level + 1,
                        base,
                        site,
                        local.push(vars.len()),
                        names,
                    );
                }
            },
            Term::Var { depth, position } => {
                let index = before.len() - 1 - depth;
                if depth < level {
                    assert(before[index] == local[index - base.len()]);
                    assert(after[after.len() - 1 - depth] == local[index - base.len()]);
                } else if depth + offset + 1 <= usize::MAX {
                    assert(before[index] == base[index]);
                    assert(after[after.len() - 1 - (depth + offset + 1)] == base[index]);
                }
            },
            Term::Free { name } => {},
        }
    }
}

/// Copies are scoped at their site, and their sources where they stand.
pub proof fn lemma_clone_all_scoped(
    ts: Seq<Term>,
    k: nat,
    done: Seq<Term>,
    kept: Seq<Term>,
    copies: Seq<nat>,
    offset: nat,
    level: nat,
    base: Seq<nat>,
    site: Seq<nat>,
    local: Seq<nat>,
    names: nat,
)
    requires
        k <= ts.len(),
        all_scoped(ts, base + local, names),
        all_scoped(done, base + site + local, names),
        all_scoped(kept, base + local, names),
        done.len() == k,
        kept.len() == k,
        site.len() == offset + 1,
        local.len() == level,
    ensures
        clone_all(ts, k, done, kept, copies, offset, level) matches Ok(all) ==> all_scoped(
            all.copies_of,
            base + site + local,
            names,
        ) && all_scoped(all.sources, base + local, names) && all.copies_of.len() == ts.len()
            && all.sources.len() == ts.len() && all.copies.len() == copies.len(),
        names <= copies.len() ==> failing(clone_all(ts, k, done, kept, copies, offset, level)),
    decreases ts, ts.len() - k,
{
    if k < ts.len() {
        lemma_clone_scoped(ts[k as int], copies, offset, level, base, site, local, names);
        if let Ok(c) = clone_term(ts[k as int], copies, offset, level) {
            lemma_clone_all_scoped(
                ts,
                k + 1,
                done.push(c.copy),
                kept.push(c.source),
                c.copies,
                offset,
                level,
                base,
                site,
                local,
                names,
            );
        }
    }
}

/// Substituting an argument for the first of `n + 1` parameters keeps the
/// body scoped under the `n` parameters that are left, and the argument
/// scoped where it stands.
pub proof fn lemma_subst_scoped(
    t: Term,
    beta: Term,
    copies: Seq<nat>,
    level: nat,
    base: Seq<nat>,
    n: nat,
    local: Seq<nat>,
    names: nat,
)
    requires
        scoped(t, base.push(n + 1) + local, names),
        scoped(beta, base, names),
        local.len() == level,
    ensures
        subst_term(t, beta, copies, level) matches Ok(s) ==> scoped(
            s.body,
            base.push(n) + local,
            names,
        ) && scoped(s.beta, base, names) && s.copies.len() == copies.len(),
        names <= copies.len() ==> failing(subst_term(t, beta, copies, level)),
    decreases t, 0nat,
{
    let before = base.push(n + 1) + local;
    let after = base.push(n) + local;
    match t {
        Term::Func { vars, inner } => {
            assert(before.push(vars.len()) =~= base.push(n + 1) + local.push(vars.len()));
            assert(after.push(vars.len()) =~= base.push(n) + local.push(vars.len()));
            lemma_subst_all_scoped(
                inner,
                0,
                Seq::empty(),
                beta,
                copies,
                level + 1,
                base,
                n,
                local.push(vars.len()),
                names,
            );
        },
        Term::Var { depth, position } => {
            let index = before.len() - 1 - depth;
            if depth == level {
                assert(before[index] == n + 1);
                assert(after[index] == n);
                if position == 0 {
                    let site = seq![n] + local;
                    assert(base + Seq::<nat>::empty() =~= base);
                    lemma_clone_scoped(beta, copies, level, 0, base, site, Seq::empty(), names);
                    assert(base + site + Seq::<nat>::empty() =~= after);
                }
            } else if depth < level {
                assert(before[index] == local[index - base.len() - 1]);
                assert(after[index] == local[index - base.len() - 1]);
            } else {
                assert(before[index] == base[index]);
                assert(after[index] == base[index]);
            }
        },
        Term::Free { name } => {},
    }
}

/// Substituting into each tree of a spine keeps the spine scoped.
pub proof fn lemma_subst_all_scoped(
    ts: Seq<Term>,
    k: nat,
    done: Seq<Term>,
    beta: Term,
    copies: Seq<nat>,
    level: nat,
    base: Seq<nat>,
    n: nat,
    local: Seq<nat>,
    names: nat,
)
    requires
        k <= ts.len(),
        done.len() == k,
        all_scoped(ts, base.push(n + 1) + local, names),
        all_scoped(done, base.push(n) + local, names),
        scoped(beta, base, names),
        local.len() == level,
    ensures
        subst_all(ts, k, done, beta, copies, level) matches Ok(all) ==> all_scoped(
            all.bodies,
            base.push(n) + local,
            names,
        ) && all.bodies.len() == ts.len() && scoped(all.beta, base, names) && all.copies.len()
            == copies.len(),
        names <= copies.len() ==> failing(subst_all(ts, k, done, beta, copies, level)),
    decreases ts, ts.len() - k,
{
    if k < ts.len() {
        lemma_subst_scoped(ts[k as int], beta, copies, level, base, n, local, names);
        if let Ok(s) = subst_term(ts[k as int], beta, copies, level) {
            lemma_subst_all_scoped(
                ts,
                k + 1,
                done.push(s.body),
                s.beta,
                s.copies,
                level,
                base,
                n,
                local,
                names,
            );
        }
    }
}

/// Taking the wrappers at the head away keeps the head and the arguments
/// scoped.
pub proof fn lemma_expand_scoped(head: Term, args: Seq<Term>, env: Seq<nat>, names: nat)
    requires
        scoped(head, env, names),
        all_scoped(args, env, names),
    ensures
        scoped(expand_term(head, args).head, env, names),
        all_scoped(expand_term(head, args).args, env, names),
    decreases crate::term::wrapper_depth(head),
{
    if is_wrapper(head) {
        let inner = head->inner;
        let none = Seq::<nat>::empty();
        assert(env.push(0) + none =~= env.push(0));
        assert(env + none =~= env);
        lemma_lower_scoped(inner[0], env, none, names);
        let rest = lower_each(inner.skip(1), 0) + args;
        assert forall|i: int| 0 <= i < rest.len() implies scoped(#[trigger] rest[i], env, names) by {
            if i < inner.len() - 1 {
                assert(inner.skip(1)[i] == inner[i + 1]);
                lemma_lower_scoped(inner[i + 1], env, none, names);
            } else {
                assert(rest[i] == args[i - (inner.len() - 1)]);
            }
        }
        crate::term::lemma_wrapper_depth_lower(inner[0], 0);
        lemma_expand_scoped(lower_term(inner[0], 0), rest, env, names);
    }
}

/// Reduction keeps a tree scoped and the counters as many; where every name
/// has its counter, it fails by a size limit only.
pub proof fn lemma_reduce_scoped(t: Term, copies: Seq<nat>, fuel: nat, env: Seq<nat>, names: nat)
    requires
        scoped(t, env, names),
    ensures
        reduce_term(t, copies, fuel) matches Ok(r) ==> scoped(r.term, env, names) && r.copies.len()
            == copies.len(),
        names <= copies.len() ==> failing(reduce_term(t, copies, fuel)),
    decreases fuel, 0nat, 0nat,
{
    match t {
        Term::Func { vars, inner } => {
            if inner.len() > 0 && fuel > 0 {
                let f = (fuel - 1) as nat;
                let within = env.push(vars.len());
                assert(all_scoped(inner.skip(1), within, names)) by {
                    assert forall|i: int| 0 <= i < inner.skip(1).len() implies scoped(
                        #[trigger] inner.skip(1)[i],
                        within,
                        names,
                    ) by {
                        assert(inner.skip(1)[i] == inner[i + 1]);
                    }
                }
                lemma_drive_scoped(inner[0], inner.skip(1), copies, f, within, names);
                if let Ok(d) = drive_term(inner[0], inner.skip(1), copies, f) {
                    lemma_reduce_all_scoped(d.args, 0, Seq::empty(), d.copies, f, within, names);
                    if let Ok(r) = reduce_all(d.args, 0, Seq::empty(), d.copies, f) {
                        let spine = seq![d.head] + r.terms;
                        if vars.len() == 0 && spine.len() == 1 {
                            let none = Seq::<nat>::empty();
                            assert(env.push(0) + none =~= within);
                            assert(env + none =~= env);
                            lemma_lower_scoped(d.head, env, none, names);
                        } else {
                            assert forall|i: int| 0 <= i < spine.len() implies scoped(
                                #[trigger] spine[i],
                                within,
                                names,
                            ) by {
                                if i > 0 {
                                    assert(spine[i] == r.terms[i - 1]);
                                }
                            }
                        }
                    }
                }
            }
        },
        _ => {},
    }
}

/// Reducing the trees of a spine keeps them scoped.
pub proof fn lemma_reduce_all_scoped(
    ts: Seq<Term>,
    k: nat,
    done: Seq<Term>,
    copies: Seq<nat>,
    fuel: nat,
    env: Seq<nat>,
    names: nat,
)
    requires
        k <= ts.len(),
        all_scoped(ts, env, names),
        all_scoped(done, env, names),
    ensures
        reduce_all(ts, k, done, copies, fuel) matches Ok(r) ==> all_scoped(r.terms, env, names)
            && r.copies.len() == copies.len(),
        names <= copies.len() ==> failing(reduce_all(ts, k, done, copies, fuel)),
    decreases fuel, 1nat, ts.len() - k,
{
    if k < ts.len() {
        lemma_reduce_scoped(ts[k as int], copies, fuel, env, names);
        if let Ok(r) = reduce_term(ts[k as int], copies, fuel) {
            lemma_reduce_all_scoped(ts, k + 1, done.push(r.term), r.copies, fuel, env, names);
        }
    }
}

/// Reducing a head once more and taking its wrappers away keeps the spine
/// scoped.
pub proof fn lemma_settle_scoped(
    head: Term,
    args: Seq<Term>,
    copies: Seq<nat>,
    fuel: nat,
    env: Seq<nat>,
    names: nat,
)
    requires
        scoped(head, env, names),
        all_scoped(args, env, names),
    ensures
        settle_term(head, args, copies, fuel) matches Ok(d) ==> scoped(d.head, env, names)
            && all_scoped(d.args, env, names) && d.copies.len() == copies.len(),
        names <= copies.len() ==> failing(settle_term(head, args, copies, fuel)),
    decreases fuel, 1nat, 0nat,
{
    lemma_reduce_scoped(head, copies, fuel, env, names);
    if let Ok(r) = reduce_term(head, copies, fuel) {
        lemma_expand_scoped(r.term, args, env, names);
    }
}

/// Driving a head against its arguments keeps the spine scoped.
pub proof fn lemma_drive_scoped(
    head: Term,
    args: Seq<Term>,
    copies: Seq<nat>,
    fuel: nat,
    env: Seq<nat>,
    names: nat,
)
    requires
        scoped(head, env, names),
        all_scoped(args, env, names),
    ensures
        drive_term(head, args, copies, fuel) matches Ok(d) ==> scoped(d.head, env, names)
            && all_scoped(d.args, env, names) && d.copies.len() == copies.len(),
        names <= copies.len() ==> failing(drive_term(head, args, copies, fuel)),
    decreases fuel, 2nat, args.len(),
{
    if args.len() == 0 {
        lemma_settle_scoped(head, args, copies, fuel, env, names);
    } else {
        lemma_reduce_scoped(head, copies, fuel, env, names);
        if let Ok(r) = reduce_term(head, copies, fuel) {
            let s = expand_term(r.term, args);
            lemma_expand_scoped(r.term, args, env, names);
            if s.args.len() != args.len() || !takes_argument(s.head) {
                lemma_settle_scoped(s.head, s.args, r.copies, fuel, env, names);
            } else {
                let vars = s.head->vars;
                let inner = s.head->inner;
                let n = (vars.len() - 1) as nat;
                let none = Seq::<nat>::empty();
                assert(env.push(n + 1) + none =~= env.push(vars.len()));
                assert(env.push(n) + none =~= env.push(n));
                lemma_subst_all_scoped(
                    inner,
                    0,
                    Seq::empty(),
                    s.args[0],
                    r.copies,
                    0,
                    env,
                    n,
                    none,
                    names,
                );
                if let Ok(b) = subst_all(inner, 0, Seq::empty(), s.args[0], r.copies, 0) {
                    let next = Term::Func { vars: vars.skip(1), inner: b.bodies };
                    assert(scoped(next, env, names)) by {
                        assert forall|k: int| 0 <= k < vars.skip(1).len() implies (
                        #[trigger] vars.skip(1)[k]).0 < names by {
                            assert(vars.skip(1)[k] == vars[k + 1]);
                        }
                    }
                    assert(all_scoped(s.args.skip(1), env, names)) by {
                        assert forall|i: int| 0 <= i < s.args.skip(1).len() implies scoped(
                            #[trigger] s.args.skip(1)[i],
                            env,
                            names,
                        ) by {
                            assert(s.args.skip(1)[i] == s.args[i + 1]);
                        }
                    }
                    lemma_drive_scoped(next, s.args.skip(1), b.copies, fuel, env, names);
                }
            }
        }
    }
}

/// Whether the open scopes are those of the environment `env`, and hold
/// registered names only.
pub open spec fn scopes_match(scopes: Seq<Scope>, env: Seq<nat>, names: nat) -> bool {
    &&& scopes.len() == env.len()
    &&& forall|s: int| 0 <= s < scopes.len() ==> (#[trigger] scopes[s]).len() == env[s]
    &&& forall|s: int, j: int|
        0 <= s < scopes.len() && 0 <= j < scopes[s].len() ==> (#[trigger] scopes[s][j]).0 < names
}

/// The scope that an abstraction with registered names opens has an entry for
/// each parameter, under a registered name.
pub proof fn lemma_scope_of_scoped(
    reg: Registry,
    vars: Seq<(nat, nat)>,
    k: nat,
    acc: Scope,
    scopes: Seq<Scope>,
)
    requires
        reg.wf(),
        k <= vars.len(),
        acc.len() == k,
        forall|j: int| 0 <= j < vars.len() ==> (#[trigger] vars[j]).0 < reg.names.len(),
        forall|j: int| 0 <= j < acc.len() ==> (#[trigger] acc[j]).0 < reg.names.len(),
    ensures
        failing(scope_of(reg, vars, k, acc, scopes)),
        scope_of(reg, vars, k, acc, scopes) matches Ok(scope) ==> scope.len() == vars.len()
            && forall|j: int| 0 <= j < scope.len() ==> (#[trigger] scope[j]).0 < reg.names.len(),
    decreases vars.len() - k,
{
    if k < vars.len() {
        let id = reg.canonical(vars[k as int].0);
        let suffix = crate::printer::uses(scopes, id) + crate::printer::uses_in(acc, id);
        assert(vars[k as int].0 < reg.names.len());
        assert(id < reg.names.len());
        if suffix < usize::MAX {
            lemma_scope_of_scoped(reg, vars, k + 1, acc.push((id, suffix)), scopes);
        }
    }
}

/// A scoped tree can be rendered: the rendering fails by a size limit only.
pub proof fn lemma_render_scoped(t: Term, reg: Registry, scopes: Seq<Scope>, root: bool, env: Seq<nat>)
    requires
        reg.wf(),
        scoped(t, env, reg.names.len()),
        scopes_match(scopes, env, reg.names.len()),
    ensures
        failing(render(t, reg, scopes, root)),
    decreases t, 0nat,
{
    match t {
        Term::Func { vars, inner } => {
            lemma_scope_of_scoped(reg, vars, 0, Seq::empty(), scopes);
            if let Ok(scope) = scope_of(reg, vars, 0, Seq::empty(), scopes) {
                lemma_render_spine_scoped(
                    inner,
                    0,
                    Seq::empty(),
                    reg,
                    scopes.push(scope),
                    env.push(vars.len()),
                );
            }
        },
        Term::Var { depth, position } => {
            let scope = scopes[scopes.len() - 1 - depth];
            assert(scope.len() == env[env.len() - 1 - depth]);
            assert(scope[position as int].0 < reg.names.len());
        },
        Term::Free { name } => {},
    }
}

/// A spine of scoped trees can be rendered.
pub proof fn lemma_render_spine_scoped(
    ts: Seq<Term>,
    k: nat,
    acc: Seq<char>,
    reg: Registry,
    scopes: Seq<Scope>,
    env: Seq<nat>,
)
    requires
        reg.wf(),
        k <= ts.len(),
        all_scoped(ts, env, reg.names.len()),
        scopes_match(scopes, env, reg.names.len()),
    ensures
        failing(render_spine(ts, k, acc, reg, scopes)),
    decreases ts, ts.len() - k,
{
    if k < ts.len() {
        lemma_render_scoped(ts[k as int], reg, scopes, false, env);
        if let Ok(s) = render(ts[k as int], reg, scopes, false) {
            lemma_render_spine_scoped(
                ts,
                k + 1,
                acc + if k + 1 < ts.len() {
                    s.push(' ')
                } else {
                    s
                },
                reg,
                scopes,
                env,
            );
        }
    }
}

} // verus!
