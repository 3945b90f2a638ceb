//! The mathematical model of an expression tree.

use vstd::prelude::*;
use crate::errors::Fault;
use crate::MAX_OBJECT_DEPTH;

verus! {

/// An expression tree as a mathematical value.
pub enum Term {
    /// An abstraction: its parameters, each a name identity with a duplication
    /// id, and its application spine.
    Func { vars: Seq<(nat, nat)>, inner: Seq<Term> },
    /// A reference to a parameter of an enclosing abstraction.
    Var { depth: nat, position: nat },
    /// A free variable.
    Free { name: nat },
}

/// The tree with every reference that points past `cutoff` enclosing
/// abstractions moved one level shallower.
pub open spec fn lower_term(t: Term, cutoff: nat) -> Term
    decreases t,
{
    match t {
        Term::Func { vars, inner } => Term::Func {
            vars,
            inner: Seq::new(
                inner.len(),
                |i: int|
                    if 0 <= i < inner.len() {
                        lower_term(inner[i], cutoff + 1)
                    } else {
                        t
                    },
            ),
        },
        Term::Var { depth, position } => if depth > cutoff {
            Term::Var { depth: (depth - 1) as nat, position }
        } else {
            t
        },
        Term::Free { name } => t,
    }
}

/// Every reference depth in the tree is at most `bound`.
pub open spec fn bounded_term(t: Term, bound: nat) -> bool
    decreases t,
{
    match t {
        Term::Func { vars, inner } => forall|i: int|
            0 <= i < inner.len() ==> bounded_term(#[trigger] inner[i], bound),
        Term::Var { depth, position } => depth <= bound,
        Term::Free { name } => true,
    }
}

/// Lowering past a cutoff that no reference exceeds changes nothing.
pub proof fn lemma_lower_saturated(t: Term, cutoff: nat)
    requires
        bounded_term(t, cutoff),
    ensures
        lower_term(t, cutoff) == t,
    decreases t,
{
    match t {
        Term::Func { vars, inner } => {
            assert forall|i: int| 0 <= i < inner.len() implies lower_term(inner[i], cutoff + 1)
                == inner[i] by {
                lemma_bounded_weaken(inner[i], cutoff, cutoff + 1);
                lemma_lower_saturated(inner[i], cutoff + 1);
            }
            assert(lower_term(t, cutoff)->inner =~= inner);
        },
        _ => {},
    }
}

/// A bound on the reference depths may be raised.
pub proof fn lemma_bounded_weaken(t: Term, a: nat, b: nat)
    requires
        bounded_term(t, a),
        a <= b,
    ensures
        bounded_term(t, b),
    decreases t,
{
    match t {
        Term::Func { vars, inner } => {
            assert forall|i: int| 0 <= i < inner.len() implies bounded_term(
                #[trigger] inner[i],
                b,
            ) by {
                lemma_bounded_weaken(inner[i], a, b);
            }
        },
        _ => {},
    }
}

/// Every tree of `ts` lowered past `cutoff`.
pub open spec fn lower_each(ts: Seq<Term>, cutoff: nat) -> Seq<Term> {
    Seq::new(ts.len(), |i: int| lower_term(ts[i], cutoff))
}

/// Fresh duplication ids for the parameters `vars[k..]`, one after the other:
/// each takes the current counter of its name, which then goes up by one.
/// `acc` holds the parameters already done. The result is the parameters with
/// their new ids and the counters afterwards.
pub open spec fn mint_vars(vars: Seq<(nat, nat)>, k: nat, acc: Seq<(nat, nat)>, copies: Seq<nat>)
    -> Result<(Seq<(nat, nat)>, Seq<nat>), Fault>
    decreases vars.len() - k,
{
    if k >= vars.len() {
        Ok((acc, copies))
    } else {
        let name = vars[k as int].0;
        if name >= copies.len() {
            Err(Fault::InternalFailure)
        } else if copies[name as int] >= usize::MAX {
            Err(Fault::ExpressionSizeLimit)
        } else {
            mint_vars(
                vars,
                k + 1,
                acc.push((name, copies[name as int])),
                copies.update(name as int, copies[name as int] + 1),
            )
        }
    }
}

/// What copying a tree gives: the copy, the tree it was taken from (whose
/// abstractions have received fresh duplication ids), and the counters.
pub struct Copied {
    pub copy: Term,
    pub source: Term,
    pub copies: Seq<nat>,
}

/// What copying a sequence of trees gives.
pub struct CopiedAll {
    pub copies_of: Seq<Term>,
    pub sources: Seq<Term>,
    pub copies: Seq<nat>,
}

/// A copy of `t` for a site `offset` abstractions below the one whose parameter
/// it replaces. `level` counts the abstractions of `t` itself that enclose the
/// part being copied. References that stay inside `t` are kept; the others
/// move `offset + 1` levels out. The copy keeps the duplication ids; the source
/// gets fresh ones.
pub open spec fn clone_term(t: Term, copies: Seq<nat>, offset: nat, level: nat) -> Result<
    Copied,
    Fault,
>
    decreases t, 0nat,
{
    if offset + level > MAX_OBJECT_DEPTH {
        Err(Fault::ExpressionSizeLimit)
    } else {
        match t {
            Term::Var { depth, position } => if depth < level {
                Ok(Copied { copy: t, source: t, copies })
            } else if depth + offset + 1 > usize::MAX {
                Err(Fault::ExpressionSizeLimit)
            } else {
                Ok(
                    Copied {
                        copy: Term::Var { depth: depth + offset + 1, position },
                        source: t,
                        copies,
                    },
                )
            },
            Term::Free { name } => Ok(Copied { copy: t, source: t, copies }),
            Term::Func { vars, inner } => match mint_vars(vars, 0, Seq::empty(), copies) {
                Err(e) => Err(e),
                Ok((minted, c1)) => match clone_all(
                    inner,
                    0,
                    Seq::empty(),
                    Seq::empty(),
                    c1,
                    offset,
                    level + 1,
                ) {
                    Err(e) => Err(e),
                    Ok(all) => Ok(
                        Copied {
                            copy: Term::Func { vars, inner: all.copies_of },
                            source: Term::Func { vars: minted, inner: all.sources },
                            copies: all.copies,
                        },
                    ),
                },
            },
        }
    }
}

/// `clone_term` on `ts[k..]`, left to right; `done` and `kept` hold the copies
/// and the sources of `ts[..k]`.
pub open spec fn clone_all(
    ts: Seq<Term>,
    k: nat,
    done: Seq<Term>,
    kept: Seq<Term>,
    copies: Seq<nat>,
    offset: nat,
    level: nat,
) -> Result<CopiedAll, Fault>
    decreases ts, ts.len() - k,
{
    if k >= ts.len() {
        Ok(CopiedAll { copies_of: done, sources: kept, copies })
    } else {
        match clone_term(ts[k as int], copies, offset, level) {
            Err(e) => Err(e),
            Ok(c) => clone_all(ts, k + 1, done.push(c.copy), kept.push(c.source), c.copies, offset, level),
        }
    }
}

/// What substituting into a tree gives: the tree, the argument (whose
/// abstractions get fresh duplication ids with every copy taken), the counters.
pub struct Substituted {
    pub body: Term,
    pub beta: Term,
    pub copies: Seq<nat>,
}

/// What substituting into a sequence of trees gives.
pub struct SubstitutedAll {
    pub bodies: Seq<Term>,
    pub beta: Term,
    pub copies: Seq<nat>,
}

/// `t` with the argument `beta` in place of the first parameter of the
/// abstraction `level` levels out, and with the references to its later
/// parameters moved one position down.
pub open spec fn subst_term(t: Term, beta: Term, copies: Seq<nat>, level: nat) -> Result<
    Substituted,
    Fault,
>
    decreases t, 0nat,
{
    match t {
        Term::Free { name } => Ok(Substituted { body: t, beta, copies }),
        Term::Var { depth, position } => if depth == level {
            if position == 0 {
                match clone_term(beta, copies, level, 0) {
                    Err(e) => Err(e),
                    Ok(c) => Ok(Substituted { body: c.copy, beta: c.source, copies: c.copies }),
                }
            } else {
                Ok(
                    Substituted {
                        body: Term::Var { depth, position: (position - 1) as nat },
                        beta,
                        copies,
                    },
                )
            }
        } else {
            Ok(Substituted { body: t, beta, copies })
        },
        Term::Func { vars, inner } => match subst_all(inner, 0, Seq::empty(), beta, copies, level + 1) {
            Err(e) => Err(e),
            Ok(all) => Ok(
                Substituted {
                    body: Term::Func { vars, inner: all.bodies },
                    beta: all.beta,
                    copies: all.copies,
                },
            ),
        },
    }
}

/// `subst_term` on `ts[k..]`, left to right; `done` holds the results for
/// `ts[..k]`.
pub open spec fn subst_all(
    ts: Seq<Term>,
    k: nat,
    done: Seq<Term>,
    beta: Term,
    copies: Seq<nat>,
    level: nat,
) -> Result<SubstitutedAll, Fault>
    decreases ts, ts.len() - k,
{
    if k >= ts.len() {
        Ok(SubstitutedAll { bodies: done, beta, copies })
    } else {
        match subst_term(ts[k as int], beta, copies, level) {
            Err(e) => Err(e),
            Ok(s) => subst_all(ts, k + 1, done.push(s.body), s.beta, s.copies, level),
        }
    }
}

/// Substituting at a level that no reference reaches changes nothing.
pub proof fn lemma_subst_saturated(t: Term, beta: Term, copies: Seq<nat>, bound: nat, level: nat)
    requires
        bounded_term(t, bound),
        level > bound,
    ensures
        subst_term(t, beta, copies, level) == Ok::<Substituted, Fault>(
            Substituted { body: t, beta, copies },
        ),
    decreases t, 0nat,
{
    match t {
        Term::Func { vars, inner } => {
            lemma_subst_all_saturated(inner, 0, beta, copies, bound, level + 1);
            assert(inner.take(0) =~= Seq::<Term>::empty());
        },
        _ => {},
    }
}

/// Substituting into each tree at a level that no reference reaches changes
/// nothing.
pub proof fn lemma_subst_all_saturated(
    ts: Seq<Term>,
    k: nat,
    beta: Term,
    copies: Seq<nat>,
    bound: nat,
    level: nat,
)
    requires
        forall|i: int| 0 <= i < ts.len() ==> bounded_term(#[trigger] ts[i], bound),
        level > bound,
        k <= ts.len(),
    ensures
        subst_all(ts, k, ts.take(k as int), beta, copies, level) == Ok::<SubstitutedAll, Fault>(
            SubstitutedAll { bodies: ts, beta, copies },
        ),
    decreases ts, ts.len() - k,
{
    if k >= ts.len() {
        assert(ts.take(k as int) =~= ts);
    } else {
        lemma_subst_saturated(ts[k as int], beta, copies, bound, level);
        lemma_subst_all_saturated(ts, k + 1, beta, copies, bound, level);
        assert(ts.take(k as int).push(ts[k as int]) =~= ts.take(k as int + 1));
    }
}

/// Whether `t` is an abstraction without parameters whose spine is not empty:
/// a wrapper that can be taken away.
pub open spec fn is_wrapper(t: Term) -> bool {
    t matches Term::Func { vars, inner } && vars.len() == 0 && inner.len() > 0
}

/// How many wrappers stand one inside the other at the head of `t`.
pub open spec fn wrapper_depth(t: Term) -> nat
    decreases t,
{
    match t {
        Term::Func { vars, inner } => if vars.len() == 0 && inner.len() > 0 {
            1 + wrapper_depth(inner[0])
        } else {
            0
        },
        _ => 0,
    }
}

/// Lowering keeps the wrappers at the head.
pub proof fn lemma_wrapper_depth_lower(t: Term, cutoff: nat)
    ensures
        wrapper_depth(lower_term(t, cutoff)) == wrapper_depth(t),
    decreases t,
{
    match t {
        Term::Func { vars, inner } => {
            if vars.len() == 0 && inner.len() > 0 {
                lemma_wrapper_depth_lower(inner[0], cutoff + 1);
            }
        },
        _ => {},
    }
}

/// A head and the arguments that follow it.
pub struct Spine {
    pub head: Term,
    pub args: Seq<Term>,
}

/// Takes the wrappers at the head away: while the head is a wrapper, its first
/// element becomes the head and its other elements go in front of the
/// arguments, all of them lowered past the wrapper that went.
pub open spec fn expand_term(head: Term, args: Seq<Term>) -> Spine
    decreases wrapper_depth(head),
{
    match head {
        Term::Func { vars, inner } => if vars.len() == 0 && inner.len() > 0 {
            proof {
                lemma_wrapper_depth_lower(inner[0], 0);
            }
            expand_term(lower_term(inner[0], 0), lower_each(inner.skip(1), 0) + args)
        } else {
            Spine { head, args }
        },
        _ => Spine { head, args },
    }
}

/// Whether `t` is an abstraction that still has a parameter.
pub open spec fn takes_argument(t: Term) -> bool {
    t matches Term::Func { vars, inner } && vars.len() > 0
}

/// What reducing a tree gives: the tree and the counters.
pub struct Reduced {
    pub term: Term,
    pub copies: Seq<nat>,
}

/// What reducing a head against its arguments gives.
pub struct Driven {
    pub head: Term,
    pub args: Seq<Term>,
    pub copies: Seq<nat>,
}

/// What reducing a sequence of trees gives.
pub struct ReducedAll {
    pub terms: Seq<Term>,
    pub copies: Seq<nat>,
}

/// The normal-order reduction of `t`, with `fuel` nested reductions allowed.
/// The first element of the spine is driven against the others, which are
/// then reduced in turn; a spine of one element under no parameter gives way
/// to that element.
pub open spec fn reduce_term(t: Term, copies: Seq<nat>, fuel: nat) -> Result<Reduced, Fault>
    decreases fuel, 0nat, 0nat,
{
    match t {
        Term::Func { vars, inner } => if inner.len() == 0 {
            Ok(Reduced { term: t, copies })
        } else if fuel == 0 {
            Err(Fault::ExpressionSizeLimit)
        } else {
            match drive_term(inner[0], inner.skip(1), copies, (fuel - 1) as nat) {
                Err(e) => Err(e),
                Ok(d) => match reduce_all(d.args, 0, Seq::empty(), d.copies, (fuel - 1) as nat) {
                    Err(e) => Err(e),
                    Ok(r) => {
                        let spine = seq![d.head] + r.terms;
                        if vars.len() == 0 && spine.len() == 1 {
                            Ok(Reduced { term: lower_term(d.head, 0), copies: r.copies })
                        } else {
                            Ok(Reduced { term: Term::Func { vars, inner: spine }, copies: r.copies })
                        }
                    },
                },
            }
        },
        _ => Ok(Reduced { term: t, copies }),
    }
}

/// `reduce_term` on `ts[k..]`, left to right; `done` holds the results for
/// `ts[..k]`.
pub open spec fn reduce_all(ts: Seq<Term>, k: nat, done: Seq<Term>, copies: Seq<nat>, fuel: nat)
    -> Result<ReducedAll, Fault>
    decreases fuel, 1nat, ts.len() - k,
{
    if k >= ts.len() {
        Ok(ReducedAll { terms: done, copies })
    } else {
        match reduce_term(ts[k as int], copies, fuel) {
            Err(e) => Err(e),
            Ok(r) => reduce_all(ts, k + 1, done.push(r.term), r.copies, fuel),
        }
    }
}

/// The head reduced once more and its wrappers taken away: the last step of
/// driving a head.
pub open spec fn settle_term(head: Term, args: Seq<Term>, copies: Seq<nat>, fuel: nat) -> Result<
    Driven,
    Fault,
>
    decreases fuel, 1nat, 0nat,
{
    match reduce_term(head, copies, fuel) {
        Err(e) => Err(e),
        Ok(r) => {
            let s = expand_term(r.term, args);
            Ok(Driven { head: s.head, args: s.args, copies: r.copies })
        },
    }
}

/// Drives `head` against `args`: the head is reduced and its wrappers taken
/// away; then, as long as it is an abstraction with a parameter left and an
/// argument is there, the first argument is substituted for the first
/// parameter, and the same is done again. It ends where the arguments run out,
/// where the head takes no argument, or where taking the wrappers away has
/// brought new arguments.
pub open spec fn drive_term(head: Term, args: Seq<Term>, copies: Seq<nat>, fuel: nat) -> Result<
    Driven,
    Fault,
>
    decreases fuel, 2nat, args.len(),
{
    if args.len() == 0 {
        settle_term(head, args, copies, fuel)
    } else {
        match reduce_term(head, copies, fuel) {
            Err(e) => Err(e),
            Ok(r) => {
                let s = expand_term(r.term, args);
                if s.args.len() != args.len() || !takes_argument(s.head) {
                    settle_term(s.head, s.args, r.copies, fuel)
                } else {
                    match subst_all(s.head->inner, 0, Seq::empty(), s.args[0], r.copies, 0) {
                        Err(e) => Err(e),
                        Ok(b) => drive_term(
                            Term::Func { vars: s.head->vars.skip(1), inner: b.bodies },
                            s.args.skip(1),
                            b.copies,
                            fuel,
                        ),
                    }
                }
            },
        }
    }
}

} // verus!
