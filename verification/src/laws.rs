//! What holds whatever the expression: a reduced tree is in normal form,
//! reducing it again changes nothing, the identity applied to a closed normal
//! form gives that normal form, and two open parameters that are shown under
//! one name differ in their suffixes.

use vstd::prelude::*;
use crate::errors::Fault;
use crate::naming::Registry;
use crate::printer::{scope_of, uses, uses_in, Scope};
use crate::term::{
    clone_all,
    clone_term,
    drive_term,
    expand_term,
    is_wrapper,
    lower_each,
    lower_term,
    reduce_all,
    reduce_term,
    settle_term,
    subst_all,
    subst_term,
    takes_argument,
    Driven,
    Reduced,
    ReducedAll,
    Spine,
    Substituted,
    SubstitutedAll,
    Term,
};

verus! {

/// Whether `t` is in normal form, as far as `fuel` nested reductions see: no
/// spine begins with a wrapper, none of two or more elements begins with an
/// abstraction that still takes an argument, no spine of one element stands
/// under no parameter, and every element is in normal form.
pub open spec fn settled(t: Term, fuel: nat) -> bool
    decreases t,
{
    match t {
        Term::Func { vars, inner } => inner.len() == 0 || {
            &&& fuel > 0
            &&& !(vars.len() == 0 && inner.len() == 1)
            &&& !is_wrapper(inner[0])
            &&& inner.len() >= 2 ==> !takes_argument(inner[0])
            &&& forall|i: int| 0 <= i < inner.len() ==> settled(#[trigger] inner[i], (fuel - 1) as nat)
        },
        _ => true,
    }
}

/// Whether every reference of `t` stays inside `t`, where `level`
/// abstractions of `t` enclose the part looked at.
pub open spec fn closed_below(t: Term, level: nat) -> bool
    decreases t,
{
    match t {
        Term::Func { vars, inner } => forall|i: int|
            0 <= i < inner.len() ==> closed_below(#[trigger] inner[i], level + 1),
        Term::Var { depth, position } => depth < level,
        Term::Free { name } => true,
    }
}

/// What holds of a head that has been driven: it is in normal form, it is no
/// wrapper, and where arguments are left it takes none.
pub open spec fn driven(d: Driven, fuel: nat) -> bool {
    &&& settled(d.head, fuel)
    &&& !is_wrapper(d.head)
    &&& d.args.len() > 0 ==> !takes_argument(d.head)
}

/// A normal form stays one where more reductions may nest.
pub proof fn lemma_settled_more_fuel(t: Term, fuel: nat, more: nat)
    requires
        settled(t, fuel),
        fuel <= more,
    ensures
        settled(t, more),
    decreases t,
{
    match t {
        Term::Func { vars, inner } => {
            if inner.len() > 0 {
                assert forall|i: int| 0 <= i < inner.len() implies settled(
                    #[trigger] inner[i],
                    (more - 1) as nat,
                ) by {
                    lemma_settled_more_fuel(inner[i], (fuel - 1) as nat, (more - 1) as nat);
                }
            }
        },
        _ => {},
    }
}

/// Lowering keeps a normal form.
pub proof fn lemma_lower_settled(t: Term, cutoff: nat, fuel: nat)
    requires
        settled(t, fuel),
    ensures
        settled(lower_term(t, cutoff), fuel),
        is_wrapper(lower_term(t, cutoff)) == is_wrapper(t),
        takes_argument(lower_term(t, cutoff)) == takes_argument(t),
    decreases t,
{
    match t {
        Term::Func { vars, inner } => {
            let low = lower_term(t, cutoff);
            if inner.len() > 0 {
                assert forall|i: int| 0 <= i < inner.len() implies settled(
                    #[trigger] low->inner[i],
                    (fuel - 1) as nat,
                ) by {
                    lemma_lower_settled(inner[i], cutoff + 1, (fuel - 1) as nat);
                }
                lemma_lower_settled(inner[0], cutoff + 1, (fuel - 1) as nat);
            }
        },
        _ => {},
    }
}

/// Lowering a tree whose references stay inside it changes nothing.
pub proof fn lemma_lower_closed(t: Term, level: nat, cutoff: nat)
    requires
        closed_below(t, level),
        level <= cutoff + 1,
    ensures
        lower_term(t, cutoff) == t,
    decreases t,
{
    match t {
        Term::Func { vars, inner } => {
            assert forall|i: int| 0 <= i < inner.len() implies lower_term(inner[i], cutoff + 1)
                == inner[i] by {
                lemma_lower_closed(inner[i], level + 1, cutoff + 1);
            }
            assert(lower_term(t, cutoff)->inner =~= inner);
        },
        _ => {},
    }
}

/// Taking the wrappers away from a normal form gives a head in normal form
/// that is no wrapper; it takes no argument where it has brought arguments.
pub proof fn lemma_expand_settled(head: Term, args: Seq<Term>, fuel: nat)
    requires
        settled(head, fuel),
    ensures
        settled(expand_term(head, args).head, fuel),
        !is_wrapper(expand_term(head, args).head),
        expand_term(head, args).args.len() >= args.len(),
        expand_term(head, args).args.len() != args.len() ==> !takes_argument(
            expand_term(head, args).head,
        ),
        !is_wrapper(head) ==> expand_term(head, args) == (Spine { head, args }),
{
    if is_wrapper(head) {
        let inner = head->inner;
        let first = lower_term(inner[0], 0);
        let rest = lower_each(inner.skip(1), 0) + args;
        lemma_lower_settled(inner[0], 0, (fuel - 1) as nat);
        lemma_settled_more_fuel(first, (fuel - 1) as nat, fuel);
        assert(expand_term(first, rest) == (Spine { head: first, args: rest }));
    }
}

/// Reducing a head that is no wrapper and takes no argument changes nothing.
pub proof fn lemma_reduce_stuck(t: Term, copies: Seq<nat>, fuel: nat)
    requires
        !is_wrapper(t),
        !takes_argument(t),
    ensures
        reduce_term(t, copies, fuel) == Ok::<Reduced, Fault>(Reduced { term: t, copies }),
{
}

/// A tree that has been reduced is in normal form.
pub proof fn lemma_reduce_settles(t: Term, copies: Seq<nat>, fuel: nat)
    ensures
        reduce_term(t, copies, fuel) matches Ok(r) ==> settled(r.term, fuel),
    decreases fuel, 0nat, 0nat,
{
    match t {
        Term::Func { vars, inner } => {
            if inner.len() > 0 && fuel > 0 {
                let f = (fuel - 1) as nat;
                lemma_drive_settles(inner[0], inner.skip(1), copies, f);
                if let Ok(d) = drive_term(inner[0], inner.skip(1), copies, f) {
                    lemma_reduce_all_settles(d.args, 0, Seq::empty(), d.copies, f);
                    if let Ok(r) = reduce_all(d.args, 0, Seq::empty(), d.copies, f) {
                        let spine = seq![d.head] + r.terms;
                        if vars.len() == 0 && spine.len() == 1 {
                            lemma_lower_settled(d.head, 0, f);
                            lemma_settled_more_fuel(lower_term(d.head, 0), f, fuel);
                        } else {
                            assert forall|i: int| 0 <= i < spine.len() implies settled(
                                #[trigger] spine[i],
                                f,
                            ) by {
                                if i > 0 {
                                    assert(spine[i] == r.terms[i - 1]);
                                }
                            }
                            assert(spine[0] == d.head);
                        }
                    }
                }
            }
        },
        _ => {},
    }
}

/// Trees that have been reduced are in normal form.
pub proof fn lemma_reduce_all_settles(
    ts: Seq<Term>,
    k: nat,
    done: Seq<Term>,
    copies: Seq<nat>,
    fuel: nat,
)
    requires
        k <= ts.len(),
        forall|i: int| 0 <= i < done.len() ==> settled(#[trigger] done[i], fuel),
    ensures
        reduce_all(ts, k, done, copies, fuel) matches Ok(r) ==> r.terms.len() == done.len()
            + ts.len() - k && forall|i: int|
            0 <= i < r.terms.len() ==> settled(#[trigger] r.terms[i], fuel),
    decreases fuel, 1nat, ts.len() - k,
{
    if k < ts.len() {
        lemma_reduce_settles(ts[k as int], copies, fuel);
        if let Ok(r) = reduce_term(ts[k as int], copies, fuel) {
            lemma_reduce_all_settles(ts, k + 1, done.push(r.term), r.copies, fuel);
        }
    }
}

/// A head that has been reduced once more and freed of its wrappers is in
/// normal form and no wrapper; it takes no argument where taking the wrappers
/// away has brought arguments.
pub proof fn lemma_settle_settles(head: Term, args: Seq<Term>, copies: Seq<nat>, fuel: nat)
    ensures
        settle_term(head, args, copies, fuel) matches Ok(d) ==> settled(d.head, fuel)
            && !is_wrapper(d.head) && (d.args.len() != args.len() ==> !takes_argument(d.head)),
    decreases fuel, 1nat, 0nat,
{
    lemma_reduce_settles(head, copies, fuel);
    if let Ok(r) = reduce_term(head, copies, fuel) {
        lemma_expand_settled(r.term, args, fuel);
    }
}

/// A head that has been driven against its arguments is in normal form, and
/// takes none of the arguments that are left.
pub proof fn lemma_drive_settles(head: Term, args: Seq<Term>, copies: Seq<nat>, fuel: nat)
    ensures
        drive_term(head, args, copies, fuel) matches Ok(d) ==> driven(d, fuel),
    decreases fuel, 2nat, args.len(),
{
    if args.len() == 0 {
        lemma_settle_settles(head, args, copies, fuel);
    } else {
        lemma_reduce_settles(head, copies, fuel);
        if let Ok(r) = reduce_term(head, copies, fuel) {
            let s = expand_term(r.term, args);
            lemma_expand_settled(r.term, args, fuel);
            if s.args.len() != args.len() || !takes_argument(s.head) {
                lemma_reduce_stuck(s.head, r.copies, fuel);
                lemma_expand_settled(s.head, s.args, fuel);
                assert(settle_term(s.head, s.args, r.copies, fuel) == Ok::<Driven, Fault>(
                    Driven { head: s.head, args: s.args, copies: r.copies },
                ));
            } else {
                if let Ok(b) = subst_all(s.head->inner, 0, Seq::empty(), s.args[0], r.copies, 0) {
                    lemma_drive_settles(
                        Term::Func { vars: s.head->vars.skip(1), inner: b.bodies },
                        s.args.skip(1),
                        b.copies,
                        fuel,
                    );
                }
            }
        }
    }
}

/// Where taking the wrappers away from a reduced head brings new arguments,
/// the head takes none of them: the drive would end there in any case.
pub proof fn lemma_new_arguments_end_the_drive(
    head: Term,
    args: Seq<Term>,
    copies: Seq<nat>,
    fuel: nat,
)
    ensures
        reduce_term(head, copies, fuel) matches Ok(r) ==> (expand_term(r.term, args).args.len()
            != args.len() ==> !takes_argument(expand_term(r.term, args).head)),
{
    lemma_reduce_settles(head, copies, fuel);
    if let Ok(r) = reduce_term(head, copies, fuel) {
        lemma_expand_settled(r.term, args, fuel);
    }
}

/// Reducing a normal form changes nothing: neither the tree nor the
/// counters.
pub proof fn lemma_settled_fixed(t: Term, copies: Seq<nat>, fuel: nat)
    requires
        settled(t, fuel),
    ensures
        reduce_term(t, copies, fuel) == Ok::<Reduced, Fault>(Reduced { term: t, copies }),
    decreases fuel, 0nat,
{
    match t {
        Term::Func { vars, inner } => {
            if inner.len() > 0 {
                let f = (fuel - 1) as nat;
                let head = inner[0];
                let args = inner.skip(1);
                lemma_settled_fixed(head, copies, f);
                lemma_expand_settled(head, args, f);
                assert(settle_term(head, args, copies, f) == Ok::<Driven, Fault>(
                    Driven { head, args, copies },
                ));
                assert(drive_term(head, args, copies, f) == Ok::<Driven, Fault>(
                    Driven { head, args, copies },
                ));
                assert forall|i: int| 0 <= i < args.len() implies settled(#[trigger] args[i], f) by {
                    assert(args[i] == inner[i + 1]);
                }
                lemma_settled_all_fixed(args, 0, copies, f);
                assert(args.take(0) =~= Seq::<Term>::empty());
                assert(seq![head] + args =~= inner);
            }
        },
        _ => {},
    }
}

/// Reducing normal forms one after the other changes nothing.
pub proof fn lemma_settled_all_fixed(ts: Seq<Term>, k: nat, copies: Seq<nat>, fuel: nat)
    requires
        k <= ts.len(),
        forall|i: int| 0 <= i < ts.len() ==> settled(#[trigger] ts[i], fuel),
    ensures
        reduce_all(ts, k, ts.take(k as int), copies, fuel) == Ok::<ReducedAll, Fault>(
            ReducedAll { terms: ts, copies },
        ),
    decreases fuel, 1nat, ts.len() - k,
{
    if k >= ts.len() {
        assert(ts.take(k as int) =~= ts);
    } else {
        lemma_settled_fixed(ts[k as int], copies, fuel);
        lemma_settled_all_fixed(ts, k + 1, copies, fuel);
        assert(ts.take(k as int).push(ts[k as int]) =~= ts.take(k as int + 1));
    }
}

/// Reduction is idempotent: a tree that has been reduced is reduced to
/// itself, with the counters as they are.
pub proof fn lemma_reduce_idempotent(t: Term, copies: Seq<nat>, fuel: nat)
    ensures
        reduce_term(t, copies, fuel) matches Ok(r) ==> reduce_term(r.term, r.copies, fuel)
            == Ok::<Reduced, Fault>(r),
{
    lemma_reduce_settles(t, copies, fuel);
    if let Ok(r) = reduce_term(t, copies, fuel) {
        lemma_settled_fixed(r.term, r.copies, fuel);
    }
}

/// The copy of a tree whose references stay inside it is the tree itself.
pub proof fn lemma_clone_closed(t: Term, copies: Seq<nat>, offset: nat, level: nat)
    requires
        closed_below(t, level),
    ensures
        clone_term(t, copies, offset, level) matches Ok(c) ==> c.copy == t,
    decreases t, 0nat,
{
    match t {
        Term::Func { vars, inner } => {
            if let Ok((minted, c1)) = crate::term::mint_vars(vars, 0, Seq::empty(), copies) {
                lemma_clone_all_closed(
                    inner,
                    0,
                    Seq::empty(),
                    Seq::empty(),
                    c1,
                    offset,
                    level + 1,
                );
                assert(inner.take(0) =~= Seq::<Term>::empty());
            }
        },
        _ => {},
    }
}

/// The copies of trees whose references stay inside them are the trees
/// themselves.
pub proof fn lemma_clone_all_closed(
    ts: Seq<Term>,
    k: nat,
    done: Seq<Term>,
    kept: Seq<Term>,
    copies: Seq<nat>,
    offset: nat,
    level: nat,
)
    requires
        k <= ts.len(),
        done =~= ts.take(k as int),
        forall|i: int| 0 <= i < ts.len() ==> closed_below(#[trigger] ts[i], level),
    ensures
        clone_all(ts, k, done, kept, copies, offset, level) matches Ok(all) ==> all.copies_of == ts,
    decreases ts, ts.len() - k,
{
    if k >= ts.len() {
        assert(ts.take(k as int) =~= ts);
    } else {
        lemma_clone_closed(ts[k as int], copies, offset, level);
        if let Ok(c) = clone_term(ts[k as int], copies, offset, level) {
            assert(done.push(c.copy) =~= ts.take(k as int + 1));
            lemma_clone_all_closed(
                ts,
                k + 1,
                done.push(c.copy),
                kept.push(c.source),
                c.copies,
                offset,
                level,
            );
        }
    }
}

/// The identity, binding the parameter `x`.
pub open spec fn identity(x: (nat, nat)) -> Term {
    Term::Func { vars: seq![x], inner: seq![Term::Var { depth: 0, position: 0 }] }
}

/// The identity applied to `m`.
pub open spec fn identity_applied(x: (nat, nat), m: Term) -> Term {
    Term::Func { vars: Seq::empty(), inner: seq![identity(x), m] }
}

/// The trees that stand behind the head once the wrappers of a closed normal
/// form have been taken away, and that head.
proof fn lemma_expand_closed(m: Term, fuel: nat)
    requires
        closed_below(m, 0),
        settled(m, fuel),
    ensures
        !is_wrapper(m) ==> expand_term(m, Seq::empty()) == (Spine { head: m, args: Seq::empty() }),
        is_wrapper(m) ==> expand_term(m, Seq::empty()) == (Spine {
            head: m->inner[0],
            args: m->inner.skip(1),
        }),
{
    if is_wrapper(m) {
        let inner = m->inner;
        let first = lower_term(inner[0], 0);
        let rest = lower_each(inner.skip(1), 0) + Seq::<Term>::empty();
        lemma_lower_closed(inner[0], 1, 0);
        assert forall|i: int| 0 <= i < inner.skip(1).len() implies lower_term(
            inner.skip(1)[i],
            0,
        ) == inner.skip(1)[i] by {
            assert(inner.skip(1)[i] == inner[i + 1]);
            lemma_lower_closed(inner[i + 1], 1, 0);
        }
        assert(rest =~= inner.skip(1));
        assert(expand_term(first, rest) == (Spine { head: first, args: rest }));
    }
}

/// A spine that holds a closed normal form alone, under no parameter,
/// reduces to that normal form.
proof fn lemma_wrapped_closed(vars: Seq<(nat, nat)>, m: Term, copies: Seq<nat>, fuel: nat)
    requires
        vars.len() == 0,
        closed_below(m, 0),
        fuel >= 1,
        settled(m, (fuel - 1) as nat),
    ensures
        reduce_term(Term::Func { vars, inner: seq![m] }, copies, fuel) == Ok::<Reduced, Fault>(
            Reduced { term: m, copies },
        ),
{
    let f = (fuel - 1) as nat;
    let w = Term::Func { vars, inner: seq![m] };
    let none = Seq::<Term>::empty();
    assert(w->inner.skip(1) =~= none);
    lemma_settled_fixed(m, copies, f);
    lemma_expand_closed(m, f);
    let s = expand_term(m, none);
    assert(settle_term(m, none, copies, f) == Ok::<Driven, Fault>(
        Driven { head: s.head, args: s.args, copies },
    ));
    assert(drive_term(m, none, copies, f) == Ok::<Driven, Fault>(
        Driven { head: s.head, args: s.args, copies },
    ));
    if is_wrapper(m) {
        let inner = m->inner;
        assert forall|i: int| 0 <= i < s.args.len() implies settled(#[trigger] s.args[i], f) by {
            assert(s.args[i] == inner[i + 1]);
            lemma_settled_more_fuel(inner[i + 1], (f - 1) as nat, f);
        }
        lemma_settled_all_fixed(s.args, 0, copies, f);
        assert(s.args.take(0) =~= none);
        assert(seq![s.head] + s.args =~= inner);
        assert(vars =~= m->vars);
    } else {
        assert(seq![s.head] + none =~= seq![m]);
        lemma_lower_closed(m, 0, 0);
    }
}

/// The identity law: the identity applied to a closed normal form reduces to
/// that normal form, tree for tree, wherever the normal form can be copied;
/// where it cannot, the reduction fails as the copying does.
pub proof fn lemma_identity(x: (nat, nat), m: Term, copies: Seq<nat>, fuel: nat)
    requires
        closed_below(m, 0),
        fuel >= 2,
        settled(m, (fuel - 2) as nat),
    ensures
        match clone_term(m, copies, 0, 0) {
            Ok(c) => reduce_term(identity_applied(x, m), copies, fuel) == Ok::<Reduced, Fault>(
                Reduced { term: m, copies: c.copies },
            ),
            Err(e) => reduce_term(identity_applied(x, m), copies, fuel) == Err::<Reduced, Fault>(e),
        },
{
    let f1 = (fuel - 1) as nat;
    let f2 = (fuel - 2) as nat;
    let id = identity(x);
    let var = Term::Var { depth: 0, position: 0 };
    let t = identity_applied(x, m);
    let none = Seq::<Term>::empty();
    let args = t->inner.skip(1);
    assert(args =~= seq![m]);
    assert(settled(var, f2));
    assert(id->inner.len() == 1 && id->inner[0] == var && id->vars.len() == 1);
    assert(settled(id, f1));
    lemma_settled_fixed(id, copies, f1);
    assert(expand_term(id, args) == (Spine { head: id, args }));
    lemma_clone_closed(m, copies, 0, 0);
    let sub = subst_term(var, m, copies, 0);
    match clone_term(m, copies, 0, 0) {
        Err(e) => {
            assert(sub == Err::<Substituted, Fault>(e));
            assert(subst_all(id->inner, 0, none, args[0], copies, 0) == Err::<SubstitutedAll, Fault>(
                e,
            ));
            assert(drive_term(id, args, copies, f1) == Err::<Driven, Fault>(e));
        },
        Ok(c) => {
            assert(sub == Ok::<Substituted, Fault>(
                Substituted { body: m, beta: c.source, copies: c.copies },
            ));
            assert(subst_all(id->inner, 1, none.push(m), c.source, c.copies, 0) == Ok::<
                SubstitutedAll,
                Fault,
            >(SubstitutedAll { bodies: none.push(m), beta: c.source, copies: c.copies }));
            assert(subst_all(id->inner, 0, none, args[0], copies, 0) == Ok::<SubstitutedAll, Fault>(
                SubstitutedAll { bodies: none.push(m), beta: c.source, copies: c.copies },
            ));
            let vars = id->vars.skip(1);
            let w = Term::Func { vars, inner: none.push(m) };
            assert(none.push(m) =~= seq![m]);
            assert(args.skip(1) =~= none);
            lemma_settled_more_fuel(m, f2, f1);
            lemma_wrapped_closed(vars, m, c.copies, f1);
            lemma_expand_closed(m, f2);
            let s = expand_term(m, none);
            assert(settle_term(w, none, c.copies, f1) == Ok::<Driven, Fault>(
                Driven { head: s.head, args: s.args, copies: c.copies },
            ));
            assert(drive_term(w, none, c.copies, f1) == Ok::<Driven, Fault>(
                Driven { head: s.head, args: s.args, copies: c.copies },
            ));
            assert(drive_term(id, args, copies, f1) == Ok::<Driven, Fault>(
                Driven { head: s.head, args: s.args, copies: c.copies },
            ));
            if is_wrapper(m) {
                let inner = m->inner;
                assert forall|i: int| 0 <= i < s.args.len() implies settled(
                    #[trigger] s.args[i],
                    f1,
                ) by {
                    assert(s.args[i] == inner[i + 1]);
                    lemma_settled_more_fuel(inner[i + 1], (f2 - 1) as nat, f1);
                }
                lemma_settled_all_fixed(s.args, 0, c.copies, f1);
                assert(s.args.take(0) =~= none);
                assert(seq![s.head] + s.args =~= inner);
                assert(t->vars =~= m->vars);
            } else {
                assert(reduce_all(none, 0, none, c.copies, f1) == Ok::<ReducedAll, Fault>(
                    ReducedAll { terms: none, copies: c.copies },
                ));
                assert(seq![s.head] + none =~= seq![m]);
                lemma_lower_closed(m, 0, 0);
            }
        },
    }
}

/// The identity written before a spine.
pub open spec fn identity_before(x: (nat, nat), inner: Seq<Term>) -> Term {
    Term::Func { vars: Seq::empty(), inner: seq![identity(x)] + inner }
}

/// The identity law for a spine: the identity written before the elements of
/// a closed normal form of two or more elements reduces to that normal form,
/// wherever its first element can be copied; where it cannot, the reduction
/// fails as the copying does.
pub proof fn lemma_identity_before(x: (nat, nat), inner: Seq<Term>, copies: Seq<nat>, fuel: nat)
    requires
        inner.len() >= 2,
        fuel >= 2,
        forall|i: int| 0 <= i < inner.len() ==> closed_below(#[trigger] inner[i], 0),
        settled(Term::Func { vars: Seq::empty(), inner }, (fuel - 1) as nat),
    ensures
        match clone_term(inner[0], copies, 0, 0) {
            Ok(c) => reduce_term(identity_before(x, inner), copies, fuel) == Ok::<Reduced, Fault>(
                Reduced { term: Term::Func { vars: Seq::empty(), inner }, copies: c.copies },
            ),
            Err(e) => reduce_term(identity_before(x, inner), copies, fuel) == Err::<Reduced, Fault>(
                e,
            ),
        },
{
    let f1 = (fuel - 1) as nat;
    let f2 = (fuel - 2) as nat;
    let id = identity(x);
    let var = Term::Var { depth: 0, position: 0 };
    let t = identity_before(x, inner);
    let none = Seq::<Term>::empty();
    let first = inner[0];
    let rest = inner.skip(1);
    let args = t->inner.skip(1);
    assert(args =~= inner);
    assert(settled(var, f2));
    assert(id->inner.len() == 1 && id->inner[0] == var && id->vars.len() == 1);
    assert(settled(id, f1));
    lemma_settled_fixed(id, copies, f1);
    assert(expand_term(id, args) == (Spine { head: id, args }));
    lemma_clone_closed(first, copies, 0, 0);
    let sub = subst_term(var, first, copies, 0);
    match clone_term(first, copies, 0, 0) {
        Err(e) => {
            assert(sub == Err::<Substituted, Fault>(e));
            assert(subst_all(id->inner, 0, none, args[0], copies, 0) == Err::<SubstitutedAll, Fault>(
                e,
            ));
            assert(drive_term(id, args, copies, f1) == Err::<Driven, Fault>(e));
        },
        Ok(c) => {
            assert(sub == Ok::<Substituted, Fault>(
                Substituted { body: first, beta: c.source, copies: c.copies },
            ));
            assert(subst_all(id->inner, 1, none.push(first), c.source, c.copies, 0) == Ok::<
                SubstitutedAll,
                Fault,
            >(SubstitutedAll { bodies: none.push(first), beta: c.source, copies: c.copies }));
            assert(subst_all(id->inner, 0, none, args[0], copies, 0) == Ok::<SubstitutedAll, Fault>(
                SubstitutedAll { bodies: none.push(first), beta: c.source, copies: c.copies },
            ));
            let vars = id->vars.skip(1);
            let w = Term::Func { vars, inner: none.push(first) };
            assert(none.push(first) =~= seq![first]);
            assert(args.skip(1) =~= rest);
            assert(settled(first, f2));
            lemma_settled_more_fuel(first, f2, f1);
            lemma_wrapped_closed(vars, first, c.copies, f1);
            assert(!is_wrapper(first) && !takes_argument(first));
            assert(expand_term(first, rest) == (Spine { head: first, args: rest }));
            lemma_reduce_stuck(first, c.copies, f1);
            assert(settle_term(first, rest, c.copies, f1) == Ok::<Driven, Fault>(
                Driven { head: first, args: rest, copies: c.copies },
            ));
            assert(drive_term(w, rest, c.copies, f1) == Ok::<Driven, Fault>(
                Driven { head: first, args: rest, copies: c.copies },
            ));
            assert(drive_term(id, args, copies, f1) == Ok::<Driven, Fault>(
                Driven { head: first, args: rest, copies: c.copies },
            ));
            assert forall|i: int| 0 <= i < rest.len() implies settled(#[trigger] rest[i], f1) by {
                assert(rest[i] == inner[i + 1]);
                lemma_settled_more_fuel(inner[i + 1], f2, f1);
            }
            lemma_settled_all_fixed(rest, 0, c.copies, f1);
            assert(rest.take(0) =~= none);
            assert(seq![first] + rest =~= inner);
        },
    }
}

/// Whether every open parameter has for its suffix the number of the
/// parameters shown under its name that were opened before it.
pub open spec fn numbered(scopes: Seq<Scope>) -> bool {
    forall|s: int, j: int|
        0 <= s < scopes.len() && 0 <= j < scopes[s].len() ==> (#[trigger] scopes[s][j]).1 == uses(
            scopes.take(s),
            scopes[s][j].0,
        ) + uses_in(scopes[s].take(j), scopes[s][j].0)
}

/// One more entry of a scope counts where it is shown under the name.
proof fn lemma_uses_in_step(scope: Scope, j: int, id: nat)
    requires
        0 <= j < scope.len(),
    ensures
        uses_in(scope.take(j + 1), id) == uses_in(scope.take(j), id) + if scope[j].0 == id {
            1nat
        } else {
            0nat
        },
{
    assert(scope.take(j + 1).drop_last() =~= scope.take(j));
}

/// A longer beginning of a scope holds no fewer uses of a name.
proof fn lemma_uses_in_grows(scope: Scope, i: int, j: int, id: nat)
    requires
        0 <= i <= j <= scope.len(),
    ensures
        uses_in(scope.take(i), id) <= uses_in(scope.take(j), id),
    decreases j - i,
{
    if i < j {
        lemma_uses_in_step(scope, j - 1, id);
        lemma_uses_in_grows(scope, i, j - 1, id);
    }
}

/// One more scope counts with its uses of the name.
proof fn lemma_uses_step(scopes: Seq<Scope>, s: int, id: nat)
    requires
        0 <= s < scopes.len(),
    ensures
        uses(scopes.take(s + 1), id) == uses(scopes.take(s), id) + uses_in(scopes[s], id),
{
    assert(scopes.take(s + 1).drop_last() =~= scopes.take(s));
}

/// More scopes hold no fewer uses of a name.
proof fn lemma_uses_grows(scopes: Seq<Scope>, s: int, t: int, id: nat)
    requires
        0 <= s <= t <= scopes.len(),
    ensures
        uses(scopes.take(s), id) <= uses(scopes.take(t), id),
    decreases t - s,
{
    if s < t {
        lemma_uses_step(scopes, t - 1, id);
        lemma_uses_grows(scopes, s, t - 1, id);
    }
}

/// Among numbered scopes, a parameter that is opened after another of its
/// name has the greater suffix.
proof fn lemma_later_suffix_greater(scopes: Seq<Scope>, s1: int, j1: int, s2: int, j2: int)
    requires
        numbered(scopes),
        0 <= s1 < scopes.len(),
        0 <= j1 < scopes[s1].len(),
        0 <= s2 < scopes.len(),
        0 <= j2 < scopes[s2].len(),
        s1 < s2 || (s1 == s2 && j1 < j2),
        scopes[s1][j1].0 == scopes[s2][j2].0,
    ensures
        scopes[s1][j1].1 < scopes[s2][j2].1,
{
    let id = scopes[s1][j1].0;
    lemma_uses_in_step(scopes[s1], j1, id);
    if s1 == s2 {
        lemma_uses_in_grows(scopes[s1], j1 + 1, j2, id);
    } else {
        lemma_uses_in_grows(scopes[s1], j1 + 1, scopes[s1].len() as int, id);
        assert(scopes[s1].take(scopes[s1].len() as int) =~= scopes[s1]);
        lemma_uses_step(scopes, s1, id);
        lemma_uses_grows(scopes, s1 + 1, s2, id);
    }
}

/// Two parameters that are open at once and shown under one name differ in
/// their suffixes.
pub proof fn lemma_suffixes_distinct(scopes: Seq<Scope>, s1: int, j1: int, s2: int, j2: int)
    requires
        numbered(scopes),
        0 <= s1 < scopes.len(),
        0 <= j1 < scopes[s1].len(),
        0 <= s2 < scopes.len(),
        0 <= j2 < scopes[s2].len(),
        s1 != s2 || j1 != j2,
        scopes[s1][j1].0 == scopes[s2][j2].0,
    ensures
        scopes[s1][j1].1 != scopes[s2][j2].1,
{
    if s1 < s2 || (s1 == s2 && j1 < j2) {
        lemma_later_suffix_greater(scopes, s1, j1, s2, j2);
    } else {
        lemma_later_suffix_greater(scopes, s2, j2, s1, j1);
    }
}

/// The entries of the scope that an abstraction opens, where `acc` holds the
/// first `k` of them.
proof fn lemma_scope_entries(
    reg: Registry,
    vars: Seq<(nat, nat)>,
    k: nat,
    acc: Scope,
    scopes: Seq<Scope>,
)
    requires
        k <= vars.len(),
        acc.len() == k,
        forall|j: int|
            0 <= j < k ==> (#[trigger] acc[j]).1 == uses(scopes, acc[j].0) + uses_in(
                acc.take(j),
                acc[j].0,
            ),
    ensures
        scope_of(reg, vars, k, acc, scopes) matches Ok(scope) ==> scope.len() == vars.len()
            && forall|j: int|
            0 <= j < scope.len() ==> (#[trigger] scope[j]).1 == uses(scopes, scope[j].0) + uses_in(
                scope.take(j),
                scope[j].0,
            ),
    decreases vars.len() - k,
{
    if k < vars.len() {
        let id = reg.canonical(vars[k as int].0);
        let suffix = uses(scopes, id) + uses_in(acc, id);
        if !(id >= reg.names.len() || id >= reg.copies.len()) && suffix < usize::MAX {
            let next = acc.push((id, suffix));
            assert forall|j: int| 0 <= j < k + 1 implies (#[trigger] next[j]).1 == uses(
                scopes,
                next[j].0,
            ) + uses_in(next.take(j), next[j].0) by {
                assert(next.take(j) =~= acc.take(j));
                if j == k {
                    assert(acc.take(j) =~= acc);
                }
            }
            lemma_scope_entries(reg, vars, k + 1, next, scopes);
        }
    }
}

/// Opening an abstraction keeps the scopes numbered: so they are in every
/// rendering that starts with no scope open.
pub proof fn lemma_scope_numbered(reg: Registry, vars: Seq<(nat, nat)>, scopes: Seq<Scope>)
    requires
        numbered(scopes),
    ensures
        scope_of(reg, vars, 0, Seq::empty(), scopes) matches Ok(scope) ==> numbered(
            scopes.push(scope),
        ),
{
    lemma_scope_entries(reg, vars, 0, Seq::empty(), scopes);
    if let Ok(scope) = scope_of(reg, vars, 0, Seq::empty(), scopes) {
        let all = scopes.push(scope);
        assert forall|s: int, j: int| 0 <= s < all.len() && 0 <= j < all[s].len() implies (
        #[trigger] all[s][j]).1 == uses(all.take(s), all[s][j].0) + uses_in(
            all[s].take(j),
            all[s][j].0,
        ) by {
            if s < scopes.len() {
                assert(all.take(s) =~= scopes.take(s));
            } else {
                assert(all.take(s) =~= scopes);
            }
        }
    }
}

/// An expression that can be built fails by a size limit only: its reduction
/// and its rendering meet no reference without parameter and no name without
/// registration.
pub proof fn lemma_built_fails_by_size(tokens: Seq<crate::parser::Lexical>)
    requires
        tokens.len() <= usize::MAX,
    ensures
        crate::builder::build_spec(tokens) is Ok ==> crate::scoping::failing(
            crate::evaluate_tokens(tokens),
        ),
{
    crate::binding::lemma_build_well_formed(tokens);
    if let Ok(expr) = crate::builder::build_spec(tokens) {
        let fuel = crate::MAX_OBJECT_DEPTH as nat;
        let none = Seq::<nat>::empty();
        crate::scoping::lemma_reduce_scoped(
            expr.term,
            expr.registry.copies,
            fuel,
            none,
            expr.registry.names.len(),
        );
        if let Ok(reduced) = reduce_term(expr.term, expr.registry.copies, fuel) {
            let registry = Registry {
                names: expr.registry.names,
                copies: reduced.copies,
                renames: expr.registry.renames,
            };
            crate::scoping::lemma_render_scoped(reduced.term, registry, Seq::empty(), true, none);
        }
    }
}

/// A name inside the body of a keyword differs from every name that does
/// not begin with a dollar sign: the names of a keyword never meet those
/// written beside it.
pub proof fn lemma_qualified_apart(key: Seq<char>, name: Seq<char>, other: Seq<char>)
    requires
        other.len() == 0 || other[0] != '$',
    ensures
        crate::parser::qualified(Some(key), name) != other,
{
    reveal_strlit("$");
    let q = crate::parser::qualified(Some(key), name);
    assert(q.len() > 0 && q[0] == '$');
}

} // verus!
