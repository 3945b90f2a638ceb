//! Expression trees and their reduction to normal form.

use vstd::prelude::*;
use std::collections::VecDeque;
use vstd::std_specs::vecdeque::VecDequeAdditionalSpecFns;
use crate::MAX_OBJECT_DEPTH;
use crate::errors::{Fault, LambdaError};
use crate::scoping::{lemma_reduce_scoped, scoped, well_formed};
use crate::naming::{counts, CopyID, NameID, NameSpace};
use crate::term::{
    bounded_term,
    clone_all,
    clone_term,
    drive_term,
    expand_term,
    lemma_lower_saturated,
    lemma_subst_all_saturated,
    lemma_subst_saturated,
    lemma_wrapper_depth_lower,
    lower_each,
    lower_term,
    mint_vars,
    reduce_all,
    reduce_term,
    settle_term,
    subst_all,
    subst_term,
    wrapper_depth,
    Term,
};

verus! {

/// A node of an expression tree.
#[derive(Debug, PartialEq, Eq)]
pub enum Object {
    /// An abstraction: its parameters, each a name with a duplication id, and
    /// its application spine.
    Func { vars: VecDeque<(NameID, CopyID)>, inner: VecDeque<Object> },
    /// A reference to the parameter `queue_position` of the abstraction
    /// `depth` levels out.
    Var { depth: usize, queue_position: usize },
    /// A free variable.
    Term { name: NameID },
}

/// A parameter as a pair of natural numbers.
pub open spec fn pair_view(p: (usize, usize)) -> (nat, nat) {
    (p.0 as nat, p.1 as nat)
}

/// The parameters held by a queue.
pub open spec fn params(vars: Seq<(usize, usize)>) -> Seq<(nat, nat)> {
    Seq::new(vars.len(), |i: int| pair_view(vars[i]))
}

/// The tree that a node stands for.
pub open spec fn object_term(o: Object) -> Term
    decreases o,
{
    match o {
        Object::Func { vars, inner } => Term::Func {
            vars: params(vars@),
            inner: Seq::new(
                inner@.len(),
                |i: int|
                    if 0 <= i < inner@.len() {
                        object_term(inner@[i])
                    } else {
                        Term::Free { name: 0 }
                    },
            ),
        },
        Object::Var { depth, queue_position } => Term::Var {
            depth: depth as nat,
            position: queue_position as nat,
        },
        Object::Term { name } => Term::Free { name: name as nat },
    }
}

impl View for Object {
    type V = Term;

    open spec fn view(&self) -> Term {
        object_term(*self)
    }
}

/// The trees that a queue of nodes stands for.
pub open spec fn terms(s: Seq<Object>) -> Seq<Term> {
    Seq::new(s.len(), |i: int| s[i]@)
}

/// The spine of an abstraction in memory is the spine of its tree.
pub proof fn lemma_func_view(o: Object)
    requires
        o is Func,
    ensures
        o@ == (Term::Func { vars: params(o->vars@), inner: terms(o->inner@) }),
{
    assert(o@->inner =~= terms(o->inner@));
}

/// The trees of a queue that has got one more node.
pub proof fn lemma_terms_push(s: Seq<Object>, x: Object)
    ensures
        terms(s.push(x)) == terms(s).push(x@),
{
    assert(terms(s.push(x)) =~= terms(s).push(x@));
}

/// No reference depth of a tree in memory exceeds the machine's largest index.
pub proof fn lemma_view_bounded(o: Object)
    ensures
        bounded_term(o@, usize::MAX as nat),
    decreases o,
{
    match o {
        Object::Func { vars, inner } => {
            assert forall|i: int| 0 <= i < o@->inner.len() implies bounded_term(
                #[trigger] o@->inner[i],
                usize::MAX as nat,
            ) by {
                assert(o@->inner[i] == inner@[i]@);
                lemma_view_bounded(inner@[i]);
            }
        },
        _ => {},
    }
}

/// Fresh duplication ids for the parameters `vars`, taken from `copies`.
fn mint(vars: &VecDeque<(NameID, CopyID)>, copies: &mut Vec<CopyID>) -> (r: Result<
    VecDeque<(NameID, CopyID)>,
    LambdaError,
>)
    ensures
        final(copies)@.len() == old(copies)@.len(),
        match mint_vars(params(vars@), 0, Seq::empty(), counts(old(copies)@)) {
            Ok((minted, c)) => r is Ok && params(r->Ok_0@) == minted && counts(final(copies)@) == c,
            Err(e) => r is Err && r->Err_0@ == e,
        },
{
    let mut out: VecDeque<(NameID, CopyID)> = VecDeque::new();
    let mut i: usize = 0;
    assert(params(out@) =~= Seq::<(nat, nat)>::empty());
    while i < vars.len()
        invariant
            i <= vars@.len(),
            copies@.len() == old(copies)@.len(),
            mint_vars(params(vars@), 0, Seq::empty(), counts(old(copies)@)) == mint_vars(
                params(vars@),
                i as nat,
                params(out@),
                counts(copies@),
            ),
        decreases vars@.len() - i,
    {
        let name = vars[i].0;
        if name >= copies.len() {
            return Err(LambdaError::InternalFailure);
        }
        let id = copies[name];
        if id == usize::MAX {
            return Err(LambdaError::ExpressionSizeLimit);
        }
        proof {
            assert(params(out@.push((name, id))) =~= params(out@).push((name as nat, id as nat)));
            assert(counts(copies@.update(name as int, (id + 1) as usize)) =~= counts(copies@).update(
                name as int,
                (id + 1) as nat,
            ));
        }
        out.push_back((name, id));
        copies.set(name, id + 1);
        i += 1;
    }
    Ok(out)
}

impl Object {
    /// A copy of this tree, and the tree itself, whose abstractions have got
    /// fresh duplication ids from `copies`.
    pub fn cloned(
        self,
        copies: &mut Vec<CopyID>,
        origin_offset: usize,
        recursion_depth: usize,
    ) -> (r: Result<(Object, Object), LambdaError>)
        ensures
            final(copies)@.len() == old(copies)@.len(),
            match clone_term(
                self@,
                counts(old(copies)@),
                origin_offset as nat,
                recursion_depth as nat,
            ) {
                Ok(c) => r is Ok && r->Ok_0.0@ == c.copy && r->Ok_0.1@ == c.source && counts(
                    final(copies)@,
                ) == c.copies,
                Err(e) => r is Err && r->Err_0@ == e,
            },
        decreases self, 0nat,
    {
        if origin_offset > MAX_OBJECT_DEPTH || recursion_depth > MAX_OBJECT_DEPTH - origin_offset {
            return Err(LambdaError::ExpressionSizeLimit);
        }
        match self {
            Object::Var { depth, queue_position } => {
                if depth < recursion_depth {
                    Ok((Object::Var { depth, queue_position }, Object::Var { depth, queue_position }))
                } else if depth > usize::MAX - origin_offset - 1 {
                    Err(LambdaError::ExpressionSizeLimit)
                } else {
                    Ok(
                        (
                            Object::Var { depth: depth + origin_offset + 1, queue_position },
                            Object::Var { depth, queue_position },
                        ),
                    )
                }
            },
            Object::Term { name } => Ok((Object::Term { name }, Object::Term { name })),
            Object::Func { vars, inner } => {
                proof {
                    lemma_func_view(self);
                }
                let minted = mint(&vars, copies)?;
                let (copied, kept) = Object::cloned_all(inner, copies, origin_offset, recursion_depth + 1)?;
                let copy = Object::Func { vars, inner: copied };
                let source = Object::Func { vars: minted, inner: kept };
                proof {
                    lemma_func_view(copy);
                    lemma_func_view(source);
                }
                Ok((copy, source))
            },
        }
    }

    /// `cloned` on each tree of a spine, left to right.
    #[verifier::loop_isolation(false)]
    fn cloned_all(
        inner: VecDeque<Object>,
        copies: &mut Vec<CopyID>,
        origin_offset: usize,
        recursion_depth: usize,
    ) -> (r: Result<(VecDeque<Object>, VecDeque<Object>), LambdaError>)
        ensures
            final(copies)@.len() == old(copies)@.len(),
            match clone_all(
                terms(inner@),
                0,
                Seq::empty(),
                Seq::empty(),
                counts(old(copies)@),
                origin_offset as nat,
                recursion_depth as nat,
            ) {
                Ok(c) => r is Ok && terms(r->Ok_0.0@) == c.copies_of && terms(r->Ok_0.1@)
                    == c.sources && counts(final(copies)@) == c.copies,
                Err(e) => r is Err && r->Err_0@ == e,
            },
        decreases inner, 1nat,
    {
        let ghost orig = inner@;
        let ghost want = clone_all(
            terms(orig),
            0,
            Seq::empty(),
            Seq::empty(),
            counts(copies@),
            origin_offset as nat,
            recursion_depth as nat,
        );
        let mut rest = inner;
        let mut done: VecDeque<Object> = VecDeque::new();
        let mut kept: VecDeque<Object> = VecDeque::new();
        assert(terms(done@) =~= Seq::<Term>::empty());
        while rest.len() > 0
            invariant
                copies@.len() == old(copies)@.len(),
                done@.len() + rest@.len() == orig.len(),
                kept@.len() == done@.len(),
                forall|j: int| 0 <= j < rest@.len() ==> rest@[j] == orig[done@.len() + j],
                want == clone_all(
                    terms(orig),
                    done@.len() as nat,
                    terms(done@),
                    terms(kept@),
                    counts(copies@),
                    origin_offset as nat,
                    recursion_depth as nat,
                ),
            decreases rest@.len(),
        {
            let x = rest.pop_front().unwrap();
            assert(decreases_to!(inner => inner[done@.len() as int]));
            assert(x == inner[done@.len() as int]);
            assert(terms(orig)[done@.len() as int] == x@);
            let (c, s) = x.cloned(copies, origin_offset, recursion_depth)?;
            proof {
                lemma_terms_push(done@, c);
                lemma_terms_push(kept@, s);
            }
            done.push_back(c);
            kept.push_back(s);
        }
        Ok((done, kept))
    }

    /// This tree with a copy of `beta` in place of each reference to the first
    /// parameter of the abstraction `recursion_depth` levels out, and `beta`
    /// as the copying has left it.
    pub fn apply_beta(self, copies: &mut Vec<CopyID>, beta: Object, recursion_depth: usize) -> (r:
        Result<(Object, Object), LambdaError>)
        ensures
            final(copies)@.len() == old(copies)@.len(),
            match subst_term(self@, beta@, counts(old(copies)@), recursion_depth as nat) {
                Ok(b) => r is Ok && r->Ok_0.0@ == b.body && r->Ok_0.1@ == b.beta && counts(
                    final(copies)@,
                ) == b.copies,
                Err(e) => r is Err && r->Err_0@ == e,
            },
        decreases self, 0nat,
    {
        match self {
            Object::Term { name } => Ok((Object::Term { name }, beta)),
            Object::Var { depth, queue_position } => {
                if depth == recursion_depth {
                    if queue_position == 0 {
                        let (copy, source) = beta.cloned(copies, recursion_depth, 0)?;
                        Ok((copy, source))
                    } else {
                        Ok((Object::Var { depth, queue_position: queue_position - 1 }, beta))
                    }
                } else {
                    Ok((Object::Var { depth, queue_position }, beta))
                }
            },
            Object::Func { vars, inner } => {
                proof {
                    lemma_func_view(self);
                }
                if recursion_depth == usize::MAX {
                    proof {
                        lemma_view_bounded(self);
                        lemma_subst_saturated(
                            self@,
                            beta@,
                            counts(copies@),
                            usize::MAX as nat,
                            recursion_depth as nat + 1,
                        );
                        lemma_subst_all_saturated(
                            terms(inner@),
                            0,
                            beta@,
                            counts(copies@),
                            usize::MAX as nat,
                            recursion_depth as nat + 1,
                        );
                        assert(terms(inner@).take(0) =~= Seq::<Term>::empty());
                    }
                    return Ok((Object::Func { vars, inner }, beta));
                }
                let (bodies, beta) = Object::apply_beta_all(inner, copies, beta, recursion_depth + 1)?;
                let out = Object::Func { vars, inner: bodies };
                proof {
                    lemma_func_view(out);
                }
                Ok((out, beta))
            },
        }
    }

    /// `apply_beta` on each tree of a spine, left to right.
    #[verifier::loop_isolation(false)]
    fn apply_beta_all(
        inner: VecDeque<Object>,
        copies: &mut Vec<CopyID>,
        beta: Object,
        recursion_depth: usize,
    ) -> (r: Result<(VecDeque<Object>, Object), LambdaError>)
        ensures
            final(copies)@.len() == old(copies)@.len(),
            match subst_all(
                terms(inner@),
                0,
                Seq::empty(),
                beta@,
                counts(old(copies)@),
                recursion_depth as nat,
            ) {
                Ok(b) => r is Ok && terms(r->Ok_0.0@) == b.bodies && r->Ok_0.1@ == b.beta && counts(
                    final(copies)@,
                ) == b.copies,
                Err(e) => r is Err && r->Err_0@ == e,
            },
        decreases inner, 1nat,
    {
        let ghost orig = inner@;
        let ghost want = subst_all(
            terms(orig),
            0,
            Seq::empty(),
            beta@,
            counts(copies@),
            recursion_depth as nat,
        );
        let mut rest = inner;
        let mut beta = beta;
        let mut done: VecDeque<Object> = VecDeque::new();
        assert(terms(done@) =~= Seq::<Term>::empty());
        while rest.len() > 0
            invariant
                copies@.len() == old(copies)@.len(),
                done@.len() + rest@.len() == orig.len(),
                forall|j: int| 0 <= j < rest@.len() ==> rest@[j] == orig[done@.len() + j],
                want == subst_all(
                    terms(orig),
                    done@.len() as nat,
                    terms(done@),
                    beta@,
                    counts(copies@),
                    recursion_depth as nat,
                ),
            decreases rest@.len(),
        {
            let x = rest.pop_front().unwrap();
            assert(decreases_to!(inner => inner[done@.len() as int]));
            assert(x == inner[done@.len() as int]);
            assert(terms(orig)[done@.len() as int] == x@);
            let (body, b) = x.apply_beta(copies, beta, recursion_depth)?;
            proof {
                lemma_terms_push(done@, body);
            }
            done.push_back(body);
            beta = b;
        }
        Ok((done, beta))
    }

    /// Takes the wrappers at the head away: while this tree is an abstraction
    /// without parameters whose spine is not empty, its first element takes
    /// its place and the others go in front of `objects`.
    #[verifier::loop_isolation(false)]
    pub fn expand_closures(self, objects: &mut VecDeque<Object>) -> (out: Object)
        ensures
            out@ == expand_term(self@, terms(old(objects)@)).head,
            terms(final(objects)@) == expand_term(self@, terms(old(objects)@)).args,
    {
        let mut head = self;
        loop
            invariant
                expand_term(self@, terms(old(objects)@)) == expand_term(head@, terms(objects@)),
            decreases wrapper_depth(head@),
        {
            match head {
                Object::Func { vars, inner } => {
                    proof {
                        lemma_func_view(head);
                    }
                    if vars.len() == 0 && inner.len() > 0 {
                        let ghost args = terms(objects@);
                        let ghost spine = terms(inner@);
                        let mut rest = inner;
                        let first = rest.pop_front().unwrap();
                        let ghost others = rest@;
                        assert(terms(others) =~= spine.skip(1));
                        while rest.len() > 0
                            invariant
                                rest@.len() <= others.len(),
                                rest@ == others.take(rest@.len() as int),
                                terms(objects@) == lower_each(
                                    terms(others).skip(rest@.len() as int),
                                    0,
                                ) + args,
                            decreases rest@.len(),
                        {
                            let ghost n = rest@.len();
                            let ghost prev = objects@;
                            let o = rest.pop_back().unwrap();
                            assert(o == others[n - 1]);
                            let low = o.lower(0);
                            objects.push_front(low);
                            assert(rest@ =~= others.take(n - 1));
                            assert(terms(objects@) =~= seq![low@] + terms(prev));
                            assert(lower_each(terms(others).skip(n - 1), 0) =~= seq![low@]
                                + lower_each(terms(others).skip(n as int), 0));
                            assert(terms(objects@) =~= lower_each(
                                terms(others).skip(n - 1),
                                0,
                            ) + args);
                        }
                        assert(terms(others).skip(0) =~= terms(others));
                        proof {
                            lemma_wrapper_depth_lower(first@, 0);
                        }
                        head = first.lower(0);
                    } else {
                        return Object::Func { vars, inner };
                    }
                },
                other => {
                    return other;
                },
            }
        }
    }

    /// Drives this tree, the head of a spine, against the arguments `objects`
    /// that follow it.
    #[verifier::loop_isolation(false)]
    pub fn reduce_in_closure(
        self,
        objects: &mut VecDeque<Object>,
        copies: &mut Vec<CopyID>,
        fuel: usize,
    ) -> (r: Result<Object, LambdaError>)
        ensures
            final(copies)@.len() == old(copies)@.len(),
            match drive_term(self@, terms(old(objects)@), counts(old(copies)@), fuel as nat) {
                Ok(d) => r is Ok && r->Ok_0@ == d.head && terms(final(objects)@) == d.args && counts(
                    final(copies)@,
                ) == d.copies,
                Err(e) => r is Err && r->Err_0@ == e,
            },
        decreases fuel, 2nat, old(objects)@.len(),
    {
        let ghost want = drive_term(self@, terms(objects@), counts(copies@), fuel as nat);
        let mut head = self;
        while objects.len() > 0
            invariant
                copies@.len() == old(copies)@.len(),
                objects@.len() <= old(objects)@.len(),
                want == drive_term(head@, terms(objects@), counts(copies@), fuel as nat),
            decreases objects@.len(),
        {
            let count = objects.len();
            let reduced = head.reduce_within(copies, fuel)?;
            let expanded = reduced.expand_closures(objects);
            if objects.len() != count {
                return Object::settle(expanded, objects, copies, fuel);
            }
            match expanded {
                Object::Func { vars, inner } => {
                    proof {
                        lemma_func_view(expanded);
                    }
                    if vars.len() == 0 {
                        return Object::settle(Object::Func { vars, inner }, objects, copies, fuel);
                    }
                    let mut vars = vars;
                    let ghost before = vars@;
                    let ghost args = objects@;
                    vars.pop_front();
                    let beta = objects.pop_front().unwrap();
                    assert(terms(args)[0] == beta@);
                    let (bodies, _) = Object::apply_beta_all(inner, copies, beta, 0)?;
                    head = Object::Func { vars, inner: bodies };
                    proof {
                        lemma_func_view(head);
                        assert(params(vars@) =~= params(before).skip(1));
                        assert(terms(objects@) =~= terms(args).skip(1));
                    }
                },
                other => {
                    return Object::settle(other, objects, copies, fuel);
                },
            }
        }
        Object::settle(head, objects, copies, fuel)
    }

    /// Reduces the head once more and takes its wrappers away.
    fn settle(head: Object, objects: &mut VecDeque<Object>, copies: &mut Vec<CopyID>, fuel: usize)
        -> (r: Result<Object, LambdaError>)
        ensures
            final(copies)@.len() == old(copies)@.len(),
            match settle_term(head@, terms(old(objects)@), counts(old(copies)@), fuel as nat) {
                Ok(d) => r is Ok && r->Ok_0@ == d.head && terms(final(objects)@) == d.args && counts(
                    final(copies)@,
                ) == d.copies,
                Err(e) => r is Err && r->Err_0@ == e,
            },
        decreases fuel, 1nat, 0nat,
    {
        let reduced = head.reduce_within(copies, fuel)?;
        Ok(reduced.expand_closures(objects))
    }

    /// The normal form of this tree, where no more than `fuel` reductions
    /// nest.
    #[verifier::loop_isolation(false)]
    pub fn reduce_within(self, copies: &mut Vec<CopyID>, fuel: usize) -> (r: Result<
        Object,
        LambdaError,
    >)
        ensures
            final(copies)@.len() == old(copies)@.len(),
            match reduce_term(self@, counts(old(copies)@), fuel as nat) {
                Ok(t) => r is Ok && r->Ok_0@ == t.term && counts(final(copies)@) == t.copies,
                Err(e) => r is Err && r->Err_0@ == e,
            },
        decreases fuel, 0nat, 0nat,
    {
        match self {
            Object::Func { vars, inner } => {
                proof {
                    lemma_func_view(self);
                }
                if inner.len() == 0 {
                    return Ok(Object::Func { vars, inner });
                }
                if fuel == 0 {
                    return Err(LambdaError::ExpressionSizeLimit);
                }
                let ghost spine = terms(inner@);
                let mut objects = inner;
                let hold = objects.pop_front().unwrap();
                assert(terms(objects@) =~= spine.skip(1));
                let head = hold.reduce_in_closure(&mut objects, copies, fuel - 1)?;
                let ghost args = objects@;
                let ghost want = reduce_all(
                    terms(args),
                    0,
                    Seq::empty(),
                    counts(copies@),
                    (fuel - 1) as nat,
                );
                let mut done: VecDeque<Object> = VecDeque::new();
                assert(terms(done@) =~= Seq::<Term>::empty());
                while objects.len() > 0
                    invariant
                        copies@.len() == old(copies)@.len(),
                        done@.len() + objects@.len() == args.len(),
                        forall|j: int|
                            0 <= j < objects@.len() ==> objects@[j] == args[done@.len() + j],
                        want == reduce_all(
                            terms(args),
                            done@.len() as nat,
                            terms(done@),
                            counts(copies@),
                            (fuel - 1) as nat,
                        ),
                    decreases objects@.len(),
                {
                    let temp = objects.pop_front().unwrap();
                    assert(terms(args)[done@.len() as int] == temp@);
                    let reduced = temp.reduce_within(copies, fuel - 1)?;
                    proof {
                        lemma_terms_push(done@, reduced);
                    }
                    done.push_back(reduced);
                }
                if vars.len() == 0 && done.len() == 0 {
                    assert((seq![head@] + terms(done@)).len() == 1);
                    Ok(head.lower(0))
                } else {
                    let ghost rest = done@;
                    done.push_front(head);
                    assert(terms(done@) =~= seq![head@] + terms(rest));
                    let out = Object::Func { vars, inner: done };
                    proof {
                        lemma_func_view(out);
                    }
                    Ok(out)
                }
            },
            other => Ok(other),
        }
    }

    /// The normal form of this tree. The counters of `name_space` hand out
    /// the duplication ids. Where the reduction fails, the tree and the
    /// counters are as they were. A tree whose references find their
    /// parameters keeps them, and fails by a size limit only.
    pub fn reduce(&mut self, name_space: &mut NameSpace) -> (r: Result<(), LambdaError>)
        ensures
            final(name_space)@.names == old(name_space)@.names,
            final(name_space)@.renames == old(name_space)@.renames,
            final(name_space)@.copies.len() == old(name_space)@.copies.len(),
            r is Ok ==> crate::laws::settled(final(self)@, MAX_OBJECT_DEPTH as nat),
            match reduce_term(old(self)@, old(name_space)@.copies, MAX_OBJECT_DEPTH as nat) {
                Ok(t) => r is Ok && final(self)@ == t.term && final(name_space)@.copies == t.copies,
                Err(e) => r is Err && r->Err_0@ == e && final(self)@ == old(self)@
                    && final(name_space)@.copies == old(name_space)@.copies,
            },
            forall|env: Seq<nat>| #[trigger]
                scoped(old(self)@, env, old(name_space)@.names.len()) ==> scoped(
                    final(self)@,
                    env,
                    old(name_space)@.names.len(),
                ) && (old(name_space)@.names.len() <= old(name_space)@.copies.len() ==> (r matches Err(
                    e,
                ) ==> e@ == Fault::ExpressionSizeLimit)),
    {
        proof {
            let copies = name_space@.copies;
            let names = name_space@.names.len();
            crate::laws::lemma_reduce_settles(self@, copies, MAX_OBJECT_DEPTH as nat);
            assert forall|env: Seq<nat>| #[trigger] scoped(self@, env, names) implies (reduce_term(
                self@,
                copies,
                MAX_OBJECT_DEPTH as nat,
            ) matches Ok(t) ==> scoped(t.term, env, names)) && (names <= copies.len()
                ==> crate::scoping::failing(reduce_term(self@, copies, MAX_OBJECT_DEPTH as nat))) by {
                lemma_reduce_scoped(self@, copies, MAX_OBJECT_DEPTH as nat, env, names);
            }
        }
        let work = self.duplicate();
        let copies = name_space.get_mut_copies();
        let saved = copies.clone();
        match work.reduce_within(copies, MAX_OBJECT_DEPTH) {
            Ok(t) => {
                *self = t;
                Ok(())
            },
            Err(e) => {
                *copies = saved;
                Err(e)
            },
        }
    }

    /// A tree equal to this one.
    #[verifier::loop_isolation(false)]
    pub fn duplicate(&self) -> (out: Object)
        ensures
            out@ == self@,
        decreases self,
    {
        match self {
            Object::Term { name } => Object::Term { name: *name },
            Object::Var { depth, queue_position } => Object::Var {
                depth: *depth,
                queue_position: *queue_position,
            },
            Object::Func { vars, inner } => {
                proof {
                    lemma_func_view(*self);
                }
                let mut new_vars: VecDeque<(NameID, CopyID)> = VecDeque::new();
                let mut i: usize = 0;
                while i < vars.len()
                    invariant
                        i <= vars@.len(),
                        new_vars@ == vars@.take(i as int),
                    decreases vars@.len() - i,
                {
                    new_vars.push_back(vars[i]);
                    assert(new_vars@ =~= vars@.take(i + 1));
                    i += 1;
                }
                assert(new_vars@ =~= vars@);
                let mut new_inner: VecDeque<Object> = VecDeque::new();
                let mut j: usize = 0;
                while j < inner.len()
                    invariant
                        j <= inner@.len(),
                        new_inner@.len() == j,
                        forall|k: int| 0 <= k < j ==> (#[trigger] new_inner@[k])@ == inner@[k]@,
                    decreases inner@.len() - j,
                {
                    assert(decreases_to!(inner => inner[j as int]));
                    let x = inner[j].duplicate();
                    new_inner.push_back(x);
                    j += 1;
                }
                assert(terms(new_inner@) =~= terms(inner@));
                let out = Object::Func { vars: new_vars, inner: new_inner };
                proof {
                    lemma_func_view(out);
                }
                out
            },
        }
    }

    /// This tree hoisted out of a wrapper that goes away.
    pub fn lowered(self) -> (out: Object)
        ensures
            out@ == lower_term(self@, 0),
    {
        self.lower(0)
    }

    /// This tree with every reference that points past `recursion_depth`
    /// enclosing abstractions moved one level shallower.
    #[verifier::loop_isolation(false)]
    pub fn lower(self, recursion_depth: usize) -> (out: Object)
        ensures
            out@ == lower_term(self@, recursion_depth as nat),
        decreases self,
    {
        let ghost me = self;
        match self {
            Object::Term { name } => Object::Term { name },
            Object::Var { depth, queue_position } => {
                if depth > recursion_depth {
                    Object::Var { depth: depth - 1, queue_position }
                } else {
                    Object::Var { depth, queue_position }
                }
            },
            Object::Func { vars, inner } => {
                if recursion_depth == usize::MAX {
                    proof {
                        lemma_view_bounded(me);
                        lemma_lower_saturated(me@, recursion_depth as nat);
                    }
                    return Object::Func { vars, inner };
                }
                let ghost orig = inner@;
                let mut rest = inner;
                let mut done: VecDeque<Object> = VecDeque::new();
                while rest.len() > 0
                    invariant
                        done@.len() + rest@.len() == orig.len(),
                        forall|j: int| 0 <= j < rest@.len() ==> rest@[j] == orig[done@.len() + j],
                        forall|j: int|
                            0 <= j < done@.len() ==> (#[trigger] done@[j])@ == lower_term(
                                orig[j]@,
                                (recursion_depth + 1) as nat,
                            ),
                    decreases rest@.len(),
                {
                    let x = rest.pop_front().unwrap();
                    assert(decreases_to!(me->inner => me->inner[done@.len() as int]));
                    let y = x.lower(recursion_depth + 1);
                    done.push_back(y);
                }
                let out = Object::Func { vars, inner: done };
                proof {
                    let want = lower_term(me@, recursion_depth as nat);
                    assert(me@->inner.len() == orig.len());
                    assert forall|j: int| 0 <= j < orig.len() implies out@->inner[j] == want->inner[j] by {
                        assert(out@->inner[j] == done@[j]@);
                        assert(me@->inner[j] == orig[j]@);
                    }
                    assert(out@->inner =~= want->inner);
                    assert(out@->vars =~= want->vars);
                }
                out
            },
        }
    }
}

/// An expression as a mathematical value: its tree and its registry.
#[verifier::ext_equal]
pub struct Expression {
    pub term: Term,
    pub registry: crate::naming::Registry,
}

/// An expression: a tree and the names it was built with.
#[derive(Debug)]
pub struct Expr {
    pub object: Object,
    pub name_space: NameSpace,
}

impl View for Expr {
    type V = Expression;

    open spec fn view(&self) -> Expression {
        Expression { term: self.object@, registry: self.name_space@ }
    }
}

impl Expr {
    /// The expression of a tree and the names it refers to.
    pub fn new(object: Object, name_space: NameSpace) -> (out: Self)
        ensures
            out.object == object,
            out.name_space == name_space,
    {
        Self { object, name_space }
    }

    /// Brings the tree to normal form. Where that fails, the expression is as
    /// it was. A well-formed expression stays well formed, and fails by a
    /// size limit only.
    pub fn reduce(&mut self) -> (r: Result<(), LambdaError>)
        ensures
            final(self)@.registry.names == old(self)@.registry.names,
            final(self)@.registry.renames == old(self)@.registry.renames,
            match reduce_term(old(self)@.term, old(self)@.registry.copies, MAX_OBJECT_DEPTH as nat) {
                Ok(t) => r is Ok && final(self)@.term == t.term && final(self)@.registry.copies
                    == t.copies,
                Err(e) => r is Err && r->Err_0@ == e && final(self)@.term == old(self)@.term
                    && final(self)@.registry.copies == old(self)@.registry.copies,
            },
            well_formed(old(self)@) ==> well_formed(final(self)@) && (r matches Err(e) ==> e@
                == Fault::ExpressionSizeLimit),
            r is Ok ==> crate::laws::settled(final(self)@.term, MAX_OBJECT_DEPTH as nat),
    {
        self.object.reduce(&mut self.name_space)
    }
}

} // verus!
