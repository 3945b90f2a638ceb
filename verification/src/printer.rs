//! Rendering an expression as text.

use vstd::prelude::*;
use vstd::string::StringExecFns;
use std::collections::VecDeque;
use vstd::std_specs::vecdeque::VecDequeAdditionalSpecFns;
use crate::MAX_STRING_LENGTH;
use crate::errors::{Fault, LambdaError};
use crate::naming::{NameID, NameSpace, Registry};
use crate::objects::{lemma_func_view, params, terms, Expr, Object};
use crate::term::Term;
use crate::text::{decimal, decimal_text, push_char};

verus! {

/// A scope: the parameters of one open abstraction, each with the name it is
/// shown under and its display suffix.
pub type Scope = Seq<(nat, nat)>;

/// How many parameters of `scope` are shown under the name `id`.
pub open spec fn uses_in(scope: Scope, id: nat) -> nat
    decreases scope.len(),
{
    if scope.len() == 0 {
        0
    } else {
        uses_in(scope.drop_last(), id) + if scope.last().0 == id {
            1nat
        } else {
            0nat
        }
    }
}

/// How many parameters of the open abstractions are shown under the name `id`.
pub open spec fn uses(scopes: Seq<Scope>, id: nat) -> nat
    decreases scopes.len(),
{
    if scopes.len() == 0 {
        0
    } else {
        uses(scopes.drop_last(), id) + uses_in(scopes.last(), id)
    }
}

/// The scope that an abstraction with the parameters `vars` opens inside
/// `scopes`: each parameter is shown under the name its own stands for, with
/// the number of open parameters of that name as its suffix. `acc` holds the
/// entries for `vars[..k]`.
pub open spec fn scope_of(reg: Registry, vars: Seq<(nat, nat)>, k: nat, acc: Scope, scopes: Seq<Scope>)
    -> Result<Scope, Fault>
    decreases vars.len() - k,
{
    if k >= vars.len() {
        Ok(acc)
    } else {
        let id = reg.canonical(vars[k as int].0);
        let suffix = uses(scopes, id) + uses_in(acc, id);
        if id >= reg.names.len() || id >= reg.copies.len() {
            Err(Fault::InternalFailure)
        } else if suffix >= usize::MAX {
            Err(Fault::ExpressionSizeLimit)
        } else {
            scope_of(reg, vars, k + 1, acc.push((id, suffix)), scopes)
        }
    }
}

/// A name as it is shown: its spelling, and after an underscore its suffix
/// where that is not zero.
pub open spec fn shown_name(spelling: Seq<char>, suffix: nat) -> Seq<char> {
    if suffix == 0 {
        spelling
    } else {
        spelling + seq!['_'] + decimal_text(suffix)
    }
}

/// The binders of a scope: for each parameter a lambda, its name and a dot.
/// With `bare`, the last dot is left out. `acc` holds the text for
/// `scope[..k]`.
pub open spec fn binders(reg: Registry, scope: Scope, k: nat, acc: Seq<char>, bare: bool) -> Seq<char>
    decreases scope.len() - k,
{
    if k >= scope.len() {
        acc
    } else {
        let shown = seq!['λ'] + shown_name(reg.names[scope[k as int].0 as int], scope[k as int].1);
        let binder = if bare && k + 1 == scope.len() {
            shown
        } else {
            shown.push('.')
        };
        binders(reg, scope, k + 1, acc + binder, bare)
    }
}

/// The text of a tree inside the open abstractions `scopes`. A free variable
/// is the spelling of the name it stands for; a reference is the shown name
/// of its parameter; an abstraction is its binders and then its spine, the
/// elements parted by one space. A spine of two or more elements under a
/// binder stands in parentheses, and so does every abstraction but the root.
/// A reference or a name that the scopes or the registry do not hold is an
/// internal failure.
pub open spec fn render(t: Term, reg: Registry, scopes: Seq<Scope>, root: bool) -> Result<
    Seq<char>,
    Fault,
>
    decreases t, 0nat,
{
    match t {
        Term::Free { name } => if reg.canonical(name) < reg.names.len() {
            Ok(reg.names[reg.canonical(name) as int])
        } else {
            Err(Fault::InternalFailure)
        },
        Term::Var { depth, position } => if depth >= scopes.len() {
            Err(Fault::InternalFailure)
        } else {
            let scope = scopes[scopes.len() - 1 - depth];
            if position >= scope.len() || scope[position as int].0 >= reg.names.len() {
                Err(Fault::InternalFailure)
            } else {
                Ok(shown_name(reg.names[scope[position as int].0 as int], scope[position as int].1))
            }
        },
        Term::Func { vars, inner } => match scope_of(reg, vars, 0, Seq::empty(), scopes) {
            Err(e) => Err(e),
            Ok(scope) => match render_spine(inner, 0, Seq::empty(), reg, scopes.push(scope)) {
                Err(e) => Err(e),
                Ok(spine) => {
                    let body = if vars.len() > 0 && inner.len() >= 2 {
                        seq!['('] + spine + seq![')']
                    } else {
                        spine
                    };
                    let text = binders(reg, scope, 0, Seq::empty(), inner.len() == 0) + body;
                    if root {
                        Ok(text)
                    } else {
                        Ok(seq!['('] + text + seq![')'])
                    }
                },
            },
        },
    }
}

/// The text of the spine `ts[k..]` after `acc`, the text of `ts[..k]`.
pub open spec fn render_spine(ts: Seq<Term>, k: nat, acc: Seq<char>, reg: Registry, scopes: Seq<Scope>)
    -> Result<Seq<char>, Fault>
    decreases ts, ts.len() - k,
{
    if k >= ts.len() {
        Ok(acc)
    } else {
        match render(ts[k as int], reg, scopes, false) {
            Err(e) => Err(e),
            Ok(s) => render_spine(
                ts,
                k + 1,
                acc + if k + 1 < ts.len() {
                    s.push(' ')
                } else {
                    s
                },
                reg,
                scopes,
            ),
        }
    }
}

/// What is printed in place of a text that is too long.
pub open spec fn limit_text() -> Seq<char> {
    "error: character limit exceeded"@
}

/// A text as it is printed: one that takes more than `MAX_STRING_LENGTH`
/// bytes gives way to `limit_text`.
pub open spec fn guarded(text: Seq<char>) -> Seq<char> {
    if vstd::utf8::encode_utf8(text).len() > MAX_STRING_LENGTH {
        limit_text()
    } else {
        text
    }
}

/// The scopes held by a stack of vectors.
pub open spec fn scopes_view(stack: Seq<Vec<(NameID, usize)>>) -> Seq<Scope> {
    Seq::new(stack.len(), |i: int| params(stack[i]@))
}

/// The state of a rendering: for each name the number of open parameters
/// shown under it, and the open scopes.
pub struct Printer {
    pub active_copies: Vec<usize>,
    pub local_ids: Vec<Vec<(NameID, usize)>>,
}

impl Printer {
    /// The open scopes.
    pub open spec fn scopes(&self) -> Seq<Scope> {
        scopes_view(self.local_ids@)
    }

    /// The counters agree with the open scopes, and every open parameter has
    /// a counter.
    pub open spec fn wf(&self) -> bool {
        &&& forall|id: int|
            0 <= id < self.active_copies@.len() ==> #[trigger] self.active_copies@[id] == uses(
                self.scopes(),
                id as nat,
            )
        &&& forall|s: int, j: int|
            0 <= s < self.scopes().len() && 0 <= j < self.scopes()[s].len() ==> (
            #[trigger] self.scopes()[s][j]).0 < self.active_copies@.len()
    }
}

/// The uses of a name in a scope that has got one more entry.
proof fn lemma_uses_in_push(scope: Scope, e: (nat, nat), id: nat)
    ensures
        uses_in(scope.push(e), id) == uses_in(scope, id) + if e.0 == id {
            1nat
        } else {
            0nat
        },
{
    assert(scope.push(e).drop_last() =~= scope);
}

/// The uses of a name where one more scope is open.
proof fn lemma_uses_push(scopes: Seq<Scope>, scope: Scope, id: nat)
    ensures
        uses(scopes.push(scope), id) == uses(scopes, id) + uses_in(scope, id),
{
    assert(scopes.push(scope).drop_last() =~= scopes);
}

/// Appends a name as it is shown.
fn show(out: &mut String, spelling: &str, suffix: usize)
    ensures
        final(out)@ == old(out)@ + shown_name(spelling@, suffix as nat),
{
    out.append(spelling);
    if suffix != 0 {
        push_char(out, '_');
        let digits = decimal(suffix);
        out.append(digits.as_str());
        assert(out@ =~= old(out)@ + (spelling@ + seq!['_'] + decimal_text(suffix as nat)));
    }
}

/// The binders of a scope.
fn binder_text(locals: &Vec<(NameID, usize)>, name_space: &NameSpace, bare: bool) -> (out: String)
    requires
        forall|j: int|
            0 <= j < locals@.len() ==> (#[trigger] params(locals@)[j]).0 < name_space@.names.len(),
    ensures
        out@ == binders(name_space@, params(locals@), 0, Seq::empty(), bare),
{
    let ghost reg = name_space@;
    let ghost scope = params(locals@);
    let mut out = String::new();
    let mut k: usize = 0;
    while k < locals.len()
        invariant
            k <= locals@.len(),
            reg == name_space@,
            scope == params(locals@),
            forall|j: int| 0 <= j < locals@.len() ==> (#[trigger] scope[j]).0 < reg.names.len(),
            binders(reg, scope, 0, Seq::empty(), bare) == binders(reg, scope, k as nat, out@, bare),
        decreases locals@.len() - k,
    {
        let (id, suffix) = locals[k];
        assert(scope[k as int] == (id as nat, suffix as nat));
        let ghost before = out@;
        push_char(&mut out, 'λ');
        show(&mut out, name_space.name(id).as_str(), suffix);
        if !(bare && k + 1 == locals.len()) {
            push_char(&mut out, '.');
        }
        proof {
            let shown = seq!['λ'] + shown_name(reg.names[id as int], suffix as nat);
            assert(out@ =~= before + if bare && k + 1 == scope.len() {
                shown
            } else {
                shown.push('.')
            });
        }
        k += 1;
    }
    out
}

impl Printer {
    /// Counts the parameters `vars` in and gives the scope they open. Where
    /// that fails, the counters are as they were.
    #[verifier::loop_isolation(false)]
    fn open_scope(&mut self, vars: &VecDeque<(NameID, usize)>, name_space: &NameSpace) -> (r: Result<
        Vec<(NameID, usize)>,
        LambdaError,
    >)
        requires
            old(self).wf(),
            old(self).active_copies@.len() == name_space@.copies.len(),
        ensures
            final(self).local_ids == old(self).local_ids,
            final(self).active_copies@.len() == old(self).active_copies@.len(),
            match scope_of(name_space@, params(vars@), 0, Seq::empty(), old(self).scopes()) {
                Ok(scope) => {
                    &&& r is Ok
                    &&& params(r->Ok_0@) == scope
                    &&& forall|id: int|
                        0 <= id < final(self).active_copies@.len() ==> #[trigger] final(self).active_copies@[id] == uses(old(self).scopes(), id as nat) + uses_in(
                            scope,
                            id as nat,
                        )
                    &&& forall|j: int|
                        0 <= j < scope.len() ==> (#[trigger] scope[j]).0 < final(self).active_copies@.len() && scope[j].0 < name_space@.names.len()
                },
                Err(e) => r is Err && r->Err_0@ == e && final(self).wf(),
            },
    {
        let ghost reg = name_space@;
        let ghost scopes = self.scopes();
        let mut locals: Vec<(NameID, usize)> = Vec::new();
        let mut k: usize = 0;
        assert(params(locals@) =~= Seq::<(nat, nat)>::empty());
        while k < vars.len()
            invariant
                k <= vars@.len(),
                reg == name_space@,
                scopes == old(self).scopes(),
                self.local_ids == old(self).local_ids,
                self.active_copies@.len() == old(self).active_copies@.len(),
                self.active_copies@.len() == reg.copies.len(),
                scope_of(reg, params(vars@), 0, Seq::empty(), scopes) == scope_of(
                    reg,
                    params(vars@),
                    k as nat,
                    params(locals@),
                    scopes,
                ),
                forall|id: int|
                    0 <= id < self.active_copies@.len() ==> #[trigger] self.active_copies@[id]
                        == uses(scopes, id as nat) + uses_in(params(locals@), id as nat),
                forall|j: int|
                    0 <= j < locals@.len() ==> (#[trigger] params(locals@)[j]).0
                        < self.active_copies@.len() && params(locals@)[j].0 < reg.names.len(),
            decreases vars@.len() - k,
        {
            let id = name_space.get_absolute_name_index(vars[k].0);
            if id >= name_space.len() || id >= self.active_copies.len() {
                self.close_scope(&locals, Ghost(scopes));
                return Err(LambdaError::InternalFailure);
            }
            let suffix = self.active_copies[id];
            if suffix == usize::MAX {
                self.close_scope(&locals, Ghost(scopes));
                return Err(LambdaError::ExpressionSizeLimit);
            }
            proof {
                let before = params(locals@);
                assert(params(locals@.push((id, suffix))) =~= before.push((id as nat, suffix as nat)));
                assert forall|other: int| 0 <= other < self.active_copies@.len() implies #[trigger] uses_in(
                    before.push((id as nat, suffix as nat)),
                    other as nat,
                ) == uses_in(before, other as nat) + if other == id {
                    1nat
                } else {
                    0nat
                } by {
                    lemma_uses_in_push(before, (id as nat, suffix as nat), other as nat);
                }
            }
            locals.push((id, suffix));
            self.active_copies.set(id, suffix + 1);
            k += 1;
        }
        Ok(locals)
    }

    /// Counts the parameters of `scope` out again.
    fn close_scope(&mut self, scope: &Vec<(NameID, usize)>, Ghost(scopes): Ghost<Seq<Scope>>)
        requires
            forall|id: int|
                0 <= id < old(self).active_copies@.len() ==> #[trigger] old(self).active_copies@[id]
                    == uses(scopes, id as nat) + uses_in(params(scope@), id as nat),
            forall|j: int|
                0 <= j < scope@.len() ==> (#[trigger] params(scope@)[j]).0 < old(self).active_copies@.len(),
        ensures
            final(self).local_ids == old(self).local_ids,
            final(self).active_copies@.len() == old(self).active_copies@.len(),
            forall|id: int|
                0 <= id < final(self).active_copies@.len() ==> #[trigger] final(self).active_copies@[id] == uses(scopes, id as nat),
    {
        let mut k: usize = scope.len();
        assert(params(scope@).take(k as int) =~= params(scope@));
        while k > 0
            invariant
                k <= scope@.len(),
                self.local_ids == old(self).local_ids,
                self.active_copies@.len() == old(self).active_copies@.len(),
                forall|id: int|
                    0 <= id < self.active_copies@.len() ==> #[trigger] self.active_copies@[id]
                        == uses(scopes, id as nat) + uses_in(
                        params(scope@).take(k as int),
                        id as nat,
                    ),
                forall|j: int|
                    0 <= j < scope@.len() ==> (#[trigger] params(scope@)[j]).0
                        < self.active_copies@.len(),
            decreases k,
        {
            let id = scope[k - 1].0;
            proof {
                let part = params(scope@).take(k as int);
                assert(part.drop_last() =~= params(scope@).take(k - 1));
                assert(part.last() == params(scope@)[k - 1]);
                assert(part.last().0 == id);
            }
            let count = self.active_copies[id];
            self.active_copies.set(id, count - 1);
            k -= 1;
        }
    }

    /// Closes the innermost scope and counts its parameters out.
    fn leave_scope(&mut self, Ghost(scopes): Ghost<Seq<Scope>>, Ghost(scope): Ghost<Scope>)
        requires
            old(self).wf(),
            old(self).scopes() == scopes.push(scope),
        ensures
            final(self).wf(),
            final(self).scopes() == scopes,
            final(self).active_copies@.len() == old(self).active_copies@.len(),
    {
        let top = self.local_ids.pop().unwrap();
        proof {
            assert(params(top@) == scopes.push(scope).last());
            assert(self.scopes() =~= scopes.push(scope).drop_last());
            assert(scopes.push(scope).drop_last() =~= scopes);
            assert forall|id: int| 0 <= id < self.active_copies@.len() implies (
            #[trigger] self.active_copies@[id]) == uses(scopes, id as nat) + uses_in(
                scope,
                id as nat,
            ) by {
                lemma_uses_push(scopes, scope, id as nat);
            }
            assert forall|j: int| 0 <= j < top@.len() implies (#[trigger] params(top@)[j]).0
                < self.active_copies@.len() by {
                assert(old(self).scopes()[scopes.len() as int][j] == params(top@)[j]);
            }
        }
        self.close_scope(&top, Ghost(scopes));
        assert(self.scopes() == scopes);
    }

    /// The text of `object` inside the scopes that are open. Whether it
    /// succeeds or fails, the scopes and the counters are afterwards as they
    /// were.
    #[verifier::loop_isolation(false)]
    pub fn string_this(&mut self, object: &Object, name_space: &NameSpace, root: bool) -> (r: Result<
        String,
        LambdaError,
    >)
        requires
            old(self).wf(),
            old(self).active_copies@.len() == name_space@.copies.len(),
        ensures
            final(self).wf(),
            final(self).scopes() == old(self).scopes(),
            final(self).active_copies@.len() == old(self).active_copies@.len(),
            match render(object@, name_space@, old(self).scopes(), root) {
                Ok(text) => r is Ok && r->Ok_0@ == text,
                Err(e) => r is Err && r->Err_0@ == e,
            },
        decreases object,
    {
        let ghost reg = name_space@;
        let ghost scopes = self.scopes();
        match object {
            Object::Term { name } => {
                let id = name_space.get_absolute_name_index(*name);
                if id < name_space.len() {
                    Ok(name_space.name(id).clone())
                } else {
                    Err(LambdaError::InternalFailure)
                }
            },
            Object::Var { depth, queue_position } => {
                if *depth >= self.local_ids.len() {
                    return Err(LambdaError::InternalFailure);
                }
                let index = self.local_ids.len() - 1 - *depth;
                assert(scopes[index as int] == params(self.local_ids@[index as int]@));
                if *queue_position >= self.local_ids[index].len() {
                    return Err(LambdaError::InternalFailure);
                }
                let (id, suffix) = self.local_ids[index][*queue_position];
                if id >= name_space.len() {
                    return Err(LambdaError::InternalFailure);
                }
                let mut out = String::new();
                show(&mut out, name_space.name(id).as_str(), suffix);
                assert(out@ =~= shown_name(reg.names[id as int], suffix as nat));
                Ok(out)
            },
            Object::Func { vars, inner } => {
                proof {
                    lemma_func_view(*object);
                }
                let locals = self.open_scope(vars, name_space)?;
                let ghost scope = params(locals@);
                let bare = inner.len() == 0;
                let mut out = binder_text(&locals, name_space, bare);
                let ghost head = out@;
                self.local_ids.push(locals);
                proof {
                    assert(self.scopes() =~= scopes.push(scope));
                    assert forall|id: int| 0 <= id < self.active_copies@.len() implies (
                    #[trigger] self.active_copies@[id]) == uses(self.scopes(), id as nat) by {
                        lemma_uses_push(scopes, scope, id as nat);
                    }
                    assert(self.wf());
                }
                let wrap = vars.len() > 0 && inner.len() >= 2;
                if wrap {
                    push_char(&mut out, '(');
                }
                let ghost start = out@;
                let ghost spine = terms(inner@);
                let mut i: usize = 0;
                assert(out@.skip(start.len() as int) =~= Seq::<char>::empty());
                while i < inner.len()
                    invariant
                        i <= inner@.len(),
                        self.wf(),
                        self.scopes() == scopes.push(scope),
                        self.active_copies@.len() == reg.copies.len(),
                        start.len() <= out@.len(),
                        out@.take(start.len() as int) == start,
                        render_spine(spine, 0, Seq::empty(), reg, scopes.push(scope)) == render_spine(
                            spine,
                            i as nat,
                            out@.skip(start.len() as int),
                            reg,
                            scopes.push(scope),
                        ),
                    decreases inner@.len() - i,
                {
                    assert(decreases_to!(inner => inner[i as int]));
                    assert(spine[i as int] == inner@[i as int]@);
                    let ghost before = out@;
                    let text = match self.string_this(&inner[i], name_space, false) {
                        Ok(text) => text,
                        Err(e) => {
                            self.leave_scope(Ghost(scopes), Ghost(scope));
                            return Err(e);
                        },
                    };
                    out.append(text.as_str());
                    if i + 1 < inner.len() {
                        push_char(&mut out, ' ');
                    }
                    proof {
                        let piece = if i + 1 < spine.len() {
                            text@.push(' ')
                        } else {
                            text@
                        };
                        assert(out@ =~= before + piece);
                        assert(out@.take(start.len() as int) =~= before.take(start.len() as int));
                        assert(out@.skip(start.len() as int) =~= before.skip(start.len() as int)
                            + piece);
                    }
                    i += 1;
                }
                let ghost body = out@.skip(start.len() as int);
                assert(out@ =~= start + body);
                if wrap {
                    push_char(&mut out, ')');
                }
                self.leave_scope(Ghost(scopes), Ghost(scope));
                assert(self.scopes() == scopes);
                assert(self.wf());
                if root {
                    proof {
                        let spine_text = if wrap {
                            seq!['('] + body + seq![')']
                        } else {
                            body
                        };
                        assert(out@ =~= head + spine_text);
                    }
                    Ok(out)
                } else {
                    let mut framed = String::new();
                    push_char(&mut framed, '(');
                    framed.append(out.as_str());
                    push_char(&mut framed, ')');
                    proof {
                        let spine_text = if wrap {
                            seq!['('] + body + seq![')']
                        } else {
                            body
                        };
                        assert(out@ =~= head + spine_text);
                        assert(framed@ =~= seq!['('] + (head + spine_text) + seq![')']);
                    }
                    Ok(framed)
                }
            },
        }
    }
}

/// The text of an expression, or the failure that keeps it from being shown.
/// A text of more than `MAX_STRING_LENGTH` bytes gives way to the limit
/// message. A well-formed expression fails by a size limit only.
pub fn try_format(expr: &Expr) -> (r: Result<String, LambdaError>)
    ensures
        match render(expr@.term, expr@.registry, Seq::empty(), true) {
            Ok(text) => r is Ok && r->Ok_0@ == guarded(text),
            Err(e) => r is Err && r->Err_0@ == e,
        },
        crate::scoping::well_formed(expr@) ==> (r matches Err(e) ==> e@
            == Fault::ExpressionSizeLimit),
{
    proof {
        if crate::scoping::well_formed(expr@) {
            crate::scoping::lemma_render_scoped(
                expr@.term,
                expr@.registry,
                Seq::empty(),
                true,
                Seq::empty(),
            );
        }
    }
    let size = expr.name_space.get_copies().len();
    assert(size == expr@.registry.copies.len());
    let mut active: Vec<usize> = Vec::new();
    let mut k: usize = 0;
    while k < size
        invariant
            k <= size,
            active@.len() == k,
            forall|id: int| 0 <= id < k ==> #[trigger] active@[id] == 0,
        decreases size - k,
    {
        active.push(0);
        k += 1;
    }
    let mut p = Printer { active_copies: active, local_ids: Vec::new() };
    assert(p.scopes() =~= Seq::<Scope>::empty());
    let text = p.string_this(&expr.object, &expr.name_space, true)?;
    if text.as_str().as_bytes().len() > MAX_STRING_LENGTH {
        Ok(String::from_str("error: character limit exceeded"))
    } else {
        Ok(text)
    }
}

/// The text of a well-formed expression. A text of more than
/// `MAX_STRING_LENGTH` bytes gives way to the limit message, and so does one
/// that opens more parameters of one name than the machine can count.
pub fn format(expr: &Expr) -> (out: String)
    requires
        crate::scoping::well_formed(expr@),
    ensures
        out@ == match render(expr@.term, expr@.registry, Seq::empty(), true) {
            Ok(text) => guarded(text),
            Err(_) => limit_text(),
        },
{
    match try_format(expr) {
        Ok(text) => text,
        Err(_) => String::from_str("error: character limit exceeded"),
    }
}

} // verus!
