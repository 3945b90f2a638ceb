//! Binding a token sequence into an expression tree.

use vstd::prelude::*;
use vstd::hash_map::StringHashMap;
use vstd::string::StrSliceExecFns;
use std::collections::HashMap;
use std::collections::VecDeque;
use crate::errors::{Fault, LambdaError};
use crate::naming::{
    counts, index_map, lemma_index_map_insert, spellings, CopyID, NameID, NameSpace, Registry,
};
use crate::objects::{
    lemma_func_view, lemma_terms_push, params, terms, Expr, Expression, Object,
};
use crate::parser::{lexicals, Lexical, Token};
use crate::patterns::{
    compile, is_match, pattern_compiles, pattern_found, pattern_replaced, replace_first,
};
use crate::term::{lower_term, Term};

verus! {

/// What the binder knows of a spelling.
#[derive(Clone, Copy, Debug, PartialEq, Eq)]
pub enum Name {
    /// A parameter whose abstraction is open: the level of that abstraction,
    /// the parameter's position in it, and its duplication id.
    Var { level: usize, queue_position: usize, copy_id: CopyID },
    /// A parameter whose abstraction has closed.
    DeadVar { name_id: NameID, copy_id: CopyID },
    /// A free variable.
    Term { name_id: NameID },
}

/// The state of the binder as a mathematical value.
#[verifier::ext_equal]
pub struct Binding {
    /// How many groups are open.
    pub level: nat,
    /// What is known of each spelling.
    pub names: Map<Seq<char>, Name>,
    /// The spellings in the order in which they were registered.
    pub listings: Seq<Seq<char>>,
}

/// A parameter list together with the state after binding it.
pub struct Bound {
    pub st: Binding,
    pub vars: Seq<(nat, nat)>,
}

/// A tree together with the state after building it.
pub struct Resolved {
    pub st: Binding,
    pub term: Term,
}

/// A tree, the position behind the tokens it was built from, and the state.
pub struct Parsed {
    pub term: Term,
    pub pos: nat,
    pub st: Binding,
}

/// Binds `name` as the next parameter of the group that is open. A spelling
/// that is new is registered; one whose scope has closed is bound again under
/// its name identity with the next duplication id. One that is bound in an
/// open scope, or that names a free variable, cannot be bound.
pub open spec fn bind(st: Binding, vars: Seq<(nat, nat)>, name: Seq<char>) -> Result<Bound, Fault> {
    if !st.names.contains_key(name) {
        Ok(
            Bound {
                st: Binding {
                    level: st.level,
                    names: st.names.insert(
                        name,
                        Name::Var {
                            level: st.level as usize,
                            queue_position: vars.len() as usize,
                            copy_id: 0,
                        },
                    ),
                    listings: st.listings.push(name),
                },
                vars: vars.push((st.listings.len(), 0)),
            },
        )
    } else {
        match st.names[name] {
            Name::DeadVar { name_id, copy_id } => if copy_id == usize::MAX {
                Err(Fault::ExpressionSizeLimit)
            } else {
                Ok(
                    Bound {
                        st: Binding {
                            level: st.level,
                            names: st.names.insert(
                                name,
                                Name::Var {
                                    level: st.level as usize,
                                    queue_position: vars.len() as usize,
                                    copy_id: (copy_id + 1) as usize,
                                },
                            ),
                            listings: st.listings,
                        },
                        vars: vars.push((name_id as nat, (copy_id + 1) as nat)),
                    },
                )
            },
            Name::Var { .. } => Err(Fault::ActiveName(name)),
            Name::Term { .. } => Err(Fault::ReservedName(name)),
        }
    }
}

/// The leaf that `name` stands for where it is used: a free variable, which a
/// first use registers, or a reference to the open parameter of that
/// spelling. A parameter whose scope has closed cannot be used.
pub open spec fn resolve(st: Binding, name: Seq<char>) -> Result<Resolved, Fault> {
    if !st.names.contains_key(name) {
        Ok(
            Resolved {
                st: Binding {
                    level: st.level,
                    names: st.names.insert(name, Name::Term { name_id: st.listings.len() as usize }),
                    listings: st.listings.push(name),
                },
                term: Term::Free { name: st.listings.len() },
            },
        )
    } else {
        match st.names[name] {
            Name::Term { name_id } => Ok(Resolved { st, term: Term::Free { name: name_id as nat } }),
            Name::Var { level, queue_position, copy_id } => if level > st.level {
                Err(Fault::InternalFailure)
            } else {
                Ok(
                    Resolved {
                        st,
                        term: Term::Var {
                            depth: (st.level - level) as nat,
                            position: queue_position as nat,
                        },
                    },
                )
            },
            Name::DeadVar { .. } => Err(Fault::UnavailableName(name)),
        }
    }
}

/// The table after the scopes of `vars[k..]` have closed: each spelling keeps
/// its name identity and its last duplication id.
pub open spec fn retire(
    names: Map<Seq<char>, Name>,
    listings: Seq<Seq<char>>,
    vars: Seq<(nat, nat)>,
    k: nat,
) -> Result<Map<Seq<char>, Name>, Fault>
    decreases vars.len() - k,
{
    if k >= vars.len() {
        Ok(names)
    } else if vars[k as int].0 >= listings.len() {
        Err(Fault::InternalFailure)
    } else {
        retire(
            names.insert(
                listings[vars[k as int].0 as int],
                Name::DeadVar {
                    name_id: vars[k as int].0 as usize,
                    copy_id: vars[k as int].1 as usize,
                },
            ),
            listings,
            vars,
            k + 1,
        )
    }
}

/// Closes the open group: its parameters retire, and its parameters and spine
/// become an abstraction. A group without parameters that holds one element
/// gives way to that element, lowered past the group.
pub open spec fn close(st: Binding, vars: Seq<(nat, nat)>, inner: Seq<Term>) -> Result<
    Resolved,
    Fault,
> {
    if st.level == 0 {
        Err(Fault::InternalFailure)
    } else {
        match retire(st.names, st.listings, vars, 0) {
            Err(e) => Err(e),
            Ok(names) => Ok(
                Resolved {
                    st: Binding { level: (st.level - 1) as nat, names, listings: st.listings },
                    term: if vars.len() == 0 && inner.len() == 1 {
                        lower_term(inner[0], 0)
                    } else {
                        Term::Func { vars, inner }
                    },
                },
            ),
        }
    }
}

/// The end of a group at the position `pos`.
pub open spec fn finish(st: Binding, vars: Seq<(nat, nat)>, inner: Seq<Term>, pos: nat) -> Result<
    Parsed,
    Fault,
> {
    match close(st, vars, inner) {
        Err(e) => Err(e),
        Ok(r) => Ok(Parsed { term: r.term, pos, st: r.st }),
    }
}

/// Reads one group from `tokens[pos..]`: the parameters it binds, then its
/// spine up to the token that closes it or to the end. With `name`, that
/// spelling is its first parameter.
pub open spec fn parse_group(tokens: Seq<Lexical>, pos: nat, st: Binding, name: Option<Seq<char>>)
    -> Result<Parsed, Fault>
    decreases tokens.len() - pos, 2nat,
{
    if st.level >= usize::MAX {
        Err(Fault::ExpressionSizeLimit)
    } else {
        let opened = Binding { level: st.level + 1, names: st.names, listings: st.listings };
        match name {
            None => parse_params(tokens, pos, opened, Seq::empty()),
            Some(n) => match bind(opened, Seq::empty(), n) {
                Err(e) => Err(e),
                Ok(b) => parse_params(tokens, pos, b.st, b.vars),
            },
        }
    }
}

/// Reads the parameters that a group binds, then its spine.
pub open spec fn parse_params(tokens: Seq<Lexical>, pos: nat, st: Binding, vars: Seq<(nat, nat)>)
    -> Result<Parsed, Fault>
    decreases tokens.len() - pos, 1nat,
{
    if pos >= tokens.len() {
        finish(st, vars, Seq::empty(), pos)
    } else {
        match tokens[pos as int] {
            Lexical::Close => finish(st, vars, Seq::empty(), pos + 1),
            Lexical::Func(n) => match bind(st, vars, n) {
                Err(e) => Err(e),
                Ok(b) => parse_params(tokens, pos + 1, b.st, b.vars),
            },
            _ => parse_spine(tokens, pos, st, vars, Seq::empty()),
        }
    }
}

/// Reads the spine of a group: a group for each token that opens one, an
/// abstraction for each binder, a leaf for each name.
pub open spec fn parse_spine(
    tokens: Seq<Lexical>,
    pos: nat,
    st: Binding,
    vars: Seq<(nat, nat)>,
    inner: Seq<Term>,
) -> Result<Parsed, Fault>
    decreases tokens.len() - pos, 0nat,
{
    if pos >= tokens.len() {
        finish(st, vars, inner, pos)
    } else {
        match tokens[pos as int] {
            Lexical::Close => finish(st, vars, inner, pos + 1),
            Lexical::Var(n) => match resolve(st, n) {
                Err(e) => Err(e),
                Ok(r) => parse_spine(tokens, pos + 1, r.st, vars, inner.push(r.term)),
            },
            Lexical::Open => match parse_group(tokens, pos + 1, st, None) {
                Err(e) => Err(e),
                Ok(p) => if pos < p.pos <= tokens.len() {
                    parse_spine(tokens, p.pos, p.st, vars, inner.push(p.term))
                } else {
                    Err(Fault::InternalFailure)
                },
            },
            Lexical::Func(n) => match parse_group(tokens, pos + 1, st, Some(n)) {
                Err(e) => Err(e),
                Ok(p) => if pos < p.pos <= tokens.len() {
                    parse_spine(tokens, p.pos, p.st, vars, inner.push(p.term))
                } else {
                    Err(Fault::InternalFailure)
                },
            },
        }
    }
}

/// The binder's state before the first token.
pub open spec fn fresh() -> Binding {
    Binding { level: 0, names: Map::empty(), listings: Seq::empty() }
}

/// The first duplication counter of each registered name: zero for a free
/// variable, one more than its last duplication id for a parameter.
pub open spec fn first_copies(st: Binding, k: nat, acc: Seq<nat>) -> Result<Seq<nat>, Fault>
    decreases st.listings.len() - k,
{
    if k >= st.listings.len() {
        Ok(acc)
    } else if !st.names.contains_key(st.listings[k as int]) {
        Err(Fault::InternalFailure)
    } else {
        match st.names[st.listings[k as int]] {
            Name::Term { .. } => first_copies(st, k + 1, acc.push(0)),
            Name::Var { copy_id, .. } | Name::DeadVar { copy_id, .. } => if copy_id == usize::MAX {
                Err(Fault::ExpressionSizeLimit)
            } else {
                first_copies(st, k + 1, acc.push((copy_id + 1) as nat))
            },
        }
    }
}

/// The pattern of a hygiene qualifier at the start of a name.
pub open spec fn qualifier_pattern() -> Seq<char> {
    "\\A\\$\\S+?\\$"@
}

/// The spelling that is left of `name` without its hygiene qualifier, where
/// it has one.
pub open spec fn unqualified(name: Seq<char>) -> Option<Seq<char>> {
    if name.len() > 0 && name[0] == '$' && pattern_found(qualifier_pattern(), name) {
        Some(pattern_replaced(qualifier_pattern(), name, Seq::empty()))
    } else {
        None
    }
}

/// The names that stand for another, together with the state.
pub struct Unified {
    pub st: Binding,
    pub renames: Map<nat, nat>,
}

/// Unifies the name `index`, whose spelling without qualifier is `short`: if
/// that spelling is known, the name stands for the one that has it; if not,
/// the name takes the spelling for its own.
pub open spec fn unify(st: Binding, renames: Map<nat, nat>, index: nat, short: Seq<char>) -> Result<
    Unified,
    Fault,
> {
    if st.names.contains_key(short) {
        match st.names[short] {
            Name::Term { name_id } => Ok(
                Unified { st, renames: renames.insert(index, name_id as nat) },
            ),
            Name::DeadVar { name_id, copy_id } => Ok(
                Unified { st, renames: renames.insert(index, name_id as nat) },
            ),
            Name::Var { .. } => Err(Fault::InternalFailure),
        }
    } else {
        Ok(
            Unified {
                st: Binding {
                    level: st.level,
                    names: st.names.insert(
                        short,
                        Name::DeadVar { name_id: index as usize, copy_id: 1 },
                    ),
                    listings: st.listings.update(index as int, short),
                },
                renames,
            },
        )
    }
}

/// `unify` for each name from `k` on that carries a hygiene qualifier.
pub open spec fn unify_all(st: Binding, renames: Map<nat, nat>, k: nat) -> Result<Unified, Fault>
    decreases st.listings.len() - k,
{
    if k >= st.listings.len() {
        Ok(Unified { st, renames })
    } else {
        match unqualified(st.listings[k as int]) {
            None => unify_all(st, renames, k + 1),
            Some(short) => match unify(st, renames, k, short) {
                Err(e) => Err(e),
                Ok(u) => if u.st.listings.len() == st.listings.len() {
                    unify_all(u.st, u.renames, k + 1)
                } else {
                    Err(Fault::InternalFailure)
                },
            },
        }
    }
}

/// Unifies every registered name that carries a hygiene qualifier. Where a
/// spelling begins with a dollar sign, the pattern of the qualifier is needed,
/// and one that cannot be compiled is an internal failure.
pub open spec fn remap_spec(st: Binding) -> Result<Unified, Fault> {
    if !plain_from(st.listings, 0) && !pattern_compiles(qualifier_pattern()) {
        Err(Fault::InternalFailure)
    } else {
        unify_all(st, Map::empty(), 0)
    }
}

/// The expression that a token sequence is bound to: the tree of the group
/// that the whole sequence forms, the registered spellings, their first
/// duplication counters, and the names that stand for another.
pub open spec fn build_spec(tokens: Seq<Lexical>) -> Result<Expression, Fault> {
    if tokens.len() == 0 {
        Err(Fault::InternalFailure)
    } else {
        match parse_group(tokens, 0, fresh(), None) {
            Err(e) => Err(e),
            Ok(p) => match first_copies(p.st, 0, Seq::empty()) {
                Err(e) => Err(e),
                Ok(copies) => match remap_spec(p.st) {
                    Err(e) => Err(e),
                    Ok(u) => Ok(
                        Expression {
                            term: p.term,
                            registry: Registry { names: u.st.listings, copies, renames: u.renames },
                        },
                    ),
                },
            },
        }
    }
}

/// The spelling that an optional string holds.
pub open spec fn optional_text(name: Option<String>) -> Option<Seq<char>> {
    match name {
        Some(n) => Some(n@),
        None => None,
    }
}

/// The parameters of a queue that has got one more.
proof fn lemma_params_push(vars: Seq<(usize, usize)>, v: (usize, usize))
    ensures
        params(vars.push(v)) == params(vars).push((v.0 as nat, v.1 as nat)),
{
    assert(params(vars.push(v)) =~= params(vars).push((v.0 as nat, v.1 as nat)));
}

/// The spellings of a vector that has got one more name.
proof fn lemma_spellings_push(names: Seq<String>, name: String)
    ensures
        spellings(names.push(name)) == spellings(names).push(name@),
{
    assert(spellings(names.push(name)) =~= spellings(names).push(name@));
}

/// Retiring fails where a parameter has no registered name.
proof fn lemma_retire_fails(
    names: Map<Seq<char>, Name>,
    listings: Seq<Seq<char>>,
    vars: Seq<(nat, nat)>,
    k: nat,
    bad: nat,
)
    requires
        k <= bad < vars.len(),
        vars[bad as int].0 >= listings.len(),
    ensures
        retire(names, listings, vars, k) == Err::<Map<Seq<char>, Name>, Fault>(
            Fault::InternalFailure,
        ),
    decreases bad - k,
{
    if vars[k as int].0 < listings.len() {
        lemma_retire_fails(
            names.insert(
                listings[vars[k as int].0 as int],
                Name::DeadVar {
                    name_id: vars[k as int].0 as usize,
                    copy_id: vars[k as int].1 as usize,
                },
            ),
            listings,
            vars,
            k + 1,
            bad,
        );
    }
}

/// The state of the binder: how many groups are open, what is known of each
/// spelling, and the spellings in order of registration.
pub struct Builder {
    pub level: usize,
    pub names: StringHashMap<Name>,
    pub listings: Vec<String>,
}

impl View for Builder {
    type V = Binding;

    open spec fn view(&self) -> Binding {
        Binding { level: self.level as nat, names: self.names@, listings: spellings(self.listings@) }
    }
}

impl Builder {
    /// A binder that has read nothing.
    pub fn new() -> (out: Self)
        ensures
            out@ == fresh(),
    {
        let out = Builder { level: 0, names: StringHashMap::new(), listings: Vec::new() };
        assert(out@ =~= fresh());
        out
    }

    /// What is known of `name`.
    pub fn lookup(&self, name: &str) -> (out: Option<Name>)
        ensures
            match out {
                Some(n) => self@.names.contains_key(name@) && self@.names[name@] == n,
                None => !self@.names.contains_key(name@),
            },
    {
        match self.names.get(name) {
            Some(n) => Some(*n),
            None => None,
        }
    }

    /// Binds `name` as the next parameter after `vars`. A spelling that is
    /// bound in a scope that is still open cannot be bound again.
    pub fn add_func_name(&mut self, vars: &mut VecDeque<(NameID, CopyID)>, name: String) -> (r:
        Result<(), LambdaError>)
        ensures
            match bind(old(self)@, params(old(vars)@), name@) {
                Ok(b) => r is Ok && final(self)@ == b.st && params(final(vars)@) == b.vars,
                Err(e) => r is Err && r->Err_0@ == e && final(self)@ == old(self)@ && final(vars)@
                    == old(vars)@,
            },
            old(self)@.names.contains_key(name@) && old(self)@.names[name@] is Var ==> r is Err
                && r->Err_0@ == Fault::ActiveName(name@),
    {
        match self.lookup(name.as_str()) {
            None => {
                proof {
                    lemma_params_push(vars@, (self.listings@.len() as usize, 0));
                    lemma_spellings_push(self.listings@, name);
                }
                self.names.insert(
                    name.clone(),
                    Name::Var { level: self.level, queue_position: vars.len(), copy_id: 0 },
                );
                vars.push_back((self.listings.len(), 0));
                self.listings.push(name);
                assert(self@ =~= bind(old(self)@, params(old(vars)@), name@)->Ok_0.st);
                Ok(())
            },
            Some(Name::DeadVar { name_id, copy_id }) => {
                if copy_id == usize::MAX {
                    return Err(LambdaError::ExpressionSizeLimit);
                }
                proof {
                    lemma_params_push(vars@, (name_id, (copy_id + 1) as usize));
                }
                self.names.insert(
                    name.clone(),
                    Name::Var { level: self.level, queue_position: vars.len(), copy_id: copy_id + 1 },
                );
                vars.push_back((name_id, copy_id + 1));
                assert(self@ =~= bind(old(self)@, params(old(vars)@), name@)->Ok_0.st);
                Ok(())
            },
            Some(Name::Var { .. }) => Err(LambdaError::ActiveName(name)),
            Some(Name::Term { .. }) => Err(LambdaError::ReservedName(name)),
        }
    }

    /// The leaf that `name` stands for where it is used. A parameter whose
    /// scope has closed cannot be used.
    pub fn make_variable(&mut self, name: String) -> (r: Result<Object, LambdaError>)
        ensures
            match resolve(old(self)@, name@) {
                Ok(v) => r is Ok && final(self)@ == v.st && r->Ok_0@ == v.term,
                Err(e) => r is Err && r->Err_0@ == e && final(self)@ == old(self)@,
            },
            old(self)@.names.contains_key(name@) && old(self)@.names[name@] is DeadVar ==> r is Err
                && r->Err_0@ == Fault::UnavailableName(name@),
    {
        match self.lookup(name.as_str()) {
            Some(Name::Term { name_id }) => Ok(Object::Term { name: name_id }),
            Some(Name::Var { level, queue_position, copy_id }) => {
                if level > self.level {
                    Err(LambdaError::InternalFailure)
                } else {
                    Ok(Object::Var { depth: self.level - level, queue_position })
                }
            },
            Some(Name::DeadVar { .. }) => Err(LambdaError::UnavailableName(name)),
            None => {
                let id = self.listings.len();
                proof {
                    lemma_spellings_push(self.listings@, name);
                }
                self.names.insert(name.clone(), Name::Term { name_id: id });
                self.listings.push(name);
                assert(self@ =~= resolve(old(self)@, name@)->Ok_0.st);
                Ok(Object::Term { name: id })
            },
        }
    }

    /// Closes the open group with the parameters `vars` and the spine `inner`.
    /// Where that fails, the binder is as it was.
    pub fn end_closure(&mut self, vars: VecDeque<(NameID, CopyID)>, inner: VecDeque<Object>) -> (r:
        Result<Object, LambdaError>)
        ensures
            match close(old(self)@, params(vars@), terms(inner@)) {
                Ok(v) => r is Ok && final(self)@ == v.st && r->Ok_0@ == v.term,
                Err(e) => r is Err && r->Err_0@ == e && final(self)@ == old(self)@,
            },
    {
        if self.level == 0 {
            return Err(LambdaError::InternalFailure);
        }
        let ghost st = self@;
        let mut check: usize = 0;
        while check < vars.len()
            invariant
                check <= vars@.len(),
                *self == *old(self),
                forall|j: int|
                    0 <= j < check ==> (#[trigger] params(vars@)[j]).0 < self.listings@.len(),
            decreases vars@.len() - check,
        {
            if vars[check].0 >= self.listings.len() {
                proof {
                    lemma_retire_fails(
                        self@.names,
                        self@.listings,
                        params(vars@),
                        0,
                        check as nat,
                    );
                }
                return Err(LambdaError::InternalFailure);
            }
            check += 1;
        }
        let mut k: usize = 0;
        while k < vars.len()
            invariant
                k <= vars@.len(),
                self.level == old(self).level,
                self.listings == old(self).listings,
                st == old(self)@,
                forall|j: int|
                    0 <= j < vars@.len() ==> (#[trigger] params(vars@)[j]).0 < self.listings@.len(),
                retire(st.names, st.listings, params(vars@), 0) == retire(
                    self.names@,
                    st.listings,
                    params(vars@),
                    k as nat,
                ),
            decreases vars@.len() - k,
        {
            let (name_id, copy_id) = vars[k];
            assert(params(vars@)[k as int].0 < self.listings@.len());
            self.names.insert(self.listings[name_id].clone(), Name::DeadVar { name_id, copy_id });
            k += 1;
        }
        self.level -= 1;
        assert(self@ =~= close(old(self)@, params(vars@), terms(inner@))->Ok_0.st);
        if vars.len() == 0 && inner.len() == 1 {
            let mut inner = inner;
            let only = inner.pop_front().unwrap();
            Ok(only.lower(0))
        } else {
            let out = Object::Func { vars, inner };
            proof {
                lemma_func_view(out);
            }
            Ok(out)
        }
    }

    /// Reads one group from the tokens at `*pos` on.
    #[verifier::loop_isolation(false)]
    fn parse_closure(&mut self, tokens: &Vec<Token>, pos: &mut usize, name: Option<String>) -> (r:
        Result<Object, LambdaError>)
        requires
            *old(pos) <= tokens@.len(),
        ensures
            match parse_group(lexicals(tokens@), *old(pos) as nat, old(self)@, optional_text(name)) {
                Ok(p) => r is Ok && r->Ok_0@ == p.term && *final(pos) == p.pos && final(self)@
                    == p.st && *old(pos) <= *final(pos) <= tokens@.len(),
                Err(e) => r is Err && r->Err_0@ == e,
            },
        decreases tokens@.len() - *old(pos),
    {
        let ghost toks = lexicals(tokens@);
        let ghost want = parse_group(toks, *pos as nat, self@, optional_text(name));
        if self.level == usize::MAX {
            return Err(LambdaError::ExpressionSizeLimit);
        }
        self.level += 1;
        assert(self@ =~= (Binding {
            level: old(self)@.level + 1,
            names: old(self)@.names,
            listings: old(self)@.listings,
        }));
        let mut vars: VecDeque<(NameID, CopyID)> = VecDeque::new();
        assert(params(vars@) =~= Seq::<(nat, nat)>::empty());
        match name {
            Some(n) => {
                self.add_func_name(&mut vars, n)?;
            },
            None => {},
        }
        let mut inner: VecDeque<Object> = VecDeque::new();
        assert(terms(inner@) =~= Seq::<Term>::empty());
        let mut in_spine = false;
        loop
            invariant
                *old(pos) <= *pos <= tokens@.len(),
                !in_spine ==> want == parse_params(toks, *pos as nat, self@, params(vars@)),
                !in_spine ==> inner@.len() == 0,
                in_spine ==> want == parse_spine(
                    toks,
                    *pos as nat,
                    self@,
                    params(vars@),
                    terms(inner@),
                ),
            decreases tokens@.len() - *pos, if in_spine { 0nat } else { 1nat },
        {
            if !in_spine {
                assert(terms(inner@) =~= Seq::<Term>::empty());
            }
            if *pos >= tokens.len() {
                return self.end_closure(vars, inner);
            }
            let ghost at = *pos;
            assert(toks[at as int] == tokens@[at as int]@);
            if !in_spine {
                match &tokens[*pos] {
                    Token::Close => {
                        *pos += 1;
                        return self.end_closure(vars, inner);
                    },
                    Token::Func(n) => {
                        *pos += 1;
                        self.add_func_name(&mut vars, n.clone())?;
                    },
                    _ => {
                        in_spine = true;
                    },
                }
            } else {
                match &tokens[*pos] {
                    Token::Close => {
                        *pos += 1;
                        return self.end_closure(vars, inner);
                    },
                    Token::Func(n) => {
                        *pos += 1;
                        let o = self.parse_closure(tokens, pos, Some(n.clone()))?;
                        proof {
                            lemma_terms_push(inner@, o);
                        }
                        inner.push_back(o);
                    },
                    Token::Open => {
                        *pos += 1;
                        let o = self.parse_closure(tokens, pos, None)?;
                        proof {
                            lemma_terms_push(inner@, o);
                        }
                        inner.push_back(o);
                    },
                    Token::Var(n) => {
                        *pos += 1;
                        let o = self.make_variable(n.clone())?;
                        proof {
                            lemma_terms_push(inner@, o);
                        }
                        inner.push_back(o);
                    },
                }
            }
        }
    }
}

/// The pattern of a hygiene qualifier, as the `regex` crate reads it.
fn qualifier() -> (p: &'static str)
    ensures
        p@ == qualifier_pattern(),
{
    "\\A\\$\\S+?\\$"
}

/// Whether `name` begins with a dollar sign.
fn begins_with_dollar(name: &str) -> (b: bool)
    ensures
        b == (name@.len() > 0 && name@[0] == '$'),
{
    name.unicode_len() > 0 && name.get_char(0) == '$'
}

/// For each name, the spelling that is left of it without its hygiene
/// qualifier, where it has one. A name that does not begin with a dollar sign
/// has none; for the others the pattern decides. The result is an internal
/// failure where a name begins with a dollar sign and the pattern cannot be
/// compiled, and there only.
pub fn strip_all(names: &Vec<String>) -> (r: Result<Vec<Option<String>>, LambdaError>)
    ensures
        match r {
            Ok(shorts) => (plain_from(spellings(names@), 0) || pattern_compiles(
                qualifier_pattern(),
            )) && shorts@.len() == names@.len() && forall|i: int|
                0 <= i < shorts@.len() ==> optional_text(#[trigger] shorts@[i]) == unqualified(
                    names@[i]@,
                ),
            Err(e) => e@ == Fault::InternalFailure && !plain_from(spellings(names@), 0)
                && !pattern_compiles(qualifier_pattern()),
        },
{
    let mut shorts: Vec<Option<String>> = Vec::new();
    let mut k: usize = 0;
    while k < names.len() && !begins_with_dollar(names[k].as_str())
        invariant
            k <= names@.len(),
            shorts@.len() == k,
            forall|i: int|
                0 <= i < k ==> !((#[trigger] names@[i])@.len() > 0 && names@[i]@[0] == '$'),
            forall|i: int|
                0 <= i < k ==> optional_text(#[trigger] shorts@[i]) == unqualified(names@[i]@),
        decreases names@.len() - k,
    {
        shorts.push(None);
        k += 1;
    }
    if k == names.len() {
        assert forall|i: int| 0 <= i < spellings(names@).len() implies !((
        #[trigger] spellings(names@)[i]).len() > 0 && spellings(names@)[i][0] == '$') by {
            assert(spellings(names@)[i] == names@[i]@);
        }
        return Ok(shorts);
    }
    proof {
        assert(spellings(names@)[k as int] == names@[k as int]@);
        reveal_strlit("");
        assert(""@ =~= Seq::<char>::empty());
    }
    let pattern = match compile(qualifier()) {
        Ok(p) => p,
        Err(_) => {
            return Err(LambdaError::InternalFailure);
        },
    };
    while k < names.len()
        invariant
            k <= names@.len(),
            shorts@.len() == k,
            pattern@ == qualifier_pattern(),
            ""@ == Seq::<char>::empty(),
            forall|i: int|
                0 <= i < k ==> optional_text(#[trigger] shorts@[i]) == unqualified(names@[i]@),
        decreases names@.len() - k,
    {
        let name = names[k].as_str();
        if begins_with_dollar(name) && is_match(&pattern, name) {
            shorts.push(Some(replace_first(&pattern, name, "")));
        } else {
            shorts.push(None);
        }
        k += 1;
    }
    Ok(shorts)
}

/// No spelling from `k` on begins with a dollar sign.
pub open spec fn plain_from(listings: Seq<Seq<char>>, k: nat) -> bool {
    forall|i: int| k <= i < listings.len() ==> !((#[trigger] listings[i]).len() > 0 && listings[i][0] == '$')
}

impl Builder {
    /// Unifies the name `index`, whose spelling without qualifier is `short`.
    pub fn unify_name(&mut self, remap: &mut HashMap<NameID, NameID>, index: NameID, short: String) -> (r:
        Result<(), LambdaError>)
        requires
            index < old(self).listings@.len(),
        ensures
            match unify(old(self)@, index_map(old(remap)@), index as nat, short@) {
                Ok(u) => r is Ok && final(self)@ == u.st && index_map(final(remap)@) == u.renames,
                Err(e) => r is Err && r->Err_0@ == e && final(self)@ == old(self)@ && final(remap)@
                    == old(remap)@,
            },
    {
        match self.lookup(short.as_str()) {
            Some(Name::Term { name_id }) => {
                proof {
                    lemma_index_map_insert(remap@, index, name_id);
                }
                remap.insert(index, name_id);
                Ok(())
            },
            Some(Name::DeadVar { name_id, copy_id }) => {
                proof {
                    lemma_index_map_insert(remap@, index, name_id);
                }
                remap.insert(index, name_id);
                Ok(())
            },
            Some(Name::Var { .. }) => Err(LambdaError::InternalFailure),
            None => {
                self.names.insert(short.clone(), Name::DeadVar { name_id: index, copy_id: 1 });
                self.listings.set(index, short);
                assert(self@ =~= unify(old(self)@, index_map(old(remap)@), index as nat, short@)->Ok_0.st);
                Ok(())
            },
        }
    }

    /// Unifies every name that carries a hygiene qualifier, and gives the
    /// names that stand for another.
    fn make_name_remap(&mut self) -> (r: Result<HashMap<NameID, NameID>, LambdaError>)
        ensures
            match remap_spec(old(self)@) {
                Ok(u) => r is Ok && final(self)@ == u.st && index_map(r->Ok_0@) == u.renames,
                Err(e) => r is Err && r->Err_0@ == e,
            },
    {
        let ghost want = unify_all(self@, Map::empty(), 0);
        let ghost start = self@.listings;
        let shorts = strip_all(&self.listings)?;
        let mut remap: HashMap<NameID, NameID> = HashMap::new();
        assert(index_map(remap@) =~= Map::<nat, nat>::empty());
        let mut index: usize = 0;
        while index < self.listings.len()
            invariant
                index <= self.listings@.len(),
                self.listings@.len() == start.len(),
                start == old(self)@.listings,
                shorts@.len() == start.len(),
                forall|i: int|
                    0 <= i < shorts@.len() ==> optional_text(#[trigger] shorts@[i]) == unqualified(
                        start[i],
                    ),
                forall|i: int| index <= i < start.len() ==> self@.listings[i] == start[i],
                want == unify_all(old(self)@, Map::empty(), 0),
                want == unify_all(self@, index_map(remap@), index as nat),
            decreases self.listings@.len() - index,
        {
            assert(self@.listings[index as int] == start[index as int]);
            match &shorts[index] {
                None => {},
                Some(short) => {
                    let ghost before = self@;
                    self.unify_name(&mut remap, index, short.clone())?;
                    assert(self@.listings.len() == before.listings.len());
                },
            }
            index += 1;
        }
        Ok(remap)
    }

    /// The first duplication counter of each registered name.
    fn first_counters(&self) -> (r: Result<Vec<CopyID>, LambdaError>)
        ensures
            match first_copies(self@, 0, Seq::empty()) {
                Ok(c) => r is Ok && counts(r->Ok_0@) == c,
                Err(e) => r is Err && r->Err_0@ == e,
            },
    {
        let mut copies: Vec<CopyID> = Vec::new();
        let mut k: usize = 0;
        assert(counts(copies@) =~= Seq::<nat>::empty());
        while k < self.listings.len()
            invariant
                k <= self.listings@.len(),
                first_copies(self@, 0, Seq::empty()) == first_copies(self@, k as nat, counts(copies@)),
            decreases self.listings@.len() - k,
        {
            let ghost before = counts(copies@);
            match self.lookup(self.listings[k].as_str()) {
                None => {
                    return Err(LambdaError::InternalFailure);
                },
                Some(Name::Term { .. }) => {
                    copies.push(0);
                    assert(counts(copies@) =~= before.push(0));
                },
                Some(Name::Var { copy_id, .. }) => {
                    if copy_id == usize::MAX {
                        return Err(LambdaError::ExpressionSizeLimit);
                    }
                    copies.push(copy_id + 1);
                    assert(counts(copies@) =~= before.push((copy_id + 1) as nat));
                },
                Some(Name::DeadVar { copy_id, .. }) => {
                    if copy_id == usize::MAX {
                        return Err(LambdaError::ExpressionSizeLimit);
                    }
                    copies.push(copy_id + 1);
                    assert(counts(copies@) =~= before.push((copy_id + 1) as nat));
                },
            }
            k += 1;
        }
        Ok(copies)
    }
}

/// The spellings that the tokens register, where the tokens can be bound.
pub open spec fn registered(tokens: Seq<Lexical>) -> Seq<Seq<char>> {
    match parse_group(tokens, 0, fresh(), None) {
        Ok(p) => p.st.listings,
        Err(_) => Seq::empty(),
    }
}

/// Binds a token sequence into an expression, which is well formed.
pub fn build(tokens: Vec<Token>) -> (r: Result<Expr, LambdaError>)
    ensures
        match build_spec(lexicals(tokens@)) {
            Ok(e) => r is Ok && r->Ok_0@ == e && crate::scoping::well_formed(e),
            Err(e) => r is Err && r->Err_0@ == e,
        },
{
    proof {
        crate::binding::lemma_build_well_formed(lexicals(tokens@));
    }
    let mut b = Builder::new();
    if tokens.len() == 0 {
        return Err(LambdaError::InternalFailure);
    }
    let mut pos: usize = 0;
    let object = b.parse_closure(&tokens, &mut pos, None)?;
    let copies = b.first_counters()?;
    let remap = b.make_name_remap()?;
    let expr = Expr::new(object, NameSpace::new(b.listings, copies, remap));
    assert(expr@ =~= build_spec(lexicals(tokens@))->Ok_0);
    Ok(expr)
}

} // verus!
