//! What the binder keeps: the tree that it builds from a token sequence is
//! scoped, and its registry is well formed.

use vstd::prelude::*;
use crate::builder::{
    bind, build_spec, close, finish, first_copies, fresh, parse_group, parse_params, parse_spine,
    resolve, retire, unify, unify_all, unqualified, Binding, Name,
};
use crate::errors::Fault;
use crate::objects::Expression;
use crate::parser::Lexical;
use crate::scoping::{all_scoped, lemma_lower_scoped, scoped, well_formed};
use crate::term::Term;

verus! {

/// The parameters of the groups that are open, the outermost first.
pub type Frames = Seq<Seq<(nat, nat)>>;

/// The number of parameters of each open group.
pub open spec fn lens(frames: Frames) -> Seq<nat> {
    Seq::new(frames.len(), |i: int| frames[i].len())
}

/// Whether what the binder knows of `key` fits the open groups: an open
/// parameter stands in the group of its level at its position, under the
/// name that has its spelling; a closed parameter and a free variable have a
/// registered name.
pub open spec fn entry_ok(st: Binding, frames: Frames, key: Seq<char>) -> bool {
    match st.names[key] {
        Name::Var { level, queue_position, copy_id } => {
            &&& 1 <= level <= frames.len()
            &&& queue_position < frames[level - 1].len()
            &&& frames[level - 1][queue_position as int].0 < st.listings.len()
            &&& st.listings[frames[level - 1][queue_position as int].0 as int] == key
        },
        Name::DeadVar { name_id, copy_id } => name_id < st.listings.len() && st.listings[
            name_id as int
        ] == key,
        Name::Term { name_id } => name_id < st.listings.len(),
    }
}

/// Whether the state of the binder fits the open groups `frames`.
pub open spec fn bound_ok(st: Binding, frames: Frames) -> bool {
    &&& st.level == frames.len()
    &&& forall|f: int, j: int|
        0 <= f < frames.len() && 0 <= j < frames[f].len() ==> (#[trigger] frames[f][j]).0
            < st.listings.len()
    &&& forall|k: Seq<char>| st.names.contains_key(k) ==> #[trigger] entry_ok(st, frames, k)
}

/// A scoped tree stays scoped where more names are registered.
pub proof fn lemma_scoped_more_names(t: Term, env: Seq<nat>, names: nat, more: nat)
    requires
        scoped(t, env, names),
        names <= more,
    ensures
        scoped(t, env, more),
    decreases t,
{
    match t {
        Term::Func { vars, inner } => {
            assert forall|i: int| 0 <= i < inner.len() implies scoped(
                #[trigger] inner[i],
                env.push(vars.len()),
                more,
            ) by {
                lemma_scoped_more_names(inner[i], env.push(vars.len()), names, more);
            }
        },
        _ => {},
    }
}

/// Scoped trees stay scoped where more names are registered.
proof fn lemma_all_scoped_more_names(ts: Seq<Term>, env: Seq<nat>, names: nat, more: nat)
    requires
        all_scoped(ts, env, names),
        names <= more,
    ensures
        all_scoped(ts, env, more),
{
    assert forall|i: int| 0 <= i < ts.len() implies scoped(#[trigger] ts[i], env, more) by {
        lemma_scoped_more_names(ts[i], env, names, more);
    }
}

/// Binding a parameter keeps the state fitting, with the parameter in the
/// innermost group.
proof fn lemma_bind_ok(st: Binding, vars: Seq<(nat, nat)>, name: Seq<char>, outer: Frames)
    requires
        bound_ok(st, outer.push(vars)),
        vars.len() < usize::MAX,
        st.listings.len() < usize::MAX,
        st.level <= usize::MAX,
    ensures
        bind(st, vars, name) matches Ok(b) ==> bound_ok(b.st, outer.push(b.vars)) && b.vars.len()
            == vars.len() + 1 && st.listings.len() <= b.st.listings.len() <= st.listings.len() + 1
            && b.st.level == st.level,
{
    if let Ok(b) = bind(st, vars, name) {
        let before = outer.push(vars);
        let after = outer.push(b.vars);
        assert forall|f: int, j: int| 0 <= f < after.len() && 0 <= j < after[f].len() implies (
        #[trigger] after[f][j]).0 < b.st.listings.len() by {
            if f < outer.len() {
                assert(after[f] == before[f]);
            } else if j < vars.len() {
                assert(after[f][j] == before[f][j]);
            } else if st.names.contains_key(name) {
                assert(entry_ok(st, before, name));
            }
        }
        assert forall|k: Seq<char>| b.st.names.contains_key(k) implies #[trigger] entry_ok(
            b.st,
            after,
            k,
        ) by {
            if k == name {
                if st.names.contains_key(name) {
                    assert(entry_ok(st, before, name));
                }
            } else {
                assert(entry_ok(st, before, k));
                match st.names[k] {
                    Name::Var { level, queue_position, copy_id } => {
                        if level - 1 < outer.len() {
                            assert(after[level - 1] == before[level - 1]);
                        } else {
                            assert(after[level - 1][queue_position as int] == before[level
                                - 1][queue_position as int]);
                        }
                    },
                    _ => {},
                }
            }
        }
    }
}

/// Resolving a name keeps the state fitting and gives a scoped leaf.
proof fn lemma_resolve_ok(st: Binding, name: Seq<char>, frames: Frames)
    requires
        bound_ok(st, frames),
        st.listings.len() < usize::MAX,
    ensures
        resolve(st, name) matches Ok(r) ==> bound_ok(r.st, frames) && scoped(
            r.term,
            lens(frames),
            r.st.listings.len(),
        ) && st.listings.len() <= r.st.listings.len() <= st.listings.len() + 1 && r.st.level
            == st.level,
{
    if let Ok(r) = resolve(st, name) {
        assert forall|k: Seq<char>| r.st.names.contains_key(k) implies #[trigger] entry_ok(
            r.st,
            frames,
            k,
        ) by {
            if k != name || st.names.contains_key(name) {
                assert(entry_ok(st, frames, k));
            }
        }
        if st.names.contains_key(name) {
            assert(entry_ok(st, frames, name));
        }
    }
}

/// The table after the parameters `vars[k..]` have retired: every spelling of
/// theirs is closed, and nothing else has changed.
proof fn lemma_retire(
    names: Map<Seq<char>, Name>,
    listings: Seq<Seq<char>>,
    vars: Seq<(nat, nat)>,
    k: nat,
)
    requires
        k <= vars.len(),
        listings.len() <= usize::MAX,
        forall|j: int| 0 <= j < vars.len() ==> (#[trigger] vars[j]).0 < listings.len(),
    ensures
        retire(names, listings, vars, k) is Ok,
        forall|key: Seq<char>| #[trigger]
            retire(names, listings, vars, k)->Ok_0.contains_key(key) ==> {
                ||| names.contains_key(key) && retire(names, listings, vars, k)->Ok_0[key]
                    == names[key] && forall|j: int|
                    k <= j < vars.len() ==> listings[(#[trigger] vars[j]).0 as int] != key
                ||| retire(names, listings, vars, k)->Ok_0[key] matches Name::DeadVar {
                    name_id,
                    copy_id,
                } && name_id < listings.len() && listings[name_id as int] == key
            },
    decreases vars.len() - k,
{
    if k < vars.len() {
        assert(vars[k as int].0 < listings.len());
        let id = vars[k as int].0;
        let next = names.insert(
            listings[id as int],
            Name::DeadVar { name_id: id as usize, copy_id: vars[k as int].1 as usize },
        );
        lemma_retire(next, listings, vars, k + 1);
        let out = retire(names, listings, vars, k)->Ok_0;
        assert forall|key: Seq<char>| #[trigger] out.contains_key(key) implies {
            ||| names.contains_key(key) && out[key] == names[key] && forall|j: int|
                k <= j < vars.len() ==> listings[(#[trigger] vars[j]).0 as int] != key
            ||| out[key] matches Name::DeadVar { name_id, copy_id } && name_id < listings.len()
                && listings[name_id as int] == key
        } by {
            if next.contains_key(key) && out[key] == next[key] && (forall|j: int|
                k + 1 <= j < vars.len() ==> listings[(#[trigger] vars[j]).0 as int] != key) {
                if key == listings[id as int] {
                } else {
                    assert forall|j: int| k <= j < vars.len() implies listings[(
                    #[trigger] vars[j]).0 as int] != key by {}
                }
            }
        }
    }
}

/// Closing a group keeps the state fitting for the groups around it, and
/// gives a tree that is scoped there.
proof fn lemma_close_ok(st: Binding, vars: Seq<(nat, nat)>, inner: Seq<Term>, outer: Frames)
    requires
        bound_ok(st, outer.push(vars)),
        all_scoped(inner, lens(outer.push(vars)), st.listings.len()),
        st.listings.len() <= usize::MAX,
    ensures
        close(st, vars, inner) matches Ok(r) ==> bound_ok(r.st, outer) && scoped(
            r.term,
            lens(outer),
            r.st.listings.len(),
        ) && r.st.listings == st.listings,
{
    let all = outer.push(vars);
    assert forall|j: int| 0 <= j < vars.len() implies (#[trigger] vars[j]).0
        < st.listings.len() by {
        assert(all[outer.len() as int][j] == vars[j]);
    }
    lemma_retire(st.names, st.listings, vars, 0);
    if let Ok(r) = close(st, vars, inner) {
        assert forall|f: int, j: int| 0 <= f < outer.len() && 0 <= j < outer[f].len() implies (
        #[trigger] outer[f][j]).0 < r.st.listings.len() by {
            assert(all[f][j] == outer[f][j]);
        }
        assert forall|k: Seq<char>| r.st.names.contains_key(k) implies #[trigger] entry_ok(
            r.st,
            outer,
            k,
        ) by {
            if st.names.contains_key(k) && r.st.names[k] == st.names[k] && (forall|j: int|
                0 <= j < vars.len() ==> st.listings[(#[trigger] vars[j]).0 as int] != k) {
                assert(entry_ok(st, all, k));
                match st.names[k] {
                    Name::Var { level, queue_position, copy_id } => {
                        if level - 1 == outer.len() {
                            assert(all[level - 1][queue_position as int] == vars[
                                queue_position as int
                            ]);
                            assert(false);
                        } else {
                            assert(all[level - 1] == outer[level - 1]);
                        }
                    },
                    _ => {},
                }
            }
        }
        assert(lens(all) =~= lens(outer).push(vars.len()));
        if vars.len() == 0 && inner.len() == 1 {
            let none = Seq::<nat>::empty();
            assert(lens(outer).push(0) + none =~= lens(all));
            assert(lens(outer) + none =~= lens(outer));
            lemma_lower_scoped(inner[0], lens(outer), none, st.listings.len());
        } else {
            assert forall|j: int| 0 <= j < vars.len() implies (#[trigger] vars[j]).0
                < st.listings.len() by {}
        }
    }
}

/// Reading a group keeps the state fitting and gives a scoped tree.
pub proof fn lemma_parse_group_ok(
    tokens: Seq<Lexical>,
    pos: nat,
    st: Binding,
    name: Option<Seq<char>>,
    frames: Frames,
)
    requires
        tokens.len() <= usize::MAX,
        pos <= tokens.len(),
        bound_ok(st, frames),
        st.listings.len() + (if name is Some { 1nat } else { 0nat }) <= pos,
    ensures
        parse_group(tokens, pos, st, name) matches Ok(p) ==> bound_ok(p.st, frames) && scoped(
            p.term,
            lens(frames),
            p.st.listings.len(),
        ) && st.listings.len() <= p.st.listings.len() <= p.pos && pos <= p.pos <= tokens.len(),
    decreases tokens.len() - pos, 2nat,
{
    if st.level < usize::MAX {
        let opened = Binding { level: st.level + 1, names: st.names, listings: st.listings };
        let none = Seq::<(nat, nat)>::empty();
        assert(bound_ok(opened, frames.push(none))) by {
            let all = frames.push(none);
            assert forall|f: int, j: int| 0 <= f < all.len() && 0 <= j < all[f].len() implies (
            #[trigger] all[f][j]).0 < opened.listings.len() by {
                assert(all[f] == frames[f]);
            }
            assert forall|k: Seq<char>| opened.names.contains_key(k) implies #[trigger] entry_ok(
                opened,
                all,
                k,
            ) by {
                assert(entry_ok(st, frames, k));
                match st.names[k] {
                    Name::Var { level, queue_position, copy_id } => {
                        assert(all[level - 1] == frames[level - 1]);
                    },
                    _ => {},
                }
            }
        }
        match name {
            None => {
                lemma_parse_params_ok(tokens, pos, opened, none, frames);
            },
            Some(n) => {
                lemma_bind_ok(opened, none, n, frames);
                if let Ok(b) = bind(opened, none, n) {
                    lemma_parse_params_ok(tokens, pos, b.st, b.vars, frames);
                }
            },
        }
    }
}

/// Reading the parameters of a group, and then its spine, keeps the state
/// fitting and gives a scoped tree.
pub proof fn lemma_parse_params_ok(
    tokens: Seq<Lexical>,
    pos: nat,
    st: Binding,
    vars: Seq<(nat, nat)>,
    outer: Frames,
)
    requires
        tokens.len() <= usize::MAX,
        pos <= tokens.len(),
        bound_ok(st, outer.push(vars)),
        st.level <= usize::MAX,
        st.listings.len() <= pos,
        vars.len() <= pos,
    ensures
        parse_params(tokens, pos, st, vars) matches Ok(p) ==> bound_ok(p.st, outer) && scoped(
            p.term,
            lens(outer),
            p.st.listings.len(),
        ) && st.listings.len() <= p.st.listings.len() <= p.pos && pos <= p.pos <= tokens.len(),
    decreases tokens.len() - pos, 1nat,
{
    let none = Seq::<Term>::empty();
    if pos >= tokens.len() {
        lemma_close_ok(st, vars, none, outer);
    } else {
        match tokens[pos as int] {
            Lexical::Close => {
                lemma_close_ok(st, vars, none, outer);
            },
            Lexical::Func(n) => {
                lemma_bind_ok(st, vars, n, outer);
                if let Ok(b) = bind(st, vars, n) {
                    lemma_parse_params_ok(tokens, pos + 1, b.st, b.vars, outer);
                }
            },
            _ => {
                lemma_parse_spine_ok(tokens, pos, st, vars, none, outer);
            },
        }
    }
}

/// Reading the spine of a group keeps the state fitting and gives a scoped
/// tree.
pub proof fn lemma_parse_spine_ok(
    tokens: Seq<Lexical>,
    pos: nat,
    st: Binding,
    vars: Seq<(nat, nat)>,
    inner: Seq<Term>,
    outer: Frames,
)
    requires
        tokens.len() <= usize::MAX,
        pos <= tokens.len(),
        bound_ok(st, outer.push(vars)),
        st.level <= usize::MAX,
        all_scoped(inner, lens(outer.push(vars)), st.listings.len()),
        st.listings.len() <= pos,
    ensures
        parse_spine(tokens, pos, st, vars, inner) matches Ok(p) ==> bound_ok(p.st, outer) && scoped(
            p.term,
            lens(outer),
            p.st.listings.len(),
        ) && st.listings.len() <= p.st.listings.len() <= p.pos && pos <= p.pos <= tokens.len(),
    decreases tokens.len() - pos, 0nat,
{
    let frames = outer.push(vars);
    let env = lens(frames);
    if pos >= tokens.len() {
        lemma_close_ok(st, vars, inner, outer);
    } else {
        match tokens[pos as int] {
            Lexical::Close => {
                lemma_close_ok(st, vars, inner, outer);
            },
            Lexical::Var(n) => {
                lemma_resolve_ok(st, n, frames);
                if let Ok(r) = resolve(st, n) {
                    lemma_all_scoped_more_names(inner, env, st.listings.len(), r.st.listings.len());
                    lemma_parse_spine_ok(tokens, pos + 1, r.st, vars, inner.push(r.term), outer);
                }
            },
            Lexical::Open => {
                lemma_parse_group_ok(tokens, pos + 1, st, None, frames);
                if let Ok(p) = parse_group(tokens, pos + 1, st, None) {
                    lemma_all_scoped_more_names(inner, env, st.listings.len(), p.st.listings.len());
                    if pos < p.pos <= tokens.len() {
                        lemma_parse_spine_ok(tokens, p.pos, p.st, vars, inner.push(p.term), outer);
                    }
                }
            },
            Lexical::Func(n) => {
                lemma_parse_group_ok(tokens, pos + 1, st, Some(n), frames);
                if let Ok(p) = parse_group(tokens, pos + 1, st, Some(n)) {
                    lemma_all_scoped_more_names(inner, env, st.listings.len(), p.st.listings.len());
                    if pos < p.pos <= tokens.len() {
                        lemma_parse_spine_ok(tokens, p.pos, p.st, vars, inner.push(p.term), outer);
                    }
                }
            },
        }
    }
}

/// Whether every name identity that the binder knows is registered.
pub open spec fn ids_ok(st: Binding) -> bool {
    forall|k: Seq<char>| #[trigger]
        st.names.contains_key(k) ==> match st.names[k] {
            Name::Var { .. } => true,
            Name::DeadVar { name_id, copy_id } => name_id < st.listings.len(),
            Name::Term { name_id } => name_id < st.listings.len(),
        }
}

/// There is a first counter for each registered name.
proof fn lemma_first_copies_len(st: Binding, k: nat, acc: Seq<nat>)
    requires
        k <= st.listings.len(),
    ensures
        first_copies(st, k, acc) matches Ok(c) ==> c.len() == acc.len() + st.listings.len() - k,
    decreases st.listings.len() - k,
{
    if k < st.listings.len() && st.names.contains_key(st.listings[k as int]) {
        match st.names[st.listings[k as int]] {
            Name::Term { .. } => {
                lemma_first_copies_len(st, k + 1, acc.push(0));
            },
            Name::Var { copy_id, .. } => {
                if copy_id != usize::MAX {
                    lemma_first_copies_len(st, k + 1, acc.push((copy_id + 1) as nat));
                }
            },
            Name::DeadVar { copy_id, .. } => {
                if copy_id != usize::MAX {
                    lemma_first_copies_len(st, k + 1, acc.push((copy_id + 1) as nat));
                }
            },
        }
    }
}

/// Unifying the qualified names registers no name and makes a name stand for
/// registered names only.
proof fn lemma_unify_all_ok(st: Binding, renames: Map<nat, nat>, k: nat)
    requires
        k <= st.listings.len(),
        st.listings.len() <= usize::MAX,
        ids_ok(st),
        forall|id: nat| renames.contains_key(id) ==> #[trigger] renames[id] < st.listings.len(),
    ensures
        unify_all(st, renames, k) matches Ok(u) ==> u.st.listings.len() == st.listings.len()
            && forall|id: nat|
            u.renames.contains_key(id) ==> #[trigger] u.renames[id] < st.listings.len(),
    decreases st.listings.len() - k,
{
    if k < st.listings.len() {
        match unqualified(st.listings[k as int]) {
            None => {
                lemma_unify_all_ok(st, renames, k + 1);
            },
            Some(short) => {
                if let Ok(u) = unify(st, renames, k, short) {
                    if st.names.contains_key(short) {
                        assert(ids_ok(u.st));
                    } else {
                        assert forall|key: Seq<char>| #[trigger]
                            u.st.names.contains_key(key) implies match u.st.names[key] {
                            Name::Var { .. } => true,
                            Name::DeadVar { name_id, copy_id } => name_id < u.st.listings.len(),
                            Name::Term { name_id } => name_id < u.st.listings.len(),
                        } by {
                            if key != short {
                                assert(st.names.contains_key(key));
                            }
                        }
                    }
                    lemma_unify_all_ok(u.st, u.renames, k + 1);
                }
            },
        }
    }
}

/// An expression that the binder builds is well formed: every reference of
/// its tree finds its parameter, every name is registered and has its
/// counter, and a name stands for a registered name only.
pub proof fn lemma_build_well_formed(tokens: Seq<Lexical>)
    requires
        tokens.len() <= usize::MAX,
    ensures
        build_spec(tokens) matches Ok(e) ==> well_formed(e),
{
    let none = Seq::<Seq<(nat, nat)>>::empty();
    if tokens.len() > 0 {
        assert(bound_ok(fresh(), none));
        lemma_parse_group_ok(tokens, 0, fresh(), None, none);
        if let Ok(p) = parse_group(tokens, 0, fresh(), None) {
            assert(lens(none) =~= Seq::<nat>::empty());
            lemma_first_copies_len(p.st, 0, Seq::empty());
            assert(ids_ok(p.st)) by {
                assert forall|k: Seq<char>| #[trigger] p.st.names.contains_key(k) implies match p.st.names[k] {
                    Name::Var { .. } => true,
                    Name::DeadVar { name_id, copy_id } => name_id < p.st.listings.len(),
                    Name::Term { name_id } => name_id < p.st.listings.len(),
                } by {
                    assert(entry_ok(p.st, none, k));
                }
            }
            lemma_unify_all_ok(p.st, Map::empty(), 0);
        }
    }
}

/// The name identity that the binder has for a spelling that is no open
/// parameter.
pub open spec fn identity_of(n: Name) -> nat {
    match n {
        Name::Var { level, queue_position, copy_id } => 0,
        Name::DeadVar { name_id, copy_id } => name_id as nat,
        Name::Term { name_id } => name_id as nat,
    }
}

/// The name that `id` stands for under `renames`.
pub open spec fn stands_for(renames: Map<nat, nat>, id: nat) -> nat {
    if renames.contains_key(id) {
        renames[id]
    } else {
        id
    }
}

/// Whether the names before `k` that carry a qualifier have been unified:
/// the spelling of each without its qualifier is known, and the name stands
/// for the one that has that spelling.
pub open spec fn unified_to(st: Binding, renames: Map<nat, nat>, start: Seq<Seq<char>>, k: nat) -> bool {
    &&& st.listings.len() == start.len()
    &&& forall|m: int| k <= m < start.len() ==> st.listings[m] == start[m]
    &&& forall|m: nat| renames.contains_key(m) ==> m < k
    &&& forall|i: int|
        0 <= i < k && (#[trigger] unqualified(start[i])) is Some ==> {
            let short = unqualified(start[i])->Some_0;
            &&& st.names.contains_key(short)
            &&& !(st.names[short] is Var)
            &&& identity_of(st.names[short]) == stands_for(renames, i as nat)
        }
}

/// Unifying keeps what is unified.
proof fn lemma_unify_all_shares(st: Binding, renames: Map<nat, nat>, start: Seq<Seq<char>>, k: nat)
    requires
        k <= start.len(),
        start.len() <= usize::MAX,
        unified_to(st, renames, start, k),
    ensures
        unify_all(st, renames, k) matches Ok(u) ==> unified_to(
            u.st,
            u.renames,
            start,
            start.len() as nat,
        ),
    decreases start.len() - k,
{
    if k < start.len() {
        match unqualified(st.listings[k as int]) {
            None => {
                lemma_unify_all_shares(st, renames, start, k + 1);
            },
            Some(short) => {
                if let Ok(u) = unify(st, renames, k, short) {
                    assert(unified_to(u.st, u.renames, start, k + 1)) by {
                        assert forall|i: int|
                            0 <= i < k + 1 && (#[trigger] unqualified(start[i])) is Some implies {
                            let s = unqualified(start[i])->Some_0;
                            &&& u.st.names.contains_key(s)
                            &&& !(u.st.names[s] is Var)
                            &&& identity_of(u.st.names[s]) == stands_for(u.renames, i as nat)
                        } by {
                            if i < k {
                                let s = unqualified(start[i])->Some_0;
                                assert(st.names.contains_key(s));
                                assert(!renames.contains_key(k));
                            }
                        }
                    }
                    lemma_unify_all_shares(u.st, u.renames, start, k + 1);
                }
            },
        }
    }
}

/// Two registered names that carry qualifiers and are spelled alike without
/// them stand for one name: a variable of one spelling inside two keywords
/// is one variable.
pub proof fn lemma_qualified_names_share(tokens: Seq<Lexical>, i: int, j: int)
    requires
        tokens.len() <= usize::MAX,
        0 <= i < crate::builder::registered(tokens).len(),
        0 <= j < crate::builder::registered(tokens).len(),
        unqualified(crate::builder::registered(tokens)[i]) is Some,
        unqualified(crate::builder::registered(tokens)[i]) == unqualified(
            crate::builder::registered(tokens)[j],
        ),
    ensures
        build_spec(tokens) matches Ok(e) ==> e.registry.canonical(i as nat) == e.registry.canonical(
            j as nat,
        ),
{
    if tokens.len() > 0 {
        let none = Seq::<Seq<(nat, nat)>>::empty();
        assert(bound_ok(fresh(), none));
        lemma_parse_group_ok(tokens, 0, fresh(), None, none);
        if let Ok(p) = parse_group(tokens, 0, fresh(), None) {
            let none_yet = Map::<nat, nat>::empty();
            assert(unified_to(p.st, none_yet, p.st.listings, 0));
            lemma_unify_all_shares(p.st, none_yet, p.st.listings, 0);
        }
    }
}

/// The tokens of the identity that binds the spelling `x`.
pub open spec fn identity_tokens(x: Seq<char>) -> Seq<Lexical> {
    seq![Lexical::Open, Lexical::Func(x), Lexical::Var(x), Lexical::Close]
}

/// The state of the binder behind the tokens of the identity at the start of
/// a text: the outer group is open, and the spelling of the parameter is
/// registered and closed.
pub open spec fn behind_identity(x: Seq<char>) -> Binding {
    Binding {
        level: 1,
        names: Map::<Seq<char>, Name>::empty().insert(
            x,
            Name::Var { level: 2, queue_position: 0, copy_id: 0 },
        ).insert(x, Name::DeadVar { name_id: 0, copy_id: 0 }),
        listings: Seq::<Seq<char>>::empty().push(x),
    }
}

/// The tokens of the identity at the start of a text are bound to the
/// identity, which is then the first element of the outer spine.
pub proof fn lemma_identity_parsed(x: Seq<char>, rest: Seq<Lexical>)
    ensures
        parse_group(identity_tokens(x) + rest, 0, fresh(), None) == parse_spine(
            identity_tokens(x) + rest,
            4,
            behind_identity(x),
            Seq::empty(),
            seq![crate::laws::identity((0, 0))],
        ),
{
    let t = identity_tokens(x) + rest;
    let none = Seq::<(nat, nat)>::empty();
    let no_terms = Seq::<Term>::empty();
    let var = Term::Var { depth: 0, position: 0 };
    let id = crate::laws::identity((0, 0));
    assert(t.len() >= 4 && t[0] == Lexical::Open && t[1] == Lexical::Func(x) && t[2]
        == Lexical::Var(x) && t[3] == Lexical::Close);
    let o1 = Binding { level: 1, names: Map::empty(), listings: Seq::empty() };
    let o2 = Binding { level: 2, names: Map::empty(), listings: Seq::empty() };
    let b = Binding {
        level: 2,
        names: Map::<Seq<char>, Name>::empty().insert(
            x,
            Name::Var { level: 2, queue_position: 0, copy_id: 0 },
        ),
        listings: Seq::<Seq<char>>::empty().push(x),
    };
    let vars = none.push((0nat, 0nat));
    assert(bind(o2, none, x) == Ok::<crate::builder::Bound, Fault>(
        crate::builder::Bound { st: b, vars },
    ));
    assert(resolve(b, x) == Ok::<crate::builder::Resolved, Fault>(
        crate::builder::Resolved { st: b, term: var },
    ));
    let spine = no_terms.push(var);
    assert(retire(behind_identity(x).names, b.listings, vars, 1) == Ok::<
        Map<Seq<char>, Name>,
        Fault,
    >(behind_identity(x).names));
    assert(retire(b.names, b.listings, vars, 0) == Ok::<Map<Seq<char>, Name>, Fault>(
        behind_identity(x).names,
    ));
    assert(vars =~= seq![(0nat, 0nat)]);
    assert(spine =~= seq![var]);
    assert(close(b, vars, spine) == Ok::<crate::builder::Resolved, Fault>(
        crate::builder::Resolved { st: behind_identity(x), term: id },
    ));
    let done = Ok::<crate::builder::Parsed, Fault>(
        crate::builder::Parsed { term: id, pos: 4, st: behind_identity(x) },
    );
    assert(finish(b, vars, spine, 4) == done);
    assert(parse_spine(t, 3, b, vars, spine) == done);
    assert(parse_spine(t, 2, b, vars, no_terms) == done);
    assert(parse_params(t, 2, b, vars) == done);
    assert(parse_params(t, 1, o2, none) == done);
    assert(parse_group(t, 1, o1, None) == done);
    let after = parse_spine(t, 4, behind_identity(x), none, no_terms.push(id));
    assert(no_terms.push(id) =~= seq![id]);
    assert(parse_spine(t, 0, o1, none, no_terms) == after);
    assert(parse_params(t, 0, o1, none) == after);
    assert(parse_group(t, 0, fresh(), None) == after);
}

/// A spine that is read further keeps the elements it has: the group that
/// it closes to begins with them, or is the one element that it has.
pub proof fn lemma_spine_keeps(
    tokens: Seq<Lexical>,
    pos: nat,
    st: Binding,
    inner: Seq<Term>,
)
    requires
        inner.len() >= 1,
    ensures
        parse_spine(tokens, pos, st, Seq::empty(), inner) matches Ok(p) ==> {
            ||| inner.len() == 1 && p.term == crate::term::lower_term(inner[0], 0)
            ||| p.term matches Term::Func { vars, inner: full } && vars.len() == 0 && full.len()
                >= 2 && full.len() >= inner.len() && forall|i: int|
                0 <= i < inner.len() ==> full[i] == inner[i]
        },
    decreases tokens.len() - pos, 0nat,
{
    let none = Seq::<(nat, nat)>::empty();
    if pos < tokens.len() {
        match tokens[pos as int] {
            Lexical::Close => {},
            Lexical::Var(n) => {
                if let Ok(r) = resolve(st, n) {
                    lemma_spine_keeps(tokens, pos + 1, r.st, inner.push(r.term));
                }
            },
            Lexical::Open => {
                if let Ok(p) = parse_group(tokens, pos + 1, st, None) {
                    if pos < p.pos <= tokens.len() {
                        lemma_spine_keeps(tokens, p.pos, p.st, inner.push(p.term));
                    }
                }
            },
            Lexical::Func(n) => {
                if let Ok(p) = parse_group(tokens, pos + 1, st, Some(n)) {
                    if pos < p.pos <= tokens.len() {
                        lemma_spine_keeps(tokens, p.pos, p.st, inner.push(p.term));
                    }
                }
            },
        }
    }
}

/// A tree that is scoped under a group without parameters refers to nothing
/// outside itself.
pub proof fn lemma_scoped_closed(t: Term, local: Seq<nat>, names: nat)
    requires
        scoped(t, seq![0nat] + local, names),
    ensures
        crate::laws::closed_below(t, local.len()),
    decreases t,
{
    let env = seq![0nat] + local;
    match t {
        Term::Func { vars, inner } => {
            assert forall|i: int| 0 <= i < inner.len() implies crate::laws::closed_below(
                #[trigger] inner[i],
                local.len() + 1,
            ) by {
                assert(env.push(vars.len()) =~= seq![0nat] + local.push(vars.len()));
                lemma_scoped_closed(inner[i], local.push(vars.len()), names);
            }
        },
        Term::Var { depth, position } => {
            if depth >= local.len() {
                assert(env[env.len() - 1 - depth] == 0);
            }
        },
        Term::Free { name } => {},
    }
}

/// What follows the first element of a spine: the one element, or the
/// group of the others.
pub open spec fn followed(inner: Seq<Term>) -> Term {
    if inner.len() == 2 {
        inner[1]
    } else {
        Term::Func { vars: Seq::empty(), inner: inner.skip(1) }
    }
}

/// The identity law for what the binder builds: where the tokens of the
/// identity stand before further tokens, the expression that is built is the
/// identity alone, or a spine that begins with the identity; and where what
/// follows the identity is in normal form, the expression reduces to it,
/// wherever its first element can be copied.
pub proof fn lemma_identity_built(x: Seq<char>, rest: Seq<Lexical>)
    requires
        rest.len() + 4 <= usize::MAX,
    ensures
        build_spec(identity_tokens(x) + rest) matches Ok(e) ==> {
            ||| e.term == crate::laws::identity((0, 0))
            ||| {
                &&& e.term matches Term::Func { vars, inner }
                &&& vars.len() == 0
                &&& inner.len() >= 2
                &&& inner[0] == crate::laws::identity((0, 0))
                &&& crate::laws::settled(followed(inner), (crate::MAX_OBJECT_DEPTH - 2) as nat)
                    ==> match crate::term::clone_term(inner[1], e.registry.copies, 0, 0) {
                    Ok(c) => crate::term::reduce_term(
                        e.term,
                        e.registry.copies,
                        crate::MAX_OBJECT_DEPTH as nat,
                    ) == Ok::<crate::term::Reduced, Fault>(
                        crate::term::Reduced { term: followed(inner), copies: c.copies },
                    ),
                    Err(f) => crate::term::reduce_term(
                        e.term,
                        e.registry.copies,
                        crate::MAX_OBJECT_DEPTH as nat,
                    ) == Err::<crate::term::Reduced, Fault>(f),
                }
            }
        },
{
    let tokens = identity_tokens(x) + rest;
    let id = crate::laws::identity((0, 0));
    let fuel = crate::MAX_OBJECT_DEPTH as nat;
    lemma_identity_parsed(x, rest);
    lemma_spine_keeps(tokens, 4, behind_identity(x), seq![id]);
    lemma_build_well_formed(tokens);
    if let Ok(e) = build_spec(tokens) {
        let var = Term::Var { depth: 0, position: 0 };
        assert(id->inner =~= seq![var]);
        assert(crate::term::lower_term(var, 1) == var);
        assert(crate::term::lower_term(id, 0)->inner =~= id->inner);
        assert(crate::term::lower_term(id, 0) == id);
        if e.term != id {
            let inner = e.term->inner;
            let copies = e.registry.copies;
            let names = e.registry.names.len();
            let none = Seq::<nat>::empty();
            assert(e.term->vars =~= Seq::<(nat, nat)>::empty());
            assert forall|i: int| 0 <= i < inner.len() implies crate::laws::closed_below(
                #[trigger] inner[i],
                0,
            ) by {
                assert(Seq::<nat>::empty().push(0nat) =~= seq![0nat] + none);
                lemma_scoped_closed(inner[i], none, names);
            }
            if crate::laws::settled(followed(inner), (fuel - 2) as nat) {
                if inner.len() == 2 {
                    assert(inner =~= seq![id, inner[1]]);
                    assert(e.term == crate::laws::identity_applied((0, 0), inner[1]));
                    crate::laws::lemma_identity((0, 0), inner[1], copies, fuel);
                } else {
                    let rest_of = inner.skip(1);
                    assert(seq![id] + rest_of =~= inner);
                    assert(e.term == crate::laws::identity_before((0, 0), rest_of));
                    assert forall|i: int| 0 <= i < rest_of.len() implies crate::laws::closed_below(
                        #[trigger] rest_of[i],
                        0,
                    ) by {
                        assert(rest_of[i] == inner[i + 1]);
                    }
                    crate::laws::lemma_settled_more_fuel(
                        followed(inner),
                        (fuel - 2) as nat,
                        (fuel - 1) as nat,
                    );
                    assert(rest_of[0] == inner[1]);
                    crate::laws::lemma_identity_before((0, 0), rest_of, copies, fuel);
                }
            }
        }
    }
}

} // verus!
