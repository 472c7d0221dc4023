//! Variable scopes: each scope maps names to values and may have an
//! enclosing scope; a name is looked up from the innermost scope outwards.
use vstd::prelude::*;
use crate::token::Token;

verus! {

/// An error met while running a program.
pub struct RuntimeError {
    pub message: String,
}

/// A scope of variables and the scopes that enclose it.
pub struct Environment<V> {
    variables: Vec<(String, V)>,
    parent: Option<Box<Environment<V>>>,
}

/// The bindings of a list of key/value pairs, keys taken by their views; a
/// later pair wins.
pub open spec fn bindings<K: View, V>(vars: Seq<(K, V)>) -> Map<K::V, V>
    decreases vars.len(),
{
    if vars.len() == 0 {
        Map::empty()
    } else {
        bindings(vars.drop_last()).insert(vars.last().0@, vars.last().1)
    }
}

/// No key occurs twice in a list of key/value pairs.
pub open spec fn distinct_names<K: View, V>(vars: Seq<(K, V)>) -> bool {
    forall|i: int, j: int| 0 <= i < j < vars.len() ==> vars[i].0@ != vars[j].0@
}

/// The index of the first scope, innermost first, that binds `name`.
pub open spec fn scope_of<V>(scopes: Seq<Map<Seq<char>, V>>, name: Seq<char>) -> Option<int>
    decreases scopes.len(),
{
    if scopes.len() == 0 {
        None
    } else if scopes[0].contains_key(name) {
        Some(0)
    } else {
        match scope_of(scopes.drop_first(), name) {
            Some(i) => Some(i + 1),
            None => None,
        }
    }
}

/// The value a name has: its binding in the innermost scope that binds it.
pub open spec fn lookup<V>(scopes: Seq<Map<Seq<char>, V>>, name: Seq<char>) -> Option<V> {
    match scope_of(scopes, name) {
        Some(i) => Some(scopes[i][name]),
        None => None,
    }
}

/// The message of the error for a name that no scope binds.
pub open spec fn undefined_message(name: Seq<char>) -> Seq<char> {
    "Undefined variable '"@ + name + "'."@
}

impl<V> Environment<V> {
    /// The scopes, innermost first.
    pub closed spec fn scopes(&self) -> Seq<Map<Seq<char>, V>>
        decreases self,
    {
        let here = bindings(self.variables@);
        match &self.parent {
            Some(p) => seq![here] + p.scopes(),
            None => seq![here],
        }
    }

    /// Every scope lists each name once.
    pub closed spec fn wf(&self) -> bool
        decreases self,
    {
        &&& distinct_names(self.variables@)
        &&& match &self.parent {
            Some(p) => p.wf(),
            None => true,
        }
    }

    proof fn lemma_scopes_nonempty(&self)
        ensures
            self.scopes().len() >= 1,
            self.scopes()[0] == bindings(self.variables@),
    {
    }
}

/// A name is bound by a list of pairs exactly when some pair has it; with
/// distinct names, the pair that has it gives its value.
pub proof fn lemma_bindings<K: View, V>(vars: Seq<(K, V)>, name: K::V)
    ensures
        bindings(vars).contains_key(name) <==> exists|i: int| 0 <= i < vars.len() && vars[i].0@ == name,
        forall|i: int|
            #![trigger vars[i]]
            0 <= i < vars.len() && vars[i].0@ == name && distinct_names(vars) ==> bindings(vars)[name]
                == vars[i].1,
    decreases vars.len(),
{
    if vars.len() > 0 {
        let prefix = vars.drop_last();
        lemma_bindings(prefix, name);
        assert forall|i: int| 0 <= i < vars.len() - 1 implies #[trigger] prefix[i] == vars[i] by {}
        if exists|i: int| 0 <= i < vars.len() && vars[i].0@ == name {
            let i = choose|i: int| 0 <= i < vars.len() && vars[i].0@ == name;
            if i < vars.len() - 1 {
                assert(prefix[i].0@ == name);
            }
        }
    }
}

/// Putting a new value for the name of pair `i` binds that name to it.
pub proof fn lemma_bindings_update<K: View, V>(vars: Seq<(K, V)>, i: int, pair: (K, V))
    requires
        0 <= i < vars.len(),
        vars[i].0@ == pair.0@,
        distinct_names(vars),
    ensures
        bindings(vars.update(i, pair)) == bindings(vars).insert(pair.0@, pair.1),
        distinct_names(vars.update(i, pair)),
    decreases vars.len(),
{
    let updated = vars.update(i, pair);
    if i == vars.len() - 1 {
        assert(updated.drop_last() =~= vars.drop_last());
        lemma_bindings(vars.drop_last(), pair.0@);
        assert(!bindings(vars.drop_last()).contains_key(pair.0@)) by {
            if bindings(vars.drop_last()).contains_key(pair.0@) {
                let j = choose|j: int| 0 <= j < vars.len() - 1 && vars.drop_last()[j].0@ == pair.0@;
                assert(vars[j].0@ == vars[i].0@);
            }
        }
        assert(bindings(vars).insert(pair.0@, pair.1) =~= bindings(vars.drop_last()).insert(
            pair.0@,
            pair.1,
        ));
    } else {
        assert(updated.drop_last() =~= vars.drop_last().update(i, pair));
        lemma_bindings_update(vars.drop_last(), i, pair);
        assert(vars.last().0@ != pair.0@);
        assert(bindings(updated) =~= bindings(vars).insert(pair.0@, pair.1));
    }
}

/// The scope found for a name is one of the scopes, and it binds the name;
/// no scope before it does.
pub proof fn lemma_scope_of<V>(scopes: Seq<Map<Seq<char>, V>>, name: Seq<char>)
    ensures
        match scope_of(scopes, name) {
            Some(i) => 0 <= i < scopes.len() && scopes[i].contains_key(name) && forall|j: int|
                0 <= j < i ==> !(#[trigger] scopes[j]).contains_key(name),
            None => forall|j: int| 0 <= j < scopes.len() ==> !(#[trigger] scopes[j]).contains_key(name),
        },
    decreases scopes.len(),
{
    if scopes.len() > 0 {
        let rest = scopes.drop_first();
        lemma_scope_of(rest, name);
        if !scopes[0].contains_key(name) {
            match scope_of(rest, name) {
                Some(i) => {
                    assert forall|j: int| 0 <= j < i + 1 implies !(#[trigger] scopes[j]).contains_key(
                        name,
                    ) by {
                        if j > 0 {
                            assert(scopes[j] == rest[j - 1]);
                        }
                    }
                },
                None => {
                    assert forall|j: int| 0 <= j < scopes.len() implies !(
                    #[trigger] scopes[j]).contains_key(name) by {
                        if j > 0 {
                            assert(scopes[j] == rest[j - 1]);
                        }
                    }
                },
            }
        }
    }
}

/// Looking a name up in a scope put before others: that scope if it binds
/// the name, else the others, one further in.
pub proof fn lemma_scope_of_cons<V>(here: Map<Seq<char>, V>, rest: Seq<Map<Seq<char>, V>>, name: Seq<char>)
    ensures
        scope_of(seq![here] + rest, name) == if here.contains_key(name) {
            Some(0int)
        } else {
            match scope_of(rest, name) {
                Some(i) => Some(i + 1),
                None => None,
            }
        },
{
    assert((seq![here] + rest).drop_first() =~= rest);
}

/// The position of the pair for `name` in a list of name/value pairs, if
/// there is one.
pub(crate) fn position_of<V>(vars: &Vec<(String, V)>, name: &String) -> (r: Option<usize>)
    ensures
        match r {
            Some(i) => i < vars@.len() && vars@[i as int].0@ == name@,
            None => forall|i: int| 0 <= i < vars@.len() ==> #[trigger] vars@[i].0@ != name@,
        },
{
    let mut i: usize = 0;
    while i < vars.len()
        invariant
            i <= vars@.len(),
            forall|j: int| 0 <= j < i ==> #[trigger] vars@[j].0@ != name@,
        decreases vars@.len() - i,
    {
        if vars[i].0 == *name {
            return Some(i);
        }
        i += 1;
    }
    None
}

impl<V> Environment<V> {
    /// An outermost scope with no variables.
    pub fn new() -> (r: Self)
        ensures
            r.wf(),
            r.scopes() == seq![Map::<Seq<char>, V>::empty()],
    {
        let r = Self { variables: Vec::new(), parent: None };
        assert(bindings(r.variables@) =~= Map::<Seq<char>, V>::empty());
        r
    }

    /// A scope with no variables inside `parent`.
    pub fn new_with_parent(parent: Environment<V>) -> (r: Self)
        requires
            parent.wf(),
        ensures
            r.wf(),
            r.scopes() == seq![Map::<Seq<char>, V>::empty()] + parent.scopes(),
    {
        let r = Self { variables: Vec::new(), parent: Some(Box::new(parent)) };
        assert(bindings(r.variables@) =~= Map::<Seq<char>, V>::empty());
        r
    }

    /// The enclosing scopes, if there are any; this scope is dropped.
    pub fn into_parent(self) -> (r: Option<Environment<V>>)
        requires
            self.wf(),
        ensures
            match r {
                Some(p) => p.wf() && p.scopes() == self.scopes().drop_first(),
                None => self.scopes().len() == 1,
            },
    {
        match self.parent {
            Some(p) => {
                assert(self.scopes().drop_first() =~= p.scopes());
                Some(*p)
            },
            None => None,
        }
    }

    /// Binds `name` to `value` in this scope, replacing any value it had here.
    pub fn define(&mut self, name: String, value: V)
        requires
            old(self).wf(),
        ensures
            final(self).wf(),
            final(self).scopes() == old(self).scopes().update(
                0,
                old(self).scopes()[0].insert(name@, value),
            ),
    {
        let ghost old_vars = self.variables@;
        let ghost key = name@;
        match position_of(&self.variables, &name) {
            Some(i) => {
                proof {
                    lemma_bindings_update(old_vars, i as int, (name, value));
                }
                self.variables.set(i, (name, value));
            },
            None => {
                self.variables.push((name, value));
                proof {
                    assert(self.variables@.drop_last() =~= old_vars);
                    assert forall|a: int, b: int|
                        0 <= a < b < self.variables@.len() implies self.variables@[a].0@
                        != self.variables@[b].0@ by {
                        if b == self.variables@.len() - 1 {
                            assert(old_vars[a].0@ != key);
                        }
                    }
                }
            },
        }
        proof {
            match &self.parent {
                Some(p) => {
                    assert(self.scopes() =~= old(self).scopes().update(
                        0,
                        old(self).scopes()[0].insert(key, value),
                    ));
                },
                None => {
                    assert(self.scopes() =~= old(self).scopes().update(
                        0,
                        old(self).scopes()[0].insert(key, value),
                    ));
                },
            }
        }
    }

    /// Gives `name` the value `value` in the innermost scope that binds it;
    /// an error when no scope binds it.
    pub fn assign(&mut self, name: Token, value: V) -> (r: Result<(), RuntimeError>)
        requires
            old(self).wf(),
        ensures
            final(self).wf(),
            match scope_of(old(self).scopes(), name.lexeme@) {
                Some(i) => r is Ok && final(self).scopes() == old(self).scopes().update(
                    i,
                    old(self).scopes()[i].insert(name.lexeme@, value),
                ),
                None => r matches Err(e) && e.message@ == undefined_message(name.lexeme@)
                    && final(self).scopes() == old(self).scopes(),
            },
        decreases *old(self),
    {
        let ghost key = name.lexeme@;
        let ghost old_vars = self.variables@;
        proof {
            lemma_bindings(old_vars, key);
        }
        proof {
            self.lemma_scopes_nonempty();
        }
        match position_of(&self.variables, &name.lexeme) {
            Some(i) => {
                proof {
                    assert(old_vars[i as int].0@ == key);
                    lemma_bindings_update(old_vars, i as int, (name.lexeme, value));
                }
                self.variables.set(i, (name.lexeme, value));
                proof {
                    assert(self.scopes() =~= old(self).scopes().update(
                        0,
                        old(self).scopes()[0].insert(key, value),
                    ));
                }
                Ok(())
            },
            None => {
                match self.parent.take() {
                    Some(mut p) => {
                        let ghost old_parent = *p;
                        let r = p.assign(name, value);
                        self.parent = Some(p);
                        proof {
                            let outer = old_parent.scopes();
                            assert(old(self).scopes().drop_first() =~= outer);
                            assert(old(self).scopes() =~= seq![bindings(old_vars)] + outer);
                            lemma_scope_of_cons(bindings(old_vars), outer, key);
                            lemma_scope_of(outer, key);
                            match scope_of(outer, key) {
                                Some(j) => {
                                    assert(self.scopes() =~= old(self).scopes().update(
                                        j + 1,
                                        old(self).scopes()[j + 1].insert(key, value),
                                    ));
                                },
                                None => {
                                    assert(self.scopes() =~= old(self).scopes());
                                },
                            }
                        }
                        r
                    },
                    None => {
                        proof {
                            assert(old(self).scopes() =~= seq![bindings(old_vars)] + Seq::empty());
                            lemma_scope_of_cons(bindings(old_vars), Seq::empty(), key);
                        }
                        let mut message = String::from_str("Undefined variable '");
                        message.append(name.lexeme.as_str());
                        message.append("'.");
                        Err(RuntimeError { message })
                    },
                }
            },
        }
    }

    /// The value of `name` in the innermost scope that binds it; an error
    /// when no scope binds it.
    pub fn get(&self, name: Token) -> (r: Result<&V, RuntimeError>)
        requires
            self.wf(),
        ensures
            match lookup(self.scopes(), name.lexeme@) {
                Some(v) => r matches Ok(x) && *x == v,
                None => r matches Err(e) && e.message@ == undefined_message(name.lexeme@),
            },
        decreases self,
    {
        proof {
            lemma_bindings(self.variables@, name.lexeme@);
            self.lemma_scopes_nonempty();
        }
        match position_of(&self.variables, &name.lexeme) {
            Some(i) => {
                proof {
                    assert(self.variables@[i as int].0@ == name.lexeme@);
                }
                Ok(&self.variables[i].1)
            },
            None => match &self.parent {
                Some(p) => {
                    proof {
                        assert(self.scopes() =~= seq![bindings(self.variables@)] + p.scopes());
                        lemma_scope_of_cons(bindings(self.variables@), p.scopes(), name.lexeme@);
                        lemma_scope_of(p.scopes(), name.lexeme@);
                    }
                    p.get(name)
                },
                None => {
                    proof {
                        assert(self.scopes() =~= seq![bindings(self.variables@)] + Seq::empty());
                        lemma_scope_of_cons(bindings(self.variables@), Seq::empty(), name.lexeme@);
                    }
                    let mut message = String::from_str("Undefined variable '");
                    message.append(name.lexeme.as_str());
                    message.append("'.");
                    Err(RuntimeError { message })
                },
            },
        }
    }
}

/// The scope that binds a name first, and which no scope before binds, is
/// the one found for it.
proof fn lemma_scope_of_first<V>(scopes: Seq<Map<Seq<char>, V>>, name: Seq<char>, i: int)
    requires
        0 <= i < scopes.len(),
        scopes[i].contains_key(name),
        forall|j: int| 0 <= j < i ==> !(#[trigger] scopes[j]).contains_key(name),
    ensures
        scope_of(scopes, name) == Some(i),
    decreases i,
{
    if i > 0 {
        let rest = scopes.drop_first();
        assert forall|j: int| 0 <= j < i - 1 implies !(#[trigger] rest[j]).contains_key(name) by {
            assert(rest[j] == scopes[j + 1]);
        }
        assert(rest[i - 1] == scopes[i]);
        assert(!scopes[0].contains_key(name));
        lemma_scope_of_first(rest, name, i - 1);
    }
}

/// A name just defined in the innermost scope reads back the value it was
/// given.
pub proof fn law_get_after_define<V>(scopes: Seq<Map<Seq<char>, V>>, name: Seq<char>, value: V)
    requires
        scopes.len() >= 1,
    ensures
        lookup(scopes.update(0, scopes[0].insert(name, value)), name) == Some(value),
{
    let updated = scopes.update(0, scopes[0].insert(name, value));
    lemma_scope_of_first(updated, name, 0);
}

/// Defining a name leaves what every other name reads as it was.
pub proof fn law_define_keeps_other_names<V>(
    scopes: Seq<Map<Seq<char>, V>>,
    name: Seq<char>,
    other: Seq<char>,
    value: V,
)
    requires
        scopes.len() >= 1,
        other != name,
    ensures
        lookup(scopes.update(0, scopes[0].insert(name, value)), other) == lookup(scopes, other),
{
    let updated = scopes.update(0, scopes[0].insert(name, value));
    assert(updated.drop_first() =~= scopes.drop_first());
    lemma_scope_of(scopes, other);
    lemma_scope_of(updated, other);
}

/// A name assigned reads back the value assigned, from the scope that held
/// it.
pub proof fn law_get_after_assign<V>(scopes: Seq<Map<Seq<char>, V>>, name: Seq<char>, value: V)
    requires
        scope_of(scopes, name) is Some,
    ensures
        ({
            let i = scope_of(scopes, name)->0;
            lookup(scopes.update(i, scopes[i].insert(name, value)), name) == Some(value)
        }),
{
    let i = scope_of(scopes, name)->0;
    lemma_scope_of(scopes, name);
    let updated = scopes.update(i, scopes[i].insert(name, value));
    assert forall|j: int| 0 <= j < i implies !(#[trigger] updated[j]).contains_key(name) by {
        assert(updated[j] == scopes[j]);
    }
    lemma_scope_of_first(updated, name, i);
}

/// Assigning fails exactly for the names that cannot be read.
pub proof fn law_assign_fails_iff_unreadable<V>(scopes: Seq<Map<Seq<char>, V>>, name: Seq<char>)
    ensures
        scope_of(scopes, name) is None <==> lookup(scopes, name) is None,
{
}

/// A name defined in a scope opened inside others hides their binding of it;
/// once that scope is dropped, the outer binding reads as before.
pub proof fn law_inner_scope_shadows<V>(outer: Seq<Map<Seq<char>, V>>, name: Seq<char>, value: V)
    ensures
        ({
            let inner = seq![Map::<Seq<char>, V>::empty()] + outer;
            let defined = inner.update(0, inner[0].insert(name, value));
            &&& lookup(defined, name) == Some(value)
            &&& lookup(defined.drop_first(), name) == lookup(outer, name)
        }),
{
    let inner = seq![Map::<Seq<char>, V>::empty()] + outer;
    law_get_after_define(inner, name, value);
    let defined = inner.update(0, inner[0].insert(name, value));
    assert(defined.drop_first() =~= outer);
}

} // verus!
