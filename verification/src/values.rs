//! Runtime values, lexical scopes and function values.
//!
//! Values are immutable once produced; the error value is an ordinary value
//! that flows through expression evaluation instead of aborting it. A scope
//! is a list of local bindings plus a read-only handle to its parent: lookup
//! falls back upward, mutation never touches an ancestor.

use std::rc::Rc;

use vstd::prelude::*;

use crate::ast::Expr;

verus! {

/// A declared parameter name.
#[derive(Debug)]
pub struct Parameter {
    pub name: String,
}

/// A function value: parameter names plus an unevaluated body expression.
///
/// Calls see the caller's scope, so a named function can refer to itself and
/// to globals through the scope it is called from.
#[derive(Debug)]
pub struct Function {
    pub params: Vec<Parameter>,
    pub expr: Rc<Expr>,
}

/// A runtime value.
#[derive(Debug)]
pub enum Value {
    Int(i64),
    Bool(bool),
    Str(String),
    Func(Rc<Function>),
    /// An opaque handle to an L-system value.
    LSystem(usize),
    Null,
    Error,
}

/// The mathematical shadow of a runtime value: names become character
/// sequences, a function value becomes its parameter names and body.
pub enum ValueV {
    IntV(i64),
    BoolV(bool),
    StrV(Seq<char>),
    FuncV(Seq<Seq<char>>, Expr),
    LSystemV(usize),
    NullV,
    ErrorV,
}

impl View for Value {
    type V = ValueV;

    open spec fn view(&self) -> ValueV {
        match self {
            Value::Int(i) => ValueV::IntV(*i),
            Value::Bool(b) => ValueV::BoolV(*b),
            Value::Str(s) => ValueV::StrV(s@),
            Value::Func(f) => ValueV::FuncV(
                (**f).params@.map_values(|p: Parameter| p.name@),
                *(**f).expr,
            ),
            Value::LSystem(h) => ValueV::LSystemV(*h),
            Value::Null => ValueV::NullV,
            Value::Error => ValueV::ErrorV,
        }
    }
}

/// Relies on `Rc::clone`: the returned handle shares the same value.
#[verifier::external_body]
pub fn rc_dup<T>(rc: &Rc<T>) -> (r: Rc<T>)
    ensures
        r == *rc,
{
    Rc::clone(rc)
}

impl Value {
    /// An explicit deep copy; values are immutable, so the copy is
    /// indistinguishable from the original.
    pub fn dup(&self) -> (r: Value)
        ensures
            r == *self,
    {
        match self {
            Value::Int(i) => Value::Int(*i),
            Value::Bool(b) => Value::Bool(*b),
            Value::Str(s) => Value::Str(s.clone()),
            Value::Func(rc) => Value::Func(rc_dup(rc)),
            Value::LSystem(h) => Value::LSystem(*h),
            Value::Null => Value::Null,
            Value::Error => Value::Error,
        }
    }
}

/// An environment: bindings in the order they were made, later bindings
/// shadowing earlier ones.
pub open spec fn env_get(env: Seq<(Seq<char>, ValueV)>, name: Seq<char>) -> Option<ValueV>
    decreases env.len(),
{
    if env.len() == 0 {
        None
    } else if env.last().0 == name {
        Some(env.last().1)
    } else {
        env_get(env.drop_last(), name)
    }
}

/// The bindings of one scope, as environment entries.
pub open spec fn entries_view(s: Seq<(String, Value)>) -> Seq<(Seq<char>, ValueV)> {
    s.map_values(|p: (String, Value)| (p.0@, p.1@))
}

/// A chain of variable bindings with lexical parent lookup.
#[derive(Debug)]
pub struct Scope<'a> {
    mapping: Vec<(String, Value)>,
    parent: Option<&'a Scope<'a>>,
}

impl<'a> Scope<'a> {
    /// The local bindings, in the order they were made.
    pub closed spec fn locals(&self) -> Seq<(String, Value)> {
        self.mapping@
    }

    /// The parent handle.
    pub closed spec fn parent_of(&self) -> Option<&'a Scope<'a>> {
        self.parent
    }

    /// The whole visible environment: ancestors first, so that local
    /// bindings shadow inherited ones.
    pub open spec fn flat(self) -> Seq<(Seq<char>, ValueV)>
        decreases self,
    {
        (match self.parent_of() {
            None => Seq::<(Seq<char>, ValueV)>::empty(),
            Some(p) => p.flat(),
        }) + entries_view(self.locals())
    }

    /// Creates a scope with no bindings and no parent.
    pub fn new() -> (s: Self)
        ensures
            s.locals() == Seq::<(String, Value)>::empty(),
            s.parent_of() is None,
            s.flat() == Seq::<(Seq<char>, ValueV)>::empty(),
    {
        let s = Scope { mapping: Vec::new(), parent: None };
        proof {
            assert(s.flat() =~= Seq::<(Seq<char>, ValueV)>::empty());
        }
        s
    }

    /// Creates an empty scope whose lookups fall back to `parent`.
    pub fn child_of(parent: &'a Scope<'a>) -> (s: Self)
        ensures
            s.locals() == Seq::<(String, Value)>::empty(),
            s.parent_of() == Some(parent),
            s.flat() == parent.flat(),
    {
        let s = Scope { mapping: Vec::new(), parent: Some(parent) };
        proof {
            assert(s.flat() =~= parent.flat());
        }
        s
    }

    /// Sets the value of a variable in this scope, shadowing any older
    /// binding of the name here or in an ancestor. Ancestors are untouched.
    pub fn set(&mut self, var: String, val: Value)
        ensures
            final(self).locals() == old(self).locals().push((var, val)),
            final(self).parent_of() == old(self).parent_of(),
            final(self).flat() == old(self).flat().push((var@, val@)),
    {
        let ghost pre = *self;
        self.mapping.push((var, val));
        proof {
            assert(entries_view(self.mapping@) =~= entries_view(pre.mapping@).push((var@, val@)));
            assert(self.flat() =~= pre.flat().push((var@, val@)));
        }
    }

    /// Recursively gets a variable's value: the local bindings first, then
    /// the ancestors.
    pub fn get(&self, var: &String) -> (r: Option<&Value>)
        ensures
            match r {
                Some(v) => env_get(self.flat(), var@) == Some(v@),
                None => env_get(self.flat(), var@) is None,
            },
        decreases *self,
    {
        let ghost pflat = match self.parent {
            None => Seq::<(Seq<char>, ValueV)>::empty(),
            Some(p) => p.flat(),
        };
        let mut i = self.mapping.len();
        proof {
            assert(entries_view(self.mapping@).take(self.mapping@.len() as int) =~= entries_view(
                self.mapping@,
            ));
            assert(self.flat() =~= pflat + entries_view(self.mapping@));
        }
        while i > 0
            invariant
                i <= self.mapping@.len(),
                env_get(self.flat(), var@) == env_get(
                    pflat + entries_view(self.mapping@).take(i as int),
                    var@,
                ),
            decreases i,
        {
            i = i - 1;
            let entry = &self.mapping[i];
            let ghost seen = pflat + entries_view(self.mapping@).take(i as int + 1);
            proof {
                assert(seen.last() == (entry.0@, entry.1@));
                assert(seen.drop_last() =~= pflat + entries_view(self.mapping@).take(i as int));
            }
            if entry.0.eq(var) {
                return Some(&entry.1);
            }
        }
        proof {
            assert(pflat + entries_view(self.mapping@).take(0) =~= pflat);
        }
        match self.parent {
            None => None,
            Some(p) => p.get(var),
        }
    }

    /// Whether this scope itself (not an ancestor) binds the variable.
    pub fn has(&self, var: &String) -> (r: bool)
        ensures
            r == (env_get(entries_view(self.locals()), var@) is Some),
    {
        let mut i = self.mapping.len();
        proof {
            assert(entries_view(self.mapping@).take(self.mapping@.len() as int) =~= entries_view(
                self.mapping@,
            ));
        }
        while i > 0
            invariant
                i <= self.mapping@.len(),
                env_get(entries_view(self.mapping@), var@) == env_get(
                    entries_view(self.mapping@).take(i as int),
                    var@,
                ),
            decreases i,
        {
            i = i - 1;
            let entry = &self.mapping[i];
            let ghost seen = entries_view(self.mapping@).take(i as int + 1);
            proof {
                assert(seen.last() == (entry.0@, entry.1@));
                assert(seen.drop_last() =~= entries_view(self.mapping@).take(i as int));
            }
            if entry.0.eq(var) {
                return true;
            }
        }
        proof {
            assert(entries_view(self.mapping@).take(0) =~= Seq::<(Seq<char>, ValueV)>::empty());
        }
        false
    }

    /// Merges another scope's local bindings into this one, newer bindings
    /// shadowing older ones on a name collision. The other scope's ancestors
    /// are not merged, and this scope's ancestors are untouched.
    pub fn merge(&mut self, env: Scope<'_>)
        ensures
            final(self).locals() == old(self).locals() + env.locals(),
            final(self).parent_of() == old(self).parent_of(),
            final(self).flat() == old(self).flat() + entries_view(env.locals()),
    {
        let ghost pre = *self;
        let mut incoming = env.mapping;
        self.mapping.append(&mut incoming);
        proof {
            assert(entries_view(self.mapping@) =~= entries_view(pre.mapping@) + entries_view(
                env.mapping@,
            ));
            assert(self.flat() =~= pre.flat() + entries_view(env.mapping@));
        }
    }
}

/// Law: a lookup is answered by the innermost scope that binds the name; a
/// scope that does not bind it locally defers to its parent; and `set` on a
/// child never alters the parent's bindings (which `set`'s contract states
/// directly: the parent handle, and everything reached through it, is
/// untouched).
pub proof fn lemma_scope_lookup(s: Scope<'_>, name: Seq<char>)
    ensures
        env_get(entries_view(s.locals()), name) is Some ==> env_get(s.flat(), name) == env_get(
            entries_view(s.locals()),
            name,
        ),
        env_get(entries_view(s.locals()), name) is None && s.parent_of() is Some ==> env_get(
            s.flat(),
            name,
        ) == env_get(s.parent_of()->0.flat(), name),
        env_get(entries_view(s.locals()), name) is None && s.parent_of() is None ==> env_get(
            s.flat(),
            name,
        ) is None,
{
    let pflat = match s.parent_of() {
        None => Seq::<(Seq<char>, ValueV)>::empty(),
        Some(p) => p.flat(),
    };
    assert(s.flat() =~= pflat + entries_view(s.locals()));
    lemma_env_get_concat(pflat, entries_view(s.locals()), name);
}

/// Lookup over concatenated environments: the right part answers first.
pub proof fn lemma_env_get_concat(
    a: Seq<(Seq<char>, ValueV)>,
    b: Seq<(Seq<char>, ValueV)>,
    name: Seq<char>,
)
    ensures
        env_get(b, name) is Some ==> env_get(a + b, name) == env_get(b, name),
        env_get(b, name) is None ==> env_get(a + b, name) == env_get(a, name),
    decreases b.len(),
{
    if b.len() == 0 {
        assert(a + b =~= a);
    } else {
        let whole = a + b;
        assert(whole.last() == b.last());
        if b.last().0 == name {
        } else {
            assert(whole.drop_last() =~= a + b.drop_last());
            lemma_env_get_concat(a, b.drop_last(), name);
        }
    }
}

} // verus!
