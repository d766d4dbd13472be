//! Lexical environments: a stack of scopes mapping names to values, each
//! binding mutable or not.
use vstd::prelude::*;

verus! {

/// A bound value and whether it may be reassigned.
#[derive(Clone, Copy, Debug)]
pub struct VarInfo<V> {
    pub value: V,
    pub mutable: bool,
}

/// The bindings of one scope, in the order they were first made.
pub open spec fn scope_model<V>(sc: Seq<(String, VarInfo<V>)>) -> Map<Seq<char>, VarInfo<V>>
    decreases sc.len(),
{
    if sc.len() == 0 {
        Map::empty()
    } else {
        scope_model(sc.drop_last()).insert(sc.last().0@, sc.last().1)
    }
}

/// No name is bound twice in one scope.
pub open spec fn names_unique<V>(sc: Seq<(String, VarInfo<V>)>) -> bool {
    forall|i: int, j: int| 0 <= i < j < sc.len() ==> sc[i].0@ != sc[j].0@
}

/// The innermost scope that binds `name`.
pub open spec fn innermost<V>(scopes: Seq<Map<Seq<char>, VarInfo<V>>>, name: Seq<char>) -> Option<int>
    decreases scopes.len(),
{
    if scopes.len() == 0 {
        None
    } else if scopes.last().contains_key(name) {
        Some(scopes.len() - 1)
    } else {
        innermost(scopes.drop_last(), name)
    }
}

/// What `name` is bound to in the innermost scope that binds it.
pub open spec fn lookup<V>(scopes: Seq<Map<Seq<char>, VarInfo<V>>>, name: Seq<char>) -> Option<VarInfo<V>> {
    match innermost(scopes, name) {
        Some(d) => Some(scopes[d][name]),
        None => None,
    }
}

pub proof fn lemma_innermost<V>(scopes: Seq<Map<Seq<char>, VarInfo<V>>>, name: Seq<char>)
    ensures
        innermost(scopes, name) matches Some(d) ==> {
            &&& 0 <= d < scopes.len()
            &&& scopes[d].contains_key(name)
            &&& forall|e: int| d < e < scopes.len() ==> !(#[trigger] scopes[e]).contains_key(name)
        },
        innermost(scopes, name) is None ==> forall|e: int|
            0 <= e < scopes.len() ==> !(#[trigger] scopes[e]).contains_key(name),
    decreases scopes.len(),
{
    if scopes.len() > 0 {
        let n = scopes.len() - 1;
        assert(scopes.last() == scopes[n]);
        if !scopes.last().contains_key(name) {
            let p = scopes.drop_last();
            lemma_innermost(p, name);
            assert forall|e: int| 0 <= e < n implies #[trigger] p[e] == scopes[e] by {}
            if let Some(d) = innermost(p, name) {
                assert forall|e: int| d < e < scopes.len() implies !(#[trigger] scopes[e]).contains_key(name) by {
                    if e < n {
                        assert(p[e] == scopes[e]);
                    }
                }
            } else {
                assert forall|e: int| 0 <= e < scopes.len() implies !(#[trigger] scopes[e]).contains_key(name) by {
                    if e < n {
                        assert(p[e] == scopes[e]);
                    }
                }
            }
        }
    }
}

pub proof fn lemma_scope_model<V>(sc: Seq<(String, VarInfo<V>)>)
    requires
        names_unique(sc),
    ensures
        forall|i: int| 0 <= i < sc.len() ==> #[trigger] scope_model(sc).contains_key(sc[i].0@)
            && scope_model(sc)[sc[i].0@] == sc[i].1,
        forall|k: Seq<char>| #[trigger] scope_model(sc).contains_key(k) ==> exists|i: int| 0 <= i < sc.len() && sc[i].0@ == k,
    decreases sc.len(),
{
    if sc.len() > 0 {
        let n = sc.len() - 1;
        let p = sc.drop_last();
        assert(sc.last() == sc[n]);
        assert forall|i: int| 0 <= i < n implies #[trigger] p[i] == sc[i] by {}
        assert(names_unique(p)) by {
            assert forall|i: int, j: int| 0 <= i < j < p.len() implies p[i].0@ != p[j].0@ by {
                assert(p[i] == sc[i]);
                assert(p[j] == sc[j]);
            }
        }
        lemma_scope_model(p);
        assert forall|i: int| 0 <= i < sc.len() implies #[trigger] scope_model(sc).contains_key(sc[i].0@)
            && scope_model(sc)[sc[i].0@] == sc[i].1 by {
            if i < n {
                assert(p[i] == sc[i]);
                assert(scope_model(p).contains_key(p[i].0@));
                assert(sc[i].0@ != sc[n].0@);
            }
        }
        assert forall|k: Seq<char>| #[trigger] scope_model(sc).contains_key(k) implies exists|i: int| 0 <= i < sc.len() && sc[i].0@ == k by {
            if k != sc[n].0@ {
                assert(scope_model(p).contains_key(k));
                let i = choose|i: int| 0 <= i < p.len() && p[i].0@ == k;
                assert(sc[i] == p[i]);
            } else {
                assert(sc[n].0@ == k);
            }
        }
    }
}

pub proof fn lemma_scope_model_update<V>(sc: Seq<(String, VarInfo<V>)>, i: int, info: VarInfo<V>)
    requires
        names_unique(sc),
        0 <= i < sc.len(),
    ensures
        scope_model(sc.update(i, (sc[i].0, info))) == scope_model(sc).insert(sc[i].0@, info),
        names_unique(sc.update(i, (sc[i].0, info))),
    decreases sc.len(),
{
    let u = sc.update(i, (sc[i].0, info));
    if i == sc.len() - 1 {
        assert(u.drop_last() =~= sc.drop_last());
        assert(scope_model(u) =~= scope_model(sc).insert(sc[i].0@, info));
    } else {
        let p = sc.drop_last();
        assert(u.drop_last() =~= p.update(i, (p[i].0, info)));
        lemma_scope_model_update(p, i, info);
        assert(scope_model(u) =~= scope_model(sc).insert(sc[i].0@, info));
    }
}

/// The scopes after binding `name` to `info` in the innermost scope (none when there is no scope).
pub open spec fn defined<V>(scopes: Seq<Map<Seq<char>, VarInfo<V>>>, name: Seq<char>, info: VarInfo<V>) -> Seq<
    Map<Seq<char>, VarInfo<V>>,
> {
    if scopes.len() > 0 {
        scopes.update(scopes.len() - 1, scopes.last().insert(name, info))
    } else {
        scopes
    }
}

/// The scopes after rebinding `name` to `value` in scope `d`, keeping it mutable.
pub open spec fn reassigned<V>(scopes: Seq<Map<Seq<char>, VarInfo<V>>>, d: int, name: Seq<char>, value: V) -> Seq<
    Map<Seq<char>, VarInfo<V>>,
> {
    scopes.update(d, scopes[d].insert(name, VarInfo { value, mutable: true }))
}

/// The scopes themselves, innermost last; `Env` keeps them well formed.
struct Scopes<V> {
    scopes: Vec<Vec<(String, VarInfo<V>)>>,
}

impl<V> View for Scopes<V> {
    type V = Seq<Map<Seq<char>, VarInfo<V>>>;

    closed spec fn view(&self) -> Seq<Map<Seq<char>, VarInfo<V>>> {
        self.scopes@.map_values(|sc: Vec<(String, VarInfo<V>)>| scope_model(sc@))
    }
}

/// Index of the binding of `key` in `sc`, if there is one.
fn find_in_scope<V>(sc: &Vec<(String, VarInfo<V>)>, key: &String) -> (r: Option<usize>)
    ensures
        match r {
            Some(i) => i < sc@.len() && sc@[i as int].0@ == key@,
            None => forall|i: int| 0 <= i < sc@.len() ==> sc@[i].0@ != key@,
        },
{
    let mut i: usize = 0;
    while i < sc.len()
        invariant
            i <= sc@.len(),
            forall|j: int| 0 <= j < i ==> sc@[j].0@ != key@,
        decreases sc@.len() - i,
    {
        if sc[i].0 == *key {
            return Some(i);
        }
        i += 1;
    }
    None
}

impl<V> Scopes<V> {
    /// No scope binds a name twice.
    spec fn wf(&self) -> bool {
        forall|d: int| 0 <= d < self.scopes@.len() ==> names_unique(#[trigger] self.scopes@[d]@)
    }

    /// No scope at all.
    fn empty() -> (e: Self)
        ensures
            e.wf(),
            e@ == Seq::<Map<Seq<char>, VarInfo<V>>>::empty(),
    {
        let e = Scopes { scopes: Vec::new() };
        proof {
            assert(e@ =~= Seq::<Map<Seq<char>, VarInfo<V>>>::empty());
        }
        e
    }
}

impl<V: Copy> Scopes<V> {
    /// An environment with one empty (global) scope.
    fn new() -> (e: Self)
        ensures
            e.wf(),
            e@ == seq![Map::<Seq<char>, VarInfo<V>>::empty()],
    {
        let mut scopes: Vec<Vec<(String, VarInfo<V>)>> = Vec::new();
        scopes.push(Vec::new());
        let e = Scopes { scopes };
        proof {
            assert(e@ =~= seq![Map::<Seq<char>, VarInfo<V>>::empty()]);
        }
        e
    }

    /// Opens a new innermost scope.
    fn push_scope(&mut self)
        requires
            old(self).wf(),
        ensures
            final(self).wf(),
            final(self)@ == old(self)@.push(Map::empty()),
    {
        self.scopes.push(Vec::new());
        proof {
            assert(self@ =~= old(self)@.push(Map::empty()));
        }
    }

    /// Closes the innermost scope, if there is one.
    fn pop_scope(&mut self)
        requires
            old(self).wf(),
        ensures
            final(self).wf(),
            final(self)@ == if old(self)@.len() > 0 {
                old(self)@.drop_last()
            } else {
                old(self)@
            },
    {
        self.scopes.pop();
        proof {
            if old(self)@.len() > 0 {
                assert(self@ =~= old(self)@.drop_last());
            }
        }
    }

    /// Binds `name` in the innermost scope, replacing a binding of the same name there.
    fn define(&mut self, name: &str, value: V, mutable: bool)
        requires
            old(self).wf(),
        ensures
            final(self).wf(),
            final(self)@ == defined(old(self)@, name@, VarInfo { value, mutable }),
    {
        let n = self.scopes.len();
        if n > 0 {
            let key: String = name.to_owned();
            let info = VarInfo { value, mutable };
            let ghost sc = self.scopes@[n - 1]@;
            match find_in_scope(&self.scopes[n - 1], &key) {
                Some(i) => {
                    let entry_name = self.scopes[n - 1][i].0.clone();
                    self.scopes[n - 1].set(i, (entry_name, info));
                    proof {
                        lemma_scope_model_update(sc, i as int, info);
                    }
                },
                None => {
                    self.scopes[n - 1].push((key, info));
                    proof {
                        assert(self.scopes@[n - 1]@.drop_last() =~= sc);
                    }
                },
            }
            proof {
                assert(self@ =~= old(self)@.update(n - 1, old(self)@.last().insert(name@, VarInfo { value, mutable })));
            }
        }
    }

    /// Reassigns `name` in the innermost scope that binds it. Fails, changing
    /// nothing, when no scope binds `name` or that binding is immutable.
    fn assign(&mut self, name: &str, value: V) -> (r: Result<(), ()>)
        requires
            old(self).wf(),
        ensures
            final(self).wf(),
            match innermost(old(self)@, name@) {
                Some(d) => if old(self)@[d][name@].mutable {
                    r is Ok && final(self)@ == reassigned(old(self)@, d, name@, value)
                } else {
                    r is Err && final(self)@ == old(self)@
                },
                None => r is Err && final(self)@ == old(self)@,
            },
    {
        let key: String = name.to_owned();
        let mut d = self.scopes.len();
        proof {
            lemma_innermost(old(self)@, name@);
        }
        while d > 0
            invariant
                self == old(self),
                self.wf(),
                key@ == name@,
                d <= self.scopes@.len(),
                forall|e: int| d <= e < self.scopes@.len() ==> !(#[trigger] self@[e]).contains_key(name@),
            decreases d,
        {
            let s = d - 1;
            proof {
                lemma_scope_model(self.scopes@[s as int]@);
            }
            match find_in_scope(&self.scopes[s], &key) {
                Some(i) => {
                    let ghost sc = self.scopes@[s as int]@;
                    proof {
                        assert(self@[s as int] == scope_model(sc));
                        assert(sc[i as int].0@ == name@);
                        assert(self@[s as int].contains_key(name@));
                        lemma_innermost(old(self)@, name@);
                        assert(innermost(old(self)@, name@) == Some(s as int));
                    }
                    if self.scopes[s][i].1.mutable {
                        let entry_name = self.scopes[s][i].0.clone();
                        self.scopes[s].set(i, (entry_name, VarInfo { value, mutable: true }));
                        proof {
                            lemma_scope_model_update(sc, i as int, VarInfo { value, mutable: true });
                            assert(self@ =~= old(self)@.update(s as int, old(self)@[s as int].insert(name@, VarInfo { value, mutable: true })));
                        }
                        return Ok(());
                    } else {
                        return Err(());
                    }
                },
                None => {
                    proof {
                        assert(self@[s as int] == scope_model(self.scopes@[s as int]@));
                    }
                },
            }
            d = s;
        }
        proof {
            if let Some(x) = innermost(old(self)@, name@) {
                assert(old(self)@[x].contains_key(name@));
            }
        }
        Err(())
    }

    /// The value of `name` in the innermost scope that binds it.
    fn get(&self, name: &str) -> (r: Option<V>)
        requires
            self.wf(),
        ensures
            r == match lookup(self@, name@) {
                Some(info) => Some(info.value),
                None => None,
            },
    {
        let key: String = name.to_owned();
        let mut d = self.scopes.len();
        proof {
            lemma_innermost(self@, name@);
        }
        while d > 0
            invariant
                self.wf(),
                key@ == name@,
                d <= self.scopes@.len(),
                forall|e: int| d <= e < self.scopes@.len() ==> !(#[trigger] self@[e]).contains_key(name@),
            decreases d,
        {
            let s = d - 1;
            proof {
                lemma_scope_model(self.scopes@[s as int]@);
            }
            match find_in_scope(&self.scopes[s], &key) {
                Some(i) => {
                    proof {
                        let sc = self.scopes@[s as int]@;
                        assert(self@[s as int] == scope_model(sc));
                        assert(sc[i as int].0@ == name@);
                        assert(self@[s as int].contains_key(name@));
                        lemma_innermost(self@, name@);
                        assert(innermost(self@, name@) == Some(s as int));
                    }
                    return Some(self.scopes[s][i].1.value);
                },
                None => {
                    proof {
                        assert(self@[s as int] == scope_model(self.scopes@[s as int]@));
                    }
                },
            }
            d = s;
        }
        proof {
            if let Some(x) = innermost(self@, name@) {
                assert(self@[x].contains_key(name@));
            }
        }
        None
    }

    /// A copy of every scope, binding for binding.
    fn copy(&self) -> (c: Self)
        requires
            self.wf(),
        ensures
            c.wf(),
            c@ == self@,
    {
        let mut out: Vec<Vec<(String, VarInfo<V>)>> = Vec::new();
        let mut d: usize = 0;
        while d < self.scopes.len()
            invariant
                d <= self.scopes@.len(),
                out@.len() == d,
                forall|e: int| 0 <= e < d ==> (#[trigger] out@[e])@ == self.scopes@[e]@,
            decreases self.scopes@.len() - d,
        {
            let sc = &self.scopes[d];
            let mut copied: Vec<(String, VarInfo<V>)> = Vec::new();
            let mut j: usize = 0;
            while j < sc.len()
                invariant
                    j <= sc@.len(),
                    copied@ == sc@.take(j as int),
                decreases sc@.len() - j,
            {
                let name = sc[j].0.clone();
                copied.push((name, sc[j].1));
                proof {
                    assert(sc@.take(j + 1) =~= sc@.take(j as int).push(sc@[j as int]));
                }
                j += 1;
            }
            proof {
                assert(sc@.take(sc@.len() as int) =~= sc@);
            }
            out.push(copied);
            d += 1;
        }
        let c = Scopes { scopes: out };
        proof {
            assert(c@ =~= self@);
        }
        c
    }
}


/// A stack of scopes. The innermost scope is the last one.
pub struct Env<V> {
    stack: Scopes<V>,
}

impl<V> Env<V> {
    #[verifier::type_invariant]
    spec fn well_formed(&self) -> bool {
        self.stack.wf()
    }
}

impl<V> View for Env<V> {
    type V = Seq<Map<Seq<char>, VarInfo<V>>>;

    closed spec fn view(&self) -> Seq<Map<Seq<char>, VarInfo<V>>> {
        self.stack@
    }
}

impl<V: Copy> Env<V> {
    /// An environment with one empty (global) scope.
    pub fn new() -> (e: Self)
        ensures
            e@ == seq![Map::<Seq<char>, VarInfo<V>>::empty()],
    {
        Env { stack: Scopes::new() }
    }

    /// Opens a new innermost scope.
    pub fn push_scope(&mut self)
        ensures
            final(self)@ == old(self)@.push(Map::empty()),
    {
        proof {
            use_type_invariant(&*self);
        }
        let mut stack = Scopes::empty();
        std::mem::swap(&mut stack, &mut self.stack);
        stack.push_scope();
        self.stack = stack;
    }

    /// Closes the innermost scope, if there is one.
    pub fn pop_scope(&mut self)
        ensures
            final(self)@ == if old(self)@.len() > 0 {
                old(self)@.drop_last()
            } else {
                old(self)@
            },
    {
        proof {
            use_type_invariant(&*self);
        }
        let mut stack = Scopes::empty();
        std::mem::swap(&mut stack, &mut self.stack);
        stack.pop_scope();
        self.stack = stack;
    }

    /// Binds `name` in the innermost scope, replacing a binding of the same name there.
    pub fn define(&mut self, name: &str, value: V, mutable: bool)
        ensures
            final(self)@ == defined(old(self)@, name@, VarInfo { value, mutable }),
    {
        proof {
            use_type_invariant(&*self);
        }
        let mut stack = Scopes::empty();
        std::mem::swap(&mut stack, &mut self.stack);
        stack.define(name, value, mutable);
        self.stack = stack;
    }

    /// Reassigns `name` in the innermost scope that binds it. Fails, changing
    /// nothing, when no scope binds `name` or that binding is immutable.
    pub fn assign(&mut self, name: &str, value: V) -> (r: Result<(), ()>)
        ensures
            match innermost(old(self)@, name@) {
                Some(d) => if old(self)@[d][name@].mutable {
                    r is Ok && final(self)@ == reassigned(old(self)@, d, name@, value)
                } else {
                    r is Err && final(self)@ == old(self)@
                },
                None => r is Err && final(self)@ == old(self)@,
            },
    {
        proof {
            use_type_invariant(&*self);
        }
        let mut stack = Scopes::empty();
        std::mem::swap(&mut stack, &mut self.stack);
        let r = stack.assign(name, value);
        self.stack = stack;
        r
    }

    /// The value of `name` in the innermost scope that binds it.
    pub fn get(&self, name: &str) -> (r: Option<V>)
        ensures
            r == match lookup(self@, name@) {
                Some(info) => Some(info.value),
                None => None,
            },
    {
        proof {
            use_type_invariant(self);
        }
        self.stack.get(name)
    }
}

impl<V: Copy> Clone for Env<V> {
    /// A copy with the same scopes and bindings.
    fn clone(&self) -> (r: Self)
        ensures
            r@ == self@,
    {
        proof {
            use_type_invariant(self);
        }
        Env { stack: self.stack.copy() }
    }
}

// ------------------------------------------------------------------
// Laws
// ------------------------------------------------------------------

proof fn lemma_innermost_is<V>(scopes: Seq<Map<Seq<char>, VarInfo<V>>>, name: Seq<char>, d: int)
    requires
        0 <= d < scopes.len(),
        scopes[d].contains_key(name),
        forall|e: int| d < e < scopes.len() ==> !(#[trigger] scopes[e]).contains_key(name),
    ensures
        innermost(scopes, name) == Some(d),
    decreases scopes.len(),
{
    if d < scopes.len() - 1 {
        let p = scopes.drop_last();
        assert(!scopes[scopes.len() - 1].contains_key(name));
        assert forall|e: int| d < e < p.len() implies !(#[trigger] p[e]).contains_key(name) by {
            assert(p[e] == scopes[e]);
        }
        lemma_innermost_is(p, name, d);
    }
}

/// Reading a name right after defining it gives the defined binding.
pub proof fn law_lookup_after_define<V>(scopes: Seq<Map<Seq<char>, VarInfo<V>>>, name: Seq<char>, info: VarInfo<V>)
    requires
        scopes.len() > 0,
    ensures
        lookup(defined(scopes, name, info), name) == Some(info),
{
    let s2 = defined(scopes, name, info);
    assert(s2.last() == s2[s2.len() - 1]);
}

/// Defining a name leaves every other name bound as it was.
pub proof fn law_define_keeps_others<V>(
    scopes: Seq<Map<Seq<char>, VarInfo<V>>>,
    name: Seq<char>,
    info: VarInfo<V>,
    other: Seq<char>,
)
    requires
        other != name,
    ensures
        lookup(defined(scopes, name, info), other) == lookup(scopes, other),
{
    if scopes.len() > 0 {
        let s2 = defined(scopes, name, info);
        assert(s2.drop_last() =~= scopes.drop_last());
        assert(s2.last() == s2[s2.len() - 1]);
        assert(scopes.last() == scopes[scopes.len() - 1]);
        lemma_innermost(scopes, other);
        lemma_innermost(s2, other);
        if let Some(d) = innermost(scopes, other) {
            assert(s2[d].contains_key(other));
        }
    }
}

/// Opening a scope hides no binding.
pub proof fn law_push_keeps_lookups<V>(scopes: Seq<Map<Seq<char>, VarInfo<V>>>, name: Seq<char>)
    ensures
        lookup(scopes.push(Map::empty()), name) == lookup(scopes, name),
{
    let s2 = scopes.push(Map::empty());
    assert(s2.drop_last() =~= scopes);
    lemma_innermost(scopes, name);
}

/// Closing a scope right after opening it restores the environment.
pub proof fn law_pop_after_push<V>(scopes: Seq<Map<Seq<char>, VarInfo<V>>>)
    ensures
        scopes.push(Map::empty()).drop_last() == scopes,
{
    assert(scopes.push(Map::empty()).drop_last() =~= scopes);
}

/// A definition in a new inner scope shadows any outer binding of the name,
/// and closing that scope brings the outer binding back.
pub proof fn law_shadowing<V>(scopes: Seq<Map<Seq<char>, VarInfo<V>>>, name: Seq<char>, info: VarInfo<V>)
    ensures
        lookup(defined(scopes.push(Map::empty()), name, info), name) == Some(info),
        lookup(defined(scopes.push(Map::empty()), name, info).drop_last(), name) == lookup(scopes, name),
{
    let s1 = scopes.push(Map::empty());
    law_lookup_after_define(s1, name, info);
    assert(defined(s1, name, info).drop_last() =~= scopes);
}

/// After a successful reassignment, reading the name gives the new value.
pub proof fn law_lookup_after_assign<V>(scopes: Seq<Map<Seq<char>, VarInfo<V>>>, name: Seq<char>, value: V)
    requires
        innermost(scopes, name) is Some,
    ensures
        lookup(reassigned(scopes, innermost(scopes, name)->0, name, value), name) == Some(
            VarInfo { value, mutable: true },
        ),
{
    let d = innermost(scopes, name)->0;
    lemma_innermost(scopes, name);
    let s2 = reassigned(scopes, d, name, value);
    assert forall|e: int| d < e < s2.len() implies !(#[trigger] s2[e]).contains_key(name) by {
        assert(s2[e] == scopes[e]);
    }
    lemma_innermost_is(s2, name, d);
}

} // verus!
