//! The table of shell variables.
use crate::bytes::{copy, cut, cut_copy, same};
use vstd::prelude::*;

verus! {

/// Maximum number of shell variables.
pub const MAX_VARS: usize = 16;

/// Maximum length of a variable name.
pub const MAX_VAR_NAME: usize = 32;

/// Maximum length of a variable value.
pub const MAX_VAR_VAL: usize = 128;

/// A variable: its name and its value.
#[verifier::ext_equal]
pub struct Binding {
    pub name: Seq<u8>,
    pub value: Seq<u8>,
}

/// Limits that every table keeps.
pub open spec fn env_ok(env: Seq<Binding>) -> bool {
    &&& env.len() <= MAX_VARS
    &&& forall|i: int|
        0 <= i < env.len() ==> (#[trigger] env[i]).name.len() <= MAX_VAR_NAME && env[i].value.len()
            <= MAX_VAR_VAL
}

/// The place of the first variable called `name`; the length of the table if
/// there is none.
pub open spec fn place(env: Seq<Binding>, name: Seq<u8>) -> nat
    decreases env.len(),
{
    if env.len() == 0 || env[0].name == name {
        0
    } else {
        1 + place(env.skip(1), name)
    }
}

/// The value of the variable `name`.
pub open spec fn lookup(env: Seq<Binding>, name: Seq<u8>) -> Option<Seq<u8>> {
    let i = place(env, name);
    if i < env.len() {
        Some(env[i as int].value)
    } else {
        None
    }
}

/// The table after `name` has been set to `value`.  Names and values are cut
/// to their maximum length; a new variable that finds the table full is
/// dropped.
pub open spec fn assigned(env: Seq<Binding>, name: Seq<u8>, value: Seq<u8>) -> Seq<Binding> {
    let i = place(env, name) as int;
    let v = cut(value, MAX_VAR_VAL as int);
    if i < env.len() {
        env.update(i, Binding { value: v, ..env[i] })
    } else if env.len() < MAX_VARS {
        env.push(Binding { name: cut(name, MAX_VAR_NAME as int), value: v })
    } else {
        env
    }
}

/// The table after the first variable called `name` has been removed.
pub open spec fn unassigned(env: Seq<Binding>, name: Seq<u8>) -> Seq<Binding> {
    let i = place(env, name) as int;
    if i < env.len() {
        env.remove(i)
    } else {
        env
    }
}

proof fn lemma_place(env: Seq<Binding>, name: Seq<u8>)
    ensures
        place(env, name) <= env.len(),
        forall|k: int| 0 <= k < place(env, name) ==> (#[trigger] env[k]).name != name,
        place(env, name) < env.len() ==> env[place(env, name) as int].name == name,
    decreases env.len(),
{
    if env.len() > 0 && env[0].name != name {
        lemma_place(env.skip(1), name);
        assert forall|k: int| 0 <= k < place(env, name) implies (#[trigger] env[k]).name != name by {
            if k > 0 {
                assert(env.skip(1)[k - 1] == env[k]);
            }
        }
    }
}

proof fn lemma_place_is(env: Seq<Binding>, name: Seq<u8>, i: int)
    requires
        0 <= i <= env.len(),
        forall|k: int| 0 <= k < i ==> (#[trigger] env[k]).name != name,
        i < env.len() ==> env[i].name == name,
    ensures
        place(env, name) == i,
{
    lemma_place(env, name);
    let p = place(env, name) as int;
    if p < i {
        assert(env[p].name != name);
    }
    if i < p {
        assert(env[i].name != name);
    }
}

struct Var {
    name: Vec<u8>,
    value: Vec<u8>,
}

/// The table of shell variables.
pub struct Vars {
    list: Vec<Var>,
}

impl View for Vars {
    type V = Seq<Binding>;

    closed spec fn view(&self) -> Seq<Binding> {
        Seq::new(
            self.list@.len(),
            |i: int| Binding { name: self.list@[i].name@, value: self.list@[i].value@ },
        )
    }
}

impl Vars {
    pub open spec fn wf(&self) -> bool {
        env_ok(self@)
    }

    /// A table without variables.
    pub fn new() -> (r: Self)
        ensures
            r.wf(),
            r@ == Seq::<Binding>::empty(),
    {
        let r = Vars { list: Vec::new() };
        assert(r@ =~= Seq::<Binding>::empty());
        r
    }

    /// The number of variables.
    pub fn len(&self) -> (r: usize)
        ensures
            r == self@.len(),
    {
        self.list.len()
    }

    /// The name of variable number `i`.
    pub fn name_at(&self, i: usize) -> (r: &[u8])
        requires
            i < self@.len(),
        ensures
            r@ == self@[i as int].name,
    {
        self.list[i].name.as_slice()
    }

    /// The value of variable number `i`.
    pub fn value_at(&self, i: usize) -> (r: &[u8])
        requires
            i < self@.len(),
        ensures
            r@ == self@[i as int].value,
    {
        self.list[i].value.as_slice()
    }

    fn find(&self, name: &[u8]) -> (r: usize)
        ensures
            r == place(self@, name@),
            r <= self@.len(),
    {
        let mut i: usize = 0;
        while i < self.list.len()
            invariant
                i <= self.list@.len(),
                forall|k: int| 0 <= k < i ==> (#[trigger] self@[k]).name != name@,
            decreases self.list@.len() - i,
        {
            if same(self.list[i].name.as_slice(), name) {
                proof {
                    lemma_place_is(self@, name@, i as int);
                }
                return i;
            }
            assert(self@[i as int].name != name@);
            i += 1;
        }
        proof {
            lemma_place_is(self@, name@, i as int);
        }
        i
    }

    /// The value of the variable `name`.
    pub fn get(&self, name: &[u8]) -> (r: Option<&[u8]>)
        ensures
            r is Some <==> lookup(self@, name@) is Some,
            r matches Some(v) ==> lookup(self@, name@) == Some(v@),
    {
        let i: usize = self.find(name);
        if i < self.list.len() {
            Some(self.list[i].value.as_slice())
        } else {
            None
        }
    }

    /// Set the variable `name` to `value`.
    pub fn set(&mut self, name: &[u8], value: &[u8])
        requires
            old(self).wf(),
        ensures
            final(self).wf(),
            final(self)@ == assigned(old(self)@, name@, value@),
    {
        let i: usize = self.find(name);
        let ghost env = self@;
        if i < self.list.len() {
            let kept: Vec<u8> = copy(self.list[i].name.as_slice());
            self.list[i] = Var { name: kept, value: cut_copy(value, MAX_VAR_VAL) };
            assert(self@ =~= assigned(env, name@, value@));
        } else if self.list.len() < MAX_VARS {
            self.list.push(
                Var { name: cut_copy(name, MAX_VAR_NAME), value: cut_copy(value, MAX_VAR_VAL) },
            );
            assert(self@ =~= assigned(env, name@, value@));
        }
        proof {
            lemma_assigned_ok(env, name@, value@);
        }
    }

    /// Remove the variable `name`.
    pub fn unset(&mut self, name: &[u8])
        requires
            old(self).wf(),
        ensures
            final(self).wf(),
            final(self)@ == unassigned(old(self)@, name@),
    {
        let i: usize = self.find(name);
        let ghost env = self@;
        if i < self.list.len() {
            let _ = self.list.remove(i);
            assert(self@ =~= env.remove(i as int));
        }
        proof {
            lemma_unassigned_ok(env, name@);
        }
    }
}

proof fn lemma_assigned_ok(env: Seq<Binding>, name: Seq<u8>, value: Seq<u8>)
    requires
        env_ok(env),
    ensures
        env_ok(assigned(env, name, value)),
{
}

proof fn lemma_unassigned_ok(env: Seq<Binding>, name: Seq<u8>)
    requires
        env_ok(env),
    ensures
        env_ok(unassigned(env, name)),
{
    let i = place(env, name) as int;
    let e = unassigned(env, name);
    assert forall|k: int| 0 <= k < e.len() implies (#[trigger] e[k]).name.len() <= MAX_VAR_NAME
        && e[k].value.len() <= MAX_VAR_VAL by {
        assert(e[k] == env[k] || e[k] == env[k + 1]);
    }
}

// Laws -------------------------------------------------------------------------

/// No two variables have the same name.
pub open spec fn names_distinct(env: Seq<Binding>) -> bool {
    forall|i: int, j: int|
        0 <= i < j < env.len() ==> (#[trigger] env[i]).name != (#[trigger] env[j]).name
}

/// A variable that was set has the value it was set to, cut to its maximum
/// length, provided that its name fits and the table has room for it.
pub proof fn law_get_after_set(env: Seq<Binding>, name: Seq<u8>, value: Seq<u8>)
    requires
        name.len() <= MAX_VAR_NAME,
        lookup(env, name) is Some || env.len() < MAX_VARS,
    ensures
        lookup(assigned(env, name, value), name) == Some(cut(value, MAX_VAR_VAL as int)),
{
    lemma_place(env, name);
    lemma_place_is(assigned(env, name, value), name, place(env, name) as int);
}

/// Setting one variable leaves the others as they are.
pub proof fn law_set_keeps_others(
    env: Seq<Binding>,
    name: Seq<u8>,
    value: Seq<u8>,
    other: Seq<u8>,
)
    requires
        other != name,
        other != cut(name, MAX_VAR_NAME as int),
    ensures
        lookup(assigned(env, name, value), other) == lookup(env, other),
{
    let e = assigned(env, name, value);
    lemma_place(env, name);
    lemma_place(env, other);
    let p = place(env, other) as int;
    let q = if p < env.len() { p } else { e.len() as int };
    assert forall|k: int| 0 <= k < q implies (#[trigger] e[k]).name != other by {
        if k < env.len() {
            assert(e[k].name == env[k].name);
        }
    }
    lemma_place_is(e, other, q);
}

/// A full table takes no further variable, and the ones it has keep their
/// values.
pub proof fn law_full_table_drops(env: Seq<Binding>, name: Seq<u8>, value: Seq<u8>)
    requires
        env.len() >= MAX_VARS,
        lookup(env, name) is None,
    ensures
        assigned(env, name, value) == env,
{
}

/// A variable that was removed has no value.
pub proof fn law_get_after_unset(env: Seq<Binding>, name: Seq<u8>)
    requires
        names_distinct(env),
    ensures
        lookup(unassigned(env, name), name) is None,
{
    let e = unassigned(env, name);
    let p = place(env, name) as int;
    lemma_place(env, name);
    assert forall|k: int| 0 <= k < e.len() implies (#[trigger] e[k]).name != name by {
        if p < env.len() {
            if k < p {
                assert(e[k] == env[k]);
            } else {
                assert(e[k] == env[k + 1]);
                assert(env[p].name != env[k + 1].name);
            }
        } else {
            assert(e[k] == env[k]);
        }
    }
    lemma_place_is(e, name, e.len() as int);
}

/// Removing one variable leaves the others as they are.
pub proof fn law_unset_keeps_others(env: Seq<Binding>, name: Seq<u8>, other: Seq<u8>)
    requires
        other != name,
    ensures
        lookup(unassigned(env, name), other) == lookup(env, other),
{
    let e = unassigned(env, name);
    let p = place(env, name) as int;
    let q = place(env, other) as int;
    lemma_place(env, name);
    lemma_place(env, other);
    if p < env.len() {
        let q2 = if q > p { q - 1 } else { q };
        assert forall|k: int| 0 <= k < q2 implies (#[trigger] e[k]).name != other by {
            if k < p {
                assert(e[k] == env[k]);
            } else {
                assert(e[k] == env[k + 1]);
            }
        }
        if q < env.len() {
            assert(q != p);
            assert(e[q2] == env[q]);
        }
        lemma_place_is(e, other, q2);
    }
}

/// Setting a variable that is not there and removing it again changes nothing.
pub proof fn law_unset_undoes_set(env: Seq<Binding>, name: Seq<u8>, value: Seq<u8>)
    requires
        lookup(env, name) is None,
        env.len() < MAX_VARS,
        name.len() <= MAX_VAR_NAME,
    ensures
        unassigned(assigned(env, name, value), name) == env,
{
    let e = assigned(env, name, value);
    lemma_place(env, name);
    lemma_place_is(e, name, env.len() as int);
    assert(unassigned(e, name) =~= env);
}

/// As long as the names that are set fit, no two variables come to have the
/// same name.
pub proof fn law_names_stay_distinct(env: Seq<Binding>, name: Seq<u8>, value: Seq<u8>)
    requires
        names_distinct(env),
    ensures
        name.len() <= MAX_VAR_NAME ==> names_distinct(assigned(env, name, value)),
        names_distinct(unassigned(env, name)),
{
    lemma_place(env, name);
    let e = assigned(env, name, value);
    let u = unassigned(env, name);
    let p = place(env, name) as int;
    if name.len() <= MAX_VAR_NAME {
        assert forall|i: int, j: int| 0 <= i < j < e.len() implies (#[trigger] e[i]).name != (
        #[trigger] e[j]).name by {
            assert(e[i].name == env[i].name);
            if j < env.len() {
                assert(e[j].name == env[j].name);
            }
        }
    }
    assert forall|i: int, j: int| 0 <= i < j < u.len() implies (#[trigger] u[i]).name != (
    #[trigger] u[j]).name by {
        let i2 = if p < env.len() && i >= p { i + 1 } else { i };
        let j2 = if p < env.len() && j >= p { j + 1 } else { j };
        assert(u[i] == env[i2] && u[j] == env[j2]);
    }
}

/// Setting a variable that is there changes its value only: the order and the
/// names of the variables stay.  A new one comes last.
pub proof fn law_set_keeps_order(env: Seq<Binding>, name: Seq<u8>, value: Seq<u8>)
    ensures
        ({
            let after = assigned(env, name, value);
            &&& lookup(env, name) is Some ==> after.len() == env.len()
            &&& lookup(env, name) is Some ==> forall|i: int|
                0 <= i < env.len() ==> (#[trigger] after[i]).name == env[i].name
            &&& lookup(env, name) is Some ==> forall|i: int|
                0 <= i < env.len() && env[i].name != name ==> #[trigger] after[i] == env[i]
            &&& lookup(env, name) is None && env.len() < 16 && name.len() <= 32 && value.len()
                <= 128 ==> after == env.push(Binding { name, value })
            &&& lookup(env, name) is None && env.len() < 16 ==> after == env.push(
                Binding {
                    name: if name.len() <= 32 {
                        name
                    } else {
                        name.take(32)
                    },
                    value: if value.len() <= 128 {
                        value
                    } else {
                        value.take(128)
                    },
                },
            )
        }),
{
    lemma_place(env, name);
}

/// Removing a variable keeps the order of the others.
pub proof fn law_unset_keeps_order(env: Seq<Binding>, i: int)
    requires
        0 <= i < env.len(),
        names_distinct(env),
    ensures
        unassigned(env, env[i].name) == env.take(i) + env.skip(i + 1),
{
    let name = env[i].name;
    assert forall|k: int| 0 <= k < i implies (#[trigger] env[k]).name != name by {
        assert(env[k].name != env[i].name);
    }
    lemma_place_is(env, name, i);
    assert(env.remove(i) =~= env.take(i) + env.skip(i + 1));
}

/// The value of a variable is that of the entry with its name.
pub proof fn law_lookup(env: Seq<Binding>, i: int, name: Seq<u8>)
    requires
        names_distinct(env),
    ensures
        0 <= i < env.len() ==> lookup(env, env[i].name) == Some(env[i].value),
        (forall|k: int| 0 <= k < env.len() ==> (#[trigger] env[k]).name != name) ==> lookup(
            env,
            name,
        ) is None,
{
    lemma_place(env, name);
    if 0 <= i < env.len() {
        assert forall|k: int| 0 <= k < i implies (#[trigger] env[k]).name != env[i].name by {}
        lemma_place_is(env, env[i].name, i);
    }
}

} // verus!
