//! The stack of variables: the newest binding of a name hides the older ones.
use crate::names::{increasing, names_of, values_of, NameMap};
use crate::semantics::{captured, Scope};
use crate::syntax::{accesses, Expr};
use crate::text::same_text;
use crate::value::{fields, lemma_fields, val, Val, Value};
use vstd::prelude::*;

verus! {

/// A variable with its value.
pub type Binding<'a> = (&'a str, Value<'a>);

/// The variables in sight on a stack, the newest last.
pub open spec fn visible<'a>(s: Seq<Binding<'a>>) -> Scope<'a>
    decreases s.len(),
{
    if s.len() == 0 {
        Map::empty()
    } else {
        visible(s.drop_last()).insert(s.last().0@, val(s.last().1))
    }
}

/// What the references of a map refer to, by name.
pub open spec fn referred<'a, 'b>(m: NameMap<&'a str, &'b Value<'a>>) -> Scope<'a> {
    m@.map_values(|v: &'b Value<'a>| val(*v))
}

/// The newest binding of a name is the one in sight.
proof fn lemma_visible_at<'a>(s: Seq<Binding<'a>>, i: int)
    requires
        0 <= i < s.len(),
        forall|j: int| i < j < s.len() ==> (#[trigger] s[j]).0@ != s[i].0@,
    ensures
        visible(s).contains_key(s[i].0@),
        visible(s)[s[i].0@] == val(s[i].1),
    decreases s.len(),
{
    if i < s.len() - 1 {
        let t = s.drop_last();
        assert forall|j: int| i < j < t.len() implies (#[trigger] t[j]).0@ != t[i].0@ by {
            assert(t[j] == s[j]);
        }
        lemma_visible_at(t, i);
        assert(s[s.len() - 1].0@ != s[i].0@);
    }
}

/// A name without a binding is not in sight.
proof fn lemma_not_visible<'a>(s: Seq<Binding<'a>>, name: Seq<char>)
    requires
        forall|j: int| 0 <= j < s.len() ==> (#[trigger] s[j]).0@ != name,
    ensures
        !visible(s).contains_key(name),
    decreases s.len(),
{
    if s.len() > 0 {
        let t = s.drop_last();
        assert forall|j: int| 0 <= j < t.len() implies (#[trigger] t[j]).0@ != name by {
            assert(t[j] == s[j]);
        }
        lemma_not_visible(t, name);
        assert(s[s.len() - 1].0@ != name);
    }
}

/// Later bindings hide what was in sight under their names, and nothing else.
pub proof fn law_later_bindings_hide_earlier_ones<'a>(s: Seq<Binding<'a>>, t: Seq<Binding<'a>>)
    ensures
        visible(s + t) == visible(s).union_prefer_right(visible(t)),
    decreases t.len(),
{
    if t.len() == 0 {
        assert(s + t =~= s);
        assert(visible(s).union_prefer_right(visible(t)) =~= visible(s));
    } else {
        assert((s + t).drop_last() =~= s + t.drop_last());
        law_later_bindings_hide_earlier_ones(s, t.drop_last());
        assert(visible(s + t) =~= visible(s).union_prefer_right(visible(t)));
    }
}

/// A name is in sight where some binding has it, and means what the newest of these says.
pub proof fn law_the_newest_binding_is_in_sight<'a>(s: Seq<Binding<'a>>, i: int, name: Seq<char>)
    ensures
        0 <= i < s.len() && s[i].0@ == name && (forall|j: int| i < j < s.len() ==> (#[trigger] s[j]).0@ != name)
            ==> visible(s).contains_key(name) && visible(s)[name] == s[i].1@,
        (forall|j: int| 0 <= j < s.len() ==> (#[trigger] s[j]).0@ != name) ==> !visible(s).contains_key(name),
{
    if 0 <= i < s.len() && s[i].0@ == name && (forall|j: int| i < j < s.len() ==> (#[trigger] s[j]).0@ != name) {
        lemma_visible_at(s, i);
    }
    if forall|j: int| 0 <= j < s.len() ==> (#[trigger] s[j]).0@ != name {
        lemma_not_visible(s, name);
    }
}

/// What was in sight before some bindings is in sight again once they are dropped.
pub proof fn law_dropping_undoes_binding<'a>(s: Seq<Binding<'a>>, t: Seq<Binding<'a>>)
    ensures
        visible((s + t).take(s.len() as int)) == visible(s),
{
    assert((s + t).take(s.len() as int) =~= s);
}

/// The entries of a map, pushed in order, bring its names in sight.
pub proof fn lemma_visible_fields<'a>(m: NameMap<&'a str, Value<'a>>)
    requires
        increasing(names_of(m.spine())),
    ensures
        visible(m.spine()) == fields(m),
{
    let s = m.spine();
    let names = names_of(s);
    lemma_fields(m);
    crate::names::lemma_increasing_distinct(names);
    assert forall|k: Seq<char>| #[trigger] visible(s).contains_key(k) == fields(m).contains_key(k) && (fields(
        m,
    ).contains_key(k) ==> visible(s)[k] == fields(m)[k]) by {
        if names.contains(k) {
            let i = names.index_of(k);
            assert(names[i] == s[i].0@);
            assert forall|j: int| i < j < s.len() implies (#[trigger] s[j]).0@ != s[i].0@ by {
                assert(names[j] == s[j].0@);
            }
            lemma_visible_at(s, i);
        } else {
            assert forall|j: int| 0 <= j < s.len() implies (#[trigger] s[j]).0@ != k by {
                assert(names[j] == s[j].0@);
            }
            lemma_not_visible(s, k);
        }
    }
    assert(visible(s) =~= fields(m));
}

/// The variables of a thread.
#[derive(Debug)]
pub struct VarStack<'a> {
    entries: Vec<Binding<'a>>,
}

impl<'a> View for VarStack<'a> {
    type V = Scope<'a>;

    open spec fn view(&self) -> Scope<'a> {
        visible(self.bindings())
    }
}

impl<'a> VarStack<'a> {
    /// The bindings, the newest last.
    pub closed spec fn bindings(&self) -> Seq<Binding<'a>> {
        self.entries@
    }

    /// A stack without variables.
    pub fn new() -> (r: Self)
        ensures
            r.bindings() == Seq::<Binding<'a>>::empty(),
            r@ == Map::<Seq<char>, Val<'a>>::empty(),
    {
        VarStack { entries: Vec::new() }
    }

    /// How many bindings there are.
    pub fn depth(&self) -> (r: usize)
        ensures
            r == self.bindings().len(),
    {
        self.entries.len()
    }

    /// Binds a name to a value.
    pub fn push(&mut self, name: &'a str, value: Value<'a>)
        ensures
            final(self).bindings() == old(self).bindings().push((name, value)),
            final(self)@ == old(self)@.insert(name@, value@),
    {
        let ghost before = self.entries@;
        self.entries.push((name, value));
        assert(self.entries@.drop_last() =~= before);
    }

    /// Drops the bindings that are newer than the first `depth`.
    pub fn truncate(&mut self, depth: usize)
        requires
            depth <= old(self).bindings().len(),
        ensures
            final(self).bindings() == old(self).bindings().take(depth as int),
    {
        self.entries.truncate(depth);
        assert(self.entries@ =~= old(self).entries@.take(depth as int));
    }

    /// Looks a variable up.
    pub fn find(&self, name: &str) -> (r: Option<&Value<'a>>)
        ensures
            r is Some == self@.contains_key(name@),
            r matches Some(v) ==> v@ == self@[name@],
    {
        let mut i: usize = self.entries.len();
        while i > 0
            invariant
                i <= self.entries@.len(),
                forall|j: int| i <= j < self.entries@.len() ==> (#[trigger] self.entries@[j]).0@ != name@,
            decreases i,
        {
            i -= 1;
            if same_text(self.entries[i].0, name) {
                proof {
                    lemma_visible_at(self.entries@, i as int);
                }
                return Some(&self.entries[i].1);
            }
        }
        proof {
            lemma_not_visible(self.entries@, name@);
        }
        None
    }

    /// Copies the variables that a function takes along.
    pub fn capture(&self, arg: &str, body: &Expr) -> (r: NameMap<&'a str, Value<'a>>)
        ensures
            fields(r) == captured(self@, arg@, *body),
    {
        let ghost s = self.entries@;
        let ghost scope = self@;
        let mut saved: NameMap<&'a str, Value<'a>> = NameMap::new();
        let mut i: usize = self.entries.len();
        proof {
            assert(fields(saved) =~= Map::<Seq<char>, Val<'a>>::empty());
        }
        while i > 0
            invariant
                s == self.entries@,
                scope == visible(s),
                i <= s.len(),
                forall|k: Seq<char>|
                    #![trigger fields(saved).contains_key(k)]
                    fields(saved).contains_key(k) == (k != arg@ && accesses(body.inner, k) && exists|j: int|
                        i <= j < s.len() && (#[trigger] s[j]).0@ == k),
                forall|k: Seq<char>|
                    #![trigger fields(saved).contains_key(k)]
                    fields(saved).contains_key(k) ==> scope.contains_key(k) && fields(saved)[k] == scope[k],
            decreases i,
        {
            let ghost upper = i as int;
            i -= 1;
            let name: &'a str = self.entries[i].0;
            let ghost k0 = name@;
            let ghost known = fields(saved);
            proof {
                use_type_invariant(&saved);
                lemma_fields(saved);
            }
            if !saved.contains_key(name) && !same_text(name, arg) && body.inner.is_var_accessed(name) {
                assert(!known.contains_key(k0));
                assert forall|j: int| i < j < s.len() implies (#[trigger] s[j]).0@ != s[i as int].0@ by {
                    if s[j].0@ == k0 {
                        assert(known.contains_key(k0));
                    }
                }
                proof {
                    lemma_visible_at(s, i as int);
                }
                insert_field(&mut saved, name, self.entries[i].1.clone());
                assert forall|k: Seq<char>| #[trigger] fields(saved).contains_key(k) == (k != arg@ && accesses(
                    body.inner,
                    k,
                ) && exists|j: int| i <= j < s.len() && (#[trigger] s[j]).0@ == k) by {
                    assert(fields(saved).contains_key(k) == (known.contains_key(k) || k == k0));
                    if k == k0 {
                        assert(s[i as int].0@ == k);
                    }
                }
            } else {
                assert forall|k: Seq<char>| #[trigger] fields(saved).contains_key(k) == (k != arg@ && accesses(
                    body.inner,
                    k,
                ) && exists|j: int| i <= j < s.len() && (#[trigger] s[j]).0@ == k) by {
                    if k == k0 && k != arg@ && accesses(body.inner, k) {
                        assert(known.contains_key(k));
                    }
                }
            }
        }
        proof {
            assert forall|k: Seq<char>| #[trigger] fields(saved).contains_key(k) == captured(
                scope,
                arg@,
                *body,
            ).contains_key(k) by {
                if exists|j: int| 0 <= j < s.len() && (#[trigger] s[j]).0@ == k {
                } else {
                    lemma_not_visible(s, k);
                }
                if scope.contains_key(k) && k != arg@ && accesses(body.inner, k) {
                    assert(fields(saved).contains_key(k));
                }
            }
            assert(fields(saved) =~= captured(scope, arg@, *body));
        }
        saved
    }

    /// Binds names to values, one after the other.
    pub fn push_list(&mut self, more: Vec<Binding<'a>>)
        ensures
            final(self).bindings() == old(self).bindings() + more@,
    {
        let mut rest = more;
        self.entries.append(&mut rest);
    }

    /// Binds the names of a map to its values.
    pub fn push_all(&mut self, m: NameMap<&'a str, Value<'a>>)
        ensures
            old(self).bindings().len() <= final(self).bindings().len(),
            final(self).bindings().take(old(self).bindings().len() as int) == old(self).bindings(),
            final(self)@ == old(self)@.union_prefer_right(fields(m)),
    {
        let ghost before = self.entries@;
        proof {
            use_type_invariant(&m);
            lemma_visible_fields(m);
            law_later_bindings_hide_earlier_ones(before, m.spine());
        }
        self.push_list(m.into_entries());
        assert(self.entries@.take(before.len() as int) =~= before);
    }

    /// Binds the names of a map to copies of what it refers to.
    pub fn push_copies<'b>(&mut self, m: &NameMap<&'a str, &'b Value<'a>>)
        ensures
            old(self).bindings().len() <= final(self).bindings().len(),
            final(self).bindings().take(old(self).bindings().len() as int) == old(self).bindings(),
            final(self)@ == old(self)@.union_prefer_right(referred(*m)),
    {
        let n: usize = m.len();
        let mut copies: Vec<Binding<'a>> = Vec::new();
        let mut i: usize = 0;
        while i < n
            invariant
                n == m.spine().len(),
                i <= n,
                i == copies@.len(),
                forall|j: int|
                    0 <= j < i ==> (#[trigger] copies@[j]).0@ == m.spine()[j].0@ && val(copies@[j].1) == val(
                        *m.spine()[j].1,
                    ),
            decreases n - i,
        {
            let v: &'b Value<'a> = *m.value_at(i);
            copies.push((*m.name_at(i), v.clone()));
            i += 1;
        }
        assert(names_of(copies@) =~= names_of(m.spine()));
        let copy = NameMap::from_sorted(copies);
        proof {
            lemma_fields(copy);
            let names = names_of(m.spine());
            assert forall|k: Seq<char>| #[trigger] fields(copy).contains_key(k) == referred(*m).contains_key(k) && (
            referred(*m).contains_key(k) ==> fields(copy)[k] == referred(*m)[k]) by {
                if names.contains(k) {
                    let j = names.index_of(k);
                    crate::names::lemma_assoc_at(names, values_of(m.spine()), j);
                    assert(copy.spine()[j].0@ == k);
                }
            }
            assert(fields(copy) =~= referred(*m));
        }
        self.push_all(copy);
    }
}

/// Puts a value into the map of a record.
pub fn insert_field<'a>(m: &mut NameMap<&'a str, Value<'a>>, name: &'a str, value: Value<'a>)
    ensures
        fields(*final(m)) == fields(*old(m)).insert(name@, value@),
{
    proof {
        use_type_invariant(&*m);
        lemma_fields(*m);
    }
    let ghost before = fields(*m);
    let ghost before_map = m@;
    m.insert(name, value);
    proof {
        lemma_fields(*m);
        assert forall|k: Seq<char>| #[trigger] fields(*m).contains_key(k) implies fields(*m)[k] == before.insert(
            name@,
            value@,
        )[k] by {
            assert(m@.contains_key(k));
            if k != name@ {
                assert(before_map.contains_key(k));
            }
        }
        assert(fields(*m) =~= before.insert(name@, value@));
    }
}

} // verus!
