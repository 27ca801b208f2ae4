//! The names that are in scope, each with the type of the value it stands
//! for.

use crate::types::{Type, TypeView};
use vstd::prelude::*;

verus! {

/// Comparing two string slices with `==` compares their characters.
pub assume_specification[ <str as PartialEq>::eq ](a: &str, b: &str) -> (same: bool)
    ensures
        same == (a@ == b@),
;

/// Whether the two texts are the same.
pub fn same_text(a: &str, b: &str) -> (same: bool)
    ensures
        same == (a@ == b@),
{
    a.eq(b)
}

/// A chain of definitions, the most recent first.
#[derive(Debug)]
pub enum ScopeNode<'a, 'b> {
    Empty,
    Definition { name: &'a str, ty: Type<'a, 'b>, previous: Box<ScopeNode<'a, 'b>> },
}

#[derive(Debug)]
pub struct Scope<'a, 'b> {
    node: ScopeNode<'a, 'b>,
}

/// One definition as a mathematical value.
pub struct Binding<'a> {
    pub name: Seq<char>,
    pub ty: TypeView<'a>,
}

/// The type of the first definition of `name` in `bindings`, if there is one.
pub open spec fn lookup<'a>(bindings: Seq<Binding<'a>>, name: Seq<char>) -> Option<TypeView<'a>>
    decreases bindings.len(),
{
    if bindings.len() == 0 {
        None
    } else if bindings[0].name == name {
        Some(bindings[0].ty)
    } else {
        lookup(bindings.drop_first(), name)
    }
}

/// `bindings` with the type of the first definition of `name` replaced by
/// `ty`. Without such a definition nothing changes.
pub open spec fn overwrite<'a>(bindings: Seq<Binding<'a>>, name: Seq<char>, ty: TypeView<'a>) -> Seq<
    Binding<'a>,
>
    decreases bindings.len(),
{
    if bindings.len() == 0 {
        bindings
    } else if bindings[0].name == name {
        bindings.update(0, Binding { name, ty })
    } else {
        seq![bindings[0]] + overwrite(bindings.drop_first(), name, ty)
    }
}

/// `bindings` after `name = ty`: a definition of `name` that is there
/// already gets the new type, else a new definition comes in front.
pub open spec fn assigned<'a>(bindings: Seq<Binding<'a>>, name: Seq<char>, ty: TypeView<'a>) -> Seq<
    Binding<'a>,
> {
    if lookup(bindings, name) is Some {
        overwrite(bindings, name, ty)
    } else {
        seq![Binding { name, ty }] + bindings
    }
}

/// Overwriting keeps the number of definitions and their names.
pub proof fn lemma_overwrite<'a>(bindings: Seq<Binding<'a>>, name: Seq<char>, ty: TypeView<'a>)
    ensures
        overwrite(bindings, name, ty).len() == bindings.len(),
        forall|i: int|
            0 <= i < bindings.len() ==> {
                ||| (#[trigger] overwrite(bindings, name, ty)[i]) == bindings[i]
                ||| overwrite(bindings, name, ty)[i] == (Binding { name, ty })
            },
        lookup(bindings, name) is Some ==> lookup(overwrite(bindings, name, ty), name) == Some(ty),
        lookup(bindings, name) is None ==> overwrite(bindings, name, ty) == bindings,
        forall|other: Seq<char>|
            other != name ==> lookup(overwrite(bindings, name, ty), other) == lookup(
                bindings,
                other,
            ),
    decreases bindings.len(),
{
    let after = overwrite(bindings, name, ty);
    if bindings.len() == 0 {
    } else if bindings[0].name == name {
        assert(after.drop_first() =~= bindings.drop_first());
        assert forall|other: Seq<char>| other != name implies lookup(after, other) == lookup(
            bindings,
            other,
        ) by {}
    } else {
        let rest = bindings.drop_first();
        lemma_overwrite(rest, name, ty);
        assert(after.drop_first() =~= overwrite(rest, name, ty));
        assert(after[0] == bindings[0]);
        assert forall|i: int| 0 <= i < bindings.len() implies {
            ||| (#[trigger] after[i]) == bindings[i]
            ||| after[i] == (Binding { name, ty })
        } by {
            if i > 0 {
                assert(after[i] == overwrite(rest, name, ty)[i - 1]);
                assert(bindings[i] == rest[i - 1]);
            }
        }
        assert forall|other: Seq<char>| other != name implies lookup(after, other) == lookup(
            bindings,
            other,
        ) by {
            if bindings[0].name != other {
                assert(lookup(after, other) == lookup(after.drop_first(), other));
                assert(lookup(bindings, other) == lookup(rest, other));
                assert(lookup(overwrite(rest, name, ty), other) == lookup(rest, other));
            }
        }
        if lookup(bindings, name) is None {
            assert(after =~= bindings);
        }
    }
}

/// After `name = ty` the name stands for `ty`, and every other name for
/// what it stood for before.
pub proof fn lemma_assigned<'a>(bindings: Seq<Binding<'a>>, name: Seq<char>, ty: TypeView<'a>)
    ensures
        lookup(assigned(bindings, name, ty), name) == Some(ty),
        forall|other: Seq<char>|
            other != name ==> lookup(assigned(bindings, name, ty), other) == lookup(bindings, other),
{
    lemma_overwrite(bindings, name, ty);
    if lookup(bindings, name) is None {
        let after = assigned(bindings, name, ty);
        assert(after.drop_first() =~= bindings);
    }
}

impl<'a, 'b> ScopeNode<'a, 'b> {
    /// The definitions of the chain, the most recent first.
    pub open spec fn bindings(&self) -> Seq<Binding<'a>>
        decreases self,
    {
        match self {
            ScopeNode::Empty => seq![],
            ScopeNode::Definition { name, ty, previous } => seq![Binding { name: name@, ty: ty@ }]
                + previous.bindings(),
        }
    }

    /// A copy of the type that `search` stands for.
    pub fn get(&self, search: &str) -> (found: Option<Type<'a, 'b>>)
        ensures
            found is Some <==> lookup(self.bindings(), search@) is Some,
            found matches Some(ty) ==> lookup(self.bindings(), search@) == Some(ty@),
        decreases self,
    {
        match self {
            ScopeNode::Empty => None,
            ScopeNode::Definition { name, ty, previous } => {
                assert(self.bindings().drop_first() =~= previous.bindings());
                assert(self.bindings()[0] == (Binding { name: name@, ty: ty@ }));
                if same_text(name, search) {
                    Some(ty.clone())
                } else {
                    previous.get(search)
                }
            },
        }
    }

    /// Gives the first definition of `search` the type `new_ty` and tells
    /// whether there was one.
    pub fn assign(&mut self, search: &str, new_ty: &Type<'a, 'b>) -> (found: bool)
        ensures
            found == (lookup(old(self).bindings(), search@) is Some),
            final(self).bindings() == overwrite(old(self).bindings(), search@, new_ty@),
        decreases *old(self),
    {
        match self {
            ScopeNode::Empty => false,
            ScopeNode::Definition { name, ty, previous } => {
                assert(old(self).bindings().drop_first() =~= previous.bindings());
                assert(old(self).bindings()[0] == (Binding { name: name@, ty: ty@ }));
                if same_text(name, search) {
                    *ty = new_ty.clone();
                    proof {
                        assert(final(self).bindings() =~= old(self).bindings().update(
                            0,
                            Binding { name: search@, ty: new_ty@ },
                        ));
                    }
                    true
                } else {
                    let found = previous.assign(search, new_ty);
                    proof {
                        assert(final(self).bindings() =~= seq![old(self).bindings()[0]] + overwrite(
                            old(self).bindings().drop_first(),
                            search@,
                            new_ty@,
                        ));
                    }
                    found
                }
            },
        }
    }
}

impl<'a, 'b> View for Scope<'a, 'b> {
    type V = Seq<Binding<'a>>;

    closed spec fn view(&self) -> Seq<Binding<'a>> {
        self.node.bindings()
    }
}

impl<'a, 'b> Scope<'a, 'b> {
    /// A scope without definitions.
    pub fn new() -> (scope: Scope<'a, 'b>)
        ensures
            scope@ == Seq::<Binding<'a>>::empty(),
    {
        Scope { node: ScopeNode::Empty }
    }

    /// `name = ty`: a definition of `name` that is there already gets the
    /// new type, else a new definition is put in front.
    pub fn assign(&mut self, name: &'a str, ty: Type<'a, 'b>)
        ensures
            final(self)@ == assigned(old(self)@, name@, ty@),
    {
        let could_assign = self.node.assign(name, &ty);
        if !could_assign {
            proof {
                lemma_overwrite(old(self)@, name@, ty@);
                assert(self@ =~= old(self)@);
            }
            let mut previous = ScopeNode::Empty;
            std::mem::swap(&mut previous, &mut self.node);
            self.node = ScopeNode::Definition { name, ty, previous: Box::new(previous) };
        }
    }

    /// A copy of the type that `search` stands for.
    pub fn get(&self, search: &str) -> (found: Option<Type<'a, 'b>>)
        ensures
            found is Some <==> lookup(self@, search@) is Some,
            found matches Some(ty) ==> lookup(self@, search@) == Some(ty@),
    {
        self.node.get(search)
    }
}

} // verus!
