//! The function and trait metadata the dispatcher consults: registered native
//! functions, trait types, and for each value type the traits it implements
//! and the bound trait methods. Trait-method resolution reports its two
//! failure cases with the names involved: the receiver's type, the trait, and
//! — when the trait itself is missing — the traits the type does implement.

use vstd::prelude::*;

use crate::ids::FunctionId;
use crate::ids::TraitTypeId;
use crate::ids::ValueTypeId;

verus! {

/// A registered native function.
pub struct NativeFunction {
    pub name: String,
}

/// A registered trait type.
pub struct TraitType {
    pub name: String,
}

/// One bound trait method of a value type.
pub struct TraitMethod {
    pub trait_type: TraitTypeId,
    pub name: String,
    pub native_fn: FunctionId,
}

/// A registered value type: its name, the traits it implements, and its
/// bound trait methods.
pub struct ValueType {
    pub name: String,
    pub traits: Vec<TraitTypeId>,
    pub methods: Vec<TraitMethod>,
}

/// The metadata registry, indexed by the respective ids.
pub struct Registry {
    pub functions: Vec<NativeFunction>,
    pub traits: Vec<TraitType>,
    pub value_types: Vec<ValueType>,
}

/// Why a trait-method resolve call failed, with everything a caller needs to
/// report it.
pub enum TraitResolveError {
    /// The receiver's type does not implement the requested trait; carries
    /// the names of the traits it does implement.
    TraitNotImplemented { value_type: String, trait_name: String, implemented: Vec<String> },
    /// The receiver's type implements the trait, but the method is missing.
    MethodMissing { value_type: String, trait_name: String, method: String },
}

/// The names of a sequence of traits, joined with one leading space each.
pub open spec fn spec_joined_names(names: Seq<String>) -> Seq<char>
    decreases names.len(),
{
    if names.len() == 0 {
        Seq::empty()
    } else {
        spec_joined_names(names.drop_last()) + " "@ + names.last()@
    }
}

impl TraitResolveError {
    /// The failure rendered as one line, distinguishing the two cases and
    /// naming the type, the trait, and (for a missing trait) the implemented
    /// traits.
    pub open spec fn spec_message(self) -> Seq<char> {
        match self {
            TraitResolveError::TraitNotImplemented { value_type, trait_name, implemented } => {
                value_type@ + " doesn't implement trait "@ + trait_name@ + " (only"@
                    + spec_joined_names(implemented@) + ")"@
            },
            TraitResolveError::MethodMissing { value_type, trait_name, method } => {
                value_type@ + " implements trait "@ + trait_name@ + ", but method "@ + method@
                    + " is missing"@
            },
        }
    }

    /// Builds the failure message.
    pub fn message(&self) -> (r: String)
        ensures
            r@ == self.spec_message(),
    {
        match self {
            TraitResolveError::TraitNotImplemented { value_type, trait_name, implemented } => {
                let mut r = value_type.clone();
                r.append(" doesn't implement trait ");
                r.append(trait_name.as_str());
                r.append(" (only");
                let m = implemented.len();
                let mut i: usize = 0;
                while i < m
                    invariant
                        m == implemented@.len(),
                        i <= m,
                        r@ == value_type@ + " doesn't implement trait "@ + trait_name@ + " (only"@
                            + spec_joined_names(implemented@.subrange(0, i as int)),
                    decreases m - i,
                {
                    r.append(" ");
                    r.append(implemented[i].as_str());
                    proof {
                        let sub = implemented@.subrange(0, i + 1);
                        assert(sub.drop_last() =~= implemented@.subrange(0, i as int));
                        assert(sub.last() == implemented@[i as int]);
                    }
                    i += 1;
                }
                proof {
                    assert(implemented@.subrange(0, implemented@.len() as int) =~= implemented@);
                }
                r.append(")");
                r
            },
            TraitResolveError::MethodMissing { value_type, trait_name, method } => {
                let mut r = value_type.clone();
                r.append(" implements trait ");
                r.append(trait_name.as_str());
                r.append(", but method ");
                r.append(method.as_str());
                r.append(" is missing");
                r
            },
        }
    }
}

impl Registry {
    /// Every trait and function a value type refers to is registered.
    pub open spec fn wf(self) -> bool {
        forall|v: int|
            0 <= v < self.value_types@.len() ==> {
                &&& (forall|j: int|
                    0 <= j < (#[trigger] self.value_types@[v]).traits@.len() ==> (
                    #[trigger] self.value_types@[v].traits@[j]) < self.traits@.len())
                &&& (forall|j: int|
                    0 <= j < self.value_types@[v].methods@.len() ==> (
                    #[trigger] self.value_types@[v].methods@[j]).trait_type < self.traits@.len()
                        && self.value_types@[v].methods@[j].native_fn < self.functions@.len())
            }
    }

    /// An empty registry.
    pub fn new() -> (r: Registry)
        ensures
            r.wf(),
            r.functions@.len() == 0,
            r.traits@.len() == 0,
            r.value_types@.len() == 0,
    {
        Registry { functions: Vec::new(), traits: Vec::new(), value_types: Vec::new() }
    }

    /// Whether value type `ty` implements trait `tt`.
    pub open spec fn spec_has_trait(self, ty: int, tt: TraitTypeId) -> bool {
        exists|j: int|
            0 <= j < self.value_types@[ty].traits@.len() && (
            #[trigger] self.value_types@[ty].traits@[j]) == tt
    }

    /// Whether value type `ty` binds method `name` of trait `tt` to function
    /// `f`.
    pub open spec fn spec_binds_method(
        self,
        ty: int,
        tt: TraitTypeId,
        name: Seq<char>,
        f: FunctionId,
    ) -> bool {
        exists|j: int|
            0 <= j < self.value_types@[ty].methods@.len() && {
                let m = #[trigger] self.value_types@[ty].methods@[j];
                m.trait_type == tt && m.name@ == name && m.native_fn == f
            }
    }

    /// Whether value type `ty` binds some function for method `name` of
    /// trait `tt`.
    pub open spec fn spec_has_method(self, ty: int, tt: TraitTypeId, name: Seq<char>) -> bool {
        exists|j: int|
            0 <= j < self.value_types@[ty].methods@.len() && (
            #[trigger] self.value_types@[ty].methods@[j]).trait_type == tt
                && self.value_types@[ty].methods@[j].name@ == name
    }

    /// Whether value type `ty` implements trait `tt`.
    pub fn has_trait(&self, ty: ValueTypeId, tt: TraitTypeId) -> (r: bool)
        requires
            ty < self.value_types@.len(),
        ensures
            r == self.spec_has_trait(ty as int, tt),
    {
        let traits = &self.value_types[ty].traits;
        let m = traits.len();
        let mut i: usize = 0;
        while i < m
            invariant
                m == traits@.len(),
                i <= m,
                traits@ == self.value_types@[ty as int].traits@,
                forall|j: int| 0 <= j < i ==> (#[trigger] traits@[j]) != tt,
            decreases m - i,
        {
            if traits[i] == tt {
                return true;
            }
            i += 1;
        }
        false
    }

    /// Looks up the function bound for method `name` of trait `tt` on value
    /// type `ty`.
    pub fn get_trait_method(&self, ty: ValueTypeId, tt: TraitTypeId, name: &String) -> (r: Option<
        FunctionId,
    >)
        requires
            ty < self.value_types@.len(),
        ensures
            r matches Some(f) ==> self.spec_binds_method(ty as int, tt, name@, f),
            r is None ==> !self.spec_has_method(ty as int, tt, name@),
    {
        let methods = &self.value_types[ty].methods;
        let m = methods.len();
        let mut i: usize = 0;
        while i < m
            invariant
                m == methods@.len(),
                i <= m,
                methods@ == self.value_types@[ty as int].methods@,
                forall|j: int|
                    0 <= j < i ==> !((#[trigger] methods@[j]).trait_type == tt && methods@[j].name@
                        == name@),
            decreases m - i,
        {
            let entry = &methods[i];
            if entry.trait_type == tt && entry.name.eq(name) {
                return Some(entry.native_fn);
            }
            i += 1;
        }
        proof {
            if self.spec_has_method(ty as int, tt, name@) {
                let j = choose|j: int|
                    0 <= j < self.value_types@[ty as int].methods@.len() && (
                    #[trigger] self.value_types@[ty as int].methods@[j]).trait_type == tt
                        && self.value_types@[ty as int].methods@[j].name@ == name@;
                assert(false);
            }
        }
        None
    }

    /// The names of the traits value type `ty` implements, in registration
    /// order.
    pub fn trait_names_of(&self, ty: ValueTypeId) -> (r: Vec<String>)
        requires
            self.wf(),
            ty < self.value_types@.len(),
        ensures
            r@.len() == self.value_types@[ty as int].traits@.len(),
            forall|j: int|
                0 <= j < r@.len() ==> (#[trigger] r@[j])@ == self.traits@[self.value_types@[ty as
                    int].traits@[j] as int].name@,
    {
        let traits = &self.value_types[ty].traits;
        let m = traits.len();
        let mut r: Vec<String> = Vec::new();
        let mut i: usize = 0;
        while i < m
            invariant
                self.wf(),
                ty < self.value_types@.len(),
                m == traits@.len(),
                i <= m,
                traits@ == self.value_types@[ty as int].traits@,
                r@.len() == i,
                forall|j: int|
                    0 <= j < i ==> (#[trigger] r@[j])@ == self.traits@[traits@[j] as int].name@,
            decreases m - i,
        {
            let tid = traits[i];
            r.push(self.traits[tid].name.clone());
            i += 1;
        }
        r
    }

    /// Resolves method `name` of trait `tt` on value type `ty`: the bound
    /// function if there is one, otherwise the failure case that applies —
    /// the trait not being implemented at all (with the names of the traits
    /// `ty` does implement), or the method missing from an implemented trait.
    pub fn resolve_trait_method(&self, ty: ValueTypeId, tt: TraitTypeId, name: &String) -> (r:
        Result<FunctionId, TraitResolveError>)
        requires
            self.wf(),
            ty < self.value_types@.len(),
            tt < self.traits@.len(),
        ensures
            r matches Ok(f) ==> self.spec_binds_method(ty as int, tt, name@, f),
            r is Err ==> !self.spec_has_method(ty as int, tt, name@),
            r matches Err(e) ==> if self.spec_has_trait(ty as int, tt) {
                e == (TraitResolveError::MethodMissing {
                    value_type: e->MethodMissing_value_type,
                    trait_name: e->MethodMissing_trait_name,
                    method: e->MethodMissing_method,
                }) && e->MethodMissing_value_type@ == self.value_types@[ty as int].name@
                    && e->MethodMissing_trait_name@ == self.traits@[tt as int].name@
                    && e->MethodMissing_method@ == name@
            } else {
                e == (TraitResolveError::TraitNotImplemented {
                    value_type: e->TraitNotImplemented_value_type,
                    trait_name: e->TraitNotImplemented_trait_name,
                    implemented: e->TraitNotImplemented_implemented,
                }) && e->TraitNotImplemented_value_type@ == self.value_types@[ty as int].name@
                    && e->TraitNotImplemented_trait_name@ == self.traits@[tt as int].name@ && {
                    let impls = e->TraitNotImplemented_implemented;
                    &&& impls@.len() == self.value_types@[ty as int].traits@.len()
                    &&& forall|j: int|
                        0 <= j < impls@.len() ==> (#[trigger] impls@[j])@
                            == self.traits@[self.value_types@[ty as int].traits@[j] as int].name@
                }
            },
    {
        match self.get_trait_method(ty, tt, name) {
            Some(f) => Ok(f),
            None => {
                if !self.has_trait(ty, tt) {
                    let implemented = self.trait_names_of(ty);
                    Err(
                        TraitResolveError::TraitNotImplemented {
                            value_type: self.value_types[ty].name.clone(),
                            trait_name: self.traits[tt].name.clone(),
                            implemented,
                        },
                    )
                } else {
                    Err(
                        TraitResolveError::MethodMissing {
                            value_type: self.value_types[ty].name.clone(),
                            trait_name: self.traits[tt].name.clone(),
                            method: name.clone(),
                        },
                    )
                }
            },
        }
    }

    /// Registers a native function; returns its id.
    pub fn add_function(&mut self, name: String) -> (f: FunctionId)
        requires
            old(self).wf(),
        ensures
            final(self).wf(),
            f == old(self).functions@.len(),
            final(self).functions@.len() == f + 1,
            final(self).traits == old(self).traits,
            final(self).value_types == old(self).value_types,
    {
        let f = self.functions.len();
        self.functions.push(NativeFunction { name });
        f
    }

    /// Registers a trait type; returns its id.
    pub fn add_trait(&mut self, name: String) -> (tt: TraitTypeId)
        requires
            old(self).wf(),
        ensures
            final(self).wf(),
            tt == old(self).traits@.len(),
            final(self).traits@.len() == tt + 1,
            final(self).functions == old(self).functions,
            final(self).value_types == old(self).value_types,
    {
        let tt = self.traits.len();
        self.traits.push(TraitType { name });
        proof {
            assert forall|v: int|
                0 <= v < self.value_types@.len() implies {
                &&& (forall|j: int|
                    0 <= j < (#[trigger] self.value_types@[v]).traits@.len() ==> (
                    #[trigger] self.value_types@[v].traits@[j]) < self.traits@.len())
                &&& (forall|j: int|
                    0 <= j < self.value_types@[v].methods@.len() ==> (
                    #[trigger] self.value_types@[v].methods@[j]).trait_type < self.traits@.len()
                        && self.value_types@[v].methods@[j].native_fn < self.functions@.len())
            } by {
                assert(old(self).value_types@[v] == self.value_types@[v]);
            }
        }
        tt
    }

    /// Registers a value type with the traits it implements and its bound
    /// methods; returns its id.
    pub fn add_value_type(&mut self, vt: ValueType) -> (ty: ValueTypeId)
        requires
            old(self).wf(),
            forall|j: int| 0 <= j < vt.traits@.len() ==> (#[trigger] vt.traits@[j]) < old(self).traits@.len(),
            forall|j: int|
                0 <= j < vt.methods@.len() ==> (#[trigger] vt.methods@[j]).trait_type < old(
                    self,
                ).traits@.len() && vt.methods@[j].native_fn < old(self).functions@.len(),
        ensures
            final(self).wf(),
            ty == old(self).value_types@.len(),
            final(self).value_types@.len() == ty + 1,
            final(self).value_types@[ty as int] == vt,
            final(self).functions == old(self).functions,
            final(self).traits == old(self).traits,
    {
        let ty = self.value_types.len();
        self.value_types.push(vt);
        proof {
            assert forall|v: int|
                0 <= v < self.value_types@.len() implies {
                &&& (forall|j: int|
                    0 <= j < (#[trigger] self.value_types@[v]).traits@.len() ==> (
                    #[trigger] self.value_types@[v].traits@[j]) < self.traits@.len())
                &&& (forall|j: int|
                    0 <= j < self.value_types@[v].methods@.len() ==> (
                    #[trigger] self.value_types@[v].methods@[j]).trait_type < self.traits@.len()
                        && self.value_types@[v].methods@[j].native_fn < self.functions@.len())
            } by {
                if v < old(self).value_types@.len() {
                    assert(old(self).value_types@[v] == self.value_types@[v]);
                }
            }
        }
        ty
    }
}

} // verus!
