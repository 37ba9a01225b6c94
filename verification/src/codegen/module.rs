//! The functions of one compilation, found by their names.

use super::instruction::{FunctionRef, Instruction};
use super::LifecycleFunc;
use crate::mir::{SurfaceId, SurfaceIdView};
use vstd::prelude::*;

verus! {

/// How a function is seen from outside its module.
#[derive(Debug, PartialEq, Eq, Clone, Copy, Structural)]
pub enum Linkage {
    External,
    Private,
}

/// What a `Function` is, as plain values.
pub struct FunctionView {
    pub name: Seq<char>,
    pub linkage: Linkage,
    pub surface: SurfaceIdView,
    pub lifecycle: LifecycleFunc,
    pub body: Option<Seq<Instruction>>,
}

/// One procedure of a surface: declared by its name, and defined once its
/// body is written. It takes the scratch block and the pointer block of
/// `surface` and returns nothing.
#[derive(Debug, PartialEq, Eq)]
pub struct Function {
    pub name: String,
    pub linkage: Linkage,
    pub surface: SurfaceId,
    pub lifecycle: LifecycleFunc,
    pub body: Option<Vec<Instruction>>,
}

impl View for Function {
    type V = FunctionView;

    open spec fn view(&self) -> FunctionView {
        FunctionView {
            name: self.name@,
            linkage: self.linkage,
            surface: self.surface@,
            lifecycle: self.lifecycle,
            body: match self.body {
                Some(body) => Some(body@),
                None => None,
            },
        }
    }
}

/// The functions of one compilation. No two have the same name.
#[derive(Debug, PartialEq, Eq)]
pub struct Module {
    functions: Vec<Function>,
}

impl View for Module {
    type V = Seq<FunctionView>;

    closed spec fn view(&self) -> Seq<FunctionView> {
        self.functions@.map_values(|f: Function| f@)
    }
}

/// Where the function of that name stands in the list, if it is there.
pub open spec fn position_of(functions: Seq<FunctionView>, name: Seq<char>) -> Option<int> {
    if exists|i: int| 0 <= i < functions.len() && (#[trigger] functions[i]).name == name {
        Some(choose|i: int| 0 <= i < functions.len() && (#[trigger] functions[i]).name == name)
    } else {
        None
    }
}

/// No two functions of the list have the same name.
pub open spec fn distinct_names(functions: Seq<FunctionView>) -> bool {
    forall|i: int, j: int|
        0 <= i < j < functions.len() ==> (#[trigger] functions[i]).name
            != (#[trigger] functions[j]).name
}

impl Module {
    #[verifier::type_invariant]
    spec fn names_are_distinct(&self) -> bool {
        distinct_names(self@)
    }

    /// A module without functions.
    pub fn new() -> (r: Self)
        ensures
            r@ == Seq::<FunctionView>::empty(),
    {
        Module { functions: Vec::new() }
    }

    /// How many functions the module has.
    pub fn len(&self) -> (r: usize)
        ensures
            r == self@.len(),
    {
        self.functions.len()
    }

    /// The function of that index.
    pub fn function(&self, index: FunctionRef) -> (r: &Function)
        requires
            index < self@.len(),
        ensures
            r@ == self@[index as int],
    {
        &self.functions[index]
    }

    /// The function of that name, if the module has one.
    pub fn get_function(&self, name: &String) -> (r: Option<FunctionRef>)
        ensures
            match r {
                Some(index) => index < self@.len() && self@[index as int].name == name@,
                None => position_of(self@, name@).is_none(),
            },
            r == match position_of(self@, name@) {
                Some(index) => Some(index as usize),
                None => None,
            },
    {
        proof {
            use_type_invariant(self);
        }
        let mut index: usize = 0;
        while index < self.functions.len()
            invariant
                index <= self.functions.len(),
                distinct_names(self@),
                forall|j: int| 0 <= j < index ==> (#[trigger] self@[j]).name != name@,
            decreases self.functions.len() - index,
        {
            if self.functions[index].name == *name {
                assert(self@[index as int].name == name@);
                return Some(index);
            }
            index += 1;
        }
        None
    }

    /// The function of that name. If the module has none, one is declared,
    /// without a body, for the procedure of `surface` for `lifecycle`.
    pub fn get_or_create_func(
        &mut self,
        name: String,
        linkage: Linkage,
        surface: &SurfaceId,
        lifecycle: LifecycleFunc,
    ) -> (r: FunctionRef)
        ensures
            r < final(self)@.len(),
            final(self)@[r as int].name == name@,
            match position_of(old(self)@, name@) {
                Some(index) => r == index && final(self)@ == old(self)@,
                None => r == old(self)@.len() && final(self)@ == old(self)@.push(
                    FunctionView {
                        name: name@,
                        linkage,
                        surface: surface@,
                        lifecycle,
                        body: None,
                    },
                ),
            },
    {
        proof {
            use_type_invariant(&*self);
        }
        match self.get_function(&name) {
            Some(index) => index,
            None => {
                let index = self.functions.len();
                let ghost declared = FunctionView {
                    name: name@,
                    linkage,
                    surface: surface@,
                    lifecycle,
                    body: None,
                };
                // The list leaves the module while it grows, so that the
                // module is in order at every moment.
                let mut functions: Vec<Function> = Vec::new();
                std::mem::swap(&mut self.functions, &mut functions);
                functions.push(
                    Function { name, linkage, surface: surface.clone(), lifecycle, body: None },
                );
                proof {
                    let longer = functions@.map_values(|f: Function| f@);
                    assert(longer =~= old(self)@.push(declared));
                    assert forall|i: int, j: int| 0 <= i < j < longer.len() implies (
                    #[trigger] longer[i]).name != (#[trigger] longer[j]).name by {
                        if j == index {
                            assert(old(self)@[i].name != declared.name);
                        }
                    }
                }
                std::mem::swap(&mut self.functions, &mut functions);
                index
            },
        }
    }

    /// Gives the function of that index its body.
    pub fn define(&mut self, index: FunctionRef, body: Vec<Instruction>)
        requires
            index < old(self)@.len(),
        ensures
            final(self)@ == old(self)@.update(
                index as int,
                FunctionView { body: Some(body@), ..old(self)@[index as int] },
            ),
    {
        proof {
            use_type_invariant(&*self);
        }
        let mut functions: Vec<Function> = Vec::new();
        std::mem::swap(&mut self.functions, &mut functions);
        functions[index].body = Some(body);
        proof {
            let defined = functions@.map_values(|f: Function| f@);
            assert(defined =~= old(self)@.update(
                index as int,
                FunctionView { body: Some(body@), ..old(self)@[index as int] },
            ));
            assert forall|i: int, j: int| 0 <= i < j < defined.len() implies (
            #[trigger] defined[i]).name != (#[trigger] defined[j]).name by {
                assert(old(self)@[i].name != old(self)@[j].name);
            }
        }
        std::mem::swap(&mut self.functions, &mut functions);
    }
}

} // verus!
