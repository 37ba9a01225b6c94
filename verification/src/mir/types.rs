//! The types a value group can carry.

use vstd::prelude::*;

verus! {

/// What a `VarType` is, as a mathematical value.
pub enum VarTypeView {
    Num,
    Midi,
    Tuple(Seq<VarTypeView>),
    Array(Box<VarTypeView>),
}

/// The type of the value in a value group.
///
/// An `Array` holds one value of its element type per voice.
#[derive(Debug, PartialEq, Eq)]
pub enum VarType {
    Num,
    Midi,
    Tuple(Vec<VarType>),
    Array(Box<VarType>),
}

impl View for VarType {
    type V = VarTypeView;

    open spec fn view(&self) -> VarTypeView
        decreases self,
    {
        match self {
            VarType::Num => VarTypeView::Num,
            VarType::Midi => VarTypeView::Midi,
            VarType::Tuple(items) => VarTypeView::Tuple(
                Seq::new(
                    items@.len(),
                    |i: int|
                        if 0 <= i < items@.len() {
                            items@[i]@
                        } else {
                            VarTypeView::Num
                        },
                ),
            ),
            VarType::Array(base) => VarTypeView::Array(Box::new((**base)@)),
        }
    }
}

impl VarTypeView {
    /// The element type of an array; any other type stands for itself.
    pub open spec fn element(self) -> VarTypeView {
        match self {
            VarTypeView::Array(base) => *base,
            _ => self,
        }
    }
}

impl Clone for VarType {
    fn clone(&self) -> (r: Self)
        ensures
            r@ == self@,
        decreases self,
    {
        match self {
            VarType::Num => VarType::Num,
            VarType::Midi => VarType::Midi,
            VarType::Tuple(items) => {
                let mut copies: Vec<VarType> = Vec::new();
                let mut i: usize = 0;
                while i < items.len()
                    invariant
                        i <= items.len(),
                        self is Tuple,
                        self->Tuple_0 == *items,
                        copies.len() == i,
                        forall|j: int| 0 <= j < i ==> copies@[j]@ == items@[j]@,
                    decreases items.len() - i,
                {
                    assert(decreases_to!(*items => items[i as int]));
                    assert(decreases_to!(*self => self->Tuple_0));
                    copies.push(items[i].clone());
                    i += 1;
                }
                let r = VarType::Tuple(copies);
                assert(r@->Tuple_0 =~= self@->Tuple_0);
                r
            },
            VarType::Array(base) => VarType::Array(Box::new((**base).clone())),
        }
    }
}

impl VarType {
    /// The element type, if this is an array.
    pub fn base_type(&self) -> (r: Option<&VarType>)
        ensures
            match r {
                Some(base) => self@ == VarTypeView::Array(Box::new(base@)),
                None => !(self@ is Array),
            },
    {
        match self {
            VarType::Array(base) => Some(&**base),
            _ => None,
        }
    }

    /// The type one voice sees of a group of this type.
    pub fn element_type(&self) -> (r: VarType)
        ensures
            r@ == self@.element(),
    {
        match self.base_type() {
            Some(base) => base.clone(),
            None => self.clone(),
        }
    }
}

} // verus!
