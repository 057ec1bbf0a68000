//! The shape of a program's inputs, for those who encode them.

use crate::text::{decimal, decimal_text};
use crate::typed_absy::{Kind, TypedProgram};
use vstd::prelude::*;
use vstd::string::StringExecFns;

verus! {

/// The type of an input or an output.
#[derive(Debug)]
pub enum Type {
    FieldElement,
    Boolean,
    /// So many values of one type.
    Array(Box<Type>, usize),
    /// Named members, each of its own type.
    Struct(Vec<(String, Type)>),
}

/// The name of a type: `field`, `bool`, `struct`, and for an array the
/// name of its elements with the size in square brackets.
pub open spec fn name_of(t: Type) -> Seq<char>
    decreases t,
{
    match t {
        Type::FieldElement => "field"@,
        Type::Boolean => "bool"@,
        Type::Array(ty, size) => name_of(*ty) + "["@ + decimal(size as nat) + "]"@,
        Type::Struct(_) => "struct"@,
    }
}

/// A member of a compound input.
#[derive(Debug)]
pub struct InnerComponent {
    pub name: String,
    pub internal_type: String,
    pub components: Option<Vec<InnerComponent>>,
}

/// The mathematical content of a component.
pub struct SpecComponent {
    pub name: Seq<char>,
    pub internal_type: Seq<char>,
    pub components: Option<Seq<SpecComponent>>,
}

/// The mathematical content of a component.
pub open spec fn component_view(c: InnerComponent) -> SpecComponent
    decreases c,
{
    SpecComponent {
        name: c.name@,
        internal_type: c.internal_type@,
        components: match c.components {
            Some(v) => Some(components_view(v@)),
            None => None,
        },
    }
}

/// The components of a sequence, each by its view.
pub open spec fn components_view(v: Seq<InnerComponent>) -> Seq<SpecComponent>
    decreases v,
{
    if v.len() == 0 {
        Seq::<SpecComponent>::empty()
    } else {
        components_view(v.drop_last()).push(component_view(v.last()))
    }
}

impl View for InnerComponent {
    type V = SpecComponent;

    open spec fn view(&self) -> SpecComponent {
        component_view(*self)
    }
}

/// The component of an unnamed value of the type.
pub open spec fn component_of(t: Type) -> SpecComponent
    decreases t, 1int,
{
    SpecComponent {
        name: Seq::<char>::empty(),
        internal_type: name_of(t),
        components: inner_components(t),
    }
}

/// The components of the members of a struct; none for any other type.
pub open spec fn inner_components(t: Type) -> Option<Seq<SpecComponent>>
    decreases t, 0int,
{
    match t {
        Type::Struct(members) => Some(member_components(members@)),
        _ => None,
    }
}

/// The components of the members, in order. A member's own name is left
/// out.
pub open spec fn member_components(members: Seq<(String, Type)>) -> Seq<SpecComponent>
    decreases members, 2int,
{
    if members.len() == 0 {
        Seq::<SpecComponent>::empty()
    } else {
        member_components(members.drop_last()).push(component_of(members.last().1))
    }
}

/// One input of a program.
#[derive(Debug)]
pub struct InputComponent {
    pub name: String,
    pub public: bool,
    pub internal_type: String,
    pub components: Option<Vec<InnerComponent>>,
}

/// The mathematical content of an [`InputComponent`].
pub struct SpecInput {
    pub name: Seq<char>,
    pub public: bool,
    pub internal_type: Seq<char>,
    pub components: Option<Seq<SpecComponent>>,
}

impl View for InputComponent {
    type V = SpecInput;

    open spec fn view(&self) -> SpecInput {
        SpecInput {
            name: self.name@,
            public: self.public,
            internal_type: self.internal_type@,
            components: match self.components {
                Some(v) => Some(components_view(v@)),
                None => None,
            },
        }
    }
}

/// The inputs that a program expects.
#[derive(Debug)]
pub struct Abi {
    pub inputs: Vec<InputComponent>,
}

impl View for Abi {
    type V = Seq<SpecInput>;

    open spec fn view(&self) -> Seq<SpecInput> {
        Seq::new(self.inputs@.len(), |k: int| self.inputs@[k]@)
    }
}

/// The input component of an unnamed public value of the type.
pub open spec fn input_of(t: Type) -> SpecInput {
    SpecInput {
        name: Seq::<char>::empty(),
        public: true,
        internal_type: name_of(t),
        components: inner_components(t),
    }
}

impl Type {
    /// The name of the type; see [`name_of`].
    pub fn get_name(&self) -> (r: String)
        ensures
            r@ == name_of(*self),
        decreases *self,
    {
        match self {
            Type::FieldElement => String::from_str("field"),
            Type::Boolean => String::from_str("bool"),
            Type::Array(ty, size) => {
                let mut name = ty.get_name();
                name.append("[");
                let digits = decimal_text(*size as u64);
                name.append(digits.as_str());
                name.append("]");
                name
            },
            Type::Struct(_) => String::from_str("struct"),
        }
    }

    /// The components of the members of a struct; `None` for any other
    /// type.
    pub fn get_inner_components(&self) -> (r: Option<Vec<InnerComponent>>)
        ensures
            match r {
                Some(v) => inner_components(*self) == Some(components_view(v@)),
                None => inner_components(*self) is None,
            },
        decreases *self,
    {
        match self {
            Type::Struct(members) => {
                let mut components: Vec<InnerComponent> = Vec::new();
                let mut k: usize = 0;
                assert(members@.take(0) == Seq::<(String, Type)>::empty());
                while k < members.len()
                    invariant
                        k <= members.len(),
                        *self is Struct,
                        self->Struct_0 == members,
                        components_view(components@) == member_components(members@.take(k as int)),
                    decreases members.len() - k,
                {
                    let ty = &members[k].1;
                    let ghost before = components@;
                    let inner = ty.get_inner_components();
                    let component = InnerComponent {
                        name: String::new(),
                        internal_type: ty.get_name(),
                        components: inner,
                    };
                    proof {
                        assert(members@.take(k + 1).drop_last() == members@.take(k as int));
                        assert(members@.take(k + 1).last() == members@[k as int]);
                        assert(component@ == component_of(*ty));
                    }
                    components.push(component);
                    assert(components@.drop_last() == before);
                    k += 1;
                }
                assert(members@.take(k as int) == members@);
                Some(components)
            },
            _ => None,
        }
    }
}

/// The types of the inputs and outputs of a program.
#[derive(Debug)]
pub struct TypedSignature {
    pub inputs: Vec<Type>,
    pub outputs: Vec<Type>,
}

impl TypedSignature {
    /// The signature of a program without inputs and outputs.
    pub fn new() -> (r: TypedSignature)
        ensures
            r.inputs@.len() == 0,
            r.outputs@.len() == 0,
    {
        TypedSignature { inputs: Vec::new(), outputs: Vec::new() }
    }

    /// The signature with the given inputs.
    pub fn inputs(self, inputs: Vec<Type>) -> (r: TypedSignature)
        ensures
            r.inputs == inputs,
            r.outputs == self.outputs,
    {
        TypedSignature { inputs, outputs: self.outputs }
    }

    /// The signature with the given outputs.
    pub fn outputs(self, outputs: Vec<Type>) -> (r: TypedSignature)
        ensures
            r.inputs == self.inputs,
            r.outputs == outputs,
    {
        TypedSignature { inputs: self.inputs, outputs }
    }
}

/// What describes its inputs.
pub trait Generator {
    /// The inputs, in order.
    spec fn abi(&self) -> Seq<SpecInput>;

    /// Describes the inputs: each is unnamed and public, with the name of
    /// its type and, for a struct, the components of its members.
    fn generate_abi(&self) -> (r: Abi)
        ensures
            r@ == self.abi(),
    ;
}

impl Generator for TypedSignature {
    open spec fn abi(&self) -> Seq<SpecInput> {
        Seq::new(self.inputs@.len(), |k: int| input_of(self.inputs@[k]))
    }

    fn generate_abi(&self) -> (r: Abi) {
        let mut inputs: Vec<InputComponent> = Vec::new();
        let mut k: usize = 0;
        while k < self.inputs.len()
            invariant
                k <= self.inputs.len(),
                inputs.len() == k,
                forall|j: int| 0 <= j < k ==> inputs@[j]@ == input_of(self.inputs@[j]),
            decreases self.inputs.len() - k,
        {
            let t = &self.inputs[k];
            let input = InputComponent {
                name: String::new(),
                public: true,
                internal_type: t.get_name(),
                components: t.get_inner_components(),
            };
            assert(input@ == input_of(*t));
            inputs.push(input);
            k += 1;
        }
        let r = Abi { inputs };
        assert(r@ =~= self.abi());
        r
    }
}

/// The type of a parameter of the given kind.
pub open spec fn kind_type(kind: Kind) -> Type {
    match kind {
        Kind::Field => Type::FieldElement,
        Kind::Boolean => Type::Boolean,
    }
}

impl Generator for TypedProgram {
    open spec fn abi(&self) -> Seq<SpecInput> {
        if self.main < self.functions@.len() {
            Seq::new(
                self.functions@[self.main as int].parameters@.len(),
                |k: int| input_of(kind_type(self.functions@[self.main as int].parameters@[k].kind)),
            )
        } else {
            Seq::<SpecInput>::empty()
        }
    }

    fn generate_abi(&self) -> (r: Abi) {
        let mut inputs: Vec<InputComponent> = Vec::new();
        if self.main < self.functions.len() {
            let parameters = &self.functions[self.main].parameters;
            let mut k: usize = 0;
            while k < parameters.len()
                invariant
                    k <= parameters.len(),
                    inputs.len() == k,
                    forall|j: int|
                        0 <= j < k ==> inputs@[j]@ == input_of(kind_type(parameters@[j].kind)),
                decreases parameters.len() - k,
            {
                let t = match parameters[k].kind {
                    Kind::Field => Type::FieldElement,
                    Kind::Boolean => Type::Boolean,
                };
                let input = InputComponent {
                    name: String::new(),
                    public: true,
                    internal_type: t.get_name(),
                    components: t.get_inner_components(),
                };
                assert(input@ == input_of(t));
                inputs.push(input);
                k += 1;
            }
        }
        let r = Abi { inputs };
        assert(r@ =~= self.abi());
        r
    }
}

} // verus!
