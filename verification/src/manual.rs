//! The records of the manual.

use crate::sorted::Sorted;
use vstd::prelude::*;

verus! {

/// A parameter of a function and what the manual says of it.
#[derive(Debug, Clone, PartialEq, Eq, Default)]
pub struct GmManualFunctionParameter {
    /// The name of the parameter, as markup.
    pub parameter: String,
    /// The description of the parameter, as markup.
    pub description: String,
}

/// A `GmManualFunctionParameter` with its strings as sequences of characters.
pub struct ParameterView {
    pub parameter: Seq<char>,
    pub description: Seq<char>,
}

impl View for GmManualFunctionParameter {
    type V = ParameterView;

    open spec fn view(&self) -> ParameterView {
        ParameterView { parameter: self.parameter@, description: self.description@ }
    }
}

/// The parameters of `v`, each by its view.
pub open spec fn parameters_of(v: Seq<GmManualFunctionParameter>) -> Seq<ParameterView> {
    Seq::new(v.len(), |i: int| v[i]@)
}

/// A function of the manual.
#[derive(Debug, Clone, PartialEq, Eq)]
pub struct GmManualFunction {
    pub name: String,
    /// The parameters, in the order of the rows of the parameter table.
    pub parameters: Vec<GmManualFunctionParameter>,
    /// How many leading parameters must be given.
    pub required_parameters: usize,
    /// Whether the last parameter takes any number of arguments.
    pub is_variadic: bool,
    pub example: String,
    pub description: String,
    pub returns: String,
    /// The published address of the page.
    pub link: String,
}

/// A `GmManualFunction` with its strings and vectors as sequences.
pub struct FunctionView {
    pub name: Seq<char>,
    pub parameters: Seq<ParameterView>,
    pub required_parameters: usize,
    pub is_variadic: bool,
    pub example: Seq<char>,
    pub description: Seq<char>,
    pub returns: Seq<char>,
    pub link: Seq<char>,
}

impl View for GmManualFunction {
    type V = FunctionView;

    open spec fn view(&self) -> FunctionView {
        FunctionView {
            name: self.name@,
            parameters: parameters_of(self.parameters@),
            required_parameters: self.required_parameters,
            is_variadic: self.is_variadic,
            example: self.example@,
            description: self.description@,
            returns: self.returns@,
            link: self.link@,
        }
    }
}

/// A variable of the manual.
#[derive(Debug, Clone, PartialEq, Eq)]
pub struct GmManualVariable {
    pub name: String,
    pub example: String,
    pub description: String,
    /// The type of the variable.
    pub returns: String,
    /// The published address of the page.
    pub link: String,
}

/// A `GmManualVariable` with its strings as sequences of characters.
pub struct VariableView {
    pub name: Seq<char>,
    pub example: Seq<char>,
    pub description: Seq<char>,
    pub returns: Seq<char>,
    pub link: Seq<char>,
}

impl View for GmManualVariable {
    type V = VariableView;

    open spec fn view(&self) -> VariableView {
        VariableView {
            name: self.name@,
            example: self.example@,
            description: self.description@,
            returns: self.returns@,
            link: self.link@,
        }
    }
}

/// The texts of a mapping from keys to strings.
pub open spec fn text_map(m: Map<Seq<char>, String>) -> Map<Seq<char>, Seq<char>> {
    Map::new(|k: Seq<char>| m.contains_key(k), |k: Seq<char>| m[k]@)
}

/// A constant of the manual.
#[derive(Debug, Clone, PartialEq, Eq)]
pub struct GmManualConstant {
    pub name: String,
    pub description: String,
    /// The published address of the page.
    pub link: String,
    /// What the other columns of the table say of the constant, by column header.
    pub secondary_descriptors: Option<Sorted<String>>,
}

/// A `GmManualConstant` with its strings as sequences of characters and its secondary
/// columns as a mapping.
pub struct ConstantView {
    pub name: Seq<char>,
    pub description: Seq<char>,
    pub link: Seq<char>,
    pub secondary_descriptors: Option<Map<Seq<char>, Seq<char>>>,
}

impl View for GmManualConstant {
    type V = ConstantView;

    open spec fn view(&self) -> ConstantView {
        ConstantView {
            name: self.name@,
            description: self.description@,
            link: self.link@,
            secondary_descriptors: match self.secondary_descriptors {
                Some(s) => Some(text_map(s.map())),
                None => None,
            },
        }
    }
}

impl GmManualConstant {
    /// Whether the secondary columns, where there are any, are in order.
    pub open spec fn wf(&self) -> bool {
        match self.secondary_descriptors {
            Some(s) => s.wf(),
            None => true,
        }
    }
}

/// The whole manual: its functions, variables and constants, each kind by name.
#[derive(Debug, Clone, PartialEq, Eq)]
pub struct GmManual {
    pub functions: Sorted<GmManualFunction>,
    pub variables: Sorted<GmManualVariable>,
    pub constants: Sorted<GmManualConstant>,
}

impl GmManual {
    /// Whether each of the three tables is in order.
    pub open spec fn wf(&self) -> bool {
        self.functions.wf() && self.variables.wf() && self.constants.wf()
    }

    /// A manual without records.
    pub fn new() -> (r: GmManual)
        ensures
            r.wf(),
            r.functions.map() == Map::<Seq<char>, GmManualFunction>::empty(),
            r.variables.map() == Map::<Seq<char>, GmManualVariable>::empty(),
            r.constants.map() == Map::<Seq<char>, GmManualConstant>::empty(),
    {
        GmManual { functions: Sorted::new(), variables: Sorted::new(), constants: Sorted::new() }
    }

    /// Records a function under its name, in place of a function recorded under it before.
    pub fn add_function(&mut self, f: GmManualFunction)
        requires
            old(self).wf(),
        ensures
            final(self).wf(),
            final(self).functions.map() == old(self).functions.map().insert(f.name@, f),
            final(self).variables == old(self).variables,
            final(self).constants == old(self).constants,
    {
        let name = f.name.clone();
        self.functions.insert(name, f);
    }

    /// Records a variable under its name, in place of a variable recorded under it before.
    pub fn add_variable(&mut self, v: GmManualVariable)
        requires
            old(self).wf(),
        ensures
            final(self).wf(),
            final(self).variables.map() == old(self).variables.map().insert(v.name@, v),
            final(self).functions == old(self).functions,
            final(self).constants == old(self).constants,
    {
        let name = v.name.clone();
        self.variables.insert(name, v);
    }

    /// Records a constant under its name, in place of a constant recorded under it before.
    pub fn add_constant(&mut self, c: GmManualConstant)
        requires
            old(self).wf(),
        ensures
            final(self).wf(),
            final(self).constants.map() == old(self).constants.map().insert(c.name@, c),
            final(self).functions == old(self).functions,
            final(self).variables == old(self).variables,
    {
        let name = c.name.clone();
        self.constants.insert(name, c);
    }
}

impl Default for GmManual {
    fn default() -> (r: GmManual)
        ensures
            r.wf(),
            r.functions.map() == Map::<Seq<char>, GmManualFunction>::empty(),
            r.variables.map() == Map::<Seq<char>, GmManualVariable>::empty(),
            r.constants.map() == Map::<Seq<char>, GmManualConstant>::empty(),
    {
        GmManual::new()
    }
}

} // verus!
