//! The document that parsing produces, and its mathematical value.

use vstd::prelude::*;

verus! {

/// A `key "value"` annotation. The parser passes it through untouched.
#[derive(Clone, Debug, PartialEq, Eq)]
pub struct Property {
    pub key: String,
    pub value: String,
}

/// The mathematical value of a [`Property`].
pub struct PropertyView {
    pub key: Seq<char>,
    pub value: Seq<char>,
}

impl DeepView for Property {
    type V = PropertyView;

    open spec fn deep_view(&self) -> PropertyView {
        PropertyView { key: self.key@, value: self.value@ }
    }
}

impl View for Property {
    type V = PropertyView;

    open spec fn view(&self) -> PropertyView {
        self.deep_view()
    }
}

/// The network block: its name and its annotations, in the order written.
#[derive(Clone, Debug, PartialEq, Eq)]
pub struct Network {
    pub name: String,
    pub properties: Vec<Property>,
}

/// The mathematical value of a [`Network`].
pub struct NetworkView {
    pub name: Seq<char>,
    pub properties: Seq<PropertyView>,
}

impl DeepView for Network {
    type V = NetworkView;

    open spec fn deep_view(&self) -> NetworkView {
        NetworkView { name: self.name@, properties: self.properties.deep_view() }
    }
}

impl View for Network {
    type V = NetworkView;

    open spec fn view(&self) -> NetworkView {
        self.deep_view()
    }
}

/// The kind of a variable. There is one kind so far; more may follow.
#[derive(Clone, Copy, Debug, PartialEq, Eq)]
#[non_exhaustive]
pub enum VariableType {
    /// A variable that takes one of a given number of states; the number is
    /// at least 1.
    Discrete(u32),
}

impl VariableType {
    /// The number of states of a variable of this kind.
    pub open spec fn spec_cardinality(self) -> nat {
        match self {
            VariableType::Discrete(n) => n as nat,
        }
    }

    /// The number of states of a variable of this kind.
    pub fn cardinality(self) -> (n: u32)
        ensures
            n == self.spec_cardinality(),
    {
        match self {
            VariableType::Discrete(n) => n,
        }
    }
}

impl DeepView for VariableType {
    type V = VariableType;

    open spec fn deep_view(&self) -> VariableType {
        *self
    }
}

impl View for VariableType {
    type V = VariableType;

    open spec fn view(&self) -> VariableType {
        *self
    }
}

/// A variable block: the variable's name, its kind, the labels of its
/// states in the order that tables address them by, and its annotations.
/// `position` is the byte offset of the block in the document.
#[derive(Clone, Debug, PartialEq, Eq)]
pub struct Variable {
    pub name: String,
    pub node_type: VariableType,
    pub states: Vec<String>,
    pub properties: Vec<Property>,
    pub position: usize,
}

/// The mathematical value of a [`Variable`].
pub struct VariableView {
    pub name: Seq<char>,
    pub node_type: VariableType,
    pub states: Seq<Seq<char>>,
    pub properties: Seq<PropertyView>,
    pub position: nat,
}

impl DeepView for Variable {
    type V = VariableView;

    open spec fn deep_view(&self) -> VariableView {
        VariableView {
            name: self.name@,
            node_type: self.node_type,
            states: self.states.deep_view(),
            properties: self.properties.deep_view(),
            position: self.position as nat,
        }
    }
}

impl View for Variable {
    type V = VariableView;

    open spec fn view(&self) -> VariableView {
        self.deep_view()
    }
}

/// One row of a probability table: the states of the parents that it is
/// about, one label for each parent in the order of the header, and the
/// probabilities of the target's states, each as the decimal number that the
/// document writes.
#[derive(Clone, Debug, PartialEq, Eq)]
pub struct TableRow {
    pub key: Vec<String>,
    pub values: Vec<String>,
}

/// The mathematical value of a [`TableRow`].
pub struct TableRowView {
    pub key: Seq<Seq<char>>,
    pub values: Seq<Seq<char>>,
}

impl DeepView for TableRow {
    type V = TableRowView;

    open spec fn deep_view(&self) -> TableRowView {
        TableRowView { key: self.key.deep_view(), values: self.values.deep_view() }
    }
}

impl View for TableRow {
    type V = TableRowView;

    open spec fn view(&self) -> TableRowView {
        self.deep_view()
    }
}

/// A probability block: the variable it gives the distribution of, the
/// variables that distribution is conditioned on, in the order of the
/// header, the rows of the table in the order written, and its annotations.
/// `position` is the byte offset of the block in the document.
#[derive(Clone, Debug, PartialEq, Eq)]
pub struct Probability {
    pub variable: String,
    pub parents: Vec<String>,
    pub table: Vec<TableRow>,
    pub properties: Vec<Property>,
    pub position: usize,
}

/// The mathematical value of a [`Probability`].
pub struct ProbabilityView {
    pub variable: Seq<char>,
    pub parents: Seq<Seq<char>>,
    pub table: Seq<TableRowView>,
    pub properties: Seq<PropertyView>,
    pub position: nat,
}

impl DeepView for Probability {
    type V = ProbabilityView;

    open spec fn deep_view(&self) -> ProbabilityView {
        ProbabilityView {
            variable: self.variable@,
            parents: self.parents.deep_view(),
            table: self.table.deep_view(),
            properties: self.properties.deep_view(),
            position: self.position as nat,
        }
    }
}

impl View for Probability {
    type V = ProbabilityView;

    open spec fn view(&self) -> ProbabilityView {
        self.deep_view()
    }
}

/// A document: one network block, and the variable blocks and the
/// probability blocks, each kind in the order written.
#[derive(Clone, Debug, PartialEq, Eq)]
pub struct Bif {
    pub network: Network,
    pub variables: Vec<Variable>,
    pub probabilities: Vec<Probability>,
}

/// The mathematical value of a [`Bif`].
pub struct BifView {
    pub network: NetworkView,
    pub variables: Seq<VariableView>,
    pub probabilities: Seq<ProbabilityView>,
}

impl DeepView for Bif {
    type V = BifView;

    open spec fn deep_view(&self) -> BifView {
        BifView {
            network: self.network.deep_view(),
            variables: self.variables.deep_view(),
            probabilities: self.probabilities.deep_view(),
        }
    }
}

impl View for Bif {
    type V = BifView;

    open spec fn view(&self) -> BifView {
        self.deep_view()
    }
}

/// The value of a vector that has grown by one element is the value it had,
/// grown by that element's value.
pub proof fn lemma_deep_view_push<T: DeepView>(before: Vec<T>, after: Vec<T>, last: T)
    requires
        after@ == before@.push(last),
    ensures
        after.deep_view() == before.deep_view().push(last.deep_view()),
{
    assert(after.deep_view() =~= before.deep_view().push(last.deep_view()));
}

/// The value of an empty vector is the empty sequence.
pub proof fn lemma_deep_view_empty<T: DeepView>(v: Vec<T>)
    requires
        v@.len() == 0,
    ensures
        v.deep_view() == Seq::<T::V>::empty(),
{
    assert(v.deep_view() =~= Seq::<T::V>::empty());
}

} // verus!
