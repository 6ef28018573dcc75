use vstd::prelude::*;

verus! {

/// A named attribute-value observation drawn from an instance,
/// e.g. the last letter of a name. Equality is structural over
/// the name and the value.
pub struct Feature {
    pub name: String,
    pub value: char,
}

/// The mathematical value of a `Feature`: the pair of its name's
/// characters and its value.
pub type FeatureV = (Seq<char>, char);

impl View for Feature {
    type V = FeatureV;

    open spec fn view(&self) -> FeatureV {
        (self.name@, self.value)
    }
}

impl DeepView for Feature {
    type V = FeatureV;

    open spec fn deep_view(&self) -> FeatureV {
        self.view()
    }
}

impl Clone for Feature {
    fn clone(&self) -> (r: Feature)
        ensures
            r == *self,
    {
        Feature { name: self.name.clone(), value: self.value }
    }
}

impl Feature {
    /// Builds the feature `name:value`.
    pub fn new(name: &str, value: char) -> (r: Feature)
        ensures
            r@ == (name@, value),
    {
        Feature { name: name.to_owned(), value }
    }

    /// Structural equality test on features.
    pub fn same_as(&self, other: &Feature) -> (r: bool)
        ensures
            r == (self@ == other@),
    {
        self.name == other.name && self.value == other.value
    }
}

/// A class name. Labels are compared structurally.
pub type Label = String;

/// The mathematical value of a label: its characters.
pub type LabelV = Seq<char>;

/// One training example: the features observed on one instance,
/// together with the label it bears.
pub type TrainingExample = (Vec<Feature>, Label);

} // verus!
