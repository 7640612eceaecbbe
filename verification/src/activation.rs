//! The activations a layer can have, and the names they are saved under.
//!
//! An activation is a pair of functions on numbers; which pair is all that
//! this crate needs to know. The functions themselves are arithmetic and
//! belong to the caller.

use crate::text::same_bytes;
use vstd::prelude::*;
use vstd::string::StringSliceAdditionalSpecFns;

verus! {

/// Which activation a layer applies.
#[derive(Clone, Copy, Debug, PartialEq, Eq, Structural)]
pub enum ActivationType {
    /// Zero below zero, the identity above.
    ReLu,
    /// A slope of one hundredth below zero, the identity above.
    ReLuLeaky,
    /// The logistic function.
    Sigmoid,
}

impl ActivationType {
    /// The name an activation is saved under, as bytes.
    pub open spec fn name(self) -> Seq<u8> {
        match self {
            ActivationType::ReLu => "ReLu".spec_bytes(),
            ActivationType::ReLuLeaky => "ReLuLeaky".spec_bytes(),
            ActivationType::Sigmoid => "Sigmoid".spec_bytes(),
        }
    }

    /// The activation saved under a name, if the name is one.
    pub open spec fn named(text: Seq<u8>) -> Option<ActivationType> {
        if text == ActivationType::ReLu.name() {
            Some(ActivationType::ReLu)
        } else if text == ActivationType::ReLuLeaky.name() {
            Some(ActivationType::ReLuLeaky)
        } else if text == ActivationType::Sigmoid.name() {
            Some(ActivationType::Sigmoid)
        } else {
            None
        }
    }

    /// The name an activation is saved under.
    pub fn tag(&self) -> (s: &'static str)
        ensures
            s.spec_bytes() == self.name(),
    {
        match self {
            ActivationType::ReLu => "ReLu",
            ActivationType::ReLuLeaky => "ReLuLeaky",
            ActivationType::Sigmoid => "Sigmoid",
        }
    }

    /// Reads an activation from its name. Only the three names themselves are
    /// taken, letter for letter.
    pub fn from_bytes(text: &[u8]) -> (r: Option<ActivationType>)
        ensures
            r == ActivationType::named(text@),
    {
        if same_bytes(text, "ReLu".as_bytes()) {
            Some(ActivationType::ReLu)
        } else if same_bytes(text, "ReLuLeaky".as_bytes()) {
            Some(ActivationType::ReLuLeaky)
        } else if same_bytes(text, "Sigmoid".as_bytes()) {
            Some(ActivationType::Sigmoid)
        } else {
            None
        }
    }

    /// Reads an activation from its name: `Ok` for `ReLu`, `ReLuLeaky` and
    /// `Sigmoid`, and an error for every other string.
    pub fn from_str(s: &str) -> (r: Result<ActivationType, ()>)
        ensures
            match r {
                Ok(t) => ActivationType::named(s.spec_bytes()) == Some(t),
                Err(_) => ActivationType::named(s.spec_bytes()) is None,
            },
    {
        match ActivationType::from_bytes(s.as_bytes()) {
            Some(t) => Ok(t),
            None => Err(()),
        }
    }

    /// The activation of this kind.
    pub fn activation(self) -> (a: Activation)
        ensures
            a.activation_type == self,
    {
        Activation { activation_type: self }
    }
}

impl std::str::FromStr for ActivationType {
    type Err = ();

    /// Reads an activation from its name, as the function of the same name
    /// on the type does: `Ok` for the three names and for nothing else.
    fn from_str(s: &str) -> (r: Result<ActivationType, ()>)
        ensures
            match r {
                Ok(t) => ActivationType::named(s.spec_bytes()) == Some(t),
                Err(_) => ActivationType::named(s.spec_bytes()) is None,
            },
    {
        ActivationType::from_str(s)
    }
}

/// The bytes of the three names, written out.
pub proof fn lemma_names()
    ensures
        ActivationType::ReLu.name() == seq![82u8, 101, 76, 117],
        ActivationType::ReLuLeaky.name() == seq![82u8, 101, 76, 117, 76, 101, 97, 107, 121],
        ActivationType::Sigmoid.name() == seq![83u8, 105, 103, 109, 111, 105, 100],
{
    reveal_strlit("ReLu");
    reveal_strlit("ReLuLeaky");
    reveal_strlit("Sigmoid");
    vstd::string::is_ascii_spec_bytes("ReLu");
    vstd::string::is_ascii_spec_bytes("ReLuLeaky");
    vstd::string::is_ascii_spec_bytes("Sigmoid");
    assert("ReLu"@ =~= seq!['R', 'e', 'L', 'u']);
    assert("ReLuLeaky"@ =~= seq!['R', 'e', 'L', 'u', 'L', 'e', 'a', 'k', 'y']);
    assert("Sigmoid"@ =~= seq!['S', 'i', 'g', 'm', 'o', 'i', 'd']);
    assert(vstd::string::is_ascii("ReLu"));
    assert(vstd::string::is_ascii("ReLuLeaky"));
    assert(vstd::string::is_ascii("Sigmoid"));
    assert("ReLu".spec_bytes() =~= seq![82u8, 101, 76, 117]);
    assert("ReLuLeaky".spec_bytes() =~= seq![82u8, 101, 76, 117, 76, 101, 97, 107, 121]);
    assert("Sigmoid".spec_bytes() =~= seq![83u8, 105, 103, 109, 111, 105, 100]);
}

/// Every activation is read back from its own name.
pub proof fn lemma_name_round_trip(t: ActivationType)
    ensures
        ActivationType::named(t.name()) == Some(t),
{
    lemma_names();
    let relu: Seq<u8> = seq![82u8, 101, 76, 117];
    let leaky: Seq<u8> = seq![82u8, 101, 76, 117, 76, 101, 97, 107, 121];
    let sigmoid: Seq<u8> = seq![83u8, 105, 103, 109, 111, 105, 100];
    assert(relu.len() == 4 && leaky.len() == 9 && sigmoid.len() == 7);
    assert(relu[0] == 82u8 && sigmoid[0] == 83u8 && leaky[0] == 82u8);
}

/// A pair of functions on numbers, known by its kind.
#[derive(Clone, Copy, Debug, PartialEq, Eq, Structural)]
pub struct Activation {
    pub activation_type: ActivationType,
}

impl Activation {
    /// The rectifier.
    #[allow(non_snake_case)]
    pub fn ReLu() -> (a: Activation)
        ensures
            a.activation_type == ActivationType::ReLu,
    {
        Activation { activation_type: ActivationType::ReLu }
    }

    /// The leaky rectifier.
    #[allow(non_snake_case)]
    pub fn ReLu_leaky() -> (a: Activation)
        ensures
            a.activation_type == ActivationType::ReLuLeaky,
    {
        Activation { activation_type: ActivationType::ReLuLeaky }
    }

    /// The logistic function.
    pub fn sigmoid() -> (a: Activation)
        ensures
            a.activation_type == ActivationType::Sigmoid,
    {
        Activation { activation_type: ActivationType::Sigmoid }
    }
}

} // verus!
