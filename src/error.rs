//! The errors of decoding and of building identifiers.
use vstd::prelude::*;
use vstd::string::StringExecFns;

verus! {

/// What was being decoded when the text did not match its grammar.
#[derive(Clone, Copy, Debug, PartialEq, Eq)]
pub enum Stage {
    /// a DID: `did:method:ids`
    Did,
    /// a DID URL: a DID with parameters, path, query and fragment
    DidUrl,
    /// one parameter of a list of parameters
    Param,
}

/// The part of a model that a builder was handed in a form the grammar refuses.
#[derive(Clone, Copy, Debug, PartialEq, Eq)]
pub enum Component {
    Method,
    Identifier,
    ParamName,
    ParamValue,
    Path,
    Fragment,
}

#[derive(Clone, Debug)]
pub enum Error {
    /// The text handed to a decoder (here, the offending part of it) does not match.
    MalformedInput(Stage, String),
    /// A builder was handed a component outside its character set.
    InvalidComponent(Component),
}

pub open spec fn stage_name(st: Stage) -> Seq<char> {
    match st {
        Stage::Did => "DID"@,
        Stage::DidUrl => "DID URL"@,
        Stage::Param => "parameter"@,
    }
}

pub open spec fn component_name(c: Component) -> Seq<char> {
    match c {
        Component::Method => "method"@,
        Component::Identifier => "identifier"@,
        Component::ParamName => "parameter name"@,
        Component::ParamValue => "parameter value"@,
        Component::Path => "path"@,
        Component::Fragment => "fragment"@,
    }
}

/// `could not parse <stage>: <text>`, or `invalid <component>`.
pub open spec fn message_of(e: Error) -> Seq<char> {
    match e {
        Error::MalformedInput(st, t) => "could not parse "@ + stage_name(st) + ": "@ + t@,
        Error::InvalidComponent(c) => "invalid "@ + component_name(c),
    }
}

impl Error {
    /// A one-line description of the error for people.
    pub fn message(&self) -> (r: String)
        ensures
            r@ == message_of(*self),
    {
        match self {
            Error::MalformedInput(st, t) => {
                let mut r = String::from_str("could not parse ");
                let name = match st {
                    Stage::Did => "DID",
                    Stage::DidUrl => "DID URL",
                    Stage::Param => "parameter",
                };
                r.append(name);
                r.append(": ");
                r.append(t.as_str());
                r
            },
            Error::InvalidComponent(c) => {
                let mut r = String::from_str("invalid ");
                let name = match c {
                    Component::Method => "method",
                    Component::Identifier => "identifier",
                    Component::ParamName => "parameter name",
                    Component::ParamValue => "parameter value",
                    Component::Path => "path",
                    Component::Fragment => "fragment",
                };
                r.append(name);
                r
            },
        }
    }
}

} // verus!
