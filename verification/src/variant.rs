//! The two editions of the client.

use vstd::prelude::*;

verus! {

/// An edition of the client: the one for China, or the international one.
#[derive(Clone, Copy, PartialEq, Eq, Structural, Debug)]
pub enum WbVariant {
    Cn,
    Ai,
}

impl WbVariant {
    /// The edition's short name.
    pub fn as_str(self) -> (r: &'static str)
        ensures
            r@ == self.name(),
    {
        match self {
            WbVariant::Cn => "cn",
            WbVariant::Ai => "ai",
        }
    }

    pub open spec fn name(self) -> Seq<char> {
        match self {
            WbVariant::Cn => "cn"@,
            WbVariant::Ai => "ai"@,
        }
    }

    /// The name of the edition's data directory in the home directory.
    pub fn data_dir_name(self) -> (r: &'static str)
        ensures
            r@ == self.data_dir(),
    {
        match self {
            WbVariant::Cn => ".workbuddy",
            WbVariant::Ai => ".workbuddy-ai",
        }
    }

    pub open spec fn data_dir(self) -> Seq<char> {
        match self {
            WbVariant::Cn => ".workbuddy"@,
            WbVariant::Ai => ".workbuddy-ai"@,
        }
    }
}

} // verus!
