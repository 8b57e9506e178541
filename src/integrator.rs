use vstd::prelude::*;

verus! {

/// Which kind of triggers to work on.
#[derive(Debug, Clone, Copy, PartialEq, Eq, Structural)]
pub enum IntegratorKind {
    Speeds,
    Chroma,
}

impl IntegratorKind {
    /// The extension of the kind's text files.
    pub fn ext(self) -> (r: &'static str)
        ensures
            r@ == (match self {
                IntegratorKind::Speeds => "speeds"@,
                IntegratorKind::Chroma => "chroma"@,
            }),
    {
        match self {
            IntegratorKind::Speeds => "speeds",
            IntegratorKind::Chroma => "chroma",
        }
    }
}

} // verus!
