use crate::bvh::BuildError;
use vstd::prelude::*;

verus! {

/// std's I/O error, carried inside `Kind::IOError`; only its `Display` text is read.
#[verifier::external_type_specification]
#[verifier::external_body]
pub struct ExIoError(std::io::Error);

/// An error of the renderer, with an optional explanation for the user.
#[derive(Debug)]
pub struct Error {
    pub kind: Kind,
    pub explanation: Option<String>,
}

/// What went wrong.
#[derive(Debug)]
pub enum Kind {
    /// The output could not be written.
    IOError(std::io::Error),
    /// The scene cannot be turned into a bounding-volume tree.
    InvalidScene(BuildError),
    UnknownError,
}

impl Error {
    pub fn new(kind: Kind) -> (r: Self)
        ensures
            r.kind == kind,
            r.explanation is None,
    {
        Error { kind, explanation: None }
    }

    /// The same error, explained by `explanation`.
    pub fn explanation(self, explanation: &str) -> (r: Self)
        ensures
            r.kind == self.kind,
            r.explanation is Some,
            r.explanation->Some_0@ == explanation@,
    {
        let mut e = self;
        e.explanation = Some(explanation.to_owned());
        e
    }
}

/// Relies on `String::push_str`: appends `t` to `s`.
#[verifier::external_body]
fn push_text(s: &mut String, t: &str)
    ensures
        final(s)@ == old(s)@ + t@,
{
    s.push_str(t)
}

/// The explanation, if any, that starts an error's message.
pub open spec fn explanation_text(e: Error) -> Seq<char> {
    match e.explanation {
        Some(x) => x@,
        None => Seq::empty(),
    }
}

impl Error {
    /// The message shown to the user: the explanation, if any, then what went wrong.
    pub fn message(&self) -> (r: String)
        ensures
            match self.kind {
                Kind::IOError(_) => r@.len() >= explanation_text(*self).len() + 21 && r@.subrange(
                    0,
                    explanation_text(*self).len() + 21int,
                ) == explanation_text(*self) + "IO Error, caused by: "@,
                Kind::InvalidScene(BuildError::Empty) => r@ == explanation_text(*self)
                    + "Invalid scene: it holds no primitive"@,
                Kind::InvalidScene(BuildError::MissingBox(_)) => r@ == explanation_text(*self)
                    + "Invalid scene: a primitive has no bounding box"@,
                Kind::UnknownError => r@ == explanation_text(*self) + "Unknown Error"@,
            },
    {
        let mut r = match &self.explanation {
            Some(x) => x.clone(),
            None => String::new(),
        };
        proof {
            reveal_strlit("IO Error, caused by: ");
            reveal_strlit("Invalid scene: it holds no primitive");
            reveal_strlit("Invalid scene: a primitive has no bounding box");
            reveal_strlit("Unknown Error");
        }
        match &self.kind {
            Kind::IOError(e) => {
                push_text(&mut r, "IO Error, caused by: ");
                let ghost head = r@;
                let cause = e.to_string();
                push_text(&mut r, cause.as_str());
                assert(r@.subrange(0, head.len() as int) =~= head);
            },
            Kind::InvalidScene(BuildError::Empty) => {
                push_text(&mut r, "Invalid scene: it holds no primitive");
            },
            Kind::InvalidScene(BuildError::MissingBox(_)) => {
                push_text(&mut r, "Invalid scene: a primitive has no bounding box");
            },
            Kind::UnknownError => {
                push_text(&mut r, "Unknown Error");
            },
        }
        r
    }
}

impl From<std::io::Error> for Error {
    fn from(e: std::io::Error) -> (r: Self) {
        Error { kind: Kind::IOError(e), explanation: None }
    }
}

impl vstd::std_specs::convert::FromSpecImpl<std::io::Error> for Error {
    open spec fn obeys_from_spec() -> bool {
        true
    }

    open spec fn from_spec(e: std::io::Error) -> Self {
        Error { kind: Kind::IOError(e), explanation: None }
    }
}

impl From<BuildError> for Error {
    fn from(e: BuildError) -> (r: Self) {
        Error { kind: Kind::InvalidScene(e), explanation: None }
    }
}

impl vstd::std_specs::convert::FromSpecImpl<BuildError> for Error {
    open spec fn obeys_from_spec() -> bool {
        true
    }

    open spec fn from_spec(e: BuildError) -> Self {
        Error { kind: Kind::InvalidScene(e), explanation: None }
    }
}

} // verus!
