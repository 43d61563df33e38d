//! Panics caught while checking a file, and the message they are reported with.
use vstd::prelude::*;
use crate::text::string_of;
use crate::write::push_str;

verus! {

/// What a panic carried: its message when it was a string.
#[derive(Debug, Clone)]
pub struct Payload(pub Option<String>);

impl Payload {
    /// Returns the panic's message, if it carried a string.
    pub fn downcast_ref(&self) -> (s: Option<&str>)
        ensures
            match s {
                Some(x) => self.0 matches Some(m) && x@ == m@,
                None => self.0 is None,
            },
    {
        match &self.0 {
            Some(m) => Some(m.as_str()),
            None => None,
        }
    }

    /// The text of the payload: the message, or `Box<dyn Any>` for any other value.
    pub open spec fn text(self) -> Seq<char> {
        match self.0 {
            Some(m) => m@,
            None => "Box<dyn Any>"@,
        }
    }

    /// Returns the text of the payload.
    pub fn to_text(&self) -> (s: String)
        ensures
            s@ == self.text(),
    {
        let mut out: Vec<char> = Vec::new();
        match &self.0 {
            Some(m) => push_str(&mut out, m.as_str()),
            None => push_str(&mut out, "Box<dyn Any>"),
        }
        string_of(out.as_slice())
    }
}

/// A panic caught while checking: where it happened, and what it carried.
#[derive(Debug, Clone)]
pub struct PanicError {
    pub location: Option<String>,
    pub payload: Payload,
}

impl PanicError {
    /// The message of the diagnostic that reports the panic, for the file `path` if given.
    pub open spec fn message(self, path: Option<Seq<char>>) -> Seq<char> {
        "Panicked"@ + match self.location {
            Some(l) => " at "@ + l@,
            None => Seq::empty(),
        } + match path {
            Some(p) => " when checking `"@ + p + "`"@,
            None => Seq::empty(),
        } + ": `"@ + self.payload.text() + "`"@
    }

    /// Returns the message of the diagnostic that reports the panic: where it happened, the
    /// file being checked, and what it carried.
    pub fn to_diagnostic_message(&self, path: Option<&str>) -> (s: String)
        ensures
            s@ == self.message(
                match path {
                    Some(p) => Some(p@),
                    None => None,
                },
            ),
    {
        let mut out: Vec<char> = Vec::new();
        push_str(&mut out, "Panicked");
        match &self.location {
            Some(l) => {
                push_str(&mut out, " at ");
                push_str(&mut out, l.as_str());
            },
            None => {},
        }
        match path {
            Some(p) => {
                push_str(&mut out, " when checking `");
                push_str(&mut out, p);
                push_str(&mut out, "`");
            },
            None => {},
        }
        push_str(&mut out, ": `");
        let payload = self.payload.to_text();
        push_str(&mut out, payload.as_str());
        push_str(&mut out, "`");
        string_of(out.as_slice())
    }
}

} // verus!
