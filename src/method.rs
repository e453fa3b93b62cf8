use vstd::prelude::*;

use crate::error::Error;

verus! {

/// The operation a record stands for.
#[derive(Debug, Copy, Clone, PartialEq, Eq, Structural)]
pub enum Method {
    Put,
    Del,
}

/// The tag that stands for `m` in a record header.
pub open spec fn tag_of(m: Method) -> nat {
    match m {
        Method::Put => 0,
        Method::Del => 1,
    }
}

/// The operation that header tag `t` names, if any.
pub open spec fn method_of_tag(t: nat) -> Option<Method> {
    if t == 0 {
        Some(Method::Put)
    } else if t == 1 {
        Some(Method::Del)
    } else {
        None
    }
}

impl Method {
    /// The operation of a fresh record.
    pub fn default() -> (m: Method)
        ensures
            m == Method::Put,
    {
        Method::Put
    }

    /// The 16-bit tag written in the record header.
    pub fn tag(self) -> (t: u16)
        ensures
            t as nat == tag_of(self),
    {
        match self {
            Method::Put => 0,
            Method::Del => 1,
        }
    }

    /// Reads a header tag; a tag other than 0 or 1 is a format error.
    pub fn from_tag(t: u16) -> (r: Result<Method, Error>)
        ensures
            match method_of_tag(t as nat) {
                Some(m) => r == Ok::<Method, Error>(m),
                None => r == Err::<Method, Error>(Error::InvalidRecord),
            },
    {
        if t == 0 {
            Ok(Method::Put)
        } else if t == 1 {
            Ok(Method::Del)
        } else {
            Err(Error::InvalidRecord)
        }
    }
}

} // verus!
