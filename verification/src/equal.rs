use crate::ben::{bytes_equal, parse_all, Ben, FormatError, Value, MAX_DEPTH};
use crate::canonical::canonical;
use vstd::prelude::*;
use vstd::string::StringSliceAdditionalSpecFns;

verus! {

impl PartialEq<i64> for Ben {
    /// A term equals a number where it is that integer.
    fn eq(&self, other: &i64) -> (r: bool) {
        match self {
            Ben::Number(i) => *i == *other,
            _ => false,
        }
    }
}

impl vstd::std_specs::cmp::PartialEqSpecImpl<i64> for Ben {
    open spec fn obeys_eq_spec() -> bool {
        true
    }

    open spec fn eq_spec(&self, other: &i64) -> bool {
        self@ == Value::Int(*other as int)
    }
}

impl PartialEq<&str> for Ben {
    /// A term equals a text where it is the byte string of that text.
    fn eq(&self, other: &&str) -> (r: bool) {
        match self {
            Ben::String(s) => bytes_equal(s.as_slice(), other.as_bytes()),
            _ => false,
        }
    }
}

impl vstd::std_specs::cmp::PartialEqSpecImpl<&str> for Ben {
    open spec fn obeys_eq_spec() -> bool {
        true
    }

    open spec fn eq_spec(&self, other: &&str) -> bool {
        self@ == Value::Bytes(other.spec_bytes())
    }
}

impl core::str::FromStr for Ben {
    type Err = FormatError;

    /// Decodes the bytes of `s` as one term with nothing behind it.
    fn from_str(s: &str) -> (r: Result<Self, FormatError>)
        ensures
            match parse_all(s.spec_bytes()) {
                Ok(v) => r matches Ok(b) && b@ == v,
                Err(o) => r matches Err(e) && e == (FormatError::Syntax { offset: o as usize }),
            },
            r matches Ok(b) ==> canonical(b@, MAX_DEPTH as nat),
    {
        Ben::parse(s.as_bytes())
    }
}

} // verus!
