//! Query parameters for an upstream transit-authority request: ordered
//! key/value pairs, with typed values rendered to strings.

use vstd::prelude::*;
use vstd::string::StringExecFns;

verus! {

/// A value that can stand in a query string.
pub trait ParamValue {
    /// The rendered form of the value.
    spec fn spec_value(&self) -> Seq<char>;

    /// The parameter value as a string.
    fn as_value(&self) -> (r: String)
        ensures
            r@ == self.spec_value(),
    ;
}

impl ParamValue for bool {
    open spec fn spec_value(&self) -> Seq<char> {
        if *self {
            "true"@
        } else {
            "false"@
        }
    }

    fn as_value(&self) -> (r: String)
        ensures
            r@ == self.spec_value(),
    {
        if *self {
            String::from_str("true")
        } else {
            String::from_str("false")
        }
    }
}

impl ParamValue for String {
    open spec fn spec_value(&self) -> Seq<char> {
        self@
    }

    fn as_value(&self) -> (r: String)
        ensures
            r@ == self.spec_value(),
    {
        self.clone()
    }
}

/// Ordered query parameters.
pub struct QueryParameters {
    pub params: Vec<(String, String)>,
}

impl QueryParameters {
    /// An empty parameter list.
    pub fn new() -> (r: QueryParameters)
        ensures
            r.params@.len() == 0,
    {
        QueryParameters { params: Vec::new() }
    }

    /// Appends one key/value pair.
    pub fn push<V: ParamValue>(&mut self, key: String, val: V)
        ensures
            final(self).params@.len() == old(self).params@.len() + 1,
            final(self).params@.last().0@ == key@,
            final(self).params@.last().1@ == val.spec_value(),
            forall|i: int|
                0 <= i < old(self).params@.len() ==> final(self).params@[i] == old(self).params@[i],
    {
        self.params.push((key, val.as_value()));
    }

    /// Appends one key/value pair when the value is present, otherwise
    /// changes nothing.
    pub fn push_opt<V: ParamValue>(&mut self, key: String, val: Option<V>)
        ensures
            val is Some ==> final(self).params@.len() == old(self).params@.len() + 1
                && final(self).params@.last().0@ == key@
                && final(self).params@.last().1@ == val->0.spec_value(),
            val is None ==> *final(self) == *old(self),
            forall|i: int|
                0 <= i < old(self).params@.len() ==> final(self).params@[i] == old(self).params@[i],
    {
        match val {
            Some(v) => {
                self.params.push((key, v.as_value()));
            },
            None => {},
        }
    }
}

/// Extra query parameters appended to a request beyond its fixed ones.
pub struct ExtraQueryParams {
    pub params: Vec<(String, String)>,
}

impl ExtraQueryParams {
    /// An empty parameter list.
    pub fn new() -> (r: ExtraQueryParams)
        ensures
            r.params@.len() == 0,
    {
        ExtraQueryParams { params: Vec::new() }
    }

    /// Appends one key/value pair when the value is present, otherwise
    /// changes nothing.
    pub fn push_opt<V: ParamValue>(&mut self, key: String, val: Option<V>)
        ensures
            val is Some ==> final(self).params@.len() == old(self).params@.len() + 1
                && final(self).params@.last().0@ == key@
                && final(self).params@.last().1@ == val->0.spec_value(),
            val is None ==> *final(self) == *old(self),
            forall|i: int|
                0 <= i < old(self).params@.len() ==> final(self).params@[i] == old(self).params@[i],
    {
        match val {
            Some(v) => {
                self.params.push((key, v.as_value()));
            },
            None => {},
        }
    }
}

} // verus!
