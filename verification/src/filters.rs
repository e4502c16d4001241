use crate::error::Error;
use crate::record::ModuleArgs;
use crate::record::Record;
use crate::value::value_eq;
use crate::value::Value;
use crate::value::ValueView;
use vstd::prelude::*;

verus! {

/// What a well-formed `Equals` configuration holds: the field to test and
/// the reference value.
pub struct EqualsCfg {
    pub field: Seq<char>,
    pub value: ValueView,
}

/// The configuration read from the arguments: the `field` entry must be a
/// string, and a `value` entry must exist.
pub open spec fn equals_cfg(m0: Map<Seq<char>, ValueView>) -> Option<EqualsCfg> {
    if m0.contains_key("field"@) && (m0["field"@] is Str) && m0.remove("field"@).contains_key(
        "value"@,
    ) {
        Some(
            EqualsCfg {
                field: m0["field"@]->Str_0,
                value: m0.remove("field"@)["value"@],
            },
        )
    } else {
        None
    }
}

/// The filter: true exactly when the record carries the field with the
/// reference value.
pub struct Equals {
    field: String,
    value: Value,
}

impl Equals {
    /// The configuration this filter was built from.
    pub closed spec fn cfg(self) -> EqualsCfg {
        EqualsCfg { field: self.field@, value: self.value@ }
    }

    /// Builds the filter, rejecting arguments without a string `field` or
    /// without a `value`.
    pub fn from_args(args: ModuleArgs) -> (r: Result<Equals, Error>)
        requires
            args.wf(),
        ensures
            match r {
                Ok(f) => equals_cfg(args@) == Some(f.cfg()),
                Err(_) => equals_cfg(args@) is None,
            },
    {
        let mut args = args;
        let field: String = match args.remove("field") {
            Some(Value::Str(s)) => s,
            _ => {
                return Err(
                    Error::new(String::from_str("The Equals filter needs a field to filter in \"field\"")),
                );
            },
        };
        let value: Value = match args.remove("value") {
            Some(v) => v,
            None => {
                return Err(
                    Error::new(
                        String::from_str("The Equals filter needs a reference value in \"value\""),
                    ),
                );
            },
        };
        Ok(Equals { field, value })
    }

    /// True exactly when the record has the field and its value equals the
    /// reference value; false when the field is missing.
    pub fn filter(&self, record: &mut Record) -> (r: bool)
        requires
            old(record).wf(),
        ensures
            final(record)@ == old(record)@,
            final(record).wf(),
            r == (old(record)@.contains_key(self.cfg().field) && old(record)@[self.cfg().field]
                == self.cfg().value),
    {
        match record.get(self.field.as_str()) {
            Some(v) => value_eq(v, &self.value),
            None => false,
        }
    }
}

} // verus!
