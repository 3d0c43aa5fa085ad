//! Calendar events and their derived temporal fields: start, end, duration,
//! and generic property lookup.

use vstd::prelude::*;

verus! {

use crate::text::str_eq;
use crate::time::{
    div_trunc, div_trunc_i64, parse_timestamp, parsed_timestamp, ts_wf, Timestamp,
    MAX_EPOCH_SECONDS,
};

/// One property of an event: a name with an optional value. Names need not
/// be unique within an event: the temporal accessors read the first
/// occurrence of a name, while rule matching scans every occurrence.
#[derive(Debug, Clone)]
pub struct Property {
    pub name: String,
    pub value: Option<String>,
}

/// A calendar event: an ordered collection of properties, never mutated here.
#[derive(Debug, Clone)]
pub struct Event {
    pub properties: Vec<Property>,
}

impl View for Event {
    type V = Seq<Property>;

    open spec fn view(&self) -> Seq<Property> {
        self.properties@
    }
}

/// The first property named `name`, if any.
pub open spec fn spec_find(props: Seq<Property>, name: Seq<char>) -> Option<Property>
    decreases props.len(),
{
    if props.len() == 0 {
        None
    } else if props[0].name@ == name {
        Some(props[0])
    } else {
        spec_find(props.drop_first(), name)
    }
}

/// The value of the first property named `name`: `None` when the property is
/// absent or carries no value.
pub open spec fn spec_prop(props: Seq<Property>, name: Seq<char>) -> Option<Seq<char>> {
    match spec_find(props, name) {
        Some(p) => match p.value {
            Some(v) => Some(v@),
            None => None,
        },
        None => None,
    }
}

/// Why a start or end time could not be derived from an event.
#[derive(Clone, Copy, Debug, PartialEq, Eq, Structural)]
pub enum TemporalError {
    /// The property is absent from the event.
    MissingProperty,
    /// The property is present but carries no value.
    EmptyValue,
    /// The value does not parse as a `YYYYMMDDTHHMMSSZ` timestamp.
    Unparsable,
}

/// The timestamp derived from the first property named `name`.
pub open spec fn spec_time_of(props: Seq<Property>, name: Seq<char>) -> Result<
    Timestamp,
    TemporalError,
> {
    match spec_find(props, name) {
        None => Err(TemporalError::MissingProperty),
        Some(p) => match p.value {
            None => Err(TemporalError::EmptyValue),
            Some(v) => match parsed_timestamp(v@) {
                Some(t) => Ok(t),
                None => Err(TemporalError::Unparsable),
            },
        },
    }
}

/// The event's start time, derived from `DTSTART`.
pub open spec fn spec_dtstart(props: Seq<Property>) -> Result<Timestamp, TemporalError> {
    spec_time_of(props, "DTSTART"@)
}

/// The event's end time, derived from `DTEND`.
pub open spec fn spec_dtend(props: Seq<Property>) -> Result<Timestamp, TemporalError> {
    spec_time_of(props, "DTEND"@)
}

/// The event's duration in seconds: end minus start. The end's failure is
/// reported before the start's.
pub open spec fn spec_duration(props: Seq<Property>) -> Result<int, TemporalError> {
    match spec_dtend(props) {
        Err(e) => Err(e),
        Ok(end) => match spec_dtstart(props) {
            Err(e) => Err(e),
            Ok(start) => Ok(end.epoch_seconds - start.epoch_seconds),
        },
    }
}

impl Event {
    /// A reference to the first property with the given name.
    fn find_property<'a>(&'a self, name: &str) -> (r: Option<&'a Property>)
        ensures
            match r {
                Some(p) => spec_find(self@, name@) == Some(*p),
                None => spec_find(self@, name@) is None,
            },
    {
        let n = self.properties.len();
        proof {
            assert(self@.skip(0) =~= self@);
        }
        for i in 0..n
            invariant
                n == self@.len(),
                spec_find(self@, name@) == spec_find(self@.skip(i as int), name@),
        {
            let p = &self.properties[i];
            proof {
                assert(self@.skip(i as int)[0] == self@[i as int]);
            }
            if str_eq(p.name.as_str(), name) {
                return Some(p);
            }
            proof {
                assert(self@.skip(i as int).drop_first() =~= self@.skip(i as int + 1));
            }
        }
        proof {
            assert(self@.skip(n as int) =~= Seq::<Property>::empty());
        }
        None
    }

    /// The value of the first property with the given name; `None` when the
    /// property is absent or carries no value.
    pub fn prop<'a>(&'a self, name: &str) -> (r: Option<&'a str>)
        ensures
            match r {
                Some(v) => spec_prop(self@, name@) == Some(v@),
                None => spec_prop(self@, name@) is None,
            },
    {
        match self.find_property(name) {
            Some(p) => match &p.value {
                Some(v) => Some(v.as_str()),
                None => None,
            },
            None => None,
        }
    }

    /// The value of the `SUMMARY` property.
    pub fn summary<'a>(&'a self) -> (r: Option<&'a str>)
        ensures
            match r {
                Some(v) => spec_prop(self@, "SUMMARY"@) == Some(v@),
                None => spec_prop(self@, "SUMMARY"@) is None,
            },
    {
        self.prop("SUMMARY")
    }

    /// The value of the `DESCRIPTION` property.
    pub fn description<'a>(&'a self) -> (r: Option<&'a str>)
        ensures
            match r {
                Some(v) => spec_prop(self@, "DESCRIPTION"@) == Some(v@),
                None => spec_prop(self@, "DESCRIPTION"@) is None,
            },
    {
        self.prop("DESCRIPTION")
    }

    /// The timestamp derived from the first property with the given name.
    fn time_prop(&self, name: &str) -> (r: Result<Timestamp, TemporalError>)
        ensures
            r == spec_time_of(self@, name@),
            r matches Ok(t) ==> ts_wf(t),
    {
        match self.find_property(name) {
            None => Err(TemporalError::MissingProperty),
            Some(p) => match &p.value {
                None => Err(TemporalError::EmptyValue),
                Some(v) => match parse_timestamp(v.as_str()) {
                    Some(t) => Ok(t),
                    None => Err(TemporalError::Unparsable),
                },
            },
        }
    }

    /// The event's start time: the `DTSTART` property parsed as a timestamp.
    pub fn dtstart(&self) -> (r: Result<Timestamp, TemporalError>)
        ensures
            r == spec_dtstart(self@),
            r matches Ok(t) ==> ts_wf(t),
    {
        self.time_prop("DTSTART")
    }

    /// The event's end time: the `DTEND` property parsed as a timestamp.
    pub fn dtend(&self) -> (r: Result<Timestamp, TemporalError>)
        ensures
            r == spec_dtend(self@),
            r matches Ok(t) ==> ts_wf(t),
    {
        self.time_prop("DTEND")
    }

    /// The event's duration in seconds: end minus start.
    pub fn duration(&self) -> (r: Result<i64, TemporalError>)
        ensures
            r is Ok <==> spec_duration(self@) is Ok,
            r matches Ok(d) ==> spec_duration(self@) == Ok::<int, TemporalError>(d as int),
            r matches Err(e) ==> spec_duration(self@) == Err::<int, TemporalError>(e),
            r matches Ok(d) ==> -2 * MAX_EPOCH_SECONDS <= d <= 2 * MAX_EPOCH_SECONDS,
    {
        let end = match self.dtend() {
            Ok(t) => t,
            Err(e) => return Err(e),
        };
        let start = match self.dtstart() {
            Ok(t) => t,
            Err(e) => return Err(e),
        };
        Ok(end.epoch_seconds - start.epoch_seconds)
    }

    /// The event's duration in whole minutes, rounded toward zero.
    pub fn duration_minutes(&self) -> (r: Result<i64, TemporalError>)
        ensures
            r is Ok <==> spec_duration(self@) is Ok,
            r matches Ok(m) ==> spec_duration(self@) matches Ok(d) && m == div_trunc(d, 60),
            r matches Err(e) ==> spec_duration(self@) == Err::<int, TemporalError>(e),
    {
        match self.duration() {
            Ok(d) => Ok(div_trunc_i64(d, 60)),
            Err(e) => Err(e),
        }
    }
}

} // verus!
