//! The configuration builder: an immutable snapshot of toggles, decided
//! once per formatter pair and shared read-only across formatting calls.

use vstd::prelude::*;

use crate::formatter::{EventsFormatter, FieldsFormatter};

verus! {

/// The default toggles: severity, logical source, context name and
/// context path on; call-site location and module path off.
pub open spec fn default_events(e: EventsFormatter) -> bool {
    e.with_level && e.with_target && e.with_span_name && e.with_span_path && !e.with_location
        && !e.with_mod_path
}

/// Builds one events formatter and one fields formatter; every toggle
/// has a default, and each `with_` method replaces exactly one of them.
pub struct Builder {
    pub events: EventsFormatter,
    pub fields: FieldsFormatter,
}

/// Create a builder that can be used to configure the formatter.
pub fn builder() -> (b: Builder)
    ensures
        default_events(b.events),
{
    Builder::new()
}

impl Builder {
    /// A builder holding the default toggles.
    pub fn new() -> (b: Self)
        ensures
            default_events(b.events),
    {
        Builder { events: EventsFormatter::default(), fields: FieldsFormatter::default() }
    }

    /// Replaces the severity toggle.
    pub fn with_level(self, enable: bool) -> (b: Self)
        ensures
            b.events == (EventsFormatter { with_level: enable, ..self.events }),
            b.fields == self.fields,
    {
        let mut events = self.events;
        events.with_level = enable;
        Builder { events, fields: self.fields }
    }

    /// Replaces the logical-source toggle.
    pub fn with_target(self, enable: bool) -> (b: Self)
        ensures
            b.events == (EventsFormatter { with_target: enable, ..self.events }),
            b.fields == self.fields,
    {
        let mut events = self.events;
        events.with_target = enable;
        Builder { events, fields: self.fields }
    }

    /// Replaces the context-name toggle.
    pub fn with_span_name(self, enable: bool) -> (b: Self)
        ensures
            b.events == (EventsFormatter { with_span_name: enable, ..self.events }),
            b.fields == self.fields,
    {
        let mut events = self.events;
        events.with_span_name = enable;
        Builder { events, fields: self.fields }
    }

    /// Replaces the context-path toggle.
    pub fn with_span_path(self, enable: bool) -> (b: Self)
        ensures
            b.events == (EventsFormatter { with_span_path: enable, ..self.events }),
            b.fields == self.fields,
    {
        let mut events = self.events;
        events.with_span_path = enable;
        Builder { events, fields: self.fields }
    }

    /// Replaces the call-site-location toggle.
    pub fn with_location(self, enable: bool) -> (b: Self)
        ensures
            b.events == (EventsFormatter { with_location: enable, ..self.events }),
            b.fields == self.fields,
    {
        let mut events = self.events;
        events.with_location = enable;
        Builder { events, fields: self.fields }
    }

    /// Replaces the code-module-path toggle.
    pub fn with_mod_path(self, enable: bool) -> (b: Self)
        ensures
            b.events == (EventsFormatter { with_mod_path: enable, ..self.events }),
            b.fields == self.fields,
    {
        let mut events = self.events;
        events.with_mod_path = enable;
        Builder { events, fields: self.fields }
    }

    /// Hands out the configured pair of formatters.
    pub fn build(self) -> (r: (EventsFormatter, FieldsFormatter))
        ensures
            r.0 == self.events,
            r.1 == self.fields,
    {
        (self.events, self.fields)
    }
}

impl Default for Builder {
    /// The same builder `new` yields.
    fn default() -> (b: Self)
        ensures
            default_events(b.events),
    {
        Builder::new()
    }
}

} // verus!
