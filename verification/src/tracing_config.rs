use vstd::prelude::*;

verus! {

/// The moments in the life of a span that the log can note.
#[derive(Clone, Copy, Debug, PartialEq, Eq, Structural, Hash)]
pub enum SpanEvent {
    New,
    Enter,
    Exit,
    Close,
}

/// Whether the log is coloured.
#[derive(Clone, Copy, Debug, PartialEq, Eq, Structural)]
pub enum Color {
    /// Coloured where the output is a terminal.
    Auto,
    Explicit(bool),
}

impl Default for Color {
    fn default() -> (r: Self)
        ensures
            r == Color::Auto,
    {
        Color::Auto
    }
}

impl Color {
    /// Whether to colour, given whether the output is a terminal.
    pub fn to_bool(&self, is_terminal: bool) -> (r: bool)
        ensures
            r == match self {
                Color::Auto => is_terminal,
                Color::Explicit(colored) => *colored,
            },
    {
        match self {
            Color::Auto => is_terminal,
            Color::Explicit(colored) => *colored,
        }
    }
}

/// How the default logger is set up. What is left out is taken from the
/// defaults.
#[derive(Debug, PartialEq, Eq)]
pub struct Config {
    pub log_level: Option<String>,
    pub span_events: Option<Vec<SpanEvent>>,
    pub color: Option<Color>,
}

impl Default for Config {
    fn default() -> (r: Self)
        ensures
            r.log_level is None,
            r.span_events is None,
            r.color is None,
    {
        Config { log_level: None, span_events: None, color: None }
    }
}

impl Config {
    /// Lays another configuration over this one: what the other sets wins,
    /// what it leaves out stays.
    pub fn merge(&mut self, other: Self)
        ensures
            final(self).log_level == match other.log_level {
                Some(level) => Some(level),
                None => old(self).log_level,
            },
            final(self).span_events == match other.span_events {
                Some(events) => Some(events),
                None => old(self).span_events,
            },
            final(self).color == match other.color {
                Some(color) => Some(color),
                None => old(self).color,
            },
    {
        let Config { log_level, span_events, color } = other;
        match log_level {
            Some(level) => {
                self.log_level = Some(level);
            },
            None => {},
        }
        match span_events {
            Some(events) => {
                self.span_events = Some(events);
            },
            None => {},
        }
        match color {
            Some(value) => {
                self.color = Some(value);
            },
            None => {},
        }
    }

    /// The filter of the logger: the log level, empty where none is set.
    pub fn filter_directives(&self) -> (r: String)
        ensures
            r@ == match self.log_level {
                Some(level) => level@,
                None => Seq::<char>::empty(),
            },
    {
        match &self.log_level {
            Some(level) => level.clone(),
            None => String::new(),
        }
    }

    /// Whether the logger colours its output.
    pub fn use_color(&self, is_terminal: bool) -> (r: bool)
        ensures
            r == match self.color {
                Some(Color::Explicit(colored)) => colored,
                _ => is_terminal,
            },
    {
        match self.color {
            Some(color) => color.to_bool(is_terminal),
            None => Color::Auto.to_bool(is_terminal),
        }
    }
}

} // verus!
