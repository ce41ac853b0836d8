//! Formatting of syntax nodes, with configuration global to one printing.

use vstd::prelude::*;
use vstd::string::StringExecFns;

use crate::expr::EvalError;
use crate::render::{ArrangementFlavor, TimeFlavor};

verus! {

/// The context in which a syntax tree is printed.
#[derive(Debug, Clone, Copy, PartialEq, Eq, Structural)]
pub enum FormatMode {
    /// The normal way of printing, for human consumption.
    Simple,
    /// A form suitable for persistence, with nothing abbreviated.
    Stable,
}

/// A growing text buffer carrying the chosen format mode.
#[derive(Debug)]
pub struct AstFormatter {
    mode: FormatMode,
    buf: String,
}

impl AstFormatter {
    /// The characters written so far.
    pub closed spec fn buf_spec(&self) -> Seq<char> {
        self.buf@
    }

    pub closed spec fn mode_spec(&self) -> FormatMode {
        self.mode
    }

    pub fn new(mode: FormatMode) -> (r: AstFormatter)
        ensures
            r.mode_spec() == mode,
            r.buf_spec() == Seq::<char>::empty(),
    {
        AstFormatter { mode, buf: String::new() }
    }

    /// Writes a node through its `AstDisplay` implementation.
    pub fn write_node<T: AstDisplay>(&mut self, s: &T)
        ensures
            final(self).mode_spec() == old(self).mode_spec(),
            old(self).buf_spec().is_prefix_of(final(self).buf_spec()),
    {
        s.fmt(self);
    }

    /// Appends a piece of text to the buffer.
    pub fn write_str(&mut self, s: &str)
        ensures
            final(self).mode_spec() == old(self).mode_spec(),
            final(self).buf_spec() == old(self).buf_spec() + s@,
    {
        self.buf.append(s);
    }

    /// Whether the output should be optimized for persistence.
    pub fn stable(&self) -> (r: bool)
        ensures
            r == (self.mode_spec() == FormatMode::Stable),
    {
        match self.mode {
            FormatMode::Stable => true,
            FormatMode::Simple => false,
        }
    }

    /// Hands the formatted text out.
    pub fn into_str(self) -> (r: String)
        ensures
            r@ == self.buf_spec(),
    {
        self.buf
    }
}

/// An alternative to the standard formatting machinery for syntax trees: it
/// permits configuration global to the printing of one tree. `fmt` appends
/// the node's rendering — it only ever extends the buffer, and leaves the
/// mode alone.
pub trait AstDisplay {
    fn fmt(&self, f: &mut AstFormatter)
        ensures
            final(f).mode_spec() == old(f).mode_spec(),
            old(f).buf_spec().is_prefix_of(final(f).buf_spec()),
    ;
}

impl<T: AstDisplay> AstDisplay for Box<T> {
    fn fmt(&self, f: &mut AstFormatter) {
        (**self).fmt(f);
    }
}

impl AstDisplay for EvalError {
    fn fmt(&self, f: &mut AstFormatter) {
        let ghost before = *f;
        match self {
            EvalError::TypeError => f.write_str("type error"),
        }
        proof {
            assert(before.buf_spec().is_prefix_of(f.buf_spec()));
        }
    }
}

impl AstDisplay for TimeFlavor {
    fn fmt(&self, f: &mut AstFormatter) {
        let ghost before = *f;
        match self {
            TimeFlavor::Alt => f.write_str("alt"),
            TimeFlavor::Neu => f.write_str("neu"),
        }
        proof {
            assert(before.buf_spec().is_prefix_of(f.buf_spec()));
        }
    }
}

impl AstDisplay for ArrangementFlavor {
    fn fmt(&self, f: &mut AstFormatter) {
        let ghost before = *f;
        match self {
            ArrangementFlavor::Local => f.write_str("local"),
            ArrangementFlavor::Trace => f.write_str("trace"),
        }
        proof {
            assert(before.buf_spec().is_prefix_of(f.buf_spec()));
        }
    }
}

/// Renders a node in `Simple` mode.
pub fn to_ast_string<T: AstDisplay>(node: &T) -> String {
    let mut f = AstFormatter::new(FormatMode::Simple);
    node.fmt(&mut f);
    f.into_str()
}

/// Renders a node in `Stable` mode.
pub fn to_ast_string_stable<T: AstDisplay>(node: &T) -> String {
    let mut f = AstFormatter::new(FormatMode::Stable);
    node.fmt(&mut f);
    f.into_str()
}

} // verus!
