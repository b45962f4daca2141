use vstd::prelude::*;

verus! {

/// A grammar rule or a reason for a failure, named in diagnostics.
#[derive(Debug, PartialEq, Eq, Structural, Clone, Copy)]
pub enum Label {
    Value,
    Array,
    Dict,
    Call,
    Str,
    Integer,
    Entry,
    Module,
    Define,
    Extend,
    TrailingInput,
    NotConcatenable,
    MixedTypes,
    IntegerOverflow,
    UndefinedVariable,
}

/// What one frame of a failure trace says.
#[derive(Debug, PartialEq, Eq, Structural, Clone, Copy)]
pub enum Note {
    /// This character was expected here.
    Expected(char),
    /// The failure happened inside this rule (or for this reason).
    Context(Label),
}

/// One frame of a failure trace: a position in the input (in characters)
/// and what it says.
#[derive(Debug, PartialEq, Eq, Structural, Clone, Copy)]
pub struct Frame {
    pub pos: usize,
    pub note: Note,
}

/// A failure of a grammar rule, as a mathematical object: whether the rule
/// had committed (no other alternative may be tried), and its trace, the
/// deepest frame first.
pub struct Fault {
    pub committed: bool,
    pub trace: Seq<(int, Note)>,
}

/// A failure of a grammar rule.
#[derive(Debug, PartialEq, Eq)]
pub struct SyntaxError {
    pub committed: bool,
    pub trace: Vec<Frame>,
}

pub open spec fn frames_model(t: Seq<Frame>) -> Seq<(int, Note)> {
    Seq::new(t.len(), |k: int| (t[k].pos as int, t[k].note))
}

impl View for SyntaxError {
    type V = Fault;

    open spec fn view(&self) -> Fault {
        Fault { committed: self.committed, trace: frames_model(self.trace@) }
    }
}

/// A failure at `pos` that another alternative may still recover from.
pub open spec fn miss(pos: int, note: Note) -> Fault {
    Fault { committed: false, trace: seq![(pos, note)] }
}

/// A failure at `pos` past a commit point.
pub open spec fn fail(pos: int, note: Note) -> Fault {
    Fault { committed: true, trace: seq![(pos, note)] }
}

/// `f`, now past a commit point.
pub open spec fn commit(f: Fault) -> Fault {
    Fault { committed: true, trace: f.trace }
}

/// `f`, seen from the rule `label` entered at `pos`.
pub open spec fn within(f: Fault, pos: int, label: Label) -> Fault {
    Fault { committed: f.committed, trace: f.trace.push((pos, Note::Context(label))) }
}

impl SyntaxError {
    pub(crate) fn at(pos: usize, note: Note, committed: bool) -> (r: SyntaxError)
        ensures
            r@ == (Fault { committed, trace: seq![(pos as int, note)] }),
    {
        let mut trace = Vec::new();
        trace.push(Frame { pos, note });
        let r = SyntaxError { committed, trace };
        assert(r@.trace =~= seq![(pos as int, note)]);
        r
    }

    pub(crate) fn commit(self) -> (r: SyntaxError)
        ensures
            r@ == commit(self@),
    {
        SyntaxError { committed: true, trace: self.trace }
    }

    pub(crate) fn within(self, pos: usize, label: Label) -> (r: SyntaxError)
        ensures
            r@ == within(self@, pos as int, label),
    {
        let mut trace = self.trace;
        trace.push(Frame { pos, note: Note::Context(label) });
        let r = SyntaxError { committed: self.committed, trace };
        assert(r@.trace =~= self@.trace.push((pos as int, Note::Context(label))));
        r
    }
}

} // verus!
