use vstd::prelude::*;
use vstd::utf8::{encode_scalar, encode_utf8, is_char_boundary, char_is_scalar, encode_utf8_first_scalar, encode_utf8_valid_utf8, pop_first_scalar};
use vstd::string::StringSliceAdditionalSpecFns;
use crate::error::{Label, Note, SyntaxError};
use nom::error::{convert_error, VerboseError, VerboseErrorKind};

verus! {

/// What one frame of a trace says, as nom's diagnostics take it.
pub enum Kind {
    Char(char),
    Context(&'static str),
}

/// What one frame of a trace says, as a mathematical object.
pub enum KindModel {
    Char(char),
    Context(Seq<char>),
}

pub open spec fn kind_model(k: Kind) -> KindModel {
    match k {
        Kind::Char(c) => KindModel::Char(c),
        Kind::Context(t) => KindModel::Context(t@),
    }
}

pub open spec fn spots_model(spots: Seq<(usize, Kind)>) -> Seq<(int, KindModel)> {
    Seq::new(spots.len(), |k: int| (spots[k].0 as int, kind_model(spots[k].1)))
}

/// The text that nom's `convert_error` makes of an input and a trace of
/// frames, each at a byte offset into the input, deepest first.
pub uninterp spec fn nom_rendering(input: Seq<char>, frames: Seq<(int, KindModel)>) -> Seq<char>;

/// Relies on `nom::error::convert_error`: it renders each frame with the
/// line of the input that holds it, a caret under its column and what it
/// says; the text depends on the input and the frames alone.
#[verifier::external_body]
fn render_frames(input: &str, spots: &Vec<(usize, Kind)>) -> (r: String)
    requires
        forall|k: int|
            0 <= k < spots@.len() ==> is_char_boundary(input.spec_bytes(), #[trigger] spots@[k].0 as int),
    ensures
        r@ == nom_rendering(input@, spots_model(spots@)),
{
    let errors = spots.iter().map(|(offset, kind)| {
        let k = match kind {
            Kind::Char(c) => VerboseErrorKind::Char(*c),
            Kind::Context(t) => VerboseErrorKind::Context(*t),
        };
        (&input[*offset..], k)
    }).collect();
    convert_error(input, VerboseError { errors })
}

/// The name a label goes by in diagnostics.
pub open spec fn label_text(l: Label) -> Seq<char> {
    match l {
        Label::Value => "value"@,
        Label::Array => "array"@,
        Label::Dict => "dict"@,
        Label::Call => "call"@,
        Label::Str => "string"@,
        Label::Integer => "integer"@,
        Label::Entry => "entry"@,
        Label::Module => "module"@,
        Label::Define => "define"@,
        Label::Extend => "extend"@,
        Label::TrailingInput => "trailing input"@,
        Label::NotConcatenable => "first value is not concatenable"@,
        Label::MixedTypes => "mixed types in concatenation"@,
        Label::IntegerOverflow => "integer out of range"@,
        Label::UndefinedVariable => "undefined variable"@,
    }
}

fn label_str(l: Label) -> (r: &'static str)
    ensures
        r@ == label_text(l),
{
    match l {
        Label::Value => "value",
        Label::Array => "array",
        Label::Dict => "dict",
        Label::Call => "call",
        Label::Str => "string",
        Label::Integer => "integer",
        Label::Entry => "entry",
        Label::Module => "module",
        Label::Define => "define",
        Label::Extend => "extend",
        Label::TrailingInput => "trailing input",
        Label::NotConcatenable => "first value is not concatenable",
        Label::MixedTypes => "mixed types in concatenation",
        Label::IntegerOverflow => "integer out of range",
        Label::UndefinedVariable => "undefined variable",
    }
}

/// The byte offset, in UTF-8, of the character at `pos` (or of the end, for
/// a position past it).
pub open spec fn byte_offset(s: Seq<char>, pos: int) -> int {
    encode_utf8(s.take(if pos < s.len() { pos } else { s.len() as int })).len() as int
}

pub open spec fn note_kind(n: Note) -> KindModel {
    match n {
        Note::Expected(c) => KindModel::Char(c),
        Note::Context(l) => KindModel::Context(label_text(l)),
    }
}

/// The diagnostic for a failure with trace `trace` on the input `s`.
pub open spec fn diagnostic(s: Seq<char>, trace: Seq<(int, Note)>) -> Seq<char> {
    nom_rendering(s, frame_spots(s, trace))
}

/// The frames of `trace` as nom takes them: byte offsets into `s`.
pub open spec fn frame_spots(s: Seq<char>, trace: Seq<(int, Note)>) -> Seq<(int, KindModel)> {
    Seq::new(trace.len(), |k: int| (byte_offset(s, trace[k].0), note_kind(trace[k].1)))
}

proof fn lemma_encode_concat(a: Seq<char>, b: Seq<char>)
    ensures
        encode_utf8(a + b) == encode_utf8(a) + encode_utf8(b),
    decreases a.len(),
{
    if a.len() == 0 {
        assert(a + b =~= b);
        assert(encode_utf8(a) + encode_utf8(b) =~= encode_utf8(b));
    } else {
        assert((a + b).drop_first() =~= a.drop_first() + b);
        lemma_encode_concat(a.drop_first(), b);
        assert((a + b)[0] == a[0]);
        assert(encode_utf8(a + b) =~= encode_utf8(a) + encode_utf8(b));
    }
}

proof fn lemma_boundary(a: Seq<char>, b: Seq<char>)
    ensures
        is_char_boundary(encode_utf8(a + b), encode_utf8(a).len() as int),
    decreases a.len(),
{
    let bytes = encode_utf8(a + b);
    encode_utf8_valid_utf8(a + b);
    if a.len() > 0 {
        encode_utf8_first_scalar(a + b);
        assert(pop_first_scalar(bytes) =~= encode_utf8((a + b).drop_first()));
        assert((a + b).drop_first() =~= a.drop_first() + b);
        assert((a + b)[0] == a[0]);
        lemma_boundary(a.drop_first(), b);
        lemma_encode_concat(a, b);
        char_is_scalar(a[0]);
        assert(encode_utf8(a).len() == encode_scalar(a[0] as u32).len() + encode_utf8(a.drop_first()).len());
        assert(encode_scalar(a[0] as u32).len() > 0);
    }
}

fn utf8_width(c: char) -> (w: usize)
    ensures
        w == encode_scalar(c as u32).len(),
{
    proof {
        char_is_scalar(c);
    }
    let v = c as u32;
    if v < 0x80 {
        1
    } else if v < 0x800 {
        2
    } else if v < 0x10000 {
        3
    } else {
        4
    }
}

/// The byte offset of the character at `pos` of `input`, whose characters
/// are `s`.
fn offset_of(input: &str, s: &Vec<char>, pos: usize) -> (r: usize)
    requires
        s@ == input@,
    ensures
        r == byte_offset(s@, pos as int),
        is_char_boundary(input.spec_bytes(), r as int),
{
    let total = input.as_bytes().len();
    let p = if pos < s.len() { pos } else { s.len() };
    let mut off: usize = 0;
    let mut k: usize = 0;
    assert(s@.take(0) =~= Seq::<char>::empty());
    while k < p
        invariant
            k <= p <= s.len(),
            s@ == input@,
            total == encode_utf8(s@).len(),
            off == encode_utf8(s@.take(k as int)).len(),
        decreases p - k,
    {
        let w = utf8_width(s[k]);
        proof {
            assert(s@.take(k + 1) =~= s@.take(k as int) + seq![s@[k as int]]);
            lemma_encode_concat(s@.take(k as int), seq![s@[k as int]]);
            assert(seq![s@[k as int]].drop_first() =~= Seq::<char>::empty());
            assert(encode_utf8(Seq::<char>::empty()) =~= Seq::<u8>::empty());
            assert(encode_utf8(seq![s@[k as int]]) =~= encode_scalar(s@[k as int] as u32));
            assert(s@ =~= s@.take(k + 1) + s@.skip(k + 1));
            lemma_encode_concat(s@.take(k + 1), s@.skip(k + 1));
        }
        off = off + w;
        k += 1;
    }
    proof {
        assert(s@ =~= s@.take(p as int) + s@.skip(p as int));
        lemma_boundary(s@.take(p as int), s@.skip(p as int));
    }
    off
}

/// The diagnostic for `err`, a failure on `input` (whose characters are `s`).
pub(crate) fn format_err(input: &str, s: &Vec<char>, err: &SyntaxError) -> (r: String)
    requires
        s@ == input@,
    ensures
        r@ == diagnostic(input@, err@.trace),
{
    let mut spots: Vec<(usize, Kind)> = Vec::new();
    let mut k: usize = 0;
    let ghost want = frame_spots(input@, err@.trace);
    while k < err.trace.len()
        invariant
            k <= err.trace.len(),
            s@ == input@,
            spots@.len() == k,
            want == frame_spots(input@, err@.trace),
            forall|j: int| 0 <= j < k ==> #[trigger] spots_model(spots@)[j] == want[j],
            forall|j: int|
                0 <= j < k ==> is_char_boundary(input.spec_bytes(), #[trigger] spots@[j].0 as int),
        decreases err.trace.len() - k,
    {
        let f = err.trace[k];
        let off = offset_of(input, s, f.pos);
        let kind = match f.note {
            Note::Expected(c) => Kind::Char(c),
            Note::Context(l) => Kind::Context(label_str(l)),
        };
        assert(kind_model(kind) == note_kind(f.note));
        assert(err@.trace[k as int] == (f.pos as int, f.note));
        assert(want[k as int] == (off as int, note_kind(f.note)));
        let ghost old_spots = spots@;
        spots.push((off, kind));
        proof {
            assert forall|j: int| 0 <= j < k + 1 implies #[trigger] spots_model(spots@)[j] == want[j] by {
                if j < k {
                    assert(spots@[j] == old_spots[j]);
                    assert(spots_model(old_spots)[j] == want[j]);
                } else {
                    assert(err@.trace[j] == (f.pos as int, f.note));
                }
            }
        }
        k += 1;
    }
    assert(spots_model(spots@) =~= want);
    render_frames(input, &spots)
}

} // verus!
