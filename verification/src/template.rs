//! Parsing for a code snippet template.
//!
//! A snippet is a single line of text in which bracketed placeholder
//! fields may appear:
//!
//! ```text
//! git diff [main#from]..[#to]
//! ```
//!
//! - A field is wrapped in brackets and holds a default value before the
//!   first `#` and a description after it.
//! - A second `#` adds an explicit tab-order number (starting from 1):
//!   `[main#from#1]`. Fields without a number are visited left to right,
//!   filling the gaps between the numbered ones, and fields sharing one
//!   number form a single group that is edited simultaneously.
//! - `[`, `]`, `#` and `\` can be escaped with a preceding `\`. A `\`
//!   followed by any other character stands for a literal backslash
//!   followed by that character.
//!
//! Parsing scans the input once, left to right. Its meaning is pinned down
//! by a pure reducer over `(state, character)` pairs ([`spec_step`]): the
//! executable [`parse`] is proved to return exactly what folding that
//! reducer over the input and then resolving the navigation order
//! ([`spec_parse`]) returns.

use vstd::prelude::*;
use vstd::string::StrSliceExecFns;

verus! {

/// Why a template failed to parse. Every error aborts the parse; there is
/// no partial result.
#[derive(Debug, Clone, Copy, PartialEq, Eq, Structural)]
pub enum Error {
    /// An opening delimiter appeared while a field was already open.
    NestedField,
    /// A closing delimiter with no open field, or the input ended while a
    /// field was still open.
    UnbalancedDelimiters,
    /// A character that is not a decimal digit appeared where a tab-order
    /// digit was expected, or an explicit order of zero was given.
    InvalidNumber,
    /// An explicit tab-order number exceeds the supported bound.
    NumberOverflow,
    /// A second separator was given but no digits followed it.
    MissingNumber,
    /// A third separator appeared within one field.
    TooManyFields,
}

impl Error {
    /// The message for this error, worded for the user of the editor.
    pub fn message(&self) -> (r: &'static str)
        ensures
            r@ == self.spec_message(),
    {
        match self {
            Error::NestedField => "found bracket within bracket: escape at least one to clarify intent",
            Error::UnbalancedDelimiters => "unbalanced bracket templates: escape brackets that are to be treated as literals",
            Error::InvalidNumber => "invalid input index: must be a positive integer",
            Error::NumberOverflow => "invalid input index: number too large",
            Error::MissingNumber => "no input index given: remove the second '#' for automatic index",
            Error::TooManyFields => "too many hashes in input: escape #'s that are to be treated as literals",
        }
    }

    /// What [`Self::message`] returns.
    pub open spec fn spec_message(&self) -> Seq<char> {
        match self {
            Error::NestedField => "found bracket within bracket: escape at least one to clarify intent"@,
            Error::UnbalancedDelimiters => "unbalanced bracket templates: escape brackets that are to be treated as literals"@,
            Error::InvalidNumber => "invalid input index: must be a positive integer"@,
            Error::NumberOverflow => "invalid input index: number too large"@,
            Error::MissingNumber => "no input index given: remove the second '#' for automatic index"@,
            Error::TooManyFields => "too many hashes in input: escape #'s that are to be treated as literals"@,
        }
    }
}

/// The set of characters that `\` escapes; all of them are syntax-significant.
pub open spec fn is_reserved(c: char) -> bool {
    c == '[' || c == ']' || c == '#' || c == '\\'
}

/// Whether `c` is an ASCII decimal digit.
pub open spec fn is_digit_char(c: char) -> bool {
    48 <= c as int <= 57
}

/// The numeric value of an ASCII decimal digit.
pub open spec fn digit_value(c: char) -> int {
    c as int - 48
}

/// A bounded non-negative integer built one decimal digit at a time,
/// used to read multi-digit tab-order numbers. The bound is one byte:
/// values run from 0 to 255.
#[derive(Debug, Clone, Copy, PartialEq, Eq, Structural)]
pub struct IncrementalU8(pub u8);

impl View for IncrementalU8 {
    type V = int;

    open spec fn view(&self) -> int {
        self.0 as int
    }
}

impl IncrementalU8 {
    pub fn new() -> (r: Self)
        ensures
            r@ == 0,
    {
        IncrementalU8(0)
    }

    /// Appends one decimal digit: the held value becomes `value * 10 + digit`.
    ///
    /// Fails with [`Error::InvalidNumber`] if `c` is not an ASCII decimal
    /// digit and with [`Error::NumberOverflow`] if the new value would not
    /// fit in one byte. Pure: returns the updated accumulator.
    pub fn read_digit(self, c: char) -> (r: Result<Self, Error>)
        ensures
            r == Self::spec_read_digit(self@, c),
    {
        let u = c as u32;
        if u < 48 || 57 < u {
            return Err(Error::InvalidNumber);
        }
        let digit = (u - 48) as u8;
        match self.0.checked_mul(10) {
            Some(m) => match m.checked_add(digit) {
                Some(v) => Ok(IncrementalU8(v)),
                None => Err(Error::NumberOverflow),
            },
            None => Err(Error::NumberOverflow),
        }
    }

    /// What [`Self::read_digit`] returns: the grown value, or the error
    /// that rejects the character.
    pub open spec fn spec_read_digit(value: int, c: char) -> Result<IncrementalU8, Error> {
        if !is_digit_char(c) {
            Err(Error::InvalidNumber)
        } else if value * 10 + digit_value(c) > 255 {
            Err(Error::NumberOverflow)
        } else {
            Ok(IncrementalU8((value * 10 + digit_value(c)) as u8))
        }
    }

    pub fn get(self) -> (r: u8)
        ensures
            r == self@,
    {
        self.0
    }
}

impl From<u8> for IncrementalU8 {
    fn from(value: u8) -> (r: Self) {
        IncrementalU8(value)
    }
}

impl vstd::std_specs::convert::FromSpecImpl<u8> for IncrementalU8 {
    open spec fn obeys_from_spec() -> bool {
        true
    }

    open spec fn from_spec(value: u8) -> IncrementalU8 {
        IncrementalU8(value)
    }
}

// ===== The mathematical model of a parse =====

/// Model of one section of the parsed document: a span of the display
/// text that is either literal or an editable input field.
#[verifier::ext_equal]
pub enum SectionView {
    Literal { start: int, end: int },
    Input { start: int, end: int, desc: Seq<char> },
}

/// Model of the parsed document.
#[verifier::ext_equal]
pub struct DocView {
    /// The fully unescaped text shown to the user.
    pub display: Seq<char>,
    /// The sections, in declaration order.
    pub sections: Seq<SectionView>,
    /// Groups of indices into `sections`, in tab order.
    pub input_order: Seq<Seq<int>>,
}

/// Model of the scanner's phase, mirroring [`State`].
#[verifier::ext_equal]
pub enum StateView {
    Literal { start: int },
    Default { start: int },
    Description { start: int, end: int, desc: Seq<char> },
    Index { start: int, end: int, desc: Seq<char>, num: Option<int> },
}

/// Model of the whole scanning state: phase plus the buffers grown so far.
#[verifier::ext_equal]
pub struct ParserView {
    /// A `\` was just consumed and may escape the next character.
    pub escaped: bool,
    pub state: StateView,
    pub display: Seq<char>,
    pub sections: Seq<SectionView>,
    /// Indices of input sections declared without an explicit order.
    pub unassigned: Seq<int>,
    /// Explicit orders: `(key, input section indices)`, keys strictly
    /// ascending, indices per key in declaration order.
    pub keyed: Seq<(int, Seq<int>)>,
}

/// The state in which scanning begins.
pub open spec fn init_view() -> ParserView {
    ParserView {
        escaped: false,
        state: StateView::Literal { start: 0 },
        display: Seq::empty(),
        sections: Seq::empty(),
        unassigned: Seq::empty(),
        keyed: Seq::empty(),
    }
}

/// The display text after emitting `c`, preceded by the pending literal
/// backslash if one was consumed but escaped nothing.
pub open spec fn spec_emit(v: ParserView, c: char) -> Seq<char> {
    if v.escaped {
        v.display.push('\\').push(c)
    } else {
        v.display.push(c)
    }
}

/// Records `idx` under the explicit order `key`: appended to the group of
/// an equal key, or placed as a new group so that keys stay ascending.
pub open spec fn spec_keyed_insert(keyed: Seq<(int, Seq<int>)>, key: int, idx: int) -> Seq<
    (int, Seq<int>),
>
    decreases keyed.len(),
{
    if keyed.len() == 0 {
        seq![(key, seq![idx])]
    } else if key < keyed[0].0 {
        seq![(key, seq![idx])] + keyed
    } else if key == keyed[0].0 {
        seq![(keyed[0].0, keyed[0].1.push(idx))] + keyed.drop_first()
    } else {
        seq![keyed[0]] + spec_keyed_insert(keyed.drop_first(), key, idx)
    }
}

/// Closes the open field as one with no explicit order: its section is
/// pushed and its index recorded as unassigned.
pub open spec fn spec_close_unassigned(v: ParserView, start: int, end: int, desc: Seq<
    char,
>) -> ParserView {
    ParserView {
        state: StateView::Literal { start: v.display.len() as int },
        sections: v.sections.push(SectionView::Input { start, end, desc }),
        unassigned: v.unassigned.push(v.sections.len() as int),
        ..v
    }
}

/// Closes the open field as one with the explicit order `key`.
pub open spec fn spec_close_keyed(
    v: ParserView,
    start: int,
    end: int,
    desc: Seq<char>,
    key: int,
) -> ParserView {
    ParserView {
        state: StateView::Literal { start: v.display.len() as int },
        sections: v.sections.push(SectionView::Input { start, end, desc }),
        keyed: spec_keyed_insert(v.keyed, key, v.sections.len() as int),
        ..v
    }
}

/// The pure reducer: how one input character transforms the scanning
/// state. Escape handling comes first; then the character is interpreted
/// according to the current phase.
pub open spec fn spec_step(v: ParserView, c: char) -> Result<ParserView, Error> {
    if v.escaped && is_reserved(c) {
        // The escape bites: the reserved character goes to the display
        // text verbatim and the phase is untouched.
        Ok(ParserView { escaped: false, display: v.display.push(c), ..v })
    } else if c == '\\' {
        // Consume the backslash; whether it escapes is decided next.
        Ok(ParserView { escaped: true, ..v })
    } else {
        match v.state {
            StateView::Literal { start } => {
                if c == '[' {
                    Ok(
                        ParserView {
                            state: StateView::Default { start: v.display.len() as int },
                            sections: if start < v.display.len() {
                                v.sections.push(
                                    SectionView::Literal { start, end: v.display.len() as int },
                                )
                            } else {
                                v.sections
                            },
                            ..v
                        },
                    )
                } else if c == ']' {
                    Err(Error::UnbalancedDelimiters)
                } else {
                    Ok(ParserView { escaped: false, display: spec_emit(v, c), ..v })
                }
            },
            StateView::Default { start } => {
                if c == '[' {
                    Err(Error::NestedField)
                } else if c == ']' {
                    Ok(spec_close_unassigned(v, start, v.display.len() as int, Seq::empty()))
                } else if c == '#' {
                    Ok(
                        ParserView {
                            state: StateView::Description {
                                start,
                                end: v.display.len() as int,
                                desc: Seq::empty(),
                            },
                            ..v
                        },
                    )
                } else {
                    Ok(ParserView { escaped: false, display: spec_emit(v, c), ..v })
                }
            },
            StateView::Description { start, end, desc } => {
                if c == '[' {
                    Err(Error::NestedField)
                } else if c == ']' {
                    Ok(spec_close_unassigned(v, start, end, desc))
                } else if c == '#' {
                    Ok(
                        ParserView {
                            state: StateView::Index { start, end, desc, num: None },
                            ..v
                        },
                    )
                } else {
                    Ok(
                        ParserView {
                            escaped: false,
                            state: StateView::Description { start, end, desc: desc.push(c) },
                            display: if v.escaped {
                                v.display.push('\\')
                            } else {
                                v.display
                            },
                            ..v
                        },
                    )
                }
            },
            StateView::Index { start, end, desc, num } => {
                if c == '[' {
                    Err(Error::NestedField)
                } else if c == ']' {
                    match num {
                        None => Err(Error::MissingNumber),
                        Some(key) => if key == 0 {
                            Err(Error::InvalidNumber)
                        } else {
                            Ok(spec_close_keyed(v, start, end, desc, key))
                        },
                    }
                } else if c == '#' {
                    Err(Error::TooManyFields)
                } else {
                    match IncrementalU8::spec_read_digit(
                        match num {
                            Some(k) => k,
                            None => 0,
                        },
                        c,
                    ) {
                        Err(e) => Err(e),
                        Ok(acc) => Ok(
                            ParserView {
                                escaped: false,
                                state: StateView::Index { start, end, desc, num: Some(acc@) },
                                display: if v.escaped {
                                    v.display.push('\\')
                                } else {
                                    v.display
                                },
                                ..v
                            },
                        ),
                    }
                }
            },
        }
    }
}

/// Folds [`spec_step`] over the whole input, left to right.
pub open spec fn spec_run(s: Seq<char>) -> Result<ParserView, Error>
    decreases s.len(),
{
    if s.len() == 0 {
        Ok(init_view())
    } else {
        match spec_run(s.drop_last()) {
            Err(e) => Err(e),
            Ok(v) => spec_step(v, s.last()),
        }
    }
}

/// How far the unassigned fields must fill before the next explicit key
/// is emitted, so that a group keyed `k` lands at position `k` or later.
pub open spec fn gap_to_key(keyed: Seq<(int, Seq<int>)>, emitted: int) -> int {
    if keyed.len() == 0 {
        0
    } else if keyed[0].0 - 1 - emitted < 0 {
        0
    } else {
        keyed[0].0 - 1 - emitted
    }
}

/// Merges the explicitly keyed groups (keys ascending) with the
/// unassigned fields (declaration order) into the final navigation
/// order, `emitted` groups having been emitted already. Unassigned
/// fields fill the gaps below each explicit key, each as its own
/// singleton group, and any left over trail at the end.
/// Each index as its own singleton group.
pub open spec fn singletons(indices: Seq<int>) -> Seq<Seq<int>> {
    indices.map_values(|i: int| seq![i])
}

pub open spec fn spec_resolve(
    keyed: Seq<(int, Seq<int>)>,
    unassigned: Seq<int>,
    emitted: int,
) -> Seq<Seq<int>>
    decreases keyed.len(), gap_to_key(keyed, emitted),
{
    if keyed.len() == 0 {
        singletons(unassigned)
    } else if emitted + 1 < keyed[0].0 && unassigned.len() > 0 {
        seq![seq![unassigned[0]]] + spec_resolve(keyed, unassigned.drop_first(), emitted + 1)
    } else {
        seq![keyed[0].1] + spec_resolve(keyed.drop_first(), unassigned, emitted + 1)
    }
}

/// What scanning leaves behind once the input is exhausted: the pending
/// literal run is closed (if non-empty) and the navigation order is
/// resolved. An input still open at the end of the text is unbalanced.
pub open spec fn spec_finalize(v: ParserView) -> Result<DocView, Error> {
    match v.state {
        StateView::Literal { start } => Ok(
            DocView {
                display: v.display,
                sections: if start < v.display.len() {
                    v.sections.push(SectionView::Literal { start, end: v.display.len() as int })
                } else {
                    v.sections
                },
                input_order: spec_resolve(v.keyed, v.unassigned, 0),
            },
        ),
        _ => Err(Error::UnbalancedDelimiters),
    }
}

/// The meaning of [`parse`]: fold the reducer over the input, then
/// finalize.
pub open spec fn spec_parse(s: Seq<char>) -> Result<DocView, Error> {
    match spec_run(s) {
        Err(e) => Err(e),
        Ok(v) => spec_finalize(v),
    }
}

// ===== The executable document =====

/// One section of the parsed document. The range indexes characters of
/// the display text; for an input field it spans the default value, and
/// the accompanying characters are the field's description.
#[derive(Debug)]
pub enum TemplateSection {
    Literal(core::ops::Range<usize>),
    Input(core::ops::Range<usize>, Vec<char>),
}

impl View for TemplateSection {
    type V = SectionView;

    open spec fn view(&self) -> SectionView {
        match self {
            TemplateSection::Literal(range) => SectionView::Literal {
                start: range.start as int,
                end: range.end as int,
            },
            TemplateSection::Input(range, desc) => SectionView::Input {
                start: range.start as int,
                end: range.end as int,
                desc: desc@,
            },
        }
    }
}

/// The sections of `sections` as their models, in order.
pub open spec fn sections_view(sections: Seq<TemplateSection>) -> Seq<SectionView> {
    sections.map_values(|section: TemplateSection| section@)
}

/// The groups of `order` as sequences of mathematical integers.
pub open spec fn order_view(order: Seq<Vec<usize>>) -> Seq<Seq<int>> {
    order.map_values(|group: Vec<usize>| group@.map_values(|i: usize| i as int))
}

/// The parsed document: display text, sections, and the order in which
/// to jump between input sections.
///
/// Each element of `input_order` is a group of indices of `sections`,
/// every one of which refers to a [`TemplateSection::Input`] variant;
/// the fields of a group are edited simultaneously.
#[derive(Debug)]
pub struct TemplatedCommand {
    pub display: Vec<char>,
    pub sections: Vec<TemplateSection>,
    pub input_order: Vec<Vec<usize>>,
}

impl View for TemplatedCommand {
    type V = DocView;

    open spec fn view(&self) -> DocView {
        DocView {
            display: self.display@,
            sections: sections_view(self.sections@),
            input_order: order_view(self.input_order@),
        }
    }
}

impl TemplatedCommand {
    pub fn push_input(&mut self, range: core::ops::Range<usize>, description: Vec<char>)
        ensures
            final(self).display == old(self).display,
            final(self).input_order == old(self).input_order,
            final(self).sections@ == old(self).sections@.push(
                TemplateSection::Input(range, description),
            ),
    {
        self.sections.push(TemplateSection::Input(range, description));
    }

    pub fn push_literal(&mut self, range: core::ops::Range<usize>)
        ensures
            final(self).display == old(self).display,
            final(self).input_order == old(self).input_order,
            final(self).sections@ == old(self).sections@.push(TemplateSection::Literal(range)),
    {
        self.sections.push(TemplateSection::Literal(range));
    }
}

impl Default for TemplatedCommand {
    fn default() -> (r: Self)
        ensures
            r.display@.len() == 0,
            r.sections@.len() == 0,
            r.input_order@.len() == 0,
    {
        TemplatedCommand { display: Vec::new(), sections: Vec::new(), input_order: Vec::new() }
    }
}

/// The scanner's phase while reading one field, mirrored in ghost code by
/// [`StateView`]. Ranges and offsets index the display text.
#[derive(Debug)]
pub enum State {
    /// Scanning plain text; the literal run began at this offset.
    Literal(usize),
    /// Inside a field, reading its default value, which began at this
    /// offset.
    Default(usize),
    /// The default range is fixed; accumulating the description.
    Description(core::ops::Range<usize>, Vec<char>),
    /// Default range and description are fixed; accumulating the
    /// optional tab-order number (`None` until a digit arrives).
    Index(core::ops::Range<usize>, Vec<char>, Option<IncrementalU8>),
}

impl View for State {
    type V = StateView;

    open spec fn view(&self) -> StateView {
        match self {
            State::Literal(start) => StateView::Literal { start: *start as int },
            State::Default(start) => StateView::Default { start: *start as int },
            State::Description(range, desc) => StateView::Description {
                start: range.start as int,
                end: range.end as int,
                desc: desc@,
            },
            State::Index(range, desc, num) => StateView::Index {
                start: range.start as int,
                end: range.end as int,
                desc: desc@,
                num: match num {
                    Some(acc) => Some(acc@),
                    None => None,
                },
            },
        }
    }
}

// ===== The executable scanner =====

/// The indices of `v` as mathematical integers.
pub open spec fn idx_view(v: Seq<usize>) -> Seq<int> {
    v.map_values(|i: usize| i as int)
}

/// The explicit-order table as its model.
pub open spec fn keyed_view(keyed: Seq<(u8, Vec<usize>)>) -> Seq<(int, Seq<int>)> {
    keyed.map_values(|entry: (u8, Vec<usize>)| (entry.0 as int, idx_view(entry.1@)))
}

proof fn lemma_sections_view_push(s: Seq<TemplateSection>, x: TemplateSection)
    ensures
        sections_view(s.push(x)) =~= sections_view(s).push(x@),
{
}

proof fn lemma_idx_view_push(s: Seq<usize>, x: usize)
    ensures
        idx_view(s.push(x)) =~= idx_view(s).push(x as int),
{
}

/// The scanner: the current phase plus every buffer grown during the
/// single left-to-right pass.
struct Parser {
    escaped: bool,
    state: State,
    display: Vec<char>,
    sections: Vec<TemplateSection>,
    unassigned: Vec<usize>,
    keyed: Vec<(u8, Vec<usize>)>,
}

impl View for Parser {
    type V = ParserView;

    closed spec fn view(&self) -> ParserView {
        ParserView {
            escaped: self.escaped,
            state: self.state@,
            display: self.display@,
            sections: sections_view(self.sections@),
            unassigned: idx_view(self.unassigned@),
            keyed: keyed_view(self.keyed@),
        }
    }
}

/// Records `idx` under `key` in the sorted explicit-order table,
/// appending to the group of an equal key or opening a new group at the
/// position that keeps the keys ascending.
fn keyed_push(keyed: &mut Vec<(u8, Vec<usize>)>, key: u8, idx: usize)
    ensures
        keyed_view(final(keyed)@) == spec_keyed_insert(
            keyed_view(old(keyed)@),
            key as int,
            idx as int,
        ),
{
    let ghost kv = keyed_view(keyed@);
    let mut j: usize = 0;
    while j < keyed.len() && keyed[j].0 < key
        invariant
            j <= keyed@.len(),
            keyed@ == old(keyed)@,
            forall|t: int| 0 <= t < j ==> keyed@[t].0 < key,
        decreases keyed@.len() - j,
    {
        j += 1;
    }
    proof {
        lemma_keyed_insert_at(kv, key as int, idx as int, j as int);
    }
    if j < keyed.len() && keyed[j].0 == key {
        let (found, mut group) = keyed.remove(j);
        group.push(idx);
        keyed.insert(j, (found, group));
        proof {
            assert(keyed_view(keyed@) =~~= kv.take(j as int) + seq![
                (kv[j as int].0, kv[j as int].1.push(idx as int)),
            ] + kv.skip(j as int + 1));
        }
    } else {
        let mut group: Vec<usize> = Vec::new();
        group.push(idx);
        keyed.insert(j, (key, group));
        proof {
            assert(keyed_view(keyed@) =~~= kv.take(j as int) + seq![
                (key as int, seq![idx as int]),
            ] + kv.skip(j as int));
        }
    }
}

/// Where [`spec_keyed_insert`] puts a new index: at the first position
/// whose key is not below the new one.
proof fn lemma_keyed_insert_at(kv: Seq<(int, Seq<int>)>, key: int, idx: int, j: int)
    requires
        0 <= j <= kv.len(),
        forall|t: int| 0 <= t < j ==> kv[t].0 < key,
        j < kv.len() ==> kv[j as int].0 >= key,
    ensures
        spec_keyed_insert(kv, key, idx) == if j < kv.len() && kv[j as int].0 == key {
            kv.take(j) + seq![(kv[j as int].0, kv[j as int].1.push(idx))] + kv.skip(j + 1)
        } else {
            kv.take(j) + seq![(key, seq![idx])] + kv.skip(j)
        },
    decreases j,
{
    if j == 0 {
        if kv.len() == 0 {
            assert(spec_keyed_insert(kv, key, idx) =~= kv.take(0) + seq![(key, seq![idx])]
                + kv.skip(0));
        } else if kv[0].0 == key {
            assert(spec_keyed_insert(kv, key, idx) =~= kv.take(0) + seq![
                (kv[0].0, kv[0].1.push(idx)),
            ] + kv.skip(1));
        } else {
            assert(key < kv[0].0);
            assert(spec_keyed_insert(kv, key, idx) =~= kv.take(0) + seq![(key, seq![idx])]
                + kv.skip(0));
        }
    } else {
        let rest = kv.drop_first();
        assert(kv[0].0 < key);
        lemma_keyed_insert_at(rest, key, idx, j - 1);
        assert(spec_keyed_insert(kv, key, idx) == seq![kv[0]] + spec_keyed_insert(
            rest,
            key,
            idx,
        ));
        if j < kv.len() && kv[j as int].0 == key {
            assert(rest[j - 1].0 == key);
            assert(seq![kv[0]] + (rest.take(j - 1) + seq![(rest[j - 1].0, rest[j - 1].1.push(idx))]
                + rest.skip(j)) =~= kv.take(j) + seq![(kv[j as int].0, kv[j as int].1.push(idx))]
                + kv.skip(j + 1));
        } else {
            assert(seq![kv[0]] + (rest.take(j - 1) + seq![(key, seq![idx])] + rest.skip(j - 1))
                =~= kv.take(j) + seq![(key, seq![idx])] + kv.skip(j));
        }
    }
}

impl Parser {
    fn new() -> (r: Self)
        ensures
            r@ == init_view(),
    {
        let r = Parser {
            escaped: false,
            state: State::Literal(0),
            display: Vec::new(),
            sections: Vec::new(),
            unassigned: Vec::new(),
            keyed: Vec::new(),
        };
        proof {
            assert(r@ =~~= init_view());
        }
        r
    }

    /// Advances the scan by one character; the executable mirror of
    /// [`spec_step`].
    fn step(self, c: char) -> (r: Result<Parser, Error>)
        ensures
            match r {
                Ok(p) => spec_step(self@, c) == Ok::<ParserView, Error>(p@),
                Err(e) => spec_step(self@, c) == Err::<ParserView, Error>(e),
            },
    {
        let ghost v = self@;
        let Parser { escaped, state, mut display, mut sections, mut unassigned, mut keyed } = self;

        // Escape handling first: a bitten escape emits the reserved
        // character verbatim, a fresh backslash only raises the flag.
        if escaped && (c == '[' || c == ']' || c == '#' || c == '\\') {
            display.push(c);
            let out = Parser { escaped: false, state, display, sections, unassigned, keyed };
            proof {
                assert(spec_step(v, c) == Ok::<ParserView, Error>(out@)) by {
                    assert(out@ =~~= ParserView { escaped: false, display: v.display.push(c), ..v });
                }
            }
            return Ok(out);
        }
        if c == '\\' {
            let out = Parser { escaped: true, state, display, sections, unassigned, keyed };
            proof {
                assert(spec_step(v, c) == Ok::<ParserView, Error>(out@)) by {
                    assert(out@ =~~= ParserView { escaped: true, ..v });
                }
            }
            return Ok(out);
        }

        match state {
            State::Literal(start) => {
                if c == '[' {
                    // A field opens: close the pending literal run if it
                    // is non-empty.
                    if start < display.len() {
                        let section = TemplateSection::Literal(start..display.len());
                        proof {
                            lemma_sections_view_push(sections@, section);
                        }
                        sections.push(section);
                    }
                    let field_start = display.len();
                    let out = Parser {
                        escaped,
                        state: State::Default(field_start),
                        display,
                        sections,
                        unassigned,
                        keyed,
                    };
                    proof {
                        assert(spec_step(v, c) matches Ok(w) && w =~~= out@);
                    }
                    Ok(out)
                } else if c == ']' {
                    Err(Error::UnbalancedDelimiters)
                } else {
                    if escaped {
                        display.push('\\');
                    }
                    display.push(c);
                    let out = Parser {
                        escaped: false,
                        state: State::Literal(start),
                        display,
                        sections,
                        unassigned,
                        keyed,
                    };
                    proof {
                        assert(spec_step(v, c) matches Ok(w) && w =~~= out@);
                    }
                    Ok(out)
                }
            },
            State::Default(start) => {
                if c == '[' {
                    Err(Error::NestedField)
                } else if c == ']' {
                    // Only a default value: the field gets an empty
                    // description and an automatic order.
                    let end = display.len();
                    let idx = sections.len();
                    let section = TemplateSection::Input(start..end, Vec::new());
                    proof {
                        lemma_idx_view_push(unassigned@, idx);
                        lemma_sections_view_push(sections@, section);
                    }
                    unassigned.push(idx);
                    sections.push(section);
                    let out = Parser {
                        escaped,
                        state: State::Literal(end),
                        display,
                        sections,
                        unassigned,
                        keyed,
                    };
                    proof {
                        assert(spec_step(v, c) matches Ok(w) && w =~~= out@);
                    }
                    Ok(out)
                } else if c == '#' {
                    let out = Parser {
                        escaped,
                        state: State::Description(start..display.len(), Vec::new()),
                        display,
                        sections,
                        unassigned,
                        keyed,
                    };
                    proof {
                        assert(spec_step(v, c) matches Ok(w) && w =~~= out@);
                    }
                    Ok(out)
                } else {
                    if escaped {
                        display.push('\\');
                    }
                    display.push(c);
                    let out = Parser {
                        escaped: false,
                        state: State::Default(start),
                        display,
                        sections,
                        unassigned,
                        keyed,
                    };
                    proof {
                        assert(spec_step(v, c) matches Ok(w) && w =~~= out@);
                    }
                    Ok(out)
                }
            },
            State::Description(range, mut desc) => {
                if c == '[' {
                    Err(Error::NestedField)
                } else if c == ']' {
                    // Description given, automatic order.
                    let end = display.len();
                    let idx = sections.len();
                    let section = TemplateSection::Input(range, desc);
                    proof {
                        lemma_idx_view_push(unassigned@, idx);
                        lemma_sections_view_push(sections@, section);
                    }
                    unassigned.push(idx);
                    sections.push(section);
                    let out = Parser {
                        escaped,
                        state: State::Literal(end),
                        display,
                        sections,
                        unassigned,
                        keyed,
                    };
                    proof {
                        assert(spec_step(v, c) matches Ok(w) && w =~~= out@);
                    }
                    Ok(out)
                } else if c == '#' {
                    let out = Parser {
                        escaped,
                        state: State::Index(range, desc, None),
                        display,
                        sections,
                        unassigned,
                        keyed,
                    };
                    proof {
                        assert(spec_step(v, c) matches Ok(w) && w =~~= out@);
                    }
                    Ok(out)
                } else {
                    // An ordinary character joins the description; a
                    // backslash that escaped nothing goes to the display.
                    if escaped {
                        display.push('\\');
                    }
                    desc.push(c);
                    let out = Parser {
                        escaped: false,
                        state: State::Description(range, desc),
                        display,
                        sections,
                        unassigned,
                        keyed,
                    };
                    proof {
                        assert(spec_step(v, c) matches Ok(w) && w =~~= out@);
                    }
                    Ok(out)
                }
            },
            State::Index(range, desc, num) => {
                if c == '[' {
                    Err(Error::NestedField)
                } else if c == ']' {
                    match num {
                        None => Err(Error::MissingNumber),
                        Some(acc) => {
                            let key = acc.get();
                            if key == 0 {
                                Err(Error::InvalidNumber)
                            } else {
                                let end = display.len();
                                let idx = sections.len();
                                let section = TemplateSection::Input(range, desc);
                                proof {
                                    lemma_sections_view_push(sections@, section);
                                }
                                keyed_push(&mut keyed, key, idx);
                                sections.push(section);
                                let out = Parser {
                                    escaped,
                                    state: State::Literal(end),
                                    display,
                                    sections,
                                    unassigned,
                                    keyed,
                                };
                                proof {
                                    assert(spec_step(v, c) matches Ok(w) && w =~~= out@);
                                }
                                Ok(out)
                            }
                        },
                    }
                } else if c == '#' {
                    Err(Error::TooManyFields)
                } else {
                    let acc = match num {
                        Some(acc) => acc,
                        None => IncrementalU8::new(),
                    };
                    match acc.read_digit(c) {
                        Err(e) => Err(e),
                        Ok(grown) => {
                            if escaped {
                                display.push('\\');
                            }
                            let out = Parser {
                                escaped: false,
                                state: State::Index(range, desc, Some(grown)),
                                display,
                                sections,
                                unassigned,
                                keyed,
                            };
                            proof {
                                assert(spec_step(v, c) matches Ok(w) && w =~~= out@);
                            }
                            Ok(out)
                        },
                    }
                }
            },
        }
    }
}

/// Merges the explicit-order table with the unassigned fields into the
/// final navigation order; the executable mirror of [`spec_resolve`].
fn resolve_order(keyed: Vec<(u8, Vec<usize>)>, unassigned: Vec<usize>) -> (r: Vec<Vec<usize>>)
    ensures
        order_view(r@) == spec_resolve(keyed_view(keyed@), idx_view(unassigned@), 0),
{
    let ghost kv0 = keyed_view(keyed@);
    let ghost uv = idx_view(unassigned@);
    let mut keyed = keyed;
    let mut result: Vec<Vec<usize>> = Vec::new();
    let mut u: usize = 0;
    proof {
        assert(uv.skip(0) =~= uv);
        assert(order_view(result@) + spec_resolve(keyed_view(keyed@), uv, 0) =~= spec_resolve(
            kv0,
            uv,
            0,
        ));
    }
    while keyed.len() > 0
        invariant
            u <= unassigned@.len(),
            uv == idx_view(unassigned@),
            spec_resolve(kv0, uv, 0) == order_view(result@) + spec_resolve(
                keyed_view(keyed@),
                uv.skip(u as int),
                result@.len() as int,
            ),
        decreases keyed@.len(),
    {
        let ghost kv_before = keyed_view(keyed@);
        let (key, group) = keyed.remove(0);
        let ghost cur = (key as int, idx_view(group@));
        proof {
            assert(kv_before =~= seq![cur] + keyed_view(keyed@));
        }
        let k = key as usize;
        // Fill the gap below this key: unassigned fields become
        // singleton groups until this key's group can land at its own
        // position (or the unassigned fields run out).
        while k >= 1 && result.len() < k - 1 && u < unassigned.len()
            invariant
                u <= unassigned@.len(),
                uv == idx_view(unassigned@),
                k == key as usize,
                cur == (key as int, idx_view(group@)),
                spec_resolve(kv0, uv, 0) == order_view(result@) + spec_resolve(
                    seq![cur] + keyed_view(keyed@),
                    uv.skip(u as int),
                    result@.len() as int,
                ),
            decreases unassigned@.len() - u,
        {
            let ghost emitted = result@.len() as int;
            let ghost u0 = u as int;
            let ghost kvs = seq![cur] + keyed_view(keyed@);
            let mut single: Vec<usize> = Vec::new();
            single.push(unassigned[u]);
            let ghost result_before = result@;
            result.push(single);
            u += 1;
            proof {
                assert(kvs[0] == cur);
                assert(emitted + 1 < cur.0);
                assert(uv.skip(u0)[0] == uv[u0]);
                assert(uv.skip(u0).len() > 0);
                assert(spec_resolve(kvs, uv.skip(u0), emitted) == seq![seq![uv[u0]]]
                    + spec_resolve(kvs, uv.skip(u0).drop_first(), emitted + 1));
                assert(uv.skip(u0).drop_first() =~= uv.skip(u0 + 1));
                assert(order_view(result@) =~~= order_view(result_before).push(seq![uv[u0]]));
                assert(order_view(result_before) + (seq![seq![uv[u0]]] + spec_resolve(
                    kvs,
                    uv.skip(u0 + 1),
                    emitted + 1,
                )) =~= order_view(result@) + spec_resolve(kvs, uv.skip(u0 + 1), emitted + 1));
            }
        }
        let ghost emitted = result@.len() as int;
        let ghost result_before = result@;
        let ghost gv = idx_view(group@);
        result.push(group);
        proof {
            assert((seq![cur] + keyed_view(keyed@)).drop_first() =~= keyed_view(keyed@));
            assert(spec_resolve(seq![cur] + keyed_view(keyed@), uv.skip(u as int), emitted)
                == seq![gv] + spec_resolve(keyed_view(keyed@), uv.skip(u as int), emitted + 1));
            assert(order_view(result@) =~~= order_view(result_before).push(gv));
            assert(order_view(result_before) + (seq![gv] + spec_resolve(
                keyed_view(keyed@),
                uv.skip(u as int),
                emitted + 1,
            )) =~= order_view(result@) + spec_resolve(
                keyed_view(keyed@),
                uv.skip(u as int),
                emitted + 1,
            ));
        }
    }
    // The explicit keys are spent; the remaining unassigned fields trail
    // behind, each as its own group.
    proof {
        assert(keyed_view(keyed@) =~= Seq::<(int, Seq<int>)>::empty());
    }
    while u < unassigned.len()
        invariant
            u <= unassigned@.len(),
            uv == idx_view(unassigned@),
            spec_resolve(kv0, uv, 0) == order_view(result@) + singletons(uv.skip(u as int)),
        decreases unassigned@.len() - u,
    {
        let mut single: Vec<usize> = Vec::new();
        single.push(unassigned[u]);
        let ghost result_before = result@;
        result.push(single);
        u += 1;
        proof {
            assert(order_view(result@) =~~= order_view(result_before).push(
                seq![uv[u as int - 1]],
            ));
            assert(singletons(uv.skip(u as int - 1)) =~= seq![seq![uv[u as int - 1]]]
                + singletons(uv.skip(u as int)));
            assert(order_view(result_before) + (seq![seq![uv[u as int - 1]]] + singletons(
                uv.skip(u as int),
            )) =~= order_view(result@) + singletons(uv.skip(u as int)));
        }
    }
    proof {
        assert(singletons(uv.skip(u as int)) =~= Seq::<Seq<int>>::empty());
        assert(order_view(result@) + Seq::<Seq<int>>::empty() =~= order_view(result@));
    }
    result
}

/// An error that scanning hits on a prefix is the result of the whole
/// scan: the fold propagates it to every longer prefix.
proof fn lemma_run_sticky_error(s: Seq<char>, j: int, e: Error)
    requires
        0 <= j <= s.len(),
        spec_run(s.take(j)) == Err::<ParserView, Error>(e),
    ensures
        spec_run(s) == Err::<ParserView, Error>(e),
    decreases s.len() - j,
{
    if j == s.len() {
        assert(s.take(j) =~= s);
    } else {
        assert(s.take(j + 1).drop_last() =~= s.take(j));
        assert(spec_run(s.take(j + 1)) == Err::<ParserView, Error>(e));
        lemma_run_sticky_error(s, j + 1, e);
    }
}

impl Parser {
    /// Ends the scan: closes the pending literal run, resolves the
    /// navigation order, and hands out the document; the executable
    /// mirror of [`spec_finalize`].
    fn finish(self) -> (r: Result<TemplatedCommand, Error>)
        ensures
            match r {
                Ok(t) => spec_finalize(self@) == Ok::<DocView, Error>(t@),
                Err(e) => spec_finalize(self@) == Err::<DocView, Error>(e),
            },
    {
        let ghost v = self@;
        let Parser { escaped: _, state, display, mut sections, unassigned, keyed } = self;
        match state {
            State::Literal(start) => {
                if start < display.len() {
                    let section = TemplateSection::Literal(start..display.len());
                    proof {
                        lemma_sections_view_push(sections@, section);
                    }
                    sections.push(section);
                }
                let input_order = resolve_order(keyed, unassigned);
                let out = TemplatedCommand { display, sections, input_order };
                proof {
                    assert(spec_finalize(v) matches Ok(d) && d =~~= out@);
                }
                Ok(out)
            },
            _ => Err(Error::UnbalancedDelimiters),
        }
    }
}

/// Parses one line of template text into a [`TemplatedCommand`].
///
/// The input is scanned exactly once, left to right. On success the
/// result is precisely the document that [`spec_parse`] assigns to the
/// input; on failure the error is precisely the one [`spec_parse`]
/// assigns, and nothing is produced.
pub fn parse(s: &str) -> (r: Result<TemplatedCommand, Error>)
    ensures
        match r {
            Ok(t) => spec_parse(s@) == Ok::<DocView, Error>(t@),
            Err(e) => spec_parse(s@) == Err::<DocView, Error>(e),
        },
{
    let n = s.unicode_len();
    let mut p = Parser::new();
    let mut i: usize = 0;
    proof {
        assert(s@.take(0) =~= Seq::<char>::empty());
    }
    while i < n
        invariant
            i <= n,
            n == s@.len(),
            spec_run(s@.take(i as int)) == Ok::<ParserView, Error>(p@),
        decreases n - i,
    {
        let c = s.get_char(i);
        proof {
            assert(s@.take(i as int + 1).drop_last() =~= s@.take(i as int));
            assert(s@.take(i as int + 1).last() == c);
        }
        match p.step(c) {
            Ok(q) => {
                p = q;
            },
            Err(e) => {
                proof {
                    lemma_run_sticky_error(s@, i as int + 1, e);
                }
                return Err(e);
            },
        }
        i += 1;
    }
    proof {
        assert(s@.take(n as int) =~= s@);
    }
    p.finish()
}

} // verus!
