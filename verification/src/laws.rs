//! The laws the template parser obeys, stated and proved against the
//! mathematical model in [`crate::template`].

use vstd::multiset::Multiset;
use vstd::prelude::*;
use vstd::seq_lib::group_seq_properties;

use crate::template::{
    init_view, is_reserved, singletons, spec_keyed_insert, spec_parse, spec_resolve, spec_run,
    spec_step, DocView, Error, ParserView, SectionView, StateView,
};

verus! {

/// While no reserved character has been met, scanning just copies the
/// input into the display text and stays in its opening literal run.
proof fn lemma_plain_prefix(s: Seq<char>, j: int)
    requires
        0 <= j <= s.len(),
        forall|i: int| 0 <= i < s.len() ==> s[i] != '[' && s[i] != ']' && s[i] != '\\',
    ensures
        spec_run(s.take(j)) == Ok::<ParserView, Error>(
            ParserView {
                escaped: false,
                state: StateView::Literal { start: 0 },
                display: s.take(j),
                sections: Seq::empty(),
                unassigned: Seq::empty(),
                keyed: Seq::empty(),
            },
        ),
    decreases j,
{
    if j == 0 {
        assert(s.take(0) =~= Seq::<char>::empty());
        assert(init_view() =~~= ParserView {
            escaped: false,
            state: StateView::Literal { start: 0 },
            display: s.take(0),
            sections: Seq::empty(),
            unassigned: Seq::empty(),
            keyed: Seq::empty(),
        });
    } else {
        lemma_plain_prefix(s, j - 1);
        let c = s[j - 1];
        let prev = ParserView {
            escaped: false,
            state: StateView::Literal { start: 0 },
            display: s.take(j - 1),
            sections: Seq::empty(),
            unassigned: Seq::empty(),
            keyed: Seq::empty(),
        };
        assert(s.take(j).drop_last() =~= s.take(j - 1));
        assert(s.take(j).last() == c);
        assert(spec_step(prev, c) matches Ok(w) && w =~~= ParserView {
            display: s.take(j - 1).push(c),
            ..prev
        });
        assert(s.take(j - 1).push(c) =~= s.take(j));
    }
}

/// Idempotence of re-display: text that contains no field syntax — no
/// delimiter and no escape — parses to itself as one literal section
/// spanning the whole display, with nothing to navigate.
pub proof fn lemma_plain_text_single_literal(s: Seq<char>)
    requires
        s.len() > 0,
        forall|i: int| 0 <= i < s.len() ==> s[i] != '[' && s[i] != ']' && s[i] != '\\',
    ensures
        spec_parse(s) == Ok::<DocView, Error>(
            DocView {
                display: s,
                sections: seq![SectionView::Literal { start: 0, end: s.len() as int }],
                input_order: Seq::empty(),
            },
        ),
{
    lemma_plain_prefix(s, s.len() as int);
    assert(s.take(s.len() as int) =~= s);
    assert(Seq::<SectionView>::empty().push(
        SectionView::Literal { start: 0, end: s.len() as int },
    ) =~= seq![SectionView::Literal { start: 0, end: s.len() as int }]);
    assert(singletons(Seq::<int>::empty()) =~= Seq::<Seq<int>>::empty());
}

/// Escape round-trip: for any reserved character, a backslash followed
/// by that character parses to just that character in the display, with
/// no section boundary introduced.
pub proof fn lemma_escape_round_trip(r: char)
    requires
        is_reserved(r),
    ensures
        spec_parse(seq!['\\', r]) == Ok::<DocView, Error>(
            DocView {
                display: seq![r],
                sections: seq![SectionView::Literal { start: 0, end: 1 }],
                input_order: Seq::empty(),
            },
        ),
{
    let s = seq!['\\', r];
    assert(s.take(1).drop_last() =~= Seq::<char>::empty());
    assert(s.drop_last() =~= s.take(1));
    assert(s.take(1).last() == '\\');
    assert(s.last() == r);
    let after_backslash = ParserView { escaped: true, ..init_view() };
    assert(spec_run(Seq::<char>::empty()) == Ok::<ParserView, Error>(init_view()));
    assert(spec_run(s.take(1)) == Ok::<ParserView, Error>(after_backslash));
    assert(spec_step(after_backslash, r) matches Ok(w) && w =~~= ParserView {
        escaped: false,
        display: seq![r],
        ..init_view()
    });
    assert(Seq::<SectionView>::empty().push(SectionView::Literal { start: 0, end: 1 })
        =~= seq![SectionView::Literal { start: 0, end: 1 }]);
    assert(singletons(Seq::<int>::empty()) =~= Seq::<Seq<int>>::empty());
}

/// Gap-fill ordering: an unnumbered field declared before a field with
/// explicit order `2` and another unnumbered field after it resolve to
/// exactly declaration order — the first fills the gap below the
/// explicit key and the second trails behind.
pub proof fn lemma_gap_fill_order(x: int, y: int, z: int)
    ensures
        spec_resolve(seq![(2int, seq![y])], seq![x, z], 0) == seq![seq![x], seq![y], seq![z]],
{
    let keyed = seq![(2int, seq![y])];
    assert(seq![x, z].drop_first() =~= seq![z]);
    assert(spec_resolve(keyed, seq![x, z], 0) == seq![seq![x]] + spec_resolve(
        keyed,
        seq![z],
        1,
    ));
    assert(keyed.drop_first() =~= Seq::<(int, Seq<int>)>::empty());
    assert(spec_resolve(keyed, seq![z], 1) == seq![seq![y]] + spec_resolve(
        Seq::<(int, Seq<int>)>::empty(),
        seq![z],
        2,
    ));
    assert(spec_resolve(Seq::<(int, Seq<int>)>::empty(), seq![z], 2) =~= seq![seq![z]]);
    assert(seq![seq![x]] + (seq![seq![y]] + seq![seq![z]]) =~= seq![
        seq![x],
        seq![y],
        seq![z],
    ]);
}

/// Duplicate order grouping: two fields declared with the same explicit
/// order land in one table entry, in declaration order, and resolve to a
/// single navigation group holding both.
pub proof fn lemma_duplicate_order_groups(key: int, first: int, second: int)
    requires
        key >= 1,
    ensures
        spec_keyed_insert(spec_keyed_insert(Seq::empty(), key, first), key, second) == seq![
            (key, seq![first, second]),
        ],
        spec_resolve(seq![(key, seq![first, second])], Seq::empty(), 0) == seq![
            seq![first, second],
        ],
{
    assert(spec_keyed_insert(Seq::empty(), key, first) == seq![(key, seq![first])]);
    let once = seq![(key, seq![first])];
    assert(spec_keyed_insert(once, key, second) =~~= seq![(key, seq![first, second])]);
    let keyed = seq![(key, seq![first, second])];
    assert(keyed.drop_first() =~= Seq::<(int, Seq<int>)>::empty());
    assert(spec_resolve(keyed, Seq::empty(), 0) == seq![seq![first, second]] + spec_resolve(
        Seq::<(int, Seq<int>)>::empty(),
        Seq::empty(),
        1,
    ));
    assert(singletons(Seq::<int>::empty()) =~= Seq::<Seq<int>>::empty());
    assert(seq![seq![first, second]] + Seq::<Seq<int>>::empty() =~= seq![
        seq![first, second],
    ]);
}

// ===== Balance invariant: the sections tile the display text =====

/// Where a section's span begins.
pub open spec fn section_start(s: SectionView) -> int {
    match s {
        SectionView::Literal { start, .. } => start,
        SectionView::Input { start, .. } => start,
    }
}

/// Where a section's span ends.
pub open spec fn section_end(s: SectionView) -> int {
    match s {
        SectionView::Literal { end, .. } => end,
        SectionView::Input { end, .. } => end,
    }
}

/// The sections tile `[0, total)` from left to right: every span is
/// well-formed, each begins where the previous one ends, the first
/// begins at `0` and the last ends at `total` — no gaps, no overlaps.
pub open spec fn spans_partition(sections: Seq<SectionView>, total: int) -> bool {
    &&& forall|i: int|
        0 <= i < sections.len() ==> section_start(#[trigger] sections[i]) <= section_end(
            sections[i],
        )
    &&& forall|i: int|
        0 < i < sections.len() ==> section_start(#[trigger] sections[i]) == section_end(
            sections[i - 1],
        )
    &&& if sections.len() == 0 {
        total == 0
    } else {
        section_start(sections[0]) == 0 && section_end(sections[sections.len() - 1]) == total
    }
}

/// A partition grows by one section that begins exactly at its end.
proof fn lemma_partition_extend(sections: Seq<SectionView>, total: int, section: SectionView)
    requires
        spans_partition(sections, total),
        section_start(section) == total,
        section_start(section) <= section_end(section),
    ensures
        spans_partition(sections.push(section), section_end(section)),
{
    let grown = sections.push(section);
    assert(forall|i: int| 0 <= i < sections.len() ==> grown[i] == sections[i]);
    assert(grown[sections.len() as int] == section);
}

/// No escape is consumed while a field's description or tab-order number
/// is being read. Escapes there put characters into the display text
/// outside every section span, which is exactly what the balance
/// invariant excludes.
pub open spec fn no_field_escapes(s: Seq<char>) -> bool
    decreases s.len(),
{
    if s.len() == 0 {
        true
    } else {
        no_field_escapes(s.drop_last()) && match spec_run(s.drop_last()) {
            Ok(v) => !(s.last() == '\\' && (v.state is Description || v.state is Index)),
            Err(_) => true,
        }
    }
}

/// The structural invariant that scanning keeps while no escape is
/// consumed inside a field: the emitted sections tile the display up to
/// the open phase's start, and in the description and index phases the
/// display has not grown past the field's fixed span.
spec fn tidy(v: ParserView) -> bool {
    match v.state {
        StateView::Literal { start } => {
            &&& spans_partition(v.sections, start)
            &&& start <= v.display.len()
        },
        StateView::Default { start } => {
            &&& spans_partition(v.sections, start)
            &&& start <= v.display.len()
        },
        StateView::Description { start, end, .. } => {
            &&& spans_partition(v.sections, start)
            &&& start <= end
            &&& end == v.display.len()
            &&& !v.escaped
        },
        StateView::Index { start, end, .. } => {
            &&& spans_partition(v.sections, start)
            &&& start <= end
            &&& end == v.display.len()
            &&& !v.escaped
        },
    }
}

/// One clean step keeps the scanner tidy.
proof fn lemma_step_preserves_tidy(v: ParserView, c: char, w: ParserView)
    requires
        tidy(v),
        spec_step(v, c) == Ok::<ParserView, Error>(w),
        !(c == '\\' && (v.state is Description || v.state is Index)),
    ensures
        tidy(w),
{
    if v.escaped && is_reserved(c) {
    } else if c == '\\' {
    } else {
        match v.state {
            StateView::Literal { start } => {
                if c == '[' {
                    if start < v.display.len() {
                        lemma_partition_extend(
                            v.sections,
                            start,
                            SectionView::Literal { start, end: v.display.len() as int },
                        );
                    }
                }
            },
            StateView::Default { start } => {
                if c == ']' {
                    lemma_partition_extend(
                        v.sections,
                        start,
                        SectionView::Input {
                            start,
                            end: v.display.len() as int,
                            desc: Seq::empty(),
                        },
                    );
                }
            },
            StateView::Description { start, end, desc } => {
                if c == ']' {
                    lemma_partition_extend(
                        v.sections,
                        start,
                        SectionView::Input { start, end, desc },
                    );
                }
            },
            StateView::Index { start, end, desc, num } => {
                if c == ']' {
                    if num matches Some(key) && key != 0 {
                        lemma_partition_extend(
                            v.sections,
                            start,
                            SectionView::Input { start, end, desc },
                        );
                    }
                }
            },
        }
    }
}

/// A clean scan is tidy at every prefix.
proof fn lemma_run_tidy(s: Seq<char>, v: ParserView)
    requires
        no_field_escapes(s),
        spec_run(s) == Ok::<ParserView, Error>(v),
    ensures
        tidy(v),
    decreases s.len(),
{
    if s.len() == 0 {
        assert(v == init_view());
        assert(spans_partition(v.sections, 0));
    } else {
        match spec_run(s.drop_last()) {
            Ok(prev) => {
                lemma_run_tidy(s.drop_last(), prev);
                lemma_step_preserves_tidy(prev, s.last(), v);
            },
            Err(e) => {
                assert(false);
            },
        }
    }
}

/// Balance invariant, first half: on any input free of escapes inside
/// field suffixes, a successful parse yields sections whose spans tile
/// the display text exactly — no gaps and no overlaps.
pub proof fn lemma_sections_partition(s: Seq<char>, doc: DocView)
    requires
        no_field_escapes(s),
        spec_parse(s) == Ok::<DocView, Error>(doc),
    ensures
        spans_partition(doc.sections, doc.display.len() as int),
{
    match spec_run(s) {
        Ok(v) => {
            lemma_run_tidy(s, v);
            match v.state {
                StateView::Literal { start } => {
                    if start < v.display.len() {
                        lemma_partition_extend(
                            v.sections,
                            start,
                            SectionView::Literal { start, end: v.display.len() as int },
                        );
                    }
                },
                _ => {
                    assert(false);
                },
            }
        },
        Err(e) => {
            assert(false);
        },
    }
}

// ===== Balance invariant: navigation covers each input exactly once =====

/// The indices of the input sections, in increasing order.
pub open spec fn input_indices(sections: Seq<SectionView>) -> Seq<int>
    decreases sections.len(),
{
    if sections.len() == 0 {
        Seq::empty()
    } else if sections.last() is Input {
        input_indices(sections.drop_last()).push(sections.len() - 1)
    } else {
        input_indices(sections.drop_last())
    }
}

/// The groups of the explicit-order table, keys forgotten.
pub open spec fn groups_of(keyed: Seq<(int, Seq<int>)>) -> Seq<Seq<int>> {
    keyed.map_values(|entry: (int, Seq<int>)| entry.1)
}

/// Every section index the scanner has recorded for navigation so far,
/// with multiplicity.
pub open spec fn recorded_indices(v: ParserView) -> Multiset<int> {
    v.unassigned.to_multiset().add(groups_of(v.keyed).flatten().to_multiset())
}

/// What [`input_indices`] holds: exactly the positions of the input
/// sections, each once, in strictly increasing order.
pub proof fn lemma_input_indices_characterize(sections: Seq<SectionView>)
    ensures
        forall|t: int| #[trigger]
            input_indices(sections).contains(t) <==> (0 <= t < sections.len()
                && sections[t] is Input),
        forall|i: int, j: int|
            0 <= i < j < input_indices(sections).len() ==> #[trigger] input_indices(
                sections,
            )[i] < #[trigger] input_indices(sections)[j],
        forall|i: int|
            0 <= i < input_indices(sections).len() ==> 0 <= #[trigger] input_indices(
                sections,
            )[i] < sections.len(),
    decreases sections.len(),
{
    broadcast use group_seq_properties;

    if sections.len() == 0 {
    } else {
        let prefix = sections.drop_last();
        lemma_input_indices_characterize(prefix);
        assert(forall|t: int|
            0 <= t < prefix.len() ==> #[trigger] prefix[t] == sections[t]);
        if sections.last() is Input {
            let grown = input_indices(prefix).push(sections.len() - 1);
            assert(forall|t: int| #[trigger]
                grown.contains(t) <==> (input_indices(prefix).contains(t) || t == sections.len()
                    - 1)) by {
                assert(forall|t: int|
                    input_indices(prefix).contains(t) ==> #[trigger] grown.contains(t));
                assert(grown.contains(grown.last()));
            }
        }
    }
}

proof fn lemma_seq_empty_to_multiset<A>()
    ensures
        Seq::<A>::empty().to_multiset() =~= Multiset::<A>::empty(),
{
    broadcast use vstd::seq_lib::group_to_multiset_ensures;

    assert(Seq::<A>::empty().to_multiset().len() == 0);
}

/// Flattening the singleton groups of a sequence gives the sequence back.
proof fn lemma_flatten_singletons(indices: Seq<int>)
    ensures
        singletons(indices).flatten() =~= indices,
    decreases indices.len(),
{
    if indices.len() == 0 {
    } else {
        lemma_flatten_singletons(indices.drop_first());
        assert(singletons(indices).first() == seq![indices[0]]);
        assert(singletons(indices).drop_first() =~= singletons(indices.drop_first()));
        assert(singletons(indices).flatten() =~= seq![indices[0]] + singletons(
            indices.drop_first(),
        ).flatten());
        assert(seq![indices[0]] + indices.drop_first() =~= indices);
    }
}

/// Flattening a table that grew by one index under some key adds exactly
/// that index, once.
proof fn lemma_keyed_insert_multiset(keyed: Seq<(int, Seq<int>)>, key: int, idx: int)
    ensures
        groups_of(spec_keyed_insert(keyed, key, idx)).flatten().to_multiset() =~= groups_of(
            keyed,
        ).flatten().to_multiset().insert(idx),
    decreases keyed.len(),
{
    broadcast use vstd::seq_lib::group_to_multiset_ensures;

    if keyed.len() == 0 {
        assert(groups_of(keyed) =~= Seq::<Seq<int>>::empty());
        assert(groups_of(spec_keyed_insert(keyed, key, idx)) =~= seq![seq![idx]]);
        assert(seq![seq![idx]].flatten() =~= seq![idx]) by {
            assert(seq![seq![idx]].drop_first() =~= Seq::<Seq<int>>::empty());
        }
        assert(seq![idx] =~= Seq::<int>::empty().push(idx));
        lemma_seq_empty_to_multiset::<int>();
    } else if key < keyed[0].0 {
        let grown = spec_keyed_insert(keyed, key, idx);
        assert(grown == seq![(key, seq![idx])] + keyed);
        assert(groups_of(grown) =~= seq![seq![idx]] + groups_of(keyed));
        assert(groups_of(grown).flatten() =~= seq![idx] + groups_of(keyed).flatten()) by {
            assert((seq![seq![idx]] + groups_of(keyed)).drop_first() =~= groups_of(keyed));
        }
        vstd::seq_lib::lemma_multiset_commutative(seq![idx], groups_of(keyed).flatten());
        assert(seq![idx] =~= Seq::<int>::empty().push(idx));
        lemma_seq_empty_to_multiset::<int>();
        assert(Multiset::<int>::empty().insert(idx).add(groups_of(keyed).flatten().to_multiset())
            =~= groups_of(keyed).flatten().to_multiset().insert(idx));
    } else if key == keyed[0].0 {
        let grown = spec_keyed_insert(keyed, key, idx);
        let rest = keyed.drop_first();
        assert(grown == seq![(keyed[0].0, keyed[0].1.push(idx))] + rest);
        assert(groups_of(grown) =~= seq![keyed[0].1.push(idx)] + groups_of(rest));
        assert(groups_of(grown).flatten() =~= keyed[0].1.push(idx) + groups_of(
            rest,
        ).flatten()) by {
            assert((seq![keyed[0].1.push(idx)] + groups_of(rest)).drop_first() =~= groups_of(
                rest,
            ));
        }
        assert(groups_of(keyed) =~= seq![keyed[0].1] + groups_of(rest));
        assert(groups_of(keyed).flatten() =~= keyed[0].1 + groups_of(rest).flatten()) by {
            assert((seq![keyed[0].1] + groups_of(rest)).drop_first() =~= groups_of(rest));
        }
        vstd::seq_lib::lemma_multiset_commutative(keyed[0].1.push(idx), groups_of(rest).flatten());
        vstd::seq_lib::lemma_multiset_commutative(keyed[0].1, groups_of(rest).flatten());
        assert(keyed[0].1.push(idx).to_multiset() =~= keyed[0].1.to_multiset().insert(idx));
        assert(keyed[0].1.to_multiset().insert(idx).add(groups_of(rest).flatten().to_multiset())
            =~= keyed[0].1.to_multiset().add(groups_of(rest).flatten().to_multiset()).insert(idx));
    } else {
        let rest = keyed.drop_first();
        lemma_keyed_insert_multiset(rest, key, idx);
        let grown = spec_keyed_insert(keyed, key, idx);
        assert(grown == seq![keyed[0]] + spec_keyed_insert(rest, key, idx));
        assert(groups_of(grown) =~= seq![keyed[0].1] + groups_of(spec_keyed_insert(rest, key, idx)));
        assert(groups_of(grown).flatten() =~= keyed[0].1 + groups_of(
            spec_keyed_insert(rest, key, idx),
        ).flatten()) by {
            assert((seq![keyed[0].1] + groups_of(spec_keyed_insert(rest, key, idx))).drop_first()
                =~= groups_of(spec_keyed_insert(rest, key, idx)));
        }
        assert(groups_of(keyed) =~= seq![keyed[0].1] + groups_of(rest));
        assert(groups_of(keyed).flatten() =~= keyed[0].1 + groups_of(rest).flatten()) by {
            assert((seq![keyed[0].1] + groups_of(rest)).drop_first() =~= groups_of(rest));
        }
        vstd::seq_lib::lemma_multiset_commutative(
            keyed[0].1,
            groups_of(spec_keyed_insert(rest, key, idx)).flatten(),
        );
        vstd::seq_lib::lemma_multiset_commutative(keyed[0].1, groups_of(rest).flatten());
        assert(keyed[0].1.to_multiset().add(
            groups_of(rest).flatten().to_multiset().insert(idx),
        ) =~= keyed[0].1.to_multiset().add(groups_of(rest).flatten().to_multiset()).insert(idx));
    }
}

/// One step keeps the recorded indices in lockstep with the input
/// sections: whenever an input section is emitted its index is recorded
/// exactly once, and nothing else is ever recorded.
proof fn lemma_step_preserves_recorded(v: ParserView, c: char, w: ParserView)
    requires
        recorded_indices(v) == input_indices(v.sections).to_multiset(),
        spec_step(v, c) == Ok::<ParserView, Error>(w),
    ensures
        recorded_indices(w) == input_indices(w.sections).to_multiset(),
{
    broadcast use vstd::seq_lib::group_to_multiset_ensures;

    if v.escaped && is_reserved(c) {
    } else if c == '\\' {
    } else {
        match v.state {
            StateView::Literal { start } => {
                if c == '[' && start < v.display.len() {
                    let section = SectionView::Literal { start, end: v.display.len() as int };
                    assert(v.sections.push(section).drop_last() =~= v.sections);
                    assert(input_indices(v.sections.push(section)) == input_indices(v.sections));
                }
            },
            StateView::Default { start } => {
                if c == ']' {
                    lemma_close_unassigned_recorded(
                        v,
                        start,
                        v.display.len() as int,
                        Seq::empty(),
                    );
                }
            },
            StateView::Description { start, end, desc } => {
                if c == ']' {
                    lemma_close_unassigned_recorded(v, start, end, desc);
                }
            },
            StateView::Index { start, end, desc, num } => {
                if c == ']' {
                    match num {
                        Some(key) => {
                            if key != 0 {
                                let n = v.sections.len() as int;
                                let section = SectionView::Input { start, end, desc };
                                assert(w == crate::template::spec_close_keyed(
                                    v,
                                    start,
                                    end,
                                    desc,
                                    key,
                                ));
                                assert(v.sections.push(section).drop_last() =~= v.sections);
                                assert(input_indices(w.sections) == input_indices(
                                    v.sections,
                                ).push(n));
                                lemma_keyed_insert_multiset(v.keyed, key, n);
                                assert(v.unassigned.to_multiset().add(
                                    groups_of(v.keyed).flatten().to_multiset().insert(n),
                                ) =~= recorded_indices(v).insert(n));
                                assert(input_indices(v.sections).push(n).to_multiset()
                                    =~= input_indices(v.sections).to_multiset().insert(n));
                            }
                        },
                        None => {},
                    }
                }
            },
        }
    }
}

/// Closing a field as unassigned records its index exactly once.
proof fn lemma_close_unassigned_recorded(v: ParserView, start: int, end: int, desc: Seq<char>)
    requires
        recorded_indices(v) == input_indices(v.sections).to_multiset(),
    ensures
        ({
            let w = crate::template::spec_close_unassigned(v, start, end, desc);
            recorded_indices(w) == input_indices(w.sections).to_multiset()
        }),
{
    broadcast use vstd::seq_lib::group_to_multiset_ensures;

    let w = crate::template::spec_close_unassigned(v, start, end, desc);
    let n = v.sections.len() as int;
    let section = SectionView::Input { start, end, desc };
    assert(v.sections.push(section).drop_last() =~= v.sections);
    assert(input_indices(w.sections) == input_indices(v.sections).push(n));
    assert(v.unassigned.push(n).to_multiset() =~= v.unassigned.to_multiset().insert(n));
    assert(v.unassigned.to_multiset().insert(n).add(groups_of(v.keyed).flatten().to_multiset())
        =~= recorded_indices(v).insert(n));
    assert(input_indices(v.sections).push(n).to_multiset() =~= input_indices(
        v.sections,
    ).to_multiset().insert(n));
}

/// Scanning any input keeps the recorded indices exact.
proof fn lemma_run_recorded(s: Seq<char>, v: ParserView)
    requires
        spec_run(s) == Ok::<ParserView, Error>(v),
    ensures
        recorded_indices(v) == input_indices(v.sections).to_multiset(),
    decreases s.len(),
{
    if s.len() == 0 {
        assert(v == init_view());
        lemma_seq_empty_to_multiset::<int>();
        assert(groups_of(v.keyed) =~= Seq::<Seq<int>>::empty());
        assert(recorded_indices(v) =~= Multiset::<int>::empty());
        assert(input_indices(v.sections).to_multiset() =~= Multiset::<int>::empty());
    } else {
        match spec_run(s.drop_last()) {
            Ok(prev) => {
                lemma_run_recorded(s.drop_last(), prev);
                lemma_step_preserves_recorded(prev, s.last(), v);
            },
            Err(e) => {
                assert(false);
            },
        }
    }
}

/// Resolving the navigation order neither loses nor duplicates an index:
/// the result holds exactly the keyed indices and the unassigned ones.
proof fn lemma_resolve_multiset(keyed: Seq<(int, Seq<int>)>, unassigned: Seq<int>, emitted: int)
    ensures
        spec_resolve(keyed, unassigned, emitted).flatten().to_multiset() =~= groups_of(
            keyed,
        ).flatten().to_multiset().add(unassigned.to_multiset()),
    decreases keyed.len(), crate::template::gap_to_key(keyed, emitted),
{
    broadcast use vstd::seq_lib::group_to_multiset_ensures;

    if keyed.len() == 0 {
        lemma_flatten_singletons(unassigned);
        assert(groups_of(keyed) =~= Seq::<Seq<int>>::empty());
        lemma_seq_empty_to_multiset::<int>();
    } else if emitted + 1 < keyed[0].0 && unassigned.len() > 0 {
        lemma_resolve_multiset(keyed, unassigned.drop_first(), emitted + 1);
        let rest = spec_resolve(keyed, unassigned.drop_first(), emitted + 1);
        let whole = seq![seq![unassigned[0]]] + rest;
        assert(spec_resolve(keyed, unassigned, emitted) == whole);
        assert(whole.flatten() =~= seq![unassigned[0]] + rest.flatten()) by {
            assert(whole.drop_first() =~= rest);
        }
        vstd::seq_lib::lemma_multiset_commutative(seq![unassigned[0]], rest.flatten());
        assert(seq![unassigned[0]] =~= Seq::<int>::empty().push(unassigned[0]));
        lemma_seq_empty_to_multiset::<int>();
        assert(seq![unassigned[0]] + unassigned.drop_first() =~= unassigned);
        vstd::seq_lib::lemma_multiset_commutative(seq![unassigned[0]], unassigned.drop_first());
        assert(whole.flatten().to_multiset() =~= groups_of(keyed).flatten().to_multiset().add(
            unassigned.to_multiset(),
        ));
    } else {
        lemma_resolve_multiset(keyed.drop_first(), unassigned, emitted + 1);
        let rest = spec_resolve(keyed.drop_first(), unassigned, emitted + 1);
        let whole = seq![keyed[0].1] + rest;
        assert(spec_resolve(keyed, unassigned, emitted) == whole);
        assert(whole.flatten() =~= keyed[0].1 + rest.flatten()) by {
            assert(whole.drop_first() =~= rest);
        }
        vstd::seq_lib::lemma_multiset_commutative(keyed[0].1, rest.flatten());
        assert(groups_of(keyed) =~= seq![keyed[0].1] + groups_of(keyed.drop_first()));
        assert(groups_of(keyed).flatten() =~= keyed[0].1 + groups_of(
            keyed.drop_first(),
        ).flatten()) by {
            assert((seq![keyed[0].1] + groups_of(keyed.drop_first())).drop_first() =~= groups_of(
                keyed.drop_first(),
            ));
        }
        vstd::seq_lib::lemma_multiset_commutative(
            keyed[0].1,
            groups_of(keyed.drop_first()).flatten(),
        );
        assert(whole.flatten().to_multiset() =~= groups_of(keyed).flatten().to_multiset().add(
            unassigned.to_multiset(),
        ));
    }
}

/// Balance invariant, second half: on any successful parse, the indices
/// across all navigation groups are exactly the indices of the input
/// sections — each input section is navigated to exactly once, and only
/// input sections are.
pub proof fn lemma_navigation_exact(s: Seq<char>, doc: DocView)
    requires
        spec_parse(s) == Ok::<DocView, Error>(doc),
    ensures
        doc.input_order.flatten().to_multiset() == input_indices(doc.sections).to_multiset(),
        forall|t: int| #[trigger]
            doc.input_order.flatten().contains(t) ==> (0 <= t < doc.sections.len()
                && doc.sections[t] is Input),
{
    broadcast use vstd::seq_lib::group_to_multiset_ensures;

    match spec_run(s) {
        Ok(v) => {
            lemma_run_recorded(s, v);
            match v.state {
                StateView::Literal { start } => {
                    if start < v.display.len() {
                        let section = SectionView::Literal {
                            start,
                            end: v.display.len() as int,
                        };
                        assert(v.sections.push(section).drop_last() =~= v.sections);
                        assert(input_indices(doc.sections) == input_indices(v.sections));
                    }
                    lemma_resolve_multiset(v.keyed, v.unassigned, 0);
                    assert(doc.input_order.flatten().to_multiset() =~= input_indices(
                        doc.sections,
                    ).to_multiset()) by {
                        assert(groups_of(v.keyed).flatten().to_multiset().add(
                            v.unassigned.to_multiset(),
                        ) =~= recorded_indices(v));
                    }
                },
                _ => {
                    assert(false);
                },
            }
            lemma_input_indices_characterize(doc.sections);
            assert forall|t: int| #[trigger]
                doc.input_order.flatten().contains(t) implies (0 <= t < doc.sections.len()
                && doc.sections[t] is Input) by {
                assert(doc.input_order.flatten().to_multiset().count(t) > 0);
                assert(input_indices(doc.sections).to_multiset().count(t) > 0);
                assert(input_indices(doc.sections).contains(t));
            }
        },
        Err(e) => {
            assert(false);
        },
    }
}

} // verus!
