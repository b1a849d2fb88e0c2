//! What is written reads back: records that a store or a typed view wrote
//! decode to the parameters that they were written from.

use vstd::prelude::*;
use crate::error::{C3dParseError, C3dWriteError};
use crate::grids::GridView;
use crate::names::{same_name, valid_name};
use crate::parameter::{lemma_product_of_two, plain, DataView, ParameterView};
use crate::parameters::{
    decode_from, decode_section, entries_bytes, groups_bytes, parameters_bytes,
    lemma_entries_bytes_concat,
    lemma_entry_index, lemma_group_index, lemma_id_index, lemma_lookup, lemma_single_entry,
    lemma_without, GroupView, ParametersView,
};
use crate::processor::{lemma_read_back, Processor};
use crate::record::{
    group_record, held_by, lemma_parse_group_record, lemma_parse_parameter_record,
    lemma_parse_prefix, lemma_parsed, name_len, parse_record, RecordView,
};
use crate::seg::{
    extract, field_names, found, group_name, lemma_mismatch_is_first, lemma_names,
    lemma_no_mismatch, mismatch, read_float, read_grid, taken, SegView,
};

verus! {

impl ParametersView {
    /// The store with `entries` as the parameters of its group number `i`.
    pub open spec fn with_group(self, i: int, entries: Seq<(Seq<u8>, ParameterView)>) -> ParametersView {
        ParametersView { groups: self.groups.update(i, GroupView { entries, ..self.groups[i] }) }
    }

    /// The store with the parameters `more` added at the end of its group
    /// number `i`.
    pub open spec fn with_entries(self, i: int, more: Seq<(Seq<u8>, ParameterView)>) -> ParametersView {
        ParametersView {
            groups: self.groups.update(
                i,
                GroupView { entries: self.groups[i].entries + more, ..self.groups[i] },
            ),
        }
    }
}

/// A store is well-formed, and its floats are held, if it is so with more
/// parameters at the end of one group.
proof fn lemma_fewer_entries(
    processor: Processor,
    store: ParametersView,
    i: int,
    more: Seq<(Seq<u8>, ParameterView)>,
    k: int,
)
    requires
        0 <= i < store.groups.len(),
        0 <= k <= more.len(),
        store.with_entries(i, more).wf(),
        store.with_entries(i, more).held_by(processor),
    ensures
        store.with_entries(i, more.take(k)).wf(),
        store.with_entries(i, more.take(k)).held_by(processor),
{
    let full = store.with_entries(i, more);
    let part = store.with_entries(i, more.take(k));
    let g = part.groups[i];
    let h = full.groups[i];
    assert(h.wf() && h.held_by(processor));
    assert forall|j: int| 0 <= j < g.entries.len() implies valid_name((#[trigger] g.entries[j]).0)
        && g.entries[j].1.wf() && g.entries[j].1.data.held_by(processor) by {
        assert(h.entries[j] == g.entries[j]);
    }
    assert forall|j: int, k: int| 0 <= j < k < g.entries.len() implies !same_name(
        (#[trigger] g.entries[j]).0,
        (#[trigger] g.entries[k]).0,
    ) by {
        assert(h.entries[j] == g.entries[j]);
        assert(h.entries[k] == g.entries[k]);
    }
    assert(g.wf() && g.held_by(processor));
    assert forall|a: int| 0 <= a < part.groups.len() implies (#[trigger] part.groups[a]).wf()
        && part.groups[a].held_by(processor) by {
        if a != i {
            assert(full.groups[a] == part.groups[a]);
            assert(full.groups[a].wf());
        }
    }
    assert forall|a: int, b: int| 0 <= a < b < part.groups.len() implies (#[trigger] part.groups[a]).id
        != (#[trigger] part.groups[b]).id && !same_name(part.groups[a].name, part.groups[b].name) by {
        assert(full.groups[a].id == part.groups[a].id);
        assert(full.groups[b].id == part.groups[b].id);
        assert(full.groups[a].name == part.groups[a].name);
        assert(full.groups[b].name == part.groups[b].name);
    }
}

/// Adding no parameters leaves a store as it is.
proof fn lemma_no_entries(store: ParametersView, i: int)
    requires
        0 <= i < store.groups.len(),
    ensures
        store.with_entries(i, Seq::empty()) == store,
{
    assert(store.groups[i].entries + Seq::<(Seq<u8>, ParameterView)>::empty() =~= store.groups[i].entries);
    assert(store.with_entries(i, Seq::empty()).groups =~= store.groups);
}

/// Adding parameters one after the other is adding them all.
proof fn lemma_entries_in_turn(
    store: ParametersView,
    i: int,
    first: Seq<(Seq<u8>, ParameterView)>,
    then: Seq<(Seq<u8>, ParameterView)>,
)
    requires
        0 <= i < store.groups.len(),
    ensures
        store.with_entries(i, first).with_entries(i, then) == store.with_entries(i, first + then),
{
    let g = store.groups[i];
    assert((g.entries + first) + then =~= g.entries + (first + then));
    assert(store.with_entries(i, first).with_entries(i, then).groups =~= store.with_entries(
        i,
        first + then,
    ).groups);
}

/// A store takes in the record of a parameter that is new in its group: the
/// parameter comes last in the group.
proof fn lemma_absorb_parameter(store: ParametersView, i: int, name: Seq<u8>, parameter: ParameterView)
    requires
        0 <= i < store.groups.len(),
        store.wf(),
        store.with_entries(i, seq![(name, parameter)]).wf(),
    ensures
        store.absorb(RecordView::Parameter { group_id: store.groups[i].id, name, parameter }) == Some(
            store.with_entries(i, seq![(name, parameter)]),
        ),
{
    let g = store.groups[i];
    let next = store.with_entries(i, seq![(name, parameter)]);
    let n0 = g.entries.len() as int;
    lemma_id_index(store, g.id, i);
    assert(next.groups[i].wf());
    assert(next.groups[i].entries[n0] == (name, parameter));
    assert forall|j: int| 0 <= j < g.entries.len() implies !same_name((#[trigger] g.entries[j]).0, name) by {
        assert(next.groups[i].entries[j] == g.entries[j]);
    }
    assert(g.entries + seq![(name, parameter)] =~= g.entries.push((name, parameter)));
}

/// A store takes in the record of a group that is new: the group comes
/// last, without parameters.
proof fn lemma_absorb_group(store: ParametersView, group: GroupView)
    requires
        (ParametersView { groups: store.groups.push(group) }).wf(),
    ensures
        store.absorb(
            RecordView::Group {
                id: group.id,
                name: group.name,
                locked: group.locked,
                description: group.description,
            },
        ) == Some(
            ParametersView {
                groups: store.groups.push(GroupView { entries: Seq::empty(), ..group }),
            },
        ),
{
    let full = ParametersView { groups: store.groups.push(group) };
    let n0 = store.groups.len() as int;
    assert(full.groups[n0] == group);
    assert forall|k: int| 0 <= k < store.groups.len() implies (#[trigger] store.groups[k]).id
        != group.id && !same_name(store.groups[k].name, group.name) by {
        assert(full.groups[k] == store.groups[k]);
    }
}

/// Decoding goes on behind a record that reads well and fits the store.
proof fn lemma_decode_step(
    processor: Processor,
    bytes: Seq<u8>,
    store: ParametersView,
    record: RecordView,
    len: nat,
    next: ParametersView,
)
    requires
        parse_record(processor, bytes) == Some((record, len)),
        0 < len <= bytes.len(),
        store.absorb(record) == Some(next),
    ensures
        decode_from(processor, bytes, store) == decode_from(
            processor,
            bytes.subrange(len as int, bytes.len() as int),
            next,
        ),
{
}

/// The records of parameters of one group, read after the records that gave
/// `store`, add these parameters at the end of that group, in their order.
pub proof fn lemma_decode_entries(
    processor: Processor,
    store: ParametersView,
    i: int,
    more: Seq<(Seq<u8>, ParameterView)>,
    rest: Seq<u8>,
)
    requires
        0 <= i < store.groups.len(),
        store.with_entries(i, more).wf(),
        store.with_entries(i, more).held_by(processor),
    ensures
        decode_from(processor, entries_bytes(processor, store.groups[i].id, more) + rest, store)
            == decode_from(processor, rest, store.with_entries(i, more)),
    decreases more.len(),
{
    let id = store.groups[i].id;
    let bytes = entries_bytes(processor, id, more) + rest;
    if more.len() == 0 {
        assert(bytes =~= rest);
        assert(more =~= Seq::empty());
        lemma_no_entries(store, i);
    } else {
        let e = more[0];
        let tail = more.drop_first();
        let record = e.1.record(processor, e.0, id, e.1.locked);
        let after = entries_bytes(processor, id, tail) + rest;
        let next = store.with_entries(i, seq![e]);
        let read = RecordView::Parameter { group_id: id, name: e.0, parameter: e.1 };
        assert(bytes =~= record + after);
        assert(more.take(0) =~= Seq::empty());
        assert(more.take(1) =~= seq![e]);
        assert(seq![e] + tail =~= more);
        lemma_fewer_entries(processor, store, i, more, 0);
        lemma_no_entries(store, i);
        lemma_fewer_entries(processor, store, i, more, 1);
        lemma_entries_in_turn(store, i, seq![e], tail);
        lemma_absorb_parameter(store, i, e.0, e.1);
        assert(parse_record(processor, bytes) == Some((read, record.len())) && record.len() > 0) by {
            let n0 = store.groups[i].entries.len() as int;
            assert(next.groups[i].wf() && next.groups[i].held_by(processor));
            assert(next.groups[i].entries[n0] == e);
            assert(store.groups[i].wf());
            lemma_parse_parameter_record(processor, e.1, e.0, id, e.1.locked, after);
            assert((ParameterView { locked: e.1.locked, ..e.1 }) == e.1);
        }
        assert(bytes.subrange(record.len() as int, bytes.len() as int) =~= after);
        lemma_decode_step(processor, bytes, store, read, record.len(), next);
        lemma_decode_entries(processor, next, i, tail, rest);
    }
}

/// The records of one whole group, read after the records that gave
/// `before`, add this group after those of `before`.
pub proof fn lemma_decode_group(processor: Processor, before: ParametersView, group: GroupView, rest: Seq<u8>)
    requires
        (ParametersView { groups: before.groups.push(group) }).wf(),
        (ParametersView { groups: before.groups.push(group) }).held_by(processor),
    ensures
        decode_from(processor, group.bytes(processor) + rest, before) == decode_from(
            processor,
            rest,
            ParametersView { groups: before.groups.push(group) },
        ),
{
    let grown = ParametersView { groups: before.groups.push(group) };
    let n0 = before.groups.len() as int;
    let header = group_record(processor, group.name, group.id, group.locked, group.description);
    let entries = entries_bytes(processor, group.id, group.entries);
    let bytes = group.bytes(processor) + rest;
    let read = RecordView::Group {
        id: group.id,
        name: group.name,
        locked: group.locked,
        description: group.description,
    };
    let bare = GroupView { entries: Seq::empty(), ..group };
    let started = ParametersView { groups: before.groups.push(bare) };
    assert(bytes =~= header + (entries + rest));
    assert(started.with_entries(n0, group.entries) == grown) by {
        assert(bare.entries + group.entries =~= group.entries);
        assert(started.with_entries(n0, group.entries).groups =~= grown.groups);
    }
    lemma_absorb_group(before, group);
    assert(parse_record(processor, bytes) == Some((read, header.len())) && header.len() > 0) by {
        assert(grown.groups[n0] == group);
        assert(group.wf());
        lemma_parse_group_record(
            processor,
            group.name,
            group.id,
            group.locked,
            group.description,
            entries + rest,
        );
    }
    assert(bytes.subrange(header.len() as int, bytes.len() as int) =~= entries + rest);
    lemma_decode_step(processor, bytes, before, read, header.len(), started);
    assert(started.groups[n0].id == group.id);
    lemma_decode_entries(processor, started, n0, group.entries, rest);
}

/// A store is well-formed, and its floats are held, if it is so with more
/// groups behind its own.
proof fn lemma_fewer_groups(processor: Processor, groups: Seq<GroupView>, k: int)
    requires
        0 <= k <= groups.len(),
        (ParametersView { groups }).wf(),
        (ParametersView { groups }).held_by(processor),
    ensures
        (ParametersView { groups: groups.take(k) }).wf(),
        (ParametersView { groups: groups.take(k) }).held_by(processor),
{
    let full = ParametersView { groups };
    let part = ParametersView { groups: groups.take(k) };
    assert forall|a: int| 0 <= a < part.groups.len() implies (#[trigger] part.groups[a]).wf()
        && part.groups[a].held_by(processor) by {
        assert(full.groups[a] == part.groups[a]);
        assert(full.groups[a].wf() && full.groups[a].held_by(processor));
    }
    assert forall|a: int, b: int| 0 <= a < b < part.groups.len() implies (#[trigger] part.groups[a]).id
        != (#[trigger] part.groups[b]).id && !same_name(part.groups[a].name, part.groups[b].name) by {
        assert(full.groups[a] == part.groups[a]);
        assert(full.groups[b] == part.groups[b]);
    }
}

/// The records of whole groups, read after the records that gave `before`,
/// add these groups after those of `before`, in their order.
pub proof fn lemma_decode_groups(processor: Processor, before: ParametersView, groups: Seq<GroupView>, rest: Seq<u8>)
    requires
        (ParametersView { groups: before.groups + groups }).wf(),
        (ParametersView { groups: before.groups + groups }).held_by(processor),
    ensures
        decode_from(processor, groups_bytes(processor, groups) + rest, before) == decode_from(
            processor,
            rest,
            ParametersView { groups: before.groups + groups },
        ),
    decreases groups.len(),
{
    let all = before.groups + groups;
    let bytes = groups_bytes(processor, groups) + rest;
    if groups.len() == 0 {
        assert(bytes =~= rest);
        assert(all =~= before.groups);
    } else {
        let g = groups[0];
        let tail = groups.drop_first();
        let after = groups_bytes(processor, tail) + rest;
        let grown = ParametersView { groups: before.groups.push(g) };
        assert(bytes =~= g.bytes(processor) + after);
        assert(grown.groups + tail =~= all);
        assert(all.take(before.groups.len() as int + 1) =~= grown.groups);
        lemma_fewer_groups(processor, all, before.groups.len() as int + 1);
        lemma_decode_group(processor, before, g, after);
        lemma_decode_groups(processor, grown, tail, rest);
    }
}

/// The records that a store writes decode to that store: every group and
/// every parameter comes back as it was, in its place.
pub proof fn lemma_write_then_decode(processor: Processor, store: ParametersView)
    requires
        store.wf(),
        store.held_by(processor),
    ensures
        decode_section(processor, store.bytes(processor)) == Some(store),
{
    let empty = ParametersView::empty();
    assert(empty.groups + store.groups =~= store.groups);
    lemma_decode_groups(processor, empty, store.groups, Seq::empty());
    assert(store.bytes(processor) + Seq::<u8>::empty() =~= store.bytes(processor));
}

/// Decoding goes record by record: bytes that decode, followed by more
/// bytes, decode to what the other bytes decode to behind them.
pub proof fn lemma_decode_concat(processor: Processor, bytes: Seq<u8>, more: Seq<u8>, store: ParametersView)
    requires
        decode_from(processor, bytes, store) is Some,
    ensures
        decode_from(processor, bytes + more, store) == decode_from(
            processor,
            more,
            decode_from(processor, bytes, store)->Some_0,
        ),
    decreases bytes.len(),
{
    if bytes.len() == 0 {
        assert(bytes + more =~= more);
    } else {
        let (record, len) = parse_record(processor, bytes)->Some_0;
        let next = store.absorb(record)->Some_0;
        let left = bytes.subrange(len as int, bytes.len() as int);
        lemma_parse_prefix(processor, bytes, more);
        assert((bytes + more).subrange(len as int, (bytes + more).len() as int) =~= left + more);
        lemma_decode_concat(processor, left, more, next);
    }
}

/// A name that is announced so long that no offset and id can follow it in
/// the bytes that are left makes the whole section malformed, whatever
/// records stand before it. This holds in particular of a name that runs
/// past the end of the section.
pub proof fn lemma_name_past_the_end(processor: Processor, before: Seq<u8>, last: Seq<u8>)
    requires
        decode_section(processor, before) is Some,
        last.len() >= 1,
        name_len(last[0]) + 4 > last.len(),
    ensures
        decode_section(processor, before + last) is None,
{
    lemma_decode_concat(processor, before, last, ParametersView::empty());
    assert(parse_record(processor, last) is None);
}

/// A well-formed store stays well-formed with more parameters at the end
/// of one group, if they are valid, their names are new in the group, and no
/// two of them have the same name.
proof fn lemma_more_entries(
    processor: Processor,
    store: ParametersView,
    i: int,
    more: Seq<(Seq<u8>, ParameterView)>,
)
    requires
        store.wf(),
        0 <= i < store.groups.len(),
        forall|j: int| 0 <= j < more.len() ==> valid_name((#[trigger] more[j]).0) && more[j].1.wf(),
        forall|j: int, k: int| 0 <= j < k < more.len() ==> !same_name((#[trigger] more[j]).0, (#[trigger] more[k]).0),
        forall|j: int, k: int|
            0 <= j < store.groups[i].entries.len() && 0 <= k < more.len() ==> !same_name(
                (#[trigger] store.groups[i].entries[j]).0,
                (#[trigger] more[k]).0,
            ),
    ensures
        store.with_entries(i, more).wf(),
        store.held_by(processor) && (forall|j: int| 0 <= j < more.len() ==> (#[trigger] more[j]).1.data.held_by(processor))
            ==> store.with_entries(i, more).held_by(processor),
{
    let full = store.with_entries(i, more);
    let g = store.groups[i];
    let h = full.groups[i];
    let n0 = g.entries.len() as int;
    assert(g.wf());
    assert forall|j: int| 0 <= j < h.entries.len() implies valid_name((#[trigger] h.entries[j]).0)
        && h.entries[j].1.wf() by {
        if j < n0 {
            assert(h.entries[j] == g.entries[j]);
        } else {
            assert(h.entries[j] == more[j - n0]);
        }
    }
    assert forall|j: int, k: int| 0 <= j < k < h.entries.len() implies !same_name(
        (#[trigger] h.entries[j]).0,
        (#[trigger] h.entries[k]).0,
    ) by {
        if k < n0 {
            assert(h.entries[j] == g.entries[j]);
            assert(h.entries[k] == g.entries[k]);
        } else if j < n0 {
            assert(h.entries[j] == g.entries[j]);
            assert(h.entries[k] == more[k - n0]);
        } else {
            assert(h.entries[j] == more[j - n0]);
            assert(h.entries[k] == more[k - n0]);
        }
    }
    assert(h.wf());
    assert forall|a: int| 0 <= a < full.groups.len() implies (#[trigger] full.groups[a]).wf() by {
        if a != i {
            assert(full.groups[a] == store.groups[a]);
        }
    }
    assert forall|a: int, b: int| 0 <= a < b < full.groups.len() implies (#[trigger] full.groups[a]).id
        != (#[trigger] full.groups[b]).id && !same_name(full.groups[a].name, full.groups[b].name) by {
        assert(full.groups[a].id == store.groups[a].id);
        assert(full.groups[b].id == store.groups[b].id);
        assert(full.groups[a].name == store.groups[a].name);
        assert(full.groups[b].name == store.groups[b].name);
    }
    if store.held_by(processor) && (forall|j: int| 0 <= j < more.len() ==> (#[trigger] more[j]).1.data.held_by(processor)) {
        assert forall|a: int| 0 <= a < full.groups.len() implies (#[trigger] full.groups[a]).held_by(
            processor,
        ) by {
            assert(store.groups[a].held_by(processor));
            if a == i {
                assert forall|j: int| 0 <= j < h.entries.len() implies (#[trigger] h.entries[j]).1.data.held_by(
                    processor,
                ) by {
                    if j < n0 {
                        assert(h.entries[j] == g.entries[j]);
                    } else {
                        assert(h.entries[j] == more[j - n0]);
                    }
                }
            } else {
                assert(full.groups[a] == store.groups[a]);
            }
        }
    }
}

/// A well-formed store stays well-formed with other parameters in one
/// group, if they are valid and no two of them have the same name.
proof fn lemma_group_fits(
    processor: Processor,
    store: ParametersView,
    i: int,
    entries: Seq<(Seq<u8>, ParameterView)>,
)
    requires
        store.wf(),
        0 <= i < store.groups.len(),
        forall|j: int| 0 <= j < entries.len() ==> valid_name((#[trigger] entries[j]).0) && entries[j].1.wf(),
        forall|j: int, k: int| 0 <= j < k < entries.len() ==> !same_name((#[trigger] entries[j]).0, (#[trigger] entries[k]).0),
    ensures
        store.with_group(i, entries).wf(),
        store.held_by(processor) && (forall|j: int| 0 <= j < entries.len() ==> (#[trigger] entries[j]).1.data.held_by(processor))
            ==> store.with_group(i, entries).held_by(processor),
{
    let full = store.with_group(i, entries);
    assert(store.groups[i].wf());
    assert(full.groups[i].wf());
    assert forall|a: int| 0 <= a < full.groups.len() implies (#[trigger] full.groups[a]).wf() by {
        if a != i {
            assert(full.groups[a] == store.groups[a]);
        }
    }
    assert forall|a: int, b: int| 0 <= a < b < full.groups.len() implies (#[trigger] full.groups[a]).id
        != (#[trigger] full.groups[b]).id && !same_name(full.groups[a].name, full.groups[b].name) by {
        assert(full.groups[a].id == store.groups[a].id);
        assert(full.groups[b].id == store.groups[b].id);
        assert(full.groups[a].name == store.groups[a].name);
        assert(full.groups[b].name == store.groups[b].name);
    }
    if store.held_by(processor) && (forall|j: int| 0 <= j < entries.len() ==> (#[trigger] entries[j]).1.data.held_by(processor)) {
        assert forall|a: int| 0 <= a < full.groups.len() implies (#[trigger] full.groups[a]).held_by(
            processor,
        ) by {
            assert(store.groups[a].held_by(processor));
            if a != i {
                assert(full.groups[a] == store.groups[a]);
            }
        }
    }
}

/// Taking out one of the parameters of a group finds it and leaves the
/// others, those before it and those behind it, in their order.
proof fn lemma_take_at(
    store: ParametersView,
    i: int,
    group: Seq<u8>,
    before: Seq<(Seq<u8>, ParameterView)>,
    name: Seq<u8>,
    parameter: ParameterView,
    behind: Seq<(Seq<u8>, ParameterView)>,
)
    requires
        0 <= i < store.groups.len(),
        same_name(store.groups[i].name, group),
        store.with_group(i, before + seq![(name, parameter)] + behind).wf(),
    ensures
        store.with_group(i, before + seq![(name, parameter)] + behind).lookup(group, name) == Some(
            parameter,
        ),
        store.with_group(i, before + seq![(name, parameter)] + behind).without(group, name)
            == store.with_group(i, before + behind),
{
    let entries = before + seq![(name, parameter)] + behind;
    let cur = store.with_group(i, entries);
    let h = cur.groups[i];
    let n0 = before.len() as int;
    lemma_group_index(cur, group, i);
    assert(h.entries[n0] == (name, parameter));
    assert(h.wf());
    lemma_entry_index(h, name, n0);
    assert(h.entries.remove(n0) =~= before + behind);
    assert(cur.without(group, name).groups =~= store.with_group(i, before + behind).groups);
}

/// A name that no parameter of a group has finds nothing there, and taking
/// it out changes nothing.
proof fn lemma_take_absent(store: ParametersView, i: int, group: Seq<u8>, name: Seq<u8>)
    requires
        store.wf(),
        0 <= i < store.groups.len(),
        same_name(store.groups[i].name, group),
        forall|j: int| 0 <= j < store.groups[i].entries.len() ==> !same_name((#[trigger] store.groups[i].entries[j]).0, name),
    ensures
        store.lookup(group, name) is None,
        store.without(group, name) == store,
{
    lemma_group_index(store, group, i);
}

/// The parameter of the first of `entries`, if there is one.
spec fn first_of(entries: Seq<(Seq<u8>, ParameterView)>) -> Option<ParameterView> {
    if entries.len() > 0 {
        Some(entries[0].1)
    } else {
        None
    }
}

/// Whether `name` is the name of field `k` or of a later field.
spec fn is_field_from(name: Seq<u8>, k: int) -> bool {
    exists|m: int| k <= m < 6 && name == #[trigger] field_names()[m]
}

/// Whether the store holds no documented parameter of the group.
pub open spec fn clear_of_fields(store: ParametersView) -> bool {
    forall|m: int| 0 <= m < 6 ==> !store.has(group_name(), #[trigger] field_names()[m])
}

/// What the parameters that hold a field are: none or one, under the
/// field's name, well-formed and not locked; and it reads back as the field.
proof fn lemma_entry(processor: Processor, seg: SegView, k: int)
    requires
        seg.shaped(),
        0 <= k < 6,
    ensures
        seg.entry(k).len() <= 1,
        seg.entry(k).len() == 1 ==> {
            &&& seg.entry(k)[0].0 == field_names()[k]
            &&& seg.entry(k)[0].1.wf()
            &&& valid_name(seg.entry(k)[0].0)
            &&& seg.held_by(processor) ==> seg.entry(k)[0].1.data.held_by(processor)
        },
        k == 0 ==> read_float(first_of(seg.entry(k))) == Ok::<Option<u32>, C3dParseError>(seg.marker_diameter),
        k == 1 ==> read_grid(first_of(seg.entry(k))) == Ok::<Option<GridView>, C3dParseError>(seg.data_limits),
        k == 2 ==> read_float(first_of(seg.entry(k))) == Ok::<Option<u32>, C3dParseError>(seg.acc_factor),
        k == 3 ==> read_float(first_of(seg.entry(k))) == Ok::<Option<u32>, C3dParseError>(seg.noise_factor),
        k == 4 ==> read_float(first_of(seg.entry(k))) == Ok::<Option<u32>, C3dParseError>(seg.residual_error_factor),
        k == 5 ==> read_float(first_of(seg.entry(k))) == Ok::<Option<u32>, C3dParseError>(seg.intersection_limit),
{
    lemma_names();
    lemma_product_of_two(3, 2);
    assert(crate::parameter::extent_product(Seq::<u8>::empty()) == 1);
    if k == 1 {
        if let Some(g) = seg.data_limits {
            let p = plain(seq![3u8, 2u8], DataView::Float(g.cells));
            assert(seq![g.rows as u8, g.cols as u8] =~= seq![3u8, 2u8]);
            assert(seg.entry(k)[0].1 == p);
            assert(p.wf());
            assert(seg.data_limits == Some(GridView { rows: 3, cols: 2, cells: g.cells }));
        }
    } else {
        let value = if k == 0 {
            seg.marker_diameter
        } else if k == 2 {
            seg.acc_factor
        } else if k == 3 {
            seg.noise_factor
        } else if k == 4 {
            seg.residual_error_factor
        } else {
            seg.intersection_limit
        };
        if let Some(bits) = value {
            let p = plain(Seq::empty(), DataView::Float(seq![bits]));
            assert(seg.entry(k)[0].1 == p);
            assert(p.wf());
            assert(seq![bits][0] == bits);
        }
    }
}

/// What the parameters that hold the fields from field `k` on are: valid,
/// under names of these fields, and no two under the same name.
proof fn lemma_field_entries(processor: Processor, seg: SegView, k: int)
    requires
        seg.shaped(),
        0 <= k <= 6,
    ensures
        forall|j: int|
            0 <= j < seg.entries_from(k).len() ==> {
                &&& valid_name((#[trigger] seg.entries_from(k)[j]).0)
                &&& seg.entries_from(k)[j].1.wf()
                &&& is_field_from(seg.entries_from(k)[j].0, k)
                &&& seg.held_by(processor) ==> seg.entries_from(k)[j].1.data.held_by(processor)
            },
        forall|j: int, l: int|
            0 <= j < l < seg.entries_from(k).len() ==> !same_name(
                (#[trigger] seg.entries_from(k)[j]).0,
                (#[trigger] seg.entries_from(k)[l]).0,
            ),
    decreases 6 - k,
{
    if k < 6 {
        let one = seg.entry(k);
        let others = seg.entries_from(k + 1);
        let all = seg.entries_from(k);
        lemma_entry(processor, seg, k);
        lemma_field_entries(processor, seg, k + 1);
        lemma_names();
        assert(all == one + others);
        assert forall|j: int| 0 <= j < all.len() implies {
            &&& valid_name((#[trigger] all[j]).0)
            &&& all[j].1.wf()
            &&& is_field_from(all[j].0, k)
            &&& seg.held_by(processor) ==> all[j].1.data.held_by(processor)
        } by {
            if j < one.len() {
                assert(all[j] == one[0]);
                assert(all[j].0 == field_names()[k]);
            } else {
                assert(all[j] == others[j - one.len()]);
                let m = choose|m: int| k + 1 <= m < 6 && all[j].0 == #[trigger] field_names()[m];
                assert(all[j].0 == field_names()[m]);
            }
        }
        assert forall|j: int, l: int| 0 <= j < l < all.len() implies !same_name(
            (#[trigger] all[j]).0,
            (#[trigger] all[l]).0,
        ) by {
            assert(all[l] == others[l - one.len()]);
            if j < one.len() {
                assert(all[j] == one[0]);
                let m = choose|m: int| k + 1 <= m < 6 && all[l].0 == #[trigger] field_names()[m];
                assert(!same_name(field_names()[k], field_names()[m]));
            } else {
                assert(all[j] == others[j - one.len()]);
            }
        }
    }
}

/// With the fields from field `k` on written into a group that held none of
/// the documented parameters, between the parameters that the group held,
/// the store is well-formed.
proof fn lemma_placed(
    processor: Processor,
    store: ParametersView,
    i: int,
    seg: SegView,
    k: int,
    before: Seq<(Seq<u8>, ParameterView)>,
    behind: Seq<(Seq<u8>, ParameterView)>,
)
    requires
        store.wf(),
        0 <= i < store.groups.len(),
        same_name(store.groups[i].name, group_name()),
        clear_of_fields(store),
        seg.shaped(),
        0 <= k <= 6,
        store.groups[i].entries == before + behind,
    ensures
        store.with_group(i, before + seg.entries_from(k) + behind).wf(),
        store.held_by(processor) && seg.held_by(processor) ==> store.with_group(
            i,
            before + seg.entries_from(k) + behind,
        ).held_by(processor),
        forall|j: int, m: int|
            0 <= j < store.groups[i].entries.len() && 0 <= m < 6 ==> !same_name(
                (#[trigger] store.groups[i].entries[j]).0,
                #[trigger] field_names()[m],
            ),
{
    let fields = seg.entries_from(k);
    let all = before + fields + behind;
    let g = store.groups[i];
    let n0 = before.len() as int;
    let n1 = n0 + fields.len();
    lemma_group_index(store, group_name(), i);
    lemma_field_entries(processor, seg, k);
    assert(g.wf());
    assert forall|j: int, m: int| 0 <= j < g.entries.len() && 0 <= m < 6 implies !same_name(
        (#[trigger] g.entries[j]).0,
        #[trigger] field_names()[m],
    ) by {
        assert(!store.has(group_name(), field_names()[m]));
    }
    assert forall|j: int| 0 <= j < all.len() implies valid_name((#[trigger] all[j]).0) && all[j].1.wf() by {
        if j < n0 {
            assert(all[j] == g.entries[j]);
        } else if j < n1 {
            assert(all[j] == fields[j - n0]);
        } else {
            assert(all[j] == g.entries[j - fields.len()]);
        }
    }
    assert forall|a: int, b: int| 0 <= a < b < all.len() implies !same_name(
        (#[trigger] all[a]).0,
        (#[trigger] all[b]).0,
    ) by {
        let in_a = n0 <= a < n1;
        let in_b = n0 <= b < n1;
        let ga = if a < n0 { a } else { a - fields.len() };
        let gb = if b < n0 { b } else { b - fields.len() };
        if in_a {
            assert(all[a] == fields[a - n0]);
        } else {
            assert(all[a] == g.entries[ga]);
        }
        if in_b {
            assert(all[b] == fields[b - n0]);
        } else {
            assert(all[b] == g.entries[gb]);
        }
        if in_a && !in_b {
            let m = choose|m: int| k <= m < 6 && fields[a - n0].0 == #[trigger] field_names()[m];
            assert(!same_name(g.entries[gb].0, field_names()[m]));
        } else if !in_a && in_b {
            let m = choose|m: int| k <= m < 6 && fields[b - n0].0 == #[trigger] field_names()[m];
            assert(!same_name(g.entries[ga].0, field_names()[m]));
        }
    }
    lemma_group_fits(processor, store, i, all);
    if store.held_by(processor) && seg.held_by(processor) {
        assert(g.held_by(processor));
        assert forall|j: int| 0 <= j < all.len() implies (#[trigger] all[j]).1.data.held_by(processor) by {
            if j < n0 {
                assert(all[j] == g.entries[j]);
            } else if j < n1 {
                assert(all[j] == fields[j - n0]);
            } else {
                assert(all[j] == g.entries[j - fields.len()]);
            }
        }
    }
}

/// Reading the fields back out of a group into which a view was written
/// takes them out one after the other: when the first `k` are out, the
/// fields from field `k` on are left, and field `k` is found as written.
proof fn lemma_taken_back(
    processor: Processor,
    store: ParametersView,
    i: int,
    seg: SegView,
    k: int,
    before: Seq<(Seq<u8>, ParameterView)>,
    behind: Seq<(Seq<u8>, ParameterView)>,
)
    requires
        store.wf(),
        0 <= i < store.groups.len(),
        same_name(store.groups[i].name, group_name()),
        clear_of_fields(store),
        seg.shaped(),
        0 <= k <= 6,
        store.groups[i].entries == before + behind,
    ensures
        taken(store.with_group(i, before + seg.entries() + behind), k) == store.with_group(
            i,
            before + seg.entries_from(k) + behind,
        ),
        k < 6 ==> found(store.with_group(i, before + seg.entries() + behind), k) == first_of(
            seg.entry(k),
        ),
    decreases k,
{
    let back = store.with_group(i, before + seg.entries() + behind);
    lemma_names();
    if k > 0 {
        let prev = store.with_group(i, before + seg.entries_from(k - 1) + behind);
        lemma_taken_back(processor, store, i, seg, k - 1, before, behind);
        assert(taken(back, k - 1) == prev);
        lemma_step_back(processor, store, i, seg, k - 1, before, behind);
        assert(taken(back, k) == prev.without(group_name(), field_names()[k - 1]));
    }
    if k < 6 {
        lemma_step_back(processor, store, i, seg, k, before, behind);
    }
}

/// One step of reading back: field `k` is found as written, and taking it
/// out leaves the fields behind it.
proof fn lemma_step_back(
    processor: Processor,
    store: ParametersView,
    i: int,
    seg: SegView,
    k: int,
    before: Seq<(Seq<u8>, ParameterView)>,
    behind: Seq<(Seq<u8>, ParameterView)>,
)
    requires
        store.wf(),
        0 <= i < store.groups.len(),
        same_name(store.groups[i].name, group_name()),
        clear_of_fields(store),
        seg.shaped(),
        0 <= k < 6,
        store.groups[i].entries == before + behind,
    ensures
        store.with_group(i, before + seg.entries_from(k) + behind).lookup(
            group_name(),
            field_names()[k],
        ) == first_of(seg.entry(k)),
        store.with_group(i, before + seg.entries_from(k) + behind).without(
            group_name(),
            field_names()[k],
        ) == store.with_group(i, before + seg.entries_from(k + 1) + behind),
{
    let one = seg.entry(k);
    let others = seg.entries_from(k + 1);
    let next = store.with_group(i, before + others + behind);
    let name = field_names()[k];
    let g = store.groups[i];
    lemma_names();
    lemma_entry(processor, seg, k);
    lemma_placed(processor, store, i, seg, k, before, behind);
    lemma_placed(processor, store, i, seg, k + 1, before, behind);
    assert(seg.entries_from(k) == one + others);
    if one.len() == 0 {
        assert(one + others =~= others);
        lemma_field_entries(processor, seg, k + 1);
        let n0 = before.len() as int;
        let n1 = n0 + others.len();
        assert forall|j: int| 0 <= j < next.groups[i].entries.len() implies !same_name(
            (#[trigger] next.groups[i].entries[j]).0,
            name,
        ) by {
            if j < n0 {
                assert(next.groups[i].entries[j] == g.entries[j]);
                assert(!same_name(g.entries[j].0, field_names()[k]));
            } else if j < n1 {
                assert(next.groups[i].entries[j] == others[j - n0]);
                let m = choose|m: int| k + 1 <= m < 6 && others[j - n0].0 == #[trigger] field_names()[m];
                assert(!same_name(field_names()[k], field_names()[m]));
            } else {
                assert(next.groups[i].entries[j] == g.entries[j - others.len()]);
                assert(!same_name(g.entries[j - others.len()].0, field_names()[k]));
            }
        }
        assert(same_name(next.groups[i].name, group_name()));
        lemma_take_absent(next, i, group_name(), name);
    } else {
        assert(one =~= seq![(name, one[0].1)]);
        assert(before + (one + others) + behind =~= before + seq![(name, one[0].1)] + (others + behind));
        assert(before + (others + behind) =~= before + others + behind);
        lemma_take_at(store, i, group_name(), before, name, one[0].1, others + behind);
    }
}

/// A view without fields has no parameters to write.
proof fn lemma_empty_view(seg: SegView, k: int)
    requires
        seg.is_empty(),
    ensures
        seg.entries_from(k) == Seq::<(Seq<u8>, ParameterView)>::empty(),
    decreases 6 - k,
{
    if 0 <= k < 6 {
        lemma_empty_view(seg, k + 1);
        assert(seg.entry(k) + seg.entries_from(k + 1) =~= Seq::empty());
    }
}

/// A store without the group finds none of the documented parameters and
/// stays as it is when they are taken out.
proof fn lemma_no_group(store: ParametersView, k: int)
    requires
        !store.has_group(group_name()),
        0 <= k <= 6,
    ensures
        taken(store, k) == store,
        found(store, k) is None,
    decreases k,
{
    if k > 0 {
        lemma_no_group(store, k - 1);
    }
}

/// Reading the group out of a store into whose group a view was written,
/// between the parameters that the group held, gives that view and leaves
/// the store as it was before.
pub proof fn lemma_reads_back_between(
    processor: Processor,
    store: ParametersView,
    i: int,
    seg: SegView,
    before: Seq<(Seq<u8>, ParameterView)>,
    behind: Seq<(Seq<u8>, ParameterView)>,
)
    requires
        store.wf(),
        0 <= i < store.groups.len(),
        same_name(store.groups[i].name, group_name()),
        clear_of_fields(store),
        seg.shaped(),
        store.groups[i].entries == before + behind,
    ensures
        extract(store.with_group(i, before + seg.entries() + behind)) == (
            Ok::<SegView, (int, C3dParseError)>(seg),
            store,
        ),
{
    let back = store.with_group(i, before + seg.entries() + behind);
    assert forall|k: int| 0 <= k < 6 implies mismatch(back, k) is None by {
        lemma_taken_back(processor, store, i, seg, k, before, behind);
        lemma_entry(processor, seg, k);
    }
    lemma_no_mismatch(back, 0);
    assert(read_float(found(back, 0)) == Ok::<Option<u32>, C3dParseError>(seg.marker_diameter)) by {
        lemma_taken_back(processor, store, i, seg, 0, before, behind);
        lemma_entry(processor, seg, 0);
    }
    assert(read_grid(found(back, 1)) == Ok::<Option<GridView>, C3dParseError>(seg.data_limits)) by {
        lemma_taken_back(processor, store, i, seg, 1, before, behind);
        lemma_entry(processor, seg, 1);
    }
    assert(read_float(found(back, 2)) == Ok::<Option<u32>, C3dParseError>(seg.acc_factor)) by {
        lemma_taken_back(processor, store, i, seg, 2, before, behind);
        lemma_entry(processor, seg, 2);
    }
    assert(read_float(found(back, 3)) == Ok::<Option<u32>, C3dParseError>(seg.noise_factor)) by {
        lemma_taken_back(processor, store, i, seg, 3, before, behind);
        lemma_entry(processor, seg, 3);
    }
    assert(read_float(found(back, 4)) == Ok::<Option<u32>, C3dParseError>(seg.residual_error_factor)) by {
        lemma_taken_back(processor, store, i, seg, 4, before, behind);
        lemma_entry(processor, seg, 4);
    }
    assert(read_float(found(back, 5)) == Ok::<Option<u32>, C3dParseError>(seg.intersection_limit)) by {
        lemma_taken_back(processor, store, i, seg, 5, before, behind);
        lemma_entry(processor, seg, 5);
    }
    assert(taken(back, 6) == store) by {
        lemma_taken_back(processor, store, i, seg, 6, before, behind);
        assert(seg.entries_from(6) =~= Seq::empty());
        assert(before + seg.entries_from(6) + behind =~= store.groups[i].entries);
        assert(store.with_group(i, store.groups[i].entries).groups =~= store.groups);
    }
}

/// Reading the group out of a store into whose group a view was written,
/// behind the parameters that the group held, gives that view and leaves
/// the store as it was before.
pub proof fn lemma_reads_back(processor: Processor, store: ParametersView, i: int, seg: SegView)
    requires
        store.wf(),
        0 <= i < store.groups.len(),
        same_name(store.groups[i].name, group_name()),
        clear_of_fields(store),
        seg.shaped(),
    ensures
        extract(store.with_entries(i, seg.entries())) == (Ok::<SegView, (int, C3dParseError)>(seg), store),
{
    let held = store.groups[i].entries;
    let none = Seq::<(Seq<u8>, ParameterView)>::empty();
    assert(held + none =~= held);
    assert(held + seg.entries() + none =~= held + seg.entries());
    lemma_reads_back_between(processor, store, i, seg, held, none);
}

/// Reading the group out of a store that has no such group gives the view
/// without fields and leaves the store as it is.
pub proof fn lemma_reads_nothing(store: ParametersView, seg: SegView)
    requires
        !store.has_group(group_name()),
        seg.is_empty(),
    ensures
        extract(store) == (Ok::<SegView, (int, C3dParseError)>(seg), store),
{
    assert forall|k: int| 0 <= k < 6 implies mismatch(store, k) is None && found(store, k) is None by {
        lemma_no_group(store, k);
    }
    lemma_no_mismatch(store, 0);
    lemma_no_group(store, 6);
}

/// A record can hold a grid of the documented shape.
proof fn lemma_shaped_fits(seg: SegView)
    requires
        seg.shaped(),
    ensures
        seg.fits(),
{
    if let Some(g) = seg.data_limits {
        lemma_product_of_two(3, 2);
        assert(seq![g.rows as u8, g.cols as u8] =~= seq![3u8, 2u8]);
    }
}

/// What is written reads back. Let a well-formed store hold none of the
/// documented parameters of the group, and let a view have its grid, if
/// any, in the documented shape, and the group be there unless the view is
/// empty. Then the view can be written; the records of the store followed
/// by those of the view decode to a store; and reading the group out of
/// that store gives the same view, each field absent as before or present
/// with the same bits, and leaves the store that was there before.
pub proof fn lemma_written_reads_back(processor: Processor, store: ParametersView, seg: SegView)
    requires
        store.wf(),
        store.held_by(processor),
        clear_of_fields(store),
        seg.shaped(),
        seg.held_by(processor),
        !seg.is_empty() ==> store.has_group(group_name()),
    ensures
        seg.written(processor, store.group_id_of(group_name())) matches Ok(bytes) && decode_section(
            processor,
            store.bytes(processor) + bytes,
        ) matches Some(back) && extract(back) == (Ok::<SegView, (int, C3dParseError)>(seg), store),
{
    let empty = ParametersView::empty();
    assert(empty.groups + store.groups =~= store.groups);
    lemma_shaped_fits(seg);
    if store.has_group(group_name()) {
        let i = store.group_index(group_name());
        let id = store.groups[i].id;
        let entries = seg.entries();
        let bytes = entries_bytes(processor, id, entries);
        let back = store.with_entries(i, entries);
        if seg.is_empty() {
            lemma_empty_view(seg, 0);
            assert(bytes =~= Seq::empty());
        }
        assert(seg.written(processor, store.group_id_of(group_name())) == Ok::<Seq<u8>, C3dWriteError>(bytes));
        let held = store.groups[i].entries;
        let none = Seq::<(Seq<u8>, ParameterView)>::empty();
        assert(held + none =~= held);
        assert(held + entries + none =~= held + entries);
        lemma_placed(processor, store, i, seg, 0, held, none);
        lemma_decode_groups(processor, empty, store.groups, bytes);
        lemma_decode_entries(processor, store, i, entries, Seq::empty());
        assert(bytes + Seq::<u8>::empty() =~= bytes);
        assert(decode_section(processor, store.bytes(processor) + bytes) == Some(back));
        lemma_reads_back(processor, store, i, seg);
    } else {
        lemma_empty_view(seg, 0);
        lemma_write_then_decode(processor, store);
        assert(store.bytes(processor) + Seq::<u8>::empty() =~= store.bytes(processor));
        lemma_reads_nothing(store, seg);
    }
}

/// Floats are written with the same bytes as what is read back from them.
proof fn lemma_same_data(processor: Processor, cells: Seq<u32>)
    ensures
        DataView::Float(Seq::new(cells.len(), |i: int| processor.read_back(cells[i]))).bytes(processor)
            == DataView::Float(cells).bytes(processor),
        DataView::Float(Seq::new(cells.len(), |i: int| processor.read_back(cells[i]))).held_by(
            processor,
        ),
{
    let back = Seq::new(cells.len(), |i: int| processor.read_back(cells[i]));
    assert forall|i: int| 0 <= i < cells.len() implies processor.float_bytes(back[i])
        == processor.float_bytes(cells[i]) && processor.holds_float(#[trigger] back[i]) by {
        lemma_read_back(processor, cells[i]);
    }
    assert(DataView::Float(back).bytes(processor) =~= DataView::Float(cells).bytes(processor));
}

/// A view is written with the same records as what is read back from them.
proof fn lemma_same_entry(processor: Processor, seg: SegView, id: u8, k: int)
    ensures
        entries_bytes(processor, id, seg.stored(processor).entry(k)) == entries_bytes(
            processor,
            id,
            seg.entry(k),
        ),
{
    let back = seg.stored(processor);
    if k == 1 {
        if let Some(g) = seg.data_limits {
            let h = back.data_limits->Some_0;
            lemma_same_data(processor, g.cells);
            lemma_single_entry(processor, id, field_names()[1], seg.entry(k)[0].1);
            lemma_single_entry(processor, id, field_names()[1], back.entry(k)[0].1);
            assert(h.cells.len() == g.cells.len());
        }
    } else if 0 <= k < 6 {
        let value = if k == 0 {
            seg.marker_diameter
        } else if k == 2 {
            seg.acc_factor
        } else if k == 3 {
            seg.noise_factor
        } else if k == 4 {
            seg.residual_error_factor
        } else {
            seg.intersection_limit
        };
        if let Some(bits) = value {
            lemma_same_data(processor, seq![bits]);
            assert(Seq::new(1, |i: int| processor.read_back(seq![bits][i])) =~= seq![
                processor.read_back(bits),
            ]);
            lemma_single_entry(processor, id, field_names()[k], seg.entry(k)[0].1);
            lemma_single_entry(processor, id, field_names()[k], back.entry(k)[0].1);
        }
    }
}

/// A view is written with the same records as what is read back from them.
proof fn lemma_same_entries(processor: Processor, seg: SegView, id: u8, k: int)
    ensures
        entries_bytes(processor, id, seg.stored(processor).entries_from(k)) == entries_bytes(
            processor,
            id,
            seg.entries_from(k),
        ),
    decreases 6 - k,
{
    let back = seg.stored(processor);
    if 0 <= k < 6 {
        lemma_same_entry(processor, seg, id, k);
        lemma_same_entries(processor, seg, id, k + 1);
        lemma_entries_bytes_concat(processor, id, seg.entry(k), seg.entries_from(k + 1));
        lemma_entries_bytes_concat(processor, id, back.entry(k), back.entries_from(k + 1));
    }
}

/// What a view is read back as. A field that is absent stays absent. A
/// float that the layout holds comes back with the same bits, whatever
/// stands in the other fields; so does each cell of the grid, which keeps
/// its size. The layout holds every float that comes back, and a view whose
/// floats it holds comes back as it is.
pub proof fn lemma_stored(processor: Processor, seg: SegView)
    ensures
        seg.stored(processor).held_by(processor),
        seg.stored(processor).shaped() == seg.shaped(),
        seg.stored(processor).is_empty() == seg.is_empty(),
        seg.held_by(processor) ==> seg.stored(processor) == seg,
        seg.marker_diameter matches Some(x) ==> (processor.holds_float(x) ==> seg.stored(
            processor,
        ).marker_diameter == Some(x)),
        seg.acc_factor matches Some(x) ==> (processor.holds_float(x) ==> seg.stored(processor).acc_factor
            == Some(x)),
        seg.noise_factor matches Some(x) ==> (processor.holds_float(x) ==> seg.stored(
            processor,
        ).noise_factor == Some(x)),
        seg.residual_error_factor matches Some(x) ==> (processor.holds_float(x) ==> seg.stored(
            processor,
        ).residual_error_factor == Some(x)),
        seg.intersection_limit matches Some(x) ==> (processor.holds_float(x) ==> seg.stored(
            processor,
        ).intersection_limit == Some(x)),
        seg.marker_diameter is None ==> seg.stored(processor).marker_diameter is None,
        seg.data_limits is None ==> seg.stored(processor).data_limits is None,
        seg.acc_factor is None ==> seg.stored(processor).acc_factor is None,
        seg.noise_factor is None ==> seg.stored(processor).noise_factor is None,
        seg.residual_error_factor is None ==> seg.stored(processor).residual_error_factor is None,
        seg.intersection_limit is None ==> seg.stored(processor).intersection_limit is None,
        seg.data_limits matches Some(g) ==> seg.stored(processor).data_limits matches Some(h) && h.rows
            == g.rows && h.cols == g.cols && h.cells.len() == g.cells.len() && (forall|i: int|
            0 <= i < g.cells.len() && processor.holds_float(g.cells[i]) ==> #[trigger] h.cells[i]
                == g.cells[i]),
{
    let back = seg.stored(processor);
    if let Some(x) = seg.marker_diameter {
        lemma_read_back(processor, x);
    }
    if let Some(x) = seg.acc_factor {
        lemma_read_back(processor, x);
    }
    if let Some(x) = seg.noise_factor {
        lemma_read_back(processor, x);
    }
    if let Some(x) = seg.residual_error_factor {
        lemma_read_back(processor, x);
    }
    if let Some(x) = seg.intersection_limit {
        lemma_read_back(processor, x);
    }
    if let Some(g) = seg.data_limits {
        let h = back.data_limits->Some_0;
        assert forall|i: int| 0 <= i < g.cells.len() implies processor.holds_float(#[trigger] h.cells[i])
            && (processor.holds_float(g.cells[i]) ==> h.cells[i] == g.cells[i]) by {
            lemma_read_back(processor, g.cells[i]);
        }
        if seg.held_by(processor) {
            assert(h.cells =~= g.cells);
        }
    }
}

/// What is written reads back, field by field. Under the premises of
/// [`lemma_written_reads_back`], but whatever floats the view holds: the
/// view can be written, the bytes decode, and reading the group gives the
/// view as it is read back: each field absent as before, each float that
/// the layout holds with the same bits, also beside one that it does not
/// hold.
pub proof fn lemma_written_reads_back_as_stored(processor: Processor, store: ParametersView, seg: SegView)
    requires
        store.wf(),
        store.held_by(processor),
        clear_of_fields(store),
        seg.shaped(),
        !seg.is_empty() ==> store.has_group(group_name()),
    ensures
        seg.written(processor, store.group_id_of(group_name())) matches Ok(bytes) && decode_section(
            processor,
            store.bytes(processor) + bytes,
        ) matches Some(back) && extract(back) == (
            Ok::<SegView, (int, C3dParseError)>(seg.stored(processor)),
            store,
        ),
{
    let back = seg.stored(processor);
    lemma_stored(processor, seg);
    lemma_shaped_fits(seg);
    lemma_shaped_fits(back);
    lemma_written_reads_back(processor, store, back);
    if let Some(id) = store.group_id_of(group_name()) {
        lemma_same_entries(processor, seg, id, 0);
    }
}

/// The store with `first` at the start of its group number `i`, and with
/// the parameters of its first `j` groups only.
spec fn partly(store: ParametersView, i: int, first: Seq<(Seq<u8>, ParameterView)>, j: int) -> ParametersView {
    ParametersView {
        groups: Seq::new(
            store.groups.len(),
            |a: int|
                GroupView {
                    entries: (if a == i {
                        first
                    } else {
                        Seq::empty()
                    }) + (if a < j {
                        store.groups[a].entries
                    } else {
                        Seq::empty()
                    }),
                    ..store.groups[a]
                },
        ),
    }
}

/// A store with some of its parameters only is well-formed if it is so
/// with all of them.
proof fn lemma_partly(processor: Processor, store: ParametersView, i: int, first: Seq<(Seq<u8>, ParameterView)>, j: int)
    requires
        partly(store, i, first, store.groups.len() as int).wf(),
        partly(store, i, first, store.groups.len() as int).held_by(processor),
    ensures
        partly(store, i, first, j).wf(),
        partly(store, i, first, j).held_by(processor),
{
    let full = partly(store, i, first, store.groups.len() as int);
    let part = partly(store, i, first, j);
    assert forall|a: int| 0 <= a < part.groups.len() implies (#[trigger] part.groups[a]).wf()
        && part.groups[a].held_by(processor) by {
        let g = part.groups[a];
        let h = full.groups[a];
        assert(h.wf() && h.held_by(processor));
        assert forall|b: int| 0 <= b < g.entries.len() implies valid_name((#[trigger] g.entries[b]).0)
            && g.entries[b].1.wf() && g.entries[b].1.data.held_by(processor) by {
            assert(h.entries[b] == g.entries[b]);
        }
        assert forall|b: int, c: int| 0 <= b < c < g.entries.len() implies !same_name(
            (#[trigger] g.entries[b]).0,
            (#[trigger] g.entries[c]).0,
        ) by {
            assert(h.entries[b] == g.entries[b]);
            assert(h.entries[c] == g.entries[c]);
        }
    }
    assert forall|a: int, b: int| 0 <= a < b < part.groups.len() implies (#[trigger] part.groups[a]).id
        != (#[trigger] part.groups[b]).id && !same_name(part.groups[a].name, part.groups[b].name) by {
        assert(full.groups[a].id == part.groups[a].id);
        assert(full.groups[b].id == part.groups[b].id);
        assert(full.groups[a].name == part.groups[a].name);
        assert(full.groups[b].name == part.groups[b].name);
    }
}

/// The records of the parameters of the groups from group `j` on, read
/// behind records that gave the groups before them their parameters, give
/// these groups theirs.
proof fn lemma_decode_parameters(
    processor: Processor,
    store: ParametersView,
    i: int,
    first: Seq<(Seq<u8>, ParameterView)>,
    j: int,
)
    requires
        0 <= j <= store.groups.len(),
        partly(store, i, first, store.groups.len() as int).wf(),
        partly(store, i, first, store.groups.len() as int).held_by(processor),
    ensures
        decode_from(
            processor,
            parameters_bytes(processor, store.groups.skip(j)),
            partly(store, i, first, j),
        ) == Some(partly(store, i, first, store.groups.len() as int)),
    decreases store.groups.len() - j,
{
    let left = store.groups.skip(j);
    if j < store.groups.len() {
        let g = store.groups[j];
        let cur = partly(store, i, first, j);
        let next = partly(store, i, first, j + 1);
        let others = parameters_bytes(processor, store.groups.skip(j + 1));
        lemma_partly(processor, store, i, first, j + 1);
        assert(left.drop_first() =~= store.groups.skip(j + 1));
        assert(left[0] == g);
        assert(parameters_bytes(processor, left) == entries_bytes(processor, g.id, g.entries) + others);
        assert(cur.groups[j].entries + g.entries =~= next.groups[j].entries);
        assert(cur.with_entries(j, g.entries).groups =~= next.groups);
        lemma_decode_entries(processor, cur, j, g.entries, others);
        lemma_decode_parameters(processor, store, i, first, j + 1);
    }
}

/// A well-formed store without its parameters is well-formed.
proof fn lemma_bare(processor: Processor, store: ParametersView)
    requires
        store.wf(),
        store.held_by(processor),
    ensures
        store.bare().wf(),
        store.bare().held_by(processor),
{
    let none = Seq::<(Seq<u8>, ParameterView)>::empty();
    let n = store.groups.len() as int;
    let bare = store.bare();
    let full = partly(store, -1, none, n);
    let part = partly(store, -1, none, 0);
    assert forall|a: int| 0 <= a < n implies (#[trigger] full.groups[a]) == store.groups[a] by {
        assert(none + store.groups[a].entries =~= store.groups[a].entries);
    }
    assert(full.groups =~= store.groups);
    lemma_partly(processor, store, -1, none, 0);
    assert forall|a: int| 0 <= a < n implies (#[trigger] bare.groups[a]) == part.groups[a] by {
        assert(none + none =~= none);
    }
    assert(bare.groups =~= part.groups);
}

/// The records that define the groups of a store, then the records of
/// parameters for the start of one group, then the records of the
/// parameters of the store decode to the store with those parameters at
/// the start of that group.
proof fn lemma_first_decodes(
    processor: Processor,
    store: ParametersView,
    i: int,
    first: Seq<(Seq<u8>, ParameterView)>,
    bytes: Seq<u8>,
)
    requires
        store.wf(),
        store.held_by(processor),
        -1 <= i < store.groups.len(),
        partly(store, i, first, store.groups.len() as int).wf(),
        partly(store, i, first, store.groups.len() as int).held_by(processor),
        i >= 0 ==> bytes == entries_bytes(processor, store.groups[i].id, first),
        i < 0 ==> bytes.len() == 0 && first.len() == 0,
    ensures
        decode_section(
            processor,
            store.bare().bytes(processor) + bytes + parameters_bytes(processor, store.groups),
        ) == Some(partly(store, i, first, store.groups.len() as int)),
{
    let none = Seq::<(Seq<u8>, ParameterView)>::empty();
    let empty = ParametersView::empty();
    let bare = store.bare();
    let n = store.groups.len() as int;
    let parameters = parameters_bytes(processor, store.groups);
    let started = partly(store, i, first, 0);
    lemma_bare(processor, store);
    lemma_partly(processor, store, i, first, 0);
    assert(empty.groups + bare.groups =~= bare.groups);
    lemma_decode_groups(processor, empty, bare.groups, bytes + parameters);
    assert(decode_section(processor, bare.bytes(processor) + (bytes + parameters)) == decode_from(
        processor,
        bytes + parameters,
        bare,
    ));
    assert(decode_from(processor, bytes + parameters, bare) == decode_from(
        processor,
        parameters,
        started,
    )) by {
        if i >= 0 {
            assert(bare.groups[i].entries + first =~= started.groups[i].entries);
            assert forall|a: int| 0 <= a < n && a != i implies (#[trigger] started.groups[a])
                == bare.groups[a] by {
                assert(none + none =~= none);
            }
            assert(bare.with_entries(i, first).groups =~= started.groups);
            lemma_decode_entries(processor, bare, i, first, parameters);
        } else {
            assert(first =~= none);
            assert forall|a: int| 0 <= a < n implies (#[trigger] started.groups[a]) == bare.groups[a] by {
                assert(none + none =~= none);
            }
            assert(started.groups =~= bare.groups);
            assert(bytes + parameters =~= parameters);
        }
    }
    assert(store.groups.skip(0) =~= store.groups);
    lemma_decode_parameters(processor, store, i, first, 0);
    assert(bare.bytes(processor) + bytes + parameters =~= bare.bytes(processor) + (bytes + parameters));
}

/// The core of [`lemma_view_first_reads_back`], for a view whose floats the
/// layout holds.
proof fn lemma_view_first(processor: Processor, store: ParametersView, seg: SegView)
    requires
        store.wf(),
        store.held_by(processor),
        clear_of_fields(store),
        seg.shaped(),
        seg.held_by(processor),
        !seg.is_empty() ==> store.has_group(group_name()),
    ensures
        seg.written(processor, store.group_id_of(group_name())) matches Ok(bytes) && decode_section(
            processor,
            store.bare().bytes(processor) + bytes + parameters_bytes(processor, store.groups),
        ) matches Some(back) && extract(back) == (Ok::<SegView, (int, C3dParseError)>(seg), store),
{
    let none = Seq::<(Seq<u8>, ParameterView)>::empty();
    let n = store.groups.len() as int;
    lemma_shaped_fits(seg);
    if store.has_group(group_name()) {
        let i = store.group_index(group_name());
        let first = seg.entries();
        let held = store.groups[i].entries;
        let bytes = entries_bytes(processor, store.groups[i].id, first);
        let full = partly(store, i, first, n);
        if seg.is_empty() {
            lemma_empty_view(seg, 0);
            assert(bytes =~= Seq::empty());
        }
        assert(seg.written(processor, store.group_id_of(group_name())) == Ok::<Seq<u8>, C3dWriteError>(bytes));
        assert(none + held =~= held);
        assert(none + first + held =~= first + held);
        lemma_placed(processor, store, i, seg, 0, none, held);
        assert(full == store.with_group(i, first + held)) by {
            assert forall|a: int| 0 <= a < n && a != i implies (#[trigger] full.groups[a])
                == store.groups[a] by {
                assert(none + store.groups[a].entries =~= store.groups[a].entries);
            }
            assert(full.groups =~= store.with_group(i, first + held).groups);
        }
        lemma_first_decodes(processor, store, i, first, bytes);
        lemma_reads_back_between(processor, store, i, seg, none, held);
    } else {
        let full = partly(store, -1, none, n);
        lemma_empty_view(seg, 0);
        assert(full == store) by {
            assert forall|a: int| 0 <= a < n implies (#[trigger] full.groups[a]) == store.groups[a] by {
                assert(none + store.groups[a].entries =~= store.groups[a].entries);
            }
            assert(full.groups =~= store.groups);
        }
        lemma_first_decodes(processor, store, -1, none, Seq::empty());
        lemma_reads_nothing(store, seg);
    }
}

/// What is written reads back, also with the view written before what was
/// left of the store. Let the premises be those of
/// [`lemma_written_reads_back_as_stored`]. Write the records that define
/// the groups of the store, behind them the view, and behind it the
/// parameters that were left in the store. Then the bytes decode, and
/// reading the group out of what they decode to gives the view as it is
/// read back and leaves the store that was there before: the parameters
/// that no view claimed are still there, each as it was.
pub proof fn lemma_view_first_reads_back(processor: Processor, store: ParametersView, seg: SegView)
    requires
        store.wf(),
        store.held_by(processor),
        clear_of_fields(store),
        seg.shaped(),
        !seg.is_empty() ==> store.has_group(group_name()),
    ensures
        seg.written(processor, store.group_id_of(group_name())) matches Ok(bytes) && decode_section(
            processor,
            store.bare().bytes(processor) + bytes + parameters_bytes(processor, store.groups),
        ) matches Some(back) && extract(back) == (
            Ok::<SegView, (int, C3dParseError)>(seg.stored(processor)),
            store,
        ),
{
    let back = seg.stored(processor);
    lemma_stored(processor, seg);
    lemma_shaped_fits(seg);
    lemma_shaped_fits(back);
    lemma_view_first(processor, store, back);
    if let Some(id) = store.group_id_of(group_name()) {
        lemma_same_entries(processor, seg, id, 0);
    }
}

/// Taking the first `k` documented parameters out of a well-formed store
/// leaves a well-formed store with the same groups under the same ids, in
/// which these parameters are no more.
pub proof fn lemma_taken(processor: Processor, store: ParametersView, k: int)
    requires
        store.wf(),
        0 <= k <= 6,
    ensures
        taken(store, k).wf(),
        store.held_by(processor) ==> taken(store, k).held_by(processor),
        forall|m: int| 0 <= m < k ==> !taken(store, k).has(group_name(), #[trigger] field_names()[m]),
        forall|other: Seq<u8>|
            taken(store, k).has_group(other) == store.has_group(other) && taken(store, k).group_id_of(
                other,
            ) == store.group_id_of(other),
    decreases k,
{
    if k > 0 {
        let prev = taken(store, k - 1);
        lemma_taken(processor, store, k - 1);
        lemma_without(processor, prev, group_name(), field_names()[k - 1]);
        assert forall|m: int| 0 <= m < k implies !taken(store, k).has(
            group_name(),
            #[trigger] field_names()[m],
        ) by {
            if m < k - 1 {
                assert(!prev.has(group_name(), field_names()[m]));
            }
        }
    }
}

/// A float field that was read is held by a layout that holds the store.
proof fn lemma_float_read(processor: Processor, store: ParametersView, k: int)
    requires
        store.wf(),
        0 <= k < 6,
        read_float(found(store, k)) matches Ok(Some(bits)),
    ensures
        store.has_group(group_name()),
        store.held_by(processor) ==> processor.holds_float(read_float(found(store, k))->Ok_0->Some_0),
{
    let cur = taken(store, k);
    lemma_taken(processor, store, k);
    lemma_lookup(processor, cur, group_name(), field_names()[k]);
    let p = found(store, k)->Some_0;
    assert(crate::parameter::extent_product(Seq::<u8>::empty()) == 1);
    assert(p.dimensions =~= Seq::empty());
    if store.held_by(processor) {
        let s = p.data->Float_0;
        assert(processor.holds_float(s[0]));
    }
}

/// A grid field that was read has the documented shape, and is held by a
/// layout that holds the store.
proof fn lemma_grid_read(processor: Processor, store: ParametersView, k: int)
    requires
        store.wf(),
        0 <= k < 6,
        read_grid(found(store, k)) matches Ok(Some(g)),
    ensures
        store.has_group(group_name()),
        read_grid(found(store, k))->Ok_0->Some_0.cells.len() == 6,
        read_grid(found(store, k))->Ok_0->Some_0.rows == 3,
        read_grid(found(store, k))->Ok_0->Some_0.cols == 2,
        store.held_by(processor) ==> forall|i: int|
            0 <= i < 6 ==> processor.holds_float(#[trigger] read_grid(found(store, k))->Ok_0->Some_0.cells[i]),
{
    let cur = taken(store, k);
    lemma_taken(processor, store, k);
    lemma_lookup(processor, cur, group_name(), field_names()[k]);
    lemma_product_of_two(3, 2);
}

/// What reading the group out of a well-formed store gives, if it gives a
/// view: the grid has its documented shape; the store that is left is
/// well-formed, has the same groups under the same ids and none of the
/// documented parameters; the group is there unless the view is empty; and a
/// layout that held the store holds the view and what is left.
pub proof fn lemma_extracted(processor: Processor, store: ParametersView)
    requires
        store.wf(),
        extract(store).0 is Ok,
    ensures
        extract(store).0->Ok_0.shaped(),
        extract(store).1.wf(),
        clear_of_fields(extract(store).1),
        !extract(store).0->Ok_0.is_empty() ==> extract(store).1.has_group(group_name()),
        forall|other: Seq<u8>| extract(store).1.group_id_of(other) == store.group_id_of(other),
        store.held_by(processor) ==> extract(store).0->Ok_0.held_by(processor) && extract(store).1.held_by(
            processor,
        ),
{
    let seg = extract(store).0->Ok_0;
    lemma_mismatch_is_first(store, 0);
    assert forall|k: int| 0 <= k < 6 implies mismatch(store, k) is None by {}
    assert(mismatch(store, 0) is None && mismatch(store, 1) is None && mismatch(store, 2) is None);
    assert(mismatch(store, 3) is None && mismatch(store, 4) is None && mismatch(store, 5) is None);
    lemma_taken(processor, store, 6);
    assert(extract(store).1 == taken(store, 6));
    if seg.marker_diameter is Some {
        lemma_float_read(processor, store, 0);
    }
    if seg.data_limits is Some {
        lemma_grid_read(processor, store, 1);
    }
    if seg.acc_factor is Some {
        lemma_float_read(processor, store, 2);
    }
    if seg.noise_factor is Some {
        lemma_float_read(processor, store, 3);
    }
    if seg.residual_error_factor is Some {
        lemma_float_read(processor, store, 4);
    }
    if seg.intersection_limit is Some {
        lemma_float_read(processor, store, 5);
    }
}

/// A well-formed store that takes in a well-formed record stays well-formed,
/// and a layout that held both holds the result.
pub proof fn lemma_absorbed(processor: Processor, store: ParametersView, record: RecordView)
    requires
        store.wf(),
        store.held_by(processor),
        record.wf(),
        held_by(record, processor),
        store.absorb(record) is Some,
    ensures
        store.absorb(record)->Some_0.wf(),
        store.absorb(record)->Some_0.held_by(processor),
{
    let next = store.absorb(record)->Some_0;
    match record {
        RecordView::Group { id, name, locked, description } => {
            let n0 = store.groups.len() as int;
            assert forall|a: int| 0 <= a < next.groups.len() implies (#[trigger] next.groups[a]).wf()
                && next.groups[a].held_by(processor) by {
                if a < n0 {
                    assert(next.groups[a] == store.groups[a]);
                    assert(store.groups[a].wf() && store.groups[a].held_by(processor));
                }
            }
            assert forall|a: int, b: int| 0 <= a < b < next.groups.len() implies (
            #[trigger] next.groups[a]).id != (#[trigger] next.groups[b]).id && !same_name(
                next.groups[a].name,
                next.groups[b].name,
            ) by {
                assert(next.groups[a] == store.groups[a]);
                if b < n0 {
                    assert(next.groups[b] == store.groups[b]);
                }
            }
        },
        RecordView::Parameter { group_id, name, parameter } => {
            let i = store.id_index(group_id);
            let g = store.groups[i];
            let more = seq![(name, parameter)];
            assert(g.entries.push((name, parameter)) =~= g.entries + more);
            assert(next == store.with_entries(i, more));
            assert forall|j: int, k: int| 0 <= j < g.entries.len() && 0 <= k < more.len() implies !same_name(
                (#[trigger] g.entries[j]).0,
                (#[trigger] more[k]).0,
            ) by {}
            lemma_more_entries(processor, store, i, more);
        },
    }
}

/// What a section decodes to, behind records that gave a well-formed store,
/// is a well-formed store, and the layout of the section holds its floats.
pub proof fn lemma_decoded(processor: Processor, bytes: Seq<u8>, store: ParametersView)
    requires
        store.wf(),
        store.held_by(processor),
        decode_from(processor, bytes, store) is Some,
    ensures
        decode_from(processor, bytes, store)->Some_0.wf(),
        decode_from(processor, bytes, store)->Some_0.held_by(processor),
    decreases bytes.len(),
{
    if bytes.len() > 0 {
        lemma_parsed(processor, bytes);
        let (record, len) = parse_record(processor, bytes)->Some_0;
        lemma_absorbed(processor, store, record);
        lemma_decoded(
            processor,
            bytes.subrange(len as int, bytes.len() as int),
            store.absorb(record)->Some_0,
        );
    }
}

/// The round trip of a view. Read the group out of a well-formed store
/// whose floats the layout holds. Write what is left of the store, and
/// behind it the view. Then the bytes decode, and reading the group out of
/// what they decode to gives the same view, field by field and bit by bit,
/// and leaves the same store: what no view claimed has passed through
/// unchanged.
pub proof fn lemma_round_trip(processor: Processor, store: ParametersView)
    requires
        store.wf(),
        store.held_by(processor),
        extract(store).0 is Ok,
    ensures
        extract(store).0->Ok_0.written(processor, extract(store).1.group_id_of(group_name())) matches Ok(
            bytes,
        ) && decode_section(processor, extract(store).1.bytes(processor) + bytes) matches Some(back)
            && extract(back) == extract(store),
{
    lemma_extracted(processor, store);
    lemma_written_reads_back(processor, extract(store).1, extract(store).0->Ok_0);
}

/// The round trip of a section. Decode a parameter section and read the
/// group out of the store. If that gives a view, write what is left of the
/// store, and behind it the view, in the same layout. Then these bytes
/// decode, and reading the group out of what they decode to gives the same
/// view and leaves the same store.
pub proof fn lemma_section_round_trip(processor: Processor, bytes: Seq<u8>)
    requires
        decode_section(processor, bytes) matches Some(store) && extract(store).0 is Ok,
    ensures
        ({
            let store = decode_section(processor, bytes)->Some_0;
            extract(store).0->Ok_0.written(processor, extract(store).1.group_id_of(group_name())) matches Ok(
                again,
            ) && decode_section(processor, extract(store).1.bytes(processor) + again) matches Some(back)
                && extract(back) == extract(store)
        }),
{
    let empty = ParametersView::empty();
    lemma_decoded(processor, bytes, empty);
    lemma_round_trip(processor, decode_section(processor, bytes)->Some_0);
}

} // verus!
