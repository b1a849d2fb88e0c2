//! The store of parameters that a parameter section decodes to: groups in
//! the order of the file, each with its parameters in the order of the file.

use vstd::prelude::*;
use vstd::slice::slice_subrange;
use vstd::string::StringSliceAdditionalSpecFns;
use crate::error::C3dParseError;
use crate::names::{names_match, same_name, valid_name};
use crate::parameter::{append, Parameter, ParameterView};
use crate::processor::Processor;
use crate::record::{
    group_record, held_by, parse_record, read_record, valid_id, write_group_record, Record,
    RecordView,
};

verus! {

/// The mathematical value of a group: its header and its parameters, each
/// under its name, in the order in which they came.
pub struct GroupView {
    pub id: u8,
    pub name: Seq<u8>,
    pub description: Seq<u8>,
    pub locked: bool,
    pub entries: Seq<(Seq<u8>, ParameterView)>,
}

impl GroupView {
    /// Whether the group holds a parameter of this name, whatever its case.
    pub open spec fn has(self, name: Seq<u8>) -> bool {
        exists|j: int| 0 <= j < self.entries.len() && same_name((#[trigger] self.entries[j]).0, name)
    }

    /// The place of the parameter of this name.
    pub open spec fn index_of(self, name: Seq<u8>) -> int {
        choose|j: int| 0 <= j < self.entries.len() && same_name((#[trigger] self.entries[j]).0, name)
    }

    /// What holds of every group: a valid header, valid parameters, and no
    /// name twice.
    pub open spec fn wf(self) -> bool {
        &&& valid_id(self.id)
        &&& valid_name(self.name)
        &&& self.description.len() <= 255
        &&& forall|j: int|
            0 <= j < self.entries.len() ==> valid_name((#[trigger] self.entries[j]).0)
                && self.entries[j].1.wf()
        &&& forall|j: int, k: int|
            0 <= j < k < self.entries.len() ==> !same_name(
                (#[trigger] self.entries[j]).0,
                (#[trigger] self.entries[k]).0,
            )
    }

    /// Whether `processor` can hold every float of the group exactly.
    pub open spec fn held_by(self, processor: Processor) -> bool {
        forall|j: int|
            0 <= j < self.entries.len() ==> (#[trigger] self.entries[j]).1.data.held_by(processor)
    }

    /// The records of the group: the one that defines it, then those of its
    /// parameters.
    pub open spec fn bytes(self, processor: Processor) -> Seq<u8> {
        group_record(processor, self.name, self.id, self.locked, self.description) + entries_bytes(
            processor,
            self.id,
            self.entries,
        )
    }
}

/// The records of the parameters `entries` of the group with id `id`, one
/// after the other, each locked or not as the parameter says.
pub open spec fn entries_bytes(processor: Processor, id: u8, entries: Seq<(Seq<u8>, ParameterView)>) -> Seq<u8>
    decreases entries.len(),
{
    if entries.len() == 0 {
        Seq::empty()
    } else {
        entries[0].1.record(processor, entries[0].0, id, entries[0].1.locked) + entries_bytes(
            processor,
            id,
            entries.drop_first(),
        )
    }
}

/// The records of the groups `groups`, one group after the other.
pub open spec fn groups_bytes(processor: Processor, groups: Seq<GroupView>) -> Seq<u8>
    decreases groups.len(),
{
    if groups.len() == 0 {
        Seq::empty()
    } else {
        groups[0].bytes(processor) + groups_bytes(processor, groups.drop_first())
    }
}

/// The records of the parameters of the groups `groups`, group by group,
/// without the records that define the groups.
pub open spec fn parameters_bytes(processor: Processor, groups: Seq<GroupView>) -> Seq<u8>
    decreases groups.len(),
{
    if groups.len() == 0 {
        Seq::empty()
    } else {
        entries_bytes(processor, groups[0].id, groups[0].entries) + parameters_bytes(
            processor,
            groups.drop_first(),
        )
    }
}

/// The parameters of the groups `groups` in order, each with the name of
/// its group and its own name.
pub open spec fn listed(groups: Seq<GroupView>) -> Seq<(Seq<u8>, Seq<u8>, ParameterView)>
    decreases groups.len(),
{
    if groups.len() == 0 {
        Seq::empty()
    } else {
        listed(groups.drop_last()) + Seq::new(
            groups.last().entries.len(),
            |j: int| (groups.last().name, groups.last().entries[j].0, groups.last().entries[j].1),
        )
    }
}

/// The mathematical value of a [`Parameters`]: its groups in order.
pub struct ParametersView {
    pub groups: Seq<GroupView>,
}

impl ParametersView {
    /// The store without groups.
    pub open spec fn empty() -> ParametersView {
        ParametersView { groups: Seq::empty() }
    }

    /// Whether there is a group of this name, whatever its case.
    pub open spec fn has_group(self, name: Seq<u8>) -> bool {
        exists|i: int| 0 <= i < self.groups.len() && same_name((#[trigger] self.groups[i]).name, name)
    }

    /// The place of the group of this name.
    pub open spec fn group_index(self, name: Seq<u8>) -> int {
        choose|i: int| 0 <= i < self.groups.len() && same_name((#[trigger] self.groups[i]).name, name)
    }

    /// Whether there is a group with this id.
    pub open spec fn has_id(self, id: u8) -> bool {
        exists|i: int| 0 <= i < self.groups.len() && (#[trigger] self.groups[i]).id == id
    }

    /// The place of the group with this id.
    pub open spec fn id_index(self, id: u8) -> int {
        choose|i: int| 0 <= i < self.groups.len() && (#[trigger] self.groups[i]).id == id
    }

    /// What holds of every store: valid groups, no id twice, no name twice.
    pub open spec fn wf(self) -> bool {
        &&& forall|i: int| 0 <= i < self.groups.len() ==> (#[trigger] self.groups[i]).wf()
        &&& forall|i: int, k: int|
            0 <= i < k < self.groups.len() ==> (#[trigger] self.groups[i]).id != (
            #[trigger] self.groups[k]).id && !same_name(self.groups[i].name, self.groups[k].name)
    }

    /// Whether `processor` can hold every float of the store exactly.
    pub open spec fn held_by(self, processor: Processor) -> bool {
        forall|i: int| 0 <= i < self.groups.len() ==> (#[trigger] self.groups[i]).held_by(processor)
    }

    /// The id of the group of this name, if there is one.
    pub open spec fn group_id_of(self, name: Seq<u8>) -> Option<u8> {
        if self.has_group(name) {
            Some(self.groups[self.group_index(name)].id)
        } else {
            None
        }
    }

    /// Whether the store holds the parameter `name` of the group `group`.
    pub open spec fn has(self, group: Seq<u8>, name: Seq<u8>) -> bool {
        self.has_group(group) && self.groups[self.group_index(group)].has(name)
    }

    /// The parameter `name` of the group `group`, if the store holds it.
    pub open spec fn lookup(self, group: Seq<u8>, name: Seq<u8>) -> Option<ParameterView> {
        if self.has(group, name) {
            let g = self.groups[self.group_index(group)];
            Some(g.entries[g.index_of(name)].1)
        } else {
            None
        }
    }

    /// The store without the parameter `name` of the group `group`; the
    /// group stays, and so does everything else, in its order.
    pub open spec fn without(self, group: Seq<u8>, name: Seq<u8>) -> ParametersView {
        if self.has(group, name) {
            let i = self.group_index(group);
            let g = self.groups[i];
            ParametersView {
                groups: self.groups.update(
                    i,
                    GroupView { entries: g.entries.remove(g.index_of(name)), ..g },
                ),
            }
        } else {
            self
        }
    }

    /// The store after one more record, if the record fits: a group must
    /// bring a new id and a new name; a parameter must name the id of a
    /// group that is there, and bring a name that is new in that group. A
    /// group comes last among the groups, a parameter last in its group.
    pub open spec fn absorb(self, record: RecordView) -> Option<ParametersView> {
        match record {
            RecordView::Group { id, name, locked, description } => {
                if self.has_id(id) || self.has_group(name) {
                    None
                } else {
                    Some(
                        ParametersView {
                            groups: self.groups.push(
                                GroupView { id, name, description, locked, entries: Seq::empty() },
                            ),
                        },
                    )
                }
            },
            RecordView::Parameter { group_id, name, parameter } => {
                if !self.has_id(group_id) || self.groups[self.id_index(group_id)].has(name) {
                    None
                } else {
                    let i = self.id_index(group_id);
                    let g = self.groups[i];
                    Some(
                        ParametersView {
                            groups: self.groups.update(
                                i,
                                GroupView { entries: g.entries.push((name, parameter)), ..g },
                            ),
                        },
                    )
                }
            },
        }
    }

    /// The store with its groups and none of their parameters.
    pub open spec fn bare(self) -> ParametersView {
        ParametersView {
            groups: Seq::new(
                self.groups.len(),
                |i: int| GroupView { entries: Seq::empty(), ..self.groups[i] },
            ),
        }
    }

    /// The records of the store: group by group, each group's own record
    /// followed by those of its parameters.
    pub open spec fn bytes(self, processor: Processor) -> Seq<u8> {
        groups_bytes(processor, self.groups)
    }

    /// Everything that is still in the store, in order: the name of the
    /// group, the name of the parameter, the parameter.
    pub open spec fn remaining(self) -> Seq<(Seq<u8>, Seq<u8>, ParameterView)> {
        listed(self.groups)
    }
}

/// The mathematical value of a list of parameters with their names.
pub open spec fn list_view(list: Seq<(&[u8], &[u8], &Parameter)>) -> Seq<(Seq<u8>, Seq<u8>, ParameterView)> {
    Seq::new(list.len(), |k: int| (list[k].0@, list[k].1@, list[k].2@))
}

/// The store that `bytes` decode to when the records before them gave
/// `store`: record after record is read and taken in until no byte is left.
/// Nothing if a record is malformed or does not fit the store.
pub open spec fn decode_from(processor: Processor, bytes: Seq<u8>, store: ParametersView) -> Option<ParametersView>
    decreases bytes.len(),
{
    if bytes.len() == 0 {
        Some(store)
    } else {
        match parse_record(processor, bytes) {
            Some((record, len)) => if 0 < len <= bytes.len() {
                match store.absorb(record) {
                    Some(next) => decode_from(processor, bytes.subrange(len as int, bytes.len() as int), next),
                    None => None,
                }
            } else {
                None
            },
            None => None,
        }
    }
}

/// The store that a parameter section decodes to.
pub open spec fn decode_section(processor: Processor, bytes: Seq<u8>) -> Option<ParametersView> {
    decode_from(processor, bytes, ParametersView::empty())
}

/// One parameter of a group, under its name as the file spells it.
#[derive(Debug, PartialEq, Eq)]
struct Entry {
    name: Vec<u8>,
    parameter: Parameter,
}

/// One group: its header and its parameters in the order of the file.
#[derive(Debug, PartialEq, Eq)]
struct Group {
    id: u8,
    name: Vec<u8>,
    description: Vec<u8>,
    locked: bool,
    entries: Vec<Entry>,
}

/// The mathematical value of the parameters of a group.
spec fn entries_view(entries: Seq<Entry>) -> Seq<(Seq<u8>, ParameterView)> {
    Seq::new(entries.len(), |j: int| (entries[j].name@, entries[j].parameter@))
}

/// The mathematical value of a group.
spec fn group_view(group: Group) -> GroupView {
    GroupView {
        id: group.id,
        name: group.name@,
        description: group.description@,
        locked: group.locked,
        entries: entries_view(group.entries@),
    }
}

/// The mathematical value of the groups of a store.
spec fn groups_view(groups: Seq<Group>) -> Seq<GroupView> {
    Seq::new(groups.len(), |i: int| group_view(groups[i]))
}

/// The parameters of a file, by group. A store is made by decoding a
/// parameter section and changes only by handing parameters over; groups
/// stay, with their ids, whatever is taken out of them.
#[derive(Debug, PartialEq, Eq)]
pub struct Parameters {
    groups: Vec<Group>,
}

impl View for Parameters {
    type V = ParametersView;

    closed spec fn view(&self) -> ParametersView {
        ParametersView { groups: groups_view(self.groups@) }
    }
}

/// The place of the group of this name.
fn find_group(groups: &Vec<Group>, name: &[u8]) -> (found: Option<usize>)
    ensures
        found matches Some(i) ==> i < groups.len() && same_name(groups@[i as int].name@, name@),
        found is None ==> forall|i: int| 0 <= i < groups.len() ==> !same_name((#[trigger] groups@[i]).name@, name@),
{
    let mut i: usize = 0;
    while i < groups.len()
        invariant
            i <= groups.len(),
            forall|k: int| 0 <= k < i ==> !same_name((#[trigger] groups@[k]).name@, name@),
        decreases groups.len() - i,
    {
        if names_match(groups[i].name.as_slice(), name) {
            return Some(i);
        }
        i += 1;
    }
    None
}

/// The place of the group with this id.
fn find_id(groups: &Vec<Group>, id: u8) -> (found: Option<usize>)
    ensures
        found matches Some(i) ==> i < groups.len() && groups@[i as int].id == id,
        found is None ==> forall|i: int| 0 <= i < groups.len() ==> (#[trigger] groups@[i]).id != id,
{
    let mut i: usize = 0;
    while i < groups.len()
        invariant
            i <= groups.len(),
            forall|k: int| 0 <= k < i ==> (#[trigger] groups@[k]).id != id,
        decreases groups.len() - i,
    {
        if groups[i].id == id {
            return Some(i);
        }
        i += 1;
    }
    None
}

/// The place of the parameter of this name.
fn find_entry(entries: &Vec<Entry>, name: &[u8]) -> (found: Option<usize>)
    ensures
        found matches Some(j) ==> j < entries.len() && same_name(entries@[j as int].name@, name@),
        found is None ==> forall|j: int| 0 <= j < entries.len() ==> !same_name((#[trigger] entries@[j]).name@, name@),
{
    let mut j: usize = 0;
    while j < entries.len()
        invariant
            j <= entries.len(),
            forall|k: int| 0 <= k < j ==> !same_name((#[trigger] entries@[k]).name@, name@),
        decreases entries.len() - j,
    {
        if names_match(entries[j].name.as_slice(), name) {
            return Some(j);
        }
        j += 1;
    }
    None
}

impl Parameters {
    #[verifier::type_invariant]
    spec fn inv(&self) -> bool {
        self@.wf()
    }

    /// The store without groups.
    pub fn new() -> (store: Parameters)
        ensures
            store@ == ParametersView::empty(),
            store@.wf(),
    {
        let store = Parameters { groups: Vec::new() };
        assert(store@.groups =~= Seq::empty());
        store
    }

    /// The id of the group `group`, if there is such a group. A group keeps
    /// its id when it has lost all its parameters.
    pub fn group_id_of(&self, group: &str) -> (id: Option<u8>)
        ensures
            id == self@.group_id_of(group.spec_bytes()),
            id matches Some(i) ==> valid_id(i),
            self@.wf(),
    {
        proof {
            use_type_invariant(self);
        }
        match find_group(&self.groups, group.as_bytes()) {
            Some(i) => {
                assert(self@.groups[i as int].name == self.groups@[i as int].name@);
                proof {
                    lemma_group_index(self@, group.spec_bytes(), i as int);
                }
                Some(self.groups[i].id)
            },
            None => {
                assert forall|i: int| 0 <= i < self@.groups.len() implies !same_name(
                    (#[trigger] self@.groups[i]).name,
                    group.spec_bytes(),
                ) by {
                    assert(self@.groups[i].name == self.groups@[i].name@);
                }
                None
            },
        }
    }

    /// Decodes a parameter section: a sequence of records that ends with
    /// the bytes. Whatever is wrong with it, a malformed record or one that
    /// does not fit the records before it, the whole section is refused.
    pub fn decode(processor: &Processor, bytes: &[u8]) -> (decoded: Result<Parameters, C3dParseError>)
        ensures
            match decode_section(*processor, bytes@) {
                Some(store) => decoded matches Ok(s) && s@ == store && s@.wf() && s@.held_by(
                    *processor,
                ),
                None => decoded matches Err(e) && e == C3dParseError::MalformedRecord,
            },
    {
        let mut groups: Vec<Group> = Vec::new();
        let mut pos: usize = 0;
        assert(groups_view(groups@) =~= Seq::empty());
        assert(bytes@.subrange(0, bytes@.len() as int) =~= bytes@);
        while pos < bytes.len()
            invariant
                pos <= bytes.len(),
                (ParametersView { groups: groups_view(groups@) }).wf(),
                (ParametersView { groups: groups_view(groups@) }).held_by(*processor),
                decode_section(*processor, bytes@) == decode_from(
                    *processor,
                    bytes@.subrange(pos as int, bytes@.len() as int),
                    ParametersView { groups: groups_view(groups@) },
                ),
            decreases bytes.len() - pos,
        {
            let rest: &[u8] = slice_subrange(bytes, pos, bytes.len());
            match read_record(processor, rest) {
                None => {
                    return Err(C3dParseError::MalformedRecord);
                },
                Some((record, len)) => {
                    if !absorb(&mut groups, record, Ghost(*processor)) {
                        return Err(C3dParseError::MalformedRecord);
                    }
                    assert(rest@.subrange(len as int, rest@.len() as int) =~= bytes@.subrange(
                        pos + len,
                        bytes@.len() as int,
                    ));
                    pos += len;
                },
            }
        }
        Ok(Parameters { groups })
    }

    /// The parameter `name` of the group `group`, if the store holds it.
    /// Names match whatever their case.
    pub fn get(&self, group: &str, name: &str) -> (found: Option<&Parameter>)
        ensures
            found matches Some(p) ==> self@.lookup(group.spec_bytes(), name.spec_bytes()) == Some(p@)
                && p@.wf(),
            found is None <==> self@.lookup(group.spec_bytes(), name.spec_bytes()) is None,
    {
        proof {
            use_type_invariant(self);
        }
        let ghost view = self@;
        let i: usize = match find_group(&self.groups, group.as_bytes()) {
            Some(i) => i,
            None => {
                assert forall|i: int| 0 <= i < view.groups.len() implies !same_name(
                    (#[trigger] view.groups[i]).name,
                    group.spec_bytes(),
                ) by {
                    assert(view.groups[i].name == self.groups@[i].name@);
                }
                return None;
            },
        };
        assert(view.groups[i as int] == group_view(self.groups@[i as int]));
        proof {
            lemma_group_index(view, group.spec_bytes(), i as int);
        }
        let j: usize = match find_entry(&self.groups[i].entries, name.as_bytes()) {
            Some(j) => j,
            None => {
                assert forall|j: int| 0 <= j < view.groups[i as int].entries.len() implies !same_name(
                    (#[trigger] view.groups[i as int].entries[j]).0,
                    name.spec_bytes(),
                ) by {
                    assert(view.groups[i as int].entries[j].0 == self.groups@[i as int].entries@[j].name@);
                }
                return None;
            },
        };
        assert(view.groups[i as int].entries[j as int].0 == self.groups@[i as int].entries@[j as int].name@);
        proof {
            lemma_entry_index(view.groups[i as int], name.spec_bytes(), j as int);
            assert(view.groups[i as int].wf());
        }
        Some(&self.groups[i].entries[j].parameter)
    }

    /// Takes the parameter `name` of the group `group` out of the store and
    /// hands it over; nothing, and no change, if there is no such group or
    /// no such parameter in it. Names match whatever their case. The group
    /// stays, with its id, also when it has lost its last parameter.
    pub fn remove(&mut self, group: &str, name: &str) -> (removed: Option<Parameter>)
        ensures
            removed matches Some(p) ==> old(self)@.lookup(group.spec_bytes(), name.spec_bytes()) == Some(p@)
                && p@.wf(),
            removed is None <==> old(self)@.lookup(group.spec_bytes(), name.spec_bytes()) is None,
            final(self)@ == old(self)@.without(group.spec_bytes(), name.spec_bytes()),
            final(self)@.wf(),
    {
        proof {
            use_type_invariant(&*self);
        }
        let ghost before = self@;
        let i: usize = match find_group(&self.groups, group.as_bytes()) {
            Some(i) => i,
            None => {
                assert forall|i: int| 0 <= i < before.groups.len() implies !same_name(
                    (#[trigger] before.groups[i]).name,
                    group.spec_bytes(),
                ) by {
                    assert(before.groups[i].name == self.groups@[i].name@);
                }
                return None;
            },
        };
        assert(before.groups[i as int] == group_view(self.groups@[i as int]));
        proof {
            lemma_group_index(before, group.spec_bytes(), i as int);
        }
        let j: usize = match find_entry(&self.groups[i].entries, name.as_bytes()) {
            Some(j) => j,
            None => {
                assert forall|j: int| 0 <= j < before.groups[i as int].entries.len() implies !same_name(
                    (#[trigger] before.groups[i as int].entries[j]).0,
                    name.spec_bytes(),
                ) by {
                    assert(before.groups[i as int].entries[j].0 == self.groups@[i as int].entries@[j].name@);
                }
                return None;
            },
        };
        assert(before.groups[i as int].entries[j as int].0 == self.groups@[i as int].entries@[j as int].name@);
        proof {
            lemma_entry_index(before.groups[i as int], name.spec_bytes(), j as int);
        }
        let mut groups: Vec<Group> = Vec::new();
        assert(groups_view(groups@) =~= Seq::empty());
        std::mem::swap(&mut groups, &mut self.groups);
        let mut taken: Group = groups.remove(i);
        let entry: Entry = taken.entries.remove(j);
        let ghost shorter = group_view(taken);
        groups.insert(i, taken);
        proof {
            assert(shorter.entries =~= before.groups[i as int].entries.remove(j as int));
            assert(groups_view(groups@) =~= before.groups.update(i as int, shorter));
            lemma_without_wf(before, i as int, j as int);
        }
        self.groups = groups;
        Some(entry.parameter)
    }

    /// The records of everything that is in the store: group by group, the
    /// record of the group and then those of its parameters, each as it
    /// would be read back.
    pub fn write(&self, processor: &Processor) -> (bytes: Vec<u8>)
        ensures
            bytes@ == self@.bytes(*processor),
            self@.wf(),
    {
        proof {
            use_type_invariant(self);
        }
        let ghost view = self@;
        let mut bytes: Vec<u8> = Vec::new();
        let mut i: usize = 0;
        assert(view.groups.skip(0) =~= view.groups);
        while i < self.groups.len()
            invariant
                i <= self.groups.len(),
                view == self@,
                view.wf(),
                bytes@ + groups_bytes(*processor, view.groups.skip(i as int)) == groups_bytes(
                    *processor,
                    view.groups,
                ),
            decreases self.groups.len() - i,
        {
            let group: &Group = &self.groups[i];
            assert(view.groups[i as int] == group_view(*group));
            assert(view.groups[i as int].wf());
            let ghost before = bytes@;
            let header: Vec<u8> = write_group_record(
                processor,
                group.name.as_slice(),
                group.id,
                group.locked,
                group.description.as_slice(),
            );
            append(&mut bytes, header.as_slice());
            assert forall|j: int| 0 <= j < group.entries.len() implies valid_name(
                (#[trigger] group.entries@[j]).name@,
            ) by {
                assert(view.groups[i as int].entries[j].0 == group.entries@[j].name@);
            }
            write_entries(processor, group.id, &group.entries, &mut bytes);
            proof {
                assert(view.groups.skip(i as int).drop_first() =~= view.groups.skip(i + 1));
                assert(bytes@ =~= before + view.groups[i as int].bytes(*processor));
                assert(groups_bytes(*processor, view.groups.skip(i as int)) == view.groups[i as int].bytes(
                    *processor,
                ) + groups_bytes(*processor, view.groups.skip(i + 1)));
                assert(bytes@ + groups_bytes(*processor, view.groups.skip(i + 1)) =~= before
                    + groups_bytes(*processor, view.groups.skip(i as int)));
            }
            i += 1;
        }
        assert(bytes@ + Seq::<u8>::empty() =~= bytes@);
        bytes
    }

    /// The records that define the groups of the store, in their order,
    /// without those of their parameters.
    pub fn write_groups(&self, processor: &Processor) -> (bytes: Vec<u8>)
        ensures
            bytes@ == self@.bare().bytes(*processor),
    {
        proof {
            use_type_invariant(self);
        }
        let ghost bare = self@.bare();
        let mut bytes: Vec<u8> = Vec::new();
        let mut i: usize = 0;
        assert(bare.groups.skip(0) =~= bare.groups);
        while i < self.groups.len()
            invariant
                i <= self.groups.len(),
                bare == self@.bare(),
                self@.wf(),
                bytes@ + groups_bytes(*processor, bare.groups.skip(i as int)) == groups_bytes(
                    *processor,
                    bare.groups,
                ),
            decreases self.groups.len() - i,
        {
            let group: &Group = &self.groups[i];
            assert(self@.groups[i as int] == group_view(*group));
            assert(self@.groups[i as int].wf());
            let ghost before = bytes@;
            let header: Vec<u8> = write_group_record(
                processor,
                group.name.as_slice(),
                group.id,
                group.locked,
                group.description.as_slice(),
            );
            append(&mut bytes, header.as_slice());
            proof {
                let g = bare.groups[i as int];
                assert(bare.groups.skip(i as int).drop_first() =~= bare.groups.skip(i + 1));
                assert(bare.groups.skip(i as int)[0] == g);
                assert(entries_bytes(*processor, g.id, g.entries) =~= Seq::empty());
                assert(g.bytes(*processor) =~= header@);
                assert(bytes@ + groups_bytes(*processor, bare.groups.skip(i + 1)) =~= before
                    + groups_bytes(*processor, bare.groups.skip(i as int)));
            }
            i += 1;
        }
        assert(bytes@ + Seq::<u8>::empty() =~= bytes@);
        bytes
    }

    /// The records of the parameters that are in the store, group by group,
    /// each as it would be read back, without the records that define the
    /// groups.
    pub fn write_parameters(&self, processor: &Processor) -> (bytes: Vec<u8>)
        ensures
            bytes@ == parameters_bytes(*processor, self@.groups),
    {
        proof {
            use_type_invariant(self);
        }
        let ghost view = self@;
        let mut bytes: Vec<u8> = Vec::new();
        let mut i: usize = 0;
        assert(view.groups.skip(0) =~= view.groups);
        while i < self.groups.len()
            invariant
                i <= self.groups.len(),
                view == self@,
                view.wf(),
                bytes@ + parameters_bytes(*processor, view.groups.skip(i as int)) == parameters_bytes(
                    *processor,
                    view.groups,
                ),
            decreases self.groups.len() - i,
        {
            let group: &Group = &self.groups[i];
            assert(view.groups[i as int] == group_view(*group));
            assert(view.groups[i as int].wf());
            let ghost before = bytes@;
            assert forall|j: int| 0 <= j < group.entries.len() implies valid_name(
                (#[trigger] group.entries@[j]).name@,
            ) by {
                assert(view.groups[i as int].entries[j].0 == group.entries@[j].name@);
            }
            write_entries(processor, group.id, &group.entries, &mut bytes);
            proof {
                assert(view.groups.skip(i as int).drop_first() =~= view.groups.skip(i + 1));
                assert(view.groups.skip(i as int)[0] == view.groups[i as int]);
                assert(bytes@ + parameters_bytes(*processor, view.groups.skip(i + 1)) =~= before
                    + parameters_bytes(*processor, view.groups.skip(i as int)));
            }
            i += 1;
        }
        assert(bytes@ + Seq::<u8>::empty() =~= bytes@);
        bytes
    }

    /// Everything that is still in the store, in the order of the groups
    /// and, within a group, of its parameters: the name of the group, the
    /// name of the parameter, and the parameter.
    pub fn remaining(&self) -> (list: Vec<(&[u8], &[u8], &Parameter)>)
        ensures
            list_view(list@) == self@.remaining(),
    {
        let ghost view = self@;
        let mut list: Vec<(&[u8], &[u8], &Parameter)> = Vec::new();
        let mut i: usize = 0;
        assert(view.groups.take(0) =~= Seq::empty());
        assert(list_view(list@) =~= listed(view.groups.take(0)));
        while i < self.groups.len()
            invariant
                i <= self.groups.len(),
                view == self@,
                list_view(list@) == listed(view.groups.take(i as int)),
            decreases self.groups.len() - i,
        {
            let group: &Group = &self.groups[i];
            let ghost g = view.groups[i as int];
            assert(g == group_view(*group));
            let mut j: usize = 0;
            assert(list_view(list@) =~= listed(view.groups.take(i as int)) + Seq::new(
                0,
                |k: int| (g.name, g.entries[k].0, g.entries[k].1),
            ));
            while j < group.entries.len()
                invariant
                    j <= group.entries.len(),
                    g == group_view(*group),
                    list_view(list@) == listed(view.groups.take(i as int)) + Seq::new(
                        j as nat,
                        |k: int| (g.name, g.entries[k].0, g.entries[k].1),
                    ),
                decreases group.entries.len() - j,
            {
                let entry: &Entry = &group.entries[j];
                let ghost shorter = list@;
                list.push((group.name.as_slice(), entry.name.as_slice(), &entry.parameter));
                proof {
                    let longer = listed(view.groups.take(i as int)) + Seq::new(
                        (j + 1) as nat,
                        |k: int| (g.name, g.entries[k].0, g.entries[k].1),
                    );
                    let before = listed(view.groups.take(i as int)) + Seq::new(
                        j as nat,
                        |k: int| (g.name, g.entries[k].0, g.entries[k].1),
                    );
                    assert(list_view(shorter) == before);
                    assert(list_view(shorter).len() == shorter.len());
                    assert(longer.len() == before.len() + 1);
                    assert(list_view(list@).len() == list@.len());
                    assert(g.entries[j as int] == (entry.name@, entry.parameter@));
                    assert forall|k: int| 0 <= k < longer.len() implies list_view(list@)[k]
                        == longer[k] by {
                        if k < shorter.len() {
                            assert(list@[k] == shorter[k]);
                            assert(list_view(shorter)[k] == before[k]);
                            assert(before[k] == longer[k]);
                        }
                    }
                    assert(list_view(list@) =~= longer);
                }
                j += 1;
            }
            proof {
                assert(view.groups.take(i + 1).drop_last() =~= view.groups.take(i as int));
                assert(view.groups.take(i + 1).last() == g);
            }
            i += 1;
        }
        assert(view.groups.take(self.groups.len() as int) =~= view.groups);
        list
    }
}

/// In a well-formed store the group of a name is where one group of that
/// name is.
pub(crate) proof fn lemma_group_index(store: ParametersView, name: Seq<u8>, i: int)
    requires
        store.wf(),
        0 <= i < store.groups.len(),
        same_name(store.groups[i].name, name),
    ensures
        store.has_group(name),
        store.group_index(name) == i,
{
    let k = store.group_index(name);
    if k != i {
        assert(same_name(store.groups[k].name, store.groups[i].name));
        if k < i {
            assert(!same_name(store.groups[k].name, store.groups[i].name));
        } else {
            assert(!same_name(store.groups[i].name, store.groups[k].name));
        }
    }
}

/// In a well-formed store the group with an id is where one group with
/// that id is.
pub(crate) proof fn lemma_id_index(store: ParametersView, id: u8, i: int)
    requires
        store.wf(),
        0 <= i < store.groups.len(),
        store.groups[i].id == id,
    ensures
        store.has_id(id),
        store.id_index(id) == i,
{
    let k = store.id_index(id);
    if k != i {
        if k < i {
            assert(store.groups[k].id != store.groups[i].id);
        } else {
            assert(store.groups[i].id != store.groups[k].id);
        }
    }
}

/// In a well-formed group the parameter of a name is where one parameter of
/// that name is.
pub(crate) proof fn lemma_entry_index(group: GroupView, name: Seq<u8>, j: int)
    requires
        group.wf(),
        0 <= j < group.entries.len(),
        same_name(group.entries[j].0, name),
    ensures
        group.has(name),
        group.index_of(name) == j,
{
    let k = group.index_of(name);
    if k != j {
        assert(same_name(group.entries[k].0, group.entries[j].0));
        if k < j {
            assert(!same_name(group.entries[k].0, group.entries[j].0));
        } else {
            assert(!same_name(group.entries[j].0, group.entries[k].0));
        }
    }
}

/// Appends the records of the parameters of a group.
fn write_entries(processor: &Processor, id: u8, entries: &Vec<Entry>, out: &mut Vec<u8>)
    requires
        forall|j: int| 0 <= j < entries.len() ==> valid_name((#[trigger] entries@[j]).name@),
    ensures
        final(out)@ == old(out)@ + entries_bytes(*processor, id, entries_view(entries@)),
{
    let ghost view = entries_view(entries@);
    let mut j: usize = 0;
    assert(view.skip(0) =~= view);
    while j < entries.len()
        invariant
            j <= entries.len(),
            view == entries_view(entries@),
            forall|k: int| 0 <= k < entries.len() ==> valid_name((#[trigger] entries@[k]).name@),
            out@ + entries_bytes(*processor, id, view.skip(j as int)) == old(out)@ + entries_bytes(
                *processor,
                id,
                view,
            ),
        decreases entries.len() - j,
    {
        let entry: &Entry = &entries[j];
        let ghost before = out@;
        let record: Vec<u8> = entry.parameter.write_record(
            processor,
            entry.name.as_slice(),
            id,
            entry.parameter.is_locked(),
        );
        append(out, record.as_slice());
        proof {
            assert(view.skip(j as int).drop_first() =~= view.skip(j + 1));
            assert(view.skip(j as int)[0] == view[j as int]);
            assert(out@ + entries_bytes(*processor, id, view.skip(j + 1)) =~= before + entries_bytes(
                *processor,
                id,
                view.skip(j as int),
            ));
        }
        j += 1;
    }
    assert(out@ + Seq::<u8>::empty() =~= out@);
}

/// Takes one more record into the groups, if it fits; says whether it did.
fn absorb(groups: &mut Vec<Group>, record: Record, Ghost(processor): Ghost<Processor>) -> (fits: bool)
    requires
        (ParametersView { groups: groups_view(old(groups)@) }).wf(),
        (ParametersView { groups: groups_view(old(groups)@) }).held_by(processor),
        record@.wf(),
        held_by(record@, processor),
    ensures
        match (ParametersView { groups: groups_view(old(groups)@) }).absorb(record@) {
            Some(next) => fits && next.groups == groups_view(final(groups)@) && next.wf()
                && next.held_by(processor),
            None => !fits,
        },
{
    let ghost before = ParametersView { groups: groups_view(groups@) };
    match record {
        Record::Group { id, name, locked, description } => {
            match find_id(groups, id) {
                Some(i) => {
                    assert(before.groups[i as int].id == id);
                    return false;
                },
                None => {},
            }
            match find_group(groups, name.as_slice()) {
                Some(i) => {
                    assert(same_name(before.groups[i as int].name, name@));
                    return false;
                },
                None => {},
            }
            assert forall|i: int| 0 <= i < before.groups.len() implies (#[trigger] before.groups[i]).id
                != id && !same_name(before.groups[i].name, name@) by {
                assert(before.groups[i] == group_view(groups@[i]));
            }
            let group = Group { id, name, description, locked, entries: Vec::new() };
            assert(group_view(group).entries =~= Seq::empty());
            groups.push(group);
            proof {
                let next = before.absorb(record@).unwrap();
                assert(groups_view(groups@) =~= next.groups);
            }
            true
        },
        Record::Parameter { group_id, name, parameter } => {
            let i: usize = match find_id(groups, group_id) {
                Some(i) => i,
                None => {
                    assert forall|i: int| 0 <= i < before.groups.len() implies (
                    #[trigger] before.groups[i]).id != group_id by {
                        assert(before.groups[i] == group_view(groups@[i]));
                    }
                    return false;
                },
            };
            assert(before.groups[i as int] == group_view(groups@[i as int]));
            proof {
                lemma_id_index(before, group_id, i as int);
            }
            match find_entry(&groups[i].entries, name.as_slice()) {
                Some(j) => {
                    assert(same_name(before.groups[i as int].entries[j as int].0, name@));
                    return false;
                },
                None => {},
            }
            assert forall|j: int| 0 <= j < before.groups[i as int].entries.len() implies !same_name(
                (#[trigger] before.groups[i as int].entries[j]).0,
                name@,
            ) by {
                assert(before.groups[i as int].entries[j].0 == groups@[i as int].entries@[j].name@);
            }
            let mut taken: Group = groups.remove(i);
            taken.entries.push(Entry { name, parameter });
            let ghost longer = group_view(taken);
            groups.insert(i, taken);
            proof {
                let next = before.absorb(record@).unwrap();
                assert(longer.entries =~= before.groups[i as int].entries.push((name@, parameter@)));
                assert(groups_view(groups@) =~= next.groups);
                assert forall|k: int| 0 <= k < next.groups.len() implies (#[trigger] next.groups[k]).wf()
                    && next.groups[k].held_by(processor) by {
                    if k != i {
                        assert(next.groups[k] == before.groups[k]);
                    }
                }
            }
            true
        },
    }
}

/// The records of parameters one after the other are the records of the
/// first ones followed by those of the others.
pub(crate) proof fn lemma_entries_bytes_concat(
    processor: Processor,
    id: u8,
    first: Seq<(Seq<u8>, ParameterView)>,
    then: Seq<(Seq<u8>, ParameterView)>,
)
    ensures
        entries_bytes(processor, id, first + then) == entries_bytes(processor, id, first)
            + entries_bytes(processor, id, then),
    decreases first.len(),
{
    if first.len() == 0 {
        assert(first + then =~= then);
        assert(entries_bytes(processor, id, first) + entries_bytes(processor, id, then)
            =~= entries_bytes(processor, id, then));
    } else {
        assert((first + then).drop_first() =~= first.drop_first() + then);
        lemma_entries_bytes_concat(processor, id, first.drop_first(), then);
        let head = first[0].1.record(processor, first[0].0, id, first[0].1.locked);
        assert(head + (entries_bytes(processor, id, first.drop_first()) + entries_bytes(
            processor,
            id,
            then,
        )) =~= (head + entries_bytes(processor, id, first.drop_first())) + entries_bytes(
            processor,
            id,
            then,
        ));
    }
}

/// The records of one parameter alone are its record.
pub(crate) proof fn lemma_single_entry(processor: Processor, id: u8, name: Seq<u8>, parameter: ParameterView)
    ensures
        entries_bytes(processor, id, seq![(name, parameter)]) == parameter.record(
            processor,
            name,
            id,
            parameter.locked,
        ),
{
    let entries = seq![(name, parameter)];
    assert(entries.drop_first() =~= Seq::empty());
    assert(entries_bytes(processor, id, entries.drop_first()) =~= Seq::empty());
    assert(entries_bytes(processor, id, entries) =~= parameter.record(processor, name, id, parameter.locked));
}

/// What a well-formed store holds under a name is well-formed, and held by
/// a layout that holds the store.
pub proof fn lemma_lookup(processor: Processor, store: ParametersView, group: Seq<u8>, name: Seq<u8>)
    requires
        store.wf(),
        store.has(group, name),
    ensures
        store.lookup(group, name) matches Some(p) && p.wf() && (store.held_by(processor)
            ==> p.data.held_by(processor)),
{
    let i = store.group_index(group);
    let g = store.groups[i];
    let j = g.index_of(name);
    assert(g.wf());
    assert(g.entries[j].1.wf());
    if store.held_by(processor) {
        assert(g.held_by(processor));
        assert(g.entries[j].1.data.held_by(processor));
    }
}

/// Taking a parameter out of a well-formed store leaves a well-formed store
/// with the same groups under the same ids. The parameter is gone, no other
/// name has come, and a layout that held the store holds what is left.
pub proof fn lemma_without(processor: Processor, store: ParametersView, group: Seq<u8>, name: Seq<u8>)
    requires
        store.wf(),
    ensures
        store.without(group, name).wf(),
        !store.without(group, name).has(group, name),
        store.held_by(processor) ==> store.without(group, name).held_by(processor),
        forall|other: Seq<u8>|
            store.without(group, name).has_group(other) == store.has_group(other)
                && store.without(group, name).group_id_of(other) == store.group_id_of(other),
        forall|other: Seq<u8>|
            !store.has(group, other) ==> !#[trigger] store.without(group, name).has(group, other),
{
    let after = store.without(group, name);
    if store.has(group, name) {
        let i = store.group_index(group);
        let g = store.groups[i];
        let j = g.index_of(name);
        let h = after.groups[i];
        lemma_without_wf(store, i, j);
        assert forall|a: int| 0 <= a < h.entries.len() implies exists|b: int|
            0 <= b < g.entries.len() && b != j && g.entries[b] == #[trigger] h.entries[a] by {
            let b = if a < j { a } else { a + 1 };
            assert(g.entries[b] == h.entries[a]);
        }
        assert forall|other: Seq<u8>|
            after.has_group(other) == store.has_group(other) && after.group_id_of(other)
                == store.group_id_of(other) by {
            if store.has_group(other) {
                let k = store.group_index(other);
                assert(after.groups[k].name == store.groups[k].name);
                lemma_group_index(after, other, k);
            }
            if after.has_group(other) {
                let k = after.group_index(other);
                assert(after.groups[k].name == store.groups[k].name);
                lemma_group_index(store, other, k);
            }
        }
        assert(after.group_index(group) == i) by {
            assert(after.groups[i].name == store.groups[i].name);
            lemma_group_index(after, group, i);
        }
        if h.has(name) {
            let a = h.index_of(name);
            let b = choose|b: int| 0 <= b < g.entries.len() && b != j && g.entries[b] == h.entries[a];
            lemma_entry_index(g, name, b);
        }
        assert forall|other: Seq<u8>| !store.has(group, other) implies !#[trigger] after.has(
            group,
            other,
        ) by {
            if h.has(other) {
                let a = h.index_of(other);
                let b = choose|b: int| 0 <= b < g.entries.len() && b != j && g.entries[b] == h.entries[a];
                assert(same_name(g.entries[b].0, other));
            }
        }
        if store.held_by(processor) {
            assert forall|k: int| 0 <= k < after.groups.len() implies (#[trigger] after.groups[k]).held_by(
                processor,
            ) by {
                assert(store.groups[k].held_by(processor));
                if k == i {
                    assert forall|a: int| 0 <= a < h.entries.len() implies (
                    #[trigger] h.entries[a]).1.data.held_by(processor) by {
                        let b = if a < j { a } else { a + 1 };
                        assert(g.entries[b] == h.entries[a]);
                    }
                }
            }
        }
    }
}

/// Whether two pairs of names mean the same parameter of the same group.
pub open spec fn same_key(group: Seq<u8>, name: Seq<u8>, other_group: Seq<u8>, other_name: Seq<u8>) -> bool {
    same_name(group, other_group) && same_name(name, other_name)
}

/// Where a parameter is in a well-formed store, if the store holds it: the
/// same place under whatever spelling of its names.
proof fn lemma_place(store: ParametersView, group: Seq<u8>, name: Seq<u8>, i: int, j: int)
    requires
        store.wf(),
        0 <= i < store.groups.len(),
        0 <= j < store.groups[i].entries.len(),
        same_name(store.groups[i].name, group),
        same_name(store.groups[i].entries[j].0, name),
    ensures
        store.has(group, name),
        store.group_index(group) == i,
        store.groups[i].index_of(name) == j,
        store.lookup(group, name) == Some(store.groups[i].entries[j].1),
        store.without(group, name).groups == store.groups.update(
            i,
            GroupView { entries: store.groups[i].entries.remove(j), ..store.groups[i] },
        ),
{
    lemma_group_index(store, group, i);
    assert(store.groups[i].wf());
    lemma_entry_index(store.groups[i], name, j);
}

/// Taking one parameter out of a well-formed store does not touch another:
/// what is found under other names stays the same.
pub proof fn lemma_without_keeps(
    store: ParametersView,
    group: Seq<u8>,
    name: Seq<u8>,
    other_group: Seq<u8>,
    other_name: Seq<u8>,
)
    requires
        store.wf(),
        !same_key(group, name, other_group, other_name),
    ensures
        store.without(group, name).lookup(other_group, other_name) == store.lookup(
            other_group,
            other_name,
        ),
{
    let after = store.without(group, name);
    if store.has(group, name) {
        let i = store.group_index(group);
        let g = store.groups[i];
        let j = g.index_of(name);
        let h = after.groups[i];
        lemma_without_wf(store, i, j);
        assert(g.wf());
        if store.has_group(other_group) {
            let k = store.group_index(other_group);
            assert(after.groups[k].name == store.groups[k].name);
            lemma_group_index(after, other_group, k);
            if k == i {
                if g.has(other_name) {
                    let m = g.index_of(other_name);
                    let m2 = if m < j { m } else { m - 1 };
                    assert(m != j);
                    assert(h.entries[m2] == g.entries[m]);
                    assert(h.wf());
                    lemma_entry_index(h, other_name, m2);
                } else if h.has(other_name) {
                    let a = h.index_of(other_name);
                    let b = if a < j { a } else { a + 1 };
                    assert(g.entries[b] == h.entries[a]);
                }
            } else {
                assert(after.groups[k] == store.groups[k]);
            }
        } else if after.has_group(other_group) {
            let k = after.group_index(other_group);
            assert(after.groups[k].name == store.groups[k].name);
        }
    }
}

/// Taking the same parameter out twice, under whatever spellings of its
/// names, is taking it out once.
proof fn lemma_without_again(
    store: ParametersView,
    group: Seq<u8>,
    name: Seq<u8>,
    other_group: Seq<u8>,
    other_name: Seq<u8>,
)
    requires
        store.wf(),
        same_key(group, name, other_group, other_name),
    ensures
        store.without(group, name) == store.without(other_group, other_name),
        store.without(group, name).without(other_group, other_name) == store.without(group, name),
{
    let one = store.without(group, name);
    let other = store.without(other_group, other_name);
    lemma_without(Processor::Intel, store, group, name);
    if store.has(group, name) {
        let i = store.group_index(group);
        let j = store.groups[i].index_of(name);
        lemma_place(store, other_group, other_name, i, j);
        assert(one.groups == other.groups);
    } else if store.has(other_group, other_name) {
        let i = store.group_index(other_group);
        let j = store.groups[i].index_of(other_name);
        lemma_place(store, group, name, i, j);
    }
    assert(one == other);
    if one.has(other_group, other_name) {
        let i = one.group_index(other_group);
        let j = one.groups[i].index_of(other_name);
        lemma_place(one, group, name, i, j);
    }
}

/// Two different parameters that a well-formed store holds can be taken
/// out in either order.
proof fn lemma_without_both(
    store: ParametersView,
    group: Seq<u8>,
    name: Seq<u8>,
    other_group: Seq<u8>,
    other_name: Seq<u8>,
)
    requires
        store.wf(),
        !same_key(group, name, other_group, other_name),
        store.has(group, name),
        store.has(other_group, other_name),
    ensures
        store.without(group, name).without(other_group, other_name) == store.without(
            other_group,
            other_name,
        ).without(group, name),
{
    let one = store.without(group, name);
    let other = store.without(other_group, other_name);
    let i = store.group_index(group);
    let g = store.groups[i];
    let j = g.index_of(name);
    let k = store.group_index(other_group);
    let f = store.groups[k];
    let m = f.index_of(other_name);
    lemma_without_wf(store, i, j);
    lemma_without_wf(store, k, m);
    assert(g.wf() && f.wf());
    assert(one.groups[k].name == store.groups[k].name);
    assert(other.groups[i].name == store.groups[i].name);
    if i == k {
        assert(m != j);
        let m2 = if m < j { m } else { m - 1 };
        let j2 = if j < m { j } else { j - 1 };
        assert(one.groups[i].entries[m2] == g.entries[m]);
        assert(other.groups[i].entries[j2] == g.entries[j]);
        lemma_place(one, other_group, other_name, i, m2);
        lemma_place(other, group, name, i, j2);
        assert(g.entries.remove(j).remove(m2) =~= g.entries.remove(m).remove(j2));
        assert(one.without(other_group, other_name).groups =~= other.without(group, name).groups);
    } else {
        assert(one.groups[k] == f);
        assert(other.groups[i] == g);
        lemma_place(one, other_group, other_name, k, m);
        lemma_place(other, group, name, i, j);
        assert(one.without(other_group, other_name).groups =~= other.without(group, name).groups);
    }
}

/// Parameters can be taken out of a well-formed store in any order: what is
/// left is the same.
pub proof fn lemma_without_commutes(
    store: ParametersView,
    group: Seq<u8>,
    name: Seq<u8>,
    other_group: Seq<u8>,
    other_name: Seq<u8>,
)
    requires
        store.wf(),
    ensures
        store.without(group, name).without(other_group, other_name) == store.without(
            other_group,
            other_name,
        ).without(group, name),
{
    if same_key(group, name, other_group, other_name) {
        lemma_without_again(store, group, name, other_group, other_name);
        lemma_without_again(store, other_group, other_name, group, name);
    } else {
        lemma_without_keeps(store, group, name, other_group, other_name);
        lemma_without_keeps(store, other_group, other_name, group, name);
        if store.has(group, name) && store.has(other_group, other_name) {
            lemma_without_both(store, group, name, other_group, other_name);
        }
    }
}

/// A store that loses one parameter stays well-formed.
proof fn lemma_without_wf(store: ParametersView, i: int, j: int)
    requires
        store.wf(),
        0 <= i < store.groups.len(),
        0 <= j < store.groups[i].entries.len(),
    ensures
        (ParametersView {
            groups: store.groups.update(
                i,
                GroupView { entries: store.groups[i].entries.remove(j), ..store.groups[i] },
            ),
        }).wf(),
{
    let g = store.groups[i];
    let shorter = GroupView { entries: g.entries.remove(j), ..g };
    let after = ParametersView { groups: store.groups.update(i, shorter) };
    assert(g.wf());
    assert forall|a: int| 0 <= a < shorter.entries.len() implies valid_name(
        (#[trigger] shorter.entries[a]).0,
    ) && shorter.entries[a].1.wf() by {
        let b = if a < j { a } else { a + 1 };
        assert(shorter.entries[a] == g.entries[b]);
    }
    assert forall|a: int, b: int| 0 <= a < b < shorter.entries.len() implies !same_name(
        (#[trigger] shorter.entries[a]).0,
        (#[trigger] shorter.entries[b]).0,
    ) by {
        let a2 = if a < j { a } else { a + 1 };
        let b2 = if b < j { b } else { b + 1 };
        assert(shorter.entries[a] == g.entries[a2]);
        assert(shorter.entries[b] == g.entries[b2]);
    }
    assert forall|k: int| 0 <= k < after.groups.len() implies (#[trigger] after.groups[k]).wf() by {
        if k != i {
            assert(after.groups[k] == store.groups[k]);
        }
    }
    assert forall|a: int, b: int| 0 <= a < b < after.groups.len() implies (#[trigger] after.groups[a]).id
        != (#[trigger] after.groups[b]).id && !same_name(after.groups[a].name, after.groups[b].name) by {
        assert(after.groups[a].id == store.groups[a].id);
        assert(after.groups[b].id == store.groups[b].id);
        assert(after.groups[a].name == store.groups[a].name);
        assert(after.groups[b].name == store.groups[b].name);
    }
}

} // verus!
