//! The project that describes a place: a tree of partitions, kept in the order of their names.

use crate::path::{copy_path, path_view, PartView, PathComponent};
use crate::text::{
    copy_of, is_before, lemma_text_order_is_total, lemma_text_order_is_transitive, same_text,
    text_before,
};
use vstd::prelude::*;

verus! {

/// A part of the project: an instance of a class, with what is known of its children and the
/// path that the rest is read from.
#[derive(Debug, PartialEq, Eq)]
pub struct TreePartition {
    pub class_name: String,
    pub children: Vec<(String, TreePartition)>,
    pub ignore_unknown_instances: bool,
    pub path: Option<Vec<PathComponent>>,
}

/// What a partition holds.
#[verifier::ext_equal]
pub struct PartitionView {
    pub class_name: Seq<char>,
    pub children: Seq<(Seq<char>, PartitionView)>,
    pub ignore_unknown_instances: bool,
    pub path: Option<Seq<PartView>>,
}

/// What an optional path holds.
pub open spec fn optional_path(p: Option<Vec<PathComponent>>) -> Option<Seq<PartView>> {
    match p {
        Some(path) => Some(path_view(path@)),
        None => None,
    }
}

/// What the partition `p` holds.
pub open spec fn partition_view(p: TreePartition) -> PartitionView
    decreases p,
{
    PartitionView {
        class_name: p.class_name@,
        children: entries_view(p.children@),
        ignore_unknown_instances: p.ignore_unknown_instances,
        path: optional_path(p.path),
    }
}

/// What named partitions hold, in order.
pub open spec fn entries_view(entries: Seq<(String, TreePartition)>) -> Seq<
    (Seq<char>, PartitionView),
>
    decreases entries,
{
    Seq::new(
        entries.len(),
        |i: int|
            if 0 <= i < entries.len() {
                (entries[i].0@, partition_view(entries[i].1))
            } else {
                arbitrary()
            },
    )
}

/// Whether the names of the entries rise.
pub open spec fn is_sorted(entries: Seq<(Seq<char>, PartitionView)>) -> bool {
    forall|i: int, j: int|
        0 <= i < j < entries.len() ==> text_before(
            (#[trigger] entries[i]).0,
            (#[trigger] entries[j]).0,
        )
}

/// Whether a partition is in order: the names of its children rise, so that each occurs once,
/// and so it is with every partition below.
pub open spec fn is_ordered(p: PartitionView) -> bool
    decreases p,
{
    is_tree_ordered(p.children)
}

/// Whether named partitions are in order, and each of them in itself.
pub open spec fn is_tree_ordered(entries: Seq<(Seq<char>, PartitionView)>) -> bool
    decreases entries,
{
    &&& is_sorted(entries)
    &&& forall|i: int| 0 <= i < entries.len() ==> is_ordered((#[trigger] entries[i]).1)
}

/// Whether one of the entries has the name `name`.
pub open spec fn has_name(entries: Seq<(Seq<char>, PartitionView)>, name: Seq<char>) -> bool {
    exists|i: int| 0 <= i < entries.len() && (#[trigger] entries[i]).0 == name
}

/// Where an entry with the name `name` goes: behind the last entry whose name comes before it.
pub open spec fn place_for(entries: Seq<(Seq<char>, PartitionView)>, name: Seq<char>) -> int
    decreases entries.len(),
{
    if entries.len() == 0 {
        0
    } else if text_before(entries.last().0, name) {
        entries.len() as int
    } else {
        place_for(entries.drop_last(), name)
    }
}

/// The entries with one more, in its place.
pub open spec fn with_entry(
    entries: Seq<(Seq<char>, PartitionView)>,
    name: Seq<char>,
    partition: PartitionView,
) -> Seq<(Seq<char>, PartitionView)> {
    entries.insert(place_for(entries, name), (name, partition))
}

/// A project: its name and its tree.
#[derive(Debug, PartialEq, Eq)]
pub struct Project {
    pub name: String,
    pub tree: Vec<(String, TreePartition)>,
}

/// What stands behind a name in a serialized tree.
#[derive(Clone, Copy, Debug, PartialEq, Eq)]
pub enum EntryValue<'a> {
    Text(&'a str),
    Partition(&'a TreePartition),
}

/// What a serialized entry holds behind its name.
#[verifier::ext_equal]
pub enum ValueView {
    Text(Seq<char>),
    Partition(PartitionView),
}

/// What a serialized entry holds.
pub open spec fn serialized_view(entry: (&str, EntryValue)) -> (Seq<char>, ValueView) {
    (
        entry.0@,
        match entry.1 {
            EntryValue::Text(text) => ValueView::Text(text@),
            EntryValue::Partition(p) => ValueView::Partition(partition_view(*p)),
        },
    )
}

/// The entries of a serialized tree: the class of the root, then the partitions in order.
pub open spec fn serialized_tree(entries: Seq<(Seq<char>, PartitionView)>) -> Seq<
    (Seq<char>, ValueView),
> {
    seq![("$className"@, ValueView::Text("DataModel"@))] + Seq::new(
        entries.len(),
        |i: int| (entries[i].0, ValueView::Partition(entries[i].1)),
    )
}

impl Clone for TreePartition {
    fn clone(&self) -> (r: Self)
        ensures
            partition_view(r) == partition_view(*self),
        decreases *self, 1int,
    {
        TreePartition {
            class_name: copy_of(self.class_name.as_str()),
            children: copy_entries(&self.children),
            ignore_unknown_instances: self.ignore_unknown_instances,
            path: match &self.path {
                Some(path) => Some(copy_path(path)),
                None => None,
            },
        }
    }
}

/// Named partitions that hold the same.
fn copy_entries(entries: &Vec<(String, TreePartition)>) -> (r: Vec<(String, TreePartition)>)
    ensures
        entries_view(r@) == entries_view(entries@),
    decreases *entries, 0int,
{
    let mut out: Vec<(String, TreePartition)> = Vec::new();
    let mut i: usize = 0;
    while i < entries.len()
        invariant
            i <= entries.len(),
            entries_view(out@) == entries_view(entries@).take(i as int),
        decreases entries.len() - i,
    {
        let ghost before = out@;
        assert(decreases_to!(*entries => entries@));
        assert(decreases_to!(entries@ => entries@[i as int]));
        assert(decreases_to!(entries@[i as int] => entries@[i as int].1));
        out.push((copy_of(entries[i].0.as_str()), entries[i].1.clone()));
        i = i + 1;
        assert(entries_view(out@) =~= entries_view(before).push(entries_view(entries@)[i - 1]));
        assert(entries_view(out@) =~= entries_view(entries@).take(i as int));
    }
    assert(entries_view(entries@).take(i as int) =~= entries_view(entries@));
    out
}

/// Whether a partition is in order.
pub fn is_partition_ordered(p: &TreePartition) -> (r: bool)
    ensures
        r == is_ordered(partition_view(*p)),
    decreases *p, 1int,
{
    are_entries_ordered(&p.children)
}

/// Whether named partitions are in order, and each of them in itself.
fn are_entries_ordered(entries: &Vec<(String, TreePartition)>) -> (r: bool)
    ensures
        r == is_tree_ordered(entries_view(entries@)),
    decreases *entries, 0int,
{
    let ghost all = entries_view(entries@);
    let mut i: usize = 0;
    while i < entries.len()
        invariant
            i <= entries.len(),
            all == entries_view(entries@),
            forall|j: int, k: int|
                0 <= j < k < i ==> text_before((#[trigger] all[j]).0, (#[trigger] all[k]).0),
            forall|j: int| 0 <= j < i ==> is_ordered((#[trigger] all[j]).1),
        decreases entries.len() - i,
    {
        assert(decreases_to!(*entries => entries@));
        assert(decreases_to!(entries@ => entries@[i as int]));
        assert(decreases_to!(entries@[i as int] => entries@[i as int].1));
        assert(all[i as int] == (entries@[i as int].0@, partition_view(entries@[i as int].1)));
        if !is_partition_ordered(&entries[i].1) {
            return false;
        }
        if i > 0 {
            assert(all[i - 1].0 == entries@[i - 1].0@);
            if !is_before(entries[i - 1].0.as_str(), entries[i].0.as_str()) {
                return false;
            }
            assert forall|j: int| 0 <= j < i implies text_before(
                (#[trigger] all[j]).0,
                all[i as int].0,
            ) by {
                if j < i - 1 {
                    lemma_text_order_is_transitive(all[j].0, all[i - 1].0, all[i as int].0);
                }
            }
        }
        i = i + 1;
    }
    true
}

impl Clone for Project {
    fn clone(&self) -> (r: Self)
        ensures
            r.name@ == self.name@,
            entries_view(r.tree@) == entries_view(self.tree@),
    {
        Project { name: copy_of(self.name.as_str()), tree: copy_entries(&self.tree) }
    }
}

/// The entries of the tree as they are serialized, in order.
pub fn serialize_project_tree<'a>(tree: &'a Vec<(String, TreePartition)>) -> (r: Vec<
    (&'a str, EntryValue<'a>),
>)
    ensures
        r@.len() == serialized_tree(entries_view(tree@)).len(),
        forall|i: int|
            0 <= i < r@.len() ==> serialized_view(#[trigger] r@[i]) == serialized_tree(
                entries_view(tree@),
            )[i],
{
    let mut out: Vec<(&'a str, EntryValue<'a>)> = Vec::new();
    out.push(("$className", EntryValue::Text("DataModel")));
    let mut i: usize = 0;
    while i < tree.len()
        invariant
            i <= tree.len(),
            out@.len() == i + 1,
            forall|k: int|
                0 <= k < out@.len() ==> serialized_view(#[trigger] out@[k]) == serialized_tree(
                    entries_view(tree@),
                )[k],
        decreases tree.len() - i,
    {
        out.push((tree[i].0.as_str(), EntryValue::Partition(&tree[i].1)));
        i = i + 1;
    }
    out
}

impl Project {
    /// Whether the tree is in order, with all that is in it.
    pub open spec fn wf(&self) -> bool {
        is_tree_ordered(entries_view(self.tree@))
    }

    /// A project with nothing in it.
    pub fn new() -> (r: Self)
        ensures
            r.wf(),
            r.name@ == "project"@,
            entries_view(r.tree@) == Seq::<(Seq<char>, PartitionView)>::empty(),
    {
        let tree: Vec<(String, TreePartition)> = Vec::new();
        assert(entries_view(tree@) =~= Seq::<(Seq<char>, PartitionView)>::empty());
        Project { name: copy_of("project"), tree }
    }

    /// Whether the tree has an entry with the name `name`.
    pub fn has(&self, name: &str) -> (r: bool)
        ensures
            r == has_name(entries_view(self.tree@), name@),
    {
        let mut i: usize = 0;
        while i < self.tree.len()
            invariant
                i <= self.tree.len(),
                forall|k: int|
                    0 <= k < i ==> (#[trigger] entries_view(self.tree@)[k]).0 != name@,
            decreases self.tree.len() - i,
        {
            assert(entries_view(self.tree@)[i as int].0 == self.tree@[i as int].0@);
            if same_text(self.tree[i].0.as_str(), name) {
                return true;
            }
            i = i + 1;
        }
        false
    }

    /// Puts a partition into the tree, which has none of that name yet.
    pub fn insert(&mut self, name: String, partition: TreePartition)
        requires
            old(self).wf(),
            !has_name(entries_view(old(self).tree@), name@),
            is_ordered(partition_view(partition)),
        ensures
            final(self).wf(),
            final(self).name == old(self).name,
            entries_view(final(self).tree@) == with_entry(
                entries_view(old(self).tree@),
                name@,
                partition_view(partition),
            ),
    {
        let ghost before = entries_view(self.tree@);
        let ghost called = name@;
        let ghost held = partition_view(partition);
        let mut i: usize = self.tree.len();
        assert(before.take(i as int) =~= before);
        while i > 0 && !is_before(self.tree[i - 1].0.as_str(), name.as_str())
            invariant
                i <= self.tree.len(),
                before == entries_view(self.tree@),
                place_for(before, name@) == place_for(before.take(i as int), name@),
            decreases i,
        {
            assert(before.take(i as int).drop_last() =~= before.take(i - 1));
            assert(before.take(i as int).last() == before[i - 1]);
            i = i - 1;
        }
        proof {
            if i > 0 {
                assert(before.take(i as int).last() == before[i - 1]);
            }
            law_tree_stays_ordered(before, called, held);
        }
        self.tree.insert(i, (name, partition));
        assert(entries_view(self.tree@) =~= before.insert(i as int, (called, held)));
    }
}

/// To put a partition that is in order in its place keeps the tree in order, and every entry
/// that was in it.
pub proof fn law_tree_stays_ordered(
    entries: Seq<(Seq<char>, PartitionView)>,
    name: Seq<char>,
    partition: PartitionView,
)
    requires
        is_tree_ordered(entries),
        is_ordered(partition),
        !has_name(entries, name),
    ensures
        is_tree_ordered(with_entry(entries, name, partition)),
        forall|e: (Seq<char>, PartitionView)|
            with_entry(entries, name, partition).contains(e) <==> entries.contains(e) || e == (
                name,
                partition,
            ),
{
    let at = place_for(entries, name);
    let after = with_entry(entries, name, partition);
    lemma_place(entries, name);
    assert forall|i: int, j: int| 0 <= i < j < after.len() implies text_before(
        (#[trigger] after[i]).0,
        (#[trigger] after[j]).0,
    ) by {
        if i < at {
            assert(after[i] == entries[i]);
        } else if i > at {
            assert(after[i] == entries[i - 1]);
        }
        if j < at {
            assert(after[j] == entries[j]);
        } else if j > at {
            assert(after[j] == entries[j - 1]);
        }
    }
    assert forall|i: int| 0 <= i < after.len() implies is_ordered((#[trigger] after[i]).1) by {
        if i < at {
            assert(after[i] == entries[i]);
        } else if i > at {
            assert(after[i] == entries[i - 1]);
        }
    }
    assert forall|e: (Seq<char>, PartitionView)| after.contains(e) <==> entries.contains(e) || e
        == (name, partition) by {
        if entries.contains(e) {
            let i = choose|i: int| 0 <= i < entries.len() && entries[i] == e;
            assert(after[if i < at {
                i
            } else {
                i + 1
            }] == e);
        }
        assert(after[at] == (name, partition));
        if after.contains(e) {
            let i = choose|i: int| 0 <= i < after.len() && after[i] == e;
            if i < at {
                assert(entries[i] == e);
            } else if i > at {
                assert(entries[i - 1] == e);
            }
        }
    }
}

proof fn lemma_place(entries: Seq<(Seq<char>, PartitionView)>, name: Seq<char>)
    requires
        is_sorted(entries),
        !has_name(entries, name),
    ensures
        0 <= place_for(entries, name) <= entries.len(),
        forall|i: int|
            0 <= i < place_for(entries, name) ==> text_before((#[trigger] entries[i]).0, name),
        forall|i: int|
            place_for(entries, name) <= i < entries.len() ==> text_before(
                name,
                (#[trigger] entries[i]).0,
            ),
    decreases entries.len(),
{
    if entries.len() > 0 {
        let last = entries[entries.len() - 1].0;
        lemma_text_order_is_total(last, name);
        if text_before(last, name) {
            assert forall|i: int| 0 <= i < entries.len() implies text_before(
                (#[trigger] entries[i]).0,
                name,
            ) by {
                if i < entries.len() - 1 {
                    lemma_text_order_is_transitive(entries[i].0, last, name);
                }
            }
        } else {
            let rest = entries.drop_last();
            assert forall|i: int| 0 <= i < rest.len() implies (#[trigger] rest[i]).0 != name by {
                assert(entries[i].0 != name);
            }
            lemma_place(rest, name);
            assert forall|i: int| place_for(entries, name) <= i < entries.len() implies text_before(
                name,
                (#[trigger] entries[i]).0,
            ) by {
                if i < rest.len() {
                    assert(rest[i] == entries[i]);
                }
            }
            assert forall|i: int| 0 <= i < place_for(entries, name) implies text_before(
                (#[trigger] entries[i]).0,
                name,
            ) by {
                assert(rest[i] == entries[i]);
            }
        }
    }
}

/// What is seen of a partition is all that is in it.
pub proof fn law_view_of_partition_is_whole(p: TreePartition, i: int)
    ensures
        partition_view(p).class_name == p.class_name@,
        partition_view(p).ignore_unknown_instances == p.ignore_unknown_instances,
        partition_view(p).path is Some <==> p.path is Some,
        p.path is Some ==> partition_view(p).path->0 == path_view(p.path->0@),
        partition_view(p).children.len() == p.children@.len(),
        0 <= i < p.children@.len() ==> partition_view(p).children[i] == (
            p.children@[i].0@,
            partition_view(p.children@[i].1),
        ),
{
}

/// A tree is serialized in full and in order, behind the class of its root.
pub proof fn law_tree_is_serialized_in_full(entries: Seq<(Seq<char>, PartitionView)>, i: int)
    ensures
        serialized_tree(entries).len() == entries.len() + 1,
        serialized_tree(entries)[0] == ("$className"@, ValueView::Text("DataModel"@)),
        0 <= i < entries.len() ==> serialized_tree(entries)[i + 1] == (
            entries[i].0,
            ValueView::Partition(entries[i].1),
        ),
{
}

/// What is seen of a serialized entry is all that is in it.
pub proof fn law_view_of_entry_is_whole(name: &str, text: &str, p: &TreePartition)
    ensures
        serialized_view((name, EntryValue::Text(text))) == (name@, ValueView::Text(text@)),
        serialized_view((name, EntryValue::Partition(p))) == (
            name@,
            ValueView::Partition(partition_view(*p)),
        ),
{
}

/// One entry more leaves all others as they are, in the order they had, and has the name and the
/// partition that it was given.
pub proof fn law_entries_stay_in_turn(
    entries: Seq<(Seq<char>, PartitionView)>,
    name: Seq<char>,
    partition: PartitionView,
)
    requires
        is_sorted(entries),
        !has_name(entries, name),
    ensures
        with_entry(entries, name, partition).len() == entries.len() + 1,
        exists|at: int|
            {
                &&& 0 <= at <= entries.len()
                &&& #[trigger] with_entry(entries, name, partition)[at] == (name, partition)
                &&& with_entry(entries, name, partition).remove(at) == entries
            },
{
    lemma_place(entries, name);
    let at = place_for(entries, name);
    let after = with_entry(entries, name, partition);
    assert(after[at] == (name, partition));
    assert(after.remove(at) =~= entries);
}

/// A tree is in order where its names rise, so that none occurs twice, and where what is below each
/// of them is in order; and nowhere else.
pub proof fn law_ordered_names_rise(
    entries: Seq<(Seq<char>, PartitionView)>,
    partition: PartitionView,
)
    ensures
        is_ordered(partition) <==> is_tree_ordered(partition.children),
        is_tree_ordered(entries) <==> {
            &&& forall|i: int, j: int|
                0 <= i < j < entries.len() ==> text_before(
                    (#[trigger] entries[i]).0,
                    (#[trigger] entries[j]).0,
                )
            &&& forall|i: int|
                0 <= i < entries.len() ==> is_tree_ordered((#[trigger] entries[i]).1.children)
        },
        is_tree_ordered(entries) ==> forall|i: int, j: int|
            0 <= i < j < entries.len() ==> (#[trigger] entries[i]).0 != (#[trigger] entries[j]).0,
{
    if is_tree_ordered(entries) {
        assert forall|i: int| 0 <= i < entries.len() implies is_tree_ordered(
            (#[trigger] entries[i]).1.children,
        ) by {
            assert(is_ordered(entries[i].1));
        }
        assert forall|i: int, j: int| 0 <= i < j < entries.len() implies (#[trigger] entries[i]).0
            != (#[trigger] entries[j]).0 by {
            lemma_text_order_is_total(entries[i].0, entries[j].0);
            lemma_text_order_is_total(entries[i].0, entries[i].0);
        }
    }
    if forall|i: int| 0 <= i < entries.len() ==> is_tree_ordered((#[trigger] entries[i]).1.children) {
        assert forall|i: int| 0 <= i < entries.len() implies is_ordered((#[trigger] entries[i]).1) by {
            assert(is_tree_ordered(entries[i].1.children));
        }
    }
}

/// The tree has the names that were put into it, and no other.
pub proof fn law_names_are_those_put_in(
    entries: Seq<(Seq<char>, PartitionView)>,
    name: Seq<char>,
    partition: PartitionView,
    other: Seq<char>,
)
    requires
        is_sorted(entries),
        !has_name(entries, name),
    ensures
        !has_name(Seq::<(Seq<char>, PartitionView)>::empty(), other),
        has_name(with_entry(entries, name, partition), other) <==> has_name(entries, other) || other
            == name,
{
    lemma_place(entries, name);
    let at = place_for(entries, name);
    let after = with_entry(entries, name, partition);
    assert(after[at].0 == name);
    if has_name(entries, other) {
        let i = choose|i: int| 0 <= i < entries.len() && (#[trigger] entries[i]).0 == other;
        assert(after[if i < at {
            i
        } else {
            i + 1
        }].0 == other);
    }
    if has_name(after, other) {
        let i = choose|i: int| 0 <= i < after.len() && (#[trigger] after[i]).0 == other;
        if i < at {
            assert(entries[i].0 == other);
        } else if i > at {
            assert(entries[i - 1].0 == other);
        }
    }
}

} // verus!
