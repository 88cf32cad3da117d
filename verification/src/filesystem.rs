//! A project on its way to the file system: what the instructions put into the project, and
//! which files and folders they ask for.

use crate::component::{is_accepted_name, sanitized_component};
use crate::path::{
    copy_path, is_path_sound, is_plain, is_relative, is_verbatim, is_worked_out, join, joined,
    law_names_are_sanitized_one_by_one, law_relative_paths_go_on,
    law_sanitizing_and_joining_commute, lemma_plain_walk, lemma_walks_add_up, path_can_sanitize,
    path_of, path_view, sanitize_path, sanitized_parts, sanitized_path, single, PartView,
    PathComponent,
};
use crate::project::{
    entries_view, has_name, is_ordered, is_partition_ordered, optional_path, partition_view,
    serialize_project_tree, serialized_tree, serialized_view, with_entry, EntryValue, PartitionView,
    Project, TreePartition,
};
use crate::text::{folded, text_before};
use vstd::prelude::*;

verus! {

/// One step in making a project.
#[derive(Debug, PartialEq, Eq)]
pub enum Instruction {
    AddToTree { name: String, partition: TreePartition },
    CreateFile { filename: Vec<PathComponent>, contents: Vec<u8> },
    CreateFolder { folder: Vec<PathComponent> },
}

/// What an instruction asks of the file system.
#[derive(Debug, PartialEq, Eq)]
pub enum Action {
    Nothing,
    /// Create the file, or empty it, and write the contents to it.
    WriteFile { path: Vec<PathComponent>, contents: Vec<u8> },
    /// Create the folder and those that it is in.
    CreateFolder { path: Vec<PathComponent> },
}

/// The file that describes the project.
#[derive(Debug)]
pub struct ProjectFile<'a> {
    pub path: Vec<PathComponent>,
    pub name: &'a str,
    pub tree: Vec<(&'a str, EntryValue<'a>)>,
}

/// A project that is made below the folder `root`, with its files in the folder `source`.
#[derive(Debug, PartialEq, Eq)]
pub struct FileSystem {
    pub project: Project,
    pub root: Vec<PathComponent>,
    pub source: Vec<PathComponent>,
}

/// What a file system holds.
#[verifier::ext_equal]
pub struct FileSystemView {
    pub name: Seq<char>,
    pub tree: Seq<(Seq<char>, PartitionView)>,
    pub root: Seq<PartView>,
    pub source: Seq<PartView>,
}

impl View for FileSystem {
    type V = FileSystemView;

    open spec fn view(&self) -> FileSystemView {
        FileSystemView {
            name: self.project.name@,
            tree: entries_view(self.project.tree@),
            root: path_view(self.root@),
            source: path_view(self.source@),
        }
    }
}

/// The path `p` of an instruction, from the folder of the project.
pub open spec fn project_path(p: Seq<PartView>) -> Seq<PartView> {
    sanitized_path(joined(single("src"@), p))
}

/// The path `p` of an instruction in the file system.
pub open spec fn disk_path(source: Seq<PartView>, p: Seq<PartView>) -> Seq<PartView> {
    sanitized_path(joined(source, p))
}

/// A partition with its own path as seen from the folder of the project.
pub open spec fn with_project_path(p: PartitionView) -> PartitionView {
    PartitionView {
        path: match p.path {
            Some(path) => Some(project_path(path)),
            None => None,
        },
        ..p
    }
}

/// A partition as it is put into the project: its path and those of its children, though not of
/// theirs, are seen from the folder of the project.
pub open spec fn placed(p: PartitionView) -> PartitionView {
    PartitionView {
        children: Seq::new(
            p.children.len(),
            |i: int| (p.children[i].0, with_project_path(p.children[i].1)),
        ),
        ..with_project_path(p)
    }
}

/// Whether the path of a partition can be sanitized.
pub open spec fn has_sound_path(p: PartitionView) -> bool {
    match p.path {
        Some(path) => path_can_sanitize(joined(single("src"@), path)),
        None => true,
    }
}

/// Whether a partition can be put into a project: it is in order, and its path and those of its
/// children can be sanitized.
pub open spec fn can_place(p: PartitionView) -> bool {
    &&& is_ordered(p)
    &&& has_sound_path(p)
    &&& forall|i: int| 0 <= i < p.children.len() ==> has_sound_path((#[trigger] p.children[i]).1)
}

/// Whether an instruction can be followed: a name is put into the tree once only, with a
/// partition that is in order, and every name in a path can be sanitized.
pub open spec fn can_follow(fs: FileSystemView, instruction: Instruction) -> bool {
    match instruction {
        Instruction::AddToTree { name, partition } => !has_name(fs.tree, name@) && can_place(
            partition_view(partition),
        ),
        Instruction::CreateFile { filename, contents } => path_can_sanitize(
            joined(fs.source, path_view(filename@)),
        ),
        Instruction::CreateFolder { folder } => path_can_sanitize(
            joined(fs.source, path_view(folder@)),
        ),
    }
}

/// The path of an instruction, as seen from the folder of the project.
fn to_project_path(path: Option<Vec<PathComponent>>) -> (r: Option<Vec<PathComponent>>)
    requires
        match path {
            Some(p) => path_can_sanitize(joined(single("src"@), path_view(p@))),
            None => true,
        },
    ensures
        optional_path(r) == match optional_path(path) {
            Some(p) => Some(project_path(p)),
            None => None,
        },
{
    proof {
        reveal_strlit("src");
    }
    match path {
        Some(p) => Some(sanitize_path(&join(&path_of("src"), &p))),
        None => None,
    }
}

/// The partition as it is put into the project.
pub fn place_partition(partition: TreePartition) -> (r: TreePartition)
    requires
        can_place(partition_view(partition)),
    ensures
        partition_view(r) == placed(partition_view(partition)),
        is_ordered(partition_view(r)),
{
    let ghost whole = partition_view(partition);
    let TreePartition { class_name, children, ignore_unknown_instances, path } = partition;
    let ghost all = children@;
    assert(whole.children == entries_view(all));
    let mut out: Vec<(String, TreePartition)> = Vec::new();
    for entry in it: children
        invariant
            it.seq() == all,
            whole.children == entries_view(all),
            can_place(whole),
            entries_view(out@) == placed(whole).children.take(it.index()),
    {
        let ghost i = it.index();
        let ghost before = out@;
        assert(whole.children[i] == (entry.0@, partition_view(entry.1)));
        let (name, child) = entry;
        let TreePartition { class_name, children, ignore_unknown_instances, path } = child;
        let moved = TreePartition {
            class_name,
            children,
            ignore_unknown_instances,
            path: to_project_path(path),
        };
        out.push((name, moved));
        assert(entries_view(out@) =~= entries_view(before).push(placed(whole).children[i]));
        assert(entries_view(out@) =~= placed(whole).children.take(i + 1));
    }
    assert(placed(whole).children.take(all.len() as int) =~= placed(whole).children);
    proof {
        law_placing_keeps_order(whole);
    }
    TreePartition {
        class_name,
        children: out,
        ignore_unknown_instances,
        path: to_project_path(path),
    }
}

/// Whether the path of a partition can be sanitized.
fn is_partition_path_sound(p: &TreePartition) -> (r: bool)
    ensures
        r == has_sound_path(partition_view(*p)),
{
    proof {
        reveal_strlit("src");
    }
    match &p.path {
        Some(path) => is_path_sound(&join(&path_of("src"), path)),
        None => true,
    }
}

/// Whether a partition can be put into a project.
pub fn is_partition_sound(p: &TreePartition) -> (r: bool)
    ensures
        r == can_place(partition_view(*p)),
{
    if !is_partition_ordered(p) || !is_partition_path_sound(p) {
        return false;
    }
    let ghost children = partition_view(*p).children;
    let mut i: usize = 0;
    while i < p.children.len()
        invariant
            i <= p.children.len(),
            children == entries_view(p.children@),
            children == partition_view(*p).children,
            is_ordered(partition_view(*p)),
            has_sound_path(partition_view(*p)),
            forall|k: int| 0 <= k < i ==> has_sound_path((#[trigger] children[k]).1),
        decreases p.children.len() - i,
    {
        assert(children[i as int].1 == partition_view(p.children@[i as int].1));
        if !is_partition_path_sound(&p.children[i].1) {
            return false;
        }
        i = i + 1;
    }
    true
}

impl Clone for FileSystem {
    fn clone(&self) -> (r: Self)
        ensures
            r@ == self@,
    {
        FileSystem {
            project: self.project.clone(),
            root: copy_path(&self.root),
            source: copy_path(&self.source),
        }
    }
}

impl FileSystem {
    /// Whether the tree of the project is in order.
    pub open spec fn wf(&self) -> bool {
        self.project.wf()
    }

    /// An empty project below `root`. The caller is left to create the folder `source`.
    pub fn from_root(root: Vec<PathComponent>) -> (r: Self)
        ensures
            r.wf(),
            r@ == (FileSystemView {
                name: "project"@,
                tree: Seq::empty(),
                root: path_view(root@),
                source: joined(path_view(root@), single("src"@)),
            }),
    {
        proof {
            reveal_strlit("src");
        }
        let source = join(&root, &path_of("src"));
        FileSystem { project: Project::new(), root, source }
    }

    /// Whether an instruction can be followed.
    pub fn can_read(&self, instruction: &Instruction) -> (r: bool)
        ensures
            r == can_follow(self@, *instruction),
    {
        match instruction {
            Instruction::AddToTree { name, partition } => !self.project.has(name.as_str())
                && is_partition_sound(partition),
            Instruction::CreateFile { filename, contents: _ } => is_path_sound(
                &join(&self.source, filename),
            ),
            Instruction::CreateFolder { folder } => is_path_sound(&join(&self.source, folder)),
        }
    }

    /// Follows an instruction: a partition is put into the project, and for a file or a folder
    /// the answer says what is to be done.
    pub fn read_instruction(&mut self, instruction: Instruction) -> (r: Action)
        requires
            old(self).wf(),
            can_follow(old(self)@, instruction),
        ensures
            final(self).wf(),
            match instruction {
                Instruction::AddToTree { name, partition } => {
                    &&& final(self)@ == (FileSystemView {
                        tree: with_entry(
                            old(self)@.tree,
                            name@,
                            placed(partition_view(partition)),
                        ),
                        ..old(self)@
                    })
                    &&& r is Nothing
                },
                Instruction::CreateFile { filename, contents } => {
                    &&& final(self)@ == old(self)@
                    &&& match r {
                        Action::WriteFile { path, contents: written } => {
                            &&& path_view(path@) == disk_path(
                                old(self)@.source,
                                path_view(filename@),
                            )
                            &&& written@ == contents@
                        },
                        _ => false,
                    }
                },
                Instruction::CreateFolder { folder } => {
                    &&& final(self)@ == old(self)@
                    &&& match r {
                        Action::CreateFolder { path } => path_view(path@) == disk_path(
                            old(self)@.source,
                            path_view(folder@),
                        ),
                        _ => false,
                    }
                },
            },
    {
        match instruction {
            Instruction::AddToTree { name, partition } => {
                let placed_partition = place_partition(partition);
                self.project.insert(name, placed_partition);
                Action::Nothing
            },
            Instruction::CreateFile { filename, contents } => Action::WriteFile {
                path: sanitize_path(&join(&self.source, &filename)),
                contents,
            },
            Instruction::CreateFolder { folder } => Action::CreateFolder {
                path: sanitize_path(&join(&self.source, &folder)),
            },
        }
    }

    /// The file that describes the project.
    pub fn finish_instructions(&self) -> (r: ProjectFile<'_>)
        ensures
            path_view(r.path@) == joined(self@.root, single("default.project.json"@)),
            r.name@ == self@.name,
            r.tree@.len() == serialized_tree(self@.tree).len(),
            forall|i: int|
                0 <= i < r.tree@.len() ==> serialized_view(#[trigger] r.tree@[i])
                    == serialized_tree(self@.tree)[i],
    {
        proof {
            reveal_strlit("default.project.json");
        }
        ProjectFile {
            path: join(&self.root, &path_of("default.project.json")),
            name: self.project.name.as_str(),
            tree: serialize_project_tree(&self.project.tree),
        }
    }
}

/// A partition that is in order is so where it is placed, too.
pub proof fn law_placing_keeps_order(p: PartitionView)
    requires
        is_ordered(p),
    ensures
        is_ordered(placed(p)),
{
    let (before, after) = (p.children, placed(p).children);
    assert forall|i: int| 0 <= i < after.len() implies is_ordered((#[trigger] after[i]).1) by {
        assert(is_ordered(before[i].1));
        assert(after[i].1.children == before[i].1.children);
    }
    assert forall|i: int, j: int| 0 <= i < j < after.len() implies text_before(
        (#[trigger] after[i]).0,
        (#[trigger] after[j]).0,
    ) by {
        assert(text_before(before[i].0, before[j].0));
    }
}

/// The path that a project names for a relative path of an instruction leads from the folder
/// of the project to the place in the file system where that path is written. Below a verbatim
/// prefix that holds of plain paths.
pub proof fn law_project_names_what_is_written(root: Seq<PartView>, p: Seq<PartView>)
    requires
        is_relative(p),
        is_verbatim(root) ==> is_plain(p),
    ensures
        disk_path(joined(root, single("src"@)), p) == sanitized_path(root) + project_path(p),
{
    let below = joined(single("src"@), p);
    let parts = sanitized_parts(below);
    law_relative_paths_go_on(root, single("src"@), p);
    assert(!is_verbatim(below));
    if is_verbatim(root) {
        let rest = sanitized_parts(root.skip(1));
        assert((root + below).take(1) =~= root.take(1));
        assert(sanitized_parts((root + below).skip(1)) =~= rest + parts);
        lemma_walks_add_up(root.take(1), rest, parts);
        assert(is_plain(parts)) by {
            assert forall|i: int| 0 <= i < parts.len() implies match #[trigger] parts[i] {
                PartView::RootDir => false,
                PartView::CurDir => i == 0,
                PartView::ParentDir => false,
                _ => true,
            } by {
                if i > 0 {
                    assert(below[i] == p[i - 1] || below[i] == p[i]);
                }
            }
        }
        lemma_plain_walk(sanitized_path(root), parts);
        assert(parts[0] is Normal);
    } else {
        assert(!is_verbatim(root + below));
        assert(sanitized_parts(root + below) =~= sanitized_parts(root) + parts);
    }
}

/// To place a partition changes paths alone: its own and those of its children. Names, classes,
/// what is ignored, and all that is below the children stay.
pub proof fn law_placing_changes_paths_alone(p: PartitionView, i: int)
    ensures
        placed(p).class_name == p.class_name,
        placed(p).ignore_unknown_instances == p.ignore_unknown_instances,
        placed(p).children.len() == p.children.len(),
        placed(p).path is Some <==> p.path is Some,
        p.path is Some ==> placed(p).path->0 == sanitized_path(joined(single("src"@), p.path->0)),
        0 <= i < p.children.len() ==> {
            let (before, after) = (p.children[i], placed(p).children[i]);
            &&& after.0 == before.0
            &&& after.1.class_name == before.1.class_name
            &&& after.1.ignore_unknown_instances == before.1.ignore_unknown_instances
            &&& after.1.children == before.1.children
            &&& after.1.path is Some <==> before.1.path is Some
            &&& before.1.path is Some ==> after.1.path->0 == sanitized_path(
                joined(single("src"@), before.1.path->0),
            )
        },
{
}

/// A path of names goes below the folder `src` of the project name by name: where every system
/// accepts the names, as they are.
pub proof fn law_names_go_below_the_source_folder(p: Seq<PartView>, i: int)
    requires
        forall|k: int| 0 <= k < p.len() ==> #[trigger] p[k] is Normal,
        0 <= i < p.len(),
    ensures
        project_path(p).len() == p.len() + 1,
        project_path(p)[0] == PartView::Normal("src"@),
        match p[i] {
            PartView::Normal(name) => {
                &&& project_path(p)[i + 1] == PartView::Normal(sanitized_component(name))
                &&& is_accepted_name(name) ==> project_path(p)[i + 1] == p[i]
            },
            _ => false,
        },
{
    let whole = single("src"@) + p;
    assert(p[0] is Normal);
    assert(joined(single("src"@), p) == whole);
    assert(whole[i + 1] == p[i]);
    law_names_are_sanitized_one_by_one(whole, i + 1);
    law_names_are_sanitized_one_by_one(whole, 0);
    lemma_source_folder_is_accepted();
}

/// A path of names is written below the folder for it name by name.
pub proof fn law_names_are_written_below_their_folder(source: Seq<PartView>, p: Seq<PartView>)
    requires
        forall|k: int| 0 <= k < p.len() ==> #[trigger] p[k] is Normal,
    ensures
        disk_path(source, p) == sanitized_path(source) + sanitized_path(p),
        sanitized_path(p).len() == p.len(),
{
    if p.len() > 0 {
        assert(p[0] is Normal);
    }
    let parts = sanitized_parts(p);
    assert(!is_verbatim(p));
    if is_verbatim(source) {
        lemma_plain_walk(source, p);
        assert(joined(source, p) =~= source + p);
        let rest = sanitized_parts(source.skip(1));
        assert((source + p).take(1) =~= source.take(1));
        assert(sanitized_parts((source + p).skip(1)) =~= rest + parts);
        lemma_walks_add_up(source.take(1), rest, parts);
        assert forall|i: int| 0 <= i < parts.len() implies #[trigger] parts[i] is Normal by {
            assert(p[i] is Normal);
        }
        lemma_plain_walk(sanitized_path(source), parts);
    } else {
        assert(joined(source, p) =~= source + p);
        assert(!is_verbatim(source + p));
        assert(sanitized_parts(source + p) =~= sanitized_parts(source) + parts);
    }
}

/// What is seen of a file system is all that is in it.
pub proof fn law_view_of_file_system_is_whole(fs: FileSystem)
    ensures
        fs@.name == fs.project.name@,
        fs@.tree == entries_view(fs.project.tree@),
        fs@.root == path_view(fs.root@),
        fs@.source == path_view(fs.source@),
{
}

/// The path of an instruction is sanitized by itself: in the file system it is joined to the
/// sanitized folder, which is worked out where it has a verbatim prefix, and in the project to
/// the folder `src`.
pub proof fn law_instruction_paths_are_sanitized_by_themselves(
    source: Seq<PartView>,
    p: Seq<PartView>,
)
    requires
        is_verbatim(source) ==> is_worked_out(source),
    ensures
        disk_path(source, p) == joined(sanitized_path(source), sanitized_path(p)),
        project_path(p) == joined(single("src"@), sanitized_path(p)),
{
    law_sanitizing_and_joining_commute(source, p);
    law_sanitizing_and_joining_commute(single("src"@), p);
    lemma_source_folder_is_accepted();
    law_names_are_sanitized_one_by_one(single("src"@), 0);
    assert(sanitized_path(single("src"@)) =~= single("src"@));
}

/// A partition can be put into a project if and only if it is in order and every name in its path
/// and in those of its children can be sanitized.
pub proof fn law_sound_partitions_can_be_placed(p: PartitionView)
    ensures
        can_place(p) <==> {
            &&& is_ordered(p)
            &&& p.path is Some ==> path_can_sanitize(joined(single("src"@), p.path->0))
            &&& forall|i: int|
                0 <= i < p.children.len() && (#[trigger] p.children[i]).1.path is Some
                    ==> path_can_sanitize(joined(single("src"@), p.children[i].1.path->0))
        },
{
}

/// An instruction for the tree can be followed where its name is new and its partition can be
/// placed; one for a file or folder, where every name in its path can be sanitized.
pub proof fn law_sound_instructions_can_be_followed(fs: FileSystemView, instruction: Instruction)
    ensures
        match instruction {
            Instruction::AddToTree { name, partition } => can_follow(fs, instruction) <==> !has_name(
                fs.tree,
                name@,
            ) && can_place(partition_view(partition)),
            Instruction::CreateFile { filename, contents: _ } => can_follow(fs, instruction)
                <==> path_can_sanitize(joined(fs.source, path_view(filename@))),
            Instruction::CreateFolder { folder } => can_follow(fs, instruction)
                <==> path_can_sanitize(joined(fs.source, path_view(folder@))),
        },
{
}

/// The name `src` is one that every system accepts.
proof fn lemma_source_folder_is_accepted()
    ensures
        is_accepted_name("src"@),
{
    reveal_strlit("src");
    reveal_strlit("CON");
    reveal_strlit("PRN");
    reveal_strlit("AUX");
    reveal_strlit("NUL");
    let s = "src"@;
    assert(s[0] == 's');
    assert(folded(s[0]) != folded("CON"@[0]) && folded(s[0]) != folded("PRN"@[0]) && folded(s[0])
        != folded("AUX"@[0]) && folded(s[0]) != folded("NUL"@[0]));
}

} // verus!
