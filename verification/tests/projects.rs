use rbxlx_to_rojo::filesystem::{
    is_partition_sound, place_partition, Action, FileSystem, Instruction,
};
use rbxlx_to_rojo::path::{join, path_of, sanitize_path, PathComponent};
use rbxlx_to_rojo::project::{
    is_partition_ordered, serialize_project_tree, EntryValue, Project, TreePartition,
};

fn normal(s: &str) -> PathComponent {
    PathComponent::Normal(s.to_string())
}

fn path(names: &[&str]) -> Vec<PathComponent> {
    names.iter().map(|n| normal(n)).collect()
}

fn partition(class: &str, at: Option<&[&str]>) -> TreePartition {
    TreePartition {
        class_name: class.to_string(),
        children: vec![],
        ignore_unknown_instances: true,
        path: at.map(path),
    }
}

fn add(fs: &mut FileSystem, name: &str, partition: TreePartition) {
    let instruction = Instruction::AddToTree { name: name.to_string(), partition };
    assert!(fs.can_read(&instruction));
    assert_eq!(fs.read_instruction(instruction), Action::Nothing);
}

#[test]
fn a_new_project_is_empty() {
    let project = Project::new();
    assert_eq!(project.name, "project");
    assert!(project.tree.is_empty());
    assert!(!project.has("project"));
}

#[test]
fn a_file_system_starts_below_its_root() {
    let fs = FileSystem::from_root(path(&["out", "game"]));
    assert_eq!(fs.root, path(&["out", "game"]));
    assert_eq!(fs.source, path(&["out", "game", "src"]));
    assert_eq!(fs.project, Project::new());
}

#[test]
fn partitions_are_placed_one_level_deep() {
    let mut inner = partition("Script", Some(&["deep?"]));
    inner.children.push(("Below".to_string(), partition("Script", Some(&["deepest?"]))));
    let mut outer = partition("Folder", Some(&["a?", "con"]));
    outer.children.push(("Bare".to_string(), partition("Part", None)));
    outer.children.push(("Inner".to_string(), inner));
    assert!(is_partition_sound(&outer));
    let placed = place_partition(outer);
    assert_eq!(placed.path, Some(path(&["src", "a_", "con_"])));
    assert_eq!(placed.class_name, "Folder");
    assert!(placed.ignore_unknown_instances);
    assert_eq!(placed.children[0].1, partition("Part", None));
    assert_eq!(placed.children[1].0, "Inner");
    assert_eq!(placed.children[1].1.path, Some(path(&["src", "deep_"])));
    assert_eq!(placed.children[1].1.children[0].1.path, Some(path(&["deepest?"])));
    assert!(is_partition_ordered(&placed));
}

#[test]
fn partitions_are_in_order_throughout() {
    let with = |names: &[&str]| {
        let mut p = partition("Folder", None);
        for name in names {
            p.children.push((name.to_string(), partition("Part", None)));
        }
        p
    };
    assert!(is_partition_ordered(&with(&["", "A", "B", "a"])));
    assert!(!is_partition_ordered(&with(&["A", "A"])));
    assert!(!is_partition_ordered(&with(&["A", "C", "B"])));
    let mut deep = with(&["A"]);
    deep.children[0].1 = with(&["B", "A"]);
    assert!(!is_partition_ordered(&deep));
    assert!(!is_partition_sound(&deep));
    let fs = FileSystem::from_root(path(&["g"]));
    assert!(!fs.can_read(&Instruction::AddToTree { name: "D".to_string(), partition: deep }));
}

#[test]
fn rooted_partition_paths_leave_the_source_folder() {
    let mut p = partition("Folder", None);
    p.path = Some(vec![PathComponent::RootDir, normal("x:")]);
    assert_eq!(place_partition(p).path, Some(vec![PathComponent::RootDir, normal("x_")]));
}

#[test]
fn the_tree_is_kept_in_order() {
    let mut fs = FileSystem::from_root(path(&["g"]));
    for name in ["Workspace", "Lighting", "a", "", "Work", "日本", "Z"] {
        add(&mut fs, name, partition(name, None));
    }
    let names: Vec<&str> = fs.project.tree.iter().map(|(n, _)| n.as_str()).collect();
    assert_eq!(names, ["", "Lighting", "Work", "Workspace", "Z", "a", "日本"]);
    for (name, p) in &fs.project.tree {
        assert_eq!(&p.class_name, name);
    }
    let mut sorted = names.clone();
    sorted.sort();
    assert_eq!(names, sorted);
}

#[test]
fn a_name_is_added_once_only() {
    let mut fs = FileSystem::from_root(path(&["g"]));
    add(&mut fs, "Workspace", partition("Workspace", None));
    assert!(fs.project.has("Workspace"));
    assert!(!fs.project.has("Work"));
    let again = Instruction::AddToTree {
        name: "Workspace".to_string(),
        partition: partition("Workspace", None),
    };
    assert!(!fs.can_read(&again));
}

#[test]
fn instructions_with_names_that_cannot_be_sanitized_are_told() {
    let fs = FileSystem::from_root(path(&["g"]));
    assert!(!fs.can_read(&Instruction::CreateFolder { folder: path(&["abé"]) }));
    assert!(!fs.can_read(&Instruction::CreateFile {
        filename: path(&["a", "abé"]),
        contents: vec![],
    }));
    let mut p = partition("Folder", None);
    p.children.push(("c".to_string(), partition("Part", Some(&["abé"]))));
    assert!(!is_partition_sound(&p));
    assert!(!is_partition_sound(&partition("Part", Some(&["abé"]))));
}

#[test]
fn files_and_folders_go_below_the_source_folder() {
    let mut fs = FileSystem::from_root(path(&["g"]));
    let before = fs.clone();
    let file = Instruction::CreateFile {
        filename: path(&["Scripts", "main?.lua"]),
        contents: b"print()".to_vec(),
    };
    assert!(fs.can_read(&file));
    assert_eq!(
        fs.read_instruction(file),
        Action::WriteFile {
            path: path(&["g", "src", "Scripts", "main_.lua"]),
            contents: b"print()".to_vec(),
        }
    );
    let folder = Instruction::CreateFolder { folder: path(&["Scripts.", "aux"]) };
    assert_eq!(
        fs.read_instruction(folder),
        Action::CreateFolder { path: path(&["g", "src", "Scripts", "aux_"]) }
    );
    assert_eq!(fs, before);
}

#[test]
fn the_project_names_what_is_written() {
    let root = path(&["out?", "game"]);
    let mut fs = FileSystem::from_root(root.clone());
    let relative = path(&["a*b", "nul"]);
    let placed = place_partition(partition("Folder", Some(&["a*b", "nul"])));
    let action = fs.read_instruction(Instruction::CreateFolder { folder: relative });
    let expected = join(&sanitize_path(&root), &placed.path.unwrap());
    assert_eq!(action, Action::CreateFolder { path: expected });
}

#[test]
fn the_root_class_is_serialized_first() {
    let mut fs = FileSystem::from_root(path(&["g"]));
    add(&mut fs, "Workspace", partition("Workspace", Some(&["w"])));
    add(&mut fs, "Lighting", partition("Lighting", None));
    let file = fs.finish_instructions();
    assert_eq!(file.path, path(&["g", "default.project.json"]));
    assert_eq!(file.name, "project");
    assert_eq!(
        file.tree,
        vec![
            ("$className", EntryValue::Text("DataModel")),
            ("Lighting", EntryValue::Partition(&partition("Lighting", None))),
            ("Workspace", EntryValue::Partition(&partition("Workspace", Some(&["src", "w"])))),
        ]
    );
    assert_eq!(file.tree, serialize_project_tree(&fs.project.tree));
}

#[test]
fn an_empty_tree_has_the_root_class_alone() {
    let tree = Project::new().tree;
    assert_eq!(
        serialize_project_tree(&tree),
        vec![("$className", EntryValue::Text("DataModel"))]
    );
}

#[test]
fn clones_hold_the_same() {
    let mut p = partition("Folder", Some(&["x"]));
    p.children.push(("c".to_string(), partition("Part", None)));
    assert_eq!(p.clone(), p);
    let mut fs = FileSystem::from_root(path_of("g"));
    add(&mut fs, "F", p);
    assert_eq!(fs.clone(), fs);
}
