use rbxlx_to_rojo::filesystem::{Action, FileSystem, Instruction};
use rbxlx_to_rojo::path::{path_of, PathComponent};
use rbxlx_to_rojo::place::{
    binary_decoded, decode_place, dialog_path, log_location, log_problem, place_format,
    project_location, read_problem, text_decoded, DialogAnswer, PlaceFormat,
};
use rbxlx_to_rojo::problem::Problem;
use rbxlx_to_rojo::sanitize::sanitize_rbxlx;

fn text(s: &str) -> String {
    s.to_string()
}

#[test]
fn problems_are_told() {
    assert_eq!(
        Problem::BinaryDecodeError(text("E")).message(),
        "While attempting to decode the place file, at E rbx_binary didn't know what to do"
    );
    assert_eq!(
        Problem::InvalidFile.message(),
        "The file provided does not have a recognized file extension"
    );
    assert_eq!(
        Problem::IoError("read the place file", text("E")).message(),
        "While attempting to read the place file, E"
    );
    assert_eq!(Problem::NFDCancel.message(), "Didn't choose a file.");
    assert_eq!(
        Problem::NFDError(text("E")).message(),
        "Something went wrong when choosing a file: E"
    );
    assert_eq!(
        Problem::XMLDecodeError(text("E")).message(),
        "While attempting to decode the place file, at E rbx_xml didn't know what to do"
    );
}

#[test]
fn extensions_tell_the_format() {
    assert_eq!(place_format(Some("rbxmx")), Ok(PlaceFormat::Xml));
    assert_eq!(place_format(Some("rbxlx")), Ok(PlaceFormat::Xml));
    assert_eq!(place_format(Some("rbxm")), Ok(PlaceFormat::Binary));
    assert_eq!(place_format(Some("rbxl")), Ok(PlaceFormat::Binary));
    for other in [Some("RBXL"), Some("rbx"), Some("rbxlxx"), Some(""), None] {
        assert_eq!(place_format(other), Err(Problem::InvalidFile));
    }
}

#[test]
fn dialogs_give_a_path_or_a_problem() {
    assert_eq!(dialog_path(DialogAnswer::Okay(text("p"))), Ok(text("p")));
    assert_eq!(dialog_path(DialogAnswer::Cancel), Err(Problem::NFDCancel));
    assert_eq!(
        dialog_path(DialogAnswer::Failed(text("e"))),
        Err(Problem::NFDError(text("e")))
    );
}

#[test]
fn outcomes_become_problems() {
    assert_eq!(text_decoded::<u8>(Ok(1)), Ok(1));
    assert_eq!(text_decoded::<u8>(Err(text("e"))), Err(Problem::XMLDecodeError(text("e"))));
    assert_eq!(binary_decoded::<u8>(Ok(1)), Ok(1));
    assert_eq!(binary_decoded::<u8>(Err(text("e"))), Err(Problem::BinaryDecodeError(text("e"))));
    assert_eq!(read_problem(text("e")), Problem::IoError("read the place file", text("e")));
    assert_eq!(log_problem(text("e")), Problem::IoError("couldn't create log file", text("e")));
}

#[test]
fn places_that_decode_are_not_sanitized() {
    let decoded = decode_place(
        "<roblox version=\"4\"><Item class=\"Folder\" referent=\"A\"><Properties>\
         <string name=\"Name\">X</string></Properties></Item></roblox>",
    );
    assert_eq!(decoded.sanitized, None);
    let place = decoded.place.unwrap();
    let children = place.root().children();
    assert_eq!(children.len(), 1);
    let folder = place.get_by_ref(children[0]).unwrap();
    assert_eq!((folder.class.as_str(), folder.name.as_str()), ("Folder", "X"));
}

fn decodes(properties: &str, class: &str) -> bool {
    decode_place(&format!(
        "<roblox version=\"4\"><Item class=\"{}\" referent=\"A\"><Properties>{}</Properties>\
         </Item></roblox>",
        class, properties
    ))
    .place
    .is_ok()
}

#[test]
fn properties_of_every_kind_are_decoded() {
    assert!(decodes("<bool name=\"IgnoreGuiInset\">true</bool>", "ScreenGui"));
    assert!(decodes("<token name=\"Font\">3</token>", "TextLabel"));
    assert!(decodes("<int name=\"BrickColor\">194</int>", "Part"));
    assert!(decodes("<int name=\"brickColor\">194</int>", "Part"));
    assert!(decodes("<Color3uint8 name=\"Color3uint8\">4288914085</Color3uint8>", "Part"));
    assert!(decodes("<BinaryString name=\"AttributesSerialize\"></BinaryString>", "Part"));
    assert!(decodes("<BinaryString name=\"Tags\"></BinaryString>", "Part"));
    assert!(decodes("<Font name=\"FontFace\"></Font>", "TextLabel"));
    let id = "<UniqueId name=\"UniqueId\">aaaaaaaaaaaaaaaéaaaaaaaaaaaaaaa</UniqueId>";
    assert!(decodes(id, "Part"));
    assert!(!decodes("<bool name=\"Anchored\">maybe</bool>", "Part"));
}

#[test]
fn what_stands_before_the_root_is_no_obstacle() {
    for head in ["", " ", "<!--c-->", "<?pi x?>", "<!DOCTYPE roblox>", "\u{feff}"] {
        let text = format!("{}<roblox version=\"4\"></roblox>", head);
        assert!(decode_place(&text).place.is_ok(), "{:?}", head);
    }
    for text in ["", " ", "x", "<", "<!--c-->", "</roblox>"] {
        assert!(decode_place(text).place.is_err(), "{:?}", text);
    }
}

#[test]
fn places_get_a_second_attempt() {
    let source = "<roblox version=\"4\"><Item class=\"Folder\" referent=\"A\"><Properties>\
                  <Name>X</Name></Properties></Item></roblox>";
    let decoded = decode_place(source);
    assert_eq!(decoded.sanitized, Some(sanitize_rbxlx(source)));
    let place = decoded.place.unwrap();
    let folder = place.get_by_ref(place.root().children()[0]).unwrap();
    assert_eq!(folder.name, "X");
}

#[test]
fn the_second_failure_is_told() {
    let decoded = decode_place("<roblox version=\"3\"/>");
    match decoded.place {
        Err(Problem::XMLDecodeError(error)) => {
            assert!(error.ends_with("Invalid version '3', expected version 4"), "{}", error);
        }
        _ => unreachable!(),
    }
    assert!(decoded.sanitized.is_some());
}

#[test]
fn broken_markup_is_decoded_as_it_is() {
    let decoded = decode_place("<a></b>");
    assert_eq!(decoded.sanitized, None);
    assert!(matches!(decoded.place, Err(Problem::XMLDecodeError(_))));
}

#[test]
fn stems_of_dots_are_the_folder_and_its_parent() {
    let root = path_of("tmp");
    assert_eq!(project_location(&root, "."), root);
    assert_eq!(
        project_location(&root, ".."),
        vec![PathComponent::Normal(text("tmp")), PathComponent::ParentDir]
    );
    assert_eq!(std::path::Path::new("..rbxl").file_stem().unwrap(), ".");
    assert_eq!(std::path::Path::new("...rbxl").file_stem().unwrap(), "..");
    let mut project = FileSystem::from_root(project_location(&root, "."));
    let action = project.read_instruction(Instruction::CreateFile {
        filename: path_of("a"),
        contents: vec![],
    });
    let path = ["tmp", "src", "a"].map(|n| PathComponent::Normal(text(n))).to_vec();
    assert_eq!(action, Action::WriteFile { path, contents: vec![] });
}

#[test]
fn project_and_log_go_below_the_root() {
    let root = vec![PathComponent::RootDir, PathComponent::Normal(text("out"))];
    assert_eq!(
        project_location(&root, "game"),
        vec![
            PathComponent::RootDir,
            PathComponent::Normal(text("out")),
            PathComponent::Normal(text("game")),
        ]
    );
    assert_eq!(
        log_location(&path_of("out")),
        vec![
            PathComponent::Normal(text("out")),
            PathComponent::Normal(text("rbxlx-to-rojo.log")),
        ]
    );
}
