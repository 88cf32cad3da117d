//! From a place file to a decoded place: which decoder a file is for, and the second attempt
//! on text that the decoder does not take as it is.

use crate::path::{join, joined, path_named, path_of, path_view, single, PathComponent};
use crate::problem::Problem;
use crate::sanitize::{sanitized_copy, sanitized_or_source, sanitized_text};
use crate::text::same_text;
use crate::xml_tree::optional_text;
use rbx_dom_weak::WeakDom;
use vstd::prelude::*;

verus! {

/// A decoded place; it is handed on unread.
#[verifier::external_type_specification]
#[verifier::external_body]
pub struct ExWeakDom(rbx_dom_weak::WeakDom);

/// The two formats of place and model files.
#[derive(Clone, Copy, Debug, PartialEq, Eq, Structural)]
pub enum PlaceFormat {
    Xml,
    Binary,
}

/// What a dialog for choosing a path came to.
#[derive(Debug, PartialEq, Eq)]
pub enum DialogAnswer {
    Okay(String),
    Cancel,
    Failed(String),
}

/// A place that was decoded from text, or why it could not be, and the sanitized text where
/// there was need of it and could be had.
pub struct DecodedPlace {
    pub place: Result<WeakDom, Problem>,
    pub sanitized: Option<String>,
}

/// The characters of an extension, where there is one.
pub open spec fn extension_view(extension: Option<&str>) -> Option<Seq<char>> {
    match extension {
        Some(e) => Some(e@),
        None => None,
    }
}

/// The format that files with this extension have.
pub open spec fn format_of(extension: Option<Seq<char>>) -> Option<PlaceFormat> {
    match extension {
        Some(e) => if e == "rbxmx"@ || e == "rbxlx"@ {
            Some(PlaceFormat::Xml)
        } else if e == "rbxm"@ || e == "rbxl"@ {
            Some(PlaceFormat::Binary)
        } else {
            None
        },
        None => None,
    }
}

/// What the decoder reports of the text `text`, or `None` where it decodes it.
pub uninterp spec fn decode_error(text: Seq<char>) -> Option<Seq<char>>;

/// Whether `place` is what the decoder makes of the text `text`. The identities of the
/// instances are drawn at random, so that each time there is another such place.
pub uninterp spec fn is_decoded_from(place: WeakDom, text: Seq<char>) -> bool;

/// `rbx_xml::from_str_default`: the decoded place, or what its error says when displayed. Which
/// texts are decoded, and what the error says of the others, goes by the name `decode_error`;
/// nothing is said of what is in the place but that it is decoded from the text. Memory permitting,
/// it returns on every text: each property in its reflection database is of a kind that
/// the decoder knows.
#[verifier::external_body]
pub(crate) fn decode_text_place(text: &str) -> (r: Result<WeakDom, String>)
    ensures
        match r {
            Ok(place) => decode_error(text@) is None && is_decoded_from(place, text@),
            Err(error) => decode_error(text@) == Some(error@),
        },
{
    rbx_xml::from_str_default(text).map_err(|error| error.to_string())
}

/// The format that files with this extension have.
pub fn place_format(extension: Option<&str>) -> (r: Result<PlaceFormat, Problem>)
    ensures
        match r {
            Ok(format) => format_of(extension_view(extension)) == Some(format),
            Err(problem) => problem is InvalidFile && format_of(extension_view(extension)) is None,
        },
{
    match extension {
        Some(e) => if same_text(e, "rbxmx") || same_text(e, "rbxlx") {
            Ok(PlaceFormat::Xml)
        } else if same_text(e, "rbxm") || same_text(e, "rbxl") {
            Ok(PlaceFormat::Binary)
        } else {
            Err(Problem::InvalidFile)
        },
        None => Err(Problem::InvalidFile),
    }
}

/// The path that was chosen in a dialog.
pub fn dialog_path(answer: DialogAnswer) -> (r: Result<String, Problem>)
    ensures
        r == match answer {
            DialogAnswer::Okay(path) => Ok::<String, Problem>(path),
            DialogAnswer::Cancel => Err(Problem::NFDCancel),
            DialogAnswer::Failed(error) => Err(Problem::NFDError(error)),
        },
{
    match answer {
        DialogAnswer::Okay(path) => Ok(path),
        DialogAnswer::Cancel => Err(Problem::NFDCancel),
        DialogAnswer::Failed(error) => Err(Problem::NFDError(error)),
    }
}

/// What the last attempt to decode text comes to.
pub fn text_decoded<P>(outcome: Result<P, String>) -> (r: Result<P, Problem>)
    ensures
        r == match outcome {
            Ok(place) => Ok::<P, Problem>(place),
            Err(error) => Err(Problem::XMLDecodeError(error)),
        },
{
    match outcome {
        Ok(place) => Ok(place),
        Err(error) => Err(Problem::XMLDecodeError(error)),
    }
}

/// What the attempt to decode a binary file comes to.
pub fn binary_decoded<P>(outcome: Result<P, String>) -> (r: Result<P, Problem>)
    ensures
        r == match outcome {
            Ok(place) => Ok::<P, Problem>(place),
            Err(error) => Err(Problem::BinaryDecodeError(error)),
        },
{
    match outcome {
        Ok(place) => Ok(place),
        Err(error) => Err(Problem::BinaryDecodeError(error)),
    }
}

/// The problem of a place file that cannot be read.
pub fn read_problem(error: String) -> (r: Problem)
    ensures
        match r {
            Problem::IoError(doing_what, e) => doing_what@ == "read the place file"@ && e == error,
            _ => false,
        },
{
    Problem::IoError("read the place file", error)
}

/// The problem of a log file that cannot be created.
pub fn log_problem(error: String) -> (r: Problem)
    ensures
        match r {
            Problem::IoError(doing_what, e) => doing_what@ == "couldn't create log file"@ && e
                == error,
            _ => false,
        },
{
    Problem::IoError("couldn't create log file", error)
}

/// Decodes the text of a place file. Where the decoder does not take it, a second attempt is
/// made on the sanitized text, and what comes of that counts.
pub fn decode_place(contents: &str) -> (r: DecodedPlace)
    ensures
        decode_error(contents@) is None ==> {
            &&& r.sanitized is None
            &&& match r.place {
                Ok(place) => is_decoded_from(place, contents@),
                Err(_) => false,
            }
        },
        decode_error(contents@) is Some ==> {
            &&& optional_text(r.sanitized) == sanitized_text(contents@)
            &&& match r.place {
                Ok(place) => decode_error(sanitized_or_source(contents@)) is None && is_decoded_from(
                    place,
                    sanitized_or_source(contents@),
                ),
                Err(Problem::XMLDecodeError(error)) => decode_error(sanitized_or_source(contents@))
                    == Some(error@),
                Err(_) => false,
            }
        },
{
    match decode_text_place(contents) {
        Ok(place) => DecodedPlace { place: Ok(place), sanitized: None },
        Err(_) => {
            let sanitized = sanitized_copy(contents);
            let outcome = match &sanitized {
                Some(text) => decode_text_place(text.as_str()),
                None => decode_text_place(contents),
            };
            DecodedPlace { place: text_decoded(outcome), sanitized }
        },
    }
}

/// Where the project of the place file with the stem `stem` goes: `root` joined with the stem,
/// so that the stems `.` and `..` give `root` itself and the folder that it is in.
pub fn project_location(root: &Vec<PathComponent>, stem: &str) -> (r: Vec<PathComponent>)
    ensures
        path_view(r@) == joined(path_view(root@), path_named(stem@)),
{
    join(root, &path_of(stem))
}

/// Where the log goes, below `root`.
pub fn log_location(root: &Vec<PathComponent>) -> (r: Vec<PathComponent>)
    ensures
        path_view(r@) == joined(path_view(root@), single("rbxlx-to-rojo.log"@)),
{
    proof {
        reveal_strlit("rbxlx-to-rojo.log");
    }
    join(root, &path_of("rbxlx-to-rojo.log"))
}

/// Files of four extensions are taken and no others: `rbxlx` and `rbxmx` as text, `rbxl` and
/// `rbxm` as binary.
pub proof fn law_four_extensions_are_taken(extension: Seq<char>, given: &str)
    ensures
        extension_view(None) is None,
        extension_view(Some(given)) == Some(given@),
        format_of(None) is None,
        format_of(Some(extension)) == Some(PlaceFormat::Xml) <==> extension == "rbxlx"@ || extension
            == "rbxmx"@,
        format_of(Some(extension)) == Some(PlaceFormat::Binary) <==> extension == "rbxl"@
            || extension == "rbxm"@,
{
    reveal_strlit("rbxlx");
    reveal_strlit("rbxmx");
    reveal_strlit("rbxl");
    reveal_strlit("rbxm");
    assert("rbxlx"@.len() == 5 && "rbxmx"@.len() == 5 && "rbxl"@.len() == 4 && "rbxm"@.len() == 4);
}

} // verus!
