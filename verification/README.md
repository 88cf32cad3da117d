# rbxlx-to-rojo

Turns Roblox place and model files into Rojo projects.

`src/` is the library. Every function in it is verified with Verus against its contract; the
calls into other crates stand behind small wrappers whose contracts say what is relied on.

| module | what it holds |
| --- | --- |
| `component`, `path` | names of files that every system accepts, and paths made of them |
| `project`, `filesystem` | the project tree, and what instructions put into it and ask of the disk |
| `text`, `number` | text as a sequence of characters, and which texts are numbers |
| `xml_tree`, `xml_events` | XML as a tree and as a stream of events |
| `properties`, `elements` | the types of properties, and the pass that types a document |
| `sanitize` | the passes over the text of a place file that the decoder does not take as it is |
| `place`, `problem` | formats, decoding with a second attempt, and what can go wrong |

Functions named `law_..` state what holds of the library as a whole.

The reflection crates are held to versions whose properties `rbx_xml` 0.12 knows how to read:
later databases have migrations, on which its lookup stops. `rmp` is held to the version that
builds with them.

`app/` is the program around it: dialogs, files, the log and the JSON of the project. The walk over a decoded
place that yields its instructions stands outside this crate.
