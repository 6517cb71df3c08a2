use vstd::prelude::*;
use crate::text::str_is;

verus! {

/// The extension `std::path::Path` finds in a path.
pub uninterp spec fn extension_of(path: Seq<char>) -> Option<Seq<char>>;

/// The lower-case form `str::to_lowercase` gives.
pub uninterp spec fn lower_of(s: Seq<char>) -> Seq<char>;

/// Relies on `std::path::Path::extension`: the part of the file name after
/// its last dot, if it has one that does not start the name. The result
/// depends on the path alone.
#[verifier::external_body]
fn path_extension(path: &str) -> (r: Option<String>)
    ensures
        match r {
            Some(e) => extension_of(path@) == Some(e@),
            None => extension_of(path@) is None,
        },
{
    std::path::Path::new(path).extension().map(|e| e.to_string_lossy().to_string())
}

/// Relies on `str::to_lowercase`: the result depends on the characters alone.
#[verifier::external_body]
fn lowercase(s: &str) -> (r: String)
    ensures
        r@ == lower_of(s@),
{
    s.to_lowercase()
}

/// The language identifier for a lower-case file extension.
pub open spec fn language_of_ext(ext: Seq<char>) -> Seq<char> {
    if ext == "rs"@ {
        "rust"@
    } else if ext == "ts"@ || ext == "tsx"@ {
        "typescript"@
    } else if ext == "js"@ || ext == "jsx"@ {
        "javascript"@
    } else if ext == "py"@ {
        "python"@
    } else if ext == "go"@ {
        "go"@
    } else if ext == "java"@ {
        "java"@
    } else if ext == "c"@ || ext == "h"@ {
        "c"@
    } else if ext == "cpp"@ || ext == "cc"@ || ext == "cxx"@ || ext == "hpp"@ {
        "cpp"@
    } else if ext == "json"@ {
        "json"@
    } else if ext == "toml"@ {
        "toml"@
    } else if ext == "yaml"@ || ext == "yml"@ {
        "yaml"@
    } else if ext == "md"@ {
        "markdown"@
    } else if ext == "html"@ || ext == "htm"@ {
        "html"@
    } else if ext == "css"@ {
        "css"@
    } else if ext == "sh"@ || ext == "bash"@ || ext == "zsh"@ {
        "shell"@
    } else if ext == "sql"@ {
        "sql"@
    } else if ext == "xml"@ {
        "xml"@
    } else {
        "plaintext"@
    }
}

/// Maps a lower-case file extension to a language identifier; unknown
/// extensions give `"plaintext"`.
pub fn language_for_extension(ext: &str) -> (r: String)
    ensures
        r@ == language_of_ext(ext@),
{
    let lang = if str_is(ext, "rs") {
        "rust"
    } else if str_is(ext, "ts") || str_is(ext, "tsx") {
        "typescript"
    } else if str_is(ext, "js") || str_is(ext, "jsx") {
        "javascript"
    } else if str_is(ext, "py") {
        "python"
    } else if str_is(ext, "go") {
        "go"
    } else if str_is(ext, "java") {
        "java"
    } else if str_is(ext, "c") || str_is(ext, "h") {
        "c"
    } else if str_is(ext, "cpp") || str_is(ext, "cc") || str_is(ext, "cxx") || str_is(ext, "hpp") {
        "cpp"
    } else if str_is(ext, "json") {
        "json"
    } else if str_is(ext, "toml") {
        "toml"
    } else if str_is(ext, "yaml") || str_is(ext, "yml") {
        "yaml"
    } else if str_is(ext, "md") {
        "markdown"
    } else if str_is(ext, "html") || str_is(ext, "htm") {
        "html"
    } else if str_is(ext, "css") {
        "css"
    } else if str_is(ext, "sh") || str_is(ext, "bash") || str_is(ext, "zsh") {
        "shell"
    } else if str_is(ext, "sql") {
        "sql"
    } else if str_is(ext, "xml") {
        "xml"
    } else {
        "plaintext"
    };
    String::from_str(lang)
}

/// The language identifier of a file path, from its lower-cased extension;
/// a path without one is `"plaintext"`.
pub fn detect_language(path: &str) -> (r: String)
    ensures
        r@ == match extension_of(path@) {
            Some(e) => language_of_ext(lower_of(e)),
            None => language_of_ext(Seq::<char>::empty()),
        },
{
    match path_extension(path) {
        Some(e) => {
            let lower = lowercase(e.as_str());
            language_for_extension(lower.as_str())
        },
        None => {
            proof {
                reveal_strlit("");
            }
            assert(""@ =~= Seq::<char>::empty());
            language_for_extension("")
        },
    }
}

} // verus!
