//! The languages the scanner understands, by file extension, and which
//! directories and files it leaves alone.
use vstd::prelude::*;

use crate::paths::{extension, extension_exec};
use crate::text::{chars_of, str_eq, string_of};

verus! {

/// A supported source language.
#[derive(Debug, Clone, Copy, PartialEq, Eq, Hash, Structural)]
pub enum Lang {
    JavaScript,
    TypeScript,
    Tsx,
    Python,
    Go,
    Rust,
    Php,
    Java,
}

/// The language of a file extension (without the dot).
pub open spec fn lang_of_extension(ext: Seq<char>) -> Option<Lang> {
    if ext == "js"@ || ext == "jsx"@ || ext == "mjs"@ || ext == "cjs"@ {
        Some(Lang::JavaScript)
    } else if ext == "ts"@ || ext == "mts"@ || ext == "cts"@ {
        Some(Lang::TypeScript)
    } else if ext == "tsx"@ {
        Some(Lang::Tsx)
    } else if ext == "py"@ || ext == "pyi"@ {
        Some(Lang::Python)
    } else if ext == "go"@ {
        Some(Lang::Go)
    } else if ext == "rs"@ {
        Some(Lang::Rust)
    } else if ext == "php"@ {
        Some(Lang::Php)
    } else if ext == "java"@ {
        Some(Lang::Java)
    } else {
        None
    }
}

pub open spec fn lang_name(lang: Lang) -> Seq<char> {
    match lang {
        Lang::JavaScript => "javascript"@,
        Lang::TypeScript => "typescript"@,
        Lang::Tsx => "tsx"@,
        Lang::Python => "python"@,
        Lang::Go => "go"@,
        Lang::Rust => "rust"@,
        Lang::Php => "php"@,
        Lang::Java => "java"@,
    }
}

/// The language of a path, by the extension of its file name.
pub open spec fn lang_of_path(path: Seq<char>) -> Option<Lang> {
    match extension(path) {
        Some(ext) => lang_of_extension(ext),
        None => None,
    }
}

/// Directories that scanning never enters.
pub open spec fn skipped_dir(name: Seq<char>) -> bool {
    ||| name == ".git"@
    ||| name == ".link"@
    ||| name == ".hg"@
    ||| name == ".svn"@
    ||| name == "node_modules"@
    ||| name == "__pycache__"@
    ||| name == ".venv"@
    ||| name == "venv"@
    ||| name == "target"@
    ||| name == "vendor"@
    ||| name == "dist"@
    ||| name == "build"@
    ||| name == ".next"@
    ||| name == ".nuxt"@
    ||| name == ".tox"@
    ||| name == "coverage"@
}

/// Files larger than this (1 MiB) are not read.
pub const MAX_FILE_SIZE: u64 = 1_048_576;

impl Lang {
    pub fn from_extension(ext: &str) -> (r: Option<Lang>)
        ensures
            r == lang_of_extension(ext@),
    {
        if str_eq(ext, "js") || str_eq(ext, "jsx") || str_eq(ext, "mjs") || str_eq(ext, "cjs") {
            Some(Lang::JavaScript)
        } else if str_eq(ext, "ts") || str_eq(ext, "mts") || str_eq(ext, "cts") {
            Some(Lang::TypeScript)
        } else if str_eq(ext, "tsx") {
            Some(Lang::Tsx)
        } else if str_eq(ext, "py") || str_eq(ext, "pyi") {
            Some(Lang::Python)
        } else if str_eq(ext, "go") {
            Some(Lang::Go)
        } else if str_eq(ext, "rs") {
            Some(Lang::Rust)
        } else if str_eq(ext, "php") {
            Some(Lang::Php)
        } else if str_eq(ext, "java") {
            Some(Lang::Java)
        } else {
            None
        }
    }

    /// The language's name, which is also how it is displayed.
    pub fn name(&self) -> (r: &'static str)
        ensures
            r@ == lang_name(*self),
    {
        match self {
            Lang::JavaScript => "javascript",
            Lang::TypeScript => "typescript",
            Lang::Tsx => "tsx",
            Lang::Python => "python",
            Lang::Go => "go",
            Lang::Rust => "rust",
            Lang::Php => "php",
            Lang::Java => "java",
        }
    }
}

/// The language of a file path, from its extension; `None` when unsupported.
pub fn detect_lang(path: &str) -> (r: Option<Lang>)
    ensures
        r == lang_of_path(path@),
{
    let cs = chars_of(path);
    match extension_exec(cs.as_slice()) {
        Some(ext) => {
            let e = string_of(ext.as_slice());
            Lang::from_extension(e.as_str())
        },
        None => None,
    }
}

/// Whether a directory of this name is skipped while scanning.
pub fn should_skip_dir(name: &str) -> (r: bool)
    ensures
        r == skipped_dir(name@),
{
    str_eq(name, ".git") || str_eq(name, ".link") || str_eq(name, ".hg") || str_eq(name, ".svn")
        || str_eq(name, "node_modules") || str_eq(name, "__pycache__") || str_eq(name, ".venv")
        || str_eq(name, "venv") || str_eq(name, "target") || str_eq(name, "vendor") || str_eq(
        name,
        "dist",
    ) || str_eq(name, "build") || str_eq(name, ".next") || str_eq(name, ".nuxt") || str_eq(
        name,
        ".tox",
    ) || str_eq(name, "coverage")
}

/// The largest file size that is read, in bytes.
pub fn max_file_size() -> (r: u64)
    ensures
        r == MAX_FILE_SIZE,
{
    MAX_FILE_SIZE
}


/// JavaScript is told by the extension: a path is JavaScript exactly when
/// its file name's extension is `js`, `jsx`, `mjs` or `cjs`; and TSX exactly
/// when it is `tsx`.
pub proof fn lemma_script_extensions(path: Seq<char>)
    ensures
        lang_of_path(path) == Some(Lang::JavaScript) <==> (extension(path) == Some("js"@) || extension(
            path,
        ) == Some("jsx"@) || extension(path) == Some("mjs"@) || extension(path) == Some("cjs"@)),
        lang_of_path(path) == Some(Lang::Tsx) <==> extension(path) == Some("tsx"@),
{
    reveal_strlit("js");
    reveal_strlit("jsx");
    reveal_strlit("mjs");
    reveal_strlit("cjs");
    reveal_strlit("ts");
    reveal_strlit("mts");
    reveal_strlit("cts");
    reveal_strlit("tsx");
    assert("tsx"@[0] != "jsx"@[0] && "tsx"@[0] != "mjs"@[0] && "tsx"@[0] != "cjs"@[0]);
    assert("tsx"@[0] != "mts"@[0] && "tsx"@[0] != "cts"@[0]);
    assert("tsx"@ != "jsx"@ && "tsx"@ != "mjs"@ && "tsx"@ != "cjs"@);
    assert("tsx"@ != "mts"@);
    assert("tsx"@ != "cts"@);
    assert("tsx"@.len() != "js"@.len() && "tsx"@.len() != "ts"@.len());
}

} // verus!
