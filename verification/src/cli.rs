//! Naming decisions of the command-line tool: the source label of a
//! generated file, the grammar name and its validity, and the output
//! directory.

use vstd::prelude::*;
use vstd::string::*;
use crate::chars::{is_alphabetic, is_alphanumeric, unicode_alphabetic, unicode_alphanumeric};
use crate::diagnostic::{plain_diag, Diagnostic, Severity};
use crate::text::{owned, str_eq, str_to_chars};

verus! {

/// The label of a source file in a generated header: `<stdin>` for `-`,
/// otherwise the file name.
pub open spec fn source_label_of(filename: Seq<char>) -> Seq<char> {
    if filename == "-"@ {
        "<stdin>"@
    } else {
        filename
    }
}

/// Returns the source label for a generated-file header: `<stdin>` for
/// `-`, otherwise the file name.
pub fn source_label(filename: &str) -> (r: &str)
    ensures
        r@ == source_label_of(filename@),
{
    if str_eq(filename, "-") {
        "<stdin>"
    } else {
        filename
    }
}

/// Whether `name` is a JavaScript identifier (without `$`): a letter or
/// `_`, then letters, digits or `_`.
pub open spec fn js_identifier(name: Seq<char>) -> bool {
    &&& name.len() > 0
    &&& (unicode_alphabetic(name[0]) || name[0] == '_')
    &&& forall|i: int| 1 <= i < name.len() ==> unicode_alphanumeric(#[trigger] name[i]) || name[i] == '_'
}

/// Returns `true` if `name` is a valid JavaScript identifier (excluding `$`).
pub fn is_valid_js_identifier(name: &str) -> (r: bool)
    ensures
        r == js_identifier(name@),
{
    let cs = str_to_chars(name);
    if cs.len() == 0 {
        return false;
    }
    if !(is_alphabetic(cs[0]) || cs[0] == '_') {
        return false;
    }
    let mut i: usize = 1;
    while i < cs.len()
        invariant
            1 <= i <= cs.len(),
            cs@ == name@,
            forall|j: int| 1 <= j < i ==> unicode_alphanumeric(#[trigger] cs@[j]) || cs@[j] == '_',
        decreases cs.len() - i,
    {
        if !(is_alphanumeric(cs[i]) || cs[i] == '_') {
            return false;
        }
        i += 1;
    }
    true
}

/// The warning for a grammar name that is no JavaScript identifier.
pub open spec fn grammar_name_warning(name: Seq<char>) -> Seq<char> {
    "grammar name '"@ + name + "' is not a valid JavaScript identifier; use --name to override"@
}

/// Returns a warning when `name` is not a valid JavaScript identifier, and
/// nothing otherwise.
pub fn check_grammar_name(name: &str) -> (r: Vec<Diagnostic>)
    ensures
        js_identifier(name@) ==> r@.len() == 0,
        !js_identifier(name@) ==> r@.len() == 1 && plain_diag(Severity::Warning, grammar_name_warning(name@), r@[0]),
{
    if is_valid_js_identifier(name) {
        Vec::new()
    } else {
        let mut msg = String::from_str("grammar name '");
        msg.append(name);
        msg.append("' is not a valid JavaScript identifier; use --name to override");
        let d = Diagnostic::warning(msg.as_str());
        let r = vec![d];
        r
    }
}

/// The grammar name for `filename`: the override when given, `grammar` for
/// stdin, otherwise the file's stem (`stem`), or `grammar` when it has none.
pub open spec fn grammar_name_of(filename: Seq<char>, override_name: Option<Seq<char>>, stem: Option<Seq<char>>) -> Seq<char> {
    match override_name {
        Some(o) => o,
        None => if filename == "-"@ {
            "grammar"@
        } else {
            match stem {
                Some(s) => s,
                None => "grammar"@,
            }
        },
    }
}

/// The view of an optional string.
pub open spec fn opt_view(o: Option<&str>) -> Option<Seq<char>> {
    match o {
        Some(s) => Some(s@),
        None => None,
    }
}

/// Chooses the grammar name from the override, the file name and the
/// file's stem as the path library gave it.
pub fn grammar_name_from_stem(filename: &str, override_name: Option<&str>, stem: Option<&str>) -> (r: String)
    ensures
        r@ == grammar_name_of(filename@, opt_view(override_name), opt_view(stem)),
{
    match override_name {
        Some(o) => owned(o),
        None => if str_eq(filename, "-") {
            owned("grammar")
        } else {
            match stem {
                Some(s) => owned(s),
                None => owned("grammar"),
            }
        },
    }
}

/// Whether `p` is a single plain file name: not empty, not `.` or `..`,
/// and holding no `/`, `\` or `:`, so that no platform reads a separator
/// or a prefix in it.
pub open spec fn plain_file_name(p: Seq<char>) -> bool {
    &&& p.len() > 0
    &&& p != "."@
    &&& p != ".."@
    &&& forall|i: int| 0 <= i < p.len() ==> #[trigger] p[i] != '/' && p[i] != '\\' && p[i] != ':'
}

/// The position of the last `.` in `p`, or -1.
pub open spec fn last_dot(p: Seq<char>) -> int
    decreases p.len(),
{
    if p.len() == 0 {
        -1
    } else if p.last() == '.' {
        p.len() - 1
    } else {
        last_dot(p.drop_last())
    }
}

/// The stem of a plain file name, as `Path::file_stem` documents it: the
/// whole name when it has no `.` or only a leading one, otherwise the part
/// before the last `.`.
pub open spec fn plain_stem(p: Seq<char>) -> Seq<char> {
    if last_dot(p) <= 0 {
        p
    } else {
        p.take(last_dot(p))
    }
}

/// The stem of the final component of `path` (`Path::file_stem`), if it
/// is valid text.  For a plain file name the result is the documented
/// stem; for other paths, what counts as a separator depends on the
/// platform, and nothing is stated.
#[verifier::external_body]
fn path_file_stem(path: &str) -> (r: Option<String>)
    ensures
        plain_file_name(path@) ==> r is Some && r.unwrap()@ == plain_stem(path@),
{
    std::path::Path::new(path).file_stem().and_then(|s| s.to_str()).map(|s| s.to_string())
}

/// Returns the grammar name: the explicit override if provided, `grammar`
/// for stdin, otherwise the file name's stem (or `grammar` without one).
pub fn grammar_name(filename: &str, override_name: Option<&str>) -> (r: String)
    ensures
        override_name matches Some(o) ==> r@ == o@,
        override_name is None && filename@ == "-"@ ==> r@ == "grammar"@,
        override_name is None && filename@ != "-"@ && plain_file_name(filename@) ==> r@ == plain_stem(filename@),
        override_name is None && filename@ != "-"@ ==> exists|st: Option<Seq<char>>| r@ == grammar_name_of(filename@, None, st),
{
    if override_name.is_none() && !str_eq(filename, "-") {
        let stem = path_file_stem(filename);
        match &stem {
            Some(s) => grammar_name_from_stem(filename, override_name, Some(s.as_str())),
            None => grammar_name_from_stem(filename, override_name, None),
        }
    } else {
        grammar_name_from_stem(filename, override_name, None)
    }
}

/// Returns the output directory: the explicit path if given, otherwise
/// the grammar name.
pub fn resolve_output_dir(output_dir: Option<&str>, grammar_name: &str) -> (r: String)
    ensures
        r@ == match output_dir {
            Some(d) => d@,
            None => grammar_name@,
        },
{
    match output_dir {
        Some(d) => owned(d),
        None => owned(grammar_name),
    }
}

} // verus!
