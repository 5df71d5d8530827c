//! File names that carry a suffix between stem and extension.

use vstd::prelude::*;
use vstd::string::StringExecFns;

verus! {

/// The name `stem-suffix.extension`, as characters.
pub open spec fn suffixed(stem: Seq<char>, suffix: Seq<char>, extension: Seq<char>) -> Seq<char> {
    stem + seq!['-'] + suffix + seq!['.'] + extension
}

/// The file name to give a file whose name has the stem `stem` and the
/// extension `extension`, so that it carries `suffix` between the two.
///
/// Where any of the three is missing there is nothing to compose, and the
/// file keeps its name.
pub fn suffixed_file_name(stem: Option<&str>, extension: Option<&str>, suffix: Option<&str>) -> (name:
    Option<String>)
    ensures
        name is Some <==> stem is Some && extension is Some && suffix is Some,
        name matches Some(n) ==> n@ == suffixed(stem->0@, suffix->0@, extension->0@),
{
    match (stem, extension, suffix) {
        (Some(stem), Some(extension), Some(suffix)) => {
            proof {
                reveal_strlit("-");
                reveal_strlit(".");
            }
            let mut name = String::from_str(stem);
            name.append("-");
            name.append(suffix);
            name.append(".");
            name.append(extension);
            assert("-"@ == seq!['-']);
            assert("."@ == seq!['.']);
            Some(name)
        },
        _ => None,
    }
}

} // verus!
