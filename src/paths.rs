use vstd::prelude::*;
use crate::text::same_text;

verus! {

/// Where the canonical file is read from by default, and the name it gets
/// inside the per-language directory when that is the input.
pub open spec fn default_translations() -> Seq<char> {
    "translations.json"@
}

/// Where the per-language files go by default.
pub open spec fn default_dir() -> Seq<char> {
    "crowdin"@
}

/// The input and output paths to use. In reverse mode with both paths left at
/// their defaults, the per-language directory becomes the input and the
/// canonical file inside it the output; otherwise the paths stay as given.
pub fn transform_default_args(reverse: bool, input: &str, output: &str) -> (r: (String, String))
    ensures
        reverse && input@ == default_translations() && output@ == default_dir() ==> r.0@ == output@
            && r.1@ == output@ + "/"@ + default_translations(),
        !(reverse && input@ == default_translations() && output@ == default_dir()) ==> r.0@
            == input@ && r.1@ == output@,
{
    if reverse && same_text(input, "translations.json") && same_text(output, "crowdin") {
        let mut joined = String::from_str(output);
        joined.append("/");
        joined.append("translations.json");
        (String::from_str(output), joined)
    } else {
        (String::from_str(input), String::from_str(output))
    }
}

} // verus!
