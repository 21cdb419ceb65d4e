use vstd::prelude::*;
use crate::text::same_text;

verus! {

/// The display name of a language code: the base language's name plain, the
/// other known languages marked unofficial, and a placeholder for any other
/// code.
pub open spec fn display_name(code: Seq<char>) -> Seq<char> {
    if code == "en"@ {
        "English"@
    } else if code == "ru"@ {
        "Русский (Unofficial)"@
    } else if code == "es"@ {
        "Español (Unofficial)"@
    } else if code == "pt"@ {
        "Português (Unofficial)"@
    } else if code == "bg"@ {
        "Български (Unofficial)"@
    } else if code == "it"@ {
        "Italiano (Unofficial)"@
    } else if code == "pl"@ {
        "Polski (Unofficial)"@
    } else if code == "fr"@ {
        "French (Unofficial)"@
    } else if code == "zh_cn"@ {
        "简体中文 (Unofficial)"@
    } else if code == "ro"@ {
        "Română (Unofficial)"@
    } else {
        "LANG_STUB"@
    }
}

/// The display name of a language code; unknown codes get the placeholder
/// `LANG_STUB` rather than an error.
pub fn to_language(code: &str) -> (r: String)
    ensures
        r@ == display_name(code@),
{
    if same_text(code, "en") {
        return String::from_str("English");
    }
    if same_text(code, "ru") {
        return String::from_str("Русский (Unofficial)");
    }
    if same_text(code, "es") {
        return String::from_str("Español (Unofficial)");
    }
    if same_text(code, "pt") {
        return String::from_str("Português (Unofficial)");
    }
    if same_text(code, "bg") {
        return String::from_str("Български (Unofficial)");
    }
    if same_text(code, "it") {
        return String::from_str("Italiano (Unofficial)");
    }
    if same_text(code, "pl") {
        return String::from_str("Polski (Unofficial)");
    }
    if same_text(code, "fr") {
        return String::from_str("French (Unofficial)");
    }
    if same_text(code, "zh_cn") {
        return String::from_str("简体中文 (Unofficial)");
    }
    if same_text(code, "ro") {
        return String::from_str("Română (Unofficial)");
    }
    String::from_str("LANG_STUB")
}

} // verus!
