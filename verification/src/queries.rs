//! Language profiles: a parser handle plus the symbol, call-site and
//! variable pattern sources for each supported language.
pub mod go;
pub mod python;
pub mod rust;
pub mod typescript;

use vstd::prelude::*;
use crate::file_entry::{spec_has_profile, Language};
use crate::parser::parser_handle;

verus! {

/// How test functions are recognised for a language.
pub enum TestPattern {
    /// Functions whose name starts with a prefix.
    FunctionPrefix(&'static str),
    /// Functions marked with an attribute or decorator.
    Attribute(&'static str),
    /// Call expressions with a specific callee name.
    CallExpression(&'static str),
}

/// A language profile: parser handle and pattern sources. The call-site
/// pattern captures `callee`; the variable pattern captures `var.name`.
pub struct LanguageConfig {
    pub language: tree_sitter::Language,
    pub symbols_query: &'static str,
    pub callers_query: &'static str,
    pub variables_query: &'static str,
    pub test_patterns: Vec<TestPattern>,
}

/// The symbol query source of each profile.
pub open spec fn spec_symbols_query(lang: Language) -> Seq<char> {
    if lang == Language::Rust {
        rust::SYMBOLS_QUERY@
    } else if lang == Language::Python {
        python::SYMBOLS_QUERY@
    } else if lang == Language::TypeScript {
        typescript::SYMBOLS_QUERY@
    } else if lang == Language::JavaScript {
        typescript::JS_SYMBOLS_QUERY@
    } else if lang == Language::Go {
        go::SYMBOLS_QUERY@
    } else {
        Seq::empty()
    }
}

/// The local-variable query source of each profile.
pub open spec fn spec_variables_query(lang: Language) -> Seq<char> {
    if lang == Language::Rust {
        rust::VARIABLES_QUERY@
    } else if lang == Language::Python {
        python::VARIABLES_QUERY@
    } else if lang == Language::TypeScript {
        typescript::VARIABLES_QUERY@
    } else if lang == Language::JavaScript {
        typescript::JS_VARIABLES_QUERY@
    } else if lang == Language::Go {
        go::VARIABLES_QUERY@
    } else {
        Seq::empty()
    }
}

/// The call-site query source of each profile.
pub open spec fn spec_callers_query(lang: Language) -> Seq<char> {
    if lang == Language::Rust {
        rust::CALLERS_QUERY@
    } else if lang == Language::Python {
        python::CALLERS_QUERY@
    } else if lang == Language::TypeScript {
        typescript::CALLERS_QUERY@
    } else if lang == Language::JavaScript {
        typescript::JS_CALLERS_QUERY@
    } else if lang == Language::Go {
        go::CALLERS_QUERY@
    } else {
        Seq::empty()
    }
}

/// The profile for a language, when it has one.
pub fn get_language_config(lang: Language) -> (r: Option<LanguageConfig>)
    ensures
        r is Some <==> spec_has_profile(lang),
        match r {
            Some(c) => c.language == parser_handle(lang) && c.callers_query@ == spec_callers_query(
                lang,
            ) && c.symbols_query@ == spec_symbols_query(lang) && c.variables_query@
                == spec_variables_query(lang),
            None => true,
        },
{
    match lang {
        Language::Rust => Some(rust::config()),
        Language::Python => Some(python::config()),
        Language::TypeScript => Some(typescript::config()),
        Language::JavaScript => Some(typescript::js_config()),
        Language::Go => Some(go::config()),
        _ => None,
    }
}

} // verus!
