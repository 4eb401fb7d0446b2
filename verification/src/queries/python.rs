//! Parser profile for Python sources.
use vstd::prelude::*;
use crate::file_entry::Language;
use crate::parser::{lang_handle, parser_handle};
use crate::queries::{LanguageConfig, TestPattern};

verus! {

pub const SYMBOLS_QUERY: &'static str = "\n(function_definition\n  name: (identifier) @function.name) @function.def\n\n(class_definition\n  name: (identifier) @class.name\n  body: (block\n    (function_definition\n      name: (identifier) @method.name) @method.def)?) @class.def\n";

pub const CALLERS_QUERY: &'static str = "\n(call\n  function: (identifier) @callee)\n\n(call\n  function: (attribute\n    attribute: (identifier) @callee))\n";

pub const VARIABLES_QUERY: &'static str = "\n(assignment\n  left: (identifier) @var.name)\n\n(assignment\n  left: (pattern_list\n    (identifier) @var.name))\n\n(assignment\n  left: (tuple_pattern\n    (identifier) @var.name))\n\n(for_statement\n  left: (identifier) @var.name)\n\n(for_statement\n  left: (tuple_pattern\n    (identifier) @var.name))\n\n(with_item\n  (as_pattern\n    alias: (as_pattern_target\n      (identifier) @var.name)))\n\n(parameters\n  (identifier) @var.name)\n\n(parameters\n  (default_parameter\n    name: (identifier) @var.name))\n\n(parameters\n  (typed_parameter\n    (identifier) @var.name))\n\n(parameters\n  (typed_default_parameter\n    name: (identifier) @var.name))\n";

pub fn config() -> (r: LanguageConfig)
    ensures
        r.language == parser_handle(Language::Python),
        r.callers_query@ == CALLERS_QUERY@,
        r.symbols_query@ == SYMBOLS_QUERY@,
        r.variables_query@ == VARIABLES_QUERY@,
{
    let handle = lang_handle(&Language::Python);
    LanguageConfig {
        language: handle.unwrap(),
        symbols_query: SYMBOLS_QUERY,
        callers_query: CALLERS_QUERY,
        variables_query: VARIABLES_QUERY,
        test_patterns: vec![TestPattern::FunctionPrefix("test_")],
    }
}

} // verus!
