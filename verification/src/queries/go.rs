//! Parser profile for Go sources.
use vstd::prelude::*;
use crate::file_entry::Language;
use crate::parser::{lang_handle, parser_handle};
use crate::queries::{LanguageConfig, TestPattern};

verus! {

pub const SYMBOLS_QUERY: &'static str = "\n(function_declaration\n  name: (identifier) @function.name) @function.def\n\n(method_declaration\n  name: (field_identifier) @method.name) @method.def\n\n(type_declaration\n  (type_spec\n    name: (type_identifier) @struct.name\n    type: (struct_type))) @struct.def\n\n(type_declaration\n  (type_spec\n    name: (type_identifier) @interface.name\n    type: (interface_type))) @interface.def\n\n(type_declaration\n  (type_spec\n    name: (type_identifier) @type.name)) @type.def\n\n(const_declaration\n  (const_spec\n    name: (identifier) @const.name)) @const.def\n\n(var_declaration\n  (var_spec\n    name: (identifier) @const.name)) @const.def\n";

pub const CALLERS_QUERY: &'static str = "\n(call_expression\n  function: (identifier) @callee)\n\n(call_expression\n  function: (selector_expression\n    field: (field_identifier) @callee))\n";

pub const VARIABLES_QUERY: &'static str = "\n(short_var_declaration\n  left: (expression_list\n    (identifier) @var.name))\n\n(var_declaration\n  (var_spec\n    name: (identifier) @var.name))\n\n(range_clause\n  left: (expression_list\n    (identifier) @var.name))\n\n(parameter_declaration\n  name: (identifier) @var.name)\n";

pub fn config() -> (r: LanguageConfig)
    ensures
        r.language == parser_handle(Language::Go),
        r.callers_query@ == CALLERS_QUERY@,
        r.symbols_query@ == SYMBOLS_QUERY@,
        r.variables_query@ == VARIABLES_QUERY@,
{
    let handle = lang_handle(&Language::Go);
    LanguageConfig {
        language: handle.unwrap(),
        symbols_query: SYMBOLS_QUERY,
        callers_query: CALLERS_QUERY,
        variables_query: VARIABLES_QUERY,
        test_patterns: vec![TestPattern::FunctionPrefix("Test")],
    }
}

} // verus!
