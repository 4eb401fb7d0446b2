//! Parser profiles for TypeScript and JavaScript sources.
use vstd::prelude::*;
use crate::file_entry::Language;
use crate::parser::{lang_handle, parser_handle};
use crate::queries::{LanguageConfig, TestPattern};

verus! {

pub const SYMBOLS_QUERY: &'static str = "\n(function_declaration\n  name: (identifier) @function.name) @function.def\n\n(class_declaration\n  name: (type_identifier) @class.name) @class.def\n\n(method_definition\n  name: (property_identifier) @method.name) @method.def\n\n(lexical_declaration\n  (variable_declarator\n    name: (identifier) @const.name\n    value: (arrow_function))) @const.def\n\n(interface_declaration\n  name: (type_identifier) @interface.name) @interface.def\n\n(type_alias_declaration\n  name: (type_identifier) @type.name) @type.def\n\n(enum_declaration\n  name: (identifier) @enum.name) @enum.def\n";

pub const CALLERS_QUERY: &'static str = "\n(call_expression\n  function: (identifier) @callee)\n\n(call_expression\n  function: (member_expression\n    property: (property_identifier) @callee))\n";

pub const VARIABLES_QUERY: &'static str = "\n(variable_declarator\n  name: (identifier) @var.name)\n\n(variable_declarator\n  name: (object_pattern\n    (shorthand_property_identifier_pattern) @var.name))\n\n(variable_declarator\n  name: (array_pattern\n    (identifier) @var.name))\n\n(for_in_statement\n  left: (identifier) @var.name)\n\n(for_in_statement\n  left: (lexical_declaration\n    (variable_declarator\n      name: (identifier) @var.name)))\n\n(required_parameter\n  pattern: (identifier) @var.name)\n\n(optional_parameter\n  pattern: (identifier) @var.name)\n";

pub const JS_SYMBOLS_QUERY: &'static str = "\n(function_declaration\n  name: (identifier) @function.name) @function.def\n\n(class_declaration\n  name: (identifier) @class.name) @class.def\n\n(method_definition\n  name: (property_identifier) @method.name) @method.def\n\n(lexical_declaration\n  (variable_declarator\n    name: (identifier) @const.name\n    value: (arrow_function))) @const.def\n";

pub const JS_CALLERS_QUERY: &'static str = "\n(call_expression\n  function: (identifier) @callee)\n\n(call_expression\n  function: (member_expression\n    property: (property_identifier) @callee))\n";

pub const JS_VARIABLES_QUERY: &'static str = "\n(variable_declarator\n  name: (identifier) @var.name)\n\n(variable_declarator\n  name: (object_pattern\n    (shorthand_property_identifier_pattern) @var.name))\n\n(variable_declarator\n  name: (array_pattern\n    (identifier) @var.name))\n\n(for_in_statement\n  left: (identifier) @var.name)\n\n(formal_parameters\n  (identifier) @var.name)\n";

pub fn config() -> (r: LanguageConfig)
    ensures
        r.language == parser_handle(Language::TypeScript),
        r.callers_query@ == CALLERS_QUERY@,
        r.symbols_query@ == SYMBOLS_QUERY@,
        r.variables_query@ == VARIABLES_QUERY@,
{
    let handle = lang_handle(&Language::TypeScript);
    LanguageConfig {
        language: handle.unwrap(),
        symbols_query: SYMBOLS_QUERY,
        callers_query: CALLERS_QUERY,
        variables_query: VARIABLES_QUERY,
        test_patterns: vec![
            TestPattern::CallExpression("it"),
            TestPattern::CallExpression("test"),
            TestPattern::CallExpression("describe"),
        ],
    }
}

pub fn js_config() -> (r: LanguageConfig)
    ensures
        r.language == parser_handle(Language::JavaScript),
        r.callers_query@ == JS_CALLERS_QUERY@,
        r.symbols_query@ == JS_SYMBOLS_QUERY@,
        r.variables_query@ == JS_VARIABLES_QUERY@,
{
    let handle = lang_handle(&Language::JavaScript);
    LanguageConfig {
        language: handle.unwrap(),
        symbols_query: JS_SYMBOLS_QUERY,
        callers_query: JS_CALLERS_QUERY,
        variables_query: JS_VARIABLES_QUERY,
        test_patterns: vec![
            TestPattern::CallExpression("it"),
            TestPattern::CallExpression("test"),
            TestPattern::CallExpression("describe"),
        ],
    }
}

} // verus!
