//! Parser profile for Rust sources.
use vstd::prelude::*;
use crate::file_entry::Language;
use crate::parser::{lang_handle, parser_handle};
use crate::queries::{LanguageConfig, TestPattern};

verus! {

pub const SYMBOLS_QUERY: &'static str = "\n(function_item\n  name: (identifier) @function.name) @function.def\n\n(impl_item\n  type: (_) @impl.type\n  body: (declaration_list\n    (function_item\n      name: (identifier) @method.name) @method.def))\n\n(struct_item\n  name: (type_identifier) @struct.name) @struct.def\n\n(enum_item\n  name: (type_identifier) @enum.name) @enum.def\n\n(trait_item\n  name: (type_identifier) @trait.name) @trait.def\n\n(type_item\n  name: (type_identifier) @type.name) @type.def\n\n(const_item\n  name: (identifier) @const.name) @const.def\n\n(static_item\n  name: (identifier) @static.name) @static.def\n\n(mod_item\n  name: (identifier) @mod.name) @mod.def\n";

pub const CALLERS_QUERY: &'static str = "\n(call_expression\n  function: (identifier) @callee)\n\n(call_expression\n  function: (field_expression\n    field: (field_identifier) @callee))\n\n(call_expression\n  function: (scoped_identifier\n    name: (identifier) @callee))\n\n(macro_invocation\n  macro: (identifier) @callee)\n";

pub const VARIABLES_QUERY: &'static str = "\n(let_declaration\n  pattern: (identifier) @var.name)\n\n(let_declaration\n  pattern: (tuple_pattern\n    (identifier) @var.name))\n\n(let_declaration\n  pattern: (tuple_struct_pattern\n    (identifier) @var.name))\n\n(for_expression\n  pattern: (identifier) @var.name)\n\n(let_condition\n  pattern: (identifier) @var.name)\n\n(parameter\n  pattern: (identifier) @var.name)\n";

pub fn config() -> (r: LanguageConfig)
    ensures
        r.language == parser_handle(Language::Rust),
        r.callers_query@ == CALLERS_QUERY@,
        r.symbols_query@ == SYMBOLS_QUERY@,
        r.variables_query@ == VARIABLES_QUERY@,
{
    let handle = lang_handle(&Language::Rust);
    LanguageConfig {
        language: handle.unwrap(),
        symbols_query: SYMBOLS_QUERY,
        callers_query: CALLERS_QUERY,
        variables_query: VARIABLES_QUERY,
        test_patterns: vec![TestPattern::Attribute("test")],
    }
}

} // verus!
