//! Symbol records extracted from source files.
use vstd::prelude::*;
use crate::file_entry::Language;
use crate::text::{lower_of, str_eq, to_lower};

verus! {

#[derive(Clone, Copy, PartialEq, Eq, Debug, Structural)]
pub enum SymbolKind {
    Function,
    Method,
    Class,
    Struct,
    Enum,
    Trait,
    Interface,
    Constant,
    Variable,
    Type,
    Module,
    Import,
    Other,
}

/// The kind that a lowercased name maps to, when any.
pub open spec fn spec_kind_of(l: Seq<char>) -> Option<SymbolKind> {
    if l == "function"@ || l == "fn"@ || l == "func"@ {
        Some(SymbolKind::Function)
    } else if l == "method"@ {
        Some(SymbolKind::Method)
    } else if l == "class"@ {
        Some(SymbolKind::Class)
    } else if l == "struct"@ {
        Some(SymbolKind::Struct)
    } else if l == "enum"@ {
        Some(SymbolKind::Enum)
    } else if l == "trait"@ {
        Some(SymbolKind::Trait)
    } else if l == "interface"@ {
        Some(SymbolKind::Interface)
    } else if l == "constant"@ || l == "const"@ {
        Some(SymbolKind::Constant)
    } else if l == "variable"@ || l == "var"@ || l == "let"@ {
        Some(SymbolKind::Variable)
    } else if l == "type"@ {
        Some(SymbolKind::Type)
    } else if l == "module"@ || l == "mod"@ {
        Some(SymbolKind::Module)
    } else if l == "import"@ || l == "use"@ {
        Some(SymbolKind::Import)
    } else {
        None
    }
}

impl SymbolKind {
    /// Parse a kind name, case-insensitively, with its common aliases.
    pub fn from_str(s: &str) -> (r: Option<Self>)
        ensures
            r == spec_kind_of(lower_of(s@)),
    {
        let low = to_lower(s);
        let l = low.as_str();
        if str_eq(l, "function") || str_eq(l, "fn") || str_eq(l, "func") {
            Some(SymbolKind::Function)
        } else if str_eq(l, "method") {
            Some(SymbolKind::Method)
        } else if str_eq(l, "class") {
            Some(SymbolKind::Class)
        } else if str_eq(l, "struct") {
            Some(SymbolKind::Struct)
        } else if str_eq(l, "enum") {
            Some(SymbolKind::Enum)
        } else if str_eq(l, "trait") {
            Some(SymbolKind::Trait)
        } else if str_eq(l, "interface") {
            Some(SymbolKind::Interface)
        } else if str_eq(l, "constant") || str_eq(l, "const") {
            Some(SymbolKind::Constant)
        } else if str_eq(l, "variable") || str_eq(l, "var") || str_eq(l, "let") {
            Some(SymbolKind::Variable)
        } else if str_eq(l, "type") {
            Some(SymbolKind::Type)
        } else if str_eq(l, "module") || str_eq(l, "mod") {
            Some(SymbolKind::Module)
        } else if str_eq(l, "import") || str_eq(l, "use") {
            Some(SymbolKind::Import)
        } else {
            None
        }
    }
}

/// A named declaration extracted from a parseable file. Byte and line
/// ranges refer to the file as of the extraction.
/// The two records agree on every field but the agent-set definition.
pub open spec fn spec_sym_same_but_definition(a: Symbol, b: Symbol) -> bool {
    a.name@ == b.name@ && a.kind == b.kind && a.file@ == b.file@ && a.byte_range == b.byte_range
        && a.line_range == b.line_range && a.language == b.language && a.signature@ == b.signature@
        && crate::parser::opt_view(a.parent) == crate::parser::opt_view(b.parent)
}

#[derive(Debug)]
pub struct Symbol {
    pub name: String,
    pub kind: SymbolKind,
    pub file: String,
    pub byte_range: (usize, usize),
    pub line_range: (usize, usize),
    pub language: Language,
    /// First line of the symbol (e.g. function signature).
    pub signature: String,
    /// Agent-set human-readable description.
    pub definition: Option<String>,
    /// Parent symbol name (e.g. the enclosing type of a method).
    pub parent: Option<String>,
}

/// Copy an optional string, preserving its value.
pub fn clone_opt_string(o: &Option<String>) -> (r: Option<String>)
    ensures
        r == *o,
{
    match o {
        Some(s) => Some(s.clone()),
        None => None,
    }
}

impl Symbol {
    /// An equal copy of this record.
    pub fn duplicate(&self) -> (r: Self)
        ensures
            r == *self,
    {
        let r = Symbol {
            name: self.name.clone(),
            kind: self.kind,
            file: self.file.clone(),
            byte_range: self.byte_range,
            line_range: self.line_range,
            language: self.language,
            signature: self.signature.clone(),
            definition: clone_opt_string(&self.definition),
            parent: clone_opt_string(&self.parent),
        };
        r
    }
}

} // verus!
