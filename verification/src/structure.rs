//! Structure-level operations: the rendered directory tree with its
//! language breakdown, and agent annotations on files.
use vstd::prelude::*;
use crate::file_entry::{spec_entry_same_core, spec_mark_of, FileMark, Language};
use crate::file_tree::{FileTree, LanguageBreakdown};
use crate::text::lower_of;
use vstd::string::StringExecFns;

verus! {

pub struct StructureResponse {
    pub tree: String,
    pub file_count: usize,
    pub language_breakdown: Vec<LanguageCount>,
}

pub struct LanguageCount {
    pub language: String,
    pub count: usize,
}

/// The lowercase name a language tag renders as.
pub open spec fn spec_language_name(l: Language) -> Seq<char> {
    if l == Language::Rust {
        "rust"@
    } else if l == Language::Python {
        "python"@
    } else if l == Language::TypeScript {
        "typescript"@
    } else if l == Language::JavaScript {
        "javascript"@
    } else if l == Language::Go {
        "go"@
    } else if l == Language::Java {
        "java"@
    } else if l == Language::C {
        "c"@
    } else if l == Language::Cpp {
        "cpp"@
    } else if l == Language::Ruby {
        "ruby"@
    } else if l == Language::Shell {
        "shell"@
    } else if l == Language::Markdown {
        "markdown"@
    } else if l == Language::Json {
        "json"@
    } else if l == Language::Yaml {
        "yaml"@
    } else if l == Language::Toml {
        "toml"@
    } else if l == Language::Html {
        "html"@
    } else if l == Language::Css {
        "css"@
    } else if l == Language::Sql {
        "sql"@
    } else {
        "other"@
    }
}

/// The lowercase name of a language tag.
pub fn language_name(l: Language) -> (r: &'static str)
    ensures
        r@ == spec_language_name(l),
{
    match l {
        Language::Rust => "rust",
        Language::Python => "python",
        Language::TypeScript => "typescript",
        Language::JavaScript => "javascript",
        Language::Go => "go",
        Language::Java => "java",
        Language::C => "c",
        Language::Cpp => "cpp",
        Language::Ruby => "ruby",
        Language::Shell => "shell",
        Language::Markdown => "markdown",
        Language::Json => "json",
        Language::Yaml => "yaml",
        Language::Toml => "toml",
        Language::Html => "html",
        Language::Css => "css",
        Language::Sql => "sql",
        Language::Other => "other",
    }
}

/// The total of the per-row counts.
pub open spec fn spec_sum_language_counts(rows: Seq<LanguageCount>) -> int
    decreases rows.len(),
{
    if rows.len() == 0 {
        0
    } else {
        rows[0].count + spec_sum_language_counts(rows.drop_first())
    }
}

proof fn lemma_sum_mirror(
    a: Seq<crate::file_tree::LanguageBreakdown>,
    b: Seq<LanguageCount>,
)
    requires
        a.len() == b.len(),
        forall|k: int| 0 <= k < a.len() ==> (#[trigger] a[k]).count == b[k].count,
    ensures
        crate::file_tree::spec_sum_counts(a) == spec_sum_language_counts(b),
    decreases a.len(),
{
    if a.len() > 0 {
        assert forall|k: int|
            0 <= k < a.drop_first().len() implies (#[trigger] a.drop_first()[k]).count
            == b.drop_first()[k].count by {
            assert(a[k + 1].count == b[k + 1].count);
        }
        lemma_sum_mirror(a.drop_first(), b.drop_first());
    }
}

/// The row names some language and carries exactly that language's file
/// count over the indexed entries.
pub open spec fn spec_breakdown_row(
    c: LanguageCount,
    entries: Seq<(String, crate::file_entry::FileEntry)>,
) -> bool {
    exists|l: Language|
        c.language@ == spec_language_name(l) && c.count == crate::file_tree::count_lang(entries, l)
}

/// The rendered tree, the number of indexed files, and the per-language
/// counts in descending order: one positive, exact row for some language
/// each, and a row for every language that occurs.
#[verifier::loop_isolation(false)]
#[verifier::rlimit(100)]
pub fn get_structure(file_tree: &FileTree, depth: usize) -> (r: StructureResponse)
    requires
        file_tree.wf(),
    ensures
        r.file_count == file_tree.files.key_seq().len(),
        forall|a: int, b: int|
            0 <= a < b < r.language_breakdown@.len() ==> r.language_breakdown@[a].count
                >= r.language_breakdown@[b].count,
        forall|k: int|
            0 <= k < r.language_breakdown@.len() ==> (#[trigger] r.language_breakdown@[k]).count
                > 0 && spec_breakdown_row(r.language_breakdown@[k], file_tree.files.entries@),
        forall|l: Language|
            crate::file_tree::count_lang(file_tree.files.entries@, l) > 0 ==> exists|k: int|
                0 <= k < r.language_breakdown@.len() && (#[trigger] r.language_breakdown@[
                    k]).language@ == spec_language_name(l),
        spec_sum_language_counts(r.language_breakdown@) == r.file_count,
        exists|rows: Seq<Seq<char>>|
            r.tree@ == crate::file_tree::spec_rows_text(rows) && (depth == 0
                && crate::file_tree::paths_render_cleanly(file_tree.files.key_seq())
                ==> crate::file_tree::count_file_rows(rows) == file_tree.files.key_seq().len()),
        exists|cs: Seq<(String, crate::file_tree::TreeNode)>|
            crate::file_tree::wf_children(cs) && crate::file_tree::slashless_children(cs)
                && r.tree@ == crate::file_tree::spec_rows_text(
                crate::file_tree::spec_render_from(cs, 0, ""@, depth as int, 0),
            ) && (crate::file_tree::paths_render_cleanly(file_tree.files.key_seq())
                ==> crate::file_tree::children_paths(cs) == file_tree.files.key_seq().map_values(
                |k: Seq<char>| crate::text::spec_split(k, '/'),
            ).to_set()),
{
    let tree = file_tree.render_tree(depth);
    let file_count = file_tree.len();
    let breakdown = file_tree.language_breakdown();
    let mut counts: Vec<LanguageCount> = Vec::new();
    let mut i: usize = 0;
    while i < breakdown.len()
        invariant
            i <= breakdown@.len(),
            counts@.len() == i,
            forall|j: int|
                0 <= j < i ==> (#[trigger] counts@[j]).count == breakdown@[j].count
                    && counts@[j].count > 0 && counts@[j].language@ == spec_language_name(
                    breakdown@[j].language,
                ),
        decreases breakdown@.len() - i,
    {
        proof {
            assert((breakdown@[i as int]).count > 0);
        }
        counts.push(
            LanguageCount {
                language: String::from_str(language_name(breakdown[i].language)),
                count: breakdown[i].count,
            },
        );
        i += 1;
    }
    proof {
        assert forall|a: int, b: int|
            0 <= a < b < counts@.len() implies counts@[a].count >= counts@[b].count by {
            assert(breakdown@[a].count >= breakdown@[b].count);
        }
        assert forall|k: int| 0 <= k < counts@.len() implies spec_breakdown_row(
            counts@[k],
            file_tree.files.entries@,
        ) by {
            let l = breakdown@[k].language;
            assert(counts@[k].language@ == spec_language_name(l) && counts@[k].count
                == crate::file_tree::count_lang(file_tree.files.entries@, l));
        }
        assert forall|l: Language|
            crate::file_tree::count_lang(file_tree.files.entries@, l) > 0 implies exists|k: int|
            0 <= k < counts@.len() && (#[trigger] counts@[k]).language@ == spec_language_name(
                l,
            ) by {
            let k0 = choose|k0: int|
                0 <= k0 < breakdown@.len() && (#[trigger] breakdown@[k0]).language == l;
            assert(counts@[k0].language@ == spec_language_name(l));
        }
        lemma_sum_mirror(breakdown@, counts@);
        assert(file_tree.files.key_seq().len() == file_tree.files.entries@.len());
        let rows = choose|rows: Seq<Seq<char>>|
            tree@ == crate::file_tree::spec_rows_text(rows) && (depth == 0
                && crate::file_tree::paths_render_cleanly(file_tree.files.key_seq())
                ==> crate::file_tree::count_file_rows(rows) == file_tree.files.key_seq().len());
        assert(tree@ == crate::file_tree::spec_rows_text(rows) && (depth == 0
            && crate::file_tree::paths_render_cleanly(file_tree.files.key_seq())
            ==> crate::file_tree::count_file_rows(rows) == file_tree.files.key_seq().len()));
        let cs0 = choose|cs: Seq<(String, crate::file_tree::TreeNode)>|
            crate::file_tree::wf_children(cs) && crate::file_tree::slashless_children(cs)
                && tree@ == crate::file_tree::spec_rows_text(
                crate::file_tree::spec_render_from(cs, 0, ""@, depth as int, 0),
            ) && (crate::file_tree::paths_render_cleanly(file_tree.files.key_seq())
                ==> crate::file_tree::children_paths(cs) == file_tree.files.key_seq().map_values(
                |k: Seq<char>| crate::text::spec_split(k, '/'),
            ).to_set());
        assert(crate::file_tree::wf_children(cs0) && crate::file_tree::slashless_children(cs0)
            && tree@ == crate::file_tree::spec_rows_text(
            crate::file_tree::spec_render_from(cs0, 0, ""@, depth as int, 0),
        ) && (crate::file_tree::paths_render_cleanly(file_tree.files.key_seq())
            ==> crate::file_tree::children_paths(cs0) == file_tree.files.key_seq().map_values(
            |k: Seq<char>| crate::text::spec_split(k, '/'),
        ).to_set()));
        assert(forall|l: Language|
            crate::file_tree::count_lang(file_tree.files.entries@, l) > 0 ==> exists|k: int|
                0 <= k < counts@.len() && (#[trigger] counts@[k]).language@ == spec_language_name(
                    l,
                ));
    }
    StructureResponse { tree, file_count, language_breakdown: counts }
}

/// Attach a definition to a file that has none yet. Fails when the file
/// is unknown or already defined.
pub fn define_file(file_tree: &mut FileTree, file: &str, definition: &str) -> (r: Result<
    (),
    String,
>)
    requires
        old(file_tree).wf(),
    ensures
        final(file_tree).wf(),
        r is Ok <==> (old(file_tree).files@.contains_key(file@) && old(file_tree).files@[
            file@].definition is None),
        match r {
            Ok(_) => final(file_tree).files@.contains_key(file@) && crate::parser::opt_view(
                final(file_tree).files@[file@].definition,
            ) == Some(definition@) && spec_entry_same_core(
                final(file_tree).files@[file@],
                old(file_tree).files@[file@],
            ) && final(file_tree).files@[file@].marks@ == old(file_tree).files@[file@].marks@ && (
            forall|p: Seq<char>|
                p != file@ ==> (#[trigger] final(file_tree).files@.contains_key(p)
                    == old(file_tree).files@.contains_key(p)) && (old(
                    file_tree,
                ).files@.contains_key(p) ==> final(file_tree).files@[p] == old(
                    file_tree,
                ).files@[p])),
            Err(_) => final(file_tree).files@ == old(file_tree).files@,
        },
{
    match file_tree.get(file) {
        Some(entry) => {
            if entry.definition.is_some() {
                let mut msg = String::from_str("File '");
                msg.append(file);
                msg.append("' already has a definition. Use redefine to update it.");
                return Err(msg);
            }
            let mut updated = entry;
            updated.definition = Some(String::from_str(definition));
            file_tree.insert(updated);
            Ok(())
        },
        None => {
            let mut msg = String::from_str("File '");
            msg.append(file);
            msg.append("' not found in index");
            Err(msg)
        },
    }
}

/// Attach or replace a file's definition. Fails only when the file is
/// unknown.
pub fn redefine_file(file_tree: &mut FileTree, file: &str, definition: &str) -> (r: Result<
    (),
    String,
>)
    requires
        old(file_tree).wf(),
    ensures
        final(file_tree).wf(),
        r is Ok <==> old(file_tree).files@.contains_key(file@),
        match r {
            Ok(_) => final(file_tree).files@.contains_key(file@) && crate::parser::opt_view(
                final(file_tree).files@[file@].definition,
            ) == Some(definition@) && spec_entry_same_core(
                final(file_tree).files@[file@],
                old(file_tree).files@[file@],
            ) && final(file_tree).files@[file@].marks@ == old(file_tree).files@[file@].marks@ && (
            forall|p: Seq<char>|
                p != file@ ==> (#[trigger] final(file_tree).files@.contains_key(p)
                    == old(file_tree).files@.contains_key(p)) && (old(
                    file_tree,
                ).files@.contains_key(p) ==> final(file_tree).files@[p] == old(
                    file_tree,
                ).files@[p])),
            Err(_) => final(file_tree).files@ == old(file_tree).files@,
        },
{
    match file_tree.get(file) {
        Some(entry) => {
            let mut updated = entry;
            updated.definition = Some(String::from_str(definition));
            file_tree.insert(updated);
            Ok(())
        },
        None => {
            let mut msg = String::from_str("File '");
            msg.append(file);
            msg.append("' not found in index");
            Err(msg)
        },
    }
}

/// Add a mark to a file, if not already present. Fails on an unknown
/// mark name or an unknown file.
pub fn mark_file(file_tree: &mut FileTree, file: &str, mark_str: &str) -> (r: Result<(), String>)
    requires
        old(file_tree).wf(),
    ensures
        final(file_tree).wf(),
        r is Ok <==> (spec_mark_of(lower_of(mark_str@)) is Some && old(
            file_tree,
        ).files@.contains_key(file@)),
        match r {
            Ok(_) => ({
                let e0 = old(file_tree).files@[file@];
                let e1 = final(file_tree).files@[file@];
                let mk = spec_mark_of(lower_of(mark_str@))->0;
                &&& final(file_tree).files@.contains_key(file@)
                &&& spec_entry_same_core(e1, e0)
                &&& e1.definition == e0.definition
                &&& (e0.marks@.contains(mk) ==> e1.marks@ == e0.marks@)
                &&& (!e0.marks@.contains(mk) ==> e1.marks@ == e0.marks@.push(mk))
                &&& forall|p: Seq<char>|
                    p != file@ ==> (#[trigger] final(file_tree).files@.contains_key(p)
                        == old(file_tree).files@.contains_key(p)) && (old(
                        file_tree,
                    ).files@.contains_key(p) ==> final(file_tree).files@[p]
                        == old(file_tree).files@[p])
            }),
            Err(_) => final(file_tree).files@ == old(file_tree).files@,
        },
{
    let mark = match FileMark::from_str(mark_str) {
        Some(m) => m,
        None => {
            let mut msg = String::from_str("Unknown mark type: '");
            msg.append(mark_str);
            msg.append(
                "'. Valid: documentation, ignore, test, config, generated, custom",
            );
            return Err(msg);
        },
    };
    match file_tree.get(file) {
        Some(entry) => {
            let mut updated = entry;
            let mut present = false;
            let mut pi: usize = 0;
            while pi < updated.marks.len()
                invariant
                    pi <= updated.marks@.len(),
                    present == exists|j: int| 0 <= j < pi && updated.marks@[j] == mark,
                decreases updated.marks@.len() - pi,
            {
                if updated.marks[pi] == mark {
                    present = true;
                    proof {
                        assert(updated.marks@[pi as int] == mark);
                    }
                }
                pi += 1;
            }
            proof {
                if present {
                    let j = choose|j: int|
                        0 <= j < updated.marks@.len() && updated.marks@[j] == mark;
                    assert(updated.marks@.contains(mark));
                } else {
                    if updated.marks@.contains(mark) {
                        let j = choose|j: int|
                            0 <= j < updated.marks@.len() && updated.marks@[j] == mark;
                        assert(false);
                    }
                }
            }
            if !present {
                updated.marks.push(mark);
                proof {
                    assert(updated.marks@.last() == mark);
                }
            }
            file_tree.insert(updated);
            Ok(())
        },
        None => {
            let mut msg = String::from_str("File '");
            msg.append(file);
            msg.append("' not found in index");
            Err(msg)
        },
    }
}

} // verus!
