//! A conversion request: where its output goes, how the conversion engine is
//! called for it, and what follows from the engine's answer.

use vstd::prelude::*;
use crate::error::PipelineError;
use crate::front_matter::{inject_metadata_to_markdown, line_end, merged_document, MetaValue};
use crate::output::{make_unique_with_ext, output_name};
use crate::paths::{
    extension, file_stem, parent, path_extension, path_file_stem, path_join, path_parent,
};
use crate::text::{
    copy_range, dir_view, find_from, from_chars, has_substring, option_view, push_name,
    str_contains, to_chars, views,
};

verus! {

/// A request to convert one document.
#[derive(Debug)]
pub struct ConvertOptions {
    /// The Markdown file to convert.
    pub input_file: String,
    /// Where the caller wants the output; its stem, extension and directory
    /// take the place of the defaults.
    pub output_file: Option<String>,
    /// The directory of the document that the input was prepared from.
    pub source_dir: Option<String>,
    /// The name of the document that the input was prepared from.
    pub source_name: Option<String>,
    /// The staged template that styles the output.
    pub reference_doc: Option<String>,
    /// Entries to merge into the front matter of the input before it is
    /// converted.
    pub metadata: Option<MetaValue>,
    /// A metadata file to hand to the engine.
    pub metadata_file: Option<String>,
    /// Whether the cross-reference filter is wanted.
    pub use_crossref: bool,
}

/// Where an output is written, before a free name is looked for.
#[derive(Debug)]
pub struct OutputTarget {
    pub dir: String,
    pub stem: String,
    pub ext: String,
}

/// The directory of the input file, or `.` if its path has none.
pub open spec fn default_dir(input: Seq<char>) -> Seq<char> {
    match path_parent(input) {
        Some(dir) => dir,
        None => "."@,
    }
}

/// The directory for the output when the caller names no output file: the
/// source directory if one is given and exists, else that of the input.
pub open spec fn target_dir(source_dir: Option<Seq<char>>, source_dir_exists: bool, input: Seq<char>)
    -> Seq<char> {
    match source_dir {
        Some(dir) => if source_dir_exists {
            dir
        } else {
            default_dir(input)
        },
        None => default_dir(input),
    }
}

/// The stem for the output when the caller names no output file: that of
/// the source name, else that of the input file, else `document`.
pub open spec fn base_stem(source_name: Option<Seq<char>>, input: Seq<char>) -> Seq<char> {
    let from_source = match source_name {
        Some(name) => path_file_stem(name),
        None => None,
    };
    match from_source {
        Some(stem) => stem,
        None => match path_file_stem(input) {
            Some(stem) => stem,
            None => "document"@,
        },
    }
}

/// The directory in which the output of `options` is written.
pub open spec fn output_dir(options: ConvertOptions, source_dir_exists: bool) -> Seq<char> {
    let fallback = target_dir(
        option_view(options.source_dir),
        source_dir_exists,
        options.input_file@,
    );
    match options.output_file {
        Some(provided) => match path_parent(provided@) {
            Some(dir) => dir,
            None => fallback,
        },
        None => fallback,
    }
}

/// The stem of the output of `options`.
pub open spec fn output_stem(options: ConvertOptions) -> Seq<char> {
    let fallback = base_stem(option_view(options.source_name), options.input_file@);
    match options.output_file {
        Some(provided) => match path_file_stem(provided@) {
            Some(stem) => stem,
            None => fallback,
        },
        None => fallback,
    }
}

/// The extension of the output of `options`: that of the output file the
/// caller names, else `docx`.
pub open spec fn output_ext(options: ConvertOptions) -> Seq<char> {
    match options.output_file {
        Some(provided) => match path_extension(provided@) {
            Some(ext) => ext,
            None => "docx"@,
        },
        None => "docx"@,
    }
}

/// The directory, stem and extension of the output of `options`.
/// `source_dir_exists` says whether the source directory, if the request
/// names one, is there.
pub fn output_target(options: &ConvertOptions, source_dir_exists: bool) -> (r: OutputTarget)
    ensures
        r.dir@ == output_dir(*options, source_dir_exists),
        r.stem@ == output_stem(*options),
        r.ext@ == output_ext(*options),
{
    let input = options.input_file.as_str();
    let default_dir = match parent(input) {
        Some(dir) => dir,
        None => ".".to_owned(),
    };
    let target_dir = match &options.source_dir {
        Some(dir) => if source_dir_exists {
            dir.clone()
        } else {
            default_dir
        },
        None => default_dir,
    };
    let from_source = match &options.source_name {
        Some(name) => file_stem(name.as_str()),
        None => None,
    };
    let base_stem = match from_source {
        Some(stem) => stem,
        None => match file_stem(input) {
            Some(stem) => stem,
            None => "document".to_owned(),
        },
    };
    match &options.output_file {
        Some(provided) => {
            let stem = match file_stem(provided.as_str()) {
                Some(stem) => stem,
                None => base_stem,
            };
            let ext = match extension(provided.as_str()) {
                Some(ext) => ext,
                None => "docx".to_owned(),
            };
            let dir = match parent(provided.as_str()) {
                Some(dir) => dir,
                None => target_dir,
            };
            OutputTarget { dir, stem, ext }
        },
        None => OutputTarget { dir: target_dir, stem: base_stem, ext: "docx".to_owned() },
    }
}

/// The path of the output of `options`: in the output directory, under the
/// first output name that `existing`, the names in that directory, lacks.
pub fn resolve_output_path(
    options: &ConvertOptions,
    source_dir_exists: bool,
    existing: &Vec<String>,
) -> (r: String)
    ensures
        r@ == path_join(
            output_dir(*options, source_dir_exists),
            output_name(output_stem(*options), output_ext(*options), views(existing@)),
        ),
        !views(existing@).contains(
            output_name(output_stem(*options), output_ext(*options), views(existing@)),
        ),
{
    let target = output_target(options, source_dir_exists);
    make_unique_with_ext(target.dir.as_str(), target.stem.as_str(), target.ext.as_str(), existing)
}

/// The words after the engine's name when it is called for `options` to
/// write `output`: the input, `-o` and the output; the template, if any; the
/// metadata file, if any; and the filter at `crossref`, if the request wants
/// it and it is installed.
pub open spec fn arguments(options: ConvertOptions, output: Seq<char>, crossref: Option<Seq<char>>)
    -> Seq<Seq<char>> {
    seq![options.input_file@, "-o"@, output] + (match options.reference_doc {
        Some(doc) => seq!["--reference-doc"@, doc@],
        None => Seq::empty(),
    }) + (match options.metadata_file {
        Some(file) => seq!["--metadata-file"@, file@],
        None => Seq::empty(),
    }) + (match crossref {
        Some(filter) => if options.use_crossref {
            seq!["-F"@, filter]
        } else {
            Seq::empty()
        },
        None => Seq::empty(),
    })
}

/// The words after the engine's name when it is called for `options` to
/// write `output_path`. `crossref_exe` is the filter executable if it is
/// installed, `None` if it is not.
pub fn build_arguments(options: &ConvertOptions, output_path: &str, crossref_exe: Option<&str>)
    -> (r: Vec<String>)
    ensures
        views(r@) == arguments(*options, output_path@, dir_view(crossref_exe)),
{
    let mut words: Vec<String> = Vec::new();
    assert(views(words@) =~= Seq::<Seq<char>>::empty());
    push_name(&mut words, options.input_file.as_str());
    push_name(&mut words, "-o");
    push_name(&mut words, output_path);
    assert(views(words@) =~= seq![options.input_file@, "-o"@, output_path@]);
    let ghost head = views(words@);
    match &options.reference_doc {
        Some(doc) => {
            push_name(&mut words, "--reference-doc");
            push_name(&mut words, doc.as_str());
            assert(views(words@) =~= head + seq!["--reference-doc"@, doc@]);
        },
        None => {
            assert(views(words@) =~= head + Seq::<Seq<char>>::empty());
        },
    }
    let ghost with_doc = views(words@);
    match &options.metadata_file {
        Some(file) => {
            push_name(&mut words, "--metadata-file");
            push_name(&mut words, file.as_str());
            assert(views(words@) =~= with_doc + seq!["--metadata-file"@, file@]);
        },
        None => {
            assert(views(words@) =~= with_doc + Seq::<Seq<char>>::empty());
        },
    }
    let ghost with_file = views(words@);
    match crossref_exe {
        Some(filter) => {
            if options.use_crossref {
                push_name(&mut words, "-F");
                push_name(&mut words, filter);
                assert(views(words@) =~= with_file + seq!["-F"@, filter@]);
            } else {
                assert(views(words@) =~= with_file + Seq::<Seq<char>>::empty());
            }
        },
        None => {
            assert(views(words@) =~= with_file + Seq::<Seq<char>>::empty());
        },
    }
    words
}

/// What a caller does to carry out a conversion.
#[derive(Debug)]
pub struct ConversionPlan {
    /// The new text of the input file, where metadata was merged into it;
    /// `None` where the file stays as it is.
    pub rewritten_input: Option<String>,
    /// Where the engine writes the output.
    pub output_path: String,
    /// The directory of the output, to be created if it is missing.
    pub output_parent: Option<String>,
    /// The directory in which the engine runs: that of the input file.
    pub working_dir: Option<String>,
    /// The words after the engine's name.
    pub arguments: Vec<String>,
}

/// The text to write back to the input file before `options` is converted,
/// if any: that of `content` with the metadata of the request merged in.
pub open spec fn rewritten_input(options: ConvertOptions, content: Seq<char>) -> Option<Seq<char>> {
    match options.metadata {
        Some(MetaValue::Object(entries)) => merged_document(content, entries@),
        _ => None,
    }
}

/// Whether the metadata of `options`, if it has any, is a key-value mapping.
pub open spec fn has_valid_metadata(options: ConvertOptions) -> bool {
    match options.metadata {
        Some(MetaValue::Object(_)) => true,
        Some(_) => false,
        None => true,
    }
}

/// Whether `plan` carries out `options`.
pub open spec fn is_plan(
    plan: ConversionPlan,
    options: ConvertOptions,
    content: Seq<char>,
    crossref: Option<Seq<char>>,
    source_dir_exists: bool,
    existing: Seq<Seq<char>>,
) -> bool {
    let name = output_name(output_stem(options), output_ext(options), existing);
    &&& option_view(plan.rewritten_input) == rewritten_input(options, content)
    &&& plan.output_path@ == path_join(output_dir(options, source_dir_exists), name)
    &&& !existing.contains(name)
    &&& option_view(plan.output_parent) == path_parent(plan.output_path@)
    &&& option_view(plan.working_dir) == path_parent(options.input_file@)
    &&& views(plan.arguments@) == arguments(options, plan.output_path@, crossref)
}

/// Plans the conversion that `options` asks for. `engine_installed` says
/// whether the conversion engine is there; `content` is the text of the
/// input file, read only where the request carries metadata; `crossref_exe`
/// is the filter executable if it is installed; `source_dir_exists` says
/// whether the source directory of the request is there; `existing` are the
/// names in the directory that [`output_target`] gives.
///
/// Fails where the engine is missing, and, with the engine there, where the
/// metadata is not a key-value mapping.
pub fn convert_md_to_docx(
    options: &ConvertOptions,
    engine_installed: bool,
    content: &str,
    crossref_exe: Option<&str>,
    source_dir_exists: bool,
    existing: &Vec<String>,
) -> (r: Result<ConversionPlan, PipelineError>)
    ensures
        match r {
            Ok(plan) => engine_installed && has_valid_metadata(*options) && is_plan(
                plan,
                *options,
                content@,
                dir_view(crossref_exe),
                source_dir_exists,
                views(existing@),
            ),
            Err(e) => if !engine_installed {
                e is EngineMissing
            } else {
                !has_valid_metadata(*options) && e is InvalidMetadata
            },
        },
{
    if !engine_installed {
        return Err(PipelineError::EngineMissing);
    }
    let rewritten_input = match &options.metadata {
        Some(metadata) => match inject_metadata_to_markdown(content, metadata) {
            Ok(text) => text,
            Err(e) => {
                return Err(PipelineError::InvalidMetadata);
            },
        },
        None => None,
    };
    let output_path = resolve_output_path(options, source_dir_exists, existing);
    let output_parent = parent(output_path.as_str());
    let working_dir = parent(options.input_file.as_str());
    let arguments = build_arguments(options, output_path.as_str(), crossref_exe);
    Ok(ConversionPlan { rewritten_input, output_path, output_parent, working_dir, arguments })
}

/// Whether `path` is a template staged for one use: it holds the word
/// `runtime`.
pub open spec fn is_staged_template(path: Seq<char>) -> bool {
    has_substring(path, "runtime"@)
}

/// What a conversion that succeeded leaves to do.
#[derive(Debug)]
pub struct ConversionDone {
    /// The path of the output.
    pub output_path: String,
    /// The staged template to delete, if the conversion used one.
    pub remove_template: Option<String>,
}

/// What follows from the engine's answer. When it reports success the
/// output path is the result, and the template of the request is to be
/// deleted if it was staged for this use; old sessions may then be pruned.
/// When it reports failure the error holds what it wrote to its error
/// output, as it wrote it.
pub fn finish_conversion(
    succeeded: bool,
    error_output: &str,
    output_path: &str,
    reference_doc: Option<&str>,
) -> (r: Result<ConversionDone, PipelineError>)
    ensures
        match r {
            Ok(done) => succeeded && done.output_path@ == output_path@ && option_view(
                done.remove_template,
            ) == (match reference_doc {
                Some(doc) => if is_staged_template(doc@) {
                    Some(doc@)
                } else {
                    None
                },
                None => None,
            }),
            Err(e) => !succeeded && (e matches PipelineError::EngineFailed(text) && text@
                == error_output@),
        },
{
    if !succeeded {
        return Err(PipelineError::EngineFailed(error_output.to_owned()));
    }
    let remove_template = match reference_doc {
        Some(doc) => if str_contains(doc, "runtime") {
            Some(doc.to_owned())
        } else {
            None
        },
        None => None,
    };
    Ok(ConversionDone { output_path: output_path.to_owned(), remove_template })
}

/// The first line of `s`, without its line ending: the text before the
/// first line break, and before the carriage return that goes with it.
pub open spec fn first_line(s: Seq<char>) -> Seq<char> {
    let end = line_end(s, 0);
    if 0 < end < s.len() && s[end - 1] == '\r' {
        s.take(end - 1)
    } else {
        s.take(end)
    }
}

/// What the engine calls itself: the first line of what it prints when
/// asked for its version, or `Unknown` if it prints nothing.
pub open spec fn version_of(output: Seq<char>) -> Seq<char> {
    if output.len() == 0 {
        "Unknown"@
    } else {
        first_line(output)
    }
}

/// The version of the conversion engine, from what it printed when asked.
/// `installed` says whether the engine is there, `succeeded` whether it
/// ran well.
///
/// Fails where the engine is missing, and, with the engine there, where it
/// reported failure.
pub fn get_pandoc_version(installed: bool, succeeded: bool, output: &str) -> (r: Result<
    String,
    PipelineError,
>)
    ensures
        match r {
            Ok(version) => installed && succeeded && version@ == version_of(output@),
            Err(e) => if !installed {
                e is EngineMissing
            } else {
                !succeeded && (e matches PipelineError::EngineFailed(text) && text@
                    == "Failed to get Pandoc version"@)
            },
        },
{
    if !installed {
        return Err(PipelineError::EngineMissing);
    }
    if !succeeded {
        return Err(PipelineError::EngineFailed("Failed to get Pandoc version".to_owned()));
    }
    let text = to_chars(output);
    if text.len() == 0 {
        return Ok("Unknown".to_owned());
    }
    let end = find_from(text.as_slice(), '\n', 0);
    let stop = if 0 < end && end < text.len() && text[end - 1] == '\r' {
        end - 1
    } else {
        end
    };
    let line = copy_range(text.as_slice(), 0, stop);
    assert(line@ =~= first_line(output@));
    Ok(from_chars(line.as_slice()))
}

} // verus!
