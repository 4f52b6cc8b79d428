//! What a request brings in: a Markdown file, an archive that holds
//! Markdown files and their images, or pasted text; and what is handed on
//! once the document stands in its session.

use vstd::prelude::*;
use vstd::seq_lib::lemma_multiset_commutative;
use crate::error::PipelineError;
use crate::paths::{
    extension, file_name, join, parent, path_extension, path_file_name, path_join, path_parent,
};
use crate::text::{
    contains_name, lowercase, option_view, push_str, str_ends_with, str_eq, to_chars,
    to_lowercase, from_chars, views,
};

verus! {

/// Where the document of a request comes from.
#[derive(Debug, Clone)]
pub enum InputSource {
    /// A file on disk: a Markdown or text file, or an archive.
    File {
        path: String,
        /// The name the file had where the user picked it.
        original_name: Option<String>,
        /// For an archive: the Markdown file in it to convert.
        selected_markdown: Option<String>,
    },
    /// Pasted text.
    Text { content: String, suggested_name: Option<String> },
}

/// A document that stands ready in its session.
#[derive(Debug, Clone)]
pub struct PreparedInput {
    /// The document to convert, inside the session.
    pub markdown_path: String,
    /// The directory of the copied images.
    pub assets_dir: String,
    /// How many images were copied.
    pub image_count: usize,
    /// The paths of the copies.
    pub copied_images: Vec<String>,
    /// The Markdown files that were found: for an archive all of them, by
    /// their paths inside it, in order; else the document itself.
    pub markdown_files: Vec<String>,
    pub source_name: Option<String>,
    pub source_dir: Option<String>,
}

/// Whether `name` ends as the name of an archive does: with `.zip`,
/// `.tar.gz`, `.tar.xz` or `.7z`.
pub open spec fn is_archive_name(name: Seq<char>) -> bool {
    ".zip"@.is_suffix_of(name) || ".tar.gz"@.is_suffix_of(name) || ".tar.xz"@.is_suffix_of(name)
        || ".7z"@.is_suffix_of(name)
}

/// Whether `name`, a file name in lower case, is that of an archive.
pub fn is_archive(name: &str) -> (r: bool)
    ensures
        r == is_archive_name(name@),
{
    str_ends_with(name, ".zip") || str_ends_with(name, ".tar.gz") || str_ends_with(name, ".tar.xz")
        || str_ends_with(name, ".7z")
}

/// The archive formats that can be unpacked.
#[derive(Debug, Clone, Copy, PartialEq, Eq, Structural)]
pub enum ArchiveFormat {
    Zip,
    TarGz,
    TarXz,
    SevenZ,
}

/// The format of the archive at `path`, told by how the path ends.
pub open spec fn format_of(path: Seq<char>) -> Option<ArchiveFormat> {
    if ".zip"@.is_suffix_of(path) {
        Some(ArchiveFormat::Zip)
    } else if ".tar.gz"@.is_suffix_of(path) {
        Some(ArchiveFormat::TarGz)
    } else if ".tar.xz"@.is_suffix_of(path) {
        Some(ArchiveFormat::TarXz)
    } else if ".7z"@.is_suffix_of(path) {
        Some(ArchiveFormat::SevenZ)
    } else {
        None
    }
}

/// What the message of an unsupported archive says.
pub open spec fn unsupported_archive(path: Seq<char>) -> Seq<char> {
    "Unsupported archive format for file: "@ + path
}

/// The format in which the archive at `archive_path` is to be unpacked.
///
/// Fails with an archive error that names the file where its path ends as
/// no supported format does.
pub fn extract_archive(archive_path: &str) -> (r: Result<ArchiveFormat, PipelineError>)
    ensures
        match format_of(archive_path@) {
            Some(format) => r matches Ok(f) && f == format,
            None => r matches Err(e) && (e matches PipelineError::Archive(reason) && reason@
                == unsupported_archive(archive_path@)),
        },
{
    if str_ends_with(archive_path, ".zip") {
        Ok(ArchiveFormat::Zip)
    } else if str_ends_with(archive_path, ".tar.gz") {
        Ok(ArchiveFormat::TarGz)
    } else if str_ends_with(archive_path, ".tar.xz") {
        Ok(ArchiveFormat::TarXz)
    } else if str_ends_with(archive_path, ".7z") {
        Ok(ArchiveFormat::SevenZ)
    } else {
        let mut reason: Vec<char> = Vec::new();
        push_str(&mut reason, "Unsupported archive format for file: ");
        push_str(&mut reason, archive_path);
        Err(PipelineError::Archive(from_chars(reason.as_slice())))
    }
}

/// How the file of a request is brought into its session.
#[derive(Debug, Clone, Copy, PartialEq, Eq, Structural)]
pub enum FileInput {
    /// It is the document: copy it.
    Document,
    /// It is an archive of this format: unpack it and pick the document.
    Archive(ArchiveFormat),
}

/// The name by which a file is classified: its file name in lower case,
/// or nothing if its path names no file.
pub open spec fn classified_name(path: Seq<char>) -> Seq<char> {
    match path_file_name(path) {
        Some(name) => lowercase(name),
        None => lowercase(Seq::empty()),
    }
}

/// Says how the file at `input_path` is brought in: as an archive if its
/// name, in lower case, ends as an archive's does, else as the document.
///
/// Fails with an archive error where the file is an archive by its name but
/// its path, as written, ends as no supported format does.
pub fn handle_file_input(input_path: &str) -> (r: Result<FileInput, PipelineError>)
    ensures
        if !is_archive_name(classified_name(input_path@)) {
            r matches Ok(kind) && kind == FileInput::Document
        } else {
            match format_of(input_path@) {
                Some(format) => r matches Ok(kind) && kind == FileInput::Archive(format),
                None => r matches Err(e) && (e matches PipelineError::Archive(reason) && reason@
                    == unsupported_archive(input_path@)),
            }
        },
{
    let name = match file_name(input_path) {
        Some(name) => name,
        None => "".to_owned(),
    };
    proof {
        reveal_strlit("");
        assert(""@ =~= Seq::<char>::empty());
    }
    let lower = to_lowercase(name.as_str());
    if !is_archive(lower.as_str()) {
        return Ok(FileInput::Document);
    }
    match extract_archive(input_path) {
        Ok(format) => Ok(FileInput::Archive(format)),
        Err(e) => Err(e),
    }
}

/// Whether the file at `path` counts as Markdown: its extension, in lower
/// case, is `md`, `markdown` or `txt`.
pub open spec fn is_markdown_file(path: Seq<char>) -> bool {
    match path_extension(path) {
        Some(ext) => lowercase(ext) == "md"@ || lowercase(ext) == "markdown"@ || lowercase(ext)
            == "txt"@,
        None => false,
    }
}

/// Whether `a` comes before `b`, or is `b`, in the order of strings: at the
/// first place where they differ `a` has the smaller character, or `a` ends
/// there. `from` is the place from which the two are compared.
pub open spec fn text_le_from(a: Seq<char>, b: Seq<char>, from: int) -> bool
    decreases a.len() - from,
{
    if from < 0 || from >= a.len() {
        true
    } else if from >= b.len() {
        false
    } else if (a[from] as u32) < (b[from] as u32) {
        true
    } else if (a[from] as u32) > (b[from] as u32) {
        false
    } else {
        text_le_from(a, b, from + 1)
    }
}

/// Whether `a` comes before `b`, or is `b`, in the order of strings.
pub open spec fn text_le(a: Seq<char>, b: Seq<char>) -> bool {
    text_le_from(a, b, 0)
}

/// Whether `names` is in the order of strings.
pub open spec fn is_sorted(names: Seq<Seq<char>>) -> bool {
    forall|p: int, q: int|
        0 <= p < q < names.len() ==> text_le(#[trigger] names[p], #[trigger] names[q])
}

/// Of two strings one comes before the other, or they are the same.
pub proof fn lemma_text_le_total(a: Seq<char>, b: Seq<char>, from: int)
    requires
        0 <= from,
    ensures
        text_le_from(a, b, from) || text_le_from(b, a, from),
    decreases a.len() - from,
{
    if from < a.len() && from < b.len() && (a[from] as u32) == (b[from] as u32) {
        lemma_text_le_total(a, b, from + 1);
    }
}

/// The order of strings is transitive.
pub proof fn lemma_text_le_transitive(a: Seq<char>, b: Seq<char>, c: Seq<char>, from: int)
    requires
        0 <= from,
        text_le_from(a, b, from),
        text_le_from(b, c, from),
    ensures
        text_le_from(a, c, from),
    decreases a.len() - from,
{
    if from < a.len() && from < b.len() && from < c.len() && (a[from] as u32) == (b[from] as u32)
        && (b[from] as u32) == (c[from] as u32) {
        lemma_text_le_transitive(a, b, c, from + 1);
    }
}

/// Whether `a` comes before `b`, or is `b`, in the order of strings.
pub fn str_le(a: &str, b: &str) -> (r: bool)
    ensures
        r == text_le(a@, b@),
{
    let x = to_chars(a);
    let y = to_chars(b);
    let mut i: usize = 0;
    while i < x.len()
        invariant
            i <= x.len(),
            x@ == a@,
            y@ == b@,
            text_le(a@, b@) == text_le_from(a@, b@, i as int),
        decreases x.len() - i,
    {
        if i >= y.len() {
            return false;
        }
        let p = x[i] as u32;
        let q = y[i] as u32;
        if p < q {
            return true;
        }
        if p > q {
            return false;
        }
        i += 1;
    }
    true
}

fn is_markdown_path(path: &str) -> (r: bool)
    ensures
        r == is_markdown_file(path@),
{
    match extension(path) {
        Some(ext) => {
            let lower = to_lowercase(ext.as_str());
            str_eq(lower.as_str(), "md") || str_eq(lower.as_str(), "markdown") || str_eq(
                lower.as_str(),
                "txt",
            )
        },
        None => false,
    }
}

/// The Markdown files among `files`, in the order of strings. `files` are
/// the regular files below the directory that an archive was unpacked to,
/// by their paths in it.
pub fn collect_markdown_files(files: &Vec<String>) -> (r: Vec<String>)
    ensures
        is_sorted(views(r@)),
        views(r@).to_multiset() == views(files@).filter(|p: Seq<char>| is_markdown_file(p))
            .to_multiset(),
{
    let ghost wanted = |p: Seq<char>| is_markdown_file(p);
    let mut out: Vec<String> = Vec::new();
    let mut i: usize = 0;
    proof {
        assert(views(files@).take(0) =~= Seq::<Seq<char>>::empty());
        assert(views(out@) =~= Seq::<Seq<char>>::empty());
        reveal(Seq::filter);
        assert(views(files@).take(0).filter(wanted) =~= Seq::<Seq<char>>::empty());
    }
    while i < files.len()
        invariant
            i <= files.len(),
            wanted == (|p: Seq<char>| is_markdown_file(p)),
            is_sorted(views(out@)),
            views(out@).to_multiset() == views(files@).take(i as int).filter(wanted).to_multiset(),
        decreases files.len() - i,
    {
        let ghost seen = views(files@).take(i as int);
        let ghost name = files@[i as int]@;
        proof {
            assert(views(files@).take(i + 1) =~= seen.push(name));
            seen.lemma_filter_push(name, wanted);
        }
        if is_markdown_path(files[i].as_str()) {
            let mut pos: usize = 0;
            while pos < out.len() && str_le(out[pos].as_str(), files[i].as_str())
                invariant
                    pos <= out.len(),
                    i < files.len(),
                    name == files@[i as int]@,
                    forall|p: int| 0 <= p < pos ==> text_le(#[trigger] views(out@)[p], name),
                decreases out.len() - pos,
            {
                pos += 1;
            }
            let ghost before = views(out@);
            let copy = files[i].as_str().to_owned();
            out.insert(pos, copy);
            proof {
                let after = views(out@);
                assert(after =~= before.insert(pos as int, name));
                assert(before =~= before.take(pos as int) + before.skip(pos as int));
                assert(after =~= before.take(pos as int).push(name) + before.skip(pos as int));
                lemma_multiset_commutative(before.take(pos as int), before.skip(pos as int));
                lemma_multiset_commutative(
                    before.take(pos as int).push(name),
                    before.skip(pos as int),
                );
                before.take(pos as int).to_multiset_ensures();
                seen.filter(wanted).to_multiset_ensures();
                assert(after.to_multiset() =~= before.to_multiset().insert(name));
                assert forall|p: int, q: int| 0 <= p < q < after.len() implies text_le(
                    #[trigger] after[p],
                    #[trigger] after[q],
                ) by {
                    if q < pos {
                        assert(after[p] == before[p] && after[q] == before[q]);
                    } else if q == pos {
                        assert(after[p] == before[p]);
                    } else if p < pos {
                        assert(after[p] == before[p] && after[q] == before[q - 1]);
                    } else if p == pos {
                        assert(after[q] == before[q - 1]);
                        lemma_text_le_total(before[pos as int], name, 0);
                        if q - 1 > pos {
                            lemma_text_le_transitive(name, before[pos as int], before[q - 1], 0);
                        }
                    } else {
                        assert(after[p] == before[p - 1] && after[q] == before[q - 1]);
                    }
                }
            }
        }
        i += 1;
    }
    assert(views(files@).take(files.len() as int) =~= views(files@));
    out
}

/// What the message of an archive without Markdown says.
pub open spec fn no_markdown() -> Seq<char> {
    "No markdown file found in archive"@
}

/// The Markdown file of an archive that is converted: `selected` if it is
/// one of `markdown_files`, else the first of them.
///
/// Fails with `NotFound` where there is none.
pub fn select_markdown(markdown_files: &Vec<String>, selected: Option<&str>) -> (r: Result<
    String,
    PipelineError,
>)
    ensures
        match r {
            Ok(file) => markdown_files@.len() > 0 && file@ == (match selected {
                Some(s) => if views(markdown_files@).contains(s@) {
                    s@
                } else {
                    markdown_files@[0]@
                },
                None => markdown_files@[0]@,
            }),
            Err(e) => markdown_files@.len() == 0 && (e matches PipelineError::NotFound(reason)
                && reason@ == no_markdown()),
        },
{
    if markdown_files.len() == 0 {
        return Err(PipelineError::NotFound("No markdown file found in archive".to_owned()));
    }
    match selected {
        Some(s) => {
            if contains_name(markdown_files, s) {
                return Ok(s.to_owned());
            }
        },
        None => {},
    }
    Ok(markdown_files[0].as_str().to_owned())
}

/// The places of a session: its directory, and in it the directory of the
/// copied images, the document, and the directory an archive is unpacked to.
#[derive(Debug, Clone)]
pub struct SessionLayout {
    pub session_dir: String,
    pub assets_dir: String,
    pub document_path: String,
    pub extract_dir: String,
}

/// The places of the session in `session_dir`: `assets`, `document.md` and
/// `extracted` in it.
pub fn session_layout(session_dir: &str) -> (r: SessionLayout)
    ensures
        r.session_dir@ == session_dir@,
        r.assets_dir@ == path_join(session_dir@, "assets"@),
        r.document_path@ == path_join(session_dir@, "document.md"@),
        r.extract_dir@ == path_join(session_dir@, "extracted"@),
{
    SessionLayout {
        session_dir: session_dir.to_owned(),
        assets_dir: join(session_dir, "assets"),
        document_path: join(session_dir, "document.md"),
        extract_dir: join(session_dir, "extracted"),
    }
}

/// How the document of a request is brought into its session.
#[derive(Debug, Clone, Copy, PartialEq, Eq, Structural)]
pub enum InputPlan {
    /// Write the pasted text as the document.
    Text,
    /// Copy the file as the document.
    Document,
    /// Unpack the archive, of this format, and pick the document from it.
    Archive(ArchiveFormat),
}

/// What the message of a missing input file says.
pub open spec fn file_not_found() -> Seq<char> {
    "File not found"@
}

/// Says how the document of `source` is brought into its session.
/// `input_exists` says whether the file of the request, if it names one, is
/// there.
///
/// Fails with `NotFound` where the file is missing, and with an archive
/// error where it is an archive of no supported format.
pub fn prepare_input(source: &InputSource, input_exists: bool) -> (r: Result<
    InputPlan,
    PipelineError,
>)
    ensures
        match *source {
            InputSource::Text { .. } => r matches Ok(plan) && plan == InputPlan::Text,
            InputSource::File { path, .. } => if !input_exists {
                r matches Err(e) && (e matches PipelineError::NotFound(reason) && reason@
                    == file_not_found())
            } else if !is_archive_name(classified_name(path@)) {
                r matches Ok(plan) && plan == InputPlan::Document
            } else {
                match format_of(path@) {
                    Some(format) => r matches Ok(plan) && plan == InputPlan::Archive(format),
                    None => r matches Err(e) && (e matches PipelineError::Archive(reason)
                        && reason@ == unsupported_archive(path@)),
                }
            },
        },
{
    match source {
        InputSource::Text { .. } => Ok(InputPlan::Text),
        InputSource::File { path, .. } => {
            if !input_exists {
                return Err(PipelineError::NotFound("File not found".to_owned()));
            }
            match handle_file_input(path.as_str()) {
                Ok(FileInput::Document) => Ok(InputPlan::Document),
                Ok(FileInput::Archive(format)) => Ok(InputPlan::Archive(format)),
                Err(e) => Err(e),
            }
        },
    }
}

/// The document of an archive and the directory against which its image
/// references are resolved: the selected Markdown file below `extract_dir`,
/// and the directory it lies in.
///
/// Fails with `NotFound` where the archive holds no Markdown file.
pub fn locate_document(extract_dir: &str, markdown_files: &Vec<String>, selected: Option<&str>)
    -> (r: Result<(String, Option<String>), PipelineError>)
    ensures
        match r {
            Ok((document, base_dir)) => markdown_files@.len() > 0 && document@ == path_join(
                extract_dir@,
                match selected {
                    Some(s) => if views(markdown_files@).contains(s@) {
                        s@
                    } else {
                        markdown_files@[0]@
                    },
                    None => markdown_files@[0]@,
                },
            ) && option_view(base_dir) == path_parent(document@),
            Err(e) => markdown_files@.len() == 0 && (e matches PipelineError::NotFound(reason)
                && reason@ == no_markdown()),
        },
{
    match select_markdown(markdown_files, selected) {
        Ok(file) => {
            let document = join(extract_dir, file.as_str());
            let base_dir = parent(document.as_str());
            Ok((document, base_dir))
        },
        Err(e) => Err(e),
    }
}

/// The name under which the source of a request is known: the name given
/// with it, else, for a file, its file name.
pub open spec fn source_name_of(source: InputSource) -> Option<Seq<char>> {
    match source {
        InputSource::File { path, original_name, .. } => match original_name {
            Some(name) => Some(name@),
            None => path_file_name(path@),
        },
        InputSource::Text { suggested_name, .. } => option_view(suggested_name),
    }
}

/// The directory of the source of a request: that of its file, if it has one.
pub open spec fn source_dir_of(source: InputSource) -> Option<Seq<char>> {
    match source {
        InputSource::File { path, .. } => path_parent(path@),
        InputSource::Text { .. } => None,
    }
}

/// What is handed on once the document of `source` stands in the session
/// `layout` with its images copied. `copied_images` are the paths of the
/// copies; `archive_files` are the Markdown files of the archive, if the
/// source was one.
pub fn prepared_input(
    source: &InputSource,
    layout: &SessionLayout,
    copied_images: Vec<String>,
    archive_files: Option<Vec<String>>,
) -> (r: PreparedInput)
    ensures
        r.markdown_path@ == layout.document_path@,
        r.assets_dir@ == layout.assets_dir@,
        r.image_count == copied_images@.len(),
        r.copied_images@ == copied_images@,
        match archive_files {
            Some(files) => r.markdown_files@ == files@,
            None => views(r.markdown_files@) == seq![layout.document_path@],
        },
        option_view(r.source_name) == source_name_of(*source),
        option_view(r.source_dir) == source_dir_of(*source),
{
    let markdown_files = match archive_files {
        Some(files) => files,
        None => {
            let mut files: Vec<String> = Vec::new();
            files.push(layout.document_path.clone());
            assert(views(files@) =~= seq![layout.document_path@]);
            files
        },
    };
    let (source_name, source_dir) = match source {
        InputSource::File { path, original_name, .. } => {
            let name = match original_name {
                Some(name) => Some(name.clone()),
                None => file_name(path.as_str()),
            };
            (name, parent(path.as_str()))
        },
        InputSource::Text { suggested_name, .. } => {
            let name = match suggested_name {
                Some(name) => Some(name.clone()),
                None => None,
            };
            (name, None)
        },
    };
    PreparedInput {
        markdown_path: layout.document_path.clone(),
        assets_dir: layout.assets_dir.clone(),
        image_count: copied_images.len(),
        copied_images,
        markdown_files,
        source_name,
        source_dir,
    }
}

} // verus!
