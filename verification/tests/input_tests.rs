use format_tools::config::{
    get_crossref_download_urls, get_crossref_executable_path, get_install_dir,
    get_pandoc_download_urls, get_pandoc_executable_path, is_supported, PandocConfig,
};
use format_tools::error::PipelineError;
use format_tools::input::{
    collect_markdown_files, extract_archive, handle_file_input, is_archive, prepare_input,
    prepared_input, select_markdown, session_layout, str_le, ArchiveFormat, FileInput,
    InputPlan, InputSource,
};
use format_tools::install::{archive_name, download_with_fallback, find_executable_in_dir};
use format_tools::text::{
    contains_name, from_chars, str_contains, str_ends_with, str_eq, str_starts_with, to_chars,
};

fn names(list: &[&str]) -> Vec<String> {
    list.iter().map(|s| s.to_string()).collect()
}

#[test]
fn archives_are_told_by_their_suffix() {
    assert!(is_archive("a.zip"));
    assert!(is_archive("a.tar.gz"));
    assert!(is_archive("a.tar.xz"));
    assert!(is_archive("a.7z"));
    assert!(is_archive(".zip"));
    assert!(!is_archive("a.md"));
    assert!(!is_archive("a.gz"));
    assert!(!is_archive("a.zip.md"));
    assert!(!is_archive("a.ZIP"));
    assert!(!is_archive(""));
}

#[test]
fn archive_format_follows_the_path() {
    assert_eq!(extract_archive("/d/a.zip").unwrap(), ArchiveFormat::Zip);
    assert_eq!(extract_archive("/d/a.tar.gz").unwrap(), ArchiveFormat::TarGz);
    assert_eq!(extract_archive("/d/a.tar.xz").unwrap(), ArchiveFormat::TarXz);
    assert_eq!(extract_archive("/d/a.7z").unwrap(), ArchiveFormat::SevenZ);
}

#[test]
fn unsupported_archive_is_named_in_the_error() {
    match extract_archive("/d/a.rar") {
        Err(PipelineError::Archive(reason)) => assert_eq!(reason, "Unsupported archive format for file: /d/a.rar"),
        other => panic!("unexpected result {:?}", other),
    }
}

#[test]
fn file_is_classified_by_its_name_in_lower_case() {
    assert_eq!(handle_file_input("/d/notes.md").unwrap(), FileInput::Document);
    assert_eq!(handle_file_input("/d/notes").unwrap(), FileInput::Document);
    assert_eq!(handle_file_input("/d.zip/notes.txt").unwrap(), FileInput::Document);
    assert_eq!(handle_file_input("/d/pack.zip").unwrap(), FileInput::Archive(ArchiveFormat::Zip));
    assert_eq!(handle_file_input("/d/pack.tar.xz").unwrap(), FileInput::Archive(ArchiveFormat::TarXz));
    match handle_file_input("/d/PACK.ZIP") {
        Err(PipelineError::Archive(reason)) => assert_eq!(reason, "Unsupported archive format for file: /d/PACK.ZIP"),
        other => panic!("unexpected result {:?}", other),
    }
}

#[test]
fn missing_input_file_is_not_found() {
    let source = InputSource::File { path: "/d/a.md".to_string(), original_name: None, selected_markdown: None };
    match prepare_input(&source, false) {
        Err(PipelineError::NotFound(reason)) => assert_eq!(reason, "File not found"),
        other => panic!("unexpected result {:?}", other),
    }
    assert_eq!(prepare_input(&source, true).unwrap(), InputPlan::Document);
}

#[test]
fn input_plan_follows_the_source() {
    let text = InputSource::Text { content: "x".to_string(), suggested_name: None };
    assert_eq!(prepare_input(&text, false).unwrap(), InputPlan::Text);
    let archive = InputSource::File { path: "/d/a.7z".to_string(), original_name: None, selected_markdown: None };
    assert_eq!(prepare_input(&archive, true).unwrap(), InputPlan::Archive(ArchiveFormat::SevenZ));
}

#[test]
fn markdown_files_are_filtered_and_sorted() {
    let files = names(&["z.md", "a/b.md", "img/p.png", "notes.TXT", "B.markdown", "a/b.mdx", "md", ".md", "a.md/c"]);
    assert_eq!(collect_markdown_files(&files), names(&["B.markdown", "a/b.md", "notes.TXT", "z.md"]));
    assert_eq!(collect_markdown_files(&names(&[])), names(&[]));
    assert_eq!(collect_markdown_files(&names(&["b.md", "a.md", "b.md"])), names(&["a.md", "b.md", "b.md"]));
}

#[test]
fn strings_are_ordered_by_code_point() {
    assert!(str_le("", ""));
    assert!(str_le("", "a"));
    assert!(!str_le("a", ""));
    assert!(str_le("a", "ab"));
    assert!(!str_le("ab", "a"));
    assert!(str_le("Z", "a"));
    assert!(str_le("a", "é"));
    assert!(!str_le("é", "z"));
    assert!(str_le("abc", "abc"));
    for (a, b) in [("x/1", "x0"), ("é", "漢"), ("漢", "😀"), ("ab", "b")] {
        assert_eq!(str_le(a, b), a <= b);
        assert_eq!(str_le(b, a), b <= a);
    }
}

#[test]
fn selected_markdown_wins_if_it_is_there() {
    let files = names(&["a.md", "b/c.md"]);
    assert_eq!(select_markdown(&files, Some("b/c.md")).unwrap(), "b/c.md");
    assert_eq!(select_markdown(&files, Some("c.md")).unwrap(), "a.md");
    assert_eq!(select_markdown(&files, None).unwrap(), "a.md");
}

#[test]
fn archive_without_markdown_is_an_error() {
    match select_markdown(&names(&[]), Some("a.md")) {
        Err(PipelineError::NotFound(reason)) => assert_eq!(reason, "No markdown file found in archive"),
        other => panic!("unexpected result {:?}", other),
    }
}

#[test]
fn session_holds_assets_document_and_extracted_files() {
    let layout = session_layout("/c/sessions/session-9");
    assert_eq!(layout.session_dir, "/c/sessions/session-9");
    assert_eq!(layout.assets_dir, "/c/sessions/session-9/assets");
    assert_eq!(layout.document_path, "/c/sessions/session-9/document.md");
    assert_eq!(layout.extract_dir, "/c/sessions/session-9/extracted");
}

#[test]
fn prepared_file_input_names_its_source() {
    let layout = session_layout("/s");
    let source = InputSource::File { path: "/home/me/paper.md".to_string(), original_name: None, selected_markdown: None };
    let prepared = prepared_input(&source, &layout, names(&["/s/assets/a.png"]), None);
    assert_eq!(prepared.markdown_path, "/s/document.md");
    assert_eq!(prepared.assets_dir, "/s/assets");
    assert_eq!(prepared.image_count, 1);
    assert_eq!(prepared.copied_images, names(&["/s/assets/a.png"]));
    assert_eq!(prepared.markdown_files, names(&["/s/document.md"]));
    assert_eq!(prepared.source_name, Some("paper.md".to_string()));
    assert_eq!(prepared.source_dir, Some("/home/me".to_string()));
}

#[test]
fn prepared_archive_input_lists_its_markdown_files() {
    let layout = session_layout("/s");
    let source = InputSource::File {
        path: "/tmp/upload-1.zip".to_string(),
        original_name: Some("thesis.zip".to_string()),
        selected_markdown: Some("a/b.md".to_string()),
    };
    let prepared = prepared_input(&source, &layout, Vec::new(), Some(names(&["a/b.md", "c.md"])));
    assert_eq!(prepared.image_count, 0);
    assert_eq!(prepared.markdown_files, names(&["a/b.md", "c.md"]));
    assert_eq!(prepared.source_name, Some("thesis.zip".to_string()));
    assert_eq!(prepared.source_dir, Some("/tmp".to_string()));
}

#[test]
fn prepared_text_input_has_no_source_directory() {
    let layout = session_layout("/s");
    let source = InputSource::Text { content: "x".to_string(), suggested_name: Some("note".to_string()) };
    let prepared = prepared_input(&source, &layout, Vec::new(), None);
    assert_eq!(prepared.markdown_files, names(&["/s/document.md"]));
    assert_eq!(prepared.source_name, Some("note".to_string()));
    assert_eq!(prepared.source_dir, None);
}

#[test]
fn default_versions() {
    let config = PandocConfig::default();
    assert_eq!(config.version, "3.8.3");
    assert_eq!(config.crossref_version, "0.3.22b");
}

#[test]
fn engine_download_addresses() {
    let config = PandocConfig::default();
    let urls = get_pandoc_download_urls(&config, "linux", "x86_64");
    assert_eq!(urls.primary, "https://github.com/jgm/pandoc/releases/download/3.8.3/pandoc-3.8.3-linux-amd64.tar.gz");
    assert_eq!(
        urls.mirror,
        "https://ghfast.top/https://github.com/jgm/pandoc/releases/download/3.8.3/pandoc-3.8.3-linux-amd64.tar.gz"
    );
    let tail = |os: &str, arch: &str| {
        let u = get_pandoc_download_urls(&config, os, arch).primary;
        u.rsplit('/').next().unwrap().to_string()
    };
    assert_eq!(tail("windows", "x86_64"), "pandoc-3.8.3-windows-x86_64.zip");
    assert_eq!(tail("linux", "aarch64"), "pandoc-3.8.3-linux-arm64.tar.gz");
    assert_eq!(tail("macos", "x86_64"), "pandoc-3.8.3-x86_64-macOS.zip");
    assert_eq!(tail("macos", "aarch64"), "pandoc-3.8.3-arm64-macOS.zip");
}

#[test]
fn filter_download_addresses() {
    let config = PandocConfig { version: "1".to_string(), crossref_version: "0.9".to_string() };
    let urls = get_crossref_download_urls(&config, "windows", "x86_64");
    assert_eq!(
        urls.primary,
        "https://github.com/lierdakil/pandoc-crossref/releases/download/v0.9/pandoc-crossref-Windows-X64.7z"
    );
    assert_eq!(
        urls.mirror,
        "https://ghfast.top/https://github.com/lierdakil/pandoc-crossref/releases/download/v0.9/pandoc-crossref-Windows-X64.7z"
    );
    let tail = |os: &str, arch: &str| {
        let u = get_crossref_download_urls(&config, os, arch).primary;
        u.rsplit('/').next().unwrap().to_string()
    };
    assert_eq!(tail("linux", "x86_64"), "pandoc-crossref-Linux-X64.tar.xz");
    assert_eq!(tail("linux", "aarch64"), "pandoc-crossref-Linux-ARM64.tar.xz");
    assert_eq!(tail("macos", "x86_64"), "pandoc-crossref-macOS-X64.tar.xz");
    assert_eq!(tail("macos", "aarch64"), "pandoc-crossref-macOS-ARM64.tar.xz");
}

#[test]
fn supported_platforms() {
    assert!(is_supported("windows", "x86_64"));
    assert!(is_supported("linux", "aarch64"));
    assert!(is_supported("macos", "aarch64"));
    assert!(!is_supported("windows", "aarch64"));
    assert!(!is_supported("freebsd", "x86_64"));
    assert!(!is_supported("linux", "riscv64"));
}

#[test]
fn install_paths() {
    assert_eq!(get_install_dir("/data/app"), "/data/app/pandoc");
    assert_eq!(get_pandoc_executable_path("/data/app/pandoc", false), "/data/app/pandoc/pandoc");
    assert_eq!(get_pandoc_executable_path("/data/app/pandoc", true), "/data/app/pandoc/pandoc.exe");
    assert_eq!(get_crossref_executable_path("/i", false), "/i/pandoc-crossref");
    assert_eq!(get_crossref_executable_path("/i", true), "/i/pandoc-crossref.exe");
}

#[test]
fn downloads_try_the_release_page_first() {
    let urls = get_pandoc_download_urls(&PandocConfig::default(), "macos", "aarch64");
    let order = download_with_fallback(&urls);
    assert_eq!(order, vec![urls.primary.clone(), urls.mirror.clone()]);
}

#[test]
fn archive_is_named_by_the_end_of_its_address() {
    assert_eq!(archive_name("https://h/a/b/pandoc-3.zip"), "pandoc-3.zip");
    assert_eq!(archive_name("pandoc.zip"), "pandoc.zip");
    assert_eq!(archive_name("https://h/a/"), "");
    assert_eq!(archive_name(""), "");
}

#[test]
fn executable_is_the_first_file_with_its_name() {
    let files = names(&["/x/pandoc-3/README", "/x/pandoc-3/bin/pandoc-lua", "/x/pandoc-3/bin/pandoc", "/x/pandoc/notes"]);
    assert_eq!(find_executable_in_dir(&files, "pandoc"), Some("/x/pandoc-3/bin/pandoc-lua".to_string()));
    assert_eq!(find_executable_in_dir(&files, "pandoc-crossref"), None);
    assert_eq!(find_executable_in_dir(&files, "notes"), Some("/x/pandoc/notes".to_string()));
    assert_eq!(find_executable_in_dir(&names(&[]), "pandoc"), None);
}

#[test]
fn text_helpers() {
    assert_eq!(to_chars("aé漢"), vec!['a', 'é', '漢']);
    assert_eq!(from_chars(&['a', 'é', '漢']), "aé漢");
    assert!(str_eq("abc", "abc"));
    assert!(!str_eq("abc", "abd"));
    assert!(!str_eq("abc", "ab"));
    assert!(str_starts_with("abc", "ab"));
    assert!(str_starts_with("abc", ""));
    assert!(!str_starts_with("ab", "abc"));
    assert!(str_ends_with("abc", "bc"));
    assert!(!str_ends_with("abc", "ab"));
    assert!(str_contains("a runtime b", "runtime"));
    assert!(str_contains("runtime", "runtime"));
    assert!(str_contains("abc", ""));
    assert!(!str_contains("run time", "runtime"));
    assert!(!str_contains("rt", "runtime"));
    assert!(contains_name(&names(&["a", "b"]), "b"));
    assert!(!contains_name(&names(&["a", "b"]), "c"));
}
