use format_tools::converter::{
    build_arguments, convert_md_to_docx, finish_conversion, get_pandoc_version, output_target,
    resolve_output_path, ConvertOptions,
};
use format_tools::error::PipelineError;
use format_tools::front_matter::MetaValue;
use format_tools::output::make_unique_with_ext;

fn names(list: &[&str]) -> Vec<String> {
    list.iter().map(|s| s.to_string()).collect()
}

fn options(input: &str) -> ConvertOptions {
    ConvertOptions {
        input_file: input.to_string(),
        output_file: None,
        source_dir: None,
        source_name: None,
        reference_doc: None,
        metadata: None,
        metadata_file: None,
        use_crossref: false,
    }
}

#[test]
fn first_output_carries_the_mark() {
    assert_eq!(make_unique_with_ext("/out", "paper", "docx", &names(&[])), "/out/paper_格式匠.docx");
}

#[test]
fn later_outputs_are_numbered() {
    assert_eq!(
        make_unique_with_ext("/out", "paper", "docx", &names(&["paper_格式匠.docx"])),
        "/out/paper_格式匠_1.docx"
    );
    assert_eq!(
        make_unique_with_ext(
            "/out",
            "paper",
            "docx",
            &names(&["paper_格式匠_1.docx", "paper_格式匠.docx", "paper.docx"])
        ),
        "/out/paper_格式匠_2.docx"
    );
}

#[test]
fn repeated_conversions_never_share_a_name() {
    let mut taken: Vec<String> = names(&["paper.docx"]);
    let mut paths: Vec<String> = Vec::new();
    for _ in 0..12 {
        let path = make_unique_with_ext("/out", "paper", "docx", &taken);
        let name = path.strip_prefix("/out/").unwrap().to_string();
        assert!(!taken.contains(&name));
        assert!(!paths.contains(&path));
        taken.push(name);
        paths.push(path);
    }
    assert_eq!(paths[0], "/out/paper_格式匠.docx");
    assert_eq!(paths[11], "/out/paper_格式匠_11.docx");
}

#[test]
fn output_goes_beside_the_input_by_default() {
    let target = output_target(&options("/s/session-1/document.md"), false);
    assert_eq!(target.dir, "/s/session-1");
    assert_eq!(target.stem, "document");
    assert_eq!(target.ext, "docx");
}

#[test]
fn source_directory_is_used_when_it_exists() {
    let mut o = options("/s/session-1/document.md");
    o.source_dir = Some("/home/me/docs".to_string());
    o.source_name = Some("thesis.final.md".to_string());
    let there = output_target(&o, true);
    assert_eq!(there.dir, "/home/me/docs");
    assert_eq!(there.stem, "thesis.final");
    let gone = output_target(&o, false);
    assert_eq!(gone.dir, "/s/session-1");
    assert_eq!(gone.stem, "thesis.final");
}

#[test]
fn output_file_overrides_the_defaults() {
    let mut o = options("/s/session-1/document.md");
    o.source_dir = Some("/home/me/docs".to_string());
    o.source_name = Some("thesis.md".to_string());
    o.output_file = Some("/exports/final.odt".to_string());
    let target = output_target(&o, true);
    assert_eq!(target.dir, "/exports");
    assert_eq!(target.stem, "final");
    assert_eq!(target.ext, "odt");
    assert_eq!(resolve_output_path(&o, true, &names(&[])), "/exports/final_格式匠.odt");
}

#[test]
fn output_file_without_extension_gets_docx() {
    let mut o = options("/s/document.md");
    o.output_file = Some("/exports/final".to_string());
    assert_eq!(resolve_output_path(&o, false, &names(&["final_格式匠.docx"])), "/exports/final_格式匠_1.docx");
}

#[test]
fn input_without_a_stem_is_called_document() {
    let target = output_target(&options("/"), false);
    assert_eq!(target.stem, "document");
    assert_eq!(target.dir, ".");
}

#[test]
fn arguments_begin_with_input_and_output() {
    let o = options("/s/document.md");
    assert_eq!(build_arguments(&o, "/out/a.docx", None), names(&["/s/document.md", "-o", "/out/a.docx"]));
}

#[test]
fn arguments_carry_template_metadata_and_filter() {
    let mut o = options("/s/document.md");
    o.reference_doc = Some("/t/runtime/x.docx".to_string());
    o.metadata_file = Some("/s/meta.yaml".to_string());
    o.use_crossref = true;
    assert_eq!(
        build_arguments(&o, "/out/a.docx", Some("/bin/pandoc-crossref")),
        names(&[
            "/s/document.md",
            "-o",
            "/out/a.docx",
            "--reference-doc",
            "/t/runtime/x.docx",
            "--metadata-file",
            "/s/meta.yaml",
            "-F",
            "/bin/pandoc-crossref",
        ])
    );
}

#[test]
fn filter_is_left_out_when_it_is_not_installed() {
    let mut o = options("/s/document.md");
    o.use_crossref = true;
    assert_eq!(build_arguments(&o, "/out/a.docx", None), names(&["/s/document.md", "-o", "/out/a.docx"]));
    let plan = convert_md_to_docx(&o, true, "", None, false, &names(&[])).unwrap();
    assert_eq!(plan.output_path, "/s/document_格式匠.docx");
    assert_eq!(plan.arguments, names(&["/s/document.md", "-o", "/s/document_格式匠.docx"]));
    assert_eq!(plan.working_dir, Some("/s".to_string()));
    assert_eq!(plan.output_parent, Some("/s".to_string()));
    assert_eq!(plan.rewritten_input, None);
}

#[test]
fn filter_is_left_out_when_it_is_not_wanted() {
    let o = options("/s/document.md");
    assert_eq!(
        build_arguments(&o, "/out/a.docx", Some("/bin/pandoc-crossref")),
        names(&["/s/document.md", "-o", "/out/a.docx"])
    );
}

#[test]
fn conversion_needs_the_engine() {
    let mut o = options("/s/document.md");
    o.metadata = Some(MetaValue::Null);
    match convert_md_to_docx(&o, false, "", None, false, &names(&[])) {
        Err(PipelineError::EngineMissing) => {}
        other => panic!("unexpected result {:?}", other),
    }
}

#[test]
fn conversion_rejects_metadata_that_is_no_mapping() {
    let mut o = options("/s/document.md");
    o.metadata = Some(MetaValue::Array(vec![]));
    match convert_md_to_docx(&o, true, "Body", None, false, &names(&[])) {
        Err(PipelineError::InvalidMetadata) => {}
        other => panic!("unexpected result {:?}", other),
    }
}

#[test]
fn conversion_merges_metadata_into_the_input() {
    let mut o = options("/s/document.md");
    o.metadata = Some(MetaValue::Object(vec![("title".to_string(), MetaValue::String("T".to_string()))]));
    let plan = convert_md_to_docx(&o, true, "Body", None, false, &names(&["document_格式匠.docx"])).unwrap();
    assert_eq!(plan.rewritten_input, Some("---\ntitle: T\n---\n\nBody".to_string()));
    assert_eq!(plan.output_path, "/s/document_格式匠_1.docx");
}

#[test]
fn success_returns_the_output_and_cleans_a_staged_template() {
    let done = finish_conversion(true, "", "/out/a.docx", Some("/c/templates/runtime/t-1.docx")).unwrap();
    assert_eq!(done.output_path, "/out/a.docx");
    assert_eq!(done.remove_template, Some("/c/templates/runtime/t-1.docx".to_string()));
    let done = finish_conversion(true, "warning", "/out/a.docx", Some("/c/templates/t.docx")).unwrap();
    assert_eq!(done.remove_template, None);
    let done = finish_conversion(true, "", "/out/a.docx", None).unwrap();
    assert_eq!(done.remove_template, None);
}

#[test]
fn failure_returns_the_error_output() {
    match finish_conversion(false, "pandoc: boom\n", "/out/a.docx", Some("/runtime/t.docx")) {
        Err(PipelineError::EngineFailed(text)) => assert_eq!(text, "pandoc: boom\n"),
        other => panic!("unexpected result {:?}", other),
    }
}

#[test]
fn version_is_the_first_line() {
    assert_eq!(get_pandoc_version(true, true, "pandoc 3.8.3\nFeatures: +server\n").unwrap(), "pandoc 3.8.3");
    assert_eq!(get_pandoc_version(true, true, "pandoc 3.8.3\r\nmore").unwrap(), "pandoc 3.8.3");
    assert_eq!(get_pandoc_version(true, true, "pandoc").unwrap(), "pandoc");
    assert_eq!(get_pandoc_version(true, true, "pandoc\r").unwrap(), "pandoc\r");
    assert_eq!(get_pandoc_version(true, true, "\r\nx").unwrap(), "");
    assert_eq!(get_pandoc_version(true, true, "\nx").unwrap(), "");
    assert_eq!(get_pandoc_version(true, true, "").unwrap(), "Unknown");
}

#[test]
fn version_needs_an_engine_that_runs() {
    match get_pandoc_version(false, true, "pandoc 3") {
        Err(PipelineError::EngineMissing) => {}
        other => panic!("unexpected result {:?}", other),
    }
    match get_pandoc_version(true, false, "pandoc 3") {
        Err(PipelineError::EngineFailed(_)) => {}
        other => panic!("unexpected result {:?}", other),
    }
}
