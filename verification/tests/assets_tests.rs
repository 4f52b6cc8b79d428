use format_tools::input::{collect_markdown_files, locate_document};
use format_tools::assets::{
    extract_and_copy_images, is_remote_reference, make_unique_name, resolve_image_path,
    rewrite_images, AssetStep, ImageRef,
};

fn names(list: &[&str]) -> Vec<String> {
    list.iter().map(|s| s.to_string()).collect()
}

fn step(content: &str, base: Option<&str>, existing: &[&str], outcomes: &[bool]) -> AssetStep {
    extract_and_copy_images(content, base, "/s/assets", &names(existing), &outcomes.to_vec())
        .expect("the image pattern compiles")
}

#[test]
fn image_pattern_compiles_for_any_text() {
    for content in ["", "![", "![a](b)", "\u{0}![\n](\n)", "![a](b)![c](d)", "漢字 ![ü](é.png) 😀"] {
        assert!(extract_and_copy_images(content, None, "/s/assets", &Vec::new(), &Vec::new()).is_ok());
    }
}

#[test]
fn unique_name_keeps_a_free_name() {
    assert_eq!(make_unique_name("pic.png", &names(&[])), "pic.png");
    assert_eq!(make_unique_name("pic.png", &names(&["other.png"])), "pic.png");
}

#[test]
fn unique_name_counts_up_before_the_extension() {
    assert_eq!(make_unique_name("pic.png", &names(&["pic.png"])), "pic_1.png");
    assert_eq!(make_unique_name("pic.png", &names(&["pic.png", "pic_1.png"])), "pic_2.png");
    assert_eq!(make_unique_name("pic.png", &names(&["pic_1.png", "pic.png", "pic_3.png"])), "pic_2.png");
}

#[test]
fn unique_name_splits_at_the_last_dot() {
    assert_eq!(make_unique_name("archive.tar.gz", &names(&["archive.tar.gz"])), "archive.tar_1.gz");
    assert_eq!(make_unique_name(".hidden", &names(&[".hidden"])), "_1.hidden");
}

#[test]
fn unique_name_without_a_dot_counts_up_at_the_end() {
    assert_eq!(make_unique_name("README", &names(&["README"])), "README_1");
    assert_eq!(make_unique_name("README", &names(&["README", "README_1"])), "README_2");
}

#[test]
fn unique_name_passes_ten() {
    let mut taken = vec!["a.png".to_string()];
    for k in 1..=10 {
        taken.push(format!("a_{}.png", k));
    }
    assert_eq!(make_unique_name("a.png", &taken), "a_11.png");
}

#[test]
fn unique_name_is_never_one_of_the_existing() {
    let mut taken: Vec<String> = Vec::new();
    for _ in 0..25 {
        let name = make_unique_name("shot.jpg", &taken);
        assert!(!taken.contains(&name));
        taken.push(name);
    }
    assert_eq!(taken[0], "shot.jpg");
    assert_eq!(taken[24], "shot_24.jpg");
}

#[test]
fn remote_references_are_told_by_their_scheme() {
    assert!(is_remote_reference("http://example.org/a.png"));
    assert!(is_remote_reference("https://example.org/a.png"));
    assert!(!is_remote_reference("ftp://example.org/a.png"));
    assert!(!is_remote_reference("img/http://a.png"));
    assert!(!is_remote_reference("http:/a.png"));
}

#[test]
fn absolute_image_paths_stand_for_themselves() {
    assert_eq!(resolve_image_path("/pics/a.png", Some("/doc")), Some("/pics/a.png".to_string()));
    assert_eq!(resolve_image_path("/pics/a.png", None), Some("/pics/a.png".to_string()));
}

#[test]
fn relative_image_paths_are_joined_to_the_base() {
    assert_eq!(resolve_image_path("img/a.png", Some("/doc")), Some("/doc/img/a.png".to_string()));
    assert_eq!(resolve_image_path("img/a.png", None), None);
}

#[test]
fn text_without_images_is_done_at_once() {
    match step("# Title\n\nNo images here.\n", Some("/doc"), &[], &[]) {
        AssetStep::Done { copied, rewritten } => {
            assert!(copied.is_empty());
            assert_eq!(rewritten, "# Title\n\nNo images here.\n");
        }
        other => panic!("unexpected step {:?}", other),
    }
}

#[test]
fn first_local_image_is_asked_for() {
    match step("a ![one](img/a.png) b", Some("/doc"), &[], &[]) {
        AssetStep::Copy { source, name, target } => {
            assert_eq!(source, "/doc/img/a.png");
            assert_eq!(name, "a.png");
            assert_eq!(target, "/s/assets/a.png");
        }
        other => panic!("unexpected step {:?}", other),
    }
}

#[test]
fn copied_image_is_rewritten() {
    match step("a ![one](img/a.png) b", Some("/doc"), &[], &[true]) {
        AssetStep::Done { copied, rewritten } => {
            assert_eq!(copied, vec!["/s/assets/a.png".to_string()]);
            assert_eq!(rewritten, "a ![one](assets/a.png) b");
        }
        other => panic!("unexpected step {:?}", other),
    }
}

#[test]
fn failed_copy_leaves_the_reference() {
    match step("a ![one](img/a.png) b", Some("/doc"), &[], &[false]) {
        AssetStep::Done { copied, rewritten } => {
            assert!(copied.is_empty());
            assert_eq!(rewritten, "a ![one](img/a.png) b");
        }
        other => panic!("unexpected step {:?}", other),
    }
}

#[test]
fn remote_images_stay_as_written() {
    match step("![r](https://example.org/a.png)", Some("/doc"), &[], &[]) {
        AssetStep::Done { copied, rewritten } => {
            assert!(copied.is_empty());
            assert_eq!(rewritten, "![r](https://example.org/a.png)");
        }
        other => panic!("unexpected step {:?}", other),
    }
}

#[test]
fn relative_image_without_base_stays_as_written() {
    match step("![r](img/a.png)", None, &[], &[]) {
        AssetStep::Done { copied, rewritten } => {
            assert!(copied.is_empty());
            assert_eq!(rewritten, "![r](img/a.png)");
        }
        other => panic!("unexpected step {:?}", other),
    }
}

#[test]
fn repeated_reference_is_copied_once() {
    let content = "![a](img/p.png) and ![b](img/p.png) and ![c]( img/p.png )";
    match step(content, Some("/doc"), &[], &[true]) {
        AssetStep::Done { copied, rewritten } => {
            assert_eq!(copied, vec!["/s/assets/p.png".to_string()]);
            assert_eq!(
                rewritten,
                "![a](assets/p.png) and ![b](assets/p.png) and ![c](assets/p.png)"
            );
        }
        other => panic!("unexpected step {:?}", other),
    }
}

#[test]
fn reference_is_trimmed_before_it_is_looked_for() {
    match step("![a](  img/p.png \t)", Some("/doc"), &[], &[]) {
        AssetStep::Copy { source, name, .. } => {
            assert_eq!(source, "/doc/img/p.png");
            assert_eq!(name, "p.png");
        }
        other => panic!("unexpected step {:?}", other),
    }
}

#[test]
fn same_named_images_get_names_of_their_own() {
    let content = "![a](one/p.png) ![b](two/p.png) ![c](three/p.png)";
    match step(content, Some("/doc"), &["p.png"], &[true, true]) {
        AssetStep::Copy { source, name, target } => {
            assert_eq!(source, "/doc/three/p.png");
            assert_eq!(name, "p_3.png");
            assert_eq!(target, "/s/assets/p_3.png");
        }
        other => panic!("unexpected step {:?}", other),
    }
    match step(content, Some("/doc"), &["p.png"], &[true, true, true]) {
        AssetStep::Done { copied, rewritten } => {
            assert_eq!(
                copied,
                names(&["/s/assets/p_1.png", "/s/assets/p_2.png", "/s/assets/p_3.png"])
            );
            assert_eq!(rewritten, "![a](assets/p_1.png) ![b](assets/p_2.png) ![c](assets/p_3.png)");
        }
        other => panic!("unexpected step {:?}", other),
    }
}

#[test]
fn name_of_a_failed_copy_is_given_again() {
    let content = "![a](one/p.png) ![b](two/p.png)";
    match step(content, Some("/doc"), &[], &[false]) {
        AssetStep::Copy { source, name, .. } => {
            assert_eq!(source, "/doc/two/p.png");
            assert_eq!(name, "p.png");
        }
        other => panic!("unexpected step {:?}", other),
    }
}

#[test]
fn failed_reference_is_tried_again_when_repeated() {
    let content = "![a](img/p.png) ![b](img/p.png)";
    match step(content, Some("/doc"), &[], &[false, true]) {
        AssetStep::Done { copied, rewritten } => {
            assert_eq!(copied, names(&["/s/assets/p.png"]));
            assert_eq!(rewritten, "![a](img/p.png) ![b](assets/p.png)");
        }
        other => panic!("unexpected step {:?}", other),
    }
}

#[test]
fn alt_text_and_surrounding_text_are_kept() {
    let content = "x![](a.png)y![alt [1]](b.png)z\n![ü](c d.png)";
    match step(content, Some("/d"), &[], &[true, true]) {
        AssetStep::Done { copied, rewritten } => {
            assert_eq!(copied, names(&["/s/assets/a.png", "/s/assets/c d.png"]));
            assert_eq!(rewritten, "x![](assets/a.png)y![alt [1]](b.png)z\n![ü](assets/c d.png)");
        }
        other => panic!("unexpected step {:?}", other),
    }
}

#[test]
fn empty_path_is_no_image_reference() {
    match step("![a]() ![b](x.png", Some("/d"), &[], &[]) {
        AssetStep::Done { copied, rewritten } => {
            assert!(copied.is_empty());
            assert_eq!(rewritten, "![a]() ![b](x.png");
        }
        other => panic!("unexpected step {:?}", other),
    }
}

#[test]
fn path_may_span_lines_and_hold_brackets() {
    match step("![a](p(1.png) tail)", Some("/d"), &[], &[true]) {
        AssetStep::Done { copied, rewritten } => {
            assert_eq!(copied, names(&["/s/assets/p(1.png"]));
            assert_eq!(rewritten, "![a](assets/p(1.png) tail)");
        }
        other => panic!("unexpected step {:?}", other),
    }
}

#[test]
fn path_without_a_file_name_is_called_image() {
    match step("![a](/)", None, &[], &[]) {
        AssetStep::Copy { source, name, target } => {
            assert_eq!(source, "/");
            assert_eq!(name, "image");
            assert_eq!(target, "/s/assets/image");
        }
        other => panic!("unexpected step {:?}", other),
    }
}

#[test]
fn rewriting_from_parts_needs_no_pattern() {
    let gaps = names(&["A ", " B"]);
    let refs = vec![ImageRef { alt: "x".to_string(), path: "/p/q.png".to_string() }];
    match rewrite_images(&gaps, &refs, None, "/assets", &names(&["q.png"]), &vec![true]) {
        AssetStep::Done { copied, rewritten } => {
            assert_eq!(copied, names(&["/assets/q_1.png"]));
            assert_eq!(rewritten, "A ![x](assets/q_1.png) B");
        }
        other => panic!("unexpected step {:?}", other),
    }
}

#[test]
fn missing_pieces_count_as_empty() {
    let refs = vec![ImageRef { alt: "x".to_string(), path: "http://h/q.png".to_string() }];
    match rewrite_images(&Vec::new(), &refs, None, "/assets", &Vec::new(), &Vec::new()) {
        AssetStep::Done { copied, rewritten } => {
            assert!(copied.is_empty());
            assert_eq!(rewritten, "![x](http://h/q.png)");
        }
        other => panic!("unexpected step {:?}", other),
    }
}

#[test]
fn archive_document_with_image_in_a_sibling_directory() {
    let files = names(&["a/b.md", "img/pic.png"]);
    let found = collect_markdown_files(&files);
    assert_eq!(found, names(&["a/b.md"]));
    let (document, base) = locate_document("/s/extracted", &found, None).unwrap();
    assert_eq!(document, "/s/extracted/a/b.md");
    assert_eq!(base, Some("/s/extracted/a".to_string()));
    let content = "![pic](../img/pic.png)";
    match step(content, base.as_deref(), &[], &[]) {
        AssetStep::Copy { source, name, target } => {
            assert_eq!(source, "/s/extracted/a/../img/pic.png");
            assert_eq!(name, "pic.png");
            assert_eq!(target, "/s/assets/pic.png");
        }
        other => panic!("unexpected step {:?}", other),
    }
    match step(content, base.as_deref(), &[], &[true]) {
        AssetStep::Done { copied, rewritten } => {
            assert_eq!(copied, names(&["/s/assets/pic.png"]));
            assert_eq!(rewritten, "![pic](assets/pic.png)");
        }
        other => panic!("unexpected step {:?}", other),
    }
}
