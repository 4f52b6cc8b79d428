use cipher::block_padding::Pkcs7;
use cipher::{BlockEncryptMut, KeyIvInit};
use format_tools::error::PipelineError;
use format_tools::templates::{
    decrypt_bytes_aes_cbc, find_template_resource, first_present, is_member_template,
    list_templates, metadata_candidates, prepare_template, protected_metadata_candidates,
    runtime_dir, template_candidates, StageAction, TemplateMeta, TemplateResource,
};
use sha2::Digest;

fn names(list: &[&str]) -> Vec<String> {
    list.iter().map(|s| s.to_string()).collect()
}

fn encrypt(passphrase: &str, iv: [u8; 16], plain: &[u8]) -> Vec<u8> {
    let key = sha2::Sha256::digest(passphrase.as_bytes());
    let mut buffer = vec![0u8; plain.len() + 16];
    buffer[..plain.len()].copy_from_slice(plain);
    let encryptor = cbc::Encryptor::<aes::Aes256>::new_from_slices(&key, &iv).unwrap();
    let cipher = encryptor.encrypt_padded_mut::<Pkcs7>(&mut buffer, plain.len()).unwrap().to_vec();
    let mut blob = iv.to_vec();
    blob.extend_from_slice(&cipher);
    blob
}

fn meta(id: &str, member: bool) -> TemplateMeta {
    TemplateMeta {
        id: id.to_string(),
        name: format!("Name of {}", id),
        description: String::new(),
        category: String::new(),
        member,
        default_preset: "null".to_string(),
    }
}

#[test]
fn decryption_gives_back_the_plaintext() {
    let plain = b"PK\x03\x04 a template that is longer than one block of sixteen bytes";
    let blob = encrypt("correct horse", [7u8; 16], plain);
    assert_ne!(&blob[16..16 + plain.len().min(blob.len() - 16)], &plain[..plain.len().min(blob.len() - 16)]);
    assert_eq!(decrypt_bytes_aes_cbc(&blob, Some("correct horse")).unwrap(), plain.to_vec());
}

#[test]
fn decryption_of_an_empty_plaintext() {
    let blob = encrypt("k", [0u8; 16], b"");
    assert_eq!(blob.len(), 32);
    assert_eq!(decrypt_bytes_aes_cbc(&blob, Some("k")).unwrap(), Vec::<u8>::new());
}

#[test]
fn wrong_key_is_rejected() {
    let blob = encrypt("correct horse", [7u8; 16], b"sixteen byte msg and a little more");
    match decrypt_bytes_aes_cbc(&blob, Some("wrong horse")) {
        Err(PipelineError::Decryption(reason)) => assert_eq!(reason, "Failed to decrypt protected content"),
        other => panic!("unexpected result {:?}", other),
    }
}

#[test]
fn short_blob_is_rejected() {
    for len in [0usize, 1, 15] {
        match decrypt_bytes_aes_cbc(&vec![1u8; len], Some("k")) {
            Err(PipelineError::Decryption(reason)) => assert_eq!(reason, "Encrypted content is too short"),
            other => panic!("unexpected result {:?}", other),
        }
    }
}

#[test]
fn missing_key_is_rejected() {
    match decrypt_bytes_aes_cbc(&vec![1u8; 32], None) {
        Err(PipelineError::Decryption(reason)) => assert_eq!(reason, "Encryption key not configured"),
        other => panic!("unexpected result {:?}", other),
    }
}

#[test]
fn ciphertext_of_odd_length_is_rejected() {
    let mut blob = encrypt("k", [3u8; 16], b"hello");
    blob.push(0);
    match decrypt_bytes_aes_cbc(&blob, Some("k")) {
        Err(PipelineError::Decryption(reason)) => assert_eq!(reason, "Failed to decrypt protected content"),
        other => panic!("unexpected result {:?}", other),
    }
}

#[test]
fn vector_alone_is_no_ciphertext() {
    match decrypt_bytes_aes_cbc(&vec![9u8; 16], Some("k")) {
        Err(PipelineError::Decryption(reason)) => assert_eq!(reason, "Failed to decrypt protected content"),
        other => panic!("unexpected result {:?}", other),
    }
}

#[test]
fn templates_are_looked_for_in_order() {
    assert_eq!(
        template_candidates("report.docx", Some("/opt/app")),
        names(&[
            "src-tauri/resources/templates/report.docx",
            "resources/templates/report.docx",
            "../resources/templates/report.docx",
            "/opt/app/resources/templates/report.docx",
            "src/auth-private/templates/report.docx",
            "auth-private/templates/report.docx",
            "../auth-private/templates/report.docx",
            "/opt/app/resources/auth-private/templates/report.docx",
        ])
    );
    assert_eq!(template_candidates("t", None).len(), 6);
}

#[test]
fn catalogs_are_looked_for_in_order() {
    assert_eq!(
        metadata_candidates(Some("/opt/app")),
        names(&[
            "src-tauri/resources/templates/templates.json",
            "resources/templates/templates.json",
            "../resources/templates/templates.json",
            "/opt/app/resources/templates/templates.json",
        ])
    );
    assert_eq!(
        protected_metadata_candidates(None),
        names(&[
            "src/auth-private/templates/templates.json.enc",
            "auth-private/templates/templates.json.enc",
            "../auth-private/templates/templates.json.enc",
        ])
    );
}

#[test]
fn first_present_flag_wins() {
    assert_eq!(first_present(&vec![false, true, true], 3), Some(1));
    assert_eq!(first_present(&vec![false, true, true], 1), None);
    assert_eq!(first_present(&vec![false, false], 5), None);
    assert_eq!(first_present(&vec![], 0), None);
}

#[test]
fn first_existing_template_is_found() {
    let found = vec![false, false, true, false, true, false, false, false];
    let resource = find_template_resource("report.docx", Some("/opt/app"), &found, false).unwrap();
    assert_eq!(resource.path, "../resources/templates/report.docx");
    assert!(!resource.encrypted);
    let resource = find_template_resource("report.docx", Some("/opt/app"), &found, true).unwrap();
    assert!(resource.encrypted);
}

#[test]
fn missing_template_is_reported_by_name() {
    match find_template_resource("report.docx", None, &vec![false; 6], false) {
        Err(PipelineError::NotFound(reason)) => assert_eq!(reason, "Template 'report.docx' not found in resources"),
        other => panic!("unexpected result {:?}", other),
    }
    match find_template_resource("report.docx", None, &vec![], false) {
        Err(PipelineError::NotFound(_)) => {}
        other => panic!("unexpected result {:?}", other),
    }
    match find_template_resource("x", None, &vec![false, false, false, false, false, false, true], false) {
        Err(PipelineError::NotFound(_)) => {}
        other => panic!("unexpected result {:?}", other),
    }
}

#[test]
fn plain_template_is_copied() {
    let resource = TemplateResource { path: "/res/report.docx".to_string(), encrypted: false };
    let staged = prepare_template("report.docx", &resource, "/cache", 1234, &[], None).unwrap();
    assert_eq!(staged.info.reference_doc, "/cache/format-tools/templates/runtime/report.docx-1234.docx");
    assert_eq!(staged.info.protected_path, "/res/report.docx");
    match staged.action {
        StageAction::Copy { from, to } => {
            assert_eq!(from, "/res/report.docx");
            assert_eq!(to, "/cache/format-tools/templates/runtime/report.docx-1234.docx");
        }
        other => panic!("unexpected action {:?}", other),
    }
    assert_eq!(runtime_dir("/cache"), "/cache/format-tools/templates/runtime");
}

#[test]
fn protected_template_is_decrypted() {
    let resource = TemplateResource { path: "/res/p.docx".to_string(), encrypted: true };
    let blob = encrypt("secret", [1u8; 16], b"template bytes");
    let staged = prepare_template("p.docx", &resource, "/cache", 5, &blob, Some("secret")).unwrap();
    match staged.action {
        StageAction::Write { path, bytes } => {
            assert_eq!(path, "/cache/format-tools/templates/runtime/p.docx-5.docx");
            assert_eq!(bytes, b"template bytes".to_vec());
        }
        other => panic!("unexpected action {:?}", other),
    }
    match prepare_template("p.docx", &resource, "/cache", 5, &blob, None) {
        Err(PipelineError::Decryption(_)) => {}
        other => panic!("unexpected result {:?}", other),
    }
}

#[test]
fn catalog_lists_plain_then_protected() {
    let list = list_templates(vec![meta("a", false), meta("b", false)], vec![meta("c", true)]).unwrap();
    let ids: Vec<&str> = list.templates.iter().map(|t| t.id.as_str()).collect();
    assert_eq!(ids, vec!["a", "b", "c"]);
    assert!(list.has_premium);
    let list = list_templates(vec![meta("a", false)], vec![]).unwrap();
    assert!(!list.has_premium);
    let list = list_templates(vec![], vec![meta("m", true)]).unwrap();
    assert!(list.has_premium);
}

#[test]
fn empty_catalog_is_an_error() {
    match list_templates(vec![], vec![]) {
        Err(PipelineError::NotFound(reason)) => assert_eq!(reason, "No templates metadata found in resources"),
        other => panic!("unexpected result {:?}", other),
    }
}

#[test]
fn member_flag_comes_from_the_catalog() {
    let catalog = vec![meta("a", false), meta("b", true), meta("b", false)];
    assert!(!is_member_template(&catalog, "a"));
    assert!(is_member_template(&catalog, "b"));
    assert!(!is_member_template(&catalog, "zzz"));
}
