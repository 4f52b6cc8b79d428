//! Templates: where one is looked for, how a protected one is decrypted,
//! how a copy is staged for one conversion, and the catalog of all of them.

use cipher::block_padding::Pkcs7;
use cipher::{BlockDecryptMut, KeyIvInit};
use sha2::Digest;
use vstd::prelude::*;
use vstd::slice::slice_subrange;
use vstd::string::StringSliceAdditionalSpecFns;
use crate::error::PipelineError;
use crate::paths::{join, path_join};
use crate::text::{
    decimal, dir_view, from_chars, lemma_numbered_texts_differ, lemma_views_push, push_decimal,
    push_name, push_str, str_eq, views,
};

verus! {

/// The SHA-256 digest of `data`, as the `sha2` crate computes it.
pub uninterp spec fn sha256(data: Seq<u8>) -> Seq<u8>;

/// What decrypting `ciphertext` with AES-256 in CBC mode under `key` and
/// `iv` and taking off its PKCS#7 padding gives, as the `cbc` and `aes`
/// crates compute it; `None` where the length of `ciphertext` is no
/// multiple of the block size or the padding is malformed.
pub uninterp spec fn aes256_cbc_plaintext(key: Seq<u8>, iv: Seq<u8>, ciphertext: Seq<u8>) -> Option<
    Seq<u8>,
>;

/// The view of bytes that may be missing.
pub open spec fn bytes_view(bytes: Option<Vec<u8>>) -> Option<Seq<u8>> {
    match bytes {
        Some(b) => Some(b@),
        None => None,
    }
}

/// The SHA-256 digest of `data`. Feeds `data` to `sha2::Sha256` through
/// `Digest::update` and takes `Digest::finalize`; the contract names the
/// digest and says that it has 32 bytes.
#[verifier::external_body]
pub(crate) fn sha256_digest(data: &[u8]) -> (r: Vec<u8>)
    ensures
        r@ == sha256(data@),
        r@.len() == 32,
{
    let mut hasher = sha2::Sha256::new();
    hasher.update(data);
    hasher.finalize().to_vec()
}

/// Decrypts `ciphertext` with AES-256 in CBC mode and takes off the PKCS#7
/// padding. Makes a `cbc::Decryptor<aes::Aes256>` with `KeyIvInit::new` and
/// calls `BlockDecryptMut::decrypt_padded_mut` on a copy of `ciphertext`;
/// the contract only names what comes back. The key must have 32 bytes and
/// the vector 16, as `new` takes arrays of these lengths.
#[verifier::external_body]
pub(crate) fn cbc_decrypt(key: &[u8], iv: &[u8], ciphertext: &[u8]) -> (r: Option<Vec<u8>>)
    requires
        key@.len() == 32,
        iv@.len() == 16,
    ensures
        bytes_view(r) == aes256_cbc_plaintext(key@, iv@, ciphertext@),
{
    let mut buffer = ciphertext.to_vec();
    let decryptor = cbc::Decryptor::<aes::Aes256>::new(key.into(), iv.into());
    decryptor.decrypt_padded_mut::<Pkcs7>(&mut buffer).ok().map(|plain| plain.to_vec())
}

/// The length of the initialization vector that an encrypted blob begins with.
pub const IV_LENGTH: usize = 16;

/// The plaintext of the encrypted blob `data` under the passphrase `key`:
/// the first 16 bytes of `data` are the initialization vector, the rest is
/// the ciphertext, and the cipher's key is the SHA-256 digest of the bytes
/// of `key`. `None` where decryption fails.
pub open spec fn decrypted(data: Seq<u8>, key: Seq<u8>) -> Option<Seq<u8>> {
    aes256_cbc_plaintext(
        sha256(key),
        data.subrange(0, IV_LENGTH as int),
        data.subrange(IV_LENGTH as int, data.len() as int),
    )
}

/// The bytes of a passphrase that may be missing.
pub open spec fn key_bytes(key: Option<&str>) -> Option<Seq<u8>> {
    match key {
        Some(k) => Some(k.spec_bytes()),
        None => None,
    }
}

/// Why the blob `data` cannot be decrypted under the passphrase `key`, if
/// it cannot: it is shorter than its initialization vector, there is no
/// passphrase, or decryption fails.
pub open spec fn decryption_failure(data: Seq<u8>, key: Option<Seq<u8>>) -> Option<Seq<char>> {
    if data.len() < IV_LENGTH {
        Some("Encrypted content is too short"@)
    } else {
        match key {
            None => Some("Encryption key not configured"@),
            Some(k) => if decrypted(data, k) is None {
                Some("Failed to decrypt protected content"@)
            } else {
                None
            },
        }
    }
}

/// Decrypts a protected template or catalog. `data` is the blob as stored:
/// an initialization vector of 16 bytes and the ciphertext. `key` is the
/// passphrase, if one is configured.
///
/// Fails with a decryption error where `data` has fewer than 16 bytes,
/// where there is no passphrase, and where the ciphertext does not decrypt
/// to correctly padded plaintext.
pub fn decrypt_bytes_aes_cbc(data: &[u8], key: Option<&str>) -> (r: Result<Vec<u8>, PipelineError>)
    ensures
        match decryption_failure(data@, key_bytes(key)) {
            Some(why) => r matches Err(e) && (e matches PipelineError::Decryption(reason)
                && reason@ == why),
            None => r matches Ok(plain) && (key matches Some(k) && decrypted(
                data@,
                k.spec_bytes(),
            ) == Some(plain@)),
        },
{
    if data.len() < IV_LENGTH {
        return Err(PipelineError::Decryption("Encrypted content is too short".to_owned()));
    }
    let passphrase = match key {
        Some(k) => k,
        None => {
            return Err(PipelineError::Decryption("Encryption key not configured".to_owned()));
        },
    };
    let key_bytes = sha256_digest(passphrase.as_bytes());
    let iv = slice_subrange(data, 0, IV_LENGTH);
    let ciphertext = slice_subrange(data, IV_LENGTH, data.len());
    match cbc_decrypt(key_bytes.as_slice(), iv, ciphertext) {
        Some(plain) => Ok(plain),
        None => Err(PipelineError::Decryption("Failed to decrypt protected content".to_owned())),
    }
}

/// The directories in which plain templates are looked for, in order: those
/// of a development tree, then that of a packaged program beside the
/// executable in `exe_dir`, if that is known.
pub open spec fn plain_roots(exe_dir: Option<Seq<char>>) -> Seq<Seq<char>> {
    seq!["src-tauri/resources/templates"@, "resources/templates"@, "../resources/templates"@] + (
    match exe_dir {
        Some(dir) => seq![path_join(path_join(dir, "resources"@), "templates"@)],
        None => Seq::empty(),
    })
}

/// The directories in which protected templates are looked for, in order:
/// those of a development tree, then that of a packaged program.
pub open spec fn protected_roots(exe_dir: Option<Seq<char>>) -> Seq<Seq<char>> {
    seq!["src/auth-private/templates"@, "auth-private/templates"@, "../auth-private/templates"@]
        + (match exe_dir {
        Some(dir) => seq![
            path_join(path_join(path_join(dir, "resources"@), "auth-private"@), "templates"@),
        ],
        None => Seq::empty(),
    })
}

/// The paths of `name` in each of `roots`.
pub open spec fn paths_in(roots: Seq<Seq<char>>, name: Seq<char>) -> Seq<Seq<char>> {
    Seq::new(roots.len(), |i: int| path_join(roots[i], name))
}

/// The places where the template `template_id` is looked for, in order.
pub open spec fn template_paths(template_id: Seq<char>, exe_dir: Option<Seq<char>>) -> Seq<
    Seq<char>,
> {
    paths_in(plain_roots(exe_dir) + protected_roots(exe_dir), template_id)
}

/// The first position below `n` at which `found` holds `true`.
pub open spec fn first_found(found: Seq<bool>, n: int) -> Option<int>
    decreases n,
{
    if n <= 0 {
        None
    } else {
        match first_found(found, n - 1) {
            Some(i) => Some(i),
            None => if n - 1 < found.len() && found[n - 1] {
                Some(n - 1)
            } else {
                None
            },
        }
    }
}

/// The first found position is one at which `found` holds `true`, and
/// before it there is none.
pub proof fn lemma_first_found(found: Seq<bool>, n: int)
    ensures
        match first_found(found, n) {
            Some(i) => 0 <= i < n && i < found.len() && found[i] && forall|j: int|
                0 <= j < i ==> !#[trigger] found[j],
            None => forall|j: int| 0 <= j < n && j < found.len() ==> !#[trigger] found[j],
        },
    decreases n,
{
    if n > 0 {
        lemma_first_found(found, n - 1);
    }
}

/// The first position below `limit` at which `found` holds `true`.
pub fn first_present(found: &Vec<bool>, limit: usize) -> (r: Option<usize>)
    ensures
        match r {
            Some(i) => first_found(found@, limit as int) == Some(i as int),
            None => first_found(found@, limit as int) is None,
        },
{
    let mut i: usize = 0;
    while i < limit
        invariant
            i <= limit,
            first_found(found@, i as int) is None,
        decreases limit - i,
    {
        if i < found.len() && found[i] {
            proof {
                lemma_first_found_stays(found@, i + 1, limit as int);
            }
            return Some(i);
        }
        i += 1;
    }
    None
}

proof fn lemma_first_found_stays(found: Seq<bool>, n: int, m: int)
    requires
        n <= m,
        first_found(found, n) is Some,
    ensures
        first_found(found, m) == first_found(found, n),
    decreases m - n,
{
    if n < m {
        lemma_first_found_stays(found, n, m - 1);
    }
}

fn plain_root_dirs(exe_dir: Option<&str>) -> (r: Vec<String>)
    ensures
        views(r@) == plain_roots(dir_view(exe_dir)),
{
    let mut roots: Vec<String> = Vec::new();
    assert(views(roots@) =~= Seq::<Seq<char>>::empty());
    push_name(&mut roots, "src-tauri/resources/templates");
    push_name(&mut roots, "resources/templates");
    push_name(&mut roots, "../resources/templates");
    match exe_dir {
        Some(dir) => {
            let resources = join(dir, "resources");
            let templates = join(resources.as_str(), "templates");
            push_name(&mut roots, templates.as_str());
        },
        None => {},
    }
    assert(views(roots@) =~= plain_roots(dir_view(exe_dir)));
    roots
}

fn protected_root_dirs(exe_dir: Option<&str>) -> (r: Vec<String>)
    ensures
        views(r@) == protected_roots(dir_view(exe_dir)),
{
    let mut roots: Vec<String> = Vec::new();
    assert(views(roots@) =~= Seq::<Seq<char>>::empty());
    push_name(&mut roots, "src/auth-private/templates");
    push_name(&mut roots, "auth-private/templates");
    push_name(&mut roots, "../auth-private/templates");
    match exe_dir {
        Some(dir) => {
            let resources = join(dir, "resources");
            let private = join(resources.as_str(), "auth-private");
            let templates = join(private.as_str(), "templates");
            push_name(&mut roots, templates.as_str());
        },
        None => {},
    }
    assert(views(roots@) =~= protected_roots(dir_view(exe_dir)));
    roots
}

fn append_paths(out: &mut Vec<String>, roots: &Vec<String>, name: &str)
    ensures
        views(final(out)@) == views(old(out)@) + paths_in(views(roots@), name@),
{
    let mut i: usize = 0;
    let ghost start = views(out@);
    assert(start + paths_in(views(roots@), name@).take(0) =~= start);
    while i < roots.len()
        invariant
            i <= roots.len(),
            views(out@) == start + paths_in(views(roots@), name@).take(i as int),
        decreases roots.len() - i,
    {
        let path = join(roots[i].as_str(), name);
        proof {
            lemma_views_push(out@, path);
            let all = paths_in(views(roots@), name@);
            assert(all[i as int] == path@);
            assert((start + all.take(i as int)).push(path@) =~= start + all.take(i + 1));
        }
        out.push(path);
        i += 1;
    }
    assert(paths_in(views(roots@), name@).take(roots.len() as int) =~= paths_in(
        views(roots@),
        name@,
    ));
}

/// The places where the template `template_id` is looked for, in order.
/// `exe_dir` is the directory of the running program, if it is known.
pub fn template_candidates(template_id: &str, exe_dir: Option<&str>) -> (r: Vec<String>)
    ensures
        views(r@) == template_paths(template_id@, dir_view(exe_dir)),
{
    let plain = plain_root_dirs(exe_dir);
    let protected = protected_root_dirs(exe_dir);
    let mut out: Vec<String> = Vec::new();
    assert(views(out@) =~= Seq::<Seq<char>>::empty());
    append_paths(&mut out, &plain, template_id);
    append_paths(&mut out, &protected, template_id);
    assert(views(out@) =~= template_paths(template_id@, dir_view(exe_dir)));
    out
}

/// The places where the catalog of the plain templates is looked for.
pub fn metadata_candidates(exe_dir: Option<&str>) -> (r: Vec<String>)
    ensures
        views(r@) == paths_in(plain_roots(dir_view(exe_dir)), "templates.json"@),
{
    let plain = plain_root_dirs(exe_dir);
    let mut out: Vec<String> = Vec::new();
    assert(views(out@) =~= Seq::<Seq<char>>::empty());
    append_paths(&mut out, &plain, "templates.json");
    assert(views(out@) =~= paths_in(plain_roots(dir_view(exe_dir)), "templates.json"@));
    out
}

/// The places where the encrypted catalog of the protected templates is
/// looked for.
pub fn protected_metadata_candidates(exe_dir: Option<&str>) -> (r: Vec<String>)
    ensures
        views(r@) == paths_in(protected_roots(dir_view(exe_dir)), "templates.json.enc"@),
{
    let protected = protected_root_dirs(exe_dir);
    let mut out: Vec<String> = Vec::new();
    assert(views(out@) =~= Seq::<Seq<char>>::empty());
    append_paths(&mut out, &protected, "templates.json.enc");
    assert(views(out@) =~= paths_in(protected_roots(dir_view(exe_dir)), "templates.json.enc"@));
    out
}

/// A template as it was found.
#[derive(Debug)]
pub struct TemplateResource {
    /// Where the template lies.
    pub path: String,
    /// Whether its content is encrypted.
    pub encrypted: bool,
}

/// What the message of a missing template says.
pub open spec fn missing_template(template_id: Seq<char>) -> Seq<char> {
    "Template '"@ + template_id + "' not found in resources"@
}

/// Finds the template `template_id`: the first of its candidate places at
/// which a file exists. `found` says of each candidate, in the order of
/// [`template_candidates`], whether a file is there; `encrypted` says
/// whether the template is one that only members get.
///
/// Fails with `NotFound` where no candidate exists.
pub fn find_template_resource(
    template_id: &str,
    exe_dir: Option<&str>,
    found: &Vec<bool>,
    encrypted: bool,
) -> (r: Result<TemplateResource, PipelineError>)
    ensures
        match first_found(found@, template_paths(template_id@, dir_view(exe_dir)).len() as int) {
            Some(i) => r matches Ok(resource) && resource.path@ == template_paths(
                template_id@,
                dir_view(exe_dir),
            )[i] && resource.encrypted == encrypted && found@[i],
            None => r matches Err(e) && (e matches PipelineError::NotFound(reason) && reason@
                == missing_template(template_id@)),
        },
{
    let candidates = template_candidates(template_id, exe_dir);
    proof {
        lemma_first_found(found@, candidates.len() as int);
    }
    match first_present(found, candidates.len()) {
        Some(i) => {
            assert(views(candidates@)[i as int] == candidates@[i as int]@);
            Ok(TemplateResource { path: candidates[i].clone(), encrypted })
        },
        None => {
            let mut reason: Vec<char> = Vec::new();
            push_str(&mut reason, "Template '");
            push_str(&mut reason, template_id);
            push_str(&mut reason, "' not found in resources");
            Err(PipelineError::NotFound(from_chars(reason.as_slice())))
        },
    }
}

/// A template staged for one conversion.
#[derive(Debug, Clone)]
pub struct TemplateInfo {
    /// The staged copy, to be handed to the conversion engine.
    pub reference_doc: String,
    /// The template that the copy was made from.
    pub protected_path: String,
}

/// How the staged copy is made.
#[derive(Debug)]
pub enum StageAction {
    /// Write `bytes`, the decrypted template, to `path`.
    Write { path: String, bytes: Vec<u8> },
    /// Copy the template at `from` to `to`, byte for byte.
    Copy { from: String, to: String },
}

/// A staged template and what is left to do for it.
#[derive(Debug)]
pub struct StagedTemplate {
    pub info: TemplateInfo,
    pub action: StageAction,
}

/// The directory of the staged copies, shared by all sessions.
pub open spec fn runtime_root(cache_root: Seq<char>) -> Seq<char> {
    path_join(path_join(path_join(cache_root, "format-tools"@), "templates"@), "runtime"@)
}

/// The file name of the copy of `template_id` staged at `millis`.
pub open spec fn runtime_name(template_id: Seq<char>, millis: nat) -> Seq<char> {
    template_id + "-"@ + decimal(millis) + ".docx"@
}

/// Copies of one template staged at different times have different names.
pub proof fn lemma_runtime_names_differ(template_id: Seq<char>, a: nat, b: nat)
    requires
        a != b,
    ensures
        runtime_name(template_id, a) != runtime_name(template_id, b),
{
    if runtime_name(template_id, a) == runtime_name(template_id, b) {
        lemma_numbered_texts_differ(template_id + "-"@, ".docx"@, a, b);
    }
}

/// The directory of the staged copies, below `cache_root`; to be created if
/// it is missing.
pub fn runtime_dir(cache_root: &str) -> (r: String)
    ensures
        r@ == runtime_root(cache_root@),
{
    let tools = join(cache_root, "format-tools");
    let templates = join(tools.as_str(), "templates");
    join(templates.as_str(), "runtime")
}

/// Stages the template `resource` for one conversion, at `millis`
/// milliseconds of wall-clock time: names a fresh file in the runtime
/// directory and says how to fill it. `content` holds the bytes of the
/// template where it is encrypted; `key` is the passphrase, if there is one.
///
/// Fails only for an encrypted template, where it cannot be decrypted.
pub fn prepare_template(
    template_id: &str,
    resource: &TemplateResource,
    cache_root: &str,
    millis: u128,
    content: &[u8],
    key: Option<&str>,
) -> (r: Result<StagedTemplate, PipelineError>)
    ensures
        match r {
            Ok(staged) => {
                &&& staged.info.reference_doc@ == path_join(
                    runtime_root(cache_root@),
                    runtime_name(template_id@, millis as nat),
                )
                &&& staged.info.protected_path@ == resource.path@
                &&& match staged.action {
                    StageAction::Write { path, bytes } => resource.encrypted && path@
                        == staged.info.reference_doc@ && content@.len() >= IV_LENGTH && (
                    key matches Some(k) && decrypted(content@, k.spec_bytes()) == Some(bytes@)),
                    StageAction::Copy { from, to } => !resource.encrypted && from@
                        == resource.path@ && to@ == staged.info.reference_doc@,
                }
            },
            Err(e) => resource.encrypted && (e matches PipelineError::Decryption(reason)
                && decryption_failure(content@, key_bytes(key)) == Some(reason@)),
        },
        r is Err <==> resource.encrypted && decryption_failure(content@, key_bytes(key)) is Some,
{
    let dir = runtime_dir(cache_root);
    let mut name: Vec<char> = Vec::new();
    push_str(&mut name, template_id);
    push_str(&mut name, "-");
    push_decimal(&mut name, millis);
    push_str(&mut name, ".docx");
    assert(name@ =~= runtime_name(template_id@, millis as nat));
    let name = from_chars(name.as_slice());
    let reference_doc = join(dir.as_str(), name.as_str());
    let protected_path = resource.path.clone();
    if resource.encrypted {
        match decrypt_bytes_aes_cbc(content, key) {
            Ok(bytes) => {
                let path = reference_doc.clone();
                Ok(
                    StagedTemplate {
                        info: TemplateInfo { reference_doc, protected_path },
                        action: StageAction::Write { path, bytes },
                    },
                )
            },
            Err(e) => Err(e),
        }
    } else {
        let from = resource.path.clone();
        let to = reference_doc.clone();
        Ok(
            StagedTemplate {
                info: TemplateInfo { reference_doc, protected_path },
                action: StageAction::Copy { from, to },
            },
        )
    }
}

/// An entry of the template catalog.
#[derive(Debug)]
pub struct TemplateMeta {
    pub id: String,
    pub name: String,
    pub description: String,
    pub category: String,
    /// Whether only members get the template; such a template is stored
    /// encrypted.
    pub member: bool,
    /// The preset that goes with the template, as the text of a JSON value.
    pub default_preset: String,
}

/// The catalog as it is listed.
#[derive(Debug)]
pub struct TemplateListResponse {
    pub templates: Vec<TemplateMeta>,
    /// Whether some template is for members only.
    pub has_premium: bool,
}

/// Whether some entry of `templates` is for members only.
pub open spec fn has_member(templates: Seq<TemplateMeta>) -> bool {
    exists|i: int| 0 <= i < templates.len() && (#[trigger] templates[i]).member
}

/// The catalog made of the plain entries, then the protected ones.
///
/// Fails with `NotFound` where there is no entry at all.
pub fn list_templates(public: Vec<TemplateMeta>, protected: Vec<TemplateMeta>) -> (r: Result<
    TemplateListResponse,
    PipelineError,
>)
    ensures
        match r {
            Ok(list) => list.templates@ == public@ + protected@ && list.templates@.len() > 0
                && list.has_premium == has_member(list.templates@),
            Err(e) => public@.len() + protected@.len() == 0 && (e matches PipelineError::NotFound(
                reason,
            ) && reason@ == "No templates metadata found in resources"@),
        },
{
    let mut templates = public;
    let mut rest = protected;
    templates.append(&mut rest);
    if templates.len() == 0 {
        return Err(PipelineError::NotFound("No templates metadata found in resources".to_owned()));
    }
    let mut has_premium = false;
    let mut i: usize = 0;
    while i < templates.len()
        invariant
            i <= templates.len(),
            has_premium == has_member(templates@.take(i as int)),
        decreases templates.len() - i,
    {
        let ghost before = templates@.take(i as int);
        let ghost after = templates@.take(i + 1);
        proof {
            if has_member(before) {
                let k = choose|k: int| 0 <= k < before.len() && (#[trigger] before[k]).member;
                assert(after[k].member);
            }
            if has_member(after) && !templates@[i as int].member {
                let k = choose|k: int| 0 <= k < after.len() && (#[trigger] after[k]).member;
                assert(before[k].member);
            }
            if templates@[i as int].member {
                assert(after[i as int].member);
            }
        }
        if templates[i].member {
            has_premium = true;
        }
        i += 1;
    }
    assert(templates@.take(templates.len() as int) =~= templates@);
    Ok(TemplateListResponse { templates, has_premium })
}

/// The member flag that `catalog` holds for `template_id`: that of the
/// first entry with this id at or after position `from`; `false` if there
/// is none.
pub open spec fn member_flag(catalog: Seq<TemplateMeta>, template_id: Seq<char>, from: int) -> bool
    decreases catalog.len() - from,
{
    if from < 0 || from >= catalog.len() {
        false
    } else if catalog[from].id@ == template_id {
        catalog[from].member
    } else {
        member_flag(catalog, template_id, from + 1)
    }
}

/// Whether the template `template_id` is stored encrypted, as `catalog`
/// says: whether its entry is for members only.
pub fn is_member_template(catalog: &Vec<TemplateMeta>, template_id: &str) -> (r: bool)
    ensures
        r == member_flag(catalog@, template_id@, 0),
{
    let mut i: usize = 0;
    while i < catalog.len()
        invariant
            i <= catalog.len(),
            member_flag(catalog@, template_id@, 0) == member_flag(catalog@, template_id@, i as int),
        decreases catalog.len() - i,
    {
        if str_eq(catalog[i].id.as_str(), template_id) {
            return catalog[i].member;
        }
        i += 1;
    }
    false
}

} // verus!
