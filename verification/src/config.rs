//! The conversion engine and its filter: which versions are used, where
//! they are downloaded from, and where they are installed.

use vstd::prelude::*;
use crate::paths::{join, path_join};
use crate::text::{from_chars, push_str, str_eq};

verus! {

/// The versions of the conversion engine and of the cross-reference filter.
#[derive(Debug, Clone)]
pub struct PandocConfig {
    pub version: String,
    pub crossref_version: String,
}

impl Default for PandocConfig {
    fn default() -> (r: Self)
        ensures
            r.version@ == "3.8.3"@,
            r.crossref_version@ == "0.3.22b"@,
    {
        PandocConfig { version: "3.8.3".to_owned(), crossref_version: "0.3.22b".to_owned() }
    }
}

/// Where an archive is downloaded from: the release page, and a mirror of it.
#[derive(Debug, Clone)]
pub struct DownloadUrls {
    pub primary: String,
    pub mirror: String,
}

/// Whether downloads exist for the operating system `os` on the machine
/// `arch`.
pub open spec fn is_supported_platform(os: Seq<char>, arch: Seq<char>) -> bool {
    ||| os == "windows"@ && arch == "x86_64"@
    ||| os == "linux"@ && (arch == "x86_64"@ || arch == "aarch64"@)
    ||| os == "macos"@ && (arch == "x86_64"@ || arch == "aarch64"@)
}

/// What follows the version in the name of the engine's archive.
pub open spec fn pandoc_platform(os: Seq<char>, arch: Seq<char>) -> Seq<char> {
    if os == "windows"@ {
        "-windows-x86_64.zip"@
    } else if os == "linux"@ {
        if arch == "x86_64"@ {
            "-linux-amd64.tar.gz"@
        } else {
            "-linux-arm64.tar.gz"@
        }
    } else {
        if arch == "x86_64"@ {
            "-x86_64-macOS.zip"@
        } else {
            "-arm64-macOS.zip"@
        }
    }
}

/// The name of the filter's archive.
pub open spec fn crossref_archive(os: Seq<char>, arch: Seq<char>) -> Seq<char> {
    if os == "windows"@ {
        "pandoc-crossref-Windows-X64.7z"@
    } else if os == "linux"@ {
        if arch == "x86_64"@ {
            "pandoc-crossref-Linux-X64.tar.xz"@
        } else {
            "pandoc-crossref-Linux-ARM64.tar.xz"@
        }
    } else {
        if arch == "x86_64"@ {
            "pandoc-crossref-macOS-X64.tar.xz"@
        } else {
            "pandoc-crossref-macOS-ARM64.tar.xz"@
        }
    }
}

/// The address of the engine's archive on its release page.
pub open spec fn pandoc_url(version: Seq<char>, os: Seq<char>, arch: Seq<char>) -> Seq<char> {
    "https://github.com/jgm/pandoc/releases/download/"@ + version + "/"@ + "pandoc-"@ + version
        + pandoc_platform(os, arch)
}

/// The address of the filter's archive on its release page.
pub open spec fn crossref_url(version: Seq<char>, os: Seq<char>, arch: Seq<char>) -> Seq<char> {
    "https://github.com/lierdakil/pandoc-crossref/releases/download/v"@ + version + "/"@
        + crossref_archive(os, arch)
}

/// The address of the mirror of `url`.
pub open spec fn mirror_of(url: Seq<char>) -> Seq<char> {
    "https://ghfast.top/"@ + url
}

/// Whether downloads exist for the operating system `os` on the machine
/// `arch`, both named as the standard library names them.
pub fn is_supported(os: &str, arch: &str) -> (r: bool)
    ensures
        r == is_supported_platform(os@, arch@),
{
    let intel = str_eq(arch, "x86_64");
    let arm = str_eq(arch, "aarch64");
    (str_eq(os, "windows") && intel) || (str_eq(os, "linux") && (intel || arm)) || (str_eq(
        os,
        "macos",
    ) && (intel || arm))
}

fn with_mirror(url: Vec<char>) -> (r: DownloadUrls)
    ensures
        r.primary@ == url@,
        r.mirror@ == mirror_of(url@),
{
    let mut mirror: Vec<char> = Vec::new();
    push_str(&mut mirror, "https://ghfast.top/");
    crate::text::push_chars(&mut mirror, url.as_slice());
    DownloadUrls { primary: from_chars(url.as_slice()), mirror: from_chars(mirror.as_slice()) }
}

/// Where the conversion engine of `config` is downloaded from for the
/// operating system `os` on the machine `arch`.
pub fn get_pandoc_download_urls(config: &PandocConfig, os: &str, arch: &str) -> (r: DownloadUrls)
    requires
        is_supported_platform(os@, arch@),
    ensures
        r.primary@ == pandoc_url(config.version@, os@, arch@),
        r.mirror@ == mirror_of(pandoc_url(config.version@, os@, arch@)),
{
    let intel = str_eq(arch, "x86_64");
    let platform = if str_eq(os, "windows") {
        "-windows-x86_64.zip"
    } else if str_eq(os, "linux") {
        if intel {
            "-linux-amd64.tar.gz"
        } else {
            "-linux-arm64.tar.gz"
        }
    } else {
        if intel {
            "-x86_64-macOS.zip"
        } else {
            "-arm64-macOS.zip"
        }
    };
    let mut url: Vec<char> = Vec::new();
    push_str(&mut url, "https://github.com/jgm/pandoc/releases/download/");
    push_str(&mut url, config.version.as_str());
    push_str(&mut url, "/");
    push_str(&mut url, "pandoc-");
    push_str(&mut url, config.version.as_str());
    push_str(&mut url, platform);
    assert(url@ =~= pandoc_url(config.version@, os@, arch@));
    with_mirror(url)
}

/// Where the cross-reference filter of `config` is downloaded from for the
/// operating system `os` on the machine `arch`.
pub fn get_crossref_download_urls(config: &PandocConfig, os: &str, arch: &str) -> (r: DownloadUrls)
    requires
        is_supported_platform(os@, arch@),
    ensures
        r.primary@ == crossref_url(config.crossref_version@, os@, arch@),
        r.mirror@ == mirror_of(crossref_url(config.crossref_version@, os@, arch@)),
{
    let intel = str_eq(arch, "x86_64");
    let archive = if str_eq(os, "windows") {
        "pandoc-crossref-Windows-X64.7z"
    } else if str_eq(os, "linux") {
        if intel {
            "pandoc-crossref-Linux-X64.tar.xz"
        } else {
            "pandoc-crossref-Linux-ARM64.tar.xz"
        }
    } else {
        if intel {
            "pandoc-crossref-macOS-X64.tar.xz"
        } else {
            "pandoc-crossref-macOS-ARM64.tar.xz"
        }
    };
    let mut url: Vec<char> = Vec::new();
    push_str(&mut url, "https://github.com/lierdakil/pandoc-crossref/releases/download/v");
    push_str(&mut url, config.crossref_version.as_str());
    push_str(&mut url, "/");
    push_str(&mut url, archive);
    assert(url@ =~= crossref_url(config.crossref_version@, os@, arch@));
    with_mirror(url)
}

/// The directory in which the engine and its filter are installed, below
/// the directory of the application's data.
pub fn get_install_dir(app_data_dir: &str) -> (r: String)
    ensures
        r@ == path_join(app_data_dir@, "pandoc"@),
{
    join(app_data_dir, "pandoc")
}

/// The file name of the engine's executable: `pandoc.exe` on Windows,
/// `pandoc` elsewhere.
pub open spec fn pandoc_executable(windows: bool) -> Seq<char> {
    if windows {
        "pandoc.exe"@
    } else {
        "pandoc"@
    }
}

/// The file name of the filter's executable: `pandoc-crossref.exe` on
/// Windows, `pandoc-crossref` elsewhere.
pub open spec fn crossref_executable(windows: bool) -> Seq<char> {
    if windows {
        "pandoc-crossref.exe"@
    } else {
        "pandoc-crossref"@
    }
}

/// The path of the engine's executable in `install_dir`.
pub fn get_pandoc_executable_path(install_dir: &str, windows: bool) -> (r: String)
    ensures
        r@ == path_join(install_dir@, pandoc_executable(windows)),
{
    if windows {
        join(install_dir, "pandoc.exe")
    } else {
        join(install_dir, "pandoc")
    }
}

/// The path of the filter's executable in `install_dir`.
pub fn get_crossref_executable_path(install_dir: &str, windows: bool) -> (r: String)
    ensures
        r@ == path_join(install_dir@, crossref_executable(windows)),
{
    if windows {
        join(install_dir, "pandoc-crossref.exe")
    } else {
        join(install_dir, "pandoc-crossref")
    }
}

} // verus!
