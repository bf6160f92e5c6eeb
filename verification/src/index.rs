//! Registry-side checks: manifest checksums (SHA-256, lowercase hex), the
//! supported index version, manifest/entry agreement, and resolving a
//! manifest URL against the index URL.
use vstd::prelude::*;
use vstd::string::StringSliceAdditionalSpecFns;

use crate::manifest::{IndexEntry, IndexFile, RecipeManifest};
use crate::text::{chars_of, eq_exec, starts_with, starts_with_exec, string_of};

verus! {

/// What `Sha256::digest` returns for the given bytes.
pub uninterp spec fn sha256_digest(data: Seq<u8>) -> Seq<u8>;

/// `sha2::Sha256::digest`: the 32-byte SHA-256 digest of `data`, named
/// `sha256_digest` (the algorithm itself is not stated).
#[verifier::external_body]
fn sha256_bytes(data: &[u8]) -> (out: Vec<u8>)
    ensures
        out@ == sha256_digest(data@),
        out@.len() == 32,
{
    <sha2::Sha256 as sha2::Digest>::digest(data).to_vec()
}

pub open spec fn hex_digit(n: int) -> char {
    if n < 10 {
        ((n + 48) as u8) as char
    } else {
        ((n - 10 + 97) as u8) as char
    }
}

/// Two lowercase hex digits per byte (`{:02x}`).
pub open spec fn hex_lower(bytes: Seq<u8>) -> Seq<char>
    decreases bytes.len(),
{
    if bytes.len() == 0 {
        seq![]
    } else {
        hex_lower(bytes.drop_last()) + seq![
            hex_digit(bytes.last() as int / 16),
            hex_digit(bytes.last() as int % 16),
        ]
    }
}

pub(crate) fn hex_digit_exec(n: u8) -> (c: char)
    requires
        n < 16,
    ensures
        c == hex_digit(n as int),
{
    if n < 10 {
        (n + 48) as char
    } else {
        (n - 10 + 97) as char
    }
}

/// The lowercase hex SHA-256 of `bytes`.
pub open spec fn sha256_hex_spec(bytes: Seq<u8>) -> Seq<char> {
    hex_lower(sha256_digest(bytes))
}

pub fn sha256_hex(bytes: &[u8]) -> (out: String)
    ensures
        out@ == sha256_hex_spec(bytes@),
        out@.len() == 64,
{
    let digest = sha256_bytes(bytes);
    let mut v: Vec<char> = Vec::new();
    let mut i: usize = 0;
    while i < digest.len()
        invariant
            i <= digest@.len(),
            v@ == hex_lower(digest@.subrange(0, i as int)),
            v@.len() == 2 * i,
        decreases digest.len() - i,
    {
        let b = digest[i];
        assert(digest@.subrange(0, i + 1).drop_last() =~= digest@.subrange(0, i as int));
        v.push(hex_digit_exec(b / 16));
        v.push(hex_digit_exec(b % 16));
        i += 1;
    }
    assert(digest@.subrange(0, digest.len() as int) =~= digest@);
    string_of(&v)
}

/// How a manifest passed its checksum step.
#[derive(Debug, Clone, Copy, PartialEq, Eq, Structural)]
pub enum ChecksumOutcome {
    /// The index's `sha256` matches the manifest's bytes.
    Verified,
    /// The index has no `sha256` for the entry; nothing was checked.
    Unchecked,
}

/// `manifest for '<name>' failed checksum verification` (expected, actual, source).
#[derive(Debug)]
pub struct ChecksumError {
    pub name: String,
    pub expected: String,
    pub actual: String,
    pub source: String,
}

/// Compare a fetched manifest's bytes against the index's `sha256`, when
/// the index has one.
pub fn verify_checksum(entry: &IndexEntry, raw: &[u8], source: &str) -> (r: Result<ChecksumOutcome, ChecksumError>)
    ensures
        match entry.sha256 {
            None => r == Ok::<ChecksumOutcome, ChecksumError>(ChecksumOutcome::Unchecked),
            Some(expected) => if expected@ == sha256_hex_spec(raw@) {
                r == Ok::<ChecksumOutcome, ChecksumError>(ChecksumOutcome::Verified)
            } else {
                (r matches Err(e) && e.name@ == entry.name@ && e.expected@ == expected@ && e.actual@
                    == sha256_hex_spec(raw@) && e.source@ == source@)
            },
        },
{
    match &entry.sha256 {
        None => Ok(ChecksumOutcome::Unchecked),
        Some(expected) => {
            let actual = sha256_hex(raw);
            if eq_exec(&chars_of(actual.as_str()), &chars_of(expected.as_str())) {
                Ok(ChecksumOutcome::Verified)
            } else {
                Err(ChecksumError {
                    name: string_of(&chars_of(entry.name.as_str())),
                    expected: string_of(&chars_of(expected.as_str())),
                    actual,
                    source: string_of(&chars_of(source)),
                })
            }
        },
    }
}

/// Does a cached manifest body still hash to the name it is stored under?
pub fn manifest_matches(body: &str, expected_sha256: &str) -> (b: bool)
    ensures
        b == (sha256_hex_spec(body.spec_bytes()) == expected_sha256@),
{
    let actual = sha256_hex(body.as_bytes());
    eq_exec(&chars_of(actual.as_str()), &chars_of(expected_sha256))
}

/// The cache file name of an index fetched from `url`: the SHA-256 of the
/// URL, `.json`.
pub fn index_cache_name(url: &str) -> (out: String)
    ensures
        out@ == sha256_hex_spec(url.spec_bytes()) + ".json"@,
{
    let mut v = chars_of(sha256_hex(url.as_bytes()).as_str());
    crate::text::extend(&mut v, &chars_of(".json"));
    string_of(&v)
}

/// `unsupported index version <v> (this jtr supports v1)`
pub fn check_index_version(index: IndexFile) -> (r: Result<IndexFile, u32>)
    ensures
        index.version == 1 ==> r == Ok::<IndexFile, u32>(index),
        index.version != 1 ==> r == Err::<IndexFile, u32>(index.version),
{
    if index.version != 1 {
        return Err(index.version);
    }
    Ok(index)
}

/// `manifest name '<manifest>' does not match index entry '<entry>'`
#[derive(Debug)]
pub struct NameMismatch {
    pub manifest: String,
    pub entry: String,
}

/// A manifest must carry the name its index entry lists.
pub fn check_manifest_name(entry: &IndexEntry, manifest: RecipeManifest) -> (r: Result<RecipeManifest, NameMismatch>)
    ensures
        manifest.name@ == entry.name@ ==> r == Ok::<RecipeManifest, NameMismatch>(manifest),
        manifest.name@ != entry.name@ ==> (r matches Err(e) && e.manifest@ == manifest.name@ && e.entry@
            == entry.name@),
{
    if eq_exec(&chars_of(manifest.name.as_str()), &chars_of(entry.name.as_str())) {
        Ok(manifest)
    } else {
        Err(NameMismatch {
            manifest: string_of(&chars_of(manifest.name.as_str())),
            entry: string_of(&chars_of(entry.name.as_str())),
        })
    }
}

/// Whether `url::Url::parse` accepts a string.
pub uninterp spec fn url_parses(s: Seq<char>) -> bool;

/// What `Url::join` gives for a base URL and a relative reference (`None`
/// when it fails), serialized.
pub uninterp spec fn url_joined(base: Seq<char>, relative: Seq<char>) -> Option<Seq<char>>;

/// `url::Url::parse`: whether `s` parses as an absolute URL (named, not stated).
#[verifier::external_body]
fn parses_as_url(s: &str) -> (b: bool)
    ensures
        b == url_parses(s@),
{
    url::Url::parse(s).is_ok()
}

/// `url::Url::join` on the parsed base, serialized with `to_string`; the
/// result is named `url_joined`.
#[verifier::external_body]
fn join_url(base: &str, relative: &str) -> (r: Option<String>)
    requires
        url_parses(base@),
    ensures
        match r {
            Some(j) => url_joined(base@, relative@) == Some(j@),
            None => url_joined(base@, relative@).is_none(),
        },
{
    match url::Url::parse(base) {
        Ok(b) => match b.join(relative) {
            Ok(j) => Some(j.to_string()),
            Err(_) => None,
        },
        Err(_) => None,
    }
}

/// What `Path::parent` gives for a path string (lossily converted back).
pub uninterp spec fn path_parent(p: Seq<char>) -> Option<Seq<char>>;

/// What `Path::join` gives for a directory and a relative path.
pub uninterp spec fn path_joined(dir: Seq<char>, rel: Seq<char>) -> Seq<char>;

/// `std::path::Path::parent`, named `path_parent`.
#[verifier::external_body]
fn parent_of(p: &str) -> (r: Option<String>)
    ensures
        match r {
            Some(d) => path_parent(p@) == Some(d@),
            None => path_parent(p@).is_none(),
        },
{
    std::path::Path::new(p).parent().map(|d| d.to_string_lossy().into_owned())
}

/// `std::path::Path::join`, named `path_joined`.
#[verifier::external_body]
fn join_path(dir: &str, rel: &str) -> (out: String)
    ensures
        out@ == path_joined(dir@, rel@),
{
    std::path::Path::new(dir).join(rel).to_string_lossy().into_owned()
}

#[derive(Debug, PartialEq, Eq)]
pub enum ResolveUrlError {
    /// `could not resolve '<relative>' against '<base>'`
    Join,
    /// `cannot derive parent of index path '<base>'`
    NoParent,
}

/// Absolute (`http://`, `https://`, `file://`) URLs are kept; otherwise the
/// reference is joined to the index URL, or, when the index is a local path,
/// to the index file's directory.
pub open spec fn resolve_relative_spec(base: Seq<char>, relative: Seq<char>) -> Result<Seq<char>, ResolveUrlError> {
    if starts_with(relative, "http://"@) || starts_with(relative, "https://"@) || starts_with(relative, "file://"@) {
        Ok(relative)
    } else if url_parses(base) {
        match url_joined(base, relative) {
            Some(j) => Ok(j),
            None => Err(ResolveUrlError::Join),
        }
    } else {
        match path_parent(base) {
            Some(d) => Ok(path_joined(d, relative)),
            None => Err(ResolveUrlError::NoParent),
        }
    }
}

/// Resolve a possibly-relative manifest URL against the index URL.
pub fn resolve_relative(base: &str, relative: &str) -> (r: Result<String, ResolveUrlError>)
    ensures
        match r {
            Ok(s) => resolve_relative_spec(base@, relative@) == Ok::<Seq<char>, ResolveUrlError>(s@),
            Err(e) => resolve_relative_spec(base@, relative@) == Err::<Seq<char>, ResolveUrlError>(e),
        },
{
    let rel = chars_of(relative);
    if starts_with_exec(&rel, &chars_of("http://")) || starts_with_exec(&rel, &chars_of("https://"))
        || starts_with_exec(&rel, &chars_of("file://")) {
        return Ok(string_of(&rel));
    }
    if parses_as_url(base) {
        return match join_url(base, relative) {
            Some(j) => Ok(j),
            None => Err(ResolveUrlError::Join),
        };
    }
    match parent_of(base) {
        Some(d) => Ok(join_path(d.as_str(), relative)),
        None => Err(ResolveUrlError::NoParent),
    }
}

} // verus!
