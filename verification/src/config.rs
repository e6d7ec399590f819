//! Configuration read at startup: where the store is.
//!
//! A location that begins with `s3://` names a bucket of an object store and
//! a key prefix within it; any other location names a directory of the local
//! file system.

use vstd::prelude::*;
use vstd::string::StrSliceExecFns;
use vstd::string::StringExecFns;

verus! {

/// Why the configuration was refused. Such an error ends startup.
#[derive(Debug)]
pub enum ConfigError {
    /// The store location is not a well-formed URL; the parser's own error
    /// says why.
    InvalidUrl(url::ParseError),
    /// The store location is a URL but names no bucket of an object store.
    InvalidS3Url,
    /// The signing key is not usable key material.
    InvalidKey,
    /// The operating system gave no random bytes for a new signing key.
    NoRandomness,
}

/// The kind of a configuration error.
pub enum ConfigFault {
    InvalidUrl,
    InvalidS3Url,
    InvalidKey,
    NoRandomness,
}

impl ConfigError {
    /// The kind of this error.
    pub open spec fn fault(&self) -> ConfigFault {
        match self {
            ConfigError::InvalidUrl(_) => ConfigFault::InvalidUrl,
            ConfigError::InvalidS3Url => ConfigFault::InvalidS3Url,
            ConfigError::InvalidKey => ConfigFault::InvalidKey,
            ConfigError::NoRandomness => ConfigFault::NoRandomness,
        }
    }
}

/// Where the store is.
#[derive(Debug)]
pub enum StoreLocation {
    /// A bucket of an S3-compatible object store, and the prefix of the keys
    /// used in it.
    S3 { bucket: String, prefix: String },
    /// A directory of the local file system.
    FileSystem { path: String },
}

/// A store location as text.
pub enum LocationView {
    S3 { bucket: Seq<char>, prefix: Seq<char> },
    FileSystem { path: Seq<char> },
}

impl View for StoreLocation {
    type V = LocationView;

    open spec fn view(&self) -> LocationView {
        match self {
            StoreLocation::S3 { bucket, prefix } => LocationView::S3 {
                bucket: bucket@,
                prefix: prefix@,
            },
            StoreLocation::FileSystem { path } => LocationView::FileSystem { path: path@ },
        }
    }
}

/// The parts of a URL that locate a store.
pub struct UrlParts {
    pub scheme: String,
    pub host: Option<String>,
    pub path: String,
}

/// The parts of a URL as text: scheme, host and path.
pub struct UrlView {
    pub scheme: Seq<char>,
    pub host: Option<Seq<char>>,
    pub path: Seq<char>,
}

impl View for UrlParts {
    type V = UrlView;

    open spec fn view(&self) -> UrlView {
        UrlView {
            scheme: self.scheme@,
            host: match self.host {
                Some(h) => Some(h@),
                None => None,
            },
            path: self.path@,
        }
    }
}

#[verifier::external_type_specification]
#[verifier::external_body]
pub struct ExUrlParseError(url::ParseError);

/// What `url::Url::parse` makes of `input`: the scheme, host and path of
/// the URL, or nothing where `input` is not a URL.
pub uninterp spec fn parsed_url(input: Seq<char>) -> Option<UrlView>;

/// Calls `url::Url::parse` and reads the scheme, the host and the path off
/// the result with `Url::scheme`, `Url::host_str` and `Url::path`. The
/// parts are a function of the input alone, which `parsed_url` names;
/// nothing else is claimed of them.
#[verifier::external_body]
fn parse_url(input: &str) -> (r: Result<UrlParts, url::ParseError>)
    ensures
        match r {
            Ok(parts) => parsed_url(input@) == Some(parts@),
            Err(_) => parsed_url(input@) is None,
        },
{
    let url = url::Url::parse(input)?;
    Ok(
        UrlParts {
            scheme: url.scheme().to_owned(),
            host: url.host_str().map(str::to_owned),
            path: url.path().to_owned(),
        },
    )
}

/// `text` without its leading slashes.
pub open spec fn trim_slashes(text: Seq<char>) -> Seq<char>
    decreases text.len(),
{
    if text.len() > 0 && text[0] == '/' {
        trim_slashes(text.drop_first())
    } else {
        text
    }
}

/// The scheme of object store locations.
pub open spec fn s3_scheme() -> Seq<char> {
    seq!['s', '3']
}

/// What every object store location begins with.
pub open spec fn s3_marker() -> Seq<char> {
    seq!['s', '3', ':', '/', '/']
}

/// `text` begins with `prefix`.
pub open spec fn text_starts_with(text: Seq<char>, prefix: Seq<char>) -> bool {
    prefix.len() <= text.len() && text.subrange(0, prefix.len() as int) == prefix
}

/// The object store location that the parts of a URL name: the host is the
/// bucket, and the path without its leading slashes is the prefix.
pub open spec fn s3_location_of(url: UrlView) -> Result<LocationView, ConfigFault> {
    if url.scheme != s3_scheme() || url.host is None {
        Err(ConfigFault::InvalidS3Url)
    } else {
        Ok(LocationView::S3 { bucket: url.host->0, prefix: trim_slashes(url.path) })
    }
}

/// The store location that `path` names, given what it parses to as a URL.
pub open spec fn location_of(path: Seq<char>, url: Option<UrlView>) -> Result<
    LocationView,
    ConfigFault,
> {
    if text_starts_with(path, s3_marker()) {
        match url {
            None => Err(ConfigFault::InvalidUrl),
            Some(url) => s3_location_of(url),
        }
    } else {
        Ok(LocationView::FileSystem { path })
    }
}

/// The view of a result that holds a location.
pub open spec fn location_view(r: Result<StoreLocation, ConfigError>) -> Result<
    LocationView,
    ConfigFault,
> {
    match r {
        Ok(location) => Ok(location@),
        Err(e) => Err(e.fault()),
    }
}

/// Whether `text` begins with `prefix`.
pub fn begins_with(text: &str, prefix: &str) -> (r: bool)
    ensures
        r == text_starts_with(text@, prefix@),
{
    let n: usize = prefix.unicode_len();
    if text.unicode_len() < n {
        return false;
    }
    let mut i: usize = 0;
    while i < n
        invariant
            i <= n,
            n == prefix@.len(),
            n <= text@.len(),
            text@.subrange(0, i as int) == prefix@.subrange(0, i as int),
        decreases n - i,
    {
        if text.get_char(i) != prefix.get_char(i) {
            assert(text@.subrange(0, n as int)[i as int] != prefix@[i as int]);
            return false;
        }
        assert(text@.subrange(0, i + 1) =~= text@.subrange(0, i as int).push(text@[i as int]));
        assert(prefix@.subrange(0, i + 1) =~= prefix@.subrange(0, i as int).push(
            prefix@[i as int],
        ));
        i = i + 1;
    }
    assert(prefix@ =~= prefix@.subrange(0, n as int));
    true
}

/// `text` without its leading slashes.
pub fn without_leading_slashes(text: &str) -> (r: String)
    ensures
        r@ == trim_slashes(text@),
{
    let n: usize = text.unicode_len();
    let mut i: usize = 0;
    assert(text@.subrange(0, n as int) =~= text@);
    while i < n && text.get_char(i) == '/'
        invariant
            i <= n,
            n == text@.len(),
            trim_slashes(text@) == trim_slashes(text@.subrange(i as int, n as int)),
        decreases n - i,
    {
        proof {
            let rest = text@.subrange(i as int, n as int);
            assert(rest[0] == '/');
            assert(rest.drop_first() =~= text@.subrange(i + 1, n as int));
        }
        i = i + 1;
    }
    String::from_str(text.substring_char(i, n))
}

/// The object store location that the parts of a URL name.
pub fn s3_location(url: &UrlParts) -> (r: Result<StoreLocation, ConfigError>)
    ensures
        location_view(r) == s3_location_of(url@),
{
    proof {
        reveal_strlit("s3");
        assert("s3"@ =~= s3_scheme());
    }
    let scheme_ok = begins_with(url.scheme.as_str(), "s3") && begins_with("s3", url.scheme.as_str());
    proof {
        if scheme_ok {
            assert(url.scheme@ =~= url.scheme@.subrange(0, 2));
        }
        if url.scheme@ == s3_scheme() {
            assert(url.scheme@.subrange(0, 2) =~= url.scheme@);
        }
    }
    if !scheme_ok {
        return Err(ConfigError::InvalidS3Url);
    }
    match &url.host {
        None => Err(ConfigError::InvalidS3Url),
        Some(host) => Ok(
            StoreLocation::S3 {
                bucket: String::from_str(host.as_str()),
                prefix: without_leading_slashes(url.path.as_str()),
            },
        ),
    }
}

/// The store location that `store_path` names.
///
/// A path that begins with `s3://` must be a URL with the scheme `s3` and a
/// host; every other path is taken as a directory, as it stands.
pub fn parse_store_location(store_path: &str) -> (r: Result<StoreLocation, ConfigError>)
    ensures
        location_view(r) == location_of(store_path@, parsed_url(store_path@)),
{
    proof {
        reveal_strlit("s3://");
        assert("s3://"@ =~= s3_marker());
    }
    if begins_with(store_path, "s3://") {
        match parse_url(store_path) {
            Err(cause) => Err(ConfigError::InvalidUrl(cause)),
            Ok(url) => s3_location(&url),
        }
    } else {
        Ok(StoreLocation::FileSystem { path: String::from_str(store_path) })
    }
}

} // verus!
