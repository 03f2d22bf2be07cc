//! Where content comes from: a pack that is built in, a directory, or a
//! directory on top of the pack.
use vstd::prelude::*;

verus! {

/// Where content comes from.
#[derive(Clone, Debug, PartialEq, Eq)]
pub enum ContentSource {
    /// The pack that is built in.
    Embedded,
    /// A directory that has everything.
    Dir(String),
    /// A directory that has what differs from the pack.
    Overlay(String),
}

impl Default for ContentSource {
    fn default() -> (r: Self)
        ensures
            r is Embedded,
    {
        ContentSource::Embedded
    }
}

/// Why a content file cannot be had.
#[derive(Debug)]
pub enum ContentError {
    /// There is none of that name.
    NotFound(String),
    /// It is there and cannot be read.
    Io { path: String, message: String },
    /// It is there and is no text.
    Utf8(String),
}

/// What looking for a file in the pack gave.
#[derive(Debug)]
pub enum PackRead {
    Text(String),
    Missing,
    NotText,
}

/// What looking for a file on disk gave.
#[derive(Debug)]
pub enum DiskRead {
    Text(String),
    Missing,
    /// The full path, and what went wrong.
    Failed { path: String, message: String },
}

/// What a file of the pack gives.
pub open spec fn pack_result(logical: Seq<char>, pack: PackRead, r: Result<String, ContentError>) -> bool {
    match pack {
        PackRead::Text(t) => r matches Ok(s) && s@ == t@,
        PackRead::Missing => r matches Err(ContentError::NotFound(p)) && p@ == logical,
        PackRead::NotText => r matches Err(ContentError::Utf8(p)) && p@ == logical,
    }
}

/// What a source gives: the pack's file; the directory's, which has to be
/// there; or the directory's where it is there, and else the pack's.
pub open spec fn source_result(
    source: ContentSource,
    logical: Seq<char>,
    disk: DiskRead,
    pack: PackRead,
    r: Result<String, ContentError>,
) -> bool {
    match source {
        ContentSource::Embedded => pack_result(logical, pack, r),
        ContentSource::Dir(_) => match disk {
            DiskRead::Text(t) => r matches Ok(s) && s@ == t@,
            DiskRead::Missing => r matches Err(ContentError::NotFound(p)) && p@ == logical,
            DiskRead::Failed { path, message } => r matches Err(
                ContentError::Io { path: p, message: m },
            ) && p@ == path@ && m@ == message@,
        },
        ContentSource::Overlay(_) => match disk {
            DiskRead::Text(t) => r matches Ok(s) && s@ == t@,
            DiskRead::Missing => pack_result(logical, pack, r),
            DiskRead::Failed { path, message } => r matches Err(
                ContentError::Io { path: p, message: m },
            ) && p@ == path@ && m@ == message@,
        },
    }
}

/// What a file of the pack gives.
fn from_pack(logical: &str, pack: PackRead) -> (r: Result<String, ContentError>)
    ensures
        pack_result(logical@, pack, r),
{
    match pack {
        PackRead::Text(t) => Ok(t),
        PackRead::Missing => Err(ContentError::NotFound(logical.to_owned())),
        PackRead::NotText => Err(ContentError::Utf8(logical.to_owned())),
    }
}

impl ContentSource {
    /// True iff the source has to be looked for on disk.
    pub fn on_disk(&self) -> (r: bool)
        ensures
            r == !(self is Embedded),
    {
        match self {
            ContentSource::Embedded => false,
            _ => true,
        }
    }

    /// The text of a file, from what looking for it gave.
    pub fn read_str(&self, logical: &str, disk: DiskRead, pack: PackRead) -> (r: Result<
        String,
        ContentError,
    >)
        ensures
            source_result(*self, logical@, disk, pack, r),
    {
        match self {
            ContentSource::Embedded => from_pack(logical, pack),
            ContentSource::Dir(_) => match disk {
                DiskRead::Text(t) => Ok(t),
                DiskRead::Missing => Err(ContentError::NotFound(logical.to_owned())),
                DiskRead::Failed { path, message } => Err(ContentError::Io { path, message }),
            },
            ContentSource::Overlay(_) => match disk {
                DiskRead::Text(t) => Ok(t),
                DiskRead::Missing => from_pack(logical, pack),
                DiskRead::Failed { path, message } => Err(ContentError::Io { path, message }),
            },
        }
    }

    /// The text of a file, or nothing where there is none of that name.
    pub fn read_str_opt(&self, logical: &str, disk: DiskRead, pack: PackRead) -> (r: Result<
        Option<String>,
        ContentError,
    >)
        ensures
            exists|full: Result<String, ContentError>| #[trigger]
                source_result(*self, logical@, disk, pack, full) && match full {
                    Ok(s) => r == Ok::<Option<String>, ContentError>(Some(s)),
                    Err(ContentError::NotFound(_)) => r == Ok::<Option<String>, ContentError>(None),
                    Err(e) => r == Err::<Option<String>, ContentError>(e),
                },
    {
        let full = self.read_str(logical, disk, pack);
        let ghost given = full;
        assert(source_result(*self, logical@, disk, pack, given));
        match full {
            Ok(s) => Ok(Some(s)),
            Err(e) => match e {
                ContentError::NotFound(_) => Ok(None),
                other => Err(other),
            },
        }
    }
}

impl ContentError {
    /// The error in words.
    pub fn message(&self) -> (r: String)
        ensures
            r@ == (match *self {
                ContentError::NotFound(p) => "content file not found: "@ + p@,
                ContentError::Io { path, message } => "content read failed for "@ + path@ + ": "@
                    + message@,
                ContentError::Utf8(p) => "content file "@ + p@ + " is not valid UTF-8"@,
            }),
    {
        match self {
            ContentError::NotFound(p) => {
                let mut s = "content file not found: ".to_owned();
                s.append(p.as_str());
                s
            },
            ContentError::Io { path, message } => {
                let mut s = "content read failed for ".to_owned();
                s.append(path.as_str());
                s.append(": ");
                s.append(message.as_str());
                s
            },
            ContentError::Utf8(p) => {
                let mut s = "content file ".to_owned();
                s.append(p.as_str());
                s.append(" is not valid UTF-8");
                s
            },
        }
    }
}

/// A file that is in the directory hides the pack's, and one that is not lets
/// the pack's through.
pub proof fn law_overlay_falls_back(
    root: String,
    logical: Seq<char>,
    disk: DiskRead,
    pack: PackRead,
    r: Result<String, ContentError>,
)
    requires
        source_result(ContentSource::Overlay(root), logical, disk, pack, r),
    ensures
        disk matches DiskRead::Text(t) ==> (r matches Ok(s) && s@ == t@),
        disk is Missing ==> source_result(ContentSource::Embedded, logical, disk, pack, r),
{
}

/// The pack answers where it alone is asked, a directory where it alone is; a
/// file that the directory has but that cannot be read is told, not passed
/// over, and a file that is nowhere is missed by its name.
pub proof fn law_sources_answer(
    root: String,
    logical: Seq<char>,
    disk: DiskRead,
    pack: PackRead,
    r: Result<String, ContentError>,
)
    ensures
        source_result(ContentSource::Embedded, logical, disk, pack, r) ==> match pack {
            PackRead::Text(t) => r matches Ok(s) && s@ == t@,
            PackRead::Missing => r matches Err(ContentError::NotFound(p)) && p@ == logical,
            PackRead::NotText => r matches Err(ContentError::Utf8(p)) && p@ == logical,
        },
        source_result(ContentSource::Dir(root), logical, disk, pack, r) && disk is Missing ==> (
        r matches Err(ContentError::NotFound(p)) && p@ == logical),
        source_result(ContentSource::Dir(root), logical, disk, pack, r) ==> (
        disk matches DiskRead::Text(t) ==> (r matches Ok(s) && s@ == t@)),
        source_result(ContentSource::Dir(root), logical, disk, pack, r) || source_result(
            ContentSource::Overlay(root),
            logical,
            disk,
            pack,
            r,
        ) ==> (disk matches DiskRead::Failed { path, message } ==> (r matches Err(
            ContentError::Io { path: p, message: m },
        ) && p@ == path@ && m@ == message@)),
{
}

} // verus!
