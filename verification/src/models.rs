//! Records of the asset library and the processing categories.

use vstd::prelude::*;

verus! {

/// An indexed asset: a file on disk, or an entry inside a (possibly nested) ZIP.
#[derive(Debug, Clone)]
pub struct Asset {
    pub id: i64,
    pub filename: String,
    pub folder_id: i64,
    pub rel_path: String,
    pub zip_file: Option<String>,
    pub zip_entry: Option<String>,
    pub zip_compression: Option<String>,
    pub asset_type: String,
    pub format: String,
    pub file_size: i64,
    pub fs_modified_at: Option<i64>,
    pub created_at: i64,
    pub modified_at: i64,
    /// Path of the source folder; filled from the folder table, not stored with the asset.
    pub folder_path: String,
}

/// A copy of an optional text.
pub fn copy_text(t: &Option<String>) -> (r: Option<String>)
    ensures
        r == *t,
{
    match t {
        Some(s) => Some(s.clone()),
        None => None,
    }
}

impl Asset {
    /// A field-by-field copy of the asset.
    pub fn copy(&self) -> (r: Asset)
        ensures
            r == *self,
    {
        Asset {
            id: self.id,
            filename: self.filename.clone(),
            folder_id: self.folder_id,
            rel_path: self.rel_path.clone(),
            zip_file: copy_text(&self.zip_file),
            zip_entry: copy_text(&self.zip_entry),
            zip_compression: copy_text(&self.zip_compression),
            asset_type: self.asset_type.clone(),
            format: self.format.clone(),
            file_size: self.file_size,
            fs_modified_at: self.fs_modified_at,
            created_at: self.created_at,
            modified_at: self.modified_at,
            folder_path: self.folder_path.clone(),
        }
    }
}

/// A folder the user added to the library.
#[derive(Debug, Clone)]
pub struct SourceFolder {
    pub id: i64,
    pub path: String,
    pub label: String,
    pub added_at: i64,
    pub last_scanned_at: Option<i64>,
    pub asset_count: i64,
    pub status: String,
    /// JSON-encoded list of warnings from the last scan or rescan, if any.
    pub scan_warnings: Option<String>,
}

/// Dimensions and thumbnail of an image asset.
#[derive(Debug, Clone)]
pub struct ImageMetadata {
    pub asset_id: i64,
    pub width: i32,
    pub height: i32,
    pub thumbnail_data: Vec<u8>,
    pub processed_at: i64,
}

/// Duration and format of an audio asset.
#[derive(Debug, Clone)]
pub struct AudioMetadata {
    pub asset_id: i64,
    pub duration_ms: i64,
    pub sample_rate: Option<i32>,
    pub channels: Option<i32>,
    pub processed_at: i64,
}

/// The two kinds of media the library indexes.
#[derive(Debug, Clone, Copy, PartialEq, Eq, Structural)]
pub enum AssetType {
    Image,
    Audio,
}

/// The name under which an asset type is stored.
pub open spec fn asset_type_name(t: AssetType) -> Seq<char> {
    match t {
        AssetType::Image => seq!['i', 'm', 'a', 'g', 'e'],
        AssetType::Audio => seq!['a', 'u', 'd', 'i', 'o'],
    }
}

impl AssetType {
    pub fn as_str(&self) -> (r: &'static str)
        ensures
            r@ == asset_type_name(*self),
    {
        match self {
            AssetType::Image => {
                proof {
                    reveal_strlit("image");
                }
                "image"
            },
            AssetType::Audio => {
                proof {
                    reveal_strlit("audio");
                }
                "audio"
            },
        }
    }
}

/// A processing pass over the assets.
#[derive(Debug, Clone, Copy, PartialEq, Eq, Hash, Structural)]
pub enum ProcessingCategory {
    Image,
    Audio,
    Clap,
}

/// The name of a processing category, as stored and as sent by the frontend.
pub open spec fn category_name(c: ProcessingCategory) -> Seq<char> {
    match c {
        ProcessingCategory::Image => seq!['i', 'm', 'a', 'g', 'e'],
        ProcessingCategory::Audio => seq!['a', 'u', 'd', 'i', 'o'],
        ProcessingCategory::Clap => seq!['c', 'l', 'a', 'p'],
    }
}

/// ASCII lowercase of one character.
pub open spec fn ascii_lower_char(c: char) -> char {
    if 'A' <= c && c <= 'Z' {
        ((c as u32) + 32) as char
    } else {
        c
    }
}

/// `s` equals `name` when ASCII letters are compared without case.
/// (For the ASCII names used here this is the same as comparing the lowercased `s`.)
pub open spec fn matches_ignoring_case(s: Seq<char>, name: Seq<char>) -> bool {
    &&& s.len() == name.len()
    &&& forall|i: int| 0 <= i < s.len() ==> #[trigger] ascii_lower_char(s[i]) == name[i]
}

/// The category that `s` names, ignoring case.
pub open spec fn category_named(s: Seq<char>) -> Option<ProcessingCategory> {
    if matches_ignoring_case(s, category_name(ProcessingCategory::Image)) {
        Some(ProcessingCategory::Image)
    } else if matches_ignoring_case(s, category_name(ProcessingCategory::Audio)) {
        Some(ProcessingCategory::Audio)
    } else if matches_ignoring_case(s, category_name(ProcessingCategory::Clap)) {
        Some(ProcessingCategory::Clap)
    } else {
        None
    }
}

/// The message of the error for an unknown category name.
pub open spec fn invalid_category_message(s: Seq<char>) -> Seq<char> {
    seq!['I', 'n', 'v', 'a', 'l', 'i', 'd', ' ', 'p', 'r', 'o', 'c', 'e', 's', 's', 'i', 'n', 'g', ' ',
        'c', 'a', 't', 'e', 'g', 'o', 'r', 'y', ':', ' '] + s
}

pub(crate) fn lower_char(c: char) -> (r: char)
    ensures
        r == ascii_lower_char(c),
{
    if 'A' <= c && c <= 'Z' {
        let u = (c as u32) + 32;
        proof {
            assert(('a' as u32) <= u <= ('z' as u32));
        }
        char_from_ascii_lower(u)
    } else {
        c
    }
}

fn char_from_ascii_lower(u: u32) -> (r: char)
    requires
        97 <= u <= 122,
    ensures
        r as u32 == u,
        r == u as char,
{
    let b: u8 = u as u8;
    b as char
}

pub(crate) fn matches_name(s: &Vec<char>, name: &[char]) -> (r: bool)
    ensures
        r == matches_ignoring_case(s@, name@),
{
    if s.len() != name.len() {
        return false;
    }
    let mut i: usize = 0;
    while i < s.len()
        invariant
            s@.len() == name@.len(),
            i <= s@.len(),
            forall|j: int| 0 <= j < i ==> #[trigger] ascii_lower_char(s@[j]) == name@[j],
        decreases s@.len() - i,
    {
        if lower_char(s[i]) != name[i] {
            return false;
        }
        i = i + 1;
    }
    true
}

impl ProcessingCategory {
    pub fn as_str(&self) -> (r: &'static str)
        ensures
            r@ == category_name(*self),
    {
        match self {
            ProcessingCategory::Image => {
                proof {
                    reveal_strlit("image");
                }
                "image"
            },
            ProcessingCategory::Audio => {
                proof {
                    reveal_strlit("audio");
                }
                "audio"
            },
            ProcessingCategory::Clap => {
                proof {
                    reveal_strlit("clap");
                }
                "clap"
            },
        }
    }

    /// Parses a category name, ignoring case.
    pub fn from_str(s: &str) -> (r: Result<Self, String>)
        ensures
            match category_named(s@) {
                Some(c) => r == Ok::<ProcessingCategory, String>(c),
                None => r matches Err(e) && e@ == invalid_category_message(s@),
            },
    {
        let chars = crate::text::chars_of(s);
        let image = ['i', 'm', 'a', 'g', 'e'];
        let audio = ['a', 'u', 'd', 'i', 'o'];
        let clap = ['c', 'l', 'a', 'p'];
        proof {
            assert(image@ == category_name(ProcessingCategory::Image));
            assert(audio@ == category_name(ProcessingCategory::Audio));
            assert(clap@ == category_name(ProcessingCategory::Clap));
        }
        if matches_name(&chars, image.as_slice()) {
            Ok(ProcessingCategory::Image)
        } else if matches_name(&chars, audio.as_slice()) {
            Ok(ProcessingCategory::Audio)
        } else if matches_name(&chars, clap.as_slice()) {
            Ok(ProcessingCategory::Clap)
        } else {
            let prefix = "Invalid processing category: ";
            proof {
                reveal_strlit("Invalid processing category: ");
            }
            let msg = String::from_str(prefix).concat(s);
            Err(msg)
        }
    }

    /// The asset type a category processes; CLAP embedding is a step over audio, not a type.
    pub fn to_asset_type(&self) -> (r: Option<AssetType>)
        ensures
            r == match *self {
                ProcessingCategory::Image => Some(AssetType::Image),
                ProcessingCategory::Audio => Some(AssetType::Audio),
                ProcessingCategory::Clap => None::<AssetType>,
            },
    {
        match self {
            ProcessingCategory::Image => Some(AssetType::Image),
            ProcessingCategory::Audio => Some(AssetType::Audio),
            ProcessingCategory::Clap => None,
        }
    }
}

/// A processing failure as stored.
#[derive(Debug, Clone)]
pub struct ProcessingError {
    pub id: i64,
    pub asset_id: i64,
    pub category: String,
    pub error_message: String,
    pub occurred_at: i64,
    pub retry_count: i32,
    pub resolved_at: Option<i64>,
}

/// A processing failure together with where its asset lives.
#[derive(Debug, Clone)]
pub struct ProcessingErrorDetail {
    pub id: i64,
    pub asset_id: i64,
    pub filename: String,
    pub rel_path: String,
    pub zip_file: Option<String>,
    pub zip_entry: Option<String>,
    pub folder_path: String,
    pub error_message: String,
    pub occurred_at: i64,
    pub retry_count: i32,
}

/// Parsing a category's name gives the category back.
pub proof fn law_category_name_roundtrip(c: ProcessingCategory)
    ensures
        category_named(category_name(c)) == Some(c),
{
    let img = category_name(ProcessingCategory::Image);
    let aud = category_name(ProcessingCategory::Audio);
    let clap = category_name(ProcessingCategory::Clap);
    let n = category_name(c);
    assert forall|i: int| 0 <= i < n.len() implies #[trigger] ascii_lower_char(n[i]) == n[i] by {}
    match c {
        ProcessingCategory::Image => {},
        ProcessingCategory::Audio => {
            assert(ascii_lower_char(n[0]) != img[0]);
        },
        ProcessingCategory::Clap => {
            assert(!matches_ignoring_case(n, img));
            assert(!matches_ignoring_case(n, aud));
        },
    }
}

} // verus!
