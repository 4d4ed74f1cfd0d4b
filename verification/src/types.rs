//! Values the library hands to its callers.
use vstd::prelude::*;

use crate::blp::BlpHeader;
use crate::build_info::BuildInfoRow;
use crate::db2::DbHeader;

verus! {

/// A folder that may hold a World of Warcraft installation.
#[derive(Debug, Clone, PartialEq, Eq)]
pub struct InstallCandidate {
    pub path: String,
    pub label: String,
    pub has_build_info: bool,
}

/// The build a WoW folder holds, as `.build.info` describes it.
#[derive(Debug)]
pub struct WowBuildInfo {
    pub path: String,
    pub product: String,
    pub version: String,
    pub build_key: Option<String>,
    pub cdn_key: Option<String>,
    pub branch: Option<String>,
    pub active_rows: usize,
    pub rows: Vec<BuildInfoRow>,
}

/// How many ListFile rows carry one file extension.
#[derive(Debug, Clone, PartialEq, Eq)]
pub struct ExtensionCount {
    pub extension: String,
    pub count: usize,
}

/// What a ListFile import held.
#[derive(Debug, Clone, PartialEq, Eq)]
pub struct ListfileSummary {
    pub entries: usize,
    pub extensions: Vec<ExtensionCount>,
}

/// A FileDataID and the virtual path it is known by.
#[derive(Debug, Clone, PartialEq, Eq)]
pub struct ListfileMatch {
    pub file_data_id: u32,
    pub path: String,
}

impl View for ListfileMatch {
    type V = (u32, Seq<char>);

    open spec fn view(&self) -> (u32, Seq<char>) {
        (self.file_data_id, self.path@)
    }
}

impl ListfileMatch {
    /// A copy of this entry (the same id and path).
    pub fn duplicate(&self) -> (r: ListfileMatch)
        ensures
            r == *self,
    {
        ListfileMatch { file_data_id: self.file_data_id, path: self.path.clone() }
    }
}

/// The views of a sequence of ListFile entries.
pub open spec fn match_views(s: Seq<ListfileMatch>) -> Seq<(u32, Seq<char>)> {
    s.map_values(|m: ListfileMatch| m@)
}

/// What the inspector found in the header of an asset.
#[derive(Debug, Clone, PartialEq, Eq)]
pub enum AssetDetails {
    /// A BLP2 texture header.
    Blp(BlpHeader),
    /// A DBC/DB2 table header.
    Db(DbHeader),
    /// A BLTE container: the header size and the chunk modes the decoder knows.
    Blte { header_size: u32, decoder_modes: Vec<String> },
    /// The four-character magic of a model or chunked asset.
    Magic(String),
    /// The first four bytes of an unrecognised asset, in hexadecimal.
    MagicHex(String),
    /// The header was recognised but could not be read; the message says why.
    Error(String),
    /// Nothing more to report.
    Empty,
}

/// One asset and what its header shows.
#[derive(Debug, Clone, PartialEq, Eq)]
pub struct AssetInspection {
    pub path: String,
    pub size: u64,
    pub format: String,
    pub details: AssetDetails,
}

/// The outcome of decoding a BLTE file to disk.
#[derive(Debug, Clone, PartialEq, Eq)]
pub struct DecodeResult {
    pub input_path: String,
    pub output_path: String,
    pub encoded_bytes: u64,
    pub decoded_bytes: u64,
    pub chunks: usize,
}

/// A folder or file of the virtual CASC tree.
#[derive(Debug, Clone, PartialEq, Eq)]
pub struct CascVirtualEntry {
    pub name: String,
    pub path: String,
    pub kind: String,
    pub file_data_id: Option<u32>,
    pub extension: Option<String>,
}

/// The folders and files directly inside one virtual folder.
#[derive(Debug, Clone, PartialEq, Eq)]
pub struct CascDirectoryListing {
    pub path: String,
    pub folders: Vec<CascVirtualEntry>,
    pub files: Vec<CascVirtualEntry>,
}

/// What opening a CASC catalog found.
#[derive(Debug, Clone, PartialEq, Eq)]
pub struct CascCatalogInfo {
    pub selected_path: String,
    pub install_root: String,
    pub product: String,
    pub version: String,
    pub build_name: String,
    pub root_format: String,
    pub files: usize,
    pub encoding_entries: usize,
    pub root_entries: usize,
    pub index_entries: usize,
    pub listfile_entries: usize,
    pub default_extract_root: String,
}

/// The outcome of extracting one file from CASC.
#[derive(Debug, Clone, PartialEq, Eq)]
pub struct CascExtractResult {
    pub file_data_id: u32,
    pub virtual_path: String,
    pub output_path: String,
    pub bytes: u64,
}

} // verus!
