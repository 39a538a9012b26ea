use vstd::prelude::*;
use crate::error::ChestError;

verus! {

/// One file to be placed into an archive: its full path (with `/`
/// separators) and its uncompressed payload.
pub struct ArchiveEntry {
    pub path: String,
    pub data: Vec<u8>,
}

/// The mapping from entry name to uncompressed payload that a compressed
/// archive holds. Only constrained for archives that `archive_valid`
/// accepts; it stands for what the zip reader decodes.
pub uninterp spec fn archive_contents(data: Seq<u8>) -> Map<Seq<char>, Seq<u8>>;

/// Whether the bytes form a fully decodable compressed archive: the
/// index can be read, every entry name decodes losslessly to a distinct
/// name, and every payload decompresses with its recorded size.
pub uninterp spec fn archive_valid(data: Seq<u8>) -> bool;

/// Lists the entry names of an archive.
///
/// Relies on `zip::ZipArchive::new` and `ZipArchive::file_names`: the
/// reader decodes the archive index over the given bytes and iterates
/// every entry name; distinct raw names decode to distinct names only
/// when the archive is fully valid.
#[verifier::external_body]
pub(crate) fn archive_entry_names(data: &Vec<u8>) -> (r: Result<Vec<String>, ChestError>)
    ensures
        archive_valid(data@) ==> r is Ok,
        r is Err ==> !archive_valid(data@) && r->Err_0 == ChestError::CorruptArchive,
        (r is Ok && archive_valid(data@)) ==> (forall|i: int, j: int|
            0 <= i < j < r.unwrap()@.len() ==> r.unwrap()@[i]@ != r.unwrap()@[j]@),
        (r is Ok && archive_valid(data@)) ==> (forall|i: int|
            0 <= i < r.unwrap()@.len() ==> archive_contents(data@).dom().contains(
                #[trigger] r.unwrap()@[i]@,
            )),
        (r is Ok && archive_valid(data@)) ==> (forall|n: Seq<char>|
            archive_contents(data@).dom().contains(n) ==> exists|i: int|
                0 <= i < r.unwrap()@.len() && #[trigger] r.unwrap()@[i]@ == n),
{
    let reader = std::io::Cursor::new(data.as_slice());
    match zip::ZipArchive::new(reader) {
        Ok(archive) => Ok(archive.file_names().map(|n| n.to_string()).collect()),
        Err(_) => Err(ChestError::CorruptArchive),
    }
}

/// Reads one entry's uncompressed payload from an archive.
///
/// Relies on `zip::ZipArchive::by_name` and `std::io::Read::read_to_end`:
/// the named entry is decompressed in full. A missing entry maps to the
/// not-found error and every other failure to the corrupt-archive
/// error.
#[verifier::external_body]
pub(crate) fn archive_entry_payload(data: &Vec<u8>, name: &str) -> (r: Result<
    Vec<u8>,
    ChestError,
>)
    ensures
        (archive_valid(data@) && archive_contents(data@).dom().contains(name@)) ==> (
        r is Ok && r.unwrap()@ == archive_contents(data@)[name@]),
        (archive_valid(data@) && !archive_contents(data@).dom().contains(name@)) ==> (
        r is Err && r->Err_0 == ChestError::NotFound),
        r is Err ==> (r->Err_0 == ChestError::NotFound || r->Err_0
            == ChestError::CorruptArchive),
{
    let reader = std::io::Cursor::new(data.as_slice());
    let mut archive = match zip::ZipArchive::new(reader) {
        Ok(archive) => archive,
        Err(_) => return Err(ChestError::CorruptArchive),
    };
    let mut file = match archive.by_name(name) {
        Ok(file) => file,
        Err(zip::result::ZipError::FileNotFound) => return Err(ChestError::NotFound),
        Err(_) => return Err(ChestError::CorruptArchive),
    };
    let mut contents = Vec::new();
    let read = std::io::Read::read_to_end(&mut file, &mut contents);
    read.map(|_| contents).map_err(|_| ChestError::CorruptArchive)
}

/// Reads one entry's uncompressed size from the archive index, without
/// decompressing it. Absent entries count as zero.
///
/// Relies on `zip::ZipArchive::by_name` and `ZipFile::size`: the index
/// records each entry's uncompressed size.
#[verifier::external_body]
pub(crate) fn archive_entry_size(data: &Vec<u8>, name: &str) -> (r: u64)
    ensures
        (archive_valid(data@) && archive_contents(data@).dom().contains(name@)) ==> r
            == archive_contents(data@)[name@].len(),
        (archive_valid(data@) && !archive_contents(data@).dom().contains(name@)) ==> r
            == 0,
{
    let reader = std::io::Cursor::new(data.as_slice());
    let mut archive = match zip::ZipArchive::new(reader) {
        Ok(archive) => archive,
        Err(_) => return 0,
    };
    let size = match archive.by_name(name) {
        Ok(file) => file.size(),
        Err(_) => 0,
    };
    size
}

/// The archive bytes that serialising the given files and directory
/// markers yields, when serialisation succeeds: compression here is a
/// deterministic function of the entries alone.
pub uninterp spec fn built_archive(
    files: Seq<(Seq<char>, Seq<u8>)>,
    dirs: Seq<Seq<char>>,
) -> Option<Seq<u8>>;

/// The models of archive entries.
pub open spec fn entry_models(files: Seq<ArchiveEntry>) -> Seq<(Seq<char>, Seq<u8>)> {
    Seq::new(files.len(), |i: int| (files[i].path@, files[i].data@))
}

/// Serialises files and directory markers into a fresh compressed
/// archive. Directory markers are stored under their name followed by
/// `/`, with no payload; a directory name must not itself end in a
/// separator, or the stored marker would differ.
///
/// Relies on `zip::ZipWriter` with `start_file`, `add_directory` and
/// `finish`: serialisation to memory is a deterministic function of the
/// entries, and what is written under a name is read back unchanged by
/// the zip reader.
#[verifier::external_body]
pub(crate) fn build_archive(files: &Vec<ArchiveEntry>, dirs: &Vec<String>) -> (r: Result<
    Vec<u8>,
    ChestError,
>)
    requires
        forall|i: int, j: int|
            0 <= i < j < files@.len() ==> files@[i].path@ != files@[j].path@,
        forall|i: int|
            0 <= i < dirs@.len() ==> ((#[trigger] dirs@[i])@.len() > 0 && dirs@[i]@.last()
                != '/' && dirs@[i]@.last() != '\\'),
    ensures
        r is Ok <==> built_archive(
            entry_models(files@),
            crate::pathutil::seq_views(dirs@),
        ) is Some,
        r is Ok ==> Some(r.unwrap()@) == built_archive(
            entry_models(files@),
            crate::pathutil::seq_views(dirs@),
        ),
        r is Ok ==> archive_valid(r.unwrap()@),
        r is Ok ==> (forall|i: int|
            0 <= i < files@.len() ==> archive_contents(r.unwrap()@).dom().contains(
                #[trigger] files@[i].path@,
            ) && archive_contents(r.unwrap()@)[files@[i].path@] == files@[i].data@),
        r is Ok ==> (forall|i: int|
            0 <= i < dirs@.len() ==> archive_contents(r.unwrap()@).dom().contains(
                #[trigger] dirs@[i]@ + seq!['/'],
            )),
        r is Err ==> r->Err_0 == ChestError::IoFailure,
{
    let options = zip::write::SimpleFileOptions::default().compression_method(
        zip::CompressionMethod::Zstd,
    ).compression_level(Some(7));
    let mut writer = zip::ZipWriter::new(std::io::Cursor::new(Vec::new()));
    for dir in dirs.iter() {
        if writer.add_directory(dir, options).is_err() { return Err(ChestError::IoFailure); }
    }
    for entry in files.iter() {
        if writer.start_file(&entry.path, options).is_err() { return Err(ChestError::IoFailure); }
        if std::io::Write::write_all(&mut writer, &entry.data).is_err() { return Err(ChestError::IoFailure); }
    }
    writer.finish().map(|cursor| cursor.into_inner()).map_err(|_| ChestError::IoFailure)
}

} // verus!
