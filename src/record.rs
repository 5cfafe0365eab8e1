use vstd::prelude::*;
use vstd::string::StringExecFns;
use vstd::utf8::encode_utf8;

verus! {

/// One unique file of the inventory.
#[derive(Debug, PartialEq, Eq)]
pub struct FileMeta {
    /// The file's path.
    pub filename: String,
    /// The directory that holds it.
    pub folder: String,
    /// Its length in bytes.
    pub size: u64,
    /// Its content type, guessed from the path.
    pub mime: String,
    /// Its content fingerprint, in hex.
    pub hash: String,
    /// Its coarse category: `image`, `video` or `other`.
    pub filetype: String,
}

impl Clone for FileMeta {
    fn clone(&self) -> (r: Self)
        ensures
            r == *self,
    {
        FileMeta {
            filename: self.filename.clone(),
            folder: self.folder.clone(),
            size: self.size,
            mime: self.mime.clone(),
            hash: self.hash.clone(),
            filetype: self.filetype.clone(),
        }
    }
}

/// The payload handed to a remote endpoint: the records with their count and total size.
#[derive(Debug, PartialEq, Eq)]
pub struct UploadRequest {
    pub files: Vec<FileMeta>,
    pub scan_timestamp: String,
    pub total_files: usize,
    pub total_size: u64,
}

/// The coarse category of a content type.
#[derive(PartialEq, Eq, Structural, Clone, Copy, Debug)]
pub enum Category {
    Image,
    Video,
    Other,
}

pub open spec fn has_prefix(b: Seq<u8>, p: Seq<u8>) -> bool {
    p.len() <= b.len() && b.subrange(0, p.len() as int) == p
}

/// The bytes of `image/`.
pub open spec fn image_prefix() -> Seq<u8> {
    seq![105u8, 109u8, 97u8, 103u8, 101u8, 47u8]
}

/// The bytes of `video/`.
pub open spec fn video_prefix() -> Seq<u8> {
    seq![118u8, 105u8, 100u8, 101u8, 111u8, 47u8]
}

/// The category of a content type, given as its UTF-8 bytes: its top-level part decides.
pub open spec fn category_of(content_type: Seq<u8>) -> Category {
    if has_prefix(content_type, image_prefix()) {
        Category::Image
    } else if has_prefix(content_type, video_prefix()) {
        Category::Video
    } else {
        Category::Other
    }
}

pub open spec fn category_name(c: Category) -> Seq<char> {
    match c {
        Category::Image => "image"@,
        Category::Video => "video"@,
        Category::Other => "other"@,
    }
}

fn starts_with_bytes(b: &[u8], p: &Vec<u8>) -> (r: bool)
    ensures
        r == has_prefix(b@, p@),
{
    if p.len() > b.len() {
        return false;
    }
    let mut i: usize = 0;
    while i < p.len()
        invariant
            p@.len() <= b@.len(),
            i <= p@.len(),
            forall|k: int| 0 <= k < i ==> b@[k] == p@[k],
        decreases p@.len() - i,
    {
        if b[i] != p[i] {
            assert(b@.subrange(0, p@.len() as int)[i as int] != p@[i as int]);
            return false;
        }
        i = i + 1;
    }
    assert(b@.subrange(0, p@.len() as int) =~= p@);
    true
}

/// Maps a content type to its coarse category.
pub fn classify(content_type: &str) -> (r: Category)
    ensures
        r == category_of(encode_utf8(content_type@)),
{
    let b = content_type.as_bytes();
    let image: Vec<u8> = vec![105u8, 109u8, 97u8, 103u8, 101u8, 47u8];
    let video: Vec<u8> = vec![118u8, 105u8, 100u8, 101u8, 111u8, 47u8];
    assert(image@ =~= image_prefix());
    assert(video@ =~= video_prefix());
    if starts_with_bytes(b, &image) {
        Category::Image
    } else if starts_with_bytes(b, &video) {
        Category::Video
    } else {
        Category::Other
    }
}

impl Category {
    /// The category's name as it stands in a record.
    pub fn label(self) -> (r: String)
        ensures
            r@ == category_name(self),
    {
        match self {
            Category::Image => String::from_str("image"),
            Category::Video => String::from_str("video"),
            Category::Other => String::from_str("other"),
        }
    }
}

/// The name of the content type that `mime_guess` gives a path.
pub uninterp spec fn mime_of(path: Seq<char>) -> Seq<char>;

/// Relies on `mime_guess::from_path(..).first_or_octet_stream()`: the essence of the
/// first type known for the path's extension, which depends on the path alone.
#[verifier::external_body]
pub(crate) fn guess_mime(path: &str) -> (r: String)
    ensures
        r@ == mime_of(path@),
{
    mime_guess::from_path(path).first_or_octet_stream().essence_str().to_string()
}

/// The sum of the sizes of `files`.
pub open spec fn total_size(files: Seq<FileMeta>) -> nat
    decreases files.len(),
{
    if files.len() == 0 {
        0
    } else {
        total_size(files.drop_last()) + files.last().size as nat
    }
}

/// The payload for `files`, or `None` when their total size exceeds `u64::MAX`.
pub fn build_upload_request(files: Vec<FileMeta>, scan_timestamp: String) -> (r: Option<UploadRequest>)
    ensures
        r is None <==> total_size(files@) > u64::MAX,
        r matches Some(req) ==> req.files@ == files@ && req.scan_timestamp == scan_timestamp
            && req.total_files == files@.len() && req.total_size == total_size(files@),
{
    let mut total: u64 = 0;
    let mut i: usize = 0;
    while i < files.len()
        invariant
            i <= files@.len(),
            total == total_size(files@.subrange(0, i as int)),
        decreases files@.len() - i,
    {
        assert(files@.subrange(0, i + 1).drop_last() =~= files@.subrange(0, i as int));
        if total > u64::MAX - files[i].size {
            proof {
                lemma_total_size_grows(files@, i + 1);
            }
            return None;
        }
        total = total + files[i].size;
        i = i + 1;
    }
    assert(files@.subrange(0, i as int) =~= files@);
    let n = files.len();
    Some(UploadRequest { files, scan_timestamp, total_files: n, total_size: total })
}

proof fn lemma_total_size_grows(files: Seq<FileMeta>, k: int)
    requires
        0 <= k <= files.len(),
    ensures
        total_size(files.subrange(0, k)) <= total_size(files),
    decreases files.len() - k,
{
    if k < files.len() {
        lemma_total_size_grows(files, k + 1);
        assert(files.subrange(0, k + 1).drop_last() =~= files.subrange(0, k));
    } else {
        assert(files.subrange(0, k) =~= files);
    }
}

} // verus!
