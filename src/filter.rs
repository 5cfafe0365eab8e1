use vstd::prelude::*;
use vstd::utf8::encode_utf8;

verus! {

/// Files shorter than this many bytes are left out of a scan.
pub const MIN_FILE_SIZE: u64 = 1024;

/// The byte that starts the name of a hidden file.
pub const HIDDEN_MARKER: u8 = 46;

/// The byte that separates the components of a path.
pub const SEPARATOR: u8 = 47;

/// Whether a file named `name` of `size` bytes is scanned: it is not hidden and
/// holds at least `MIN_FILE_SIZE` bytes.
pub open spec fn is_included(name: Seq<char>, size: u64) -> bool {
    let b = encode_utf8(name);
    !(b.len() > 0 && b[0] == HIDDEN_MARKER) && size >= MIN_FILE_SIZE
}

/// The early inclusion filter of discovery.
pub fn should_process_file(file_name: &str, size: u64) -> (r: bool)
    ensures
        r == is_included(file_name@, size),
{
    let b = file_name.as_bytes();
    if b.len() > 0 && b[0] == HIDDEN_MARKER {
        return false;
    }
    size >= MIN_FILE_SIZE
}

/// Whether a component of a path starts at byte `k`.
pub open spec fn starts_component(b: Seq<u8>, k: int) -> bool {
    b[k] != SEPARATOR && (k == 0 || b[k - 1] == SEPARATOR)
}

/// The number of components that start among the first `n` bytes.
pub open spec fn components_before(b: Seq<u8>, n: int) -> nat
    decreases n,
{
    if n <= 0 {
        0
    } else {
        components_before(b, n - 1) + if starts_component(b, n - 1) {
            1nat
        } else {
            0nat
        }
    }
}

/// The number of components of a path given as bytes: the root, when the path is
/// absolute, and each non-empty run of bytes between separators.
pub open spec fn depth_of(b: Seq<u8>) -> nat {
    (if b.len() > 0 && b[0] == SEPARATOR {
        1nat
    } else {
        0nat
    }) + components_before(b, b.len() as int)
}

proof fn lemma_components_bounded(b: Seq<u8>, n: int)
    requires
        0 <= n <= b.len(),
    ensures
        components_before(b, n) <= n,
    decreases n,
{
    if n > 0 {
        lemma_components_bounded(b, n - 1);
    }
}

proof fn lemma_components_bounded_absolute(b: Seq<u8>, n: int)
    requires
        1 <= n <= b.len(),
        b[0] == SEPARATOR,
    ensures
        components_before(b, n) < n,
    decreases n,
{
    if n > 1 {
        lemma_components_bounded_absolute(b, n - 1);
    } else {
        assert(components_before(b, 0) == 0);
        assert(!starts_component(b, 0));
    }
}

/// The depth of a directory: the number of components of its path.
pub fn path_depth(path: &str) -> (r: usize)
    ensures
        r == depth_of(encode_utf8(path@)),
{
    let b = path.as_bytes();
    let mut count: usize = 0;
    let mut i: usize = 0;
    while i < b.len()
        invariant
            i <= b@.len(),
            count == components_before(b@, i as int),
        decreases b@.len() - i,
    {
        proof {
            lemma_components_bounded(b@, i as int);
        }
        if b[i] != SEPARATOR && (i == 0 || b[i - 1] == SEPARATOR) {
            count = count + 1;
        }
        i = i + 1;
    }
    proof {
        lemma_components_bounded(b@, b@.len() as int);
    }
    if b.len() > 0 && b[0] == SEPARATOR {
        proof {
            lemma_components_bounded_absolute(b@, b@.len() as int);
        }
        count + 1
    } else {
        count
    }
}

} // verus!
