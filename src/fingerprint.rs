use vstd::prelude::*;

verus! {

/// Length of each window read by the sampled strategy.
pub const SAMPLE_SIZE: u64 = 65536;

/// Files strictly larger than this are hashed through a memory map.
pub const LARGE_FILE_THRESHOLD: u64 = 10485760;

/// Files strictly larger than this are hashed from sampled windows.
pub const VERY_LARGE_FILE_THRESHOLD: u64 = 104857600;

/// The name of the lowercase hex BLAKE3 digest of a byte sequence.
pub uninterp spec fn blake3_hex(data: Seq<u8>) -> Seq<char>;

/// Relies on `blake3::hash` and `Hash::to_hex`: the hex digest depends on the bytes alone.
#[verifier::external_body]
fn hex_digest(data: &[u8]) -> (r: String)
    ensures
        r@ == blake3_hex(data@),
{
    blake3::hash(data).to_hex().to_string()
}

/// How the content of a file is read before hashing.
#[derive(PartialEq, Eq, Structural, Clone, Copy, Debug)]
pub enum Strategy {
    /// Three fixed windows plus the size.
    Sampled,
    /// The whole file, through a read-only memory map.
    Mapped,
    /// The whole file, read into a buffer.
    Direct,
}

pub open spec fn strategy_for(size: u64) -> Strategy {
    if size > VERY_LARGE_FILE_THRESHOLD {
        Strategy::Sampled
    } else if size > LARGE_FILE_THRESHOLD {
        Strategy::Mapped
    } else {
        Strategy::Direct
    }
}

/// Picks the hashing strategy for a file of `size` bytes.
pub fn select_strategy(size: u64) -> (r: Strategy)
    ensures
        r == strategy_for(size),
{
    if size > VERY_LARGE_FILE_THRESHOLD {
        Strategy::Sampled
    } else if size > LARGE_FILE_THRESHOLD {
        Strategy::Mapped
    } else {
        Strategy::Direct
    }
}

/// A byte range of a file: `len` bytes from `offset`.
#[derive(PartialEq, Eq, Structural, Clone, Copy, Debug)]
pub struct SampleWindow {
    pub offset: u64,
    pub len: u64,
}

/// The windows that the sampled strategy reads from a file of `size` bytes, in order:
/// the beginning, the middle when the file holds two windows, the end when it holds one.
pub open spec fn windows_for(size: u64) -> Seq<SampleWindow> {
    let begin = seq![SampleWindow { offset: 0, len: if size < SAMPLE_SIZE { size } else { SAMPLE_SIZE } }];
    let middle = if size > 2 * SAMPLE_SIZE {
        seq![SampleWindow { offset: size / 2, len: SAMPLE_SIZE }]
    } else {
        Seq::empty()
    };
    let end = if size > SAMPLE_SIZE {
        seq![SampleWindow { offset: (size - SAMPLE_SIZE) as u64, len: SAMPLE_SIZE }]
    } else {
        Seq::empty()
    };
    begin + middle + end
}

/// The bytes of `content` that window `w` covers.
pub open spec fn window_bytes(content: Seq<u8>, w: SampleWindow) -> Seq<u8> {
    content.subrange(w.offset as int, w.offset + w.len)
}

/// The windows of `content` that the sampled strategy reads, in order.
pub open spec fn sampled_windows(content: Seq<u8>, size: u64) -> Seq<Seq<u8>> {
    windows_for(size).map_values(|w: SampleWindow| window_bytes(content, w))
}

/// The concatenation of byte sequences, in order.
pub open spec fn concat(parts: Seq<Seq<u8>>) -> Seq<u8>
    decreases parts.len(),
{
    if parts.len() == 0 {
        Seq::empty()
    } else {
        concat(parts.drop_last()) + parts.last()
    }
}

/// The eight bytes of `n`, least significant first.
pub open spec fn le_bytes(n: nat, count: nat) -> Seq<u8>
    decreases count,
{
    if count == 0 {
        Seq::empty()
    } else {
        seq![(n % 256) as u8] + le_bytes(n / 256, (count - 1) as nat)
    }
}

/// What the sampled strategy hashes: the windows read, then the size as eight
/// little-endian bytes.
pub open spec fn sampled_input(samples: Seq<Seq<u8>>, size: u64) -> Seq<u8> {
    concat(samples) + le_bytes(size as nat, 8)
}

/// The fingerprint of a file of `size` bytes holding `content`.
pub open spec fn fingerprint_of(size: u64, content: Seq<u8>) -> Seq<char> {
    if strategy_for(size) == Strategy::Sampled {
        blake3_hex(sampled_input(sampled_windows(content, size), size))
    } else {
        blake3_hex(content)
    }
}

/// What the fingerprint of a file is computed from: the sampled windows for a very
/// large file, the whole content otherwise.
pub open spec fn bytes_read(size: u64, content: Seq<u8>) -> Seq<Seq<u8>> {
    if strategy_for(size) == Strategy::Sampled {
        sampled_windows(content, size)
    } else {
        seq![content]
    }
}

/// The contents of byte vectors.
pub open spec fn views(parts: Seq<Vec<u8>>) -> Seq<Seq<u8>> {
    parts.map_values(|v: Vec<u8>| v@)
}

/// The windows to read from a file of `file_size` bytes, in the order they are hashed.
pub fn sample_windows(file_size: u64) -> (r: Vec<SampleWindow>)
    ensures
        r@ == windows_for(file_size),
{
    let mut r: Vec<SampleWindow> = Vec::new();
    let first_len: u64 = if file_size < SAMPLE_SIZE { file_size } else { SAMPLE_SIZE };
    r.push(SampleWindow { offset: 0, len: first_len });
    if file_size > 2 * SAMPLE_SIZE {
        r.push(SampleWindow { offset: file_size / 2, len: SAMPLE_SIZE });
    }
    if file_size > SAMPLE_SIZE {
        r.push(SampleWindow { offset: file_size - SAMPLE_SIZE, len: SAMPLE_SIZE });
    }
    assert(r@ =~= windows_for(file_size));
    r
}

fn push_le_bytes(out: &mut Vec<u8>, n: u64)
    ensures
        final(out)@ == old(out)@ + le_bytes(n as nat, 8),
{
    let ghost start = out@;
    let mut x: u64 = n;
    let mut i: u64 = 0;
    while i < 8
        invariant
            i <= 8,
            out@ + le_bytes(x as nat, (8 - i) as nat) == start + le_bytes(n as nat, 8),
        decreases 8 - i,
    {
        let ghost before = out@;
        proof {
            assert(le_bytes(x as nat, (8 - i) as nat) == seq![(x % 256) as u8] + le_bytes(
                (x / 256) as nat,
                (8 - i - 1) as nat,
            ));
            assert(before + le_bytes(x as nat, (8 - i) as nat) =~= before.push((x % 256) as u8)
                + le_bytes((x / 256) as nat, (8 - i - 1) as nat));
        }
        out.push((x % 256) as u8);
        x = x / 256;
        i = i + 1;
    }
    assert(le_bytes(x as nat, 0) =~= Seq::<u8>::empty());
    assert(out@ =~= start + le_bytes(n as nat, 8));
}

fn push_all(out: &mut Vec<u8>, src: &[u8])
    ensures
        final(out)@ == old(out)@ + src@,
{
    let ghost start = out@;
    let mut i: usize = 0;
    while i < src.len()
        invariant
            i <= src@.len(),
            out@ == start + src@.subrange(0, i as int),
        decreases src@.len() - i,
    {
        out.push(src[i]);
        i = i + 1;
        assert(out@ =~= start + src@.subrange(0, i as int));
    }
    assert(src@.subrange(0, i as int) =~= src@);
}

/// The sampled fingerprint from the windows read from a file of `file_size` bytes:
/// the digest of the windows in order, followed by the size as eight little-endian bytes.
pub fn compute_sample_hash(samples: &Vec<Vec<u8>>, file_size: u64) -> (r: String)
    ensures
        r@ == blake3_hex(sampled_input(views(samples@), file_size)),
{
    let mut input: Vec<u8> = Vec::new();
    let mut i: usize = 0;
    while i < samples.len()
        invariant
            i <= samples@.len(),
            input@ == concat(views(samples@.subrange(0, i as int))),
        decreases samples@.len() - i,
    {
        push_all(&mut input, samples[i].as_slice());
        proof {
            let next = views(samples@.subrange(0, i + 1));
            assert(next.drop_last() =~= views(samples@.subrange(0, i as int)));
        }
        i = i + 1;
    }
    assert(samples@.subrange(0, i as int) =~= samples@);
    push_le_bytes(&mut input, file_size);
    hex_digest(input.as_slice())
}

fn copy_window(content: &[u8], w: SampleWindow) -> (r: Vec<u8>)
    requires
        w.offset + w.len <= content@.len(),
    ensures
        r@ == window_bytes(content@, w),
{
    let mut r: Vec<u8> = Vec::new();
    let n = content.len();
    let start = w.offset as usize;
    let end = start + w.len as usize;
    let mut i: usize = start;
    while i < end
        invariant
            start <= i <= end <= content@.len(),
            r@ == content@.subrange(start as int, i as int),
        decreases end - i,
    {
        r.push(content[i]);
        i = i + 1;
        assert(r@ =~= content@.subrange(start as int, i as int));
    }
    r
}

proof fn lemma_windows_fit(size: u64)
    ensures
        forall|k: int|
            0 <= k < windows_for(size).len() ==> #[trigger] windows_for(size)[k].offset
                + windows_for(size)[k].len <= size,
{
}

/// The fingerprint of a file held whole in memory, by the strategy its size selects.
pub fn fingerprint_content(content: &[u8]) -> (r: String)
    ensures
        r@ == fingerprint_of(content@.len() as u64, content@),
{
    let size = content.len() as u64;
    if size > VERY_LARGE_FILE_THRESHOLD {
        let windows = sample_windows(size);
        proof {
            lemma_windows_fit(size);
        }
        let mut samples: Vec<Vec<u8>> = Vec::new();
        let mut i: usize = 0;
        while i < windows.len()
            invariant
                i <= windows@.len(),
                windows@ == windows_for(size),
                size == content@.len(),
                forall|k: int|
                    0 <= k < windows@.len() ==> #[trigger] windows@[k].offset + windows@[k].len
                        <= size,
                views(samples@) == sampled_windows(content@, size).subrange(0, i as int),
            decreases windows@.len() - i,
        {
            let w = windows[i];
            let bytes = copy_window(content, w);
            assert(sampled_windows(content@, size)[i as int] == window_bytes(content@, w));
            let ghost prev = samples@;
            samples.push(bytes);
            assert(views(samples@) =~= views(prev).push(window_bytes(content@, w)));
            i = i + 1;
            assert(views(samples@) =~= sampled_windows(content@, size).subrange(0, i as int));
        }
        assert(views(samples@) =~= sampled_windows(content@, size));
        compute_sample_hash(&samples, size)
    } else {
        hex_digest(content)
    }
}

/// A fingerprint is a function of the bytes read and the size alone: two files of the
/// same size from which the same bytes are read have the same fingerprint, whichever
/// strategy the size selects and however often it is computed.
pub proof fn lemma_fingerprint_determined_by_bytes_read(size: u64, a: Seq<u8>, b: Seq<u8>)
    requires
        a.len() == size,
        b.len() == size,
        bytes_read(size, a) == bytes_read(size, b),
    ensures
        fingerprint_of(size, a) == fingerprint_of(size, b),
{
    if strategy_for(size) != Strategy::Sampled {
        assert(a == bytes_read(size, a)[0]);
        assert(b == bytes_read(size, b)[0]);
    }
}

proof fn lemma_concat_three(w: Seq<Seq<u8>>)
    requires
        w.len() == 3,
    ensures
        concat(w) == w[0] + w[1] + w[2],
{
    let w1 = w.drop_last();
    let w0 = w1.drop_last();
    assert(w0.drop_last() =~= Seq::<Seq<u8>>::empty());
    assert(concat(w0.drop_last()) =~= Seq::<u8>::empty());
    assert(concat(w0) =~= w[0]);
    assert(concat(w1) =~= w[0] + w[1]);
    assert(concat(w) =~= w[0] + w[1] + w[2]);
}

/// For a very large file the end window takes part in the sampled input: two files of
/// the same size whose last `SAMPLE_SIZE` bytes differ are hashed from different bytes.
pub proof fn lemma_end_window_participates(size: u64, a: Seq<u8>, b: Seq<u8>)
    requires
        size > VERY_LARGE_FILE_THRESHOLD,
        a.len() == size,
        b.len() == size,
        a.subrange(size - SAMPLE_SIZE, size as int) != b.subrange(size - SAMPLE_SIZE, size as int),
    ensures
        sampled_input(sampled_windows(a, size), size) != sampled_input(sampled_windows(b, size), size),
{
    let s = SAMPLE_SIZE as int;
    let wa = sampled_windows(a, size);
    let wb = sampled_windows(b, size);
    assert(windows_for(size).len() == 3);
    assert(wa.len() == 3 && wb.len() == 3);
    assert(wa[2] == a.subrange(size - s, size as int));
    assert(wb[2] == b.subrange(size - s, size as int));
    assert(wa[0].len() == s && wa[1].len() == s && wb[0].len() == s && wb[1].len() == s);
    assert(wa.drop_last().drop_last().drop_last() =~= Seq::<Seq<u8>>::empty());
    assert(wb.drop_last().drop_last().drop_last() =~= Seq::<Seq<u8>>::empty());
    lemma_concat_three(wa);
    lemma_concat_three(wb);
    let ia = sampled_input(wa, size);
    let ib = sampled_input(wb, size);
    assert(ia.subrange(2 * s, 3 * s) =~= wa[2]);
    assert(ib.subrange(2 * s, 3 * s) =~= wb[2]);
}

} // verus!
