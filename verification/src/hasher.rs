//! Streaming content fingerprints.

use vstd::prelude::*;
use crypto::digest::Digest;
use crypto::sha1::Sha1;

verus! {

/// The SHA-1 accumulator of the `crypto` crate. Nothing inside it is visible
/// to the verifier.
#[verifier::external_type_specification]
#[verifier::external_body]
pub struct ExSha1(Sha1);

/// The bytes that an accumulator has been fed since it was made.
pub uninterp spec fn sha1_absorbed(digest: Sha1) -> Seq<u8>;

/// Whether an accumulator has already produced its result.
pub uninterp spec fn sha1_sealed(digest: Sha1) -> bool;

/// The SHA-1 digest of `content`, as `Digest::result_str` renders it.
pub uninterp spec fn sha1_hex(content: Seq<u8>) -> Seq<char>;

/// Whether `c` is a hexadecimal digit in lower case: `0` to `9` or `a` to `f`.
pub open spec fn is_lower_hex(c: char) -> bool {
    0x30 <= c as u32 <= 0x39 || 0x61 <= c as u32 <= 0x66
}

/// Whether `text` has the form of a fingerprint: forty hexadecimal digits in
/// lower case, two for each of the twenty bytes of a digest.
pub open spec fn is_fingerprint(text: Seq<char>) -> bool {
    &&& text.len() == 40
    &&& forall|i: int| 0 <= i < text.len() ==> is_lower_hex(#[trigger] text[i])
}

/// The largest number of bytes an accumulator accepts: it counts the message
/// length in bits in a `u64` and panics when that count overflows.
pub const MAX_CONTENT_LEN: u64 = 0x1fff_ffff_ffff_ffff;

/// `Sha1::new`: a fresh accumulator that has been fed nothing.
#[verifier::external_body]
fn sha1_new() -> (digest: Sha1)
    ensures
        sha1_absorbed(digest) == Seq::<u8>::empty(),
        !sha1_sealed(digest),
{
    Sha1::new()
}

/// `Digest::input` on `Sha1`: appends `data` to what the accumulator has been
/// fed. The call panics on a sealed accumulator and when the total length
/// passes [`MAX_CONTENT_LEN`], so both are left out.
#[verifier::external_body]
fn sha1_input(digest: &mut Sha1, data: &[u8])
    requires
        !sha1_sealed(*old(digest)),
        sha1_absorbed(*old(digest)).len() + data@.len() <= MAX_CONTENT_LEN,
    ensures
        sha1_absorbed(*final(digest)) == sha1_absorbed(*old(digest)) + data@,
        !sha1_sealed(*final(digest)),
{
    digest.input(data)
}

/// `Digest::result_str` on `Sha1`: the digest of everything fed so far, its
/// twenty bytes written as forty hexadecimal digits in lower case. The
/// accumulator is sealed afterwards.
#[verifier::external_body]
fn sha1_result_str(digest: &mut Sha1) -> (hex: String)
    ensures
        hex@ == sha1_hex(sha1_absorbed(*old(digest))),
        is_fingerprint(hex@),
        sha1_absorbed(*final(digest)) == sha1_absorbed(*old(digest)),
        sha1_sealed(*final(digest)),
{
    digest.result_str()
}

/// The size of the buffer a file is read through, chunk by chunk.
pub const BUFF_SIZE: usize = 1024;

/// What one attempt to read the next chunk of a file gave.
#[derive(Debug)]
pub enum ReadOutcome {
    /// The bytes that were read. No bytes at all means the end of the file.
    Chunk(Vec<u8>),
    /// The read failed; the text says why.
    Failed(String),
}

/// Why a file has no fingerprint.
#[derive(Debug)]
pub enum HashError {
    /// The file could not be opened or read; the text says why.
    Unreadable(String),
    /// The file holds more than [`MAX_CONTENT_LEN`] bytes.
    TooLong,
}

/// A fingerprint in the making: it is fed the content of one file, chunk by
/// chunk, and gives the fingerprint of all of it at the end.
pub struct ContentHasher {
    digest: Sha1,
    length: u64,
}

/// Where a [`ContentHasher`] stands after one read.
pub enum HashStep {
    /// The chunk was taken in; read on.
    More(ContentHasher),
    /// The file has ended; this is its fingerprint.
    Done(String),
    /// The file is given up.
    Failed(HashError),
}

impl ContentHasher {
    #[verifier::type_invariant]
    spec fn well_formed(self) -> bool {
        &&& !sha1_sealed(self.digest)
        &&& sha1_absorbed(self.digest).len() == self.length
        &&& self.length <= MAX_CONTENT_LEN
    }

    /// The bytes taken in so far, in order.
    pub closed spec fn content(self) -> Seq<u8> {
        sha1_absorbed(self.digest)
    }

    /// A hasher that has taken in nothing.
    pub fn new() -> (hasher: Self)
        ensures
            hasher.content() == Seq::<u8>::empty(),
    {
        ContentHasher { digest: sha1_new(), length: 0 }
    }

    /// Takes in one more chunk, unless the content would then be longer than
    /// [`MAX_CONTENT_LEN`].
    pub fn absorb(self, chunk: &[u8]) -> (grown: Result<Self, HashError>)
        ensures
            match grown {
                Ok(hasher) => {
                    &&& self.content().len() + chunk@.len() <= MAX_CONTENT_LEN
                    &&& hasher.content() == self.content() + chunk@
                },
                Err(e) => {
                    &&& self.content().len() + chunk@.len() > MAX_CONTENT_LEN
                    &&& e is TooLong
                },
            },
    {
        proof {
            use_type_invariant(&self);
        }
        let ContentHasher { mut digest, length } = self;
        let room: u64 = MAX_CONTENT_LEN - length;
        if chunk.len() as u64 > room {
            return Err(HashError::TooLong);
        }
        sha1_input(&mut digest, chunk);
        Ok(ContentHasher { digest, length: length + chunk.len() as u64 })
    }

    /// The fingerprint of everything taken in.
    pub fn finish(self) -> (fingerprint: String)
        ensures
            fingerprint@ == sha1_hex(self.content()),
            is_fingerprint(fingerprint@),
    {
        let ContentHasher { mut digest, .. } = self;
        sha1_result_str(&mut digest)
    }

    /// Decides what one read means for the fingerprint in the making: a chunk
    /// with bytes is taken in, an empty chunk ends the file, a failed read
    /// gives the file up.
    pub fn step(self, outcome: &ReadOutcome) -> (next: HashStep)
        ensures
            match *outcome {
                ReadOutcome::Failed(reason) => next matches HashStep::Failed(
                    HashError::Unreadable(r),
                ) && r@ == reason@,
                ReadOutcome::Chunk(bytes) => if bytes@.len() == 0 {
                    next matches HashStep::Done(fingerprint) && fingerprint@ == sha1_hex(
                        self.content(),
                    ) && is_fingerprint(fingerprint@)
                } else if self.content().len() + bytes@.len() > MAX_CONTENT_LEN {
                    next matches HashStep::Failed(HashError::TooLong)
                } else {
                    next matches HashStep::More(hasher) && hasher.content() == self.content()
                        + bytes@
                },
            },
    {
        match outcome {
            ReadOutcome::Failed(reason) => HashStep::Failed(HashError::Unreadable(reason.clone())),
            ReadOutcome::Chunk(bytes) => {
                if bytes.len() == 0 {
                    HashStep::Done(self.finish())
                } else {
                    match self.absorb(bytes.as_slice()) {
                        Ok(hasher) => HashStep::More(hasher),
                        Err(e) => HashStep::Failed(e),
                    }
                }
            },
        }
    }
}

/// Whether a stream of reads stops at this one: at the end of the file or at
/// a failure.
pub open spec fn ends_stream(outcome: ReadOutcome) -> bool {
    match outcome {
        ReadOutcome::Chunk(bytes) => bytes@.len() == 0,
        ReadOutcome::Failed(_) => true,
    }
}

/// The bytes that a read carries.
pub open spec fn carried(outcome: ReadOutcome) -> Seq<u8> {
    match outcome {
        ReadOutcome::Chunk(bytes) => bytes@,
        ReadOutcome::Failed(_) => Seq::empty(),
    }
}

/// How many reads come before the one that stops the stream.
pub open spec fn data_reads(reads: Seq<ReadOutcome>) -> nat
    decreases reads.len(),
{
    if reads.len() == 0 || ends_stream(reads[0]) {
        0
    } else {
        1 + data_reads(reads.drop_first())
    }
}

/// The bytes of the first `n` reads, one chunk after the other.
pub open spec fn bytes_of(reads: Seq<ReadOutcome>, n: nat) -> Seq<u8>
    decreases n,
{
    if n == 0 {
        Seq::empty()
    } else {
        bytes_of(reads, (n - 1) as nat) + carried(reads[n - 1])
    }
}

/// The content that a stream of reads delivers before it stops.
pub open spec fn content_of(reads: Seq<ReadOutcome>) -> Seq<u8> {
    bytes_of(reads, data_reads(reads))
}

/// Whether a stream of reads delivers a whole file: it does not stop at a
/// failure, and the content is short enough to be fingerprinted.
pub open spec fn completes(reads: Seq<ReadOutcome>) -> bool {
    &&& content_of(reads).len() <= MAX_CONTENT_LEN
    &&& data_reads(reads) < reads.len() ==> reads[data_reads(reads) as int] is Chunk
}

/// The fingerprint of the file that a stream of reads delivers, if it
/// delivers one.
pub open spec fn fingerprint_of(reads: Seq<ReadOutcome>) -> Option<Seq<char>> {
    if completes(reads) {
        Some(sha1_hex(content_of(reads)))
    } else {
        None
    }
}

/// The stream stops at `n` when the `n` reads before it all carry data and
/// the read at `n`, if there is one, does not.
proof fn lemma_data_reads(reads: Seq<ReadOutcome>, n: nat)
    requires
        n <= reads.len(),
        forall|j: int| 0 <= j < n ==> !ends_stream(#[trigger] reads[j]),
        n < reads.len() ==> ends_stream(reads[n as int]),
    ensures
        data_reads(reads) == n,
    decreases n,
{
    if n > 0 {
        let rest = reads.drop_first();
        assert(!ends_stream(reads[0]));
        assert forall|j: int| 0 <= j < n - 1 implies !ends_stream(#[trigger] rest[j]) by {
            assert(rest[j] == reads[j + 1]);
        }
        lemma_data_reads(rest, (n - 1) as nat);
    }
}

/// The bytes of the first `m` reads are no fewer than those of the first `n`,
/// for `n <= m`.
proof fn lemma_bytes_grow(reads: Seq<ReadOutcome>, n: nat, m: nat)
    requires
        n <= m,
    ensures
        bytes_of(reads, n).len() <= bytes_of(reads, m).len(),
    decreases m,
{
    if n < m {
        lemma_bytes_grow(reads, n, (m - 1) as nat);
    }
}

/// No read before the one that stops the stream stops it.
proof fn lemma_data_reads_bound(reads: Seq<ReadOutcome>)
    ensures
        data_reads(reads) <= reads.len(),
        forall|j: int| 0 <= j < data_reads(reads) ==> !ends_stream(#[trigger] reads[j]),
        data_reads(reads) < reads.len() ==> ends_stream(reads[data_reads(reads) as int]),
    decreases reads.len(),
{
    if reads.len() == 0 || ends_stream(reads[0]) {
    } else {
        let rest = reads.drop_first();
        lemma_data_reads_bound(rest);
        assert forall|j: int| 0 <= j < data_reads(reads) implies !ends_stream(
            #[trigger] reads[j],
        ) by {
            if j > 0 {
                assert(reads[j] == rest[j - 1]);
            }
        }
        if data_reads(reads) < reads.len() {
            assert(reads[data_reads(reads) as int] == rest[data_reads(rest) as int]);
        }
    }
}

/// Fingerprints the file that a stream of reads delivers.
///
/// The reads are taken in order up to the first that stops the stream. An
/// empty chunk, or the end of `reads`, is the end of the file. A failed read
/// gives the file up, and so does content longer than [`MAX_CONTENT_LEN`].
pub fn hash_file(reads: &Vec<ReadOutcome>) -> (hashed: Result<String, HashError>)
    ensures
        match hashed {
            Ok(fingerprint) => fingerprint_of(reads@) == Some(fingerprint@) && is_fingerprint(
                fingerprint@,
            ),
            Err(HashError::TooLong) => content_of(reads@).len() > MAX_CONTENT_LEN,
            Err(HashError::Unreadable(reason)) => {
                &&& content_of(reads@).len() <= MAX_CONTENT_LEN
                &&& data_reads(reads@) < reads@.len()
                &&& reads@[data_reads(reads@) as int] matches ReadOutcome::Failed(r)
                &&& r@ == reason@
            },
        },
{
    let mut hasher = ContentHasher::new();
    let mut i: usize = 0;
    while i < reads.len()
        invariant
            i <= reads@.len(),
            forall|j: int| 0 <= j < i ==> !ends_stream(#[trigger] reads@[j]),
            hasher.content() == bytes_of(reads@, i as nat),
            hasher.content().len() <= MAX_CONTENT_LEN,
        decreases reads@.len() - i,
    {
        match hasher.step(&reads[i]) {
            HashStep::More(grown) => {
                hasher = grown;
                i = i + 1;
            },
            HashStep::Done(fingerprint) => {
                proof {
                    lemma_data_reads(reads@, i as nat);
                }
                return Ok(fingerprint);
            },
            HashStep::Failed(e) => {
                proof {
                    if ends_stream(reads@[i as int]) {
                        lemma_data_reads(reads@, i as nat);
                    } else {
                        lemma_data_reads_bound(reads@);
                        lemma_bytes_grow(reads@, (i + 1) as nat, data_reads(reads@));
                    }
                }
                return Err(e);
            },
        }
    }
    proof {
        lemma_data_reads(reads@, i as nat);
    }
    Ok(hasher.finish())
}

/// A fingerprint depends on the content alone: two streams of reads that
/// deliver the same bytes, however they are cut into chunks, give the same
/// fingerprint.
pub proof fn lemma_same_content_same_fingerprint(a: Seq<ReadOutcome>, b: Seq<ReadOutcome>)
    requires
        completes(a),
        completes(b),
        content_of(a) == content_of(b),
    ensures
        fingerprint_of(a) is Some,
        fingerprint_of(a) == fingerprint_of(b),
{
}

} // verus!
