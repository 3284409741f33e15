//! Content digests: SHA-256 of a file's bytes in lower-case hexadecimal, and
//! a reserved digest for directories.

use ring::digest::Context;
use vstd::prelude::*;

verus! {

/// The digest context of `ring`. Nothing of its inside is visible here.
#[verifier::external_type_specification]
#[verifier::external_body]
pub struct ExContext(Context);

/// The bytes that a digest context has been given so far, in order.
pub uninterp spec fn absorbed(ctx: Context) -> Seq<u8>;

/// The SHA-256 value of a byte string.
pub uninterp spec fn sha256(data: Seq<u8>) -> Seq<u8>;

/// The most bytes that one digest can cover: their number in bits has to fit
/// in 64 bits.
pub const MAX_CONTENT: u64 = 0x1fff_ffff_ffff_ffff;

/// `ring::digest::Context::new` for SHA-256: a context that has been given
/// nothing yet.
#[verifier::external_body]
fn context_new() -> (ctx: Context)
    ensures
        absorbed(ctx) == Seq::<u8>::empty(),
{
    Context::new(&ring::digest::SHA256)
}

/// `ring::digest::Context::update`: the context takes `data` in behind what
/// it holds.
#[verifier::external_body]
fn context_update(ctx: &mut Context, data: &[u8])
    ensures
        absorbed(*final(ctx)) == absorbed(*old(ctx)) + data@,
{
    ctx.update(data);
}

/// `ring::digest::Context::finish`: the SHA-256 value of all that the context
/// was given, 32 bytes. It fails on more than `MAX_CONTENT` bytes, which
/// the precondition leaves out.
#[verifier::external_body]
fn context_finish(ctx: Context) -> (out: Vec<u8>)
    requires
        absorbed(ctx).len() <= MAX_CONTENT,
    ensures
        out@ == sha256(absorbed(ctx)),
        out@.len() == 32,
{
    ctx.finish().as_ref().to_vec()
}

/// `ring::digest::Algorithm::output_len` of SHA-256: 32 bytes.
#[verifier::external_body]
fn sha256_output_len() -> (n: usize)
    ensures
        n == 32,
{
    ring::digest::SHA256.output_len()
}

/// `base16::encode_lower`: two lower-case hexadecimal digits for each byte,
/// the high half first. It fails on a length whose double does not fit in
/// `usize`, which the precondition leaves out.
#[verifier::external_body]
fn encode_lower(bytes: &[u8]) -> (s: String)
    requires
        bytes@.len() <= 0x3fff_ffff,
    ensures
        s@ == hex_lower(bytes@),
{
    base16::encode_lower(bytes)
}

/// The lower-case hexadecimal digit for a value below 16.
pub open spec fn hex_digit(n: int) -> char {
    seq!['0', '1', '2', '3', '4', '5', '6', '7', '8', '9', 'a', 'b', 'c', 'd', 'e', 'f'][n]
}

/// Lower-case hexadecimal text of a byte string: two digits a byte, the high
/// half first.
pub open spec fn hex_lower(bytes: Seq<u8>) -> Seq<char> {
    Seq::new(
        2 * bytes.len(),
        |i: int|
            if i % 2 == 0 {
                hex_digit(bytes[i / 2] as int / 16)
            } else {
                hex_digit(bytes[i / 2] as int % 16)
            },
    )
}

/// The number of characters of a digest.
pub open spec fn digest_len() -> nat {
    64
}

/// The digest of a file with the given content.
pub open spec fn file_digest(content: Seq<u8>) -> Seq<char> {
    hex_lower(sha256(content))
}

/// The digest that stands for a directory: as many `-` as a digest is long.
pub open spec fn dir_digest() -> Seq<char> {
    Seq::new(digest_len(), |i: int| '-')
}

/// The content that results when `chunks` are taken in after `content`.
pub open spec fn feed_all(content: Seq<u8>, chunks: Seq<Seq<u8>>) -> Seq<u8>
    decreases chunks.len(),
{
    if chunks.len() == 0 {
        content
    } else {
        feed_all(content + chunks[0], chunks.drop_first())
    }
}

/// The number of characters of a digest.
pub fn digest_length() -> (n: usize)
    ensures
        n == digest_len(),
{
    sha256_output_len() * 2
}

/// The digest of a directory.
pub fn dir_hash() -> (s: String)
    ensures
        s@ == dir_digest(),
{
    let n = digest_length();
    let mut s = String::new();
    let mut i: usize = 0;
    while i < n
        invariant
            i <= n,
            n == digest_len(),
            s@ == Seq::new(i as nat, |k: int| '-'),
        decreases n - i,
    {
        s.append("-");
        proof {
            reveal_strlit("-");
            assert(s@ =~= Seq::new((i + 1) as nat, |k: int| '-'));
        }
        i += 1;
    }
    s
}

/// The digest of a file in the making: what has been read of the file so far.
pub struct FileHasher {
    ctx: Context,
    len: u64,
}

/// What the caller reports while a path is hashed.
pub enum HashEvent<'a, E> {
    /// Hashing starts; `is_dir` tells whether the path is a directory.
    Start { is_dir: bool },
    /// The next bytes of the file; an empty chunk is the end of the file.
    Chunk(&'a [u8]),
    /// The file could not be opened or read; this is the error.
    ReadFailed(E),
}

/// What the caller has to do next.
pub enum HashStep<E> {
    /// Read the next chunk of the file and report it.
    Read(FileHasher),
    /// The digest is complete.
    Done(String),
    /// No digest: reading failed with this error, the one that was reported.
    Failed(E),
    /// No digest: the file is longer than `MAX_CONTENT`.
    TooLong,
}

impl FileHasher {
    #[verifier::type_invariant]
    spec fn counted(&self) -> bool {
        absorbed(self.ctx).len() == self.len && self.len <= MAX_CONTENT
    }

    /// The bytes taken in so far.
    pub closed spec fn content(&self) -> Seq<u8> {
        absorbed(self.ctx)
    }

    /// A hasher that has taken in nothing yet.
    pub fn new() -> (h: FileHasher)
        ensures
            h.content() == Seq::<u8>::empty(),
    {
        FileHasher { ctx: context_new(), len: 0 }
    }
}

/// One step of hashing a path. A directory gets the reserved digest at once
/// and is never read. A file is read chunk by chunk, each chunk is taken in
/// behind the ones before it, and the empty chunk at the end of the file
/// completes the digest of all of them. An error of reading is handed back
/// as it came.
pub fn hash_file<E>(hasher: FileHasher, event: HashEvent<E>) -> (step: HashStep<E>)
    ensures
        match event {
            HashEvent::Start { is_dir } => if is_dir {
                step matches HashStep::Done(d) && d@ == dir_digest()
            } else {
                step matches HashStep::Read(h) && h.content() == hasher.content()
            },
            HashEvent::Chunk(data) => if data@.len() == 0 {
                step matches HashStep::Done(d) && d@ == file_digest(hasher.content())
            } else if hasher.content().len() + data@.len() <= MAX_CONTENT {
                step matches HashStep::Read(h) && h.content() == hasher.content() + data@
            } else {
                step is TooLong
            },
            HashEvent::ReadFailed(error) => step matches HashStep::Failed(e) && e == error,
        },
{
    proof {
        use_type_invariant(&hasher);
    }
    match event {
        HashEvent::Start { is_dir } => {
            if is_dir {
                HashStep::Done(dir_hash())
            } else {
                HashStep::Read(hasher)
            }
        },
        HashEvent::Chunk(data) => {
            let FileHasher { ctx, len } = hasher;
            if data.len() == 0 {
                let bytes = context_finish(ctx);
                HashStep::Done(encode_lower(bytes.as_slice()))
            } else if data.len() as u64 <= MAX_CONTENT - len {
                let mut ctx = ctx;
                context_update(&mut ctx, data);
                HashStep::Read(FileHasher { ctx, len: len + data.len() as u64 })
            } else {
                HashStep::TooLong
            }
        },
        HashEvent::ReadFailed(error) => HashStep::Failed(error),
    }
}

/// Chunks that are taken in one after the other add up to their
/// concatenation.
pub proof fn lemma_feed_all_concatenates(content: Seq<u8>, chunks: Seq<Seq<u8>>)
    ensures
        feed_all(content, chunks) == content + chunks.flatten(),
    decreases chunks.len(),
{
    if chunks.len() == 0 {
        assert(content + chunks.flatten() == content);
    } else {
        lemma_feed_all_concatenates(content + chunks[0], chunks.drop_first());
        assert(content + chunks[0] + chunks.drop_first().flatten() == content + chunks.flatten());
    }
}

/// Hashing is deterministic: the digest of a file depends on its content and
/// on nothing else, whichever way the content is cut into chunks.
pub proof fn lemma_digest_depends_on_content_only(a: Seq<Seq<u8>>, b: Seq<Seq<u8>>)
    requires
        a.flatten() == b.flatten(),
    ensures
        file_digest(feed_all(Seq::empty(), a)) == file_digest(feed_all(Seq::empty(), b)),
{
    lemma_feed_all_concatenates(Seq::empty(), a);
    lemma_feed_all_concatenates(Seq::empty(), b);
}

/// The digest of a directory is no file's digest: a file's digest is made of
/// hexadecimal digits, and `-` is none.
pub proof fn lemma_dir_digest_is_no_file_digest(content: Seq<u8>)
    ensures
        file_digest(content) != dir_digest(),
        forall|i: int| 0 <= i < file_digest(content).len() ==> file_digest(content)[i] != '-',
{
    let d = file_digest(content);
    let bytes = sha256(content);
    assert forall|i: int| 0 <= i < d.len() implies d[i] != '-' by {
        let b = bytes[i / 2] as int;
        assert(0 <= b / 16 < 16 && 0 <= b % 16 < 16);
        lemma_hex_digit_is_no_dash(b / 16);
        lemma_hex_digit_is_no_dash(b % 16);
    }
    if d == dir_digest() {
        assert(d.len() == 64);
        assert(dir_digest()[0] == '-');
    }
}

proof fn lemma_hex_digit_is_no_dash(n: int)
    requires
        0 <= n < 16,
    ensures
        hex_digit(n) != '-',
{
}

} // verus!
