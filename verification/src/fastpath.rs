//! The cheap signature over the current directory and the mtime/size of
//! every discovered `.env` file and of the config file. When it matches the
//! one remembered in the state, nothing can have changed and discovery,
//! parsing, merging and diffing are skipped entirely.
//!
//! `config_path` is included so that editing `config.toml` (say, adding a
//! `deny_extra` entry) invalidates the signature even when no `.env`
//! changed. A touch without an edit also invalidates it: occasionally
//! recomputing for nothing is fine; wrongly skipping a real change is not.
use vstd::prelude::*;
use vstd::utf8::encode_utf8;
use crate::bytes::{le_bytes_u64, le_bytes_u128, push_u64_le, push_u128_le, push_all, lemma_le_bytes_u64_injective, lemma_le_bytes_u128_injective};

verus! {

broadcast use vstd::string::group_string_axioms;

/// What the filesystem reported for an existing path.
#[derive(Debug, Clone, Copy, PartialEq, Eq)]
pub struct FileStamp {
    /// Modification time in nanoseconds since the Unix epoch, when the
    /// platform reports one at or after the epoch.
    pub modified_nanos: Option<u128>,
    /// Length in bytes.
    pub len: u64,
}

/// A path and, if it exists, its stamp. A missing file still contributes
/// its path, so its absence is part of the signature too.
#[derive(Debug, Clone)]
pub struct PathStamp {
    pub path: String,
    pub stamp: Option<FileStamp>,
}

/// The bytes one path contributes: the path, then the mtime (if known)
/// and the length (if the file exists), little-endian.
pub open spec fn stamp_bytes(p: PathStamp) -> Seq<u8> {
    encode_utf8(p.path@) + meta_bytes(p.stamp)
}

pub open spec fn meta_bytes(stamp: Option<FileStamp>) -> Seq<u8> {
    match stamp {
        None => Seq::empty(),
        Some(st) => mtime_bytes(st.modified_nanos) + le_bytes_u64(st.len),
    }
}

pub open spec fn mtime_bytes(m: Option<u128>) -> Seq<u8> {
    match m {
        Some(n) => le_bytes_u128(n),
        None => Seq::empty(),
    }
}

pub open spec fn stamps_bytes(ps: Seq<PathStamp>) -> Seq<u8>
    decreases ps.len(),
{
    if ps.len() == 0 {
        Seq::empty()
    } else {
        stamps_bytes(ps.drop_last()) + stamp_bytes(ps.last())
    }
}

/// Everything the signature hashes, in order: the directory, each `.env`
/// file, then the config file.
pub open spec fn signature_input(cwd: Seq<char>, env_files: Seq<PathStamp>, config: PathStamp) -> Seq<u8> {
    encode_utf8(cwd) + stamps_bytes(env_files) + stamp_bytes(config)
}

/// The 64-bit XXH3 hash (default seed and secret) of a byte string.
pub uninterp spec fn xxh3_64_of(bytes: Seq<u8>) -> u64;

/// Calls `xxhash_rust::xxh3::xxh3_64`: a function of the bytes alone.
#[verifier::external_body]
fn xxh3_64(bytes: &[u8]) -> (h: u64)
    ensures
        h == xxh3_64_of(bytes@),
{
    xxhash_rust::xxh3::xxh3_64(bytes)
}

fn push_stamp(buf: &mut Vec<u8>, p: &PathStamp)
    ensures
        final(buf)@ == old(buf)@ + stamp_bytes(*p),
{
    let ghost start = buf@;
    push_all(buf, p.path.as_str().as_bytes());
    assert(buf@ == start + encode_utf8(p.path@));
    match p.stamp {
        None => {},
        Some(st) => {
            match st.modified_nanos {
                Some(n) => push_u128_le(buf, n),
                None => {},
            }
            push_u64_le(buf, st.len);
        },
    }
    assert(final(buf)@ =~= old(buf)@ + stamp_bytes(*p));
}

/// The bytes the signature hashes.
pub fn signature_bytes(cwd: &str, env_files: &[PathStamp], config_path: &PathStamp) -> (buf: Vec<u8>)
    ensures
        buf@ == signature_input(cwd@, env_files@, *config_path),
{
    let mut buf: Vec<u8> = Vec::new();
    push_all(&mut buf, cwd.as_bytes());
    let ghost head = buf@;
    let mut i: usize = 0;
    while i < env_files.len()
        invariant
            i <= env_files@.len(),
            buf@ == head + stamps_bytes(env_files@.take(i as int)),
        decreases env_files.len() - i,
    {
        push_stamp(&mut buf, &env_files[i]);
        proof {
            assert(env_files@.take(i + 1).drop_last() =~= env_files@.take(i as int));
            assert(env_files@.take(i + 1).last() == env_files@[i as int]);
        }
        i = i + 1;
    }
    assert(env_files@.take(env_files@.len() as int) =~= env_files@);
    push_stamp(&mut buf, config_path);
    assert(buf@ =~= signature_input(cwd@, env_files@, *config_path));
    buf
}

/// The signature of the current directory, the discovered `.env` files
/// and the config file, as their stamps describe them.
pub fn compute_signature(cwd: &str, env_files: &[PathStamp], config_path: &PathStamp) -> (sig: u64)
    ensures
        sig == xxh3_64_of(signature_input(cwd@, env_files@, *config_path)),
{
    let buf = signature_bytes(cwd, env_files, config_path);
    xxh3_64(buf.as_slice())
}

// --- laws ------------------------------------------------------------------

/// Same path, and a stamp of the same shape: both missing, or both
/// present and both with or both without an mtime.
pub open spec fn same_shape(a: PathStamp, b: PathStamp) -> bool {
    &&& a.path@ == b.path@
    &&& match (a.stamp, b.stamp) {
        (None, None) => true,
        (Some(x), Some(y)) => (x.modified_nanos is Some) == (y.modified_nanos is Some),
        _ => false,
    }
}

proof fn lemma_same_shape_len(a: PathStamp, b: PathStamp)
    requires
        same_shape(a, b),
    ensures
        stamp_bytes(a).len() == stamp_bytes(b).len(),
{
}

proof fn lemma_split_eq(x1: Seq<u8>, y1: Seq<u8>, x2: Seq<u8>, y2: Seq<u8>)
    requires
        x1 + y1 == x2 + y2,
        y1.len() == y2.len(),
    ensures
        x1 == x2,
        y1 == y2,
{
    let z = x1 + y1;
    assert(x1 =~= z.take(x1.len() as int));
    assert(x2 =~= (x2 + y2).take(x2.len() as int));
    assert(y1 =~= z.skip(x1.len() as int));
    assert(y2 =~= (x2 + y2).skip(x2.len() as int));
}

/// Equal bytes for stamps of the same shape mean equal stamps.
proof fn lemma_stamp_bytes_injective(a: PathStamp, b: PathStamp)
    requires
        same_shape(a, b),
        stamp_bytes(a) == stamp_bytes(b),
    ensures
        a.stamp == b.stamp,
{
    lemma_split_eq(encode_utf8(a.path@), meta_bytes(a.stamp), encode_utf8(b.path@), meta_bytes(b.stamp));
    match (a.stamp, b.stamp) {
        (Some(x), Some(y)) => {
            lemma_split_eq(mtime_bytes(x.modified_nanos), le_bytes_u64(x.len), mtime_bytes(y.modified_nanos), le_bytes_u64(y.len));
            lemma_le_bytes_u64_injective(x.len, y.len);
            match (x.modified_nanos, y.modified_nanos) {
                (Some(n), Some(m)) => lemma_le_bytes_u128_injective(n, m),
                _ => {},
            }
        },
        _ => {},
    }
}

proof fn lemma_stamps_bytes(fs1: Seq<PathStamp>, fs2: Seq<PathStamp>)
    requires
        fs1.len() == fs2.len(),
        forall|i: int| 0 <= i < fs1.len() ==> same_shape(#[trigger] fs1[i], fs2[i]),
    ensures
        stamps_bytes(fs1).len() == stamps_bytes(fs2).len(),
        stamps_bytes(fs1) == stamps_bytes(fs2) ==> forall|i: int| 0 <= i < fs1.len() ==> (#[trigger] fs1[i]).stamp == fs2[i].stamp,
    decreases fs1.len(),
{
    if fs1.len() > 0 {
        let n = fs1.len() - 1;
        let d1 = fs1.drop_last();
        let d2 = fs2.drop_last();
        assert forall|i: int| 0 <= i < d1.len() implies same_shape(#[trigger] d1[i], d2[i]) by {
            assert(d1[i] == fs1[i] && d2[i] == fs2[i]);
        }
        lemma_stamps_bytes(d1, d2);
        assert(same_shape(fs1[n], fs2[n]));
        lemma_same_shape_len(fs1[n], fs2[n]);
        if stamps_bytes(fs1) == stamps_bytes(fs2) {
            lemma_split_eq(stamps_bytes(d1), stamp_bytes(fs1[n]), stamps_bytes(d2), stamp_bytes(fs2[n]));
            lemma_stamp_bytes_injective(fs1[n], fs2[n]);
            assert forall|i: int| 0 <= i < fs1.len() implies (#[trigger] fs1[i]).stamp == fs2[i].stamp by {
                if i < n {
                    assert(d1[i] == fs1[i] && d2[i] == fs2[i]);
                }
            }
        }
    }
}

/// What the signature hashes pins down every stamp: for the same
/// directory and the same paths with stamps of the same shape, equal
/// hashed input means equal stamps. So a touch (a new mtime) or an edit
/// that changes a length -- of any `.env` file or of the config file --
/// changes what is hashed, everything else alike.
pub proof fn law_hashed_input_determines_stamps(
    cwd: Seq<char>,
    fs1: Seq<PathStamp>,
    c1: PathStamp,
    fs2: Seq<PathStamp>,
    c2: PathStamp,
)
    requires
        fs1.len() == fs2.len(),
        forall|i: int| 0 <= i < fs1.len() ==> same_shape(#[trigger] fs1[i], fs2[i]),
        same_shape(c1, c2),
        signature_input(cwd, fs1, c1) == signature_input(cwd, fs2, c2),
    ensures
        forall|i: int| 0 <= i < fs1.len() ==> (#[trigger] fs1[i]).stamp == fs2[i].stamp,
        c1.stamp == c2.stamp,
{
    lemma_stamps_bytes(fs1, fs2);
    lemma_same_shape_len(c1, c2);
    let w = encode_utf8(cwd);
    assert(signature_input(cwd, fs1, c1) =~= (w + stamps_bytes(fs1)) + stamp_bytes(c1));
    assert(signature_input(cwd, fs2, c2) =~= (w + stamps_bytes(fs2)) + stamp_bytes(c2));
    lemma_split_eq(w + stamps_bytes(fs1), stamp_bytes(c1), w + stamps_bytes(fs2), stamp_bytes(c2));
    lemma_split_eq(w, stamps_bytes(fs1), w, stamps_bytes(fs2));
    lemma_stamp_bytes_injective(c1, c2);
}

} // verus!
