//! The decisions of the batch driver that runs the codec over files: which
//! direction a path asks for, which files are targets, and how the targets
//! are shared out among workers.

use vstd::prelude::*;
use crate::error::TargetPathError;

verus! {

/// How the batch driver treats a path.
#[derive(Copy, Clone, Debug)]
pub struct Options {
    /// Keep each input file after writing its output.
    pub keep: bool,
    /// `Some(true)` to compress, `Some(false)` to decompress, `None` to go by
    /// the file's extension.
    pub compress: Option<bool>,
    /// Descend into subdirectories.
    pub recursive: bool,
    /// Share many targets out among worker threads.
    pub threading: bool,
    /// Compression level, between 1 and 19.
    pub level: i32,
    /// Report each file done.
    pub log: bool,
}

impl Default for Options {
    fn default() -> (r: Options)
        ensures
            r.keep,
            r.compress is None,
            !r.recursive,
            r.threading,
            r.level == 3,
            r.log,
    {
        Options { keep: true, compress: None, recursive: false, threading: true, level: 3, log: true }
    }
}

/// The extension of raw files: `slp`.
pub open spec fn raw_extension() -> Seq<u8> {
    seq![0x73u8, 0x6Cu8, 0x70u8]
}

/// The extension of compact files: `slpz`.
pub open spec fn compact_extension() -> Seq<u8> {
    seq![0x73u8, 0x6Cu8, 0x70u8, 0x7Au8]
}

/// The extension of the files that the direction `compress` takes as input.
pub open spec fn input_extension(compress: bool) -> Seq<u8> {
    if compress {
        raw_extension()
    } else {
        compact_extension()
    }
}

/// Whether a file with extension `extension` is an input of the direction
/// `compress`.
pub fn is_target(compress: bool, extension: Option<&[u8]>) -> (r: bool)
    ensures
        r == (extension matches Some(x) && x@ == input_extension(compress)),
{
    match extension {
        None => false,
        Some(x) => {
            let r = if compress {
                x.len() == 3 && x[0] == 0x73 && x[1] == 0x6C && x[2] == 0x70
            } else {
                x.len() == 4 && x[0] == 0x73 && x[1] == 0x6C && x[2] == 0x70 && x[3] == 0x7A
            };
            proof {
                if r {
                    assert(x@ =~= input_extension(compress));
                } else if x@ == input_extension(compress) {
                    assert(x@[0] == input_extension(compress)[0]);
                }
            }
            r
        },
    }
}

/// The direction that a path asks for: the one that `compress` names, or
/// for a single file without one, the one whose input its extension is.
pub open spec fn mode_of(
    compress: Option<bool>,
    exists: bool,
    is_dir: bool,
    is_file: bool,
    extension: Option<Seq<u8>>,
) -> Result<bool, TargetPathError> {
    if !exists {
        Err(TargetPathError::PathNotFound)
    } else if !is_dir && !is_file {
        Err(TargetPathError::PathInvalid)
    } else {
        match compress {
            Some(c) => Ok(c),
            None => if is_dir {
                Err(TargetPathError::CompressOrDecompressAmbiguous)
            } else if extension == Some(raw_extension()) {
                Ok(true)
            } else if extension == Some(compact_extension()) {
                Ok(false)
            } else {
                Err(TargetPathError::CompressOrDecompressAmbiguous)
            },
        }
    }
}

/// Decides whether the batch driver compresses (`true`) or decompresses
/// (`false`) a path: whether it exists, is a directory or a file, and the
/// file's extension.
pub fn target_mode(
    compress: Option<bool>,
    exists: bool,
    is_dir: bool,
    is_file: bool,
    extension: Option<&[u8]>,
) -> (r: Result<bool, TargetPathError>)
    ensures
        r == mode_of(
            compress,
            exists,
            is_dir,
            is_file,
            match extension {
                Some(x) => Some(x@),
                None => None,
            },
        ),
{
    if !exists {
        return Err(TargetPathError::PathNotFound);
    }
    if !is_dir && !is_file {
        return Err(TargetPathError::PathInvalid);
    }
    match compress {
        Some(c) => Ok(c),
        None => {
            if is_dir {
                Err(TargetPathError::CompressOrDecompressAmbiguous)
            } else if is_target(true, extension) {
                Ok(true)
            } else if is_target(false, extension) {
                Ok(false)
            } else {
                Err(TargetPathError::CompressOrDecompressAmbiguous)
            }
        },
    }
}

/// Number of workers among which many targets are shared.
pub const WORKERS: usize = 8;

/// Fewest targets for which the driver starts workers.
pub const MIN_THREADED_TARGETS: usize = 8;

/// Where worker `i`'s share of `n` targets starts: the first `n % 8` workers
/// take one target more than the others.
pub open spec fn share_start(n: int, i: int) -> int {
    i * (n / 8) + if i < n % 8 {
        i
    } else {
        n % 8
    }
}

proof fn lemma_share_bounds(n: int, k: int)
    requires
        0 <= n,
        0 <= k <= 8,
    ensures
        0 <= share_start(n, k) <= n,
        k < 8 ==> share_start(n, k + 1) == share_start(n, k) + n / 8 + if k < n % 8 {
            1int
        } else {
            0int
        },
        share_start(n, 8) == n,
{
    let c = n / 8;
    let x = n % 8;
    assert(n == 8 * c + x && 0 <= x < 8 && 0 <= c);
    assert(0 <= k * c <= 8 * c) by (nonlinear_arith)
        requires
            0 <= k <= 8,
            0 <= c,
    ;
    assert((k + 1) * c == k * c + c) by (nonlinear_arith);
}

/// The shares of `n` targets as index ranges: all of them in one range when
/// `threading` is off or there are fewer than 8 targets, else 8 consecutive
/// ranges whose lengths differ by at most one, longest first.
pub fn worker_slices(threading: bool, n: usize) -> (r: Vec<(usize, usize)>)
    ensures
        !threading || n < MIN_THREADED_TARGETS ==> r@ == seq![(0usize, n)],
        threading && n >= MIN_THREADED_TARGETS ==> {
            &&& r@.len() == WORKERS
            &&& forall|i: int|
                0 <= i < 8 ==> #[trigger] r@[i] == (share_start(n as int, i) as usize, share_start(
                    n as int,
                    i + 1,
                ) as usize)
        },
        forall|i: int| 0 <= i < r@.len() ==> #[trigger] r@[i].0 <= r@[i].1 <= n,
        r@.len() > 0 && r@[0].0 == 0 && r@[r@.len() - 1].1 == n,
{
    let mut slices: Vec<(usize, usize)> = Vec::new();
    if !threading || n < MIN_THREADED_TARGETS {
        slices.push((0, n));
        proof {
            assert(slices@ =~= seq![(0usize, n)]);
        }
        return slices;
    }
    let chunk = n / WORKERS;
    let extra = n % WORKERS;
    let mut start: usize = 0;
    let mut i: usize = 0;
    while i < WORKERS
        invariant
            i <= 8,
            chunk == n / 8,
            extra == n % 8,
            n == chunk * 8 + extra,
            start == share_start(n as int, i as int),
            start <= n,
            slices@.len() == i,
            forall|k: int|
                0 <= k < i ==> #[trigger] slices@[k] == (share_start(n as int, k) as usize, share_start(
                    n as int,
                    k + 1,
                ) as usize),
        decreases 8 - i,
    {
        proof {
            lemma_share_bounds(n as int, i as int);
            lemma_share_bounds(n as int, i + 1);
        }
        let size = if i < extra {
            chunk + 1
        } else {
            chunk
        };
        assert((i + 1) * chunk == i * chunk + chunk) by (nonlinear_arith);
        let end = start + size;
        slices.push((start, end));
        start = end;
        i = i + 1;
    }
    proof {
        lemma_share_bounds(n as int, 8);
        assert forall|k: int| 0 <= k < slices@.len() implies #[trigger] slices@[k].0 <= slices@[k].1
            <= n by {
            lemma_share_bounds(n as int, k);
            lemma_share_bounds(n as int, k + 1);
        }
        lemma_share_bounds(n as int, 0);
    }
    slices
}

} // verus!
