//! The decisions behind the sync command line: splitting `SOURCE:DEST`
//! operands, validating a plan, and the process exit code.  Reading the
//! actual arguments and printing usage stay outside.

use vstd::prelude::*;
use crate::types::VPath;

verus! {

/// How a directory is placed on the cluster.
#[derive(Clone, Copy, PartialEq, Eq, Debug, Structural)]
pub enum PlacementMode {
    /// Add a dated version beside existing ones; skip when the same
    /// contents are already there.
    Append,
    /// Add a dated version; skip when the name exists at all.
    AppendWeak,
    /// Swap the current version.
    Replace,
}

/// One requested upload: a local source directory, the virtual path it
/// goes to, and the placement mode.
pub struct SyncUpload {
    pub source: Vec<u8>,
    pub dest: VPath,
    pub mode: PlacementMode,
}

/// Split a `SOURCE:DEST` operand at its first colon (byte 58).
/// Succeeds exactly when a colon is present; the source keeps no colon.
pub fn split_pair(arg: &Vec<u8>) -> (r: Option<(Vec<u8>, Vec<u8>)>)
    ensures
        (match r {
            Some(p) => {
                &&& arg@ == p.0@ + seq![58u8] + p.1@
                &&& !p.0@.contains(58u8)
            },
            None => !arg@.contains(58u8),
        }),
{
    let mut i: usize = 0;
    while i < arg.len()
        invariant
            i <= arg@.len(),
            forall|j: int| 0 <= j < i ==> arg@[j] != 58u8,
        decreases arg@.len() - i,
    {
        if arg[i] == 58u8 {
            let mut src: Vec<u8> = Vec::new();
            let mut j: usize = 0;
            while j < i
                invariant
                    j <= i,
                    i < arg@.len(),
                    src@ == arg@.subrange(0, j as int),
                decreases i - j,
            {
                src.push(arg[j]);
                j = j + 1;
            }
            let mut dst: Vec<u8> = Vec::new();
            let mut k: usize = i + 1;
            while k < arg.len()
                invariant
                    i + 1 <= k <= arg@.len(),
                    dst@ == arg@.subrange(i as int + 1, k as int),
                decreases arg@.len() - k,
            {
                dst.push(arg[k]);
                k = k + 1;
            }
            proof {
                assert(src@ =~= arg@.subrange(0, i as int));
                assert(dst@ =~= arg@.subrange(i as int + 1, arg@.len() as int));
                assert(arg@ =~= src@ + seq![58u8] + dst@);
                assert forall|j2: int| 0 <= j2 < src@.len() implies src@[j2] != 58u8 by {
                    assert(src@[j2] == arg@[j2]);
                }
                if src@.contains(58u8) {
                    let j2 = choose|j2: int| 0 <= j2 < src@.len() && src@[j2] == 58u8;
                    assert(false);
                }
            }
            return Some((src, dst));
        }
        i = i + 1;
    }
    proof {
        if arg@.contains(58u8) {
            let j = choose|j: int| 0 <= j < arg@.len() && arg@[j] == 58u8;
            assert(false);
        }
    }
    None
}

/// Build one upload operation from a `SOURCE:DEST` operand: the operand
/// must hold a colon and the destination must be an absolute virtual
/// path.
pub fn parse_operand(arg: &Vec<u8>, mode: PlacementMode) -> (r: Option<SyncUpload>)
    ensures
        (match r {
            Some(u) => {
                &&& arg@ == u.source@ + seq![58u8] + u.dest@
                &&& !u.source@.contains(58u8)
                &&& u.dest.wf()
                &&& u.mode == mode
            },
            None => !arg@.contains(58u8) || {
                // the part after the first colon is not an absolute path
                forall|p: int|
                    0 <= p < arg@.len() && (#[trigger] arg@[p]) == 58u8 && (forall|q: int|
                        0 <= q < p ==> (#[trigger] arg@[q]) != 58u8) ==> !(p + 1 < arg@.len()
                        && arg@[p + 1] == 47u8)
            },
        }),
{
    let split = split_pair(arg);
    match split {
        Some((src, dst)) => {
            let ghost p = src@.len() as int;
            let path = VPath::new(dst);
            match path {
                Some(dest) => {
                    proof {
                        assert(arg@[p] == 58u8);
                    }
                    Some(SyncUpload { source: src, dest, mode })
                },
                None => {
                    proof {
                        assert forall|p2: int|
                            0 <= p2 < arg@.len() && (#[trigger] arg@[p2]) == 58u8 && (forall|
                                q: int,
                            |
                                0 <= q < p2 ==> (#[trigger] arg@[q]) != 58u8) implies !(p2 + 1
                            < arg@.len() && arg@[p2 + 1] == 47u8) by {
                            assert(arg@[p] == 58u8);
                            assert(p2 == p) by {
                                if p2 < p {
                                    assert(arg@[p2] == src@[p2]);
                                } else if p2 > p {
                                    assert(arg@[p] == 58u8);
                                }
                            }
                        }
                    }
                    None
                },
            }
        },
        None => None,
    }
}

/// The sync command's exit code: key loading failures dominate; then a
/// bad option or any rejected upload; success otherwise.
pub fn sync_exit_code(key_error: bool, option_error: bool, all_uploads_ok: bool) -> (r: i32)
    ensures
        key_error ==> r == 2,
        (!key_error && (option_error || !all_uploads_ok)) ==> r == 1,
        (!key_error && !option_error && all_uploads_ok) ==> r == 0,
{
    if key_error {
        2
    } else if option_error || !all_uploads_ok {
        1
    } else {
        0
    }
}

} // verus!
