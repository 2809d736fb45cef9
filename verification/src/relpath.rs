//! Re-expressing a canonical path relative to a base directory.
//!
//! When a generated document records a file that lies under the working
//! directory, the record carries the path relative to it; a file outside
//! the working tree keeps its original form. The caller canonicalizes
//! both paths (that is filesystem work); this module only rewrites
//! bytes.

use vstd::prelude::*;
use crate::codec::copy_range;

verus! {

/// The prefix that a path under `base` starts with: `base` itself when
/// it already ends with a separator, else `base` plus one.
pub open spec fn base_prefix_len(base: Seq<u8>) -> int {
    if base.len() > 0 && base.last() == 47 {
        base.len() as int
    } else {
        base.len() as int + 1
    }
}

/// Whether `canonical` names something strictly inside `base`.
pub open spec fn is_under(canonical: Seq<u8>, base: Seq<u8>) -> bool {
    &&& canonical.len() > base_prefix_len(base)
    &&& canonical.subrange(0, base.len() as int) == base
    &&& canonical[base_prefix_len(base) - 1] == 47
}

/// The path a record carries for `canonical`: its remainder after
/// `base`'s prefix when it lies under `base`, else `fallback` unchanged.
pub open spec fn spec_relativize(canonical: Seq<u8>, base: Seq<u8>, fallback: Seq<u8>) -> Seq<u8> {
    if is_under(canonical, base) {
        canonical.skip(base_prefix_len(base))
    } else {
        fallback
    }
}

/// Rewrites `canonical` relative to the directory `base`, falling back
/// to `fallback` when `canonical` does not lie under `base`.
pub fn relativize(canonical: &[u8], base: &[u8], fallback: &[u8]) -> (r: Vec<u8>)
    ensures
        r@ == spec_relativize(canonical@, base@, fallback@),
{
    let nb: usize = base.len();
    let nc: usize = canonical.len();
    let ghost plen = base_prefix_len(base@);
    let mut j: usize = 0;
    while j < nb && j < nc && base[j] == canonical[j]
        invariant
            0 <= j <= nb,
            j <= nc,
            nb == base@.len(),
            nc == canonical@.len(),
            forall|k: int| 0 <= k < j ==> base@[k] == canonical@[k],
        decreases nb - j,
    {
        j = j + 1;
    }
    if j < nb {
        proof {
            if canonical@.len() > base_prefix_len(base@) {
                assert(j < nc);
                assert(base@[j as int] != canonical@[j as int]);
                if canonical@.subrange(0, nb as int) == base@ {
                    assert(canonical@.subrange(0, nb as int)[j as int] == canonical@[j as int]);
                }
            }
            assert(!is_under(canonical@, base@));
        }
        return copy_range(fallback, 0, fallback.len());
    }
    proof {
        if nc >= nb {
            assert(canonical@.subrange(0, nb as int) =~= base@);
        }
    }
    let sep_ok: bool = if nb > 0 && base[nb - 1] == 47 {
        proof {
            assert(plen == nb);
        }
        nc > nb
    } else {
        proof {
            assert(plen == nb + 1);
        }
        nc - nb > 1 && canonical[nb] == 47
    };
    if sep_ok {
        proof {
            assert(canonical@[plen - 1] == 47);
            assert(is_under(canonical@, base@));
        }
        let start: usize = if nb > 0 && base[nb - 1] == 47 {
            nb
        } else {
            nb + 1
        };
        let r = copy_range(canonical, start, nc);
        proof {
            assert(r@ =~= canonical@.skip(plen));
        }
        r
    } else {
        proof {
            assert(!is_under(canonical@, base@));
        }
        copy_range(fallback, 0, fallback.len())
    }
}

} // verus!
