//! Temporary-file naming for crash-safe writes: a signing rewrite goes to a
//! fresh file beside its target and is renamed over it. The name is derived
//! from the target's directory and a time-based seed; whether that directory
//! exists is for the caller to check, since only it touches the file system.

use vstd::prelude::*;
use vstd::string::StringSliceAdditionalSpecFns;
use crate::identity::StoreError;

verus! {

pub const SLASH_BITS: u8 = 47u8;

/// The index of the last path separator of `s`; -1 when none exists.
pub open spec fn last_slash(s: Seq<u8>) -> int
    decreases s.len(),
{
    if s.len() == 0 {
        -1
    } else if s[s.len() - 1] == SLASH_BITS {
        s.len() - 1
    } else {
        last_slash(s.drop_last())
    }
}

/// The lower-case hex digit of a value below sixteen.
pub open spec fn hex_digit_lower(v: int) -> u8 {
    if v < 10 {
        (48 + v) as u8
    } else {
        (87 + v) as u8
    }
}

/// The lower-case hexadecimal of `v`, without padding.
pub open spec fn hex_lower(v: int) -> Seq<u8>
    decreases v,
{
    if v < 16 {
        seq![hex_digit_lower(if v < 0 {
            0
        } else {
            v
        })]
    } else {
        hex_lower(v / 16).push(hex_digit_lower(v % 16))
    }
}

/// The temporary path derived from `path`'s directory and a seed: the
/// directory part up to and including its last separator, then `sigrs` and
/// the seed in `0x`-prefixed lower-case hex.
pub open spec fn temp_name(path: Seq<u8>, seed: u64) -> Seq<u8> {
    path.subrange(0, last_slash(path) + 1) + "sigrs0x".spec_bytes() + hex_lower(seed as int)
}

/// When `i` is a separator with none after it, the backward scan stops
/// there.
proof fn lemma_last_slash_is(s: Seq<u8>, i: int)
    requires
        0 <= i < s.len(),
        s[i] == SLASH_BITS,
        forall|j: int| i < j < s.len() ==> s[j] != SLASH_BITS,
    ensures
        last_slash(s) == i,
    decreases s.len(),
{
    if i < s.len() - 1 {
        assert(s.drop_last()[i] == s[i]);
        lemma_last_slash_is(s.drop_last(), i);
    }
}

/// With no separator at all, the backward scan reaches the path start.
proof fn lemma_last_slash_none(s: Seq<u8>)
    requires
        forall|j: int| 0 <= j < s.len() ==> s[j] != SLASH_BITS,
    ensures
        last_slash(s) == -1,
    decreases s.len(),
{
    if s.len() > 0 {
        lemma_last_slash_none(s.drop_last());
    }
}

/// Renders `v` as `0x`-free lower-case hex digits.
fn render_hex_lower(v: u64) -> (r: Vec<u8>)
    ensures
        r@ == hex_lower(v as int),
    decreases v,
{
    if v < 16 {
        let d: u8 = if v < 10 {
            (48 + v) as u8
        } else {
            (87 + v) as u8
        };
        let mut r: Vec<u8> = Vec::new();
        r.push(d);
        proof {
            assert(r@ =~= seq![hex_digit_lower(v as int)]);
        }
        r
    } else {
        let mut r = render_hex_lower(v / 16);
        let d: u8 = {
            let m = v % 16;
            if m < 10 {
                (48 + m) as u8
            } else {
                (87 + m) as u8
            }
        };
        r.push(d);
        r
    }
}

/// The temporary path beside `path` for a given seed; fails when the path
/// has no directory part.
pub fn temp_path_for(path: &[u8], seed: u64) -> (r: Result<Vec<u8>, StoreError>)
    ensures
        match r {
            Ok(p) => last_slash(path@) >= 0 && p@ == temp_name(path@, seed),
            Err(e) => e == StoreError::PathResolution && last_slash(path@) < 0,
        },
{
    let mut idx = path.len();
    loop
        invariant
            idx <= path@.len(),
            forall|j: int| idx <= j < path@.len() ==> path@[j] != SLASH_BITS,
        decreases idx,
    {
        if idx == 0 {
            proof {
                lemma_last_slash_none(path@);
            }
            return Err(StoreError::PathResolution);
        }
        if path[idx - 1] == SLASH_BITS {
            proof {
                lemma_last_slash_is(path@, idx - 1);
            }
            let mut out = vstd::slice::slice_to_vec(vstd::slice::slice_subrange(path, 0, idx));
            crate::parse::push_bytes(&mut out, "sigrs0x".as_bytes());
            let digits = render_hex_lower(seed);
            crate::parse::push_bytes(&mut out, digits.as_slice());
            proof {
                assert(out@ =~= temp_name(path@, seed));
            }
            return Ok(out);
        }
        idx = idx - 1;
    }
}

/// Relies on `SystemTime`: the seconds since the epoch, used only to vary
/// temporary file names between runs.
#[verifier::external_body]
fn epoch_seconds() -> u64 {
    std::time::UNIX_EPOCH.elapsed().unwrap_or(std::time::Duration::MAX).as_secs()
}

/// A temporary file path in the same directory as `path`, its name salted
/// with the current time; fails when the path has no directory part.
pub fn generate_temp_path(path: &[u8]) -> (r: Result<Vec<u8>, StoreError>)
    ensures
        match r {
            Ok(p) => last_slash(path@) >= 0 && exists|s: u64| p@ == temp_name(path@, s),
            Err(e) => e == StoreError::PathResolution && last_slash(path@) < 0,
        },
{
    let seed = epoch_seconds();
    let r = temp_path_for(path, seed);
    proof {
        if r is Ok {
            assert(r->Ok_0@ == temp_name(path@, seed));
        }
    }
    r
}

} // verus!
