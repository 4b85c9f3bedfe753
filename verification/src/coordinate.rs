//! The decisions of the three-process protocol. The router forwards every
//! command but the relocation to the worker; a relocation queries the worker
//! for its own executable path and hands that path, with the new store path,
//! to the patcher. The processes are spawned outside the library; the
//! functions here decide what to spawn and what each captured reply means.

use vstd::prelude::*;
use vstd::string::StringSliceAdditionalSpecFns;
use crate::bytes::bytes_eq;
use crate::identity::StoreError;
use crate::trailer::{TrailerRead, TrailerView};

verus! {

/// The one subcommand the router handles itself.
pub open spec fn relocate_command() -> Seq<u8> {
    "set-config-path".spec_bytes()
}

/// Whether the router handles this subcommand locally; every other
/// subcommand is forwarded to the worker byte for byte.
pub fn handles_locally(sub: &[u8]) -> (r: bool)
    ensures
        r == (sub@ == relocate_command()),
{
    bytes_eq(sub, "set-config-path".as_bytes())
}

/// One patcher invocation: the executable whose trailer is rewritten, the
/// path to store in it, and whether to skip generating a template store.
pub struct PatcherCall {
    pub bin_path: Vec<u8>,
    pub new_cfg_path: Vec<u8>,
    pub no_generate: bool,
}

/// What the router does with the worker's captured reply to the own-path
/// query: a clean exit with a non-empty stdout names the executable to
/// patch; anything else aborts the relocation.
pub fn plan_relocation(
    worker_ok: bool,
    worker_stdout: Vec<u8>,
    new_path: &[u8],
    no_generate: bool,
) -> (r: Result<PatcherCall, StoreError>)
    ensures
        match r {
            Ok(c) => {
                &&& worker_ok
                &&& worker_stdout@.len() > 0
                &&& c.bin_path@ == worker_stdout@
                &&& c.new_cfg_path@ == new_path@
                &&& c.no_generate == no_generate
            },
            Err(e) => e == StoreError::Io && (!worker_ok || worker_stdout@.len() == 0),
        },
{
    if !worker_ok {
        return Err(StoreError::Io);
    }
    if worker_stdout.len() == 0 {
        return Err(StoreError::Io);
    }
    Ok(
        PatcherCall {
            bin_path: worker_stdout,
            new_cfg_path: slice_owned(new_path),
            no_generate,
        },
    )
}

/// An owned copy of a byte slice.
fn slice_owned(s: &[u8]) -> (r: Vec<u8>)
    ensures
        r@ == s@,
{
    vstd::slice::slice_to_vec(s)
}

/// The store path a worker command operates on: an explicit override wins;
/// otherwise the path read from the worker's own trailer. A missing or
/// malformed trailer with no override means no store is configured: the
/// caller reports that a relocation must come first.
pub fn resolve_store_path(explicit: &Option<Vec<u8>>, trailer: &TrailerRead) -> (r: Result<
    Vec<u8>,
    StoreError,
>)
    ensures
        match r {
            Ok(p) => match explicit {
                Some(e) => p@ == e@,
                None => trailer@ matches TrailerView::Path(t) && p@ == t,
            },
            Err(err) => {
                &&& err == StoreError::PathResolution
                &&& explicit is None
                &&& !(trailer@ is Path)
            },
        },
{
    match explicit {
        Some(e) => Ok(crate::identity::clone_bytes(e)),
        None => match trailer {
            TrailerRead::Path(p) => Ok(crate::identity::clone_bytes(p)),
            TrailerRead::NotPresent => Err(StoreError::PathResolution),
            TrailerRead::Malformed => Err(StoreError::PathResolution),
        },
    }
}

/// The content of a freshly generated store file: one header comment line,
/// no records.
pub fn store_template() -> (r: Vec<u8>)
    ensures
        r@ == "# sigrs local author storage\n".spec_bytes(),
{
    slice_owned("# sigrs local author storage\n".as_bytes())
}

} // verus!
