//! `git`: any git command, run in the store.
use vstd::prelude::*;
use crate::store::ensure_store_exists;

verus! {

/// Checks a `mind git` call before its arguments go to git: the store must
/// exist, and there must be arguments.
pub fn run(store_dir: &str, store_exists: bool, args: &Vec<String>) -> (r: Result<(), String>)
    ensures
        !store_exists ==> (r matches Err(e) && e@ == "Mind store not found at "@ + store_dir@
            + ". Run `mind init` first."@),
        store_exists && args@.len() == 0 ==> (r matches Err(e) && e@
            == "No git arguments provided. Usage: mind git <args...>"@),
        store_exists && args@.len() > 0 ==> r is Ok,
{
    ensure_store_exists(store_dir, store_exists)?;
    if args.len() == 0 {
        return Err("No git arguments provided. Usage: mind git <args...>".to_owned());
    }
    Ok(())
}

} // verus!
