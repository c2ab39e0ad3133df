//! Serving a stored file.
use vstd::prelude::*;
use crate::config::Config;
use crate::status::Status;
use crate::text::opt_view;
use crate::storage::{
    StoragePath, canonicalize, is_canonical, result_view, spec_check_asset,
};

verus! {

/// The file to serve for `/<tag>/<file_name>`: the storage directory joined
/// with `tag` and `file_name`, canonicalized. An internal server error where
/// the storage directory cannot be canonicalized; not found where the file
/// cannot; a bad request where the file lies outside the storage directory
/// (through a symbolic link, say).
///
/// The file system decides which canonical paths come back; whatever it
/// gives, the answer is the one `spec_check_asset` gives for a canonical
/// storage directory and the file's canonical form.
pub fn get_asset_path(tag: &str, file_name: &str, config: &Config) -> (r: Result<String, Status>)
    ensures
        r == Err::<String, Status>(Status::InternalServerError) || exists|
            base: Seq<char>,
            c: Option<Seq<char>>,
        |
            is_canonical(base) && (c matches Some(x) ==> is_canonical(x)) && result_view(r)
                == spec_check_asset(base, c),
{
    let storage = match StoragePath::new(config.storage_path.as_str()) {
        Ok(s) => s,
        Err(e) => return Err(e),
    };
    let full = storage.asset_path(tag, file_name);
    let canonical = canonicalize(full.as_str());
    let ghost c = opt_view(canonical);
    let r = storage.check_asset(canonical);
    assert(is_canonical(storage@) && (c matches Some(x) ==> is_canonical(x)) && result_view(r)
        == spec_check_asset(storage@, c));
    r
}

} // verus!
