//! When the tables that imports are resolved with can be used again.

use crate::text;
use vstd::prelude::*;

verus! {

/// Tables are built anew after this many milliseconds: some of them are read
/// from sources whose changes no single file shows.
pub const RESOLUTION_MAPS_TTL_MS: u64 = 60000;

/// When a file was last modified.
#[derive(Clone, Copy, Debug, PartialEq, Eq, Structural)]
pub struct Stamp {
    pub secs: i64,
    pub nanos: u32,
}

/// When the manifests at the project's root were last modified; none where
/// there is no such file.
pub struct ManifestStamps {
    pub cargo_toml: Option<Stamp>,
    pub cargo_lock: Option<Stamp>,
    pub composer_json: Option<Stamp>,
}

fn same_stamp(a: Option<Stamp>, b: Option<Stamp>) -> (r: bool)
    ensures
        r == (a == b),
{
    match (a, b) {
        (Some(x), Some(y)) => x == y,
        (None, None) => true,
        _ => false,
    }
}

/// Can tables of this age, built when the manifests stood at `built`, be used
/// while the manifests stand at `now`?
pub fn maps_are_fresh(age_ms: u64, built: &ManifestStamps, now: &ManifestStamps) -> (r: bool)
    ensures
        r == (age_ms < RESOLUTION_MAPS_TTL_MS && *built == *now),
{
    age_ms < RESOLUTION_MAPS_TTL_MS && same_stamp(built.cargo_toml, now.cargo_toml) && same_stamp(
        built.cargo_lock,
        now.cargo_lock,
    ) && same_stamp(built.composer_json, now.composer_json)
}

/// Is `rel` one of the manifests at the project's root that the tables are
/// built from? A manifest further down is not.
pub open spec fn is_root_manifest(rel: Seq<char>) -> bool {
    rel == "Cargo.toml"@ || rel == "Cargo.lock"@ || rel == "composer.json"@
}

pub fn is_manifest_path(rel: &str) -> (r: bool)
    ensures
        r == is_root_manifest(rel@),
{
    let cs = text::chars_of(rel);
    text::is(cs.as_slice(), "Cargo.toml") || text::is(cs.as_slice(), "Cargo.lock") || text::is(
        cs.as_slice(),
        "composer.json",
    )
}

} // verus!
