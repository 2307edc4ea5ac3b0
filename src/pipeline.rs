use vstd::prelude::*;
use crate::address::TypeAddress;
use crate::manifest::{sha256, sha256_of};
use crate::schedule::System;
use crate::text::{hex_of, joined, lowercase, lowercase_of, replace_spaces, spaces_to_underscores, to_hex};

verus! {

/// The suffix of the package that exports a mod's manifest.
pub const EXPORT_MANIFEST: &'static str = "_export_manifest";

/// The suffix of the package that exports a mod's systems.
pub const EXPORT_SYSTEMS: &'static str = "_export_systems";

/// The package name of a plug-in source: its file stem in lowercase with
/// spaces as underscores, an underscore, and the hex of the first four bytes
/// of the SHA-256 of its path.
pub open spec fn package_name(stem: Seq<char>, path: Seq<u8>) -> Seq<char> {
    spaces_to_underscores(lowercase_of(stem)) + "_"@ + hex_of(sha256_of(path).subrange(0, 4))
}

/// A plug-in source file as the build sees it.
#[derive(Clone, Debug)]
pub struct ModSource {
    pub name: String,
    /// Whether the generated scaffolds match the current manifest.
    pub finished_codegen: bool,
}

impl ModSource {
    /// The source with the given file stem and path bytes, before any codegen.
    pub fn new(stem: &str, path: &[u8]) -> (r: ModSource)
        ensures
            r.name@ == package_name(stem@, path@),
            !r.finished_codegen,
    {
        let digest = sha256(path);
        let prefix = [digest[0], digest[1], digest[2], digest[3]];
        assert(prefix@ =~= digest@.subrange(0, 4));
        let suffix = to_hex(&prefix);
        let lower = lowercase(stem);
        let stem_part = replace_spaces(lower.as_str());
        let name = joined(stem_part.as_str(), "_", suffix.as_str());
        ModSource { name, finished_codegen: false }
    }

    pub fn get_manifest_export_package(&self) -> (r: String)
        ensures
            r@ == self.name@ + EXPORT_MANIFEST@,
    {
        proof {
            reveal_strlit("");
        }
        let r = joined(self.name.as_str(), EXPORT_MANIFEST, "");
        assert(r@ =~= self.name@ + EXPORT_MANIFEST@);
        r
    }

    pub fn get_systems_export_package(&self) -> (r: String)
        ensures
            r@ == self.name@ + EXPORT_SYSTEMS@,
    {
        proof {
            reveal_strlit("");
        }
        let r = joined(self.name.as_str(), EXPORT_SYSTEMS, "");
        assert(r@ =~= self.name@ + EXPORT_SYSTEMS@);
        r
    }

    /// The packages to build: the manifest export, and the systems export once
    /// the codegen matches the manifest.
    pub fn get_packages(&self) -> (r: Vec<String>)
        ensures
            r@.len() == if self.finished_codegen { 2int } else { 1int },
            r@[0]@ == self.name@ + EXPORT_MANIFEST@,
            self.finished_codegen ==> r@[1]@ == self.name@ + EXPORT_SYSTEMS@,
    {
        let mut packages: Vec<String> = Vec::new();
        packages.push(self.get_manifest_export_package());
        if self.finished_codegen {
            packages.push(self.get_systems_export_package());
        }
        packages
    }

    /// Records the manifest just extracted: where it differs from the one the
    /// codegen was made from, the codegen must be made again.
    pub fn observe_manifest(&mut self, previous: Option<&Vec<u8>>, current: &Vec<u8>)
        ensures
            final(self).name == old(self).name,
            final(self).finished_codegen == (old(self).finished_codegen && !manifest_drifted_spec(
                previous,
                current,
            )),
    {
        if manifest_drifted(previous, current) {
            self.finished_codegen = false;
        }
    }
}

/// The packages to build when building everything at once failed: the
/// manifest export of each source, in order.
pub fn fallback_packages(sources: &Vec<ModSource>) -> (r: Vec<String>)
    ensures
        r@.len() == sources@.len(),
        forall|i: int| 0 <= i < r@.len() ==> (#[trigger] r@[i])@ == sources@[i].name@ + EXPORT_MANIFEST@,
{
    let mut out: Vec<String> = Vec::new();
    let mut i: usize = 0;
    while i < sources.len()
        invariant
            0 <= i <= sources@.len(),
            out@.len() == i,
            forall|j: int| 0 <= j < i ==> (#[trigger] out@[j])@ == sources@[j].name@ + EXPORT_MANIFEST@,
        decreases sources@.len() - i,
    {
        out.push(sources[i].get_manifest_export_package());
        i += 1;
    }
    out
}

/// Whether the encoded manifest differs from the one of the previous build,
/// or there was none.
pub open spec fn manifest_drifted_spec(previous: Option<&Vec<u8>>, current: &Vec<u8>) -> bool {
    match previous {
        None => true,
        Some(p) => p@ != current@,
    }
}

/// Compares the encoded manifest of this build with that of the previous one.
pub fn manifest_drifted(previous: Option<&Vec<u8>>, current: &Vec<u8>) -> (r: bool)
    ensures
        r == manifest_drifted_spec(previous, current),
{
    match previous {
        None => true,
        Some(p) => {
            if p.len() != current.len() {
                return true;
            }
            let mut i: usize = 0;
            while i < p.len()
                invariant
                    0 <= i <= p@.len(),
                    p@.len() == current@.len(),
                    previous is Some && previous->0@ == p@,
                    forall|j: int| 0 <= j < i ==> p@[j] == current@[j],
                decreases p@.len() - i,
            {
                if p[i] != current[i] {
                    assert(p@[i as int] != current@[i as int]);
                    return true;
                }
                i += 1;
            }
            assert(p@ =~= current@);
            false
        },
    }
}

/// Values for the `Cargo.toml` of a mod's imports package.
pub struct ImportsCargo<'a> {
    pub file_name: &'a str,
    pub modloader_version: &'a str,
    pub dev_mode: &'a str,
    pub name: &'a str,
}

/// Values for the `lib.rs` of a mod's imports package.
pub struct ImportsLib<'a> {
    pub components: &'a [ImportsComponent],
}

/// One resource type as the imports package exposes it: its memory index and
/// the placeholder address of its data.
#[derive(Clone, Debug)]
pub struct ImportsComponent {
    pub crate_name: String,
    pub name: String,
    pub id: u32,
    pub address: u32,
}

/// Values for the `Cargo.toml` of a mod's source package.
pub struct SourceCargo<'a> {
    pub file_name: &'a str,
    pub modloader_version: &'a str,
    pub dev_mode: &'a str,
    pub name: &'a str,
    pub source_file: &'a str,
}

/// Values for the `Cargo.toml` of a mod's manifest export package.
pub struct ExportsManifestCargo<'a> {
    pub file_name: &'a str,
    pub modloader_version: &'a str,
    pub dev_mode: &'a str,
    pub name: &'a str,
}

/// Values for the `lib.rs` of a mod's manifest export package.
pub struct ExportsManifestLib {}

/// Values for the `Cargo.toml` of a mod's systems export package.
pub struct ExportsSystemsCargo<'a> {
    pub file_name: &'a str,
    pub modloader_version: &'a str,
    pub dev_mode: &'a str,
    pub name: &'a str,
}

/// Values for the `lib.rs` of a mod's systems export package.
pub struct ExportsSystemsLib<'a> {
    pub systems: &'a [ExportsSystem<'a>],
}

/// One exported system: its index and its name.
#[derive(Clone, Copy, Debug)]
pub struct ExportsSystem<'a> {
    pub id: u32,
    pub name: &'a str,
}

/// The resource types for the imports package: the `i`-th type address
/// becomes component `i` at the low end of its range.
pub fn imports_components(addresses: &Vec<TypeAddress>) -> (r: Vec<ImportsComponent>)
    requires
        addresses@.len() <= u32::MAX,
    ensures
        r@.len() == addresses@.len(),
        forall|i: int|
            0 <= i < r@.len() ==> {
                &&& (#[trigger] r@[i]).id == i
                &&& r@[i].address == addresses@[i].address.start
                &&& r@[i].crate_name@ == addresses@[i].signature.spec_id()@.crate_name
                &&& r@[i].name@ == addresses@[i].signature.spec_id()@.name
            },
{
    let mut out: Vec<ImportsComponent> = Vec::new();
    let mut i: usize = 0;
    while i < addresses.len()
        invariant
            0 <= i <= addresses@.len(),
            addresses@.len() <= u32::MAX,
            out@.len() == i,
            forall|j: int|
                0 <= j < i ==> {
                    &&& (#[trigger] out@[j]).id == j
                    &&& out@[j].address == addresses@[j].address.start
                    &&& out@[j].crate_name@ == addresses@[j].signature.spec_id()@.crate_name
                    &&& out@[j].name@ == addresses@[j].signature.spec_id()@.name
                },
        decreases addresses@.len() - i,
    {
        let id = addresses[i].signature.stable_id();
        out.push(
            ImportsComponent {
                crate_name: id.crate_name,
                name: id.name,
                id: i as u32,
                address: addresses[i].address.start,
            },
        );
        i += 1;
    }
    out
}

/// The systems for the systems export package: the `i`-th system of the
/// manifest becomes export `i`.
pub fn exports_systems<'a>(systems: &Vec<&'a System>) -> (r: Vec<ExportsSystem<'a>>)
    requires
        systems@.len() <= u32::MAX,
    ensures
        r@.len() == systems@.len(),
        forall|i: int| 0 <= i < r@.len() ==> (#[trigger] r@[i]).id == i && r@[i].name@ == systems@[i].name@,
{
    let mut out: Vec<ExportsSystem<'a>> = Vec::new();
    let mut i: usize = 0;
    while i < systems.len()
        invariant
            0 <= i <= systems@.len(),
            systems@.len() <= u32::MAX,
            out@.len() == i,
            forall|j: int| 0 <= j < i ==> (#[trigger] out@[j]).id == j && out@[j].name@ == systems@[j].name@,
        decreases systems@.len() - i,
    {
        let s: &'a System = systems[i];
        out.push(ExportsSystem { id: i as u32, name: s.name.as_str() });
        i += 1;
    }
    out
}

} // verus!
