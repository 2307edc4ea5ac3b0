//! Build and load pipeline logic for sandboxed WebAssembly plug-ins ("mods").
//!
//! The verified core covers the type-address allocator, the load/store
//! retargeting rules of the wasm post-processor, the schedule loader, the
//! manifest model with its construction from a declared schema, and the
//! integrity check of a loaded mod.
pub mod address;
pub mod api;
pub mod const_vec;
pub mod diagnostics;
pub mod graph;
pub mod ids;
pub mod loaded;
pub mod loader;
pub mod manifest;
pub mod pipeline;
pub mod registry;
pub mod rewrite;
pub mod schedule;
pub mod schema;
pub mod sets;
pub mod text;
pub mod type_signature;
pub mod wasm_vec;

pub use address::TypeAddress;
pub use const_vec::{ConstVec, ConstVecIter};
pub use diagnostics::{classify_line, Level};
pub use graph::{Node, WorkingGraph};
pub use ids::{FileHash, Param, StableId, StableIdView, SystemId};
pub use loaded::{LoadError, LoadedFeature, LoadedMod};
pub use loader::{
    start_label, update_label, LoadedSchedule, LoadedSchedules, LoadedSystem, LABEL_CRATE,
};
pub use manifest::{FeatureDescriptor, ModManifest};
pub use pipeline::{
    exports_systems, fallback_packages, imports_components, manifest_drifted, ExportsManifestCargo, ExportsManifestLib,
    ExportsSystem, ExportsSystemsCargo, ExportsSystemsLib, ImportsCargo, ImportsComponent, ImportsLib,
    ModSource, SourceCargo, EXPORT_MANIFEST, EXPORT_SYSTEMS,
};
pub use registry::{SchemaType, TypeInfo, TypeShape, TypeSignatures};
pub use rewrite::{
    resource_imports, retarget_body, MemArg, MemoryImport, Retargeter, WasmInstr, RESOURCE_MODULE,
};
pub use schedule::{Constraint, Schedule, ScheduleDescriptor, System, SystemSet};
pub use schema::{schema_to_manifest, Mod, Schema, MAX_RESOURCES, MAX_SCHEDULES, MAX_TYPES};
pub use sets::SchedulingError;
pub use text::to_hex;
pub use type_signature::{FieldSignature, GenericSignature, TypeSignature, VariantSignature};
pub use wasm_vec::RawWasmVec;
