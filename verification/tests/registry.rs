use std::any::TypeId;

use xengine::error::WorldError;
use xengine::registry::{ComponentDescriptor, ComponentRegistry};

#[allow(dead_code)]
struct Health(i32);
#[allow(dead_code)]
struct Transform(f32);
#[allow(dead_code)]
struct ScriptPayload(u8);

#[test]
fn register_and_describe() {
    let mut reg = ComponentRegistry::new();
    reg.register::<Health>(false).unwrap();
    let desc = reg.descriptor_of::<Health>().unwrap();
    assert_eq!(desc.size, std::mem::size_of::<Health>());
    assert_eq!(desc.align, std::mem::align_of::<Health>());
    assert!(desc.drop_fn.is_some());
    assert!(!desc.scriptable);
}

#[test]
fn duplicate_registration_errors_and_preserves_first() {
    let mut reg = ComponentRegistry::new();
    reg.register::<Transform>(false).unwrap();
    let err = reg.register::<Transform>(false).unwrap_err();
    assert!(matches!(err, WorldError::DuplicateRegistration(_)));
    assert!(reg.descriptor_of::<Transform>().is_some());
}

#[test]
fn scriptable_marker_and_runtime_path() {
    let mut reg = ComponentRegistry::new();
    reg.register::<ScriptPayload>(true).unwrap();
    let desc = reg.descriptor_of::<ScriptPayload>().unwrap();
    assert!(desc.scriptable);
    // Runtime raw path: self-describing descriptor.
    let id = TypeId::of::<ScriptPayload>();
    let raw = ComponentDescriptor::of_raw(true);
    let err = reg.register_raw(id, "script:p", raw).unwrap_err();
    assert!(matches!(err, WorldError::DuplicateRegistration(_)));
}

#[test]
fn registration_order_is_stable() {
    let mut reg = ComponentRegistry::new();
    reg.register::<Health>(false).unwrap();
    reg.register::<Transform>(false).unwrap();
    assert_eq!(reg.order().len(), 2);
    assert_eq!(reg.order()[0], TypeId::of::<Health>());
    assert_eq!(reg.order()[1], TypeId::of::<Transform>());
}

#[test]
fn zst_keeps_explicit_alignment() {
    // A zero-sized type whose alignment is that of `u128` (16 bytes).
    #[allow(dead_code)]
    struct AlignedZst([u128; 0]);
    let desc = ComponentDescriptor::of::<AlignedZst>(false);
    assert_eq!(desc.size, 0, "ZST has zero size");
    assert_eq!(desc.align, 16, "ZST keeps its explicit alignment");
}

#[test]
fn raw_descriptor_has_no_drop_and_unit_layout() {
    let raw = ComponentDescriptor::of_raw(false);
    assert_eq!(raw.size, 0);
    assert_eq!(raw.align, 1);
    assert!(raw.drop_fn.is_none());
    assert!(raw.hooks.is_none());
    assert!(!raw.scriptable);
}

#[test]
fn ensure_registered_is_idempotent() {
    let mut reg = ComponentRegistry::new();
    reg.ensure_registered::<Health>();
    reg.ensure_registered::<Health>();
    assert_eq!(reg.len(), 1);
    assert!(reg.descriptor(&TypeId::of::<Health>()).is_some());
    assert!(reg.descriptor(&TypeId::of::<Transform>()).is_none());
}
