use vstd::prelude::*;

verus! {

/// Why an operation on the store or the registries was refused. A refused
/// operation leaves every piece of state as it was.
#[derive(Clone, Copy, Debug, PartialEq, Eq, Structural)]
pub enum EcsError {
    /// An entity with this id already exists in the world instance.
    AddressCollision,
    /// The calling system was not granted a component key that the call touches.
    CapabilityDenied,
    /// A payload is longer than the declared maximum size of its component.
    DataTooLarge,
    /// The entity still holds components and cannot be deleted.
    NonEmptyEntity,
    /// A component key that the call names is not on the entity.
    ComponentNotFound,
    /// A component key is given twice, or is already on the entity.
    DuplicateComponent,
    /// A component schema with this key is already registered.
    DuplicateSchema,
    /// The world instance is already registered.
    InstanceExists,
    /// No world instance with this world and number is registered.
    InstanceNotFound,
    /// No entity with this id exists in the world instance.
    EntityNotFound,
    /// A blueprint with this name is already registered.
    DuplicateBlueprint,
    /// The system already has a registration in this instance.
    RegistrationExists,
    /// The system has no registration in this instance.
    RegistrationNotFound,
    /// The caller does not hold the authority that the operation needs.
    Unauthorized,
    /// The keys and the payloads of a modification differ in number.
    LengthMismatch,
    /// No address can be derived from the given seeds.
    InvalidSeeds,
    /// A size or a counter would pass the largest `u64`.
    Overflow,
}

} // verus!
