use vstd::prelude::*;
use crate::ids::{Param, StableId, SystemId};

verus! {

/// A system declared by a mod: its id, its name and the parameters it asks for.
#[derive(Clone, Debug, PartialEq)]
pub struct System {
    pub id: SystemId,
    pub name: String,
    pub params: Vec<Param>,
}

/// A group of systems named in a constraint.
#[derive(Clone, Debug, PartialEq)]
pub enum SystemSet {
    Anonymous(Vec<SystemId>),
    Named(StableId),
}

/// An ordering or membership rule between system sets.
#[derive(Clone, Debug, PartialEq)]
pub enum Constraint {
    /// Every system of `before` runs before every system of `after`.
    Order { before: SystemSet, after: SystemSet },
    /// The set runs only if the condition system allows it.
    Condition { set: SystemSet, condition: SystemId },
    /// The set runs within the named parent set.
    Includes { parent_name: StableId, set: SystemSet },
}

/// How to build a schedule: its systems and the constraints between them.
#[derive(Clone, Debug, PartialEq)]
pub struct Schedule {
    pub systems: Vec<System>,
    pub constraints: Vec<Constraint>,
}

/// A schedule together with the identifier of its label.
#[derive(Clone, Debug, PartialEq)]
pub struct ScheduleDescriptor {
    pub id: StableId,
    pub schedule: Schedule,
}

} // verus!
