//! The schedule labels and plugins of the simulation, as plain values.
use vstd::prelude::*;

verus! {

/// The label of all input systems.
#[derive(Clone, Copy, Debug, PartialEq, Eq, Hash, Structural)]
pub struct InputSystem;

/// The kinds of input systems.
#[derive(Clone, Copy, Debug, PartialEq, Eq, Hash, Structural)]
pub enum InputSystems {
    Mouse,
    Keyboard,
}

/// The plugin that installs the input systems.
#[derive(Clone, Copy, Debug, PartialEq, Eq, Hash, Structural)]
pub struct InputPlugin;

/// The label of the simulation's start-up systems.
#[derive(Clone, Copy, Debug, PartialEq, Eq, Hash, Structural)]
pub struct SimulationSetup;

/// The label of all per-frame simulation systems.
#[derive(Clone, Copy, Debug, PartialEq, Eq, Hash, Structural)]
pub struct SimulationSystem;

/// The kinds of per-frame simulation systems.
#[derive(Clone, Copy, Debug, PartialEq, Eq, Hash, Structural)]
pub enum SimulationSystems {
    OrbitalPhysics,
    ThermalPhysics,
}

/// The plugin that installs the simulation systems.
#[derive(Clone, Copy, Debug, PartialEq, Eq, Hash, Structural)]
pub struct SimulationPlugin;

/// The label of the interface's start-up systems.
#[derive(Clone, Copy, Debug, PartialEq, Eq, Hash, Structural)]
pub struct UISetup;

/// The label of all per-frame interface systems.
#[derive(Clone, Copy, Debug, PartialEq, Eq, Hash, Structural)]
pub struct UIUpdate;

/// When an interface system runs.
#[derive(Clone, Copy, Debug, PartialEq, Eq, Hash, Structural)]
pub enum UIUpdates {
    PerFrame,
    OnSelectionChange,
}

/// The plugin that installs the interface systems.
#[derive(Clone, Copy, Debug, PartialEq, Eq, Hash, Structural)]
pub struct UIPlugin;

} // verus!
