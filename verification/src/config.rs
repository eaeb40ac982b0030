//! The widths that a figure is cut with.
//!
//! Widths are whole numbers of lattice units, a thousand of which make one
//! unit of a drawing.

use vstd::prelude::*;

verus! {

/// What every figure needs to know: the width of its outer strips and that of
/// its fine inner strips.
pub trait KumikoConfigTrait {
    /// The width of the outer strips.
    spec fn outer(&self) -> int;

    /// The width of the fine strips.
    spec fn fine(&self) -> int;

    fn width_outer(&self) -> (width: i64)
        ensures
            width == self.outer(),
    ;

    fn width_fine(&self) -> (width: i64)
        ensures
            width == self.fine(),
    ;
}

/// The two widths, as plain values.
pub struct KumikoConfig {
    pub width_fine: i64,
    pub width_outer: i64,
}

impl Default for KumikoConfig {
    /// Fine strips of 0.15 and outer strips of 0.2 units of a drawing.
    fn default() -> (config: KumikoConfig)
        ensures
            config.width_fine == 150,
            config.width_outer == 200,
    {
        KumikoConfig { width_fine: 150, width_outer: 200 }
    }
}

impl KumikoConfigTrait for KumikoConfig {
    open spec fn outer(&self) -> int {
        self.width_outer as int
    }

    open spec fn fine(&self) -> int {
        self.width_fine as int
    }

    fn width_outer(&self) -> (width: i64) {
        self.width_outer
    }

    fn width_fine(&self) -> (width: i64) {
        self.width_fine
    }
}

/// What an asanoha needs to know.
pub trait AsanohaConfigTrait: KumikoConfigTrait {

}

/// The configuration of an asanoha.
pub struct AsanohaConfig {
    pub parent: KumikoConfig,
}

impl AsanohaConfigTrait for AsanohaConfig {

}

impl KumikoConfigTrait for AsanohaConfig {
    open spec fn outer(&self) -> int {
        self.parent.outer()
    }

    open spec fn fine(&self) -> int {
        self.parent.fine()
    }

    fn width_outer(&self) -> (width: i64) {
        self.parent.width_outer()
    }

    fn width_fine(&self) -> (width: i64) {
        self.parent.width_fine()
    }
}

/// What an eventail needs to know.
pub trait EventailConfigTrait: KumikoConfigTrait {

}

/// The configuration of an eventail.
pub struct EventailConfig {
    pub parent: KumikoConfig,
}

impl EventailConfigTrait for EventailConfig {

}

impl KumikoConfigTrait for EventailConfig {
    open spec fn outer(&self) -> int {
        self.parent.outer()
    }

    open spec fn fine(&self) -> int {
        self.parent.fine()
    }

    fn width_outer(&self) -> (width: i64) {
        self.parent.width_outer()
    }

    fn width_fine(&self) -> (width: i64) {
        self.parent.width_fine()
    }
}

/// What a flower needs to know.
pub trait FlowerConfigTrait: KumikoConfigTrait {

}

/// The configuration of a flower.
pub struct FlowerConfig {
    pub parent: KumikoConfig,
}

impl FlowerConfigTrait for FlowerConfig {

}

impl KumikoConfigTrait for FlowerConfig {
    open spec fn outer(&self) -> int {
        self.parent.outer()
    }

    open spec fn fine(&self) -> int {
        self.parent.fine()
    }

    fn width_outer(&self) -> (width: i64) {
        self.parent.width_outer()
    }

    fn width_fine(&self) -> (width: i64) {
        self.parent.width_fine()
    }
}

/// What a tsumiishi needs to know.
pub trait TsumiishiConfigTrait: KumikoConfigTrait {

}

/// The configuration of a tsumiishi.
pub struct TsumiishiConfig {
    pub parent: KumikoConfig,
}

impl TsumiishiConfigTrait for TsumiishiConfig {

}

impl KumikoConfigTrait for TsumiishiConfig {
    open spec fn outer(&self) -> int {
        self.parent.outer()
    }

    open spec fn fine(&self) -> int {
        self.parent.fine()
    }

    fn width_outer(&self) -> (width: i64) {
        self.parent.width_outer()
    }

    fn width_fine(&self) -> (width: i64) {
        self.parent.width_fine()
    }
}

/// What a goma needs to know: the two widths, and the space between a
/// border line and an interior line.
pub trait GomaConfigTrait: KumikoConfigTrait {
    /// The space between a border line and an interior line.
    spec fn gap(&self) -> int;

    fn space(&self) -> (space: i64)
        ensures
            space == self.gap(),
    ;
}

/// The configuration of a goma.
pub struct GomaConfig {
    /// Space between a border line and an interior line
    pub space: i64,
    pub parent: KumikoConfig,
}

impl GomaConfigTrait for GomaConfig {
    open spec fn gap(&self) -> int {
        self.space as int
    }

    fn space(&self) -> (space: i64) {
        self.space
    }
}

impl KumikoConfigTrait for GomaConfig {
    open spec fn outer(&self) -> int {
        self.parent.outer()
    }

    open spec fn fine(&self) -> int {
        self.parent.fine()
    }

    fn width_outer(&self) -> (width: i64) {
        self.parent.width_outer()
    }

    fn width_fine(&self) -> (width: i64) {
        self.parent.width_fine()
    }
}

/// What a triskell needs to know: the two widths, and the space between a
/// border line and an interior line.
pub trait TriskellConfigTrait: KumikoConfigTrait {
    /// The space between a border line and an interior line.
    spec fn gap(&self) -> int;

    fn space(&self) -> (space: i64)
        ensures
            space == self.gap(),
    ;
}

/// The configuration of a triskell.
pub struct TriskellConfig {
    pub space: i64,
    pub parent: KumikoConfig,
}

impl TriskellConfigTrait for TriskellConfig {
    open spec fn gap(&self) -> int {
        self.space as int
    }

    fn space(&self) -> (space: i64) {
        self.space
    }
}

impl KumikoConfigTrait for TriskellConfig {
    open spec fn outer(&self) -> int {
        self.parent.outer()
    }

    open spec fn fine(&self) -> int {
        self.parent.fine()
    }

    fn width_outer(&self) -> (width: i64) {
        self.parent.width_outer()
    }

    fn width_fine(&self) -> (width: i64) {
        self.parent.width_fine()
    }
}

/// What a hexagon needs to know: all that its eventail and its triskells
/// need.
pub trait HexagonConfigTrait: KumikoConfigTrait + EventailConfigTrait + TriskellConfigTrait {

}

/// The configuration of a hexagon.
pub struct HexagonConfig {
    pub space: i64,
    pub parent: KumikoConfig,
}

impl HexagonConfigTrait for HexagonConfig {

}

impl TriskellConfigTrait for HexagonConfig {
    open spec fn gap(&self) -> int {
        self.space as int
    }

    fn space(&self) -> (space: i64) {
        self.space
    }
}

impl EventailConfigTrait for HexagonConfig {

}

impl KumikoConfigTrait for HexagonConfig {
    open spec fn outer(&self) -> int {
        self.parent.outer()
    }

    open spec fn fine(&self) -> int {
        self.parent.fine()
    }

    fn width_outer(&self) -> (width: i64) {
        self.parent.width_outer()
    }

    fn width_fine(&self) -> (width: i64) {
        self.parent.width_fine()
    }
}

} // verus!
