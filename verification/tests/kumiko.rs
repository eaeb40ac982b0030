use kumiko::animals::{greet, tick, Animal, AnimalHabit, AnimalSound, Cat, PlayfulCat, Turtle};
use kumiko::config::{
    AsanohaConfig, EventailConfig, FlowerConfig, GomaConfig, GomaConfigTrait, HexagonConfig,
    KumikoConfig, KumikoConfigTrait, TriskellConfig, TriskellConfigTrait, TsumiishiConfig,
};
use kumiko::error::KernelError;
use kumiko::geometry::{Coord, LATTICE_SCALE};
use kumiko::kumiko::{mean_point, Base};

#[test]
fn base_keeps_its_vectors_as_given() {
    let origin = Coord { x: 1, y: 2 };
    let u = Coord { x: 3464, y: 2000 };
    let v = Coord { x: -3464, y: 2000 };
    let base = Base::new(origin, u, v);
    assert_eq!(base.origin, origin);
    assert_eq!(base.u, u);
    assert_eq!(base.v, v);
}

#[test]
fn mean_point_is_half_the_way() {
    assert_eq!(mean_point(&Coord { x: 2, y: 10 }, &Coord { x: 8, y: 4 }), Coord { x: 3, y: -3 });
    assert_eq!(mean_point(&Coord { x: 0, y: 0 }, &Coord { x: 5, y: -5 }), Coord { x: 3, y: -3 });
    assert_eq!(mean_point(&Coord { x: 5, y: -5 }, &Coord { x: 5, y: -5 }), Coord { x: 0, y: 0 });
}

#[test]
fn default_widths() {
    let config = KumikoConfig::default();
    assert_eq!(LATTICE_SCALE, 1000);
    assert_eq!(config.width_fine, 150);
    assert_eq!(config.width_outer, 200);
    assert_eq!(config.width_fine(), 150);
    assert_eq!(config.width_outer(), 200);
}

#[test]
fn figure_configurations_hand_on_the_widths() {
    let parent = || KumikoConfig { width_fine: 11, width_outer: 22 };
    let widths: Vec<(i64, i64)> = vec![
        {
            let c = AsanohaConfig { parent: parent() };
            (c.width_fine(), c.width_outer())
        },
        {
            let c = EventailConfig { parent: parent() };
            (c.width_fine(), c.width_outer())
        },
        {
            let c = FlowerConfig { parent: parent() };
            (c.width_fine(), c.width_outer())
        },
        {
            let c = TsumiishiConfig { parent: parent() };
            (c.width_fine(), c.width_outer())
        },
        {
            let c = GomaConfig { space: 33, parent: parent() };
            assert_eq!(GomaConfigTrait::space(&c), 33);
            (c.width_fine(), c.width_outer())
        },
        {
            let c = TriskellConfig { space: 44, parent: parent() };
            assert_eq!(TriskellConfigTrait::space(&c), 44);
            (c.width_fine(), c.width_outer())
        },
        {
            let c = HexagonConfig { space: 55, parent: parent() };
            assert_eq!(TriskellConfigTrait::space(&c), 55);
            (c.width_fine(), c.width_outer())
        },
    ];
    assert_eq!(widths, vec![(11, 22); 7]);
}

#[test]
fn errors_are_told_apart() {
    assert_ne!(KernelError::ParallelLines, KernelError::DegenerateDirection);
    assert_ne!(KernelError::InvalidCycle, KernelError::ParallelLines);
    assert_ne!(
        KernelError::ClippingFailure { dropped: 1 },
        KernelError::ClippingFailure { dropped: 2 }
    );
}

#[test]
fn animals_say_their_lines() {
    assert_eq!(tick(Cat), "meow. I like to crawl.");
    assert_eq!(tick(PlayfulCat), "meow. I like to play.");
    assert_eq!(tick(Turtle), "go away!");
    assert_eq!(Cat.tick(), "meow. I like to crawl.");
    assert_eq!(Cat.habit(), "crawl");
    assert_eq!(PlayfulCat.sound(), "meow");
    assert_eq!(Turtle.habit(), "");
    assert_eq!(Turtle.sound(), "");
    assert_eq!(greet("woof", "dig"), "woof. I like to dig.");
}
