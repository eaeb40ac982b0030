//! Layered traits in miniature.
//!
//! The configurations of the figures are traits built on traits. This module
//! shows the pattern on a small scale: an animal is whatever has a habit and
//! a sound, and says one line when it is ticked.

use vstd::prelude::*;
use vstd::string::*;

verus! {

/// What an animal likes to do.
pub trait AnimalHabit {
    /// The habit, as text; empty if the animal has none.
    spec fn likes(&self) -> Seq<char>;

    fn habit(&self) -> (text: &'static str)
        ensures
            text@ == self.likes(),
    ;
}

/// What an animal sounds like.
pub trait AnimalSound {
    /// The sound, as text; empty if the animal makes none.
    spec fn cry(&self) -> Seq<char>;

    fn sound(&self) -> (text: &'static str)
        ensures
            text@ == self.cry(),
    ;
}

/// The line of an animal with the given sound and habit: the sound, then
/// `". I like to "`, the habit and a full stop.
pub open spec fn greeting(sound: Seq<char>, habit: Seq<char>) -> Seq<char> {
    sound + ". I like to "@ + habit + "."@
}

/// The line of an animal with the given sound and habit.
pub fn greet(sound: &str, habit: &str) -> (line: String)
    ensures
        line@ == greeting(sound@, habit@),
{
    let mut line = String::from_str(sound);
    line.append(". I like to ");
    line.append(habit);
    line.append(".");
    line
}

/// An animal: it has a habit and a sound, and says a line of its own.
pub trait Animal: AnimalHabit + AnimalSound {
    /// The line that the animal says.
    spec fn line(&self) -> Seq<char>;

    fn tick(&self) -> (line: String)
        ensures
            line@ == self.line(),
    ;
}

pub struct Cat;

impl Animal for Cat {
    open spec fn line(&self) -> Seq<char> {
        greeting(self.cry(), self.likes())
    }

    fn tick(&self) -> (line: String) {
        greet(self.sound(), self.habit())
    }
}

impl AnimalHabit for Cat {
    open spec fn likes(&self) -> Seq<char> {
        "crawl"@
    }

    fn habit(&self) -> (text: &'static str) {
        "crawl"
    }
}

impl AnimalSound for Cat {
    open spec fn cry(&self) -> Seq<char> {
        "meow"@
    }

    fn sound(&self) -> (text: &'static str) {
        "meow"
    }
}

pub struct PlayfulCat;

impl Animal for PlayfulCat {
    open spec fn line(&self) -> Seq<char> {
        greeting(self.cry(), self.likes())
    }

    fn tick(&self) -> (line: String) {
        greet(self.sound(), self.habit())
    }
}

impl AnimalHabit for PlayfulCat {
    open spec fn likes(&self) -> Seq<char> {
        "play"@
    }

    fn habit(&self) -> (text: &'static str) {
        "play"
    }
}

impl AnimalSound for PlayfulCat {
    open spec fn cry(&self) -> Seq<char> {
        "meow"@
    }

    fn sound(&self) -> (text: &'static str) {
        "meow"
    }
}

pub struct Turtle;

impl Animal for Turtle {
    open spec fn line(&self) -> Seq<char> {
        "go away!"@
    }

    fn tick(&self) -> (line: String) {
        String::from_str("go away!")
    }
}

impl AnimalHabit for Turtle {
    open spec fn likes(&self) -> Seq<char> {
        ""@
    }

    fn habit(&self) -> (text: &'static str) {
        ""
    }
}

impl AnimalSound for Turtle {
    open spec fn cry(&self) -> Seq<char> {
        ""@
    }

    fn sound(&self) -> (text: &'static str) {
        ""
    }
}

/// The line that `animal` says.
pub fn tick<A: Animal>(animal: A) -> (line: String)
    ensures
        line@ == animal.line(),
{
    animal.tick()
}

} // verus!
