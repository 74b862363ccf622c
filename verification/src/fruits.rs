//! A fruit with a name and a color, and its one-line description.

use vstd::prelude::*;
use vstd::string::*;

verus! {

/// A fruit, described by its name and its color.
pub struct Fruits {
    name: String,
    color: String,
}

/// The description sentence of a fruit with the given name and color.
pub open spec fn description_of(name: Seq<char>, color: Seq<char>) -> Seq<char> {
    "This fruit is a "@ + name + " and its color is "@ + color + "."@
}

impl Fruits {
    /// The fruit's name.
    pub closed spec fn spec_name(&self) -> Seq<char> {
        self.name@
    }

    /// The fruit's color.
    pub closed spec fn spec_color(&self) -> Seq<char> {
        self.color@
    }

    /// Creates a fruit from its name and color.
    pub fn new(name: &str, color: &str) -> (fruit: Self)
        ensures
            fruit.spec_name() == name@,
            fruit.spec_color() == color@,
    {
        Fruits { name: name.to_owned(), color: color.to_owned() }
    }

    /// The sentence "This fruit is a {name} and its color is {color}.".
    pub fn describe(&self) -> (text: String)
        ensures
            text@ == description_of(self.spec_name(), self.spec_color()),
    {
        let mut text = String::from_str("This fruit is a ");
        text.append(self.name.as_str());
        text.append(" and its color is ");
        text.append(self.color.as_str());
        text.append(".");
        text
    }
}

} // verus!
