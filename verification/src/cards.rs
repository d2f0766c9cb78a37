//! Playing cards: a closed set of 52 (color, value) pairs.
use vstd::prelude::*;

verus! {

/// One of the four suits of a standard deck.
#[derive(Debug, Clone, Copy, PartialEq, Eq, Structural)]
pub enum Color {
    Diamonds,
    Hearts,
    Spades,
    Clubs,
}

/// One of the thirteen ranks of a standard deck.
#[derive(Debug, Clone, Copy, PartialEq, Eq, Structural)]
pub enum Value {
    Two,
    Three,
    Four,
    Five,
    Six,
    Seven,
    Eight,
    Nine,
    Ten,
    Jack,
    Queen,
    King,
    Ace,
}

/// A playing card: a color and a value.
#[derive(Debug, Clone, Copy, PartialEq, Eq, Structural)]
pub struct Card(pub Color, pub Value);

/// The position of a color in the fixed suit order.
pub open spec fn color_index(c: Color) -> nat {
    match c {
        Color::Diamonds => 0,
        Color::Hearts => 1,
        Color::Spades => 2,
        Color::Clubs => 3,
    }
}

/// The position of a value in the fixed rank order.
pub open spec fn value_index(v: Value) -> nat {
    match v {
        Value::Two => 0,
        Value::Three => 1,
        Value::Four => 2,
        Value::Five => 3,
        Value::Six => 4,
        Value::Seven => 5,
        Value::Eight => 6,
        Value::Nine => 7,
        Value::Ten => 8,
        Value::Jack => 9,
        Value::Queen => 10,
        Value::King => 11,
        Value::Ace => 12,
    }
}

/// The color at a given position in the fixed suit order.
pub open spec fn color_of_index(i: nat) -> Color {
    if i == 0 {
        Color::Diamonds
    } else if i == 1 {
        Color::Hearts
    } else if i == 2 {
        Color::Spades
    } else {
        Color::Clubs
    }
}

/// The value at a given position in the fixed rank order.
pub open spec fn value_of_index(i: nat) -> Value {
    if i == 0 {
        Value::Two
    } else if i == 1 {
        Value::Three
    } else if i == 2 {
        Value::Four
    } else if i == 3 {
        Value::Five
    } else if i == 4 {
        Value::Six
    } else if i == 5 {
        Value::Seven
    } else if i == 6 {
        Value::Eight
    } else if i == 7 {
        Value::Nine
    } else if i == 8 {
        Value::Ten
    } else if i == 9 {
        Value::Jack
    } else if i == 10 {
        Value::Queen
    } else if i == 11 {
        Value::King
    } else {
        Value::Ace
    }
}

impl Color {
    /// All four colors, in the fixed suit order.
    pub fn iter() -> (r: Vec<Color>)
        ensures
            r@.len() == 4,
            forall|i: int| 0 <= i < 4 ==> #[trigger] r@[i] == color_of_index(i as nat),
    {
        let mut v: Vec<Color> = Vec::new();
        v.push(Color::Diamonds);
        v.push(Color::Hearts);
        v.push(Color::Spades);
        v.push(Color::Clubs);
        v
    }
}

impl Value {
    /// All thirteen values, in the fixed rank order.
    pub fn iter() -> (r: Vec<Value>)
        ensures
            r@.len() == 13,
            forall|i: int| 0 <= i < 13 ==> #[trigger] r@[i] == value_of_index(i as nat),
    {
        let mut v: Vec<Value> = Vec::new();
        v.push(Value::Two);
        v.push(Value::Three);
        v.push(Value::Four);
        v.push(Value::Five);
        v.push(Value::Six);
        v.push(Value::Seven);
        v.push(Value::Eight);
        v.push(Value::Nine);
        v.push(Value::Ten);
        v.push(Value::Jack);
        v.push(Value::Queen);
        v.push(Value::King);
        v.push(Value::Ace);
        v
    }
}

} // verus!
