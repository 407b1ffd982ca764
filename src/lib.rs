pub mod alphabet;
pub mod element;
pub mod element_index;
pub mod froidure_pin;
pub mod semigroup;
pub mod simple;
pub mod transformation;
pub mod vec2;
pub mod word;
