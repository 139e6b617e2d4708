pub mod element;
pub mod selection;
pub mod store;
pub mod vec_2;
