#![allow(non_snake_case)]

pub mod geometry;
pub mod rtree;
pub mod insertion;
pub mod deletion;
pub mod generator;
