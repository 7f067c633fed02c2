//! Big-endian bit vectors: conversion to and from unsigned integers, and the
//! element-wise logical operators and carry addition over them.
pub mod bits;
pub mod laws;
