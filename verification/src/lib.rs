//! Factor graphs over typed, generational storage.
#![allow(unused_imports)]

pub mod access;
pub mod accounting;
pub mod algebra;
pub mod backend;
pub mod block_factors;
pub mod block_laws;
pub mod covariance;
pub mod damped_laws;
pub mod dense;
pub mod direct_laws;
pub mod elimination;
pub mod elimination_laws;
pub mod error;
pub mod factor_store;
pub mod factors;
pub mod families;
pub mod front;
pub mod gather;
pub mod gauss_newton;
pub mod graph_laws;
pub mod index;
pub mod information;
pub mod journal;
pub mod kernels;
pub mod key;
pub mod laws;
pub mod layout;
pub mod levenberg_marquardt;
pub mod linear_model;
pub mod linearization;
pub mod lsmr;
pub mod marginal_laws;
pub mod marginalization;
pub mod matrix_laws;
pub mod normal;
pub mod notation;
pub mod optimization;
pub mod pair;
pub mod prior_laws;
pub mod priors;
pub mod problem;
pub mod reading;
pub mod scalar;
pub mod schur;
pub mod schur_laws;
pub mod sink;
pub mod solver;
pub mod states;
pub mod storage;
pub mod testing;
pub mod trial_laws;
pub mod variable;
