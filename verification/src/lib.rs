//! Integer sequence encoders, skews and their refactoring, parenthetical
//! notation and small graph structures, with their contracts proved by Verus.
#![allow(non_snake_case)]

pub mod text;
pub mod parentnot;
pub mod arrops;
pub mod fatorx;
pub mod ohop;
pub mod implie;
pub mod seq_encoder;
pub mod skew;
pub mod skewf32;
pub mod btchcorrctrc;
pub mod seqe;
pub mod i_mem;
pub mod costillo;
pub mod grafini;
pub mod bmeas;
pub mod gorillasf;
pub mod vreducer;
pub mod std_rng;
pub mod ns;
pub mod gorillajh;
pub mod vcsv;
pub mod mat2sort;
