//! The verified core of Nova Desktop's native networks: the text processing, training-data
//! preparation, vocabulary building, pseudo-random generator and result reporting that the
//! topic classifier (`nn`), the text generator (`gen`) and the word embeddings (`embed`) rest
//! on. The floating-point networks themselves live in the application around this library.

pub mod embed;
pub mod fmt;
pub mod gen;
pub mod net;
pub mod nn;
pub mod order;
pub mod rng;
pub mod text;
pub mod update;
pub mod vocab;
