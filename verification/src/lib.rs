//! A distributed Mandelbrot renderer: a coordinator splits the picture into
//! blocks of rows and hands them out to workers over WebSocket connections.
pub mod coordinator;
pub mod hello;
pub mod logger;
pub mod protocol;
pub mod text;
pub mod tiles;
pub mod worker;
