//! Board model and territory-propagation engine for a two-player
//! territory-capture game on a fixed rectangular grid of colored cells.
//!
//! Each side owns a starting corner cell; on a turn a side picks a new
//! color, its whole region is recolored, and every adjacent unclaimed cell
//! that already carries that color is annexed, repeatedly, until no
//! further adjacent cell qualifies. The modules here cover the grid
//! arithmetic ([`coords`]), the cell storage and its mutation primitives
//! ([`board`]), the fixed-point flood-capture engine with turn validation
//! ([`engine`]), and the proved game laws ([`laws`]). Terminal rendering
//! and input live outside the library.

pub mod board;
pub mod coords;
pub mod engine;
pub mod laws;
