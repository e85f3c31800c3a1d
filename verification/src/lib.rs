//! Verified core of a hex editor: number text, byte values, the data
//! inspector, the cells and scrolling of the hex view, the editor's tree
//! structures, and the state of its side panels.
use vstd::prelude::*;

pub mod numtext;
pub mod byteval;
pub mod text;
pub mod inspector;
pub mod unixtime;
pub mod readings;
pub mod hexview;
pub mod highlight;
pub mod scroll;
pub mod pane;
pub mod structtree;
pub mod listnav;
pub mod stringlist;
pub mod searchlist;
pub mod filetree;
pub mod menubar;
pub mod statustext;
pub mod checksumview;
pub mod highlightpanel;
pub mod bars;
pub mod rowcells;
pub mod stringscan;

verus! {

} // verus!
