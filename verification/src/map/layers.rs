//! The tile layers of a level and what the navigation reads from them.

use crate::map::grid::{GridMap, Terrain};
use crate::utils::position::Pos;
use crate::NavError;
use vstd::prelude::*;

verus! {

/// Side of one tile in world units.
pub const TILE_SIZE: i32 = 16;

/// One layer of a level: its name, its extent in cells, the side of its
/// cells in pixels, and the pixel coordinates of the tiles placed on it.
#[derive(Debug)]
pub struct TileLayer {
    pub identifier: String,
    pub c_wid: i32,
    pub c_hei: i32,
    pub grid_size: i32,
    pub tiles: Vec<(i32, i32)>,
}

/// The name of the layer that holds the walls.
pub open spec fn walls_name() -> Seq<char> {
    "Walls"@
}

/// The quotient of `a` by a positive `b`, rounded towards zero.
pub open spec fn quotient(a: int, b: int) -> int {
    if a >= 0 {
        a / b
    } else {
        -((-a) / b)
    }
}

/// The cell on which a tile at pixel `px` lies, for tiles of side
/// `tile_size`.
pub open spec fn cell_of(px: (i32, i32), tile_size: int) -> Pos {
    Pos(quotient(px.0 as int, tile_size) as i32, quotient(px.1 as int, tile_size) as i32)
}

/// The cells of all the tiles, in their order.
pub open spec fn cells_of(tiles: Seq<(i32, i32)>, tile_size: int) -> Seq<Pos> {
    Seq::new(tiles.len(), |i: int| cell_of(tiles[i], tile_size))
}

/// The place of the layer that holds the walls: the last layer named
/// "Walls", and none where no layer has that name.
pub open spec fn walls_index(layers: Seq<TileLayer>) -> Option<int>
    decreases layers.len(),
{
    if layers.len() == 0 {
        None
    } else if layers.last().identifier@ == walls_name() {
        Some(layers.len() - 1)
    } else {
        walls_index(layers.drop_last())
    }
}

/// The wall cells of a level: the cells of the tiles on its layer of walls.
pub open spec fn walls_of(layers: Seq<TileLayer>, tile_size: int) -> Option<Seq<Pos>> {
    match walls_index(layers) {
        Some(i) => Some(cells_of(layers[i].tiles@, tile_size)),
        None => None,
    }
}

/// The grid of a level: the extent of its layer of walls, with the wall
/// cells of that layer. There is none where the level has no layer of
/// walls or where the extent is not one that a grid can have.
pub open spec fn terrain_of(layers: Seq<TileLayer>, tile_size: int) -> Option<Terrain> {
    match walls_index(layers) {
        Some(i) => {
            let t = Terrain {
                width: layers[i].c_wid as int,
                height: layers[i].c_hei as int,
                walls: cells_of(layers[i].tiles@, tile_size).to_set(),
            };
            if t.wf() {
                Some(t)
            } else {
                None
            }
        },
        None => None,
    }
}

/// The layer of walls is a layer named "Walls" after which no other layer
/// has that name; there is none exactly where no layer has the name.
pub proof fn lemma_walls_index(layers: Seq<TileLayer>)
    ensures
        match walls_index(layers) {
            Some(i) => {
                &&& 0 <= i < layers.len()
                &&& layers[i].identifier@ == walls_name()
                &&& forall|j: int| i < j < layers.len() ==> (#[trigger] layers[j]).identifier@
                    != walls_name()
            },
            None => forall|j: int| 0 <= j < layers.len() ==> (#[trigger] layers[j]).identifier@
                != walls_name(),
        },
    decreases layers.len(),
{
    if layers.len() > 0 {
        let rest = layers.drop_last();
        lemma_walls_index(rest);
        if layers.last().identifier@ != walls_name() {
            match walls_index(rest) {
                Some(i) => {
                    assert(rest[i] == layers[i]);
                    assert forall|j: int| i < j < layers.len() implies (#[trigger] layers[j]).identifier@
                        != walls_name() by {
                        if j < rest.len() {
                            assert(rest[j] == layers[j]);
                        }
                    }
                },
                None => {
                    assert forall|j: int| 0 <= j < layers.len() implies (#[trigger] layers[j]).identifier@
                        != walls_name() by {
                        if j < rest.len() {
                            assert(rest[j] == layers[j]);
                        }
                    }
                },
            }
        }
    }
}

/// Finds the layer of walls.
pub fn find_walls_layer(layers: &Vec<TileLayer>) -> (found: Option<usize>)
    ensures
        match found {
            Some(i) => walls_index(layers@) == Some(i as int) && i < layers.len(),
            None => walls_index(layers@) is None,
        },
{
    let wanted: String = "Walls".to_owned();
    let mut found: Option<usize> = None;
    let mut i: usize = 0;
    while i < layers.len()
        invariant
            i <= layers.len(),
            wanted@ == walls_name(),
            match found {
                Some(k) => walls_index(layers@.subrange(0, i as int)) == Some(k as int) && k < i,
                None => walls_index(layers@.subrange(0, i as int)) is None,
            },
        decreases layers.len() - i,
    {
        proof {
            let upto = layers@.subrange(0, i + 1);
            assert(upto.last() == layers@[i as int]);
            assert(upto.drop_last() =~= layers@.subrange(0, i as int));
        }
        if layers[i].identifier == wanted {
            found = Some(i);
        }
        i += 1;
    }
    assert(layers@.subrange(0, i as int) =~= layers@);
    found
}

/// The cells of the tiles of one layer.
fn layer_cells(tiles: &Vec<(i32, i32)>, tile_size: i32) -> (cells: Vec<Pos>)
    requires
        tile_size > 0,
    ensures
        cells@ == cells_of(tiles@, tile_size as int),
{
    let mut cells: Vec<Pos> = Vec::new();
    let mut i: usize = 0;
    while i < tiles.len()
        invariant
            i <= tiles.len(),
            tile_size > 0,
            cells@.len() == i,
            forall|k: int| 0 <= k < i ==> cells@[k] == cell_of(tiles@[k], tile_size as int),
        decreases tiles.len() - i,
    {
        let px: (i32, i32) = tiles[i];
        cells.push(Pos(px.0 / tile_size, px.1 / tile_size));
        i += 1;
    }
    assert(cells@ =~= cells_of(tiles@, tile_size as int));
    cells
}

/// Derives the wall cells of a level from its tile layers: the pixel
/// coordinates of the tiles on the layer named "Walls", each divided by the
/// tile size. Where several layers carry the name, the last one counts.
/// Without such a layer the map data is missing.
pub fn extract_walls(layers: &Vec<TileLayer>, tile_size: i32) -> (found: Result<Vec<Pos>, NavError>)
    requires
        tile_size > 0,
    ensures
        match found {
            Ok(walls) => walls_of(layers@, tile_size as int) == Some(walls@),
            Err(error) => error == NavError::MapDataMissing && walls_of(
                layers@,
                tile_size as int,
            ) is None,
        },
{
    match find_walls_layer(layers) {
        Some(i) => Ok(layer_cells(&layers[i].tiles, tile_size)),
        None => Err(NavError::MapDataMissing),
    }
}

/// Builds the grid of a level from its tile layers: the extent of the layer
/// of walls, and the wall cells on it. The map data is missing where there
/// is no such layer, where a side of it is negative, or where it has more
/// than [`MAX_CELLS`](crate::map::grid::MAX_CELLS) cells.
pub fn load_map(layers: &Vec<TileLayer>, tile_size: i32) -> (loaded: Result<GridMap, NavError>)
    requires
        tile_size > 0,
    ensures
        match loaded {
            Ok(map) => terrain_of(layers@, tile_size as int) == Some(map@),
            Err(error) => error == NavError::MapDataMissing && terrain_of(
                layers@,
                tile_size as int,
            ) is None,
        },
{
    match find_walls_layer(layers) {
        Some(i) => {
            let layer: &TileLayer = &layers[i];
            let walls: Vec<Pos> = layer_cells(&layer.tiles, tile_size);
            match GridMap::new(layer.c_wid, layer.c_hei, walls) {
                Some(map) => Ok(map),
                None => Err(NavError::MapDataMissing),
            }
        },
        None => Err(NavError::MapDataMissing),
    }
}

} // verus!
