use vstd::prelude::*;
use crate::world::{Tile, TileType, Content};

verus! {

/// The symbol a ground type is drawn with when nothing stands on it.
pub open spec fn ground_symbol(t: TileType) -> Seq<char> {
    match t {
        TileType::DeepWater => "🔷"@,
        TileType::ShallowWater => "🔵"@,
        TileType::Sand => "🔶"@,
        TileType::Grass => "🌳"@,
        TileType::Street => "🛣️"@,
        TileType::Hill => "🌱"@,
        TileType::Mountain => "⛰️"@,
        TileType::Snow => "❄️"@,
        TileType::Lava => "🌋"@,
        TileType::Teleport(_) => "🚪"@,
        TileType::Wall => "🧱"@,
    }
}

/// The symbol a content is drawn with.
pub open spec fn content_symbol(c: Content) -> Seq<char> {
    match c {
        Content::Rock => "🪨"@,
        Content::Tree => "🌲"@,
        Content::Garbage => "x"@,
        Content::Fire => "🔥"@,
        Content::Coin => "🪙"@,
        Content::Bin => "🗑️"@,
        Content::Crate => "🎭"@,
        Content::Bank => "🏦"@,
        Content::Water => "🌊"@,
        Content::Market => "🏪"@,
        Content::Fish => "🐟"@,
        Content::Building => "🏠"@,
        Content::Bush => "🌱"@,
        Content::JollyBlock => "x"@,
        Content::Scarecrow => "🐦‍"@,
        Content::NoContent => "  "@,
    }
}

/// The symbol a cell is drawn with: blank when unseen, its content when it holds one,
/// else its ground.
pub open spec fn tile_symbol(tile: Option<Tile>) -> Seq<char> {
    match tile {
        None => "  "@,
        Some(t) => if t.content == Content::NoContent {
            ground_symbol(t.tile_type)
        } else {
            content_symbol(t.content)
        },
    }
}

/// The symbol a cell is drawn with.
pub fn convert_tile(tile: &Option<Tile>) -> (s: &'static str)
    ensures
        s@ == tile_symbol(*tile),
{
    match tile {
        None => "  ",
        Some(t) => {
            if t.content == Content::NoContent {
                match t.tile_type {
                    TileType::DeepWater => "🔷",
                    TileType::ShallowWater => "🔵",
                    TileType::Sand => "🔶",
                    TileType::Grass => "🌳",
                    TileType::Street => "🛣️",
                    TileType::Hill => "🌱",
                    TileType::Mountain => "⛰️",
                    TileType::Snow => "❄️",
                    TileType::Lava => "🌋",
                    TileType::Teleport(_) => "🚪",
                    TileType::Wall => "🧱",
                }
            } else {
                match t.content {
                    Content::Rock => "🪨",
                    Content::Tree => "🌲",
                    Content::Garbage => "x",
                    Content::Fire => "🔥",
                    Content::Coin => "🪙",
                    Content::Bin => "🗑️",
                    Content::Crate => "🎭",
                    Content::Bank => "🏦",
                    Content::Water => "🌊",
                    Content::Market => "🏪",
                    Content::Fish => "🐟",
                    Content::Building => "🏠",
                    Content::Bush => "🌱",
                    Content::JollyBlock => "x",
                    Content::Scarecrow => "🐦‍",
                    Content::NoContent => "  ",
                }
            }
        },
    }
}

/// The same grid with every tile marked as known.
pub fn known_map(tiles: &Vec<Vec<Tile>>) -> (map: Vec<Vec<Option<Tile>>>)
    ensures
        map@.len() == tiles@.len(),
        forall|i: int|
            0 <= i < tiles@.len() ==> #[trigger] map@[i]@.len() == tiles@[i]@.len() && forall|j: int|
                0 <= j < tiles@[i]@.len() ==> map@[i]@[j] == Some(tiles@[i]@[j]),
{
    let mut tile_def: Vec<Vec<Option<Tile>>> = Vec::new();
    let mut i: usize = 0;
    while i < tiles.len()
        invariant
            i <= tiles@.len(),
            tile_def@.len() == i,
            forall|r: int|
                0 <= r < i ==> #[trigger] tile_def@[r]@.len() == tiles@[r]@.len() && forall|j: int|
                    0 <= j < tiles@[r]@.len() ==> tile_def@[r]@[j] == Some(tiles@[r]@[j]),
        decreases tiles@.len() - i,
    {
        let row = &tiles[i];
        let mut known_row: Vec<Option<Tile>> = Vec::new();
        let mut j: usize = 0;
        while j < row.len()
            invariant
                j <= row@.len(),
                known_row@.len() == j,
                forall|k: int| 0 <= k < j ==> known_row@[k] == Some(row@[k]),
            decreases row@.len() - j,
        {
            known_row.push(Some(row[j]));
            j = j + 1;
        }
        tile_def.push(known_row);
        i = i + 1;
    }
    tile_def
}

} // verus!
