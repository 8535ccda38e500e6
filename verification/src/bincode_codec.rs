//! A codec that writes chunks with bincode.

use vstd::prelude::*;
use crate::cell::{Cell, CellKind, Color};
use crate::chunk::{Chunk, CHUNK_SIZE, SerialChunk};
use crate::codec::{ChunkCodec, dudes_of};
use crate::dude::Dude;
use crate::point::{Point, WorldPosition};

verus! {

/// What bincode makes of the cells and the dudes of a chunk that are handed to it as plain
/// values: for each cell the numbers of its colour and of its kind, and for each dude the
/// position at which he stands and what he is. None where bincode fails.
pub uninterp spec fn bincode_bytes(
    cells: Seq<(u32, u32)>,
    dudes: Seq<((i32, i32), ((i32, i32), char, u32, Seq<char>))>,
) -> Option<Seq<u8>>;

/// The plain values of cells and dudes that bincode finds in bytes, as two lists; none where
/// it finds none.
pub uninterp spec fn bincode_value(bytes: Seq<u8>) -> Option<
    (Seq<(u32, u32)>, Seq<((i32, i32), ((i32, i32), char, u32, String))>),
>;

/// A dude as a plain value, his name taken as its characters.
pub open spec fn dude_characters(dude: ((i32, i32), ((i32, i32), char, u32, String))) -> (
    (i32, i32),
    ((i32, i32), char, u32, Seq<char>),
) {
    (dude.0, (dude.1.0, dude.1.1, dude.1.2, dude.1.3@))
}

/// The dudes of a list as plain values, their names taken as their characters.
pub open spec fn dudes_characters(
    dudes: Seq<((i32, i32), ((i32, i32), char, u32, String))>,
) -> Seq<((i32, i32), ((i32, i32), char, u32, Seq<char>))> {
    dudes.map_values(|dude: ((i32, i32), ((i32, i32), char, u32, String))| dude_characters(dude))
}

/// Calls `bincode::serialize` on the pair of the two lists, which writes each list as its
/// length and its items, and an item as its parts one after the other. What comes out is
/// named `bincode_bytes`. That bincode does not fail is not claimed.
#[verifier::external_body]
fn bincode_write(
    cells: &Vec<(u32, u32)>,
    dudes: &Vec<((i32, i32), ((i32, i32), char, u32, String))>,
) -> (result: Result<Vec<u8>, Box<bincode::ErrorKind>>)
    ensures
        match result {
            Ok(bytes) => bincode_bytes(cells@, dudes_characters(dudes@)) == Some(bytes@),
            Err(_) => bincode_bytes(cells@, dudes_characters(dudes@)) is None,
        },
{
    bincode::serialize(&(cells, dudes))
}

/// Calls `bincode::deserialize` on the bytes for a pair of two lists as `bincode_write`
/// writes them. Bytes that follow the pair are left alone. What the two lists hold is named
/// `bincode_value`; a name stays the string that it is, since only a string can be the name
/// of a dude.
#[verifier::external_body]
fn bincode_read(bytes: &Vec<u8>) -> (result: Result<
    (Vec<(u32, u32)>, Vec<((i32, i32), ((i32, i32), char, u32, String))>),
    Box<bincode::ErrorKind>,
>)
    ensures
        match result {
            Ok(value) => bincode_value(bytes@) == Some((value.0@, value.1@)),
            Err(_) => bincode_value(bytes@) is None,
        },
{
    bincode::deserialize(bytes.as_slice())
}

/// Makes the `bincode::ErrorKind::InvalidTagEncoding` that bincode makes of a number that
/// names no variant. Nothing is claimed of the error.
#[verifier::external_body]
fn invalid_tag(tag: u32) -> Box<bincode::ErrorKind> {
    Box::new(bincode::ErrorKind::InvalidTagEncoding(tag as usize))
}

/// Makes the `bincode::ErrorKind::Custom` that holds a message. Nothing is claimed of the
/// error.
#[verifier::external_body]
fn custom_error(message: &str) -> Box<bincode::ErrorKind> {
    Box::new(bincode::ErrorKind::Custom(message.to_string()))
}

/// The number under which a colour is written.
pub open spec fn color_tag(color: Color) -> u32 {
    match color {
        Color::Red => 0,
        Color::Blue => 1,
        Color::Green => 2,
        Color::Cyan => 3,
        Color::Magenta => 4,
        Color::Yellow => 5,
        Color::White => 6,
    }
}

/// The colour that is written under a number.
pub open spec fn tagged_color(tag: u32) -> Option<Color> {
    if tag == 0 {
        Some(Color::Red)
    } else if tag == 1 {
        Some(Color::Blue)
    } else if tag == 2 {
        Some(Color::Green)
    } else if tag == 3 {
        Some(Color::Cyan)
    } else if tag == 4 {
        Some(Color::Magenta)
    } else if tag == 5 {
        Some(Color::Yellow)
    } else if tag == 6 {
        Some(Color::White)
    } else {
        None
    }
}

/// The number under which a kind of cell is written.
pub open spec fn kind_tag(kind: CellKind) -> u32 {
    match kind {
        CellKind::Wall => 0,
        CellKind::Floor => 1,
        CellKind::Tree => 2,
        CellKind::Nothing => 3,
    }
}

/// The kind of cell that is written under a number.
pub open spec fn tagged_kind(tag: u32) -> Option<CellKind> {
    if tag == 0 {
        Some(CellKind::Wall)
    } else if tag == 1 {
        Some(CellKind::Floor)
    } else if tag == 2 {
        Some(CellKind::Tree)
    } else if tag == 3 {
        Some(CellKind::Nothing)
    } else {
        None
    }
}

/// A cell as it is written: the numbers of its colour and of its kind.
pub open spec fn plain_cell(cell: Cell) -> (u32, u32) {
    (color_tag(cell.color), kind_tag(cell.kind))
}

/// A dude as he is written: the position at which he stands, and his own position, his
/// appearance, the number of his colour and the characters of his name.
pub open spec fn plain_dude(entry: (WorldPosition, Dude)) -> (
    (i32, i32),
    ((i32, i32), char, u32, Seq<char>),
) {
    (
        (entry.0.x, entry.0.y),
        (
            (entry.1.pos.x, entry.1.pos.y),
            entry.1.appearance,
            color_tag(entry.1.color),
            entry.1.name@,
        ),
    )
}

/// The cell that two numbers stand for, where they are those of a colour and of a kind.
pub open spec fn cell_of(plain: (u32, u32)) -> Option<Cell> {
    match (tagged_color(plain.0), tagged_kind(plain.1)) {
        (Some(color), Some(kind)) => Some(Cell { color, kind }),
        _ => None,
    }
}

/// The dude that a plain value stands for, and the position at which he stands, where the
/// number of his colour is that of a colour.
pub open spec fn dude_of(plain: ((i32, i32), ((i32, i32), char, u32, String))) -> Option<
    (WorldPosition, Dude),
> {
    match tagged_color(plain.1.2) {
        Some(color) => Some(
            (
                Point { x: plain.0.0, y: plain.0.1 },
                Dude {
                    pos: Point { x: plain.1.0.0, y: plain.1.0.1 },
                    appearance: plain.1.1,
                    color,
                    name: plain.1.3,
                },
            ),
        ),
        None => None,
    }
}

/// The chunk and the dudes that plain values stand for: none where a number names no colour
/// or no kind, or where the cells are not as many as a chunk holds.
pub open spec fn payload_of(
    cells: Seq<(u32, u32)>,
    dudes: Seq<((i32, i32), ((i32, i32), char, u32, String))>,
) -> Option<(Chunk, Seq<(WorldPosition, Dude)>)> {
    if cells.len() == CHUNK_SIZE && (forall|i: int| 0 <= i < cells.len() ==> cell_of(cells[i]) is Some)
        && (forall|i: int| 0 <= i < dudes.len() ==> dude_of(dudes[i]) is Some) {
        Some(
            (
                Chunk::with_cells(Seq::new(cells.len(), |i: int| cell_of(cells[i]).unwrap())),
                Seq::new(dudes.len(), |i: int| dude_of(dudes[i]).unwrap()),
            ),
        )
    } else {
        None
    }
}

fn color_number(color: Color) -> (tag: u32)
    ensures
        tag == color_tag(color),
        tagged_color(tag) == Some(color),
{
    match color {
        Color::Red => 0,
        Color::Blue => 1,
        Color::Green => 2,
        Color::Cyan => 3,
        Color::Magenta => 4,
        Color::Yellow => 5,
        Color::White => 6,
    }
}

fn numbered_color(tag: u32) -> (color: Option<Color>)
    ensures
        color == tagged_color(tag),
{
    if tag == 0 {
        Some(Color::Red)
    } else if tag == 1 {
        Some(Color::Blue)
    } else if tag == 2 {
        Some(Color::Green)
    } else if tag == 3 {
        Some(Color::Cyan)
    } else if tag == 4 {
        Some(Color::Magenta)
    } else if tag == 5 {
        Some(Color::Yellow)
    } else if tag == 6 {
        Some(Color::White)
    } else {
        None
    }
}

fn kind_number(kind: CellKind) -> (tag: u32)
    ensures
        tag == kind_tag(kind),
        tagged_kind(tag) == Some(kind),
{
    match kind {
        CellKind::Wall => 0,
        CellKind::Floor => 1,
        CellKind::Tree => 2,
        CellKind::Nothing => 3,
    }
}

fn numbered_kind(tag: u32) -> (kind: Option<CellKind>)
    ensures
        kind == tagged_kind(tag),
{
    if tag == 0 {
        Some(CellKind::Wall)
    } else if tag == 1 {
        Some(CellKind::Floor)
    } else if tag == 2 {
        Some(CellKind::Tree)
    } else if tag == 3 {
        Some(CellKind::Nothing)
    } else {
        None
    }
}

/// The codec that writes a chunk as bincode writes the list of its cells and the list of its
/// dudes.
pub struct BincodeCodec;

impl ChunkCodec for BincodeCodec {
    open spec fn encoding(&self, chunk: Chunk, dudes: Seq<(WorldPosition, Dude)>) -> Option<
        Seq<u8>,
    > {
        bincode_bytes(
            chunk.cells().map_values(|cell: Cell| plain_cell(cell)),
            dudes.map_values(|entry: (WorldPosition, Dude)| plain_dude(entry)),
        )
    }

    open spec fn decoding(&self, bytes: Seq<u8>) -> Option<(Chunk, Seq<(WorldPosition, Dude)>)> {
        match bincode_value(bytes) {
            Some(value) => payload_of(value.0, value.1),
            None => None,
        }
    }

    fn encode(&self, chunk: &Chunk, dudes: &Vec<(WorldPosition, &Dude)>) -> (result: Result<
        Vec<u8>,
        Box<bincode::ErrorKind>,
    >) {
        let all: Vec<(crate::chunk::ChunkPosition, Cell)> = chunk.iter();
        let mut cells: Vec<(u32, u32)> = Vec::new();
        let mut i: usize = 0;
        proof {
            chunk.lemma_cells();
        }
        while i < all.len()
            invariant
                i <= all@.len(),
                all@.len() == CHUNK_SIZE,
                chunk.cells().len() == CHUNK_SIZE,
                forall|j: int| 0 <= j < CHUNK_SIZE ==> (#[trigger] all@[j]).1 == chunk.cells()[j],
                cells@.len() == i,
                forall|j: int| 0 <= j < i ==> cells@[j] == plain_cell(chunk.cells()[j]),
            decreases all@.len() - i,
        {
            let cell: Cell = all[i].1;
            cells.push((color_number(cell.color), kind_number(cell.kind)));
            i += 1;
        }
        let mut list: Vec<((i32, i32), ((i32, i32), char, u32, String))> = Vec::new();
        let mut k: usize = 0;
        while k < dudes.len()
            invariant
                k <= dudes@.len(),
                list@.len() == k,
                forall|j: int|
                    0 <= j < k ==> dude_characters(#[trigger] list@[j]) == plain_dude(
                        dudes_of(dudes@)[j],
                    ),
            decreases dudes@.len() - k,
        {
            let pos: Point = dudes[k].0;
            let dude: &Dude = dudes[k].1;
            list.push(
                (
                    (pos.x, pos.y),
                    (
                        (dude.pos.x, dude.pos.y),
                        dude.appearance,
                        color_number(dude.color),
                        dude.name.clone(),
                    ),
                ),
            );
            k += 1;
        }
        proof {
            assert(cells@ =~= chunk.cells().map_values(|cell: Cell| plain_cell(cell)));
            assert(dudes_characters(list@) =~= dudes_of(dudes@).map_values(
                |entry: (WorldPosition, Dude)| plain_dude(entry),
            ));
        }
        bincode_write(&cells, &list)
    }

    fn decode(&self, bytes: &Vec<u8>) -> (result: Result<SerialChunk, Box<bincode::ErrorKind>>) {
        let value = match bincode_read(bytes) {
            Ok(value) => value,
            Err(e) => {
                return Err(e);
            },
        };
        let ghost plain_cells = value.0@;
        let ghost plain_dudes = value.1@;
        let list: Vec<Cell> = match cells_from(&value.0) {
            Ok(list) => list,
            Err(tag) => {
                return Err(invalid_tag(tag));
            },
        };
        let chunk: Chunk = match Chunk::from_cells(&list) {
            Some(chunk) => chunk,
            None => {
                return Err(custom_error("a chunk with too few or too many cells"));
            },
        };
        let dudes: Vec<(WorldPosition, Dude)> = match dudes_from(value.1) {
            Ok(dudes) => dudes,
            Err(tag) => {
                return Err(invalid_tag(tag));
            },
        };
        proof {
            assert(list@ =~= Seq::new(plain_cells.len(), |i: int| cell_of(plain_cells[i]).unwrap()));
            assert(dudes@ =~= Seq::new(
                plain_dudes.len(),
                |i: int| dude_of(plain_dudes[i]).unwrap(),
            ));
        }
        Ok(SerialChunk { chunk, dudes })
    }
}

/// The cells that a list of pairs of numbers stands for, or the first number that names no
/// colour or no kind.
fn cells_from(plain: &Vec<(u32, u32)>) -> (result: Result<Vec<Cell>, u32>)
    ensures
        match result {
            Ok(cells) => {
                &&& cells@.len() == plain@.len()
                &&& forall|j: int|
                    0 <= j < plain@.len() ==> cell_of(#[trigger] plain@[j]) == Some(cells@[j])
            },
            Err(_) => exists|j: int| 0 <= j < plain@.len() && cell_of(#[trigger] plain@[j]) is None,
        },
{
    let mut cells: Vec<Cell> = Vec::new();
    let mut i: usize = 0;
    while i < plain.len()
        invariant
            i <= plain@.len(),
            cells@.len() == i,
            forall|j: int| 0 <= j < i ==> cell_of(#[trigger] plain@[j]) == Some(cells@[j]),
        decreases plain@.len() - i,
    {
        let color: Color = match numbered_color(plain[i].0) {
            Some(color) => color,
            None => {
                assert(cell_of(plain@[i as int]) is None);
                return Err(plain[i].0);
            },
        };
        let kind: CellKind = match numbered_kind(plain[i].1) {
            Some(kind) => kind,
            None => {
                assert(cell_of(plain@[i as int]) is None);
                return Err(plain[i].1);
            },
        };
        cells.push(Cell::new(kind, color));
        i += 1;
    }
    Ok(cells)
}

/// The dudes that a list of plain values stands for, or the first number that names no
/// colour.
fn dudes_from(plain: Vec<((i32, i32), ((i32, i32), char, u32, String))>) -> (result: Result<
    Vec<(WorldPosition, Dude)>,
    u32,
>)
    ensures
        match result {
            Ok(dudes) => {
                &&& dudes@.len() == plain@.len()
                &&& forall|j: int|
                    0 <= j < plain@.len() ==> dude_of(#[trigger] plain@[j]) == Some(dudes@[j])
            },
            Err(_) => exists|j: int| 0 <= j < plain@.len() && dude_of(#[trigger] plain@[j]) is None,
        },
{
    let mut rest: Vec<((i32, i32), ((i32, i32), char, u32, String))> = plain;
    let mut found: Vec<(WorldPosition, Dude)> = Vec::new();
    while rest.len() > 0
        invariant
            found@.len() <= plain@.len(),
            rest@ == plain@.skip(found@.len() as int),
            forall|j: int|
                0 <= j < found@.len() ==> dude_of(#[trigger] plain@[j]) == Some(found@[j]),
        decreases rest@.len(),
    {
        let ghost at = found@.len() as int;
        let entry: ((i32, i32), ((i32, i32), char, u32, String)) = rest.remove(0);
        proof {
            assert(at < plain@.len());
            assert(entry == plain@[at]);
            assert(rest@ =~= plain@.skip(at + 1));
        }
        let (place, (pos, appearance, tag, name)) = entry;
        let color: Color = match numbered_color(tag) {
            Some(color) => color,
            None => {
                assert(dude_of(plain@[at]) is None);
                return Err(tag);
            },
        };
        let dude = Dude::from_parts(Point::new(pos.0, pos.1), appearance, color, name);
        found.push((Point::new(place.0, place.1), dude));
    }
    Ok(found)
}

} // verus!
