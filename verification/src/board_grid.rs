//! The tudi grid that holds the pieces of a game, seen through the
//! operations the game state performs on it.
//!
//! The grid is origin-centered: an 8 by 8 grid spans x and y from -3 to 4.
//! What it holds is named [`grid_pieces`], a map from coordinates to pieces,
//! and its size [`grid_extent`], its number of columns and rows.

use crate::game::Piece;
use tudi::Coordinate;
use tudi::Grid;
use tudi::GridError;
use vstd::prelude::*;

verus! {

#[verifier::external_type_specification]
#[verifier::external_body]
#[verifier::reject_recursive_types(T)]
pub struct ExGrid<T>(Grid<T>);

#[verifier::external_type_specification]
#[verifier::external_body]
pub struct ExGridError(GridError);

/// The pieces a grid holds, by `(x, y)` coordinate.
pub uninterp spec fn grid_pieces(grid: Grid<Piece>) -> Map<(int, int), Piece>;

/// The number of columns and rows a grid was made with.
pub uninterp spec fn grid_extent(grid: Grid<Piece>) -> (int, int);

/// The smallest coordinate on an origin-centered axis of `count` points: the
/// axis is centered on the origin, biased toward the positive side when the
/// count is even.
pub open spec fn axis_min(count: int) -> int {
    if count % 2 == 0 {
        -(count / 2) + 1
    } else {
        -(count / 2)
    }
}

/// The largest coordinate on an origin-centered axis of `count` points.
pub open spec fn axis_max(count: int) -> int {
    count / 2
}

/// Whether `(x, y)` lies inside a grid of the given extent.
pub open spec fn within_extent(extent: (int, int), x: int, y: int) -> bool {
    axis_min(extent.0) <= x <= axis_max(extent.0) && axis_min(extent.1) <= y <= axis_max(
        extent.1,
    )
}

/// The piece at `(x, y)`, if any.
pub open spec fn piece_at(grid: Grid<Piece>, x: int, y: int) -> Option<Piece> {
    if grid_pieces(grid).dom().contains((x, y)) {
        Some(grid_pieces(grid)[(x, y)])
    } else {
        None
    }
}

/// No pieces at all.
pub open spec fn no_pieces() -> Map<(int, int), Piece> {
    Map::empty()
}

/// An empty grid of `x_count` columns and `y_count` rows (`Grid::new`):
/// every coordinate is empty. `Grid::new` subtracts one from each count after
/// converting it to `u32`, so a count of zero, or one that does not fit in a
/// `u32`, panics and is left out.
#[verifier::external_body]
#[allow(deprecated)]
pub(crate) fn new_grid(x_count: usize, y_count: usize) -> (grid: Grid<Piece>)
    requires
        1 <= x_count <= u32::MAX,
        1 <= y_count <= u32::MAX,
    ensures
        grid_pieces(grid) == no_pieces(),
        grid_extent(grid) == (x_count as int, y_count as int),
{
    Grid::new(x_count, y_count)
}

/// The piece at a coordinate (`Grid::element_unchecked`), which must be
/// inside the grid; the call panics otherwise.
#[verifier::external_body]
pub(crate) fn grid_element(grid: &Grid<Piece>, x: i32, y: i32) -> (piece: Option<Piece>)
    requires
        within_extent(grid_extent(*grid), x as int, y as int),
    ensures
        piece == piece_at(*grid, x as int, y as int),
{
    grid.element_unchecked(&Coordinate { x, y }).copied()
}

/// Stores a piece at a coordinate (`Grid::store_element`). Inside the grid it
/// replaces whatever was there and hands back the piece it replaced; outside
/// it fails and leaves the grid as it was. It does not panic: it only
/// indexes the grid's storage at a position it has checked.
#[verifier::external_body]
pub(crate) fn grid_store(grid: &mut Grid<Piece>, x: i32, y: i32, piece: Piece) -> (r: Result<
    Option<Piece>,
    GridError,
>)
    ensures
        grid_extent(*final(grid)) == grid_extent(*old(grid)),
        within_extent(grid_extent(*old(grid)), x as int, y as int) ==> {
            &&& r == Ok::<Option<Piece>, GridError>(piece_at(*old(grid), x as int, y as int))
            &&& grid_pieces(*final(grid)) == grid_pieces(*old(grid)).insert((x as int, y as int), piece)
        },
        !within_extent(grid_extent(*old(grid)), x as int, y as int) ==> {
            &&& r is Err
            &&& grid_pieces(*final(grid)) == grid_pieces(*old(grid))
        },
    no_unwind
{
    grid.store_element(&Coordinate { x, y }, piece)
}

/// The message of tudi's error for taking a piece off the empty coordinate
/// `(x, y)` inside a grid: the `Display` text of
/// `GridError::UnoccupiedError` for that coordinate.
pub uninterp spec fn unoccupied_text(x: int, y: int) -> Seq<char>;

/// Takes the piece off a coordinate (`Grid::remove_element`), handing back a
/// failure as the error's message. It fails, and leaves the grid as it was,
/// when the coordinate is empty or outside the grid; for an empty coordinate
/// inside the grid the message is the one `unoccupied_text` names, and for
/// one outside it the message is not stated here. It does not panic: it only
/// indexes the grid's storage at a position it has checked, and writing the
/// message into a `String` cannot fail.
#[verifier::external_body]
pub(crate) fn grid_remove(grid: &mut Grid<Piece>, x: i32, y: i32) -> (r: Result<Piece, String>)
    ensures
        grid_extent(*final(grid)) == grid_extent(*old(grid)),
        within_extent(grid_extent(*old(grid)), x as int, y as int) && piece_at(
            *old(grid),
            x as int,
            y as int,
        ) is Some ==> {
            &&& r == Ok::<Piece, String>(piece_at(*old(grid), x as int, y as int).unwrap())
            &&& grid_pieces(*final(grid)) == grid_pieces(*old(grid)).remove((x as int, y as int))
        },
        within_extent(grid_extent(*old(grid)), x as int, y as int) && piece_at(
            *old(grid),
            x as int,
            y as int,
        ) is None ==> {
            &&& r matches Err(text) && text@ == unoccupied_text(x as int, y as int)
            &&& grid_pieces(*final(grid)) == grid_pieces(*old(grid))
        },
        !within_extent(grid_extent(*old(grid)), x as int, y as int) ==> {
            &&& r is Err
            &&& grid_pieces(*final(grid)) == grid_pieces(*old(grid))
        },
    no_unwind
{
    grid.remove_element(&Coordinate { x, y }).map_err(|error| error.to_string())
}

} // verus!
