//! Walking a maze of walls and open tiles, depth first.
use vstd::prelude::*;
use vstd::string::StrSliceExecFns;
use crate::search::{count_unmarked, lemma_mark};

verus! {

#[derive(Debug, Clone, Copy, PartialEq, Eq, Structural)]
pub enum Tile {
    Wall,
    Empty,
}

/// A position: row, then column.
#[derive(Debug, Clone, Copy, PartialEq, Eq, Structural)]
pub struct Point(pub i32, pub i32);

/// Why a maze could not be read or a tile looked up.
#[derive(Debug, Clone, Copy, PartialEq, Eq)]
pub enum MazeError {
    /// A character that is neither `#` nor a space.
    UnknownSymbol(char),
    /// No rows at all.
    NoRows,
    /// The row at this index is not as long as the first one.
    RaggedRow(usize),
    /// The point lies outside the maze.
    OutOfBounds(Point),
}

/// The tile that a character stands for: `#` a wall, a space an open tile.
pub open spec fn tile_of(c: char) -> Option<Tile> {
    if c == '#' {
        Some(Tile::Wall)
    } else if c == ' ' {
        Some(Tile::Empty)
    } else {
        None
    }
}

/// Every character of `line` stands for a tile.
pub open spec fn line_ok(line: Seq<char>) -> bool {
    forall|i: int| 0 <= i < line.len() ==> tile_of(line[i]) is Some
}

/// The number of unset marks in a table of rows.
pub open spec fn unseen(s: Seq<Seq<bool>>) -> nat
    decreases s.len(),
{
    if s.len() == 0 {
        0
    } else {
        unseen(s.drop_last()) + count_unmarked(s.last())
    }
}

/// Setting an unset mark lowers the count by one.
proof fn lemma_see(s: Seq<Seq<bool>>, r: int, c: int)
    requires
        0 <= r < s.len(),
        0 <= c < s[r].len(),
        !s[r][c],
    ensures
        unseen(s.update(r, s[r].update(c, true))) + 1 == unseen(s),
    decreases s.len(),
{
    let t = s.update(r, s[r].update(c, true));
    if r == s.len() - 1 {
        assert(t.drop_last() =~= s.drop_last());
        lemma_mark(s[r], c);
    } else {
        lemma_see(s.drop_last(), r, c);
        assert(t.drop_last() =~= s.drop_last().update(r, s[r].update(c, true)));
    }
}

/// The rows of a table of marks.
pub open spec fn rows_of(seen: Seq<Vec<bool>>) -> Seq<Seq<bool>> {
    seen.map_values(|row: Vec<bool>| row@)
}

/// `a` and `b` are next to each other, in a row or in a column.
pub open spec fn adjacent(a: Point, b: Point) -> bool {
    ||| a.0 == b.0 && (a.1 - b.1 == 1 || b.1 - a.1 == 1)
    ||| a.1 == b.1 && (a.0 - b.0 == 1 || b.0 - a.0 == 1)
}

/// The neighbour of `p` in direction `d`: up, down, left, right; nothing where
/// it would leave the range of `i32`.
pub open spec fn neighbour_of(p: Point, d: int) -> Option<Point> {
    if d == 0 {
        if p.0 > i32::MIN { Some(Point((p.0 - 1) as i32, p.1)) } else { None }
    } else if d == 1 {
        if p.0 < i32::MAX { Some(Point((p.0 + 1) as i32, p.1)) } else { None }
    } else if d == 2 {
        if p.1 > i32::MIN { Some(Point(p.0, (p.1 - 1) as i32)) } else { None }
    } else {
        if p.1 < i32::MAX { Some(Point(p.0, (p.1 + 1) as i32)) } else { None }
    }
}

/// Every point next to `x` is a neighbour of it in one of the four directions.
proof fn lemma_adjacent_is_neighbour(x: Point, y: Point)
    requires
        adjacent(x, y),
    ensures
        exists|d: int| 0 <= d < 4 && #[trigger] neighbour_of(x, d) == Some(y),
{
    if x.1 == y.1 && x.0 - y.0 == 1 {
        assert(neighbour_of(x, 0) == Some(y));
    } else if x.1 == y.1 && y.0 - x.0 == 1 {
        assert(neighbour_of(x, 1) == Some(y));
    } else if x.0 == y.0 && x.1 - y.1 == 1 {
        assert(neighbour_of(x, 2) == Some(y));
    } else {
        assert(neighbour_of(x, 3) == Some(y));
    }
}

/// The mark of `y` is set.
pub open spec fn seen_at(s: Seq<Seq<bool>>, y: Point) -> bool {
    &&& 0 <= y.0 < s.len()
    &&& 0 <= y.1 < s[y.0 as int].len()
    &&& s[y.0 as int][y.1 as int]
}

/// Every mark set in `s` is set in `t`.
pub open spec fn grows(s: Seq<Seq<bool>>, t: Seq<Seq<bool>>) -> bool {
    forall|y: Point| #[trigger] seen_at(s, y) ==> seen_at(t, y)
}

/// Reads one row of a maze.
pub fn parse_line(line: &str) -> (r: Result<Vec<Tile>, MazeError>)
    ensures
        r is Ok <==> line_ok(line@),
        r matches Ok(row) ==> row@.len() == line@.len() && forall|i: int|
            0 <= i < line@.len() ==> tile_of(line@[i]) == Some(row@[i]),
        r matches Err(e) ==> exists|i: int|
            0 <= i < line@.len() && tile_of(line@[i]) is None && e == MazeError::UnknownSymbol(line@[i])
                && line_ok(line@.subrange(0, i)),
{
    let n = line.unicode_len();
    let mut row: Vec<Tile> = Vec::new();
    let mut i: usize = 0;
    while i < n
        invariant
            n == line@.len(),
            i <= n,
            row@.len() == i,
            forall|j: int| 0 <= j < i ==> tile_of(line@[j]) == Some(row@[j]),
        decreases n - i,
    {
        let c = line.get_char(i);
        if c == '#' {
            row.push(Tile::Wall);
        } else if c == ' ' {
            row.push(Tile::Empty);
        } else {
            proof {
                assert forall|j: int| 0 <= j < i implies tile_of(#[trigger] line@.subrange(0, i as int)[j]) is Some by {
                    assert(line@.subrange(0, i as int)[j] == line@[j]);
                }
            }
            return Err(MazeError::UnknownSymbol(c));
        }
        i = i + 1;
    }
    Ok(row)
}

/// A rectangular maze.
pub struct Field {
    height: usize,
    width: usize,
    tiles: Vec<Vec<Tile>>,
}

impl Field {
    pub closed spec fn rows(&self) -> nat {
        self.height as nat
    }

    pub closed spec fn cols(&self) -> nat {
        self.width as nat
    }

    /// The number of rows.
    pub fn height(&self) -> (r: usize)
        ensures
            r == self.rows(),
    {
        self.height
    }

    /// The number of tiles in each row.
    pub fn width(&self) -> (r: usize)
        ensures
            r == self.cols(),
    {
        self.width
    }

    /// The tile at row `r`, column `c`.
    pub closed spec fn tile(&self, r: int, c: int) -> Tile {
        self.tiles@[r]@[c]
    }

    /// `height` rows of `width` tiles each.
    pub closed spec fn wf(&self) -> bool {
        &&& self.tiles@.len() == self.height
        &&& forall|r: int| 0 <= r < self.height ==> (#[trigger] self.tiles@[r])@.len() == self.width
    }

    /// `p` lies in the maze on an open tile.
    pub closed spec fn open_at(&self, p: Point) -> bool {
        &&& 0 <= p.0 < self.height
        &&& 0 <= p.1 < self.width
        &&& self.tile(p.0 as int, p.1 as int) == Tile::Empty
    }

    /// `q` leads from `start` to `end` in steps to a neighbouring tile, over
    /// open tiles but for the last.
    pub closed spec fn is_route(&self, q: Seq<Point>, start: Point, end: Point) -> bool {
        &&& q.len() > 0
        &&& q[0] == start
        &&& q.last() == end
        &&& forall|i: int| 0 <= i < q.len() - 1 ==> self.open_at(#[trigger] q[i]) && adjacent(q[i], q[i + 1])
    }

    /// Every point next to `x` is other than `end`, and seen or not open.
    pub closed spec fn closed_off(&self, s: Seq<Seq<bool>>, x: Point, end: Point) -> bool {
        forall|y: Point| #[trigger] adjacent(x, y) ==> y != end && (seen_at(s, y) || !self.open_at(y))
    }

    /// Every seen point off `path` is closed off.
    pub closed spec fn settled(&self, s: Seq<Seq<bool>>, path: Seq<Point>, end: Point) -> bool {
        forall|x: Point| #[trigger] seen_at(s, x) && !path.contains(x) ==> self.closed_off(s, x, end)
    }

    /// Some route leads from `start` to `end`.
    pub closed spec fn route_exists(&self, start: Point, end: Point) -> bool {
        exists|q: Seq<Point>| #[trigger] self.is_route(q, start, end)
    }

    /// With every seen point closed off, `start` seen or not open, and
    /// `start` other than `end`, no route leads from `start` to `end`.
    proof fn lemma_no_route(&self, s: Seq<Seq<bool>>, start: Point, end: Point)
        requires
            self.settled(s, Seq::empty(), end),
            start != end,
            seen_at(s, start) || !self.open_at(start),
        ensures
            !self.route_exists(start, end),
    {
        if self.route_exists(start, end) {
            let q = choose|q: Seq<Point>| #[trigger] self.is_route(q, start, end);
            self.lemma_route_seen(s, start, end, q, 0);
            let k = q.len() - 2;
            self.lemma_route_seen(s, start, end, q, k);
            assert(!Seq::<Point>::empty().contains(q[k]));
            assert(adjacent(q[k], q[k + 1]));
        }
    }

    /// Along a route from a seen `start`, every point but the last is seen.
    proof fn lemma_route_seen(&self, s: Seq<Seq<bool>>, start: Point, end: Point, q: Seq<Point>, i: int)
        requires
            self.settled(s, Seq::empty(), end),
            start != end,
            seen_at(s, start) || !self.open_at(start),
            self.is_route(q, start, end),
            0 <= i < q.len() - 1,
        ensures
            seen_at(s, q[i]),
        decreases i,
    {
        if i == 0 {
            assert(self.open_at(q[0]));
        } else {
            self.lemma_route_seen(s, start, end, q, i - 1);
            assert(!Seq::<Point>::empty().contains(q[i - 1]));
            assert(adjacent(q[i - 1], q[i]));
            assert(self.open_at(q[i]));
        }
    }

    /// Reads a maze, one line per row: `#` for a wall, a space for an open tile.
    pub fn try_new(input: Vec<&str>) -> (r: Result<Self, MazeError>)
        ensures
            input@.len() == 0 ==> r == Err::<Field, MazeError>(MazeError::NoRows),
            r is Ok <==> input@.len() > 0 && forall|i: int|
                0 <= i < input@.len() ==> (#[trigger] input@[i])@.len() == input@[0]@.len() && line_ok(
                    input@[i]@,
                ),
            r matches Ok(f) ==> {
                &&& f.wf()
                &&& f.rows() == input@.len()
                &&& f.cols() == input@[0]@.len()
                &&& forall|i: int, j: int|
                    0 <= i < f.rows() && 0 <= j < f.cols() ==> tile_of(input@[i]@[j]) == Some(f.tile(i, j))
            },
            r matches Err(MazeError::RaggedRow(i)) ==> i < input@.len() && input@[i as int]@.len() != input@[0]@.len(),
    {
        let height = input.len();
        if height == 0 {
            return Err(MazeError::NoRows);
        }
        let width = input[0].unicode_len();
        let mut tiles: Vec<Vec<Tile>> = Vec::new();
        let mut i: usize = 0;
        while i < height
            invariant
                height == input@.len(),
                width == input@[0]@.len(),
                i <= height,
                tiles@.len() == i,
                forall|k: int| 0 <= k < i ==> input@[k]@.len() == width && line_ok(input@[k]@),
                forall|k: int| 0 <= k < i ==> (#[trigger] tiles@[k])@.len() == width,
                forall|k: int, j: int|
                    0 <= k < i && 0 <= j < width ==> tile_of(input@[k]@[j]) == Some(tiles@[k]@[j]),
            decreases height - i,
        {
            let line = input[i];
            if line.unicode_len() != width {
                proof {
                    let k = i as int;
                    assert(input@[k]@.len() != input@[0]@.len());
                    assert(!(forall|j: int|
                        0 <= j < input@.len() ==> (#[trigger] input@[j])@.len() == input@[0]@.len() && line_ok(
                            input@[j]@,
                        )));
                }
                return Err(MazeError::RaggedRow(i));
            }
            match parse_line(line) {
                Ok(row) => {
                    tiles.push(row);
                },
                Err(e) => {
                    assert(!line_ok(input@[i as int]@));
                    return Err(e);
                },
            }
            i = i + 1;
        }
        Ok(Self { height, width, tiles })
    }

    /// The tile at `p`.
    pub fn at(&self, p: Point) -> (r: Result<&Tile, MazeError>)
        requires
            self.wf(),
        ensures
            r is Ok <==> 0 <= p.0 < self.rows() && 0 <= p.1 < self.cols(),
            r matches Ok(t) ==> *t == self.tile(p.0 as int, p.1 as int),
            r matches Err(e) ==> e == MazeError::OutOfBounds(p),
    {
        if p.0 < 0 || p.1 < 0 || p.0 as usize >= self.height || p.1 as usize >= self.width {
            return Err(MazeError::OutOfBounds(p));
        }
        Ok(&self.tiles[p.0 as usize][p.1 as usize])
    }

    /// The neighbour of `p` in direction `d`: up, down, left, right.
    fn neighbour(p: Point, d: usize) -> (r: Option<Point>)
        requires
            d < 4,
        ensures
            r == neighbour_of(p, d as int),
            r matches Some(q) ==> adjacent(p, q),
    {
        if d == 0 {
            if p.0 > i32::MIN { Some(Point(p.0 - 1, p.1)) } else { None }
        } else if d == 1 {
            if p.0 < i32::MAX { Some(Point(p.0 + 1, p.1)) } else { None }
        } else if d == 2 {
            if p.1 > i32::MIN { Some(Point(p.0, p.1 - 1)) } else { None }
        } else {
            if p.1 < i32::MAX { Some(Point(p.0, p.1 + 1)) } else { None }
        }
    }

    /// A step from `curr` to `nb` in front of a route from `nb` makes a route
    /// from `curr`.
    proof fn lemma_route_extend(
        &self,
        start_path: Seq<Point>,
        curr: Point,
        before: Seq<Point>,
        after: Seq<Point>,
        nb: Point,
        end: Point,
    )
        requires
            before == start_path.push(curr),
            self.open_at(curr),
            adjacent(curr, nb),
            after.len() > before.len(),
            after.subrange(0, before.len() as int) == before,
            self.is_route(after.subrange(before.len() as int, after.len() as int), nb, end),
        ensures
            after.len() > start_path.len(),
            after.subrange(0, start_path.len() as int) == start_path,
            self.is_route(after.subrange(start_path.len() as int, after.len() as int), curr, end),
    {
        let n0 = start_path.len() as int;
        let q = after.subrange(n0, after.len() as int);
        let rest = after.subrange(n0 + 1, after.len() as int);
        assert(after[n0] == curr) by {
            assert(after.subrange(0, n0 + 1)[n0] == after[n0]);
        }
        assert(q =~= seq![curr] + rest);
        assert(after.subrange(0, n0) =~= start_path) by {
            assert(after.subrange(0, n0) =~= before.subrange(0, n0));
        }
        assert forall|i: int| 0 <= i < q.len() - 1 implies self.open_at(#[trigger] q[i]) && adjacent(q[i], q[i + 1]) by {
            if i > 0 {
                assert(q[i] == rest[i - 1]);
                assert(q[i + 1] == rest[i]);
            }
        }
    }

    /// Walks depth first from `curr` towards `end` over open tiles not yet
    /// seen, trying up, down, left and right in turn; on success the route
    /// taken is appended to `path`.
    #[verifier::rlimit(40)]
    fn walk(&self, curr: Point, end: Point, seen: &mut Vec<Vec<bool>>, path: &mut Vec<Point>) -> (r: bool)
        requires
            self.wf(),
            old(seen)@.len() == self.height,
            forall|k: int| 0 <= k < self.height ==> (#[trigger] old(seen)@[k])@.len() == self.width,
            self.settled(rows_of(old(seen)@), old(path)@, end),
            !seen_at(rows_of(old(seen)@), end),
        ensures
            final(seen)@.len() == self.height,
            forall|k: int| 0 <= k < self.height ==> (#[trigger] final(seen)@[k])@.len() == self.width,
            unseen(rows_of(final(seen)@)) <= unseen(rows_of(old(seen)@)),
            grows(rows_of(old(seen)@), rows_of(final(seen)@)),
            !seen_at(rows_of(final(seen)@), end),
            !r ==> {
                &&& self.settled(rows_of(final(seen)@), old(path)@, end)
                &&& curr != end
                &&& seen_at(rows_of(final(seen)@), curr) || !self.open_at(curr)
            },
            r ==> final(path)@.len() > old(path)@.len() && final(path)@.subrange(0, old(path)@.len() as int)
                == old(path)@ && self.is_route(
                final(path)@.subrange(old(path)@.len() as int, final(path)@.len() as int),
                curr,
                end,
            ),
            !r ==> final(path)@ == old(path)@,
        decreases unseen(rows_of(old(seen)@)),
    {
        if curr == end {
            path.push(curr);
            proof {
                let q = path@.subrange(old(path)@.len() as int, path@.len() as int);
                assert(q =~= seq![curr]);
                assert(path@.subrange(0, old(path)@.len() as int) =~= old(path)@);
            }
            return true;
        }
        let open = match self.at(curr) {
            Ok(t) => *t == Tile::Empty,
            Err(_) => false,
        };
        if !open {
            return false;
        }
        let r = curr.0 as usize;
        let c = curr.1 as usize;
        if seen[r][c] {
            return false;
        }
        path.push(curr);
        proof {
            lemma_see(rows_of(seen@), r as int, c as int);
        }
        seen[r].set(c, true);
        assert(rows_of(seen@) =~= rows_of(old(seen)@).update(
            r as int,
            rows_of(old(seen)@)[r as int].update(c as int, true),
        ));
        proof {
            let s0 = rows_of(old(seen)@);
            let s1 = rows_of(seen@);
            assert forall|y: Point| #[trigger] seen_at(s0, y) implies seen_at(s1, y) by {
                if y.0 == curr.0 {
                    assert(s1[y.0 as int] == s0[y.0 as int].update(c as int, true));
                }
            }
            assert forall|x: Point| #[trigger] seen_at(s1, x) && !old(path)@.push(curr).contains(x) implies self.closed_off(s1, x, end) by {
                assert(x != curr) by {
                    assert(old(path)@.push(curr)[old(path)@.len() as int] == curr);
                }
                if x.0 == curr.0 {
                    assert(s1[x.0 as int] == s0[x.0 as int].update(c as int, true));
                    assert(x.1 != curr.1);
                }
                assert(seen_at(s0, x));
                if old(path)@.contains(x) {
                    let i = choose|i: int| 0 <= i < old(path)@.len() && old(path)@[i] == x;
                    assert(old(path)@.push(curr)[i] == x);
                }
                assert(self.closed_off(s0, x, end));
            }
        }
        let mut d: usize = 0;
        while d < 4
            invariant
                self.wf(),
                self.open_at(curr),
                path@ == old(path)@.push(curr),
                seen@.len() == self.height,
                forall|k: int| 0 <= k < self.height ==> (#[trigger] seen@[k])@.len() == self.width,
                unseen(rows_of(seen@)) < unseen(rows_of(old(seen)@)),
                grows(rows_of(old(seen)@), rows_of(seen@)),
                !seen_at(rows_of(seen@), end),
                seen_at(rows_of(seen@), curr),
                curr != end,
                d <= 4,
                self.settled(rows_of(seen@), old(path)@.push(curr), end),
                forall|e: int|
                    0 <= e < d ==> (#[trigger] neighbour_of(curr, e) matches Some(y) ==> y != end && (seen_at(
                        rows_of(seen@),
                        y,
                    ) || !self.open_at(y))),
            decreases 4 - d,
        {
            let ghost seen0 = rows_of(seen@);
            match Self::neighbour(curr, d) {
                Some(nb) => {
                    let ghost before = path@;
                    if self.walk(nb, end, seen, path) {
                        proof {
                            self.lemma_route_extend(old(path)@, curr, before, path@, nb, end);
                        }
                        return true;
                    }
                    proof {
                        let s1 = rows_of(seen@);
                        assert forall|e: int| 0 <= e < d + 1 implies (#[trigger] neighbour_of(curr, e) matches Some(
                            y,
                        ) ==> y != end && (seen_at(s1, y) || !self.open_at(y))) by {
                            if e < d {
                                if neighbour_of(curr, e) is Some {
                                    let y = neighbour_of(curr, e)->0;
                                    if seen_at(seen0, y) {
                                        assert(seen_at(s1, y));
                                    }
                                }
                            }
                        }
                        assert forall|y: Point| #[trigger] seen_at(rows_of(old(seen)@), y) implies seen_at(s1, y) by {
                            assert(seen_at(seen0, y));
                        }
                    }
                },
                None => {},
            }
            d = d + 1;
        }
        path.pop();
        proof {
            let s1 = rows_of(seen@);
            assert forall|y: Point| #[trigger] adjacent(curr, y) implies y != end && (seen_at(s1, y) || !self.open_at(y)) by {
                lemma_adjacent_is_neighbour(curr, y);
            }
            assert(self.closed_off(s1, curr, end));
            assert forall|x: Point| #[trigger] seen_at(s1, x) && !old(path)@.contains(x) implies self.closed_off(s1, x, end) by {
                if x != curr {
                    assert(!old(path)@.push(curr).contains(x));
                }
            }
        }
        false
    }

    /// A route from `start` to `end` found depth first, or nothing if the walk
    /// found none.
    pub fn find(&self, start: Point, end: Point) -> (r: Vec<Point>)
        requires
            self.wf(),
        ensures
            r@.len() > 0 ==> self.is_route(r@, start, end),
            r@.len() == 0 ==> !self.route_exists(start, end),
    {
        let mut seen: Vec<Vec<bool>> = Vec::new();
        let mut i: usize = 0;
        while i < self.height
            invariant
                i <= self.height,
                seen@.len() == i,
                forall|k: int| 0 <= k < i ==> (#[trigger] seen@[k])@.len() == self.width,
                forall|k: int, j: int| 0 <= k < i && 0 <= j < self.width ==> !seen@[k]@[j],
            decreases self.height - i,
        {
            seen.push(vec![false; self.width]);
            i = i + 1;
        }
        let mut path: Vec<Point> = Vec::new();
        assert forall|x: Point| !#[trigger] seen_at(rows_of(seen@), x) by {}
        if self.walk(start, end, &mut seen, &mut path) {
            assert(path@.subrange(0, path@.len() as int) =~= path@);
        } else {
            proof {
                self.lemma_no_route(rows_of(seen@), start, end);
            }
        }
        path
    }
}

} // verus!
