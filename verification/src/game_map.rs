use vstd::prelude::*;

use vstd::arithmetic::div_mod::{
    lemma_fundamental_div_mod, lemma_fundamental_div_mod_converse,
    lemma_fundamental_div_mod_converse_mod, lemma_mod_division_less_than_divisor,
    lemma_mod_multiples_vanish, lemma_small_mod,
};

use crate::cell::{MapCell, ShipId};
use crate::position::{all_cardinals, dir_dx, dir_dy, Direction, Position};
use crate::ship::{Entity, Ship};

verus! {

/// Upper bound on either grid dimension, so that index arithmetic stays well
/// inside `i32` and 32-bit `usize` ranges.
pub const MAX_DIM: usize = 10000;

/// The toroidal grid: a fixed `width` x `height` array of cells, stored
/// row-major, one cell per normalized coordinate pair.
pub struct GameMap {
    pub width: usize,
    pub height: usize,
    pub cells: Vec<MapCell>,
}

impl GameMap {
    /// Well-formedness: positive bounded dimensions and a fully allocated grid.
    pub open spec fn inv(self) -> bool {
        &&& 1 <= self.width <= MAX_DIM
        &&& 1 <= self.height <= MAX_DIM
        &&& self.cells@.len() == self.width * self.height
    }

    /// A coordinate reduced into `[0, width)` by wrap-around.
    pub open spec fn norm_x(self, x: int) -> int {
        x % (self.width as int)
    }

    /// A coordinate reduced into `[0, height)` by wrap-around.
    pub open spec fn norm_y(self, y: int) -> int {
        y % (self.height as int)
    }

    pub open spec fn spec_normalize(self, p: Position) -> Position {
        Position { x: self.norm_x(p.x as int) as i32, y: self.norm_y(p.y as int) as i32 }
    }

    /// The cell at normalized coordinates `(x, y)`.
    pub open spec fn cell(self, x: int, y: int) -> MapCell {
        self.cells@[y * (self.width as int) + x]
    }

    /// The cell any integer position resolves to after normalization.
    pub open spec fn spec_at(self, p: Position) -> MapCell {
        self.cell(self.norm_x(p.x as int), self.norm_y(p.y as int))
    }

    /// Floored-modulo reduction of one coordinate: the result is in `[0, m)`
    /// whatever the sign of `c`.
    fn norm_coord(c: i32, m: i32) -> (r: i32)
        requires
            1 <= m <= MAX_DIM,
        ensures
            r == (c as int) % (m as int),
            0 <= r < m,
    {
        let t = c % m;
        proof {
            let ci = c as int;
            let mi = m as int;
            lemma_mod_division_less_than_divisor(ci, mi);
            if c < 0 {
                // Exec `%` truncates toward zero: t == -((-c) mod m) here.
                let r0 = (-ci) % mi;
                let q0 = (-ci) / mi;
                lemma_fundamental_div_mod(-ci, mi);
                lemma_mod_division_less_than_divisor(-ci, mi);
                if t < 0 {
                    assert(ci == (-q0 - 1) * mi + (mi - r0)) by (nonlinear_arith)
                        requires
                            -ci == mi * q0 + r0,
                    ;
                    lemma_fundamental_div_mod_converse_mod(ci, mi, -q0 - 1, mi - r0);
                } else {
                    assert(ci == (-q0) * mi + 0) by (nonlinear_arith)
                        requires
                            -ci == mi * q0 + r0,
                            r0 == 0,
                    ;
                    lemma_fundamental_div_mod_converse_mod(ci, mi, -q0, 0);
                }
            }
        }
        if t < 0 {
            t + m
        } else {
            t
        }
    }

    pub fn normalize(&self, position: &Position) -> (r: Position)
        requires
            self.inv(),
        ensures
            r == self.spec_normalize(*position),
            0 <= r.x < self.width,
            0 <= r.y < self.height,
    {
        let width = self.width as i32;
        let height = self.height as i32;
        let x = Self::norm_coord(position.x, width);
        let y = Self::norm_coord(position.y, height);
        Position { x, y }
    }

    pub fn at_position(&self, position: &Position) -> (cell: &MapCell)
        requires
            self.inv(),
        ensures
            *cell == self.spec_at(*position),
    {
        let normalized = self.normalize(position);
        proof {
            lemma_flat_index(normalized.x as int, normalized.y as int, self.width as int,
                self.height as int);
        }
        let idx: usize = (normalized.y as usize) * self.width + (normalized.x as usize);
        &self.cells[idx]
    }

    pub fn at_position_mut(&mut self, position: &Position) -> (cell: &mut MapCell)
        requires
            old(self).inv(),
        ensures
            *cell == old(self).spec_at(*position),
            final(self).width == old(self).width,
            final(self).height == old(self).height,
            final(self).cells@ == old(self).cells@.update(
                old(self).norm_y(position.y as int) * old(self).width
                    + old(self).norm_x(position.x as int),
                *final(cell),
            ),
            final(self).inv(),
    {
        let normalized = self.normalize(position);
        proof {
            lemma_flat_index(normalized.x as int, normalized.y as int, self.width as int,
                self.height as int);
        }
        let idx: usize = (normalized.y as usize) * self.width + (normalized.x as usize);
        &mut self.cells[idx]
    }

    pub fn at_entity<E: Entity>(&self, entity: &E) -> (cell: &MapCell)
        requires
            self.inv(),
        ensures
            *cell == self.spec_at(entity.spec_position()),
    {
        let p = entity.position();
        self.at_position(&p)
    }

    pub fn at_entity_mut<E: Entity>(&mut self, entity: &E) -> (cell: &mut MapCell)
        requires
            old(self).inv(),
        ensures
            *cell == old(self).spec_at(entity.spec_position()),
            final(self).width == old(self).width,
            final(self).height == old(self).height,
            final(self).cells@ == old(self).cells@.update(
                old(self).norm_y(entity.spec_position().y as int) * old(self).width
                    + old(self).norm_x(entity.spec_position().x as int),
                *final(cell),
            ),
            final(self).inv(),
    {
        let p = entity.position();
        self.at_position_mut(&p)
    }

    /// Wrap-aware Manhattan distance between the cells the two positions
    /// resolve to.
    pub open spec fn spec_distance(self, a: Position, b: Position) -> int {
        let na = self.spec_normalize(a);
        let nb = self.spec_normalize(b);
        axis_dist(na.x as int, nb.x as int, self.width as int) + axis_dist(
            na.y as int,
            nb.y as int,
            self.height as int,
        )
    }

    pub fn calculate_distance(&self, source: &Position, target: &Position) -> (d: usize)
        requires
            self.inv(),
        ensures
            d == self.spec_distance(*source, *target),
    {
        let ns = self.normalize(source);
        let nt = self.normalize(target);
        let dx: usize = if ns.x >= nt.x {
            (ns.x - nt.x) as usize
        } else {
            (nt.x - ns.x) as usize
        };
        let dy: usize = if ns.y >= nt.y {
            (ns.y - nt.y) as usize
        } else {
            (nt.y - ns.y) as usize
        };
        let toroidal_dx: usize = if dx <= self.width - dx {
            dx
        } else {
            self.width - dx
        };
        let toroidal_dy: usize = if dy <= self.height - dy {
            dy
        } else {
            self.height - dy
        };
        toroidal_dx + toroidal_dy
    }

    /// The candidate directions toward the destination: for each axis whose
    /// normalized coordinates differ, the direction of the shorter wrap-aware
    /// path on that axis, horizontal axis first.
    pub open spec fn spec_unsafe_moves(self, source: Position, destination: Position) -> Seq<
        Direction,
    > {
        let ns = self.spec_normalize(source);
        let nd = self.spec_normalize(destination);
        axis_moves(ns.x as int, nd.x as int, self.width as int, Direction::West, Direction::East)
            + axis_moves(
            ns.y as int,
            nd.y as int,
            self.height as int,
            Direction::North,
            Direction::South,
        )
    }

    pub fn get_unsafe_moves(&self, source: &Position, destination: &Position) -> (moves: Vec<
        Direction,
    >)
        requires
            self.inv(),
        ensures
            moves@ == self.spec_unsafe_moves(*source, *destination),
    {
        let ns = self.normalize(source);
        let nd = self.normalize(destination);
        let dx: usize = if ns.x >= nd.x {
            (ns.x - nd.x) as usize
        } else {
            (nd.x - ns.x) as usize
        };
        let dy: usize = if ns.y >= nd.y {
            (ns.y - nd.y) as usize
        } else {
            (nd.y - ns.y) as usize
        };
        let wrapped_dx: usize = self.width - dx;
        let wrapped_dy: usize = self.height - dy;

        let mut possible_moves: Vec<Direction> = Vec::new();

        if ns.x < nd.x {
            possible_moves.push(
                if dx > wrapped_dx {
                    Direction::West
                } else {
                    Direction::East
                },
            );
        } else if ns.x > nd.x {
            possible_moves.push(
                if dx < wrapped_dx {
                    Direction::West
                } else {
                    Direction::East
                },
            );
        }
        if ns.y < nd.y {
            possible_moves.push(
                if dy > wrapped_dy {
                    Direction::North
                } else {
                    Direction::South
                },
            );
        } else if ns.y > nd.y {
            possible_moves.push(
                if dy < wrapped_dy {
                    Direction::North
                } else {
                    Direction::South
                },
            );
        }
        proof {
            assert(possible_moves@ =~= self.spec_unsafe_moves(*source, *destination));
        }
        possible_moves
    }

    /// Normalized x coordinate of the cell one step in `dir` from `pos`.
    pub open spec fn nav_target_x(self, pos: Position, dir: Direction) -> int {
        self.norm_x(pos.x + dir_dx(dir))
    }

    /// Normalized y coordinate of the cell one step in `dir` from `pos`.
    pub open spec fn nav_target_y(self, pos: Position, dir: Direction) -> int {
        self.norm_y(pos.y + dir_dy(dir))
    }

    /// The first candidate direction whose target cell is free, if any.
    pub open spec fn nav_choice(self, pos: Position, cands: Seq<Direction>) -> Option<Direction>
        decreases cands.len(),
    {
        if cands.len() == 0 {
            None
        } else if !self.cell(
            self.nav_target_x(pos, cands[0]),
            self.nav_target_y(pos, cands[0]),
        ).spec_is_occupied() {
            Some(cands[0])
        } else {
            self.nav_choice(pos, cands.drop_first())
        }
    }

    /// Greedy single-step navigation: take the first candidate direction
    /// toward the destination whose target cell is free, and reserve that
    /// cell for the unit; stand still when every candidate is taken.
    pub fn naive_navigate(&mut self, ship: &Ship, destination: &Position) -> (d: Direction)
        requires
            old(self).inv(),
        ensures
            final(self).inv(),
            final(self).width == old(self).width,
            final(self).height == old(self).height,
            ({
                let cands = old(self).spec_unsafe_moves(ship.position, *destination);
                match old(self).nav_choice(ship.position, cands) {
                    Some(dir) => {
                        let tx = old(self).nav_target_x(ship.position, dir);
                        let ty = old(self).nav_target_y(ship.position, dir);
                        &&& d == dir
                        &&& final(self).cells@ == old(self).cells@.update(
                            ty * old(self).width + tx,
                            (MapCell { ship: Some(ship.id), ..old(self).cell(tx, ty) }),
                        )
                    },
                    None => d == Direction::Still && final(self).cells@ == old(self).cells@,
                }
            }),
    {
        let ship_position = self.normalize(&ship.position);
        let moves = self.get_unsafe_moves(&ship.position, destination);
        let ghost cands = moves@;
        proof {
            assert(cands.skip(0) =~= cands);
        }
        let mut i: usize = 0;
        while i < moves.len()
            invariant
                self.width == old(self).width,
                self.height == old(self).height,
                self.cells@ == old(self).cells@,
                old(self).inv(),
                i <= moves.len(),
                cands == moves@,
                cands == old(self).spec_unsafe_moves(ship.position, *destination),
                ship_position == old(self).spec_normalize(ship.position),
                0 <= ship_position.x < old(self).width,
                0 <= ship_position.y < old(self).height,
                old(self).nav_choice(ship.position, cands) == old(self).nav_choice(
                    ship.position,
                    cands.skip(i as int),
                ),
            decreases moves.len() - i,
        {
            let direction = moves[i];
            let target_pos = ship_position.directional_offset(direction);
            let ghost tx = old(self).nav_target_x(ship.position, direction);
            let ghost ty = old(self).nav_target_y(ship.position, direction);
            proof {
                lemma_norm_add(ship.position.x as int, dir_dx(direction), self.width as int);
                lemma_norm_add(ship.position.y as int, dir_dy(direction), self.height as int);
                lemma_mod_division_less_than_divisor(target_pos.x as int, self.width as int);
                lemma_mod_division_less_than_divisor(target_pos.y as int, self.height as int);
                assert(tx == self.norm_x(target_pos.x as int));
                assert(ty == self.norm_y(target_pos.y as int));
                lemma_flat_index(tx, ty, self.width as int, self.height as int);
                assert(cands.skip(i as int)[0] == direction);
                assert(cands.skip(i as int).drop_first() =~= cands.skip(i as int + 1));
            }
            let target_cell = self.at_position_mut(&target_pos);
            if !target_cell.is_occupied() {
                target_cell.mark_unsafe(ship.id);
                return direction;
            }
            proof {
                assert(self.cells@ =~= old(self).cells@);
            }
            i = i + 1;
        }
        proof {
            assert(cands.skip(moves.len() as int) =~= Seq::<Direction>::empty());
        }
        Direction::Still
    }

    /// Fold of the neighbor scan over the remaining directions, carrying the
    /// best (resource amount, direction) seen so far: only a free neighbor
    /// with a strictly higher amount replaces the best, so the first of two
    /// equals wins.
    pub open spec fn best_neighbor_scan(
        self,
        pos: Position,
        dirs: Seq<Direction>,
        best_h: int,
        best_d: Direction,
    ) -> (int, Direction)
        decreases dirs.len(),
    {
        if dirs.len() == 0 {
            (best_h, best_d)
        } else {
            let c = self.cell(self.nav_target_x(pos, dirs[0]), self.nav_target_y(pos, dirs[0]));
            if !c.spec_is_occupied() && c.halite > best_h {
                self.best_neighbor_scan(pos, dirs.drop_first(), c.halite as int, dirs[0])
            } else {
                self.best_neighbor_scan(pos, dirs.drop_first(), best_h, best_d)
            }
        }
    }

    /// Among the four unoccupied cardinal neighbors, the direction of the one
    /// with the strictly highest resource amount, and only when that maximum
    /// exceeds the fixed threshold of 10.
    pub fn most_halite_near_ship_direction(&mut self, position: &Position) -> (r: Option<
        Direction,
    >)
        requires
            old(self).inv(),
        ensures
            *final(self) == *old(self),
            ({
                let (h, d) = old(self).best_neighbor_scan(
                    *position,
                    all_cardinals(),
                    0,
                    Direction::Still,
                );
                r == if h > 10 {
                    Some(d)
                } else {
                    None::<Direction>
                }
            }),
    {
        let pos = self.normalize(position);
        let cardinals = Direction::get_all_cardinals();
        let ghost dirs = cardinals@;
        proof {
            assert(dirs.skip(0) =~= dirs);
        }
        let mut most_halite: u32 = 0;
        let mut best_direction = Direction::Still;
        let mut i: usize = 0;
        while i < cardinals.len()
            invariant
                old(self).inv(),
                self.width == old(self).width,
                self.height == old(self).height,
                self.cells@ == old(self).cells@,
                i <= cardinals.len(),
                dirs == cardinals@,
                dirs == all_cardinals(),
                pos == old(self).spec_normalize(*position),
                0 <= pos.x < old(self).width,
                0 <= pos.y < old(self).height,
                old(self).best_neighbor_scan(*position, dirs, 0, Direction::Still) == old(
                    self,
                ).best_neighbor_scan(
                    *position,
                    dirs.skip(i as int),
                    most_halite as int,
                    best_direction,
                ),
            decreases cardinals.len() - i,
        {
            let direction = cardinals[i];
            let target_pos = pos.directional_offset(direction);
            proof {
                lemma_norm_add(position.x as int, dir_dx(direction), self.width as int);
                lemma_norm_add(position.y as int, dir_dy(direction), self.height as int);
                assert(dirs.skip(i as int)[0] == direction);
                assert(dirs.skip(i as int).drop_first() =~= dirs.skip(i as int + 1));
            }
            let cell = self.at_position(&target_pos);
            if !cell.is_occupied() && cell.halite > most_halite {
                most_halite = cell.halite;
                best_direction = direction;
            }
            i = i + 1;
        }
        proof {
            assert(dirs.skip(cardinals.len() as int) =~= Seq::<Direction>::empty());
        }
        if most_halite > 10 {
            Some(best_direction)
        } else {
            None
        }
    }

    /// Outcome of walking outward from normalized `(x, y)` in direction
    /// `dir`, having already taken `dist` steps: the step count at which a
    /// cell holding at least 25 resource is first reached, or `None` when the
    /// walk is disqualified (an occupied cell on the very first step, or more
    /// than 10 steps taken).
    pub open spec fn walk_steps(self, x: int, y: int, dir: Direction, dist: int) -> Option<int>
        decreases 11 - dist,
    {
        if self.cell(x, y).halite >= 25 {
            Some(dist)
        } else {
            let nx = self.norm_x(x + dir_dx(dir));
            let ny = self.norm_y(y + dir_dy(dir));
            let nd = dist + 1;
            if (self.cell(nx, ny).spec_is_occupied() && nd == 1) || nd > 10 {
                None
            } else {
                self.walk_steps(nx, ny, dir, nd)
            }
        }
    }

    /// Fold of the four outward walks, keeping the sentinel comparison of
    /// the scan: a qualifying direction replaces the best when the recorded
    /// best distance is still 0 or its own distance is strictly smaller.
    /// Note the latent sentinel quirk: a walk that succeeds at distance 0
    /// leaves the best distance at 0, so every later qualifying direction
    /// overwrites it.
    pub open spec fn rich_scan(
        self,
        x: int,
        y: int,
        dirs: Seq<Direction>,
        best_d: Direction,
        lowest: int,
    ) -> Direction
        decreases dirs.len(),
    {
        if dirs.len() == 0 {
            best_d
        } else {
            match self.walk_steps(x, y, dirs[0], 0) {
                Some(dist) => if lowest == 0 || dist < lowest {
                    self.rich_scan(x, y, dirs.drop_first(), dirs[0], dist)
                } else {
                    self.rich_scan(x, y, dirs.drop_first(), best_d, lowest)
                },
                None => self.rich_scan(x, y, dirs.drop_first(), best_d, lowest),
            }
        }
    }

    /// Bounded per-axis scan for a resource-rich cell: walk outward in each
    /// cardinal direction and return the direction whose walk succeeded at
    /// the smallest step count under the scan's sentinel comparison, or no
    /// movement when none qualifies.
    pub fn move_towards_rich_halite(&mut self, position: &Position) -> (d: Direction)
        requires
            old(self).inv(),
        ensures
            *final(self) == *old(self),
            d == old(self).rich_scan(
                old(self).norm_x(position.x as int),
                old(self).norm_y(position.y as int),
                all_cardinals(),
                Direction::Still,
                0,
            ),
    {
        let pos = self.normalize(position);
        let ghost x0 = old(self).norm_x(position.x as int);
        let ghost y0 = old(self).norm_y(position.y as int);
        let cardinals = Direction::get_all_cardinals();
        let ghost dirs = cardinals@;
        proof {
            assert(dirs.skip(0) =~= dirs);
        }
        let mut best_direction = Direction::Still;
        let mut lowest_distance: u32 = 0;
        let mut i: usize = 0;
        while i < cardinals.len()
            invariant
                old(self).inv(),
                self.width == old(self).width,
                self.height == old(self).height,
                self.cells@ == old(self).cells@,
                i <= cardinals.len(),
                dirs == cardinals@,
                dirs == all_cardinals(),
                pos == old(self).spec_normalize(*position),
                x0 == pos.x as int,
                y0 == pos.y as int,
                0 <= pos.x < old(self).width,
                0 <= pos.y < old(self).height,
                old(self).rich_scan(x0, y0, dirs, Direction::Still, 0) == old(self).rich_scan(
                    x0,
                    y0,
                    dirs.skip(i as int),
                    best_direction,
                    lowest_distance as int,
                ),
            decreases cardinals.len() - i,
        {
            let direction = cardinals[i];
            proof {
                assert(dirs.skip(i as int)[0] == direction);
                assert(dirs.skip(i as int).drop_first() =~= dirs.skip(i as int + 1));
            }
            let mut distance: u32 = 0;
            let mut current_pos = pos;
            let mut move_not_found = false;
            let mut found = false;
            proof {
                lemma_small_mod(pos.x as nat, old(self).width as nat);
                lemma_small_mod(pos.y as nat, old(self).height as nat);
            }
            while !found && !move_not_found
                invariant
                    old(self).inv(),
                    self.width == old(self).width,
                    self.height == old(self).height,
                    self.cells@ == old(self).cells@,
                    0 <= x0 < old(self).width,
                    0 <= y0 < old(self).height,
                    distance <= 11,
                    !found && !move_not_found ==> distance <= 10,
                    0 - (distance as int) <= current_pos.x <= MAX_DIM + distance,
                    0 - (distance as int) <= current_pos.y <= MAX_DIM + distance,
                    !found && !move_not_found ==> old(self).walk_steps(x0, y0, direction, 0)
                        == old(self).walk_steps(
                        old(self).norm_x(current_pos.x as int),
                        old(self).norm_y(current_pos.y as int),
                        direction,
                        distance as int,
                    ),
                    found ==> old(self).walk_steps(x0, y0, direction, 0) == Some(
                        distance as int,
                    ),
                    move_not_found ==> old(self).walk_steps(x0, y0, direction, 0) == None::<
                        int,
                    >,
                decreases 12 - distance, (if found || move_not_found { 0int } else { 1int }),
            {
                let cell_halite = self.at_position(&current_pos).halite;
                if cell_halite >= 25 {
                    found = true;
                } else {
                    distance = distance + 1;
                    let next_pos = current_pos.directional_offset(direction);
                    proof {
                        lemma_norm_add(
                            current_pos.x as int,
                            dir_dx(direction),
                            self.width as int,
                        );
                        lemma_norm_add(
                            current_pos.y as int,
                            dir_dy(direction),
                            self.height as int,
                        );
                    }
                    current_pos = next_pos;
                    let cell = self.at_position(&current_pos);
                    if (cell.is_occupied() && distance == 1) || distance > 10 {
                        move_not_found = true;
                    }
                }
            }
            if (lowest_distance == 0 || distance < lowest_distance) && !move_not_found {
                lowest_distance = distance;
                best_direction = direction;
            }
            i = i + 1;
        }
        proof {
            assert(dirs.skip(cardinals.len() as int) =~= Seq::<Direction>::empty());
        }
        best_direction
    }

    /// Per-turn refresh: clear every occupant slot, then overwrite the
    /// resource amounts of exactly the cells named by the sparse update
    /// triples `(x, y, halite)`; a later triple wins on the same cell.
    pub fn update(&mut self, updates: &Vec<(usize, usize, u32)>)
        requires
            old(self).inv(),
            forall|k: int| 0 <= k < updates@.len() ==> (#[trigger] updates@[k]).0 < old(self).width
                && updates@[k].1 < old(self).height,
        ensures
            final(self).inv(),
            final(self).width == old(self).width,
            final(self).height == old(self).height,
            forall|x: int, y: int| 0 <= x < old(self).width && 0 <= y < old(self).height
                ==> #[trigger] final(self).cell(x, y) == (MapCell {
                halite: halite_after(updates@, x, y, old(self).cell(x, y).halite),
                ship: None,
                structure: old(self).cell(x, y).structure,
            }),
    {
        let ghost w = old(self).width as int;
        let ghost h = old(self).height as int;
        let mut idx: usize = 0;
        let len = self.cells.len();
        while idx < len
            invariant
                self.width == old(self).width,
                self.height == old(self).height,
                old(self).inv(),
                len == self.cells@.len(),
                self.cells@.len() == old(self).cells@.len(),
                idx <= len,
                forall|j: int| 0 <= j < idx ==> #[trigger] self.cells@[j] == (MapCell {
                    ship: None,
                    ..old(self).cells@[j]
                }),
                forall|j: int| idx <= j < len ==> #[trigger] self.cells@[j] == old(self).cells@[j],
            decreases len - idx,
        {
            let c = self.cells[idx];
            self.cells[idx] = MapCell { halite: c.halite, ship: None, structure: c.structure };
            idx = idx + 1;
        }
        proof {
            assert(updates@.take(0) =~= Seq::<(usize, usize, u32)>::empty());
            assert forall|x: int, y: int| 0 <= x < w && 0 <= y < h implies #[trigger] self.cell(
                x,
                y,
            ) == (MapCell {
                halite: halite_after(updates@.take(0), x, y, old(self).cell(x, y).halite),
                ship: None,
                structure: old(self).cell(x, y).structure,
            }) by {
                lemma_flat_index(x, y, w, h);
            }
        }
        let mut k: usize = 0;
        let ulen = updates.len();
        while k < ulen
            invariant
                self.width == old(self).width,
                self.height == old(self).height,
                old(self).inv(),
                self.inv(),
                w == old(self).width as int,
                h == old(self).height as int,
                ulen == updates@.len(),
                forall|kk: int| 0 <= kk < updates@.len() ==> (#[trigger] updates@[kk]).0 < old(
                    self,
                ).width && updates@[kk].1 < old(self).height,
                k <= ulen,
                forall|x: int, y: int| 0 <= x < w && 0 <= y < h ==> #[trigger] self.cell(x, y)
                    == (MapCell {
                    halite: halite_after(
                        updates@.take(k as int),
                        x,
                        y,
                        old(self).cell(x, y).halite,
                    ),
                    ship: None,
                    structure: old(self).cell(x, y).structure,
                }),
            decreases ulen - k,
        {
            let upd = updates[k];
            let x = upd.0;
            let y = upd.1;
            proof {
                lemma_flat_index(x as int, y as int, w, h);
            }
            let j: usize = y * self.width + x;
            let ghost prevm = *self;
            let c = self.cells[j];
            self.cells[j] = MapCell { halite: upd.2, ship: c.ship, structure: c.structure };
            proof {
                assert(updates@.take(k as int + 1).drop_last() =~= updates@.take(k as int));
                assert(updates@.take(k as int + 1).last() == updates@[k as int]);
                assert forall|xx: int, yy: int| 0 <= xx < w && 0 <= yy < h implies
                    #[trigger] self.cell(xx, yy) == (MapCell {
                    halite: halite_after(
                        updates@.take(k as int + 1),
                        xx,
                        yy,
                        old(self).cell(xx, yy).halite,
                    ),
                    ship: None,
                    structure: old(self).cell(xx, yy).structure,
                }) by {
                    lemma_flat_index(xx, yy, w, h);
                    if xx == x && yy == y {
                        assert(prevm.cell(xx, yy).ship == None::<ShipId>);
                    } else {
                        lemma_flat_index_injective(xx, yy, x as int, y as int, w);
                        assert(self.cell(xx, yy) == prevm.cell(xx, yy));
                    }
                }
            }
            k = k + 1;
        }
        proof {
            assert(updates@.take(ulen as int) =~= updates@);
        }
    }

    /// Sum of the resource amounts of the cells `(cx, cy+lo) .. (cx, cy+hi-1)`,
    /// every coordinate taken modulo the grid size.
    pub open spec fn window_col_sum(self, cx: int, cy: int, lo: int, hi: int) -> int
        decreases hi - lo,
    {
        if lo >= hi {
            0
        } else {
            self.cell(self.norm_x(cx), self.norm_y(cy + lo)).halite + self.window_col_sum(
                cx,
                cy,
                lo + 1,
                hi,
            )
        }
    }

    /// Sum of the resource amounts over the columns `cx+lo .. cx+hi-1` of the
    /// toroidal window of half-height `r` centered at `(cx, cy)`.
    pub open spec fn window_sum(self, cx: int, cy: int, lo: int, hi: int, r: int) -> int
        decreases hi - lo,
    {
        if lo >= hi {
            0
        } else {
            self.window_col_sum(cx + lo, cy, -r, r) + self.window_sum(cx, cy, lo + 1, hi, r)
        }
    }

    /// Site score of the cell at `(x, y)`: the total resource amount over the
    /// square window of offsets `-R .. R-1` on both axes, with `R` from the
    /// step table for this grid's width.
    pub open spec fn spec_score(self, x: int, y: int) -> int {
        let r = spec_dropoff_params(self.width as int).1;
        self.window_sum(x, y, -r, r, r)
    }

    /// Ordering key of a candidate site: score first, coordinates after.
    pub open spec fn site_key(self, x: int, y: int) -> (int, int, int) {
        (self.spec_score(x, y), x, y)
    }

    /// The windowed resource sum around one cell.
    fn zone_score(&self, x: usize, y: usize, r: i32) -> (s: u64)
        requires
            self.inv(),
            x < self.width,
            y < self.height,
            1 <= r <= 6,
        ensures
            s == self.window_sum(x as int, y as int, -(r as int), r as int, r as int),
    {
        let mut total: u64 = 0;
        let mut radx: i32 = -r;
        while radx < r
            invariant
                self.inv(),
                x < self.width,
                y < self.height,
                1 <= r <= 6,
                -r <= radx <= r,
                total == self.window_sum(x as int, y as int, -(r as int), radx as int, r as int),
            decreases r - radx,
        {
            proof {
                lemma_window_sum_bounds(*self, x as int, y as int, -r as int, radx as int, r as int);
                lemma_col_sum_bounds(*self, x + radx, y as int, -r as int, r as int);
            }
            let mut col: u64 = 0;
            let mut rady: i32 = -r;
            while rady < r
                invariant
                    self.inv(),
                    x < self.width,
                    y < self.height,
                    1 <= r <= 6,
                    -r <= radx < r,
                    -r <= rady <= r,
                    col == self.window_col_sum(x + radx, y as int, -(r as int), rady as int),
                decreases r - rady,
            {
                proof {
                    lemma_col_sum_bounds(*self, x + radx, y as int, -r as int, rady as int);
                    lemma_col_sum_unfold_last(*self, x + radx, y as int, -r as int, rady as int);
                }
                let pos = Position { x: x as i32 + radx, y: y as i32 + rady };
                let cell_halite = self.at_position(&pos).halite;
                col = col + cell_halite as u64;
                rady = rady + 1;
            }
            proof {
                lemma_window_sum_unfold_last(
                    *self,
                    x as int,
                    y as int,
                    -r as int,
                    radx as int,
                    r as int,
                );
            }
            proof {
                assert((radx + r) * ((2 * r) * 0x1_0000_0000) + (2 * r) * 0x1_0000_0000
                    <= 0x1_0000_0000_0000) by (nonlinear_arith)
                    requires
                        -r <= radx < r,
                        1 <= r <= 6,
                ;
            }
            total = total + col;
            radx = radx + 1;
        }
        total
    }

    /// Map-wide site selection: score every cell by its windowed resource
    /// sum and return the top cells under the selection order (score
    /// descending, then x ascending, then y ascending), best first. The
    /// count and window radius come from the step table; on a grid with
    /// fewer cells than the table asks for, every cell is returned.
    pub fn find_suitable_dropoffs(&mut self) -> (sites: Vec<Position>)
        requires
            old(self).inv(),
        ensures
            *final(self) == *old(self),
            ({
                let k = spec_dropoff_params(old(self).width as int).0;
                let n = old(self).width * old(self).height;
                &&& sites@.len() == if k <= n {
                    k
                } else {
                    n as int
                }
                &&& forall|i: int| 0 <= i < sites@.len() ==> 0 <= (#[trigger] sites@[i]).x < old(
                    self,
                ).width && 0 <= sites@[i].y < old(self).height
                &&& forall|i: int, j: int| 0 <= i < j < sites@.len() ==> score_precedes(
                    old(self).site_key((#[trigger] sites@[i]).x as int, sites@[i].y as int),
                    old(self).site_key((#[trigger] sites@[j]).x as int, sites@[j].y as int),
                )
                &&& forall|i: int, x: int, y: int|
                    0 <= i < sites@.len() && 0 <= x < old(self).width && 0 <= y < old(self).height
                        && !seq_contains_pos(sites@, x, y) ==> score_precedes(
                        old(self).site_key((#[trigger] sites@[i]).x as int, sites@[i].y as int),
                        #[trigger] old(self).site_key(x, y),
                    )
            }),
    {
        let width = self.width;
        let height = self.height;
        let (num_of_dropoffs, zone_radius): (usize, i32) = if width < 33 {
            (2, 3)
        } else if width < 50 {
            (3, 4)
        } else if width < 70 {
            (4, 5)
        } else {
            (5, 6)
        };
        proof {
            assert(width * height <= MAX_DIM * MAX_DIM) by (nonlinear_arith)
                requires
                    1 <= width <= MAX_DIM,
                    1 <= height <= MAX_DIM,
            ;
        }
        let total: usize = width * height;

        let mut scores: Vec<HaliteScore> = Vec::new();
        let mut x: usize = 0;
        while x < width
            invariant
                self.inv(),
                *self == *old(self),
                width == self.width,
                height == self.height,
                zone_radius as int == spec_dropoff_params(width as int).1,
                total == width * height,
                x <= width,
                scores@.len() == x * height,
                forall|j: int| 0 <= j < scores@.len() ==> ({
                    let e = #[trigger] scores@[j];
                    &&& e.x == j / (height as int)
                    &&& e.y == j % (height as int)
                    &&& e.x < width
                    &&& e.y < height
                    &&& e.score == old(self).spec_score(e.x as int, e.y as int)
                }),
            decreases width - x,
        {
            let mut y: usize = 0;
            while y < height
                invariant
                    self.inv(),
                    *self == *old(self),
                    width == self.width,
                    height == self.height,
                    zone_radius as int == spec_dropoff_params(width as int).1,
                    total == width * height,
                    x < width,
                    y <= height,
                    scores@.len() == x * height + y,
                    forall|j: int| 0 <= j < scores@.len() ==> ({
                        let e = #[trigger] scores@[j];
                        &&& e.x == j / (height as int)
                        &&& e.y == j % (height as int)
                        &&& e.x < width
                        &&& e.y < height
                        &&& e.score == old(self).spec_score(e.x as int, e.y as int)
                    }),
                decreases height - y,
            {
                let s = self.zone_score(x, y, zone_radius);
                scores.push(HaliteScore { score: s, x, y });
                proof {
                    lemma_fundamental_div_mod_converse(
                        x * height + y,
                        height as int,
                        x as int,
                        y as int,
                    );
                }
                y = y + 1;
            }
            proof {
                assert(x * height + height == (x + 1) * height) by (nonlinear_arith);
            }
            x = x + 1;
        }

        proof {
            assert forall|cx: int, cy: int| 0 <= cx < width && 0 <= cy < height implies
                #[trigger] contains_cell(scores@, cx, cy) by {
                lemma_flat_index(cy, cx, height as int, width as int);
                lemma_fundamental_div_mod_converse(cx * height + cy, height as int, cx, cy);
                assert(scores@[cx * (height as int) + cy].x == cx && scores@[cx * (height as int)
                    + cy].y == cy);
            }
            assert forall|j1: int, j2: int| 0 <= j1 < j2 < total implies !((
            #[trigger] scores@[j1]).x == (#[trigger] scores@[j2]).x && scores@[j1].y
                == scores@[j2].y) by {
                lemma_fundamental_div_mod(j1, height as int);
                lemma_fundamental_div_mod(j2, height as int);
            }
        }
        let kk: usize = if num_of_dropoffs <= total {
            num_of_dropoffs
        } else {
            total
        };
        let mut t: usize = 0;
        while t < kk
            invariant
                self.inv(),
                *self == *old(self),
                width == self.width,
                height == self.height,
                total == width * height,
                t <= kk <= total,
                scores@.len() == total,
                forall|j: int| 0 <= j < total ==> ({
                    let e = #[trigger] scores@[j];
                    &&& e.x < width
                    &&& e.y < height
                    &&& e.score == old(self).spec_score(e.x as int, e.y as int)
                }),
                forall|j1: int, j2: int| 0 <= j1 < j2 < total ==> !((#[trigger] scores@[j1]).x
                    == (#[trigger] scores@[j2]).x && scores@[j1].y == scores@[j2].y),
                forall|cx: int, cy: int| 0 <= cx < width && 0 <= cy < height
                    ==> #[trigger] contains_cell(scores@, cx, cy),
                forall|i1: int, i2: int| 0 <= i1 < i2 < t ==> score_precedes(
                    hs_key(#[trigger] scores@[i1]),
                    hs_key(#[trigger] scores@[i2]),
                ),
                forall|i: int, j: int| 0 <= i < t && t <= j < total ==> score_precedes(
                    hs_key(#[trigger] scores@[i]),
                    hs_key(#[trigger] scores@[j]),
                ),
            decreases kk - t,
        {
            let mut best: usize = t;
            let mut j: usize = t + 1;
            while j < total
                invariant
                    total == scores@.len(),
                    t <= best < j <= total,
                    forall|j1: int, j2: int| 0 <= j1 < j2 < total ==> !((#[trigger] scores@[j1]).x
                        == (#[trigger] scores@[j2]).x && scores@[j1].y == scores@[j2].y),
                    forall|jj: int| t <= jj < j ==> jj == best || score_precedes(
                        hs_key(scores@[best as int]),
                        hs_key(#[trigger] scores@[jj]),
                    ),
                decreases total - j,
            {
                if hs_precedes(&scores[j], &scores[best]) {
                    proof {
                        assert forall|jj: int| t <= jj < j + 1 && jj != j as int implies
                            score_precedes(hs_key(scores@[j as int]), hs_key(
                            #[trigger] scores@[jj],
                        )) by {
                            if jj != best {
                                assert(score_precedes(
                                    hs_key(scores@[best as int]),
                                    hs_key(scores@[jj]),
                                ));
                            }
                        }
                    }
                    best = j;
                } else {
                    proof {
                        assert(!(scores@[best as int].x == scores@[j as int].x
                            && scores@[best as int].y == scores@[j as int].y));
                        assert(score_precedes(hs_key(scores@[best as int]), hs_key(
                            scores@[j as int],
                        )));
                    }
                }
                j = j + 1;
            }
            let ghost prevv = scores@;
            let tmp_t = scores[t];
            let tmp_b = scores[best];
            scores[t] = tmp_b;
            scores[best] = tmp_t;
            proof {
                let ti = t as int;
                let bi = best as int;
                assert(scores@ =~= prevv.update(ti, prevv[bi]).update(bi, prevv[ti]));
                assert forall|cx: int, cy: int| 0 <= cx < width && 0 <= cy < height implies
                    #[trigger] contains_cell(scores@, cx, cy) by {
                    assert(contains_cell(prevv, cx, cy));
                    let w = choose|jj: int| 0 <= jj < prevv.len() && prevv[jj].x == cx
                        && prevv[jj].y == cy;
                    if w == ti {
                        assert(scores@[bi].x == cx && scores@[bi].y == cy);
                    } else if w == bi {
                        assert(scores@[ti].x == cx && scores@[ti].y == cy);
                    } else {
                        assert(scores@[w].x == cx && scores@[w].y == cy);
                    }
                }
            }
            t = t + 1;
        }

        let mut sites: Vec<Position> = Vec::new();
        let mut t2: usize = 0;
        while t2 < kk
            invariant
                total == scores@.len(),
                width <= MAX_DIM,
                height <= MAX_DIM,
                t2 <= kk <= total,
                sites@.len() == t2,
                forall|i: int| 0 <= i < t2 ==> (#[trigger] sites@[i]).x == scores@[i].x as i32
                    && sites@[i].y == scores@[i].y as i32,
                forall|j: int| 0 <= j < total ==> (#[trigger] scores@[j]).x < width
                    && scores@[j].y < height,
            decreases kk - t2,
        {
            let hs = scores[t2];
            sites.push(Position { x: hs.x as i32, y: hs.y as i32 });
            t2 = t2 + 1;
        }
        proof {
            assert forall|i: int, x2: int, y2: int|
                0 <= i < sites@.len() && 0 <= x2 < width && 0 <= y2 < height && !seq_contains_pos(
                    sites@,
                    x2,
                    y2,
                ) implies score_precedes(
                old(self).site_key((#[trigger] sites@[i]).x as int, sites@[i].y as int),
                #[trigger] old(self).site_key(x2, y2),
            ) by {
                assert(contains_cell(scores@, x2, y2));
                let w = choose|jj: int| 0 <= jj < scores@.len() && scores@[jj].x == x2
                    && scores@[jj].y == y2;
                if w < kk {
                    assert(sites@[w].x == x2 && sites@[w].y == y2);
                    assert(seq_contains_pos(sites@, x2, y2));
                } else {
                    assert(score_precedes(hs_key(scores@[i]), hs_key(scores@[w])));
                }
            }
        }
        sites
    }

    /// Build the grid from its dimensions and the full initial snapshot of
    /// resource amounts, row-major, row index = y.
    pub fn generate(width: usize, height: usize, rows: Vec<Vec<u32>>) -> (m: GameMap)
        requires
            1 <= width <= MAX_DIM,
            1 <= height <= MAX_DIM,
            rows@.len() == height,
            forall|y: int| 0 <= y < height ==> (#[trigger] rows@[y]).len() == width,
        ensures
            m.inv(),
            m.width == width,
            m.height == height,
            forall|x: int, y: int| 0 <= x < width && 0 <= y < height ==> m.cell(x, y) == (MapCell {
                halite: rows@[y][x],
                ship: None,
                structure: None,
            }),
    {
        proof {
            assert(width * height <= MAX_DIM * MAX_DIM) by (nonlinear_arith)
                requires
                    1 <= width <= MAX_DIM,
                    1 <= height <= MAX_DIM,
            ;
        }
        let total: usize = width * height;
        let mut cells: Vec<MapCell> = Vec::new();
        let mut idx: usize = 0;
        while idx < total
            invariant
                total == width * height,
                1 <= width <= MAX_DIM,
                1 <= height <= MAX_DIM,
                total <= MAX_DIM * MAX_DIM,
                rows@.len() == height,
                forall|y: int| 0 <= y < height ==> (#[trigger] rows@[y]).len() == width,
                idx <= total,
                cells@.len() == idx,
                forall|j: int| 0 <= j < idx ==> cells@[j] == (MapCell {
                    halite: rows@[j / (width as int)][j % (width as int)],
                    ship: None,
                    structure: None,
                }),
            decreases total - idx,
        {
            let y: usize = idx / width;
            let x: usize = idx % width;
            proof {
                assert((idx as int) / (width as int) < height && 0 <= (idx as int) % (
                width as int) < width) by (nonlinear_arith)
                    requires
                        1 <= width,
                        0 <= idx,
                        idx < width * height,
                ;
            }
            let halite: u32 = rows[y][x];
            cells.push(MapCell { halite, ship: None, structure: None });
            idx = idx + 1;
        }
        let m = GameMap { width, height, cells };
        proof {
            assert forall|x: int, y: int| 0 <= x < width && 0 <= y < height implies m.cell(x, y)
                == (MapCell { halite: rows@[y][x], ship: None, structure: None }) by {
                lemma_flat_index(x, y, width as int, height as int);
                lemma_fundamental_div_mod_converse(y * (width as int) + x, width as int, y, x);
            }
        }
        m
    }
}

/// The resource amount a cell reads after applying the update triples in
/// order to a cell that started at `orig`: the last triple naming `(x, y)`
/// wins; a cell named by no triple keeps `orig`.
pub open spec fn halite_after(updates: Seq<(usize, usize, u32)>, x: int, y: int, orig: u32) -> u32
    decreases updates.len(),
{
    if updates.len() == 0 {
        orig
    } else if updates.last().0 == x && updates.last().1 == y {
        updates.last().2
    } else {
        halite_after(updates.drop_last(), x, y, orig)
    }
}

/// Transient candidate produced by site selection: a window score and the
/// cell it belongs to.
#[derive(Clone, Copy)]
struct HaliteScore {
    score: u64,
    x: usize,
    y: usize,
}

/// Ordering key of a candidate.
spec fn hs_key(h: HaliteScore) -> (int, int, int) {
    (h.score as int, h.x as int, h.y as int)
}

/// Whether the candidate sequence holds an entry for the cell `(x, y)`.
spec fn contains_cell(s: Seq<HaliteScore>, x: int, y: int) -> bool {
    exists|j: int| 0 <= j < s.len() && s[j].x == x && s[j].y == y
}

/// Strict priority between two scored cells: a higher score comes first;
/// among equal scores the smaller x, and then the smaller y.
pub open spec fn score_precedes(a: (int, int, int), b: (int, int, int)) -> bool {
    a.0 > b.0 || (a.0 == b.0 && (a.1 < b.1 || (a.1 == b.1 && a.2 < b.2)))
}

/// Whether the position sequence holds the cell `(x, y)`.
pub open spec fn seq_contains_pos(s: Seq<Position>, x: int, y: int) -> bool {
    exists|i: int| 0 <= i < s.len() && s[i].x == x && s[i].y == y
}

/// The candidate with the higher priority under the selection order.
fn hs_precedes(a: &HaliteScore, b: &HaliteScore) -> (r: bool)
    ensures
        r == score_precedes(hs_key(*a), hs_key(*b)),
{
    a.score > b.score || (a.score == b.score && (a.x < b.x || (a.x == b.x && a.y < b.y)))
}

/// The step table for site selection: the number of sites to propose and the
/// window radius, both fixed by the grid's width.
pub open spec fn spec_dropoff_params(w: int) -> (int, int) {
    if w < 33 {
        (2, 3)
    } else if w < 50 {
        (3, 4)
    } else if w < 70 {
        (4, 5)
    } else {
        (5, 6)
    }
}

/// A column sum is non-negative and at most one 32-bit maximum per cell.
proof fn lemma_col_sum_bounds(m: GameMap, cx: int, cy: int, lo: int, hi: int)
    requires
        lo <= hi,
    ensures
        0 <= m.window_col_sum(cx, cy, lo, hi) <= (hi - lo) * 0x1_0000_0000,
    decreases hi - lo,
{
    if lo < hi {
        lemma_col_sum_bounds(m, cx, cy, lo + 1, hi);
        assert((hi - lo - 1) * 0x1_0000_0000 + 0x1_0000_0000 == (hi - lo) * 0x1_0000_0000)
            by (nonlinear_arith);
    }
}

/// A window sum is non-negative and at most one 32-bit maximum per cell.
proof fn lemma_window_sum_bounds(m: GameMap, cx: int, cy: int, lo: int, hi: int, r: int)
    requires
        lo <= hi,
        r >= 0,
    ensures
        0 <= m.window_sum(cx, cy, lo, hi, r) <= (hi - lo) * ((2 * r) * 0x1_0000_0000),
    decreases hi - lo,
{
    if lo < hi {
        lemma_window_sum_bounds(m, cx, cy, lo + 1, hi, r);
        lemma_col_sum_bounds(m, cx + lo, cy, -r, r);
        assert((hi - lo - 1) * ((2 * r) * 0x1_0000_0000) + (2 * r) * 0x1_0000_0000 == (hi - lo) * ((
        2 * r) * 0x1_0000_0000)) by (nonlinear_arith);
        assert(m.window_col_sum(cx + lo, cy, -r, r) <= (2 * r) * 0x1_0000_0000);
    }
}

/// Extending a column sum by one row at the top appends that cell's amount.
proof fn lemma_col_sum_unfold_last(m: GameMap, cx: int, cy: int, lo: int, hi: int)
    requires
        lo <= hi,
    ensures
        m.window_col_sum(cx, cy, lo, hi + 1) == m.window_col_sum(cx, cy, lo, hi) + m.cell(
            m.norm_x(cx),
            m.norm_y(cy + hi),
        ).halite,
    decreases hi - lo,
{
    reveal_with_fuel(GameMap::window_col_sum, 2);
    if lo < hi {
        lemma_col_sum_unfold_last(m, cx, cy, lo + 1, hi);
    }
}

/// Extending a window sum by one column on the right appends that column.
proof fn lemma_window_sum_unfold_last(m: GameMap, cx: int, cy: int, lo: int, hi: int, r: int)
    requires
        lo <= hi,
    ensures
        m.window_sum(cx, cy, lo, hi + 1, r) == m.window_sum(cx, cy, lo, hi, r) + m.window_col_sum(
            cx + hi,
            cy,
            -r,
            r,
        ),
    decreases hi - lo,
{
    reveal_with_fuel(GameMap::window_sum, 2);
    if lo < hi {
        lemma_window_sum_unfold_last(m, cx, cy, lo + 1, hi, r);
    }
}

/// Distinct in-bounds coordinate pairs map to distinct flat indices.
proof fn lemma_flat_index_injective(x1: int, y1: int, x2: int, y2: int, w: int)
    requires
        0 <= x1 < w,
        0 <= x2 < w,
        0 <= y1,
        0 <= y2,
        !(x1 == x2 && y1 == y2),
    ensures
        y1 * w + x1 != y2 * w + x2,
{
    if y1 * w + x1 == y2 * w + x2 {
        lemma_fundamental_div_mod_converse(y1 * w + x1, w, y1, x1);
        lemma_fundamental_div_mod_converse(y2 * w + x2, w, y2, x2);
    }
}

/// Shorter wrap-aware distance along one axis of size `m` between two
/// normalized coordinates.
pub open spec fn axis_dist(a: int, b: int, m: int) -> int {
    let d = if a >= b {
        a - b
    } else {
        b - a
    };
    if d <= m - d {
        d
    } else {
        m - d
    }
}

/// Candidate direction for one axis of size `m`: empty when the normalized
/// coordinates are equal, else the one direction whose wrap-aware path from
/// `s` to `d` is shorter (`neg` steps toward smaller coordinates, `pos`
/// toward larger ones).
pub open spec fn axis_moves(s: int, d: int, m: int, neg: Direction, pos: Direction) -> Seq<
    Direction,
> {
    let dist = if s >= d {
        s - d
    } else {
        d - s
    };
    let wrapped = m - dist;
    if s < d {
        seq![
            if dist > wrapped {
                neg
            } else {
                pos
            },
        ]
    } else if s > d {
        seq![
            if dist < wrapped {
                neg
            } else {
                pos
            },
        ]
    } else {
        Seq::empty()
    }
}

/// Normalization is idempotent, and its result lies inside the grid.
pub proof fn lemma_normalize_idempotent(m: GameMap, p: Position)
    requires
        m.inv(),
    ensures
        m.spec_normalize(m.spec_normalize(p)) == m.spec_normalize(p),
        0 <= m.spec_normalize(p).x < m.width,
        0 <= m.spec_normalize(p).y < m.height,
{
    lemma_mod_division_less_than_divisor(p.x as int, m.width as int);
    lemma_mod_division_less_than_divisor(p.y as int, m.height as int);
    lemma_small_mod(m.norm_x(p.x as int) as nat, m.width as nat);
    lemma_small_mod(m.norm_y(p.y as int) as nat, m.height as nat);
}

/// Distance is symmetric, and zero exactly when the two positions normalize
/// to the same cell.
pub proof fn lemma_distance_symmetric_zero(m: GameMap, a: Position, b: Position)
    requires
        m.inv(),
    ensures
        m.spec_distance(a, b) == m.spec_distance(b, a),
        m.spec_distance(a, b) == 0 <==> m.spec_normalize(a) == m.spec_normalize(b),
{
    lemma_mod_division_less_than_divisor(a.x as int, m.width as int);
    lemma_mod_division_less_than_divisor(a.y as int, m.height as int);
    lemma_mod_division_less_than_divisor(b.x as int, m.width as int);
    lemma_mod_division_less_than_divisor(b.y as int, m.height as int);
}

/// The candidate directions respect the axes: an axis whose normalized
/// coordinates are equal contributes no direction, and when both axes differ
/// the sequence holds exactly two directions.
pub proof fn lemma_unsafe_moves_axes(m: GameMap, s: Position, d: Position)
    requires
        m.inv(),
    ensures
        m.spec_normalize(s).x == m.spec_normalize(d).x ==> forall|dir: Direction|
            m.spec_unsafe_moves(s, d).contains(dir) ==> (dir == Direction::North || dir
                == Direction::South),
        m.spec_normalize(s).y == m.spec_normalize(d).y ==> forall|dir: Direction|
            m.spec_unsafe_moves(s, d).contains(dir) ==> (dir == Direction::East || dir
                == Direction::West),
        m.spec_normalize(s).x != m.spec_normalize(d).x && m.spec_normalize(s).y
            != m.spec_normalize(d).y ==> m.spec_unsafe_moves(s, d).len() == 2,
{
}

/// Navigation never selects an occupied cell: whatever direction the choice
/// yields, its target cell is free in the map the choice was made against.
pub proof fn lemma_nav_choice_free(m: GameMap, pos: Position, cands: Seq<Direction>, dir: Direction)
    requires
        m.nav_choice(pos, cands) == Some(dir),
    ensures
        !m.cell(m.nav_target_x(pos, dir), m.nav_target_y(pos, dir)).spec_is_occupied(),
    decreases cands.len(),
{
    if cands.len() > 0 {
        if m.cell(m.nav_target_x(pos, cands[0]), m.nav_target_y(pos, cands[0])).spec_is_occupied() {
            lemma_nav_choice_free(m, pos, cands.drop_first(), dir);
        }
    }
}

/// Within one turn, the cell one navigation call reserved is never chosen by
/// a later call: `m1` is the map right after a call from `pos1` chose `dir1`
/// and claimed its target for unit `id`, and any choice the updated map
/// yields targets a different cell.
pub proof fn lemma_navigate_no_double_claim(
    m0: GameMap,
    m1: GameMap,
    id: ShipId,
    pos1: Position,
    dir1: Direction,
    pos2: Position,
    cands2: Seq<Direction>,
    dir2: Direction,
)
    requires
        m0.inv(),
        m1.width == m0.width,
        m1.height == m0.height,
        m1.cells@ == m0.cells@.update(
            m0.nav_target_y(pos1, dir1) * m0.width + m0.nav_target_x(pos1, dir1),
            (MapCell {
                ship: Some(id),
                ..m0.cell(m0.nav_target_x(pos1, dir1), m0.nav_target_y(pos1, dir1))
            }),
        ),
        m1.nav_choice(pos2, cands2) == Some(dir2),
    ensures
        !(m1.nav_target_x(pos2, dir2) == m0.nav_target_x(pos1, dir1) && m1.nav_target_y(pos2, dir2)
            == m0.nav_target_y(pos1, dir1)),
{
    let tx1 = m0.nav_target_x(pos1, dir1);
    let ty1 = m0.nav_target_y(pos1, dir1);
    lemma_mod_division_less_than_divisor(pos1.x + dir_dx(dir1), m0.width as int);
    lemma_mod_division_less_than_divisor(pos1.y + dir_dy(dir1), m0.height as int);
    lemma_flat_index(tx1, ty1, m0.width as int, m0.height as int);
    assert(m1.cell(tx1, ty1).spec_is_occupied());
    lemma_nav_choice_free(m1, pos2, cands2, dir2);
}

/// Stepping from an already normalized coordinate reaches the same cell as
/// stepping from the raw coordinate and normalizing afterwards.
proof fn lemma_norm_add(x: int, e: int, m: int)
    requires
        0 < m,
    ensures
        (x % m + e) % m == (x + e) % m,
{
    let q = x / m;
    let r = x % m;
    lemma_fundamental_div_mod(x, m);
    assert(x + e == m * q + (r + e));
    lemma_mod_multiples_vanish(q, r + e, m);
}

/// A normalized coordinate pair indexes strictly inside the flat grid array.
proof fn lemma_flat_index(x: int, y: int, w: int, h: int)
    requires
        0 <= x < w,
        0 <= y < h,
        w <= MAX_DIM,
        h <= MAX_DIM,
    ensures
        0 <= y * w + x < w * h,
        y * w + x < MAX_DIM * MAX_DIM,
{
    assert(0 <= y * w + x < w * h && y * w + x < MAX_DIM * MAX_DIM) by (nonlinear_arith)
        requires
            0 <= x < w,
            0 <= y < h,
            w <= MAX_DIM,
            h <= MAX_DIM,
    ;
}

} // verus!
