use vstd::prelude::*;

verus! {

/// A position `(x, y)` in double-width offset coordinates.
pub type Pos = (i32, i32);

/// A displacement `(dx, dy)` between two positions.
pub type Dir = (i32, i32);

/// A position with mathematical coordinates, where no arithmetic overflows.
pub open spec fn pos_view(p: Pos) -> (int, int) {
    (p.0 as int, p.1 as int)
}

/// The positions of a sequence, with mathematical coordinates.
pub open spec fn pos_seq_view(s: Seq<Pos>) -> Seq<(int, int)> {
    s.map_values(|p: Pos| pos_view(p))
}

/// The position reached from `p` by moving along `d`.
pub open spec fn shift(p: (int, int), d: Dir) -> (int, int) {
    (p.0 + d.0, p.1 + d.1)
}

/// The six immediate neighbours: E, NE, NW, W, SW, SE.
pub open spec fn step_dirs() -> Seq<Dir> {
    seq![(2i32, 0i32), (1i32, 1i32), (-1i32, 1i32), (-2i32, 0i32), (-1i32, -1i32), (1i32, -1i32)]
}

/// The twelve cells of the ring one step beyond the neighbours:
/// E, ENE, NE, N, NW, WNW, W, WSW, SW, S, SE, ESE.
pub open spec fn leap_dirs() -> Seq<Dir> {
    seq![
        (4i32, 0i32),
        (3i32, 1i32),
        (2i32, 2i32),
        (0i32, 2i32),
        (-2i32, 2i32),
        (-3i32, 1i32),
        (-4i32, 0i32),
        (-3i32, -1i32),
        (-2i32, -2i32),
        (0i32, -2i32),
        (2i32, -2i32),
        (3i32, -1i32),
    ]
}

/// The step directions, in the order E, NE, NW, W, SW, SE.
pub fn step_directions() -> (r: Vec<Dir>)
    ensures
        r@ == step_dirs(),
{
    let mut r: Vec<Dir> = Vec::new();
    r.push((2, 0));
    r.push((1, 1));
    r.push((-1, 1));
    r.push((-2, 0));
    r.push((-1, -1));
    r.push((1, -1));
    assert(r@ =~= step_dirs());
    r
}

/// The leap directions, in the order E, ENE, NE, N, NW, WNW, W, WSW, SW, S, SE, ESE.
pub fn leap_directions() -> (r: Vec<Dir>)
    ensures
        r@ == leap_dirs(),
{
    let mut r: Vec<Dir> = Vec::new();
    r.push((4, 0));
    r.push((3, 1));
    r.push((2, 2));
    r.push((0, 2));
    r.push((-2, 2));
    r.push((-3, 1));
    r.push((-4, 0));
    r.push((-3, -1));
    r.push((-2, -2));
    r.push((0, -2));
    r.push((2, -2));
    r.push((3, -1));
    assert(r@ =~= leap_dirs());
    r
}

/// Moves `p` along `d`; the board sizes in use keep the sum within `i32`.
pub fn offset(p: Pos, d: Dir) -> (r: Pos)
    requires
        i32::MIN <= p.0 + d.0 <= i32::MAX,
        i32::MIN <= p.1 + d.1 <= i32::MAX,
    ensures
        pos_view(r) == shift(pos_view(p), d),
{
    (p.0 + d.0, p.1 + d.1)
}

/// Every step direction has its reverse among the step directions.
pub proof fn lemma_step_dirs_symmetric(i: int)
    requires
        0 <= i < step_dirs().len(),
    ensures
        exists|j: int|
            0 <= j < step_dirs().len() && step_dirs()[j].0 == -step_dirs()[i].0
                && step_dirs()[j].1 == -step_dirs()[i].1,
{
    let s = step_dirs();
    if i == 0 { assert(s[3].0 == -s[0].0 && s[3].1 == -s[0].1); }
    else if i == 1 { assert(s[4].0 == -s[1].0 && s[4].1 == -s[1].1); }
    else if i == 2 { assert(s[5].0 == -s[2].0 && s[5].1 == -s[2].1); }
    else if i == 3 { assert(s[0].0 == -s[3].0 && s[0].1 == -s[3].1); }
    else if i == 4 { assert(s[1].0 == -s[4].0 && s[1].1 == -s[4].1); }
    else { assert(s[2].0 == -s[5].0 && s[2].1 == -s[5].1); }
}

} // verus!
