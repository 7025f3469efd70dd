use vstd::prelude::*;

verus! {

/// A coordinate of the drawn box along one axis: the outer or inner face on
/// the low or high side.
#[derive(PartialEq, Eq, Structural, Clone, Copy, Debug)]
pub enum Bound {
    OuterMin,
    OuterMax,
    InnerMin,
    InnerMax,
}

/// One cube instance of a box mesh. Along each axis it is centred midway
/// between the coordinates `from` and `to`; it is as thick as the line
/// thickness along the axes marked `thin` and spans the whole outer box
/// along the others.
#[derive(Clone, Copy, Debug)]
pub struct BoxInstance {
    pub from: [Bound; 3],
    pub to: [Bound; 3],
    pub thin: [bool; 3],
}

/// The instance layout of a box drawn from cubes.
pub struct BoxMesh {
    pub instances: Vec<BoxInstance>,
}

pub open spec fn corner(x: bool, y: bool, z: bool) -> [Bound; 3] {
    [
        if x { Bound::OuterMax } else { Bound::OuterMin },
        if y { Bound::OuterMax } else { Bound::OuterMin },
        if z { Bound::OuterMax } else { Bound::OuterMin },
    ]
}

/// The axis along which the skeleton bar `i` runs: 0 for bars 0-3, 1 for 4-7, 2 for 8-11.
pub open spec fn skeleton_axis(i: int) -> int {
    i / 4
}

/// The corner at the low end of skeleton bar `i`, as which of the three
/// coordinates are at the box maximum. Along the bar's own axis it is always
/// at the minimum; the four bars of an axis take the four corners of the
/// face across that axis.
pub open spec fn skeleton_corner(i: int) -> (bool, bool, bool) {
    if i == 0 || i == 4 || i == 8 {
        (false, false, false)
    } else if i == 1 {
        (false, true, true)
    } else if i == 2 || i == 6 {
        (false, false, true)
    } else if i == 3 || i == 10 {
        (false, true, false)
    } else if i == 5 {
        (true, false, true)
    } else if i == 7 || i == 11 {
        (true, false, false)
    } else {
        (true, true, false)
    }
}

/// The corner from which skeleton bar `i` starts.
pub open spec fn skeleton_start(i: int) -> [Bound; 3] {
    let (x, y, z) = skeleton_corner(i);
    corner(x, y, z)
}

/// The corner at which skeleton bar `i` ends: its start moved to the
/// maximum along the bar's axis, so the bar covers one edge of the box.
pub open spec fn skeleton_end(i: int) -> [Bound; 3] {
    let (x, y, z) = skeleton_corner(i);
    let a = skeleton_axis(i);
    corner(x || a == 0, y || a == 1, z || a == 2)
}

/// Skeleton bar `i`: one edge of the box, thin along every axis but the one
/// it runs along.
pub open spec fn skeleton_instance(i: int) -> BoxInstance {
    let a = skeleton_axis(i);
    BoxInstance {
        from: skeleton_start(i),
        to: skeleton_end(i),
        thin: [a != 0, a != 1, a != 2],
    }
}

/// The skeleton is the twelve edges of the box: each bar runs from the
/// minimum to the maximum along its own axis, keeps one outer coordinate
/// along each other axis, and no two bars cover the same edge.
pub proof fn lemma_skeleton_is_the_edges()
    ensures
        forall|i: int| 0 <= i < 12 ==> {
            let a = skeleton_axis(i);
            &&& 0 <= a < 3
            &&& (#[trigger] skeleton_instance(i)).from[a] == Bound::OuterMin
            &&& skeleton_instance(i).to[a] == Bound::OuterMax
            &&& forall|k: int| 0 <= k < 3 && k != a ==> skeleton_instance(i).from[k] == skeleton_instance(i).to[k]
        },
        forall|i: int, j: int| 0 <= i < j < 12 ==>
            #[trigger] skeleton_instance(i) != #[trigger] skeleton_instance(j),
{
    assert forall|i: int, j: int| 0 <= i < j < 12 implies
        #[trigger] skeleton_instance(i) != #[trigger] skeleton_instance(j) by {
        if skeleton_axis(i) == skeleton_axis(j) {
            assert(skeleton_corner(i) != skeleton_corner(j));
            let (a, b, c) = skeleton_corner(i);
            let (d, e, f) = skeleton_corner(j);
            if a != d {
                assert(skeleton_instance(i).from[0] != skeleton_instance(j).from[0]);
            } else if b != e {
                assert(skeleton_instance(i).from[1] != skeleton_instance(j).from[1]);
            } else {
                assert(skeleton_instance(i).from[2] != skeleton_instance(j).from[2]);
            }
        } else {
            let a = skeleton_axis(i);
            assert(skeleton_instance(i).thin[a] != skeleton_instance(j).thin[a]);
        }
    }
}

/// Shell face `f`: faces 0 and 1 are the low and high `x` faces, 2 and 3 the
/// `y` faces, 4 and 5 the `z` faces. A face lies between the outer and the
/// inner coordinate of its side along its axis and spans the outer box along
/// the others.
pub open spec fn shell_instance(f: int) -> BoxInstance {
    let a = f / 2;
    let high = f % 2 == 1;
    let outer = if high { Bound::OuterMax } else { Bound::OuterMin };
    let inner = if high { Bound::InnerMax } else { Bound::InnerMin };
    BoxInstance {
        from: [
            if a == 0 { outer } else { Bound::OuterMin },
            if a == 1 { outer } else { Bound::OuterMin },
            if a == 2 { outer } else { Bound::OuterMin },
        ],
        to: [
            if a == 0 { inner } else { Bound::OuterMax },
            if a == 1 { inner } else { Bound::OuterMax },
            if a == 2 { inner } else { Bound::OuterMax },
        ],
        thin: [a == 0, a == 1, a == 2],
    }
}

/// The hollow box is the six slabs of the shell, one per side: face `f`
/// lies across axis `f / 2`, on the high side for odd `f` and the low side
/// for even `f`, between the outer and the inner bound of that side, and it
/// spans the whole outer box along the other two axes. No two faces are the
/// same.
pub proof fn lemma_shell_is_the_sides()
    ensures
        forall|f: int| 0 <= f < 6 ==> {
            let a = f / 2;
            let face = #[trigger] shell_instance(f);
            &&& 0 <= a < 3
            &&& face.thin[a]
            &&& (f % 2 == 1 ==> face.from[a] == Bound::OuterMax && face.to[a] == Bound::InnerMax)
            &&& (f % 2 == 0 ==> face.from[a] == Bound::OuterMin && face.to[a] == Bound::InnerMin)
            &&& forall|k: int| 0 <= k < 3 && k != a ==>
                face.from[k] == Bound::OuterMin && face.to[k] == Bound::OuterMax && !face.thin[k]
        },
        forall|f: int, g: int| 0 <= f < g < 6 ==> #[trigger] shell_instance(f) != #[trigger] shell_instance(g),
{
    assert forall|f: int, g: int| 0 <= f < g < 6 implies #[trigger] shell_instance(f) != #[trigger] shell_instance(g) by {
        let a = f / 2;
        if g / 2 == a {
            assert(shell_instance(f).from[a] != shell_instance(g).from[a]);
        } else {
            assert(shell_instance(f).thin[a] != shell_instance(g).thin[a]);
        }
    }
}

fn make_corner(x: bool, y: bool, z: bool) -> (c: [Bound; 3])
    ensures
        c == corner(x, y, z),
{
    [
        if x { Bound::OuterMax } else { Bound::OuterMin },
        if y { Bound::OuterMax } else { Bound::OuterMin },
        if z { Bound::OuterMax } else { Bound::OuterMin },
    ]
}

impl BoxMesh {
    /// A box drawn as its skeleton of bars.
    pub fn new() -> (mesh: BoxMesh)
        ensures
            mesh.instances@ == Seq::new(12, |i: int| skeleton_instance(i)),
    {
        Self::new_skeleton_box()
    }

    /// The skeleton of twelve bars, four along each axis.
    pub fn new_skeleton_box() -> (mesh: BoxMesh)
        ensures
            mesh.instances@ == Seq::new(12, |i: int| skeleton_instance(i)),
    {
        let starts: [(bool, bool, bool); 12] = [
            (false, false, false),
            (false, true, true),
            (false, false, true),
            (false, true, false),
            (false, false, false),
            (true, false, true),
            (false, false, true),
            (true, false, false),
            (false, false, false),
            (true, true, false),
            (false, true, false),
            (true, false, false),
        ];
        let mut instances: Vec<BoxInstance> = Vec::new();
        let mut i: usize = 0;
        while i < 12
            invariant
                i <= 12,
                instances@ == Seq::new(i as nat, |k: int| skeleton_instance(k)),
                forall|k: int| 0 <= k < 12 ==> starts@[k] == #[trigger] skeleton_corner(k),
            decreases 12 - i,
        {
            let (x, y, z) = starts[i];
            let axis = i / 4;
            let from = make_corner(x, y, z);
            let to = make_corner(x || axis == 0, y || axis == 1, z || axis == 2);
            let inst = BoxInstance { from, to, thin: [axis != 0, axis != 1, axis != 2] };
            assert(skeleton_start(i as int) == from);
            assert(inst == skeleton_instance(i as int));
            instances.push(inst);
            assert(instances@ =~= Seq::new((i + 1) as nat, |k: int| skeleton_instance(k)));
            i = i + 1;
        }
        BoxMesh { instances }
    }

    /// The hollow box of six faces of the line thickness.
    pub fn new_box() -> (mesh: BoxMesh)
        ensures
            mesh.instances@ == Seq::new(6, |f: int| shell_instance(f)),
    {
        let mut instances: Vec<BoxInstance> = Vec::new();
        let mut f: usize = 0;
        while f < 6
            invariant
                f <= 6,
                instances@ == Seq::new(f as nat, |k: int| shell_instance(k)),
            decreases 6 - f,
        {
            let a = f / 2;
            let high = f % 2 == 1;
            let outer = if high { Bound::OuterMax } else { Bound::OuterMin };
            let inner = if high { Bound::InnerMax } else { Bound::InnerMin };
            let inst = BoxInstance {
                from: [
                    if a == 0 { outer } else { Bound::OuterMin },
                    if a == 1 { outer } else { Bound::OuterMin },
                    if a == 2 { outer } else { Bound::OuterMin },
                ],
                to: [
                    if a == 0 { inner } else { Bound::OuterMax },
                    if a == 1 { inner } else { Bound::OuterMax },
                    if a == 2 { inner } else { Bound::OuterMax },
                ],
                thin: [a == 0, a == 1, a == 2],
            };
            assert(inst == shell_instance(f as int));
            instances.push(inst);
            assert(instances@ =~= Seq::new((f + 1) as nat, |k: int| shell_instance(k)));
            f = f + 1;
        }
        BoxMesh { instances }
    }
}

} // verus!
