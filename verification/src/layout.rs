//! Orientation of a layout: which screen direction the graph flows in, and
//! how motions relative to the flow map to screen directions.
use crate::document::NodeId;
use vstd::prelude::*;

verus! {

/// The screen direction in which edges of the graph point.
#[derive(Clone, Copy, Debug, PartialEq, Eq, Hash, Structural)]
pub enum Flow {
    Down,
    Left,
    Right,
    Up,
}

/// A movement relative to the flow of a layout.
#[derive(Clone, Copy, Debug, PartialEq, Eq, Hash, Structural)]
pub enum Motion {
    Backward,
    Forward,
    SideNext,
    SidePrev,
}

/// An absolute direction on screen.
#[derive(Clone, Copy, Debug, PartialEq, Eq, Hash, Structural)]
pub enum ScreenDir {
    Down,
    Left,
    Right,
    Up,
}

/// Which end of a node (along the flow) a port sits on.
#[derive(Clone, Copy, Debug, PartialEq, Eq, Hash, Structural)]
pub enum Side {
    After,
    Before,
}

/// Where a container's title strip is drawn, relative to the flow.
#[derive(Clone, Copy, Debug, PartialEq, Eq, Structural)]
pub enum TitleAt {
    RankEnd,
    RankStart,
    SideStart,
}

/// Position of a flow in the rotation order Down, Right, Up, Left.
pub open spec fn flow_index(f: Flow) -> int {
    match f {
        Flow::Down => 0,
        Flow::Right => 1,
        Flow::Up => 2,
        Flow::Left => 3,
    }
}

/// The flow at a position of the rotation order Down, Right, Up, Left.
pub open spec fn flow_at(i: int) -> Flow {
    if i == 0 {
        Flow::Down
    } else if i == 1 {
        Flow::Right
    } else if i == 2 {
        Flow::Up
    } else {
        Flow::Left
    }
}

pub open spec fn spec_horizontal(f: Flow) -> bool {
    f == Flow::Right || f == Flow::Left
}

pub open spec fn spec_screen_dir(f: Flow, m: Motion) -> ScreenDir {
    match (f, m) {
        (Flow::Down, Motion::Forward) | (Flow::Up, Motion::Backward) => ScreenDir::Down,
        (Flow::Down, Motion::Backward) | (Flow::Up, Motion::Forward) => ScreenDir::Up,
        (Flow::Down, Motion::SideNext) | (Flow::Up, Motion::SideNext) => ScreenDir::Right,
        (Flow::Down, Motion::SidePrev) | (Flow::Up, Motion::SidePrev) => ScreenDir::Left,
        (Flow::Right, Motion::Forward) | (Flow::Left, Motion::Backward) => ScreenDir::Right,
        (Flow::Right, Motion::Backward) | (Flow::Left, Motion::Forward) => ScreenDir::Left,
        (Flow::Right, Motion::SideNext) | (Flow::Left, Motion::SideNext) => ScreenDir::Down,
        (Flow::Right, Motion::SidePrev) | (Flow::Left, Motion::SidePrev) => ScreenDir::Up,
    }
}

/// The motion whose screen direction is `dir`, trying forward, backward and
/// side-next before settling on side-previous.
pub open spec fn spec_motion(f: Flow, dir: ScreenDir) -> Motion {
    if dir == spec_screen_dir(f, Motion::Forward) {
        Motion::Forward
    } else if dir == spec_screen_dir(f, Motion::Backward) {
        Motion::Backward
    } else if dir == spec_screen_dir(f, Motion::SideNext) {
        Motion::SideNext
    } else {
        Motion::SidePrev
    }
}

pub open spec fn side_motion(side: Side) -> Motion {
    match side {
        Side::Before => Motion::Backward,
        Side::After => Motion::Forward,
    }
}

pub open spec fn spec_title_at(f: Flow) -> TitleAt {
    match f {
        Flow::Down => TitleAt::RankStart,
        Flow::Up => TitleAt::RankEnd,
        Flow::Right | Flow::Left => TitleAt::SideStart,
    }
}

pub open spec fn spec_self_exit_side(f: Flow) -> Side {
    match spec_title_at(f) {
        TitleAt::RankEnd => Side::After,
        _ => Side::Before,
    }
}

impl Default for Flow {
    fn default() -> (r: Flow)
        ensures
            r == Flow::Down,
    {
        Flow::Down
    }
}

impl Flow {
    /// The next flow counter-clockwise in the order Down, Right, Up, Left.
    pub fn ccw(self) -> (r: Flow)
        ensures
            r == flow_at((flow_index(self) + 1) % 4),
    {
        match self {
            Flow::Down => Flow::Right,
            Flow::Right => Flow::Up,
            Flow::Up => Flow::Left,
            Flow::Left => Flow::Down,
        }
    }

    /// The next flow clockwise in the order Down, Right, Up, Left.
    pub fn cw(self) -> (r: Flow)
        ensures
            r == flow_at((flow_index(self) + 4 - 1) % 4),
    {
        match self {
            Flow::Down => Flow::Left,
            Flow::Right => Flow::Down,
            Flow::Up => Flow::Right,
            Flow::Left => Flow::Up,
        }
    }

    pub fn horizontal(self) -> (r: bool)
        ensures
            r == spec_horizontal(self),
    {
        match self {
            Flow::Right | Flow::Left => true,
            _ => false,
        }
    }

    pub fn screen_dir(self, m: Motion) -> (r: ScreenDir)
        ensures
            r == spec_screen_dir(self, m),
    {
        match (self, m) {
            (Flow::Down, Motion::Forward) | (Flow::Up, Motion::Backward) => ScreenDir::Down,
            (Flow::Down, Motion::Backward) | (Flow::Up, Motion::Forward) => ScreenDir::Up,
            (Flow::Down, Motion::SideNext) | (Flow::Up, Motion::SideNext) => ScreenDir::Right,
            (Flow::Down, Motion::SidePrev) | (Flow::Up, Motion::SidePrev) => ScreenDir::Left,
            (Flow::Right, Motion::Forward) | (Flow::Left, Motion::Backward) => ScreenDir::Right,
            (Flow::Right, Motion::Backward) | (Flow::Left, Motion::Forward) => ScreenDir::Left,
            (Flow::Right, Motion::SideNext) | (Flow::Left, Motion::SideNext) => ScreenDir::Down,
            (Flow::Right, Motion::SidePrev) | (Flow::Left, Motion::SidePrev) => ScreenDir::Up,
        }
    }

    pub fn motion(self, dir: ScreenDir) -> (r: Motion)
        ensures
            r == spec_motion(self, dir),
    {
        let forward = self.screen_dir(Motion::Forward);
        let backward = self.screen_dir(Motion::Backward);
        let next = self.screen_dir(Motion::SideNext);
        if dir == forward {
            Motion::Forward
        } else if dir == backward {
            Motion::Backward
        } else if dir == next {
            Motion::SideNext
        } else {
            Motion::SidePrev
        }
    }

    pub fn screen_side(self, side: Side) -> (r: ScreenDir)
        ensures
            r == spec_screen_dir(self, side_motion(side)),
    {
        self.screen_dir(
            match side {
                Side::Before => Motion::Backward,
                Side::After => Motion::Forward,
            },
        )
    }

    pub fn title_at(self) -> (r: TitleAt)
        ensures
            r == spec_title_at(self),
    {
        match self {
            Flow::Down => TitleAt::RankStart,
            Flow::Up => TitleAt::RankEnd,
            Flow::Right | Flow::Left => TitleAt::SideStart,
        }
    }

    /// The side through which an edge leaves a container to reach one of its
    /// own members.
    pub fn self_exit_side(self) -> (r: Side)
        ensures
            r == spec_self_exit_side(self),
    {
        match self.title_at() {
            TitleAt::RankEnd => Side::After,
            _ => Side::Before,
        }
    }
}

/// Rotating clockwise undoes rotating counter-clockwise, and the other way
/// round.
pub proof fn lemma_rotations_inverse(f: Flow)
    ensures
        flow_at((flow_index(flow_at((flow_index(f) + 1) % 4)) + 4 - 1) % 4) == f,
        flow_at((flow_index(flow_at((flow_index(f) + 4 - 1) % 4)) + 1) % 4) == f,
{
}

/// Four counter-clockwise rotations bring a flow back to itself.
pub proof fn lemma_four_rotations(f: Flow)
    ensures
        ({
            let a = flow_at((flow_index(f) + 1) % 4);
            let b = flow_at((flow_index(a) + 1) % 4);
            let c = flow_at((flow_index(b) + 1) % 4);
            flow_at((flow_index(c) + 1) % 4)
        }) == f,
{
}

/// Exactly the horizontal flows rotate into vertical ones.
pub proof fn lemma_rotation_swaps_axis(f: Flow)
    ensures
        spec_horizontal(flow_at((flow_index(f) + 1) % 4)) == !spec_horizontal(f),
{
}

/// For every flow, screen directions and motions are in one-to-one
/// correspondence: the motion of a motion's screen direction is that motion,
/// and the screen direction of a direction's motion is that direction.
pub proof fn lemma_motion_screen_dir_bijection(f: Flow, m: Motion, d: ScreenDir)
    ensures
        spec_motion(f, spec_screen_dir(f, m)) == m,
        spec_screen_dir(f, spec_motion(f, d)) == d,
{
}

/// Forward and backward run along the vertical screen axis exactly when the
/// flow is vertical, and the side motions run across it.
pub proof fn lemma_axes_perpendicular(f: Flow, m: Motion)
    ensures
        (spec_screen_dir(f, m) == ScreenDir::Up || spec_screen_dir(f, m) == ScreenDir::Down)
            <==> ((m == Motion::Forward || m == Motion::Backward) != spec_horizontal(f)),
{
}


/// One drawn copy of a node: the node, and the container it is drawn in
/// (none at the top level). A node is laid out in its first visible parent
/// and drawn again in any other.
#[derive(Clone, Debug, PartialEq, Eq, Hash, PartialOrd, Ord)]
pub struct PlacementId {
    pub node: NodeId,
    pub container: Option<NodeId>,
}

/// Where a placement sits in the layered structure, for keyboard
/// navigation.
#[derive(Clone, Copy, Debug, PartialEq, Eq, Structural)]
pub struct NavInfo {
    /// Island index.
    pub island: usize,
    /// Rank within the island (0 = first).
    pub rank: usize,
    /// Position within the rank, from the start of the side axis.
    pub index: usize,
}

/// What a node of the layered graph stands for: a dummy on a long edge, the
/// exit port of an instance on a side, or a real instance.
#[derive(Clone, Copy, Debug, PartialEq, Eq, Structural)]
pub enum LKind {
    Dummy,
    Exit { inst: usize, side: Side, to_self: bool },
    Real(usize),
}


/// The ranks of one island of a laid-out container, each a row of
/// placements from the start of the side axis.
#[derive(Clone, Debug)]
pub struct Island {
    /// The container the island is in (none at the top level).
    pub container: Option<NodeId>,
    pub ranks: Vec<Vec<PlacementId>>,
}

} // verus!
