use grafdag::layout::{Flow, LKind, Motion, NavInfo, ScreenDir, Side, TitleAt};

const FLOWS: [Flow; 4] = [Flow::Down, Flow::Right, Flow::Up, Flow::Left];
const MOTIONS: [Motion; 4] = [Motion::Forward, Motion::Backward, Motion::SideNext, Motion::SidePrev];
const DIRS: [ScreenDir; 4] = [ScreenDir::Down, ScreenDir::Up, ScreenDir::Left, ScreenDir::Right];

#[test]
fn default_flow_is_down() {
    assert_eq!(Flow::default(), Flow::Down);
}

#[test]
fn rotations() {
    assert_eq!(Flow::Down.ccw(), Flow::Right);
    assert_eq!(Flow::Right.ccw(), Flow::Up);
    assert_eq!(Flow::Up.ccw(), Flow::Left);
    assert_eq!(Flow::Left.ccw(), Flow::Down);
    assert_eq!(Flow::Down.cw(), Flow::Left);
    for f in FLOWS {
        assert_eq!(f.ccw().cw(), f);
        assert_eq!(f.cw().ccw(), f);
        assert_eq!(f.cw().cw().cw().cw(), f);
        assert_ne!(f.cw().horizontal(), f.horizontal());
    }
}

#[test]
fn horizontal_flows() {
    assert!(!Flow::Down.horizontal());
    assert!(!Flow::Up.horizontal());
    assert!(Flow::Left.horizontal());
    assert!(Flow::Right.horizontal());
}

#[test]
fn screen_directions() {
    assert_eq!(Flow::Down.screen_dir(Motion::Forward), ScreenDir::Down);
    assert_eq!(Flow::Down.screen_dir(Motion::SideNext), ScreenDir::Right);
    assert_eq!(Flow::Up.screen_dir(Motion::Forward), ScreenDir::Up);
    assert_eq!(Flow::Right.screen_dir(Motion::Backward), ScreenDir::Left);
    assert_eq!(Flow::Left.screen_dir(Motion::Forward), ScreenDir::Left);
    assert_eq!(Flow::Left.screen_dir(Motion::SidePrev), ScreenDir::Up);
}

#[test]
fn motion_inverts_screen_dir() {
    for f in FLOWS {
        for m in MOTIONS {
            assert_eq!(f.motion(f.screen_dir(m)), m);
        }
        for d in DIRS {
            assert_eq!(f.screen_dir(f.motion(d)), d);
        }
        let fwd = f.screen_dir(Motion::Forward);
        let side = f.screen_dir(Motion::SideNext);
        let vertical = |d: ScreenDir| d == ScreenDir::Down || d == ScreenDir::Up;
        assert_ne!(vertical(fwd), vertical(side), "axes must be perpendicular");
    }
}

#[test]
fn sides_and_titles() {
    assert_eq!(Flow::Down.screen_side(Side::Before), ScreenDir::Up);
    assert_eq!(Flow::Down.screen_side(Side::After), ScreenDir::Down);
    assert_eq!(Flow::Right.screen_side(Side::After), ScreenDir::Right);
    assert_eq!(Flow::Down.title_at(), TitleAt::RankStart);
    assert_eq!(Flow::Up.title_at(), TitleAt::RankEnd);
    assert_eq!(Flow::Left.title_at(), TitleAt::SideStart);
    assert_eq!(Flow::Right.title_at(), TitleAt::SideStart);
    assert_eq!(Flow::Up.self_exit_side(), Side::After);
    assert_eq!(Flow::Down.self_exit_side(), Side::Before);
    assert_eq!(Flow::Left.self_exit_side(), Side::Before);
}

#[test]
fn plain_layout_values() {
    let a = NavInfo { island: 1, rank: 2, index: 3 };
    assert_eq!(a, a.clone());
    assert_ne!(a, NavInfo { island: 1, rank: 2, index: 4 });
    let k = LKind::Exit { inst: 2, side: Side::After, to_self: false };
    assert_ne!(k, LKind::Real(2));
    assert_eq!(LKind::Dummy, LKind::Dummy);
}
