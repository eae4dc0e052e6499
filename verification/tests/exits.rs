use grafdag::exits::{child_exits, port_demands, Exit};
use grafdag::layout::Side;

// Copies: 0 and 1 at the top level, 2 and 3 inside 0, 4 inside 2.
fn parents() -> Vec<Option<usize>> {
    return vec![None, None, Some(0), Some(0), Some(2)];
}

#[test]
fn exits_go_down_to_member_containers() {
    let par = parents();
    // Link copies: 0: 4 -> 1, 1: 1 -> 3, 2: 0 -> 4 (through member 0).
    let ends = vec![(4, 1), (1, 3), (0, 4)];
    // Seen from the top level: 0 -> 1 (source first), 1 -> 0 (dest first).
    let internal = vec![(0, 0, 1), (1, 1, 0)];
    let first = vec![true, false];
    let through = vec![(2, 0)];
    let handed = child_exits(&par, &ends, &internal, &first, &[], &through, Side::Before);
    assert_eq!(
        handed,
        vec![
            (0, Exit { inst: 0, member: 2, side: Side::After, outgoing: true, to_self: false }),
            (0, Exit { inst: 1, member: 3, side: Side::After, outgoing: false, to_self: false }),
            (0, Exit { inst: 2, member: 2, side: Side::Before, outgoing: false, to_self: true }),
        ]
    );
    // Inside 0, the exit of link 0 goes further down into 2, towards 4.
    let own = vec![Exit { inst: 0, member: 2, side: Side::After, outgoing: true, to_self: false }];
    let handed = child_exits(&par, &ends, &[], &[], &own, &[], Side::Before);
    assert_eq!(handed, vec![(2, Exit { inst: 0, member: 4, side: Side::After, outgoing: true, to_self: false })]);
    // A member holding nothing gets nothing.
    let own = vec![Exit { inst: 1, member: 3, side: Side::After, outgoing: false, to_self: false }];
    assert!(child_exits(&par, &ends, &[], &[], &own, &[], Side::Before).is_empty());
}

#[test]
fn ports_on_the_busier_side() {
    let internal = vec![(0, 7, 8), (1, 7, 9), (2, 9, 7)];
    let first = vec![true, true, true];
    let exits = vec![Exit { inst: 3, member: 8, side: Side::Before, outgoing: false, to_self: false }];
    let loops = vec![(4, 9)];
    // 7: two sources after, one dest before; 8: two before; 9: one before,
    // one after, and a loop on both sides.
    assert_eq!(port_demands(&[7, 8, 9, 5], &internal, &first, &exits, &loops), vec![2, 2, 2, 0]);
}
