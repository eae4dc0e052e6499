use grafdag::ancestry::{ancestor_in, links_within, members_of, settles_from};

// Copies: 0 and 1 at the top level, 2 and 3 inside 0, 4 inside 2, 5 inside 1.
fn parents() -> Vec<Option<usize>> {
    return vec![None, None, Some(0), Some(0), Some(2), Some(1)];
}

#[test]
fn ancestors_in_containers() {
    let par = parents();
    assert_eq!(ancestor_in(&par, 4, None), Some(0));
    assert_eq!(ancestor_in(&par, 4, Some(0)), Some(2));
    assert_eq!(ancestor_in(&par, 4, Some(2)), Some(4));
    assert_eq!(ancestor_in(&par, 4, Some(1)), None);
    assert_eq!(ancestor_in(&par, 0, None), Some(0));
    assert_eq!(ancestor_in(&par, 0, Some(3)), None);
}

#[test]
fn members_in_order() {
    let par = parents();
    assert_eq!(members_of(&par, None), vec![0, 1]);
    assert_eq!(members_of(&par, Some(0)), vec![2, 3]);
    assert_eq!(members_of(&par, Some(4)), Vec::<usize>::new());
}

#[test]
fn links_seen_from_a_container() {
    let par = parents();
    // 0: 4 -> 3, 1: 4 -> 5, 2: 0 -> 0, 3: 2 -> 4, 4: 5 -> 1.
    let ends = vec![(4, 3), (4, 5), (0, 0), (2, 4), (5, 1)];
    let (within, loops, through) = links_within(&par, &ends, None);
    assert_eq!(within, vec![(1, 0, 1)]);
    assert_eq!(loops, vec![(2, 0)]);
    assert_eq!(through, vec![(0, 0), (3, 0), (4, 1)]);
    let (within, loops, through) = links_within(&par, &ends, Some(0));
    assert_eq!(within, vec![(0, 2, 3)]);
    assert!(loops.is_empty());
    assert_eq!(through, vec![(3, 2)]);
}

#[test]
fn walks_that_settle() {
    // 0 sits in 1, 1 at the top; 2 and 3 sit in each other; 4 sits in 3.
    let par = vec![Some(1), None, Some(3), Some(2), Some(3), Some(9)];
    assert!(settles_from(&par, 0));
    assert!(settles_from(&par, 1));
    assert!(!settles_from(&par, 2));
    assert!(!settles_from(&par, 3));
    assert!(!settles_from(&par, 4));
    // A parent past the end ends the walk.
    assert!(settles_from(&par, 5));
    // A copy laid out in itself never settles.
    assert!(!settles_from(&[Some(0)], 0));
}
