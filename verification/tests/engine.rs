use hanoi::game::{index_of, Game};
use hanoi::pegs::{Move, Route, AB, ABC, AC, BC};

fn stacks(g: &Game) -> (Vec<usize>, Vec<usize>, Vec<usize>) {
    (
        g.get_ref(ABC::A).clone(),
        g.get_ref(ABC::B).clone(),
        g.get_ref(ABC::C).clone(),
    )
}

#[test]
fn fresh_board_shape() {
    let g = Game::new(3);
    assert_eq!(stacks(&g), (vec![2, 1, 0], vec![], vec![]));
}

#[test]
fn empty_board_has_no_hint() {
    let mut g = Game::new(0);
    assert_eq!(stacks(&g), (vec![], vec![], vec![]));
    assert_eq!(
        g.hint_move(),
        Move {
            start: ABC::C,
            end: ABC::C
        }
    );
    assert_eq!(g.play(), None);
    assert_eq!(stacks(&g), (vec![], vec![], vec![]));
}

#[test]
fn first_hints_for_three_disks() {
    let mut g = Game::new(3);
    let first = g.hint_move();
    assert_eq!(
        first,
        Move {
            start: ABC::A,
            end: ABC::C
        }
    );
    assert!(g.play_with_move(first).is_ok());
    assert_eq!(stacks(&g), (vec![2, 1], vec![], vec![0]));

    let second = g.hint_move();
    assert_eq!(
        second,
        Move {
            start: ABC::A,
            end: ABC::B
        }
    );
    assert!(g.play_with_move(second).is_ok());

    let third = g.hint_move();
    assert_eq!(
        third,
        Move {
            start: ABC::C,
            end: ABC::B
        }
    );
}

#[test]
fn full_playout_three_disks() {
    let mut g = Game::new(3);
    let mut moves: u32 = 0;
    while g.play().is_some() {
        moves += 1;
    }
    assert_eq!(moves, 7);
    assert_eq!(stacks(&g), (vec![], vec![], vec![2, 1, 0]));
    assert_eq!(
        g.hint_move(),
        Move {
            start: ABC::C,
            end: ABC::C
        }
    );
}

#[test]
fn full_playout_four_disks() {
    let mut g = Game::new(4);
    let mut moves: u32 = 0;
    while g.play().is_some() {
        moves += 1;
    }
    assert_eq!(moves, 15);
    assert_eq!(stacks(&g), (vec![], vec![], vec![3, 2, 1, 0]));
}

#[test]
fn hint_then_play_by_move_agrees() {
    let mut g = Game::new(4);
    let mut moves: u32 = 0;
    loop {
        let m = g.hint_move();
        if m.start == m.end {
            break;
        }
        assert!(g.play_with_move(m).is_ok());
        moves += 1;
    }
    assert_eq!(moves, 15);
    assert_eq!(stacks(&g), (vec![], vec![], vec![3, 2, 1, 0]));
}

#[test]
fn illegal_move_from_empty_peg_is_rejected() {
    let mut g = Game::new(2);
    let before = stacks(&g);
    let r = g.play_with_move(Move {
        start: ABC::B,
        end: ABC::A,
    });
    assert!(r.is_err());
    assert_eq!(stacks(&g), before);
}

#[test]
fn repeated_rejection_never_changes_state() {
    let mut g = Game::new(3);
    let illegal = Move {
        start: ABC::B,
        end: ABC::A,
    };
    let before = stacks(&g);
    for _ in 0..4 {
        assert!(g.play_with_move(illegal).is_err());
        assert_eq!(stacks(&g), before);
    }
}

#[test]
fn larger_disk_cannot_rest_on_smaller() {
    let mut g = Game::new(3);
    // Put the smallest disk on C, then try to drop the next disk onto it.
    assert!(g
        .play_with_move(Move {
            start: ABC::A,
            end: ABC::C
        })
        .is_ok());
    let before = stacks(&g);
    let r = g.play_with_move(Move {
        start: ABC::A,
        end: ABC::C,
    });
    assert!(r.is_err());
    assert_eq!(stacks(&g), before);
}

#[test]
fn degenerate_move_is_a_noop() {
    let mut g = Game::new(3);
    let before = stacks(&g);
    let r = g.play_with_move(Move {
        start: ABC::A,
        end: ABC::A,
    });
    assert!(r.is_ok());
    assert_eq!(stacks(&g), before);
}

#[test]
fn invariants_hold_along_playout() {
    let mut g = Game::new(5);
    loop {
        // Each stack is strictly decreasing from bottom to top, and the three
        // stacks together hold exactly the sizes 0..5, once each.
        let (a, b, c) = stacks(&g);
        for s in [&a, &b, &c] {
            for w in s.windows(2) {
                assert!(w[0] > w[1]);
            }
        }
        let mut all: Vec<usize> = Vec::new();
        all.extend(&a);
        all.extend(&b);
        all.extend(&c);
        all.sort();
        assert_eq!(all, vec![0, 1, 2, 3, 4]);
        if g.play().is_none() {
            break;
        }
    }
    assert_eq!(stacks(&g), (vec![], vec![], vec![4, 3, 2, 1, 0]));
}

#[test]
fn hint_route_on_fresh_board() {
    let g = Game::new(3);
    let r = g.hint().unwrap();
    assert_eq!(r.start(), ABC::A);
    assert_eq!(r.end(), ABC::C);
    assert_eq!(r.middle(), ABC::B);
    assert!(g.is_valid_route(r));
}

#[test]
fn validator_on_fresh_board() {
    let g = Game::new(3);
    let a_to_b = Route::try_from_move(Move {
        start: ABC::A,
        end: ABC::B,
    })
    .unwrap();
    let b_to_a = Route::try_from_move(Move {
        start: ABC::B,
        end: ABC::A,
    })
    .unwrap();
    assert!(g.is_valid_route(a_to_b));
    assert!(!g.is_valid_route(b_to_a));
}

#[test]
fn placement_rule() {
    let g = Game::new(1);
    assert!(!g.is_valid_placement(None, None));
    assert!(!g.is_valid_placement(None, Some(2)));
    assert!(g.is_valid_placement(Some(2), None));
    assert!(g.is_valid_placement(Some(1), Some(2)));
    assert!(g.is_valid_placement(Some(2), Some(2)));
    assert!(!g.is_valid_placement(Some(2), Some(1)));
}

#[test]
fn find_unit_reports_peg_and_blockage() {
    let g = Game::new(3);
    assert_eq!(g.find_unit(2), (ABC::A, true));
    assert_eq!(g.find_unit(1), (ABC::A, true));
    assert_eq!(g.find_unit(0), (ABC::A, false));
}

#[test]
fn index_of_finds_first_position() {
    assert_eq!(index_of(&vec![5, 3, 2], 3), Some(1));
    assert_eq!(index_of(&vec![5, 3, 2], 5), Some(0));
    assert_eq!(index_of(&vec![5, 3, 2], 7), None);
    assert_eq!(index_of(&vec![], 0), None);
}

#[test]
fn pair_rev_swaps_members() {
    assert_eq!(AB::A.rev(), AB::B);
    assert_eq!(AB::B.rev(), AB::A);
    assert_eq!(AC::A.rev(), AC::C);
    assert_eq!(AC::C.rev(), AC::A);
    assert_eq!(BC::B.rev(), BC::C);
    assert_eq!(BC::C.rev(), BC::B);
}

#[test]
fn route_carries_its_auxiliary_peg() {
    let r = Route::try_from_move(Move {
        start: ABC::A,
        end: ABC::C,
    })
    .unwrap();
    assert_eq!(r.start(), ABC::A);
    assert_eq!(r.middle(), ABC::B);
    assert_eq!(r.end(), ABC::C);
    assert_eq!(r.start_middle_end(), (ABC::A, ABC::B, ABC::C));
    assert_eq!(
        Move::from_route(r),
        Move {
            start: ABC::A,
            end: ABC::C
        }
    );
}

#[test]
fn degenerate_move_is_not_routable() {
    assert_eq!(
        Route::try_from_move(Move {
            start: ABC::B,
            end: ABC::B
        }),
        None
    );
}
