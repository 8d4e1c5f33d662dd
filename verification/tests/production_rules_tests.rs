//! Production arithmetic: sell refunds and survivors, factory exits, build
//! limits and build-time estimates.

use vera20k::production::sell::{
    health_percent, sell_refund_for_building, sell_survivor_limit, sell_survivor_positions, Health,
};
use vera20k::production::spawn::{
    add_cell_offset, exit_candidates_around, foundation_perimeter_offsets, lepton_to_cell,
    preferred_exit_offsets, FactoryExit,
};
use vera20k::production::tech::{effective_build_limit, estimated_real_time_ms};

#[test]
fn health_percent_rounds_down_and_caps() {
    assert_eq!(health_percent(50, 100), 50);
    assert_eq!(health_percent(1, 3), 33);
    assert_eq!(health_percent(300, 200), 100);
    assert_eq!(health_percent(0, 100), 0);
    assert_eq!(health_percent(5, 0), 100);
}

#[test]
fn sell_refund_is_half_cost_scaled_by_health() {
    assert_eq!(sell_refund_for_building(1000, None), 500);
    assert_eq!(sell_refund_for_building(1000, Some(Health { current: 50, max: 100 })), 250);
    assert_eq!(sell_refund_for_building(2000, Some(Health { current: 300, max: 600 })), 500);
    assert_eq!(sell_refund_for_building(999, Some(Health { current: 1, max: 3 })), 164);
    assert_eq!(sell_refund_for_building(-5, None), 0);
}

#[test]
fn sell_survivors_follow_refund_and_divisor() {
    // Refund 500, divisor 100: five survivors.
    assert_eq!(sell_survivor_limit(true, 1000, None, 100), 5);
    // Uncrewed buildings release nobody.
    assert_eq!(sell_survivor_limit(false, 1000, None, 100), 0);
    // Dead buildings refund nothing.
    assert_eq!(sell_survivor_limit(true, 1000, Some(Health { current: 0, max: 100 }), 100), 0);
    // A divisor below 1 counts as 1.
    assert_eq!(sell_survivor_limit(true, 10, None, 0), 5);
    assert_eq!(sell_survivor_limit(true, 10, None, -3), 5);
}

#[test]
fn sell_survivor_positions_ring_sorted_from_far_corner() {
    assert_eq!(
        sell_survivor_positions(10, 10, 2, 2),
        vec![
            (12, 11),
            (11, 12),
            (12, 10),
            (10, 12),
            (12, 12),
            (11, 9),
            (9, 11),
            (10, 9),
            (12, 9),
            (9, 10),
            (9, 12),
            (9, 9),
        ]
    );
}

#[test]
fn sell_survivor_positions_clip_at_map_edge() {
    assert_eq!(sell_survivor_positions(0, 0, 1, 1), vec![(1, 0), (0, 1), (1, 1)]);
    assert_eq!(sell_survivor_positions(5, 3, 3, 1).len(), 12);
    assert_eq!(sell_survivor_positions(5, 3, 3, 1)[0], (7, 2));
}

#[test]
fn lepton_offsets_round_to_nearest_cell() {
    let cases: [(i32, i16); 12] = [
        (0, 0),
        (127, 0),
        (128, 1),
        (255, 1),
        (256, 1),
        (383, 1),
        (384, 2),
        (-127, 0),
        (-128, -1),
        (-129, -1),
        (-384, -2),
        (-385, -2),
    ];
    for (leptons, cell) in cases {
        assert_eq!(lepton_to_cell(leptons), cell, "leptons {}", leptons);
    }
}

#[test]
fn exit_candidates_start_with_primary_cell() {
    assert_eq!(
        exit_candidates_around(3, -1),
        vec![(3, -1), (4, -1), (2, -1), (3, 0), (3, -2), (4, 0), (2, 0), (4, -2), (2, -2)]
    );
}

#[test]
fn perimeter_offsets_bottom_edge_first() {
    assert_eq!(
        foundation_perimeter_offsets(2, 2),
        vec![
            (0, 2),
            (1, 2),
            (2, 0),
            (2, 1),
            (0, -1),
            (1, -1),
            (-1, 0),
            (-1, 1),
            (2, 2),
            (-1, -1),
            (2, -1),
            (-1, 2),
        ]
    );
    assert_eq!(foundation_perimeter_offsets(0, 0), vec![(0, 0), (-1, -1), (0, -1), (-1, 0)]);
}

#[test]
fn preferred_exits_use_exit_coord_then_foundation() {
    let with_coord = FactoryExit {
        exit_coord: Some((384, -128, 0)),
        foundation: String::from("3x3"),
    };
    assert_eq!(preferred_exit_offsets(Some(&with_coord)), exit_candidates_around(2, -1));

    let without = FactoryExit {
        exit_coord: None,
        foundation: String::from("3x2"),
    };
    assert_eq!(preferred_exit_offsets(Some(&without)), foundation_perimeter_offsets(3, 2));

    assert_eq!(preferred_exit_offsets(None), foundation_perimeter_offsets(2, 2));
}

#[test]
fn cell_offsets_stay_on_the_map() {
    assert_eq!(add_cell_offset(10, 10, -3, 2), Some((7, 12)));
    assert_eq!(add_cell_offset(2, 10, -3, 0), None);
    assert_eq!(add_cell_offset(10, 0, 0, -1), None);
    assert_eq!(add_cell_offset(0, 0, 0, 0), Some((0, 0)));
}

#[test]
fn build_limit_zero_means_unlimited() {
    assert_eq!(effective_build_limit(0), None);
    assert_eq!(effective_build_limit(3), Some(3));
    assert_eq!(effective_build_limit(-2), Some(2));
    assert_eq!(effective_build_limit(i32::MIN), Some(2_147_483_648));
}

#[test]
fn estimated_time_rounds_up_and_saturates() {
    assert_eq!(estimated_real_time_ms(100, 1_000_000), 6_600);
    assert_eq!(estimated_real_time_ms(100, 500_000), 13_200);
    assert_eq!(estimated_real_time_ms(1, 3), 22_000_000);
    assert_eq!(estimated_real_time_ms(0, 5), 0);
    assert_eq!(estimated_real_time_ms(4_000_000_000, 1), u32::MAX);
    // A zero rate counts as 1 part per million.
    assert_eq!(estimated_real_time_ms(1, 0), 66_000_000);
}
