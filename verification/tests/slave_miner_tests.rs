//! Slave harvester cargo and harvest state.

use vera20k::slave_miner::{
    check_scan_correction, manhattan_distance, CargoBale, ResourceType, SlaveAction,
    SlaveHarvestState, SlaveHarvester, SlaveView, SLAVE_HARVEST_RATE_TICKS,
};

#[test]
fn slave_harvester_capacity_and_value() {
    let mut sh = SlaveHarvester::new(100, 4);
    assert!(!sh.is_full());
    assert_eq!(sh.cargo_value(), 0);

    for _ in 0..4 {
        sh.cargo.push(CargoBale {
            resource_type: ResourceType::Ore,
            value: 25,
        });
    }
    assert!(sh.is_full());
    assert_eq!(sh.cargo_value(), 100);
}

#[test]
fn slave_harvester_state_transitions() {
    let sh = SlaveHarvester::new(1, 4);
    assert_eq!(sh.state, SlaveHarvestState::SearchOre);
}

#[test]
fn manhattan_distance_basic() {
    assert_eq!(manhattan_distance(10, 10, 13, 14), 7);
    assert_eq!(manhattan_distance(5, 5, 5, 5), 0);
    assert_eq!(manhattan_distance(0, 0, 100, 50), 150);
}

#[test]
fn scan_correction_returns_none_without_entities() {
    // With no entities, check_scan_correction returns None (master not found).
    assert!(check_scan_correction(None, None, None, 3).is_none());
}

#[test]
fn scan_correction_moves_to_clearly_closer_ore() {
    // Short-scan ore 6 cells away, long-scan ore 2 cells away: 4 >= 3.
    assert_eq!(
        check_scan_correction(Some((10, 10)), Some((16, 10)), Some((11, 11)), 3),
        Some((11, 11))
    );
    // Improvement of exactly the correction still moves.
    assert_eq!(
        check_scan_correction(Some((10, 10)), Some((15, 10)), Some((12, 10)), 3),
        Some((12, 10))
    );
}

#[test]
fn scan_correction_stays_for_small_or_no_improvement() {
    // Improvement of 2 cells is below the correction of 3.
    assert_eq!(
        check_scan_correction(Some((10, 10)), Some((14, 10)), Some((12, 10)), 3),
        None
    );
    // Same distance: no move, even with no correction required.
    assert_eq!(
        check_scan_correction(Some((10, 10)), Some((12, 10)), Some((10, 12)), 0),
        None
    );
    // No ore in the short scan, or none in the long scan.
    assert_eq!(check_scan_correction(Some((10, 10)), None, Some((11, 10)), 0), None);
    assert_eq!(check_scan_correction(Some((10, 10)), Some((20, 10)), None, 0), None);
    // A negative correction counts as zero.
    assert_eq!(
        check_scan_correction(Some((10, 10)), Some((12, 10)), Some((11, 10)), -5),
        Some((11, 10))
    );
}

fn view(cell: (u16, u16), master: Option<(u16, u16)>, ore: Option<(u16, u16)>, has_ore: bool) -> SlaveView {
    SlaveView {
        cell,
        master_cell: master,
        ore_nearby: ore,
        target_has_ore: has_ore,
    }
}

fn bale(value: u16) -> CargoBale {
    CargoBale {
        resource_type: ResourceType::Ore,
        value,
    }
}

#[test]
fn slave_goes_idle_when_master_is_gone() {
    let mut sh = SlaveHarvester::new(1, 4);
    let action = sh.step(view((5, 5), None, Some((6, 6)), true));
    assert_eq!(action, SlaveAction::Wait);
    assert_eq!(sh.state, SlaveHarvestState::Idle);
    assert_eq!(sh.target_cell, None);
}

#[test]
fn slave_full_harvest_cycle() {
    let master = Some((10, 10));
    let mut sh = SlaveHarvester::new(1, 2);

    // Search finds ore and walks there.
    assert_eq!(sh.step(view((10, 10), master, Some((14, 10)), true)), SlaveAction::Wait);
    assert_eq!(sh.state, SlaveHarvestState::MoveToOre);
    assert_eq!(sh.target_cell, Some((14, 10)));

    // Still two cells away: keeps walking.
    sh.step(view((12, 10), master, None, true));
    assert_eq!(sh.state, SlaveHarvestState::MoveToOre);

    // Adjacent: starts harvesting with the timer reset.
    sh.harvest_timer = 9;
    sh.step(view((13, 11), master, None, true));
    assert_eq!(sh.state, SlaveHarvestState::Harvest);
    assert_eq!(sh.harvest_timer, 0);

    // Timer out: asks for a bale.
    let action = sh.step(view((13, 11), master, None, true));
    assert_eq!(action, SlaveAction::ExtractBale { cell: (14, 10) });
    sh.finish_harvest(Some(bale(25)));
    assert_eq!(sh.state, SlaveHarvestState::Harvest);
    assert_eq!(sh.harvest_timer, SLAVE_HARVEST_RATE_TICKS);

    // Timer counts down.
    assert_eq!(sh.step(view((13, 11), master, None, true)), SlaveAction::Wait);
    assert_eq!(sh.harvest_timer, SLAVE_HARVEST_RATE_TICKS - 1);

    // Second bale fills the slave.
    sh.harvest_timer = 0;
    sh.step(view((13, 11), master, None, true));
    sh.finish_harvest(Some(bale(25)));
    assert!(sh.is_full());
    assert_eq!(sh.state, SlaveHarvestState::ReturnToMaster);

    // Three cells from the master: keeps walking; two cells: deposits.
    sh.step(view((13, 10), master, None, true));
    assert_eq!(sh.state, SlaveHarvestState::ReturnToMaster);
    sh.step(view((12, 8), master, None, true));
    assert_eq!(sh.state, SlaveHarvestState::Deposit);

    // One bale per tick, then back to searching.
    assert_eq!(sh.step(view((12, 8), master, None, true)), SlaveAction::Deposit { bale: bale(25) });
    assert_eq!(sh.step(view((12, 8), master, None, true)), SlaveAction::Deposit { bale: bale(25) });
    assert_eq!(sh.cargo_value(), 0);
    assert_eq!(sh.step(view((12, 8), master, None, true)), SlaveAction::Wait);
    assert_eq!(sh.state, SlaveHarvestState::SearchOre);
}

#[test]
fn slave_leaves_depleted_cell() {
    let master = Some((10, 10));
    let mut sh = SlaveHarvester::new(1, 4);
    sh.state = SlaveHarvestState::Harvest;
    sh.target_cell = Some((12, 12));
    sh.step(view((12, 12), master, None, false));
    assert_eq!(sh.state, SlaveHarvestState::SearchOre);
    assert_eq!(sh.target_cell, None);

    sh.state = SlaveHarvestState::Harvest;
    sh.target_cell = Some((12, 12));
    sh.cargo.push(bale(50));
    sh.step(view((12, 12), master, None, false));
    assert_eq!(sh.state, SlaveHarvestState::ReturnToMaster);
}

#[test]
fn searching_slave_without_ore_goes_idle_and_wakes_on_ore() {
    let master = Some((10, 10));
    let mut sh = SlaveHarvester::new(1, 4);
    sh.step(view((10, 10), master, None, true));
    assert_eq!(sh.state, SlaveHarvestState::Idle);
    sh.step(view((10, 10), master, None, true));
    assert_eq!(sh.state, SlaveHarvestState::Idle);
    sh.step(view((10, 10), master, Some((3, 4)), true));
    assert_eq!(sh.state, SlaveHarvestState::MoveToOre);
    assert_eq!(sh.target_cell, Some((3, 4)));
}
