//! Lightning storm: deferment, bolt timers, end of storm and queued storms.

use vera20k::superweapon::lightning_storm::{
    far_enough, process, record_scatter_bolt, scatter_coordinate, start, LightningSettings,
    LightningStormState, QueuedLightningStorm, StormStep,
};

fn settings() -> LightningSettings {
    LightningSettings {
        deferment: 2,
        storm_duration: 5,
        hit_delay: 2,
        scatter_delay: 3,
    }
}

#[test]
fn storm_runs_through_deferment_bolts_and_end() {
    let mut active: Option<LightningStormState> = None;
    let mut queued: Option<QueuedLightningStorm> = None;
    assert_eq!(process(&mut active, &mut queued, settings()), StormStep::Idle);

    assert!(start(&mut active, &mut queued, settings(), 1, 40, 50));
    let st = active.expect("storm started");
    assert_eq!((st.last_bolt_rx, st.last_bolt_ry), (40, 50));
    assert_eq!(st.duration_remaining, 5);

    assert_eq!(process(&mut active, &mut queued, settings()), StormStep::Deferred);
    assert_eq!(process(&mut active, &mut queued, settings()), StormStep::Deferred);
    // Bolts: centre every 2 ticks, scatter every 3.
    assert_eq!(
        process(&mut active, &mut queued, settings()),
        StormStep::Strike { center: false, scatter: false }
    );
    assert_eq!(
        process(&mut active, &mut queued, settings()),
        StormStep::Strike { center: true, scatter: false }
    );
    assert_eq!(
        process(&mut active, &mut queued, settings()),
        StormStep::Strike { center: false, scatter: true }
    );
    record_scatter_bolt(&mut active, 43, 48);
    assert_eq!(active.map(|s| (s.last_bolt_rx, s.last_bolt_ry)), Some((43, 48)));
    assert_eq!(
        process(&mut active, &mut queued, settings()),
        StormStep::Strike { center: true, scatter: false }
    );
    assert_eq!(
        process(&mut active, &mut queued, settings()),
        StormStep::Ended { restarted: false }
    );
    assert!(active.is_none());
}

#[test]
fn second_launch_waits_for_the_first_storm() {
    let mut active: Option<LightningStormState> = None;
    let mut queued: Option<QueuedLightningStorm> = None;
    start(&mut active, &mut queued, settings(), 1, 40, 50);
    assert!(start(&mut active, &mut queued, settings(), 2, 10, 12));
    assert_eq!(active.map(|s| s.owner), Some(1));
    assert_eq!(
        queued,
        Some(QueuedLightningStorm { owner: 2, target_rx: 10, target_ry: 12 })
    );
    // Deferment of 2, then 4 ticks of storm, then the end.
    for _ in 0..6 {
        process(&mut active, &mut queued, settings());
    }
    assert_eq!(
        process(&mut active, &mut queued, settings()),
        StormStep::Ended { restarted: true }
    );
    assert!(queued.is_none());
    let st = active.expect("queued storm started");
    assert_eq!((st.owner, st.target_rx, st.target_ry), (2, 10, 12));
    assert_eq!(st.deferment_remaining, 2);
}

#[test]
fn scatter_candidates_clamp_and_keep_distance() {
    // Spread 3: draws 0..=6 map to offsets -3..=3.
    assert_eq!(scatter_coordinate(10, 0, 3), 7);
    assert_eq!(scatter_coordinate(10, 6, 3), 13);
    assert_eq!(scatter_coordinate(1, 0, 3), 0);
    assert!(far_enough(10, 10, 7, 10, 3));
    assert!(!far_enough(10, 10, 9, 9, 3));
    assert!(far_enough(10, 10, 10, 10, 0));
}
