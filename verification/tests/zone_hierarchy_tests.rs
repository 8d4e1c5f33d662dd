//! Super-zone connectivity over the zone adjacency graph.

use vera20k::pathfinding::zone_hierarchy::SuperZoneMap;
use vera20k::pathfinding::zone_map::{ZoneAdjacency, ZoneId, ZONE_INVALID};

fn adj_from_edges(zone_count: u16, edges: &[(ZoneId, ZoneId)]) -> ZoneAdjacency {
    let mut neighbors: Vec<Vec<ZoneId>> = vec![Vec::new(); zone_count as usize + 1];
    for &(a, b) in edges {
        neighbors[a as usize].push(b);
        neighbors[b as usize].push(a);
    }
    for list in &mut neighbors {
        list.sort_unstable();
        list.dedup();
    }
    ZoneAdjacency::new(neighbors)
}

#[test]
fn single_zone_connected_to_self() {
    let adj = adj_from_edges(1, &[]);
    let sz = SuperZoneMap::from_adjacency(&adj, 1);
    assert!(sz.are_connected(1, 1));
}

#[test]
fn two_adjacent_zones_connected() {
    let adj = adj_from_edges(2, &[(1, 2)]);
    let sz = SuperZoneMap::from_adjacency(&adj, 2);
    assert!(sz.are_connected(1, 2));
}

#[test]
fn two_isolated_zones_not_connected() {
    let adj = adj_from_edges(2, &[]);
    let sz = SuperZoneMap::from_adjacency(&adj, 2);
    assert!(!sz.are_connected(1, 2));
}

#[test]
fn transitive_connectivity() {
    // A-B, B-C → A and C are connected via B.
    let adj = adj_from_edges(3, &[(1, 2), (2, 3)]);
    let sz = SuperZoneMap::from_adjacency(&adj, 3);
    assert!(sz.are_connected(1, 3));
    assert!(sz.are_connected(1, 2));
    assert!(sz.are_connected(2, 3));
}

#[test]
fn two_components() {
    // Zones 1-2 connected, zone 3 isolated.
    let adj = adj_from_edges(3, &[(1, 2)]);
    let sz = SuperZoneMap::from_adjacency(&adj, 3);
    assert!(sz.are_connected(1, 2));
    assert!(!sz.are_connected(1, 3));
    assert!(!sz.are_connected(2, 3));
}

#[test]
fn invalid_zone_never_connected() {
    let adj = adj_from_edges(2, &[(1, 2)]);
    let sz = SuperZoneMap::from_adjacency(&adj, 2);
    assert!(!sz.are_connected(ZONE_INVALID, 1));
    assert!(!sz.are_connected(1, ZONE_INVALID));
}
