use topological_peak_detection::{grow_regions, visit_position, Direction, Homology};

fn extents(h: &Homology) -> (usize, usize, usize) {
    (h.left_extent(), h.get_peak_idx(), h.right_extent())
}

#[test]
fn new_region_is_its_peak_alone() {
    let h = Homology::new(17);
    assert_eq!(extents(&h), (17, 17, 17));
}

#[test]
fn adjacency_of_a_region() {
    let mut h = Homology::new(5);
    h.extend_right();
    assert_eq!(h.is_adjacent(4), Direction::Left);
    assert_eq!(h.is_adjacent(7), Direction::Right);
    assert_eq!(h.is_adjacent(5), Direction::Neither);
    assert_eq!(h.is_adjacent(6), Direction::Neither);
    assert_eq!(h.is_adjacent(3), Direction::Neither);
    assert_eq!(h.is_adjacent(8), Direction::Neither);
    assert_eq!(h.is_adjacent(0), Direction::Neither);
}

#[test]
fn region_at_position_zero_has_no_left_neighbour() {
    let h = Homology::new(0);
    assert_eq!(h.is_adjacent(0), Direction::Neither);
    assert_eq!(h.is_adjacent(1), Direction::Right);
    assert_eq!(h.is_adjacent(usize::MAX), Direction::Neither);
}

#[test]
fn region_at_the_last_position_has_no_right_neighbour() {
    let h = Homology::new(usize::MAX);
    assert_eq!(h.is_adjacent(usize::MAX - 1), Direction::Left);
    assert_eq!(h.is_adjacent(0), Direction::Neither);
    assert_eq!(h.is_adjacent(usize::MAX), Direction::Neither);
}

#[test]
fn extending_moves_one_extent_by_one() {
    let mut h = Homology::new(3);
    h.extend_left();
    assert_eq!(extents(&h), (2, 3, 3));
    h.extend_right();
    assert_eq!(extents(&h), (2, 3, 4));
    h.extend_left();
    h.extend_left();
    assert_eq!(extents(&h), (0, 3, 4));
    assert_eq!(h.get_peak_idx(), 3);
}

#[test]
fn visit_founds_a_region_where_none_is_touched() {
    let mut regions: Vec<Homology> = Vec::new();
    visit_position(&mut regions, 4);
    visit_position(&mut regions, 8);
    visit_position(&mut regions, 6);
    let found: Vec<(usize, usize, usize)> = regions.iter().map(extents).collect();
    assert_eq!(found, vec![(4, 4, 4), (8, 8, 8), (6, 6, 6)]);
}

#[test]
fn visit_widens_the_oldest_touched_region_only() {
    let mut regions: Vec<Homology> = Vec::new();
    visit_position(&mut regions, 8);
    visit_position(&mut regions, 6);
    visit_position(&mut regions, 7);
    let found: Vec<(usize, usize, usize)> = regions.iter().map(extents).collect();
    assert_eq!(found, vec![(7, 8, 8), (6, 6, 6)]);

    let mut regions: Vec<Homology> = Vec::new();
    visit_position(&mut regions, 6);
    visit_position(&mut regions, 8);
    visit_position(&mut regions, 7);
    let found: Vec<(usize, usize, usize)> = regions.iter().map(extents).collect();
    assert_eq!(found, vec![(6, 6, 7), (8, 8, 8)]);
}

#[test]
fn grow_regions_visits_the_ranking_from_its_end() {
    let regions = grow_regions(&[0, 9, 10, 11, 1, 2, 6, 8, 3, 5, 4, 12, 7]);
    let found: Vec<(usize, usize, usize)> = regions.iter().map(extents).collect();
    assert_eq!(found, vec![(6, 7, 9), (10, 12, 12), (0, 4, 5)]);
}

#[test]
fn grow_regions_of_an_empty_ranking() {
    assert_eq!(grow_regions(&[]).len(), 0);
}

#[test]
fn grow_regions_of_a_ramp() {
    let up = grow_regions(&[0, 1, 2, 3]);
    assert_eq!(up.iter().map(extents).collect::<Vec<_>>(), vec![(0, 3, 3)]);
    let down = grow_regions(&[3, 2, 1, 0]);
    assert_eq!(down.iter().map(extents).collect::<Vec<_>>(), vec![(0, 0, 3)]);
}
