use verlet_particles::{substep_count, HEAVY_POPULATION};

#[test]
fn substeps_drop_for_heavy_populations() {
    assert_eq!(substep_count(0), 4);
    assert_eq!(substep_count(1), 4);
    assert_eq!(substep_count(80000), 4);
    assert_eq!(substep_count(80001), 2);
    assert_eq!(substep_count(HEAVY_POPULATION + 1), 2);
    assert_eq!(substep_count(usize::MAX), 2);
}
