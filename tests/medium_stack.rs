use pathtracer::medium::{Frame, MediumStack, VACUUM_ID};

fn glass(id: i32) -> Frame<(f64, f64)> {
    Frame { trans_id: id, refractive: true, scattering: false, data: (1.5, 0.0) }
}

fn fog(id: i32) -> Frame<(f64, f64)> {
    Frame { trans_id: id, refractive: false, scattering: true, data: (1.0, 0.03) }
}

#[test]
fn new_stack_is_vacuum() {
    let s = MediumStack::new((1.0, 0.0));
    assert_eq!(s.depth(), 1);
    assert_eq!(s.current().trans_id, VACUUM_ID);
    assert!(!s.has_ior());
    assert!(!s.has_medium());
    assert!(!s.samples_free_path());
    assert!(s.is_into(0));
    assert!(!s.is_into(VACUUM_ID));
}

#[test]
fn enter_and_leave_glass() {
    let mut s = MediumStack::new((1.0, 0.0));
    assert!(s.enter_medium(glass(0)));
    assert_eq!(s.depth(), 2);
    assert!(s.has_ior());
    assert!(!s.is_into(0));
    assert!(!s.enter_medium(glass(0)));
    assert_eq!(s.depth(), 2);
    assert!(s.remove_medium(0));
    assert_eq!(s.depth(), 1);
    assert!(!s.has_ior());
    assert!(!s.remove_medium(0));
}

#[test]
fn fog_enables_free_paths_unless_refractive() {
    let mut s = MediumStack::new((1.0, 0.0));
    s.enter_medium(fog(2));
    assert!(s.has_medium());
    assert!(s.samples_free_path());
    assert_eq!(s.current().data, (1.0, 0.03));
    s.enter_medium(glass(0));
    assert!(!s.has_medium());
    assert!(!s.samples_free_path());
    s.remove_medium(0);
    assert!(s.samples_free_path());
}

#[test]
fn leave_removes_matching_frame_not_top() {
    let mut s = MediumStack::new((1.0, 0.0));
    s.enter_medium(fog(2));
    s.enter_medium(glass(0));
    assert!(s.remove_medium(2));
    assert_eq!(s.depth(), 2);
    assert_eq!(s.current().trans_id, 0);
    assert!(s.is_into(2));
}

#[test]
fn vacuum_frame_is_never_removed() {
    let mut s: MediumStack<(f64, f64)> = MediumStack::new((1.0, 0.0));
    assert!(!s.remove_medium(VACUUM_ID));
    assert_eq!(s.depth(), 1);
    assert_eq!(s.current().trans_id, VACUUM_ID);
}

#[test]
fn cross_toggles_membership() {
    let mut s = MediumStack::new((1.0, 0.0));
    assert!(s.cross(fog(4)));
    assert_eq!(s.depth(), 2);
    assert!(!s.cross(fog(4)));
    assert_eq!(s.depth(), 1);
    assert!(s.is_into(4));
}

#[test]
fn outer_refractive_skips_own_and_scattering_frames() {
    let mut s = MediumStack::new((1.0, 0.0));
    assert_eq!(s.outer_refractive(0), 0);
    s.enter_medium(glass(0));
    s.enter_medium(fog(2));
    assert_eq!(s.outer_refractive(5), 1);
    assert_eq!(s.outer_refractive(0), 0);
    s.enter_medium(Frame { trans_id: 3, refractive: true, scattering: false, data: (1.33, 0.0) });
    assert_eq!(s.outer_refractive(3), 1);
    assert_eq!(s.outer_refractive(7), 3);
    assert_eq!(s.frame(3).data, (1.33, 0.0));
}
