use r_vlr_util::scope::RevertGuard;

#[test]
fn revert_guard_restores_value() {
    let mut value = 1;
    {
        let mut guard = RevertGuard::new(&mut value, 2);
        assert_eq!(*guard.current(), 2);
        *guard.current_mut() = 3;
    }
    assert_eq!(value, 1);
}

#[test]
fn revert_guard_can_keep_the_new_value() {
    let mut value = String::from("old");
    {
        let guard = RevertGuard::new(&mut value, String::from("new"));
        guard.keep();
    }
    assert_eq!(value, "new");
}
