use battery_store::host::{elevate_self, is_admin, Config};

#[test]
fn default_config_values() {
    let c = Config::default();
    assert!(!c.auto_start);
    assert!(c.start_minimize);
    assert_eq!(c.ui_update, 2);
    assert_eq!(c.service_update, 1);
    assert!(!c.record_battery_history);
}

#[test]
fn no_privilege_model_means_no_elevation() {
    assert!(!is_admin());
    elevate_self();
    assert!(!is_admin());
}
