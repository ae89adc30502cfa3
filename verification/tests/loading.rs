use libmep::plugin::{LoadError, LoadOutcome, Plugin, PluginManager, PluginType};
use libmep::sdl2_input;

#[test]
fn zero_modules_is_not_an_error() {
    let mut manager: PluginManager<u32, u32> = PluginManager::new();
    let loaded = manager.load_all_plugins(Vec::new()).unwrap();
    assert_eq!(loaded, 0);
    assert!(manager.plugins.is_empty());
}

#[test]
fn all_loaded_modules_are_kept_in_order() {
    let mut manager: PluginManager<u32, u32> = PluginManager::new();
    let outcomes = vec![
        LoadOutcome::Loaded { handle: 7, module: 70 },
        LoadOutcome::Loaded { handle: 8, module: 80 },
        LoadOutcome::Loaded { handle: 9, module: 90 },
    ];
    let loaded = manager.load_all_plugins(outcomes).unwrap();
    assert_eq!(loaded, 3);
    assert_eq!(manager.plugins, vec![7, 8, 9]);
}

#[test]
fn invalid_module_is_a_fatal_load_error() {
    let mut manager: PluginManager<u32, u32> = PluginManager::new();
    let outcomes = vec![LoadOutcome::LoadFailed { message: "not a module".to_string() }];
    match manager.load_all_plugins(outcomes) {
        Err(LoadError::ModuleLoad { message }) => assert_eq!(message, "not a module"),
        other => panic!("expected a module-load error, got {:?}", other.is_ok()),
    }
    assert!(manager.plugins.is_empty());
}

#[test]
fn missing_symbol_adds_no_partial_entry() {
    let mut manager: PluginManager<u32, u32> = PluginManager::new();
    let outcomes = vec![
        LoadOutcome::Loaded { handle: 1, module: 10 },
        LoadOutcome::SymbolMissing { message: "no entry point".to_string() },
        LoadOutcome::Loaded { handle: 2, module: 20 },
    ];
    match manager.load_all_plugins(outcomes) {
        Err(LoadError::SymbolMissing { message }) => assert_eq!(message, "no entry point"),
        other => panic!("expected a missing-symbol error, got {:?}", other.is_ok()),
    }
    assert!(manager.plugins.is_empty());
}

#[test]
fn manager_accumulates_over_passes() {
    let mut manager: PluginManager<u32, u32> = PluginManager::new();
    manager
        .load_all_plugins(vec![LoadOutcome::Loaded { handle: 1, module: 10 }])
        .unwrap();
    manager
        .load_all_plugins(vec![LoadOutcome::Loaded { handle: 2, module: 20 }])
        .unwrap();
    assert_eq!(manager.plugins, vec![1, 2]);
}

#[test]
fn input_plugin_reports_input_capability() {
    let p = sdl2_input::mep_get_plugin();
    let info = p.get_plugin_info();
    assert_eq!(info.plugin_type, PluginType::InputPlugin);
    assert_eq!(info.plugin_name, "SDL2 Input");
}

#[test]
fn input_plugin_init_is_a_no_op() {
    let mut p = sdl2_input::mep_get_plugin();
    p.init();
    assert_eq!(p.get_plugin_info().plugin_type, PluginType::InputPlugin);
}
