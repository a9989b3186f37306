use std::collections::BTreeMap;
use zclip_core::keymap::{
    action_by_name, action_name, action_names, emacs_preset, resolve_keymap, split_key_spec,
    vi_preset, CopyModeAction,
};
use zclip_core::motion::Motion;

fn config(pairs: &[(&str, &str)]) -> BTreeMap<String, String> {
    pairs
        .iter()
        .map(|(k, v)| ((*k).to_string(), (*v).to_string()))
        .collect()
}

fn spec_for(bindings: &[(CopyModeAction, String)], action: CopyModeAction) -> &str {
    bindings
        .iter()
        .find(|(a, _)| *a == action)
        .map(|(_, spec)| spec.as_str())
        .unwrap_or_else(|| panic!("no binding for {action:?}"))
}

#[test]
fn every_action_name_round_trips() {
    for (name, action) in action_names().iter() {
        assert_eq!(
            action_by_name(name),
            Some(*action),
            "action_by_name({name})"
        );
        assert_eq!(action_name(*action), Some(*name), "action_name({action:?})");
    }
}

#[test]
fn every_preset_binding_is_in_the_vocabulary() {
    // Guards against a preset entry silently referring to an action that
    // no `key_<action>` config key could ever reach.
    let vi = vi_preset();
    let emacs = emacs_preset();
    for (action, _) in vi.iter().chain(emacs.iter()) {
        assert!(
            action_name(*action).is_some(),
            "{action:?} has no vocabulary name"
        );
    }
}

#[test]
fn absent_keymap_defaults_to_vi() {
    let (bindings, warnings) = resolve_keymap(&config(&[]));
    assert!(warnings.is_empty());
    assert_eq!(
        spec_for(&bindings, CopyModeAction::Motion(Motion::Down)),
        "j, Down"
    );
}

#[test]
fn keymap_emacs_selects_the_emacs_table() {
    let (bindings, warnings) = resolve_keymap(&config(&[("keymap", "emacs")]));
    assert!(warnings.is_empty());
    assert_eq!(
        spec_for(&bindings, CopyModeAction::Motion(Motion::Down)),
        "Ctrl n, Down"
    );
}

#[test]
fn unknown_keymap_value_falls_back_to_vi_and_warns() {
    let (bindings, warnings) = resolve_keymap(&config(&[("keymap", "dvorak")]));
    assert_eq!(
        spec_for(&bindings, CopyModeAction::Motion(Motion::Down)),
        "j, Down",
        "must fall back to vi"
    );
    assert_eq!(warnings.len(), 1);
    assert!(warnings[0].contains("dvorak"), "must name the bad value");
}

#[test]
fn key_override_replaces_the_preset_spec_rather_than_adding_to_it() {
    let (bindings, warnings) = resolve_keymap(&config(&[("key_yank", "Y")]));
    assert!(warnings.is_empty());
    assert_eq!(
        spec_for(&bindings, CopyModeAction::Yank),
        "Y",
        "moving yank off 'y' must not leave 'y' still bound"
    );
}

#[test]
fn key_override_leaves_every_other_action_at_its_preset_binding() {
    let (bindings, _warnings) = resolve_keymap(&config(&[("key_yank", "Y")]));
    assert_eq!(
        spec_for(&bindings, CopyModeAction::Motion(Motion::Down)),
        "j, Down"
    );
    assert_eq!(spec_for(&bindings, CopyModeAction::Cancel), "Esc");
}

#[test]
fn unknown_key_action_warns_and_is_skipped() {
    let (bindings, warnings) = resolve_keymap(&config(&[("key_frobnicate", "Z")]));
    assert_eq!(warnings.len(), 1);
    assert!(warnings[0].contains("frobnicate"), "must name the offender");
    assert!(
        bindings.iter().all(|(_, spec)| spec != "Z"),
        "an unrecognised action must not appear in the output"
    );
}

#[test]
fn split_key_spec_handles_a_two_key_comma_list() {
    assert_eq!(
        split_key_spec("y, Enter"),
        vec!["y".to_string(), "Enter".to_string()]
    );
}

#[test]
fn split_key_spec_handles_a_single_key() {
    assert_eq!(split_key_spec("y"), vec!["y".to_string()]);
}

#[test]
fn split_key_spec_trims_ragged_whitespace() {
    assert_eq!(
        split_key_spec("  y  ,   Enter   ,Ctrl d "),
        vec!["y".to_string(), "Enter".to_string(), "Ctrl d".to_string()]
    );
}

#[test]
fn split_key_spec_on_empty_string_is_empty() {
    assert!(split_key_spec("").is_empty());
}

#[test]
fn split_key_spec_drops_empty_parts_from_stray_commas() {
    assert_eq!(
        split_key_spec("y,,Enter"),
        vec!["y".to_string(), "Enter".to_string()]
    );
    assert_eq!(split_key_spec(",,"), Vec::<String>::new());
}
