use std::collections::HashMap;

use evefrontier_lib::output::{step_methods, RouteEndpoint, RouteOutputKind, RouteRenderMode, StepMethod};
use evefrontier_lib::Error;
use evefrontier_lib::ship::normalize_name;

#[test]
fn endpoint_display_names() {
    let named = RouteEndpoint { id: 1, name: Some("Nod".to_string()) };
    assert_eq!(named.display_name(), "Nod");
    let unnamed = RouteEndpoint { id: 2, name: None };
    assert_eq!(unnamed.display_name(), "<unknown>");
    assert_ne!(RouteRenderMode::PlainText, RouteRenderMode::InGameNote);
    assert_eq!(RouteOutputKind::Route, RouteOutputKind::Route);
}

#[test]
fn ship_names_are_trimmed_and_lowercased() {
    assert_eq!(normalize_name("  Reflex \t"), "reflex");
    assert_eq!(normalize_name("ÉCLAIR"), "éclair");
    assert_eq!(normalize_name(""), "");
}

#[test]
fn summary_rejects_empty_plans() {
    let gates: HashMap<i64, Vec<i64>> = HashMap::new();
    let err = step_methods(&gates, &Vec::new()).expect_err("empty plans are rejected");
    assert_eq!(err, Error::EmptyRoutePlan);
}

#[test]
fn steps_are_reached_by_gate_or_jump() {
    let mut gates: HashMap<i64, Vec<i64>> = HashMap::new();
    gates.insert(1, vec![2, 5]);
    gates.insert(2, vec![1]);
    let methods = step_methods(&gates, &vec![1, 2, 3, 1]).expect("route");
    assert_eq!(methods, vec![None, Some(StepMethod::Gate), Some(StepMethod::Jump), Some(StepMethod::Jump)]);
    assert_eq!(StepMethod::Gate.as_str(), "gate");
    assert_eq!(StepMethod::Jump.as_str(), "jump");
    assert_eq!(step_methods(&gates, &vec![7]).expect("single step"), vec![None]);
}
