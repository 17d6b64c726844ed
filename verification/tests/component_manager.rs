use jokolay::component_models::{default_component_result, JokolayPlugin};
use jokolay::components::{has_unique_elements, ComponentDecl, ComponentManager, RouteError};

fn names(items: &[&str]) -> Vec<String> {
    items.iter().map(|s| s.to_string()).collect()
}

fn decl(peers: &[&str], requirements: &[&str], notify: &[&str], accept: bool) -> ComponentDecl {
    ComponentDecl {
        peers: names(peers),
        requirements: names(requirements),
        notify: names(notify),
        accept_notifications: accept,
    }
}

#[test]
fn unique_elements_are_detected() {
    assert!(has_unique_elements(&names(&["a", "b", "c"])));
    assert!(!has_unique_elements(&names(&["a", "b", "a"])));
    assert!(has_unique_elements(&names(&[])));
}

#[test]
fn register_refuses_a_repeated_relation() {
    let mut manager = ComponentManager::new();
    let err = manager.register("ui", decl(&["back"], &["back"], &[], false)).unwrap_err();
    assert_eq!(err, "Service ui has duplicate elements. Each name can only appear at one place");
}

#[test]
fn routes_follow_requirements() {
    let mut manager = ComponentManager::new();
    manager.register("c", decl(&[], &["b"], &[], false)).unwrap();
    manager.register("b", decl(&[], &["a"], &[], false)).unwrap();
    manager.register("a", decl(&[], &[], &[], false)).unwrap();
    let plan = manager.build_routes().unwrap();
    assert_eq!(plan.invocation_order, names(&["a", "b", "c"]));
}

#[test]
fn routes_refuse_one_sided_peers() {
    let mut manager = ComponentManager::new();
    manager.register("ui", decl(&["back"], &[], &[], false)).unwrap();
    manager.register("back", decl(&[], &[], &[], false)).unwrap();
    match manager.build_routes() {
        Err(RouteError::PeerMismatch { component, peer }) => {
            assert_eq!(component, "ui");
            assert_eq!(peer, "back");
        }
        _ => panic!("expected a peer mismatch"),
    }
}

#[test]
fn routes_accept_mutual_peers() {
    let mut manager = ComponentManager::new();
    manager.register("ui", decl(&["back"], &[], &[], false)).unwrap();
    manager.register("back", decl(&["ui"], &[], &[], true)).unwrap();
    let plan = manager.build_routes().unwrap();
    assert_eq!(plan.invocation_order.len(), 2);
}

#[test]
fn routes_report_missing_components() {
    let mut manager = ComponentManager::new();
    manager.register("ui", decl(&[], &["back:mumble_link"], &["nowhere"], false)).unwrap();
    match manager.build_routes() {
        Err(RouteError::Missing(mut missing)) => {
            missing.sort();
            assert_eq!(missing, names(&["back:mumble_link", "nowhere"]));
        }
        _ => panic!("expected missing components"),
    }
}

#[test]
fn routes_report_requirement_cycles() {
    let mut manager = ComponentManager::new();
    manager.register("a", decl(&[], &["b"], &[], false)).unwrap();
    manager.register("b", decl(&[], &["a"], &[], false)).unwrap();
    manager.register("c", decl(&[], &["a"], &[], false)).unwrap();
    manager.register("d", decl(&[], &[], &[], false)).unwrap();
    match manager.build_routes() {
        Err(RouteError::Cycle(mut blocked)) => {
            blocked.sort();
            assert_eq!(blocked, names(&["a", "b", "c"]));
        }
        _ => panic!("expected a cycle"),
    }
}

#[test]
fn self_requirement_is_not_a_cycle() {
    let mut manager = ComponentManager::new();
    manager.register("a", decl(&[], &["a"], &[], false)).unwrap();
    let plan = manager.build_routes().unwrap();
    assert_eq!(plan.invocation_order, names(&["a"]));
}

#[test]
fn registering_again_replaces_the_component() {
    let mut manager = ComponentManager::new();
    manager.register("a", decl(&[], &["b"], &[], false)).unwrap();
    manager.register("a", decl(&[], &[], &[], false)).unwrap();
    let plan = manager.build_routes().unwrap();
    assert_eq!(plan.invocation_order, names(&["a"]));
}

#[test]
fn plugin_requires_mumble_link() {
    let plugin = JokolayPlugin {};
    let d = plugin.decl();
    assert_eq!(d.requirements, names(&["back:mumble_link"]));
    assert!(d.peers.is_empty() && d.notify.is_empty() && !d.accept_notifications);
    let mut manager = ComponentManager::new();
    manager.register("plugin", d).unwrap();
    manager.register("back:mumble_link", decl(&[], &[], &[], false)).unwrap();
    let plan = manager.build_routes().unwrap();
    assert_eq!(plan.invocation_order, names(&["back:mumble_link", "plugin"]));
}

#[test]
fn default_result_is_empty() {
    assert!(default_component_result().bytes().is_empty());
    let mut plugin = JokolayPlugin {};
    assert!(plugin.tick().bytes().is_empty());
}

#[test]
fn routes_bind_a_channel_per_relation() {
    let mut manager = ComponentManager::new();
    manager.register("ui", decl(&["back"], &["link"], &["render", "log"], false)).unwrap();
    manager.register("back", decl(&["ui"], &[], &[], false)).unwrap();
    manager.register("link", decl(&[], &[], &[], false)).unwrap();
    manager.register("render", decl(&[], &[], &[], true)).unwrap();
    manager.register("log", decl(&[], &[], &[], false)).unwrap();
    let plan = manager.build_routes().unwrap();
    let triples = |b: &Vec<jokolay::components::RouteBinding>| -> Vec<(String, usize, String)> {
        b.iter().map(|x| (x.component.clone(), x.relation_id, x.other.clone())).collect()
    };
    assert_eq!(triples(&plan.notify_channels), vec![("ui".to_string(), 1, "render".to_string())]);
    let mut peers = triples(&plan.peer_channels);
    peers.sort();
    assert_eq!(peers, vec![("back".to_string(), 0, "ui".to_string()), ("ui".to_string(), 0, "back".to_string())]);
    assert_eq!(triples(&plan.requirement_channels), vec![("ui".to_string(), 3, "link".to_string())]);
}
