use rkl::command::{get_kub_command, select_commands, Command};
use rkl::manager::{Args, Manager, Resolution};
use rkl::pod::{parse_pod_line, PodInfo};
use rkl::resolve::{exact_candidates, fuzzy_candidates, get_candidate_pod};

const KUB_CTL: &str = "kubectl -s https://127.0.0.1:6443 --certificate-authority=/srv/kubernetes/ca.pem --client-certificate=/srv/kubernetes/admin.pem  --client-key=/srv/kubernetes/admin-key.pem";

fn pod(name: &str) -> PodInfo {
    PodInfo {
        name: name.to_string(),
        ready: "1/1".to_string(),
        status: "Running".to_string(),
        restarts: "0".to_string(),
        age: "9d".to_string(),
        ip: "172.26.0.124".to_string(),
        node: "kg-node43".to_string(),
        nominated_node: "<none>".to_string(),
        readiness_gates: "<none>".to_string(),
    }
}

const FIXTURE_NAMES: [&str; 15] = [
    "sophon-apimanager-sophon2-58f4b7965-n99hz",
    "sophon-approval-sophon2-7748d4b87b-rt8zr",
    "sophon-audit-sophon2-654889f8c-g8xjc",
    "sophon-base-sophon2-557b9f49d4-xf95j",
    "sophon-gateway-sophon2-6dbf875495-dckc4",
    "sophon-jobmanager-sophon2-5f4df546f6-pld27",
    "sophon-kg-sophon2-bf9769d97-4hqgv",
    "sophon-notebook-sophon2-57f5c77786-8lpkw",
    "sophon-notification-sophon2-6bc6b754ff-59nbc",
    "sophon-resource-sophon2-5fc7f9dcb7-j7srl",
    "sophon-retrieve-sophon2-f5789bdb4-r7qcg",
    "sophon-session-sophon2-58cd56dbf9-slcjp",
    "sophon-share-sophon2-7b5795b4d4-gcqwv",
    "sophon-ui-sophon2-79c997dd8c-vkths",
    "sophon-user-sophon2-6586dd74c4-r4ndp",
];

fn fixture_pods() -> Vec<PodInfo> {
    FIXTURE_NAMES.iter().map(|n| pod(n)).collect()
}

#[test]
fn test_parse_pod_line_well_formed() {
    let line = "sophon-base-sophon2-557b9f49d4-xf95j  1/1  Running  0  9d  172.26.0.124  kg-node43  <none>  <none>";
    let p = parse_pod_line(line).ok().unwrap();
    assert_eq!(p.name, "sophon-base-sophon2-557b9f49d4-xf95j");
    assert_eq!(p.ready, "1/1");
    assert_eq!(p.status, "Running");
    assert_eq!(p.restarts, "0");
    assert_eq!(p.age, "9d");
    assert_eq!(p.ip, "172.26.0.124");
    assert_eq!(p.node, "kg-node43");
    assert_eq!(p.nominated_node, "<none>");
    assert_eq!(p.readiness_gates, "<none>");
}

#[test]
fn test_convert_to_kub_info_reads_fields() {
    let line = "pod-a 0/1 Pending 2 5m 10.0.0.1 node-1 <none> <none>";
    let p = rkl::pod::convert_to_kub_info(line);
    assert_eq!(p.name, "pod-a");
    assert_eq!(p.status, "Pending");
    assert_eq!(p.restarts, "2");
}

#[test]
fn test_display_line_joins_fields_with_tabs() {
    let p = pod("pod-a");
    assert_eq!(
        rkl::pod::display_line(&p),
        "pod-a\t1/1\tRunning\t0\t9d\t172.26.0.124\tkg-node43\t<none>\t<none>"
    );
}

#[test]
fn test_parse_pod_line_malformed() {
    // eight fields: one short of the listing format
    assert!(parse_pod_line("a 1/1 Running 0 9d ip node <none>").is_err());
    // ten fields: one too many
    assert!(parse_pod_line("a 1/1 Running 0 9d ip node <none> <none> extra").is_err());
    assert!(parse_pod_line("").is_err());
    assert!(parse_pod_line("   ").is_err());
}

#[test]
fn test_exact_match_priority_keeps_listing_order() {
    let pods = vec![pod("alpha-web-1"), pod("beta-db-2"), pod("alpha-api-3")];
    let got = exact_candidates("alpha", &pods);
    let names: Vec<&str> = got.iter().map(|p| p.name.as_str()).collect();
    assert_eq!(names, vec!["alpha-web-1", "alpha-api-3"]);
    // resolution returns the exact pass untouched whenever it is non-empty
    let resolved = get_candidate_pod("alpha", &pods, 1);
    let names: Vec<&str> = resolved.iter().map(|p| p.name.as_str()).collect();
    assert_eq!(names, vec!["alpha-web-1", "alpha-api-3"]);
}

#[test]
fn test_fuzzy_fallback_orders_by_distance() {
    // nothing contains "ab", so the scorer ranks every pod
    let pods = vec![pod("xy"), pod("ba"), pod("ax")];
    let got = get_candidate_pod("ab", &pods, 5);
    let names: Vec<&str> = got.iter().map(|p| p.name.as_str()).collect();
    // "ba" shares both characters, "ax" one of three, "xy" none
    assert_eq!(names, vec!["ba", "ax", "xy"]);
}

#[test]
fn test_fuzzy_fallback_ties_keep_listing_order() {
    // "ba" and "baa" have the same character set: equal distance to "ab"
    let pods = vec![pod("xy"), pod("ba"), pod("ax"), pod("baa")];
    let got = fuzzy_candidates("ab", &pods, 25);
    let names: Vec<&str> = got.iter().map(|p| p.name.as_str()).collect();
    assert_eq!(names, vec!["ba", "baa", "ax", "xy"]);
}

#[test]
fn test_fuzzy_fallback_window_caps_output() {
    let pods = vec![pod("xy"), pod("ba"), pod("ax"), pod("baa")];
    assert_eq!(fuzzy_candidates("ab", &pods, 2).len(), 2);
    assert_eq!(fuzzy_candidates("ab", &pods, 100).len(), 4);
    assert_eq!(fuzzy_candidates("ab", &pods, 0).len(), 0);
    let empty: Vec<PodInfo> = Vec::new();
    assert_eq!(fuzzy_candidates("ab", &empty, 5).len(), 0);
}

#[test]
fn test_command_templates() {
    let name = "pod-1";
    let d = Command::DELETE { name: "x".to_string() };
    assert_eq!(get_kub_command(&d, name), format!("{} delete po {}", KUB_CTL, name));
    let d = Command::DESCRIBE { name: "x".to_string() };
    assert_eq!(get_kub_command(&d, name), format!("{} describe po {}", KUB_CTL, name));
    let d = Command::LOG { name: "x".to_string() };
    assert_eq!(get_kub_command(&d, name), format!("{} logs {}", KUB_CTL, name));
    let d = Command::IMAGE { name: "x".to_string() };
    assert_eq!(get_kub_command(&d, name), format!("{} describe po {} | grep Image", KUB_CTL, name));
    let d = Command::CONTAINER { name: "x".to_string() };
    assert_eq!(
        get_kub_command(&d, name),
        format!("{} describe po {} | grep container", KUB_CTL, name)
    );
    let d = Command::EXEC { name: "x".to_string() };
    assert_eq!(get_kub_command(&d, name), format!("{} exec -it {}", KUB_CTL, name));
}

#[test]
fn test_select_commands_all_returns_displayed_in_order() {
    let cmd = Command::DELETE { name: "a".to_string() };
    let cands = vec![pod("p1"), pod("p2"), pod("p3")];
    // three candidates shown under a window of five; 'z' applies to all three
    let cmds = select_commands(&cmd, &cands, 5, "z").ok().unwrap();
    assert_eq!(cmds.len(), 3);
    assert_eq!(cmds[0], format!("{} delete po p1", KUB_CTL));
    assert_eq!(cmds[1], format!("{} delete po p2", KUB_CTL));
    assert_eq!(cmds[2], format!("{} delete po p3", KUB_CTL));
    // a window smaller than the candidate list limits what 'z' covers
    let cmds = select_commands(&cmd, &cands, 2, "z").ok().unwrap();
    assert_eq!(cmds.len(), 2);
}

#[test]
fn test_select_commands_single_label() {
    let cmd = Command::LOG { name: "a".to_string() };
    let cands = vec![pod("p1"), pod("p2"), pod("p3")];
    let cmds = select_commands(&cmd, &cands, 5, "b").ok().unwrap();
    assert_eq!(cmds.len(), 1);
    assert_eq!(cmds[0], format!("{} logs p2", KUB_CTL));
}

#[test]
fn test_select_commands_rejects_invalid_input() {
    let cmd = Command::DELETE { name: "a".to_string() };
    let cands = vec![pod("p1"), pod("p2"), pod("p3")];
    // a letter past the displayed labels
    assert!(select_commands(&cmd, &cands, 5, "d").is_err());
    // more than one character
    assert!(select_commands(&cmd, &cands, 5, "ab").is_err());
    assert!(select_commands(&cmd, &cands, 5, "").is_err());
}

#[test]
fn test_end_to_end_single_exact_match() {
    let pods = fixture_pods();
    let got = get_candidate_pod("notebook", &pods, 5);
    assert_eq!(got.len(), 1);
    assert_eq!(got[0].name, "sophon-notebook-sophon2-57f5c77786-8lpkw");
    let cmd = Command::DELETE { name: "notebook".to_string() };
    let built = get_kub_command(&cmd, got[0].name.as_str());
    assert_eq!(
        built,
        format!("{} delete po sophon-notebook-sophon2-57f5c77786-8lpkw", KUB_CTL)
    );
}

#[test]
fn test_end_to_end_apply_to_all_displayed() {
    let pods = fixture_pods();
    let got = get_candidate_pod("sophon", &pods, 5);
    assert_eq!(got.len(), 15);
    let cmd = Command::DELETE { name: "sophon".to_string() };
    // default window of five: labels a..e plus 'z'; 'z' covers the five displayed
    let cmds = select_commands(&cmd, &got, 5, "z").ok().unwrap();
    assert_eq!(cmds.len(), 5);
    for (built, name) in cmds.iter().zip(FIXTURE_NAMES.iter().take(5)) {
        assert_eq!(*built, format!("{} delete po {}", KUB_CTL, name));
    }
}

#[test]
fn test_manager_plan_outcomes() {
    let pods = fixture_pods();
    let mgr = Manager::new(Args {
        cmd: Some(Command::DELETE { name: "notebook".to_string() }),
        middle: None,
    });
    match mgr.plan(&pods, 5) {
        Resolution::Single { command } => {
            assert_eq!(
                command,
                format!("{} delete po sophon-notebook-sophon2-57f5c77786-8lpkw", KUB_CTL)
            );
        },
        _ => panic!("one exact match must build a single command"),
    }
    let mgr = Manager::new(Args {
        cmd: Some(Command::DELETE { name: "sophon".to_string() }),
        middle: None,
    });
    match mgr.plan(&pods, 5) {
        Resolution::Multiple { candidates } => assert_eq!(candidates.len(), 15),
        _ => panic!("many matches must ask for disambiguation"),
    }
    let empty: Vec<PodInfo> = Vec::new();
    let mgr = Manager::new(Args {
        cmd: Some(Command::DELETE { name: "anything".to_string() }),
        middle: None,
    });
    match mgr.plan(&empty, 5) {
        Resolution::NoMatch => {},
        _ => panic!("an empty listing resolves to no match"),
    }
}

#[test]
fn test_manager_plan_applies_middle_name() {
    // "kg2" with infix "-sophon" normalizes to "kg-sophon2", which the
    // kg pod's name contains
    let pods = fixture_pods();
    let mgr = Manager::new(Args {
        cmd: Some(Command::DESCRIBE { name: "kg2".to_string() }),
        middle: Some("-sophon".to_string()),
    });
    match mgr.plan(&pods, 5) {
        Resolution::Single { command } => {
            assert_eq!(
                command,
                format!("{} describe po sophon-kg-sophon2-bf9769d97-4hqgv", KUB_CTL)
            );
        },
        _ => panic!("the normalized fragment must match the kg pod alone"),
    }
}
