use perry_fastify::nanbox::{box_pointer, is_pointer, payload, should_alias_number_static};
use perry_fastify::string_map::StringMap;
use perry_fastify::worker::{
    cluster_fork_failure_message, cluster_worker_env, fork_command_args, fork_exec_argv,
    fork_exec_path, fork_failure_message, fork_spawn_args, is_cluster_worker_value, IdCounter,
};

fn strings(v: &[&str]) -> Vec<String> {
    v.iter().map(|s| s.to_string()).collect()
}

#[test]
fn exec_path_prefers_option_then_env_then_node() {
    assert_eq!(fork_exec_path(Some("bun".into()), Some("deno".into())), "bun");
    assert_eq!(fork_exec_path(Some("".into()), Some("deno".into())), "deno");
    assert_eq!(fork_exec_path(None, Some("".into())), "node");
    assert_eq!(fork_exec_path(None, None), "node");
}

#[test]
fn typescript_modules_get_strip_types_under_node() {
    assert_eq!(
        fork_exec_argv(vec![], "worker.ts", "/usr/bin/node"),
        strings(&["--experimental-strip-types"])
    );
    assert!(fork_exec_argv(vec![], "worker.js", "node").is_empty());
    assert!(fork_exec_argv(vec![], "worker.ts", "bun").is_empty());
    assert_eq!(
        fork_exec_argv(strings(&["--inspect"]), "worker.ts", "node"),
        strings(&["--inspect"])
    );
    assert!(fork_exec_argv(vec![], "ts", "node").is_empty());
}

#[test]
fn argument_lists_follow_node_order() {
    let argv = strings(&["--a"]);
    let args = strings(&["x", "y"]);
    assert_eq!(fork_command_args(&argv, "m.js", &args), strings(&["--a", "m.js", "x", "y"]));
    assert_eq!(
        fork_spawn_args("node", &argv, "m.js", &args),
        strings(&["node", "--a", "m.js", "x", "y"])
    );
    assert_eq!(fork_spawn_args("node", &vec![], "m.js", &vec![]), strings(&["node", "m.js"]));
}

#[test]
fn failure_messages() {
    assert_eq!(fork_failure_message("node"), "fork failed: node");
    assert_eq!(cluster_fork_failure_message("/bin/app"), "cluster.fork failed: /bin/app");
}

#[test]
fn cluster_worker_detection() {
    assert!(is_cluster_worker_value(Some("1")));
    assert!(!is_cluster_worker_value(Some("")));
    assert!(!is_cluster_worker_value(None));
}

#[test]
fn cluster_worker_env_stamps_id_last() {
    let env = cluster_worker_env(vec![("A".to_string(), "1".to_string())], 120);
    assert_eq!(
        env,
        vec![
            ("A".to_string(), "1".to_string()),
            ("NODE_UNIQUE_ID".to_string(), "120".to_string())
        ]
    );
    assert_eq!(cluster_worker_env(vec![], 0)[0].1, "0");
}

#[test]
fn nanboxing_of_pointers() {
    let w = box_pointer(0x1234);
    assert_eq!(w, 0x7FFD_0000_0000_1234);
    assert!(is_pointer(w));
    assert_eq!(payload(w), 0x1234);
    let neg = box_pointer(-1);
    assert_eq!(neg, 0x7FFD_FFFF_FFFF_FFFF);
    assert!(!is_pointer(0x7FFC_0000_0000_0001));
}

#[test]
fn number_static_alias_decision() {
    let f = 0x7FFD_0000_0000_0010;
    let c = 0x7FFD_0000_0000_0020;
    assert!(should_alias_number_static(f, c));
    assert!(!should_alias_number_static(0x7FFC_0000_0000_0001, c));
    assert!(!should_alias_number_static(f, 0x7FFD_0000_0000_0000));
}

#[test]
fn string_map_basics() {
    let mut m: StringMap<usize> = StringMap::new();
    assert!(m.is_empty());
    m.insert("a".to_string(), 1);
    m.insert("b".to_string(), 2);
    m.insert("a".to_string(), 3);
    assert_eq!(m.len(), 2);
    assert_eq!(m.get("a"), Some(&3));
    assert_eq!(m.get("c"), None);
    assert!(m.contains_key("b"));
    assert_eq!(m.entries().len(), 2);
}

#[test]
fn id_counter_counts_up_from_one() {
    let mut counter = IdCounter::new();
    assert_eq!(counter.next_id(), 1);
    assert_eq!(counter.next_id(), 2);
    assert_eq!(counter.next_id(), 3);
    let env = cluster_worker_env(Vec::new(), counter.next_id());
    assert_eq!(env, vec![("NODE_UNIQUE_ID".to_string(), "4".to_string())]);
}

#[test]
fn worker_ids_are_written_in_decimal() {
    let env = cluster_worker_env(Vec::new(), 0);
    assert_eq!(env[0].1, "0");
    let env = cluster_worker_env(Vec::new(), 1234567890);
    assert_eq!(env[0].1, "1234567890");
    let env = cluster_worker_env(Vec::new(), u64::MAX);
    assert_eq!(env[0].1, "18446744073709551615");
}
