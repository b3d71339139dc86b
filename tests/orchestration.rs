use mcp_agent::catalog::{qualified_name, ToolSpec};
use mcp_agent::config::{ConfigurationError, McpConfig, McpServerConfig, McpServerTransportConfig};
use mcp_agent::manager::{Failure, McpManager, Outcome, RoutingError, ServerError};
use mcp_agent::selection::Hit;

fn server(name: &str) -> McpServerConfig {
    McpServerConfig {
        name: name.to_string(),
        transport: McpServerTransportConfig::Streamable { url: format!("http://localhost/{name}") },
    }
}

fn spec(name: &str) -> ToolSpec {
    ToolSpec {
        name: name.to_string(),
        description: format!("does {name}"),
        input_schema: "{}".to_string(),
    }
}

fn connected(name: &str, handle: u32) -> Outcome<u32> {
    (name.to_string(), Ok(handle))
}

fn refused(name: &str) -> Outcome<u32> {
    (name.to_string(), Err("connection refused".to_string()))
}

fn hit(name: &str, score: i64) -> Hit {
    Hit { name: name.to_string(), score }
}

fn manager_with(servers: &[(&str, &[&str])]) -> McpManager<u32> {
    let outcomes = servers.iter().enumerate().map(|(i, (n, _))| connected(n, i as u32)).collect();
    let (mut m, failures) = McpManager::from_outcomes(outcomes);
    assert!(failures.is_empty());
    for (n, tools) in servers {
        let listing = tools.iter().map(|t| spec(t)).collect();
        assert_eq!(m.add_listing(n.to_string(), Ok(listing)), None);
    }
    m
}

#[test]
fn validate_accepts_distinct_names() {
    let config = McpConfig { server: vec![server("search"), server("files"), server("math")] };
    assert_eq!(config.validate(), Ok(()));
}

#[test]
fn validate_accepts_empty_set() {
    let config = McpConfig { server: vec![] };
    assert_eq!(config.validate(), Ok(()));
}

#[test]
fn validate_rejects_duplicate_names() {
    let config = McpConfig { server: vec![server("search"), server("files"), server("search")] };
    assert_eq!(config.validate(), Err(ConfigurationError::DuplicateName("search".to_string())));
}

#[test]
fn validate_rejects_separator_in_name() {
    let config = McpConfig { server: vec![server("a/b")] };
    assert_eq!(config.validate(), Err(ConfigurationError::MalformedName("a/b".to_string())));
}

#[test]
fn validate_rejects_empty_name() {
    let config = McpConfig { server: vec![server("ok"), server("")] };
    assert_eq!(config.validate(), Err(ConfigurationError::MalformedName(String::new())));
}

#[test]
fn validate_reports_first_problem() {
    let config = McpConfig { server: vec![server("x"), server("x"), server("y/z")] };
    assert_eq!(config.validate(), Err(ConfigurationError::DuplicateName("x".to_string())));
}

#[test]
fn startup_counts_live_and_failed() {
    let outcomes = vec![connected("a", 1), refused("b"), connected("c", 3), refused("d")];
    let (m, failures) = McpManager::from_outcomes(outcomes);
    assert_eq!(m.clients().len(), 2);
    assert_eq!(failures.len(), 2);
    assert_eq!(failures[0].name, "b");
    assert_eq!(failures[1].name, "d");
    assert_eq!(failures[0].error, ServerError::Connection("connection refused".to_string()));
    assert_eq!(m.clients()[0], ("a".to_string(), 1));
    assert_eq!(m.clients()[1], ("c".to_string(), 3));
    assert!(m.tools().is_empty());
}

#[test]
fn startup_all_failed() {
    let (m, failures) = McpManager::from_outcomes(vec![refused("a"), refused("b")]);
    assert!(m.clients().is_empty());
    assert_eq!(failures.len(), 2);
}

#[test]
fn startup_rejects_repeated_live_name() {
    let (m, failures) = McpManager::from_outcomes(vec![connected("a", 1), connected("a", 2)]);
    assert_eq!(m.clients().len(), 1);
    assert_eq!(m.clients()[0].1, 1);
    assert_eq!(failures, vec![Failure { name: "a".to_string(), error: ServerError::Rejected }]);
}

#[test]
fn end_to_end_second_server_refused() {
    let outcomes = vec![connected("one", 1), refused("two"), connected("three", 3)];
    let (mut m, failures) = McpManager::from_outcomes(outcomes);
    assert_eq!(m.clients().len(), 2);
    assert_eq!(failures.len(), 1);
    assert_eq!(failures[0].name, "two");
    assert_eq!(m.add_listing("one".to_string(), Ok(vec![spec("read")])), None);
    assert_eq!(
        m.add_listing("two".to_string(), Ok(vec![spec("write")])),
        Some(Failure { name: "two".to_string(), error: ServerError::NotConnected })
    );
    assert_eq!(m.add_listing("three".to_string(), Ok(vec![spec("sum"), spec("product")])), None);
    let servers: Vec<&str> = m.tools().iter().map(|t| t.server.as_str()).collect();
    assert_eq!(servers, vec!["one", "three", "three"]);
}

#[test]
fn colliding_tool_names_stay_apart() {
    let m = manager_with(&[("A", &["t1", "t2"]), ("B", &["t1"])]);
    let addresses: Vec<&str> = m.tools().iter().map(|t| t.qualified.as_str()).collect();
    assert_eq!(addresses, vec!["A/t1", "A/t2", "B/t1"]);
    let (conn_a, tool_a) = m.route(&"A/t1".to_string()).unwrap();
    let (conn_b, tool_b) = m.route(&"B/t1".to_string()).unwrap();
    assert_eq!((*conn_a, tool_a.as_str()), (0, "t1"));
    assert_eq!((*conn_b, tool_b.as_str()), (1, "t1"));
}

#[test]
fn route_unknown_address() {
    let m = manager_with(&[("A", &["t1"])]);
    assert_eq!(m.route(&"t1".to_string()), Err(RoutingError::UnknownTool("t1".to_string())));
}

#[test]
fn route_after_tear_down_is_routing_error() {
    let mut m = manager_with(&[("A", &["t1", "t2"]), ("B", &["t1"])]);
    assert!(m.route(&"A/t1".to_string()).is_ok());
    assert!(m.tear_down(&"A".to_string()));
    assert_eq!(m.route(&"A/t1".to_string()), Err(RoutingError::UnknownTool("A/t1".to_string())));
    assert_eq!(m.route(&"A/t2".to_string()), Err(RoutingError::UnknownTool("A/t2".to_string())));
    assert!(m.route(&"B/t1".to_string()).is_ok());
    assert_eq!(m.clients().len(), 1);
    assert_eq!(m.tools().len(), 1);
    assert!(!m.tear_down(&"A".to_string()));
}

#[test]
fn failed_listing_takes_server_out() {
    let (mut m, _) = McpManager::from_outcomes(vec![connected("a", 1), connected("b", 2)]);
    assert_eq!(m.add_listing("a".to_string(), Ok(vec![spec("x")])), None);
    assert_eq!(
        m.add_listing("b".to_string(), Err("timeout".to_string())),
        Some(Failure { name: "b".to_string(), error: ServerError::Listing("timeout".to_string()) })
    );
    assert_eq!(m.clients().len(), 1);
    assert_eq!(m.clients()[0].0, "a");
    assert_eq!(m.tools().len(), 1);
}

#[test]
fn repeated_tool_name_takes_server_out() {
    let (mut m, _) = McpManager::from_outcomes(vec![connected("a", 1)]);
    let r = m.add_listing("a".to_string(), Ok(vec![spec("x"), spec("y"), spec("x")]));
    assert_eq!(r, Some(Failure { name: "a".to_string(), error: ServerError::DuplicateTool("x".to_string()) }));
    assert!(m.clients().is_empty());
    assert!(m.tools().is_empty());
}

#[test]
fn listing_keeps_fields() {
    let m = manager_with(&[("srv", &["lookup"])]);
    let t = m.tool(0);
    assert_eq!(t.server, "srv");
    assert_eq!(t.name, "lookup");
    assert_eq!(t.qualified, "srv/lookup");
    assert_eq!(t.description, "does lookup");
    assert_eq!(t.input_schema, "{}");
}

#[test]
fn qualified_name_joins_with_separator() {
    assert_eq!(qualified_name(&"weather".to_string(), &"forecast".to_string()), "weather/forecast");
}

fn ten_tools() -> McpManager<u32> {
    manager_with(&[("s", &["t0", "t1", "t2", "t3", "t4", "t5", "t6", "t7", "t8", "t9"])])
}

#[test]
fn select_top_three_by_score() {
    let m = ten_tools();
    let hits: Vec<Hit> = (0..10).map(|i| hit(&format!("s/t{i}"), [5, 90, 10, 70, 20, 80, 30, 60, 40, 50][i])).collect();
    let chosen = m.select(&hits, 3);
    assert_eq!(chosen, vec![1, 5, 3]);
    let names: Vec<&str> = chosen.iter().map(|&p| m.tool(p).name.as_str()).collect();
    assert_eq!(names, vec!["t1", "t5", "t3"]);
}

#[test]
fn select_fewer_hits_than_bound() {
    let m = ten_tools();
    let chosen = m.select(&vec![hit("s/t4", 3), hit("s/t2", 7)], 3);
    assert_eq!(chosen, vec![2, 4]);
}

#[test]
fn select_on_empty_catalog_is_empty() {
    let (m, _) = McpManager::<u32>::from_outcomes(vec![]);
    assert!(m.select(&vec![hit("s/t1", 10), hit("s/t2", 5)], 3).is_empty());
    assert!(m.select(&vec![], 3).is_empty());
}

#[test]
fn select_skips_unknown_and_repeated_hits() {
    let m = ten_tools();
    let hits = vec![hit("gone/t1", 100), hit("s/t7", 50), hit("s/t7", 99), hit("s/t8", 40)];
    assert_eq!(m.select(&hits, 3), vec![7, 8]);
}

#[test]
fn select_equal_scores_keep_hit_order() {
    let m = ten_tools();
    let hits = vec![hit("s/t9", 10), hit("s/t0", 10), hit("s/t5", 10)];
    assert_eq!(m.select(&hits, 2), vec![9, 0]);
}

#[test]
fn select_with_zero_bound() {
    let m = ten_tools();
    assert!(m.select(&vec![hit("s/t1", 1)], 0).is_empty());
}

#[test]
fn select_twice_same_result() {
    let m = ten_tools();
    let hits: Vec<Hit> = (0..10).map(|i| hit(&format!("s/t{i}"), (i as i64 * 37) % 11)).collect();
    let first = m.select(&hits, 4);
    let second = m.select(&hits, 4);
    assert_eq!(first, second);
    assert_eq!(first.len(), 4);
}

#[test]
fn select_after_tear_down_drops_its_tools() {
    let mut m = manager_with(&[("A", &["t1"]), ("B", &["t1"])]);
    assert!(m.tear_down(&"A".to_string()));
    let chosen = m.select(&vec![hit("A/t1", 9), hit("B/t1", 1)], 3);
    assert_eq!(chosen, vec![0]);
    assert_eq!(m.tool(0).qualified, "B/t1");
}
