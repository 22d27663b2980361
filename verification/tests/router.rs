use router_lab::load_balancer::{LeastConnectionsBalancer, LoadBalancer, RoundRobinBalancer};
use router_lab::proxy::{plan_request, Metrics};

#[test]
fn test_round_robin() {
    let mut lb = RoundRobinBalancer::new(vec![3001, 3002, 3003]);

    assert_eq!(lb.select_backend(), 3001);
    assert_eq!(lb.select_backend(), 3002);
    assert_eq!(lb.select_backend(), 3003);
    assert_eq!(lb.select_backend(), 3001); // wraps around
    assert_eq!(lb.select_backend(), 3002);
}

#[test]
fn test_round_robin_single_target() {
    let mut lb = RoundRobinBalancer::new(vec![4000]);
    assert_eq!(lb.select_backend(), 4000);
    assert_eq!(lb.select_backend(), 4000);
}

#[test]
fn test_round_robin_distribution() {
    // 300 requests against 3 targets: exactly 100 each.
    let mut lb = RoundRobinBalancer::new(vec![3001, 3002, 3003]);
    let mut counts = [0u32; 3];
    for _ in 0..300 {
        let port = lb.select_backend();
        counts[(port - 3001) as usize] += 1;
    }
    assert_eq!(counts, [100, 100, 100]);
}

#[test]
fn test_least_connections_ties_in_configured_order() {
    let mut lb = LeastConnectionsBalancer::new(vec![3001, 3002, 3003]);

    // All targets start at zero in flight; ties break in configured order.
    assert_eq!(lb.select_backend(), 3001);
    assert_eq!(lb.select_backend(), 3002);
    assert_eq!(lb.select_backend(), 3003);

    // After 3001 completes it is back at the minimum and is picked again.
    lb.on_request_complete(3001);
    assert_eq!(lb.select_backend(), 3001);
}

#[test]
fn test_least_connections_prefers_least_loaded() {
    let mut lb = LeastConnectionsBalancer::new(vec![3001, 3002]);
    assert_eq!(lb.select_backend(), 3001);
    assert_eq!(lb.select_backend(), 3002);
    assert_eq!(lb.select_backend(), 3001);
    // 3001 now has 2 in flight, 3002 has 1.
    lb.on_request_complete(3002);
    assert_eq!(lb.select_backend(), 3002);
}

#[test]
fn test_least_connections_counts_return_to_zero() {
    let mut lb = LeastConnectionsBalancer::new(vec![3001, 3002, 3003]);
    let a = lb.select_backend();
    let b = lb.select_backend();
    lb.on_request_complete(a);
    let c = lb.select_backend();
    lb.on_request_complete(c);
    lb.on_request_complete(b);
    assert_eq!(lb.active, vec![0, 0, 0]);
}

#[test]
fn test_least_connections_completion_never_underflows() {
    let mut lb = LeastConnectionsBalancer::new(vec![3001, 3002]);
    // A completion for a target with no outstanding count is a clamped no-op.
    lb.on_request_complete(3001);
    assert_eq!(lb.active, vec![0, 0]);
    // A completion for an unknown target changes nothing.
    lb.on_request_complete(9999);
    assert_eq!(lb.active, vec![0, 0]);
    assert_eq!(lb.select_backend(), 3001);
}

#[test]
fn test_metrics_total_equals_sum_of_counts() {
    let mut m = Metrics::new(vec![3001, 3002, 3003]);
    m.record_request(3002);
    m.record_request(3001);
    m.record_request(3002);
    m.record_request(3003);
    assert_eq!(m.total, 4);
    let sum: usize = m.report().iter().map(|row| row.1).sum();
    assert_eq!(sum, m.total);
}

#[test]
fn test_metrics_report_sorted_with_percentages() {
    let mut m = Metrics::new(vec![3002, 3001]);
    for _ in 0..3 {
        m.record_request(3002);
    }
    m.record_request(3001);
    let report = m.report();
    // Ascending by port; shares in tenths of a percent.
    assert_eq!(report, vec![(3001, 1, 250), (3002, 3, 750)]);
}

#[test]
fn test_metrics_reports_every_target_at_zero_before_any_request() {
    // Created from the configured target set: one row per target from the
    // start, each at count 0 and 0%, ascending by port whatever the
    // configured order, duplicates collapsed.
    let m = Metrics::new(vec![3003, 3001, 3002, 3001]);
    assert_eq!(m.total, 0);
    assert_eq!(m.report(), vec![(3001, 0, 0), (3002, 0, 0), (3003, 0, 0)]);
}

#[test]
fn test_metrics_percentages_sum_within_rounding() {
    let mut m = Metrics::new(vec![3001, 3002, 3003]);
    m.record_request(3001);
    m.record_request(3002);
    m.record_request(3003);
    let report = m.report();
    let permille: usize = report.iter().map(|row| row.2).sum();
    // 333 + 333 + 333: at most one tenth of a percent lost per row.
    assert_eq!(permille, 999);
    assert!(permille <= 1000 && permille + report.len() >= 1000);
}

#[test]
fn test_plan_request_preserves_method_and_path() {
    let mut lb = RoundRobinBalancer::new(vec![3001, 3002, 3003]);
    let mut m = Metrics::new(vec![3001, 3002, 3003]);
    let plan = plan_request(
        &mut lb,
        &mut m,
        String::from("GET"),
        String::from("/foo?x=1"),
    );
    assert_eq!(plan.method, "GET");
    assert_eq!(plan.path, "/foo?x=1");
    assert_eq!(plan.backend_port, 3001);
    assert_eq!(m.total, 1);
    assert_eq!(m.report(), vec![(3001, 1, 1000), (3002, 0, 0), (3003, 0, 0)]);
}

#[test]
fn test_plan_request_round_robin_distribution() {
    let mut lb = RoundRobinBalancer::new(vec![3001, 3002, 3003]);
    let mut m = Metrics::new(vec![3001, 3002, 3003]);
    for i in 0..300 {
        let plan = plan_request(
            &mut lb,
            &mut m,
            String::from("GET"),
            format!("/req/{}", i),
        );
        assert!((3001..=3003).contains(&plan.backend_port));
    }
    assert_eq!(m.total, 300);
    let report = m.report();
    assert_eq!(report.len(), 3);
    for (i, row) in report.iter().enumerate() {
        assert_eq!(row.0, 3001 + i as u16);
        assert_eq!(row.1, 100);
        assert_eq!(row.2, 333);
    }
}
