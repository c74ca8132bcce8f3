use ultraman::env::Env;
use ultraman::export::Exporter;
use ultraman::process::{base_port, port_for, ps_for, PortError};
use ultraman::start::{run, StartError, StartOpts};

fn opts(formation: &str, port: Option<&str>) -> StartOpts {
    StartOpts {
        formation: formation.to_string(),
        env_path: ".env".to_string(),
        procfile_path: "Procfile".to_string(),
        timeout: "5".to_string(),
        port: port.map(|p| p.to_string()),
        is_no_timestamp: false,
    }
}

fn ports(plan: &ultraman::start::StartPlan) -> Vec<(String, String)> {
    plan.replicas.iter().map(|r| (r.name.clone(), r.port.clone())).collect()
}

#[test]
fn ps_names() {
    assert_eq!(ps_for("web", 1), "web.1");
    assert_eq!(ps_for("worker", 12), "worker.12");
}

#[test]
fn base_port_first_match_wins() {
    let env = Env::parse("PORT=7000").ok().unwrap();
    let empty = Env::new();
    assert_eq!(base_port(Some("6000".to_string()), &env, Some("8000".to_string())), "6000");
    assert_eq!(base_port(None, &env, Some("8000".to_string())), "7000");
    assert_eq!(base_port(None, &empty, Some("8000".to_string())), "8000");
    assert_eq!(base_port(None, &empty, None), "5000");
}

#[test]
fn port_for_formula() {
    let env = Env::new();
    assert_eq!(port_for(&env, None, None, 0, 1), Ok("5000".to_string()));
    assert_eq!(port_for(&env, None, None, 1, 1), Ok("5100".to_string()));
    assert_eq!(port_for(&env, None, None, 2, 3), Ok("5202".to_string()));
    assert_eq!(port_for(&env, Some("6000".to_string()), None, 1, 2), Ok("6101".to_string()));
}

#[test]
fn port_for_errors() {
    let env = Env::new();
    assert_eq!(port_for(&env, Some("http".to_string()), None, 0, 1), Err(PortError::InvalidBase));
    assert_eq!(
        port_for(&env, Some(usize::MAX.to_string()), None, 0, 2),
        Err(PortError::Overflow)
    );
    assert_eq!(
        port_for(&env, Some(usize::MAX.to_string()), None, 0, 1),
        Ok(usize::MAX.to_string())
    );
}

#[test]
fn port_assignment_scenario() {
    let plan = run(&opts("web=2,worker=1", None), "web: cmd1\nworker: cmd2", "", None).ok().unwrap();
    assert_eq!(
        ports(&plan),
        vec![
            ("web.1".to_string(), "5000".to_string()),
            ("web.2".to_string(), "5001".to_string()),
            ("worker.1".to_string(), "5100".to_string()),
        ]
    );
    assert_eq!(plan.barrier_parties, 4);
    assert_eq!(plan.opts.padding, 8);
    assert!(plan.opts.is_timestamp);
    assert_eq!(plan.timeout, 5);
}

#[test]
fn explicit_base_scenario() {
    let plan = run(&opts("all=2", Some("6000")), "web: cmd1\nworker: cmd2", "", None).ok().unwrap();
    assert_eq!(
        ports(&plan),
        vec![
            ("web.1".to_string(), "6000".to_string()),
            ("web.2".to_string(), "6001".to_string()),
            ("worker.1".to_string(), "6100".to_string()),
            ("worker.2".to_string(), "6101".to_string()),
        ]
    );
}

#[test]
fn child_env_has_port_and_ps() {
    let plan = run(&opts("all=1", None), "web: cmd1", "PORT=9000\nKEY=v", None).ok().unwrap();
    assert_eq!(plan.replicas.len(), 1);
    let rep = &plan.replicas[0];
    assert_eq!(rep.env.get("PORT").unwrap(), "9000");
    assert_eq!(rep.env.get("PS").unwrap(), "web.1");
    assert_eq!(rep.env.get("KEY").unwrap(), "v");
    assert_eq!(rep.command, "cmd1");
    assert_eq!(rep.proctype, "web");
    assert_eq!(rep.proc_index, 0);
    assert_eq!(rep.replica, 1);
}

#[test]
fn replica_count_and_distinct_ports() {
    let plan = run(&opts("all=3,b=100", None), "a: x\nb: y\nc: z", "", Some("4000".to_string())).ok().unwrap();
    assert_eq!(plan.replicas.len(), 106);
    let mut seen: Vec<String> = plan.replicas.iter().map(|r| r.port.clone()).collect();
    seen.sort();
    seen.dedup();
    assert_eq!(seen.len(), 106);
    assert_eq!(plan.replicas[0].port, "4000");
}

#[test]
fn unknown_formation_name_scenario() {
    let plan = run(&opts("nonexistent=5", None), "web: a\nworker: b", "", None).ok().unwrap();
    let names: Vec<String> = plan.replicas.iter().map(|r| r.name.clone()).collect();
    assert_eq!(names, vec!["web.1".to_string(), "worker.1".to_string()]);
}

#[test]
fn empty_procfile_plans_nothing() {
    let plan = run(&opts("all=1", None), "", "", None).ok().unwrap();
    assert_eq!(plan.replicas.len(), 0);
    assert_eq!(plan.barrier_parties, 1);
    let plan = run(&opts("all=0", Some("not a port")), "web: a", "", None).ok().unwrap();
    assert_eq!(plan.replicas.len(), 0);
}

#[test]
fn run_errors() {
    assert!(matches!(run(&opts("all=1", None), "web a", "", None), Err(StartError::Procfile(e)) if e.line == 1));
    assert!(matches!(run(&opts("all=1", None), "web: a", "x", None), Err(StartError::Env(e)) if e.line == 1));
    let mut o = opts("all=1", None);
    o.timeout = "soon".to_string();
    assert!(matches!(run(&o, "web: a", "", None), Err(StartError::Timeout)));
    assert!(matches!(
        run(&opts("all=1", Some("abc")), "web: a", "", None),
        Err(StartError::Port(PortError::InvalidBase))
    ));
    assert!(matches!(
        run(&opts("all=2", Some(&usize::MAX.to_string())), "web: a", "", None),
        Err(StartError::Port(PortError::Overflow))
    ));
    let big = format!("all={}", usize::MAX);
    assert!(matches!(run(&opts(&big, None), "web: a", "", None), Err(StartError::TooManyReplicas)));
}

#[test]
fn exporter_defaults_and_template_paths() {
    let mut e = Exporter::boxed_new();
    assert_eq!(e.formation, "all=1");
    assert_eq!(e.env_path, ".env");
    assert_eq!(e.timeout, "5");
    assert_eq!(e.run_tmpl_path(), "./src/cmd/export/templates/runit/run.hbs");
    e.root_path = Some("/srv/app/".to_string());
    assert_eq!(e.log_run_tmpl_path(), "/srv/app/src/cmd/export/templates/runit/log/run.hbs");
    e.root_path = Some("/srv/app".to_string());
    assert_eq!(e.run_tmpl_path(), "/srv/app/src/cmd/export/templates/runit/run.hbs");
}

#[test]
fn exporter_services() {
    let mut e = Exporter::boxed_new();
    let mut p = ultraman::procfile::Procfile::parse("web: cmd1\nworker: cmd2").ok().unwrap();
    p.set_concurrency("web=2,worker=1");
    e.procfile = p;
    let env = Env::parse("KEY=v").ok().unwrap();
    let services = e.services("shop", &env, None).ok().unwrap();
    let names: Vec<(String, String, String)> = services
        .iter()
        .map(|s| (s.process_name.clone(), s.service_name.clone(), s.env.get("PORT").unwrap().clone()))
        .collect();
    assert_eq!(
        names,
        vec![
            ("web-1".to_string(), "shop-web-1".to_string(), "5100".to_string()),
            ("web-2".to_string(), "shop-web-2".to_string(), "5201".to_string()),
            ("worker-1".to_string(), "shop-worker-1".to_string(), "5300".to_string()),
        ]
    );
    assert_eq!(services[2].command, "cmd2");
    assert_eq!(services[0].env.get("KEY").unwrap(), "v");
    e.port = Some("x".to_string());
    assert!(matches!(e.services("shop", &env, None), Err(PortError::InvalidBase)));
}
