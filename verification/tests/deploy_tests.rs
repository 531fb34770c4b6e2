use aceai_dp_cli::cmd_deploy_service::{
    after_check, checking_message, deploy_command, deploy_plan, last_container_line, DeployStep,
    PollStep, MAX_CHECKS,
};
use aceai_dp_cli::cmd_deploy_web::{is_website_service_exec, web_plan};
use aceai_dp_cli::conf::{
    find_docker_service_config, lookup_docker_service_config, same_text, Config, ConfigServer,
};
use aceai_dp_cli::docker_compose_parser::DockerComposeService;
use aceai_dp_cli::nacos_client::{
    instance_list_url, is_exist_service_instance, weight_update_url, NacosInstance,
    NacosInstanceHost,
};
use aceai_dp_cli::zuul_client;
use aceai_dp_cli::zuul_client::{is_service_instance_down, is_service_instance_up, ZuulServiceInstance};

fn server(ip: &str, path: &str) -> ConfigServer {
    ConfigServer {
        ip: ip.to_string(),
        account: format!("acct-{}", ip),
        password: format!("pw-{}", ip),
        docker_compose_path: path.to_string(),
    }
}

fn config() -> Config {
    Config {
        name: "prod".to_string(),
        servers: vec![server("10.0.0.1", "/opt/a"), server("10.0.0.2", "/opt/b"), server("10.0.0.1", "/opt/dup")],
        nacos_url: "http://nacos:8848".to_string(),
        zuul_url: "http://zuul:8080".to_string(),
    }
}

fn svc(name: &str, yml: &str, ip: &str, port: i32) -> DockerComposeService {
    DockerComposeService::new(name.into(), yml.into(), ip.into(), port)
}

fn host(ip: &str, port: i32) -> NacosInstanceHost {
    NacosInstanceHost {
        instance_id: format!("{}#{}", ip, port),
        ip: ip.to_string(),
        port,
        healthy: true,
        enabled: true,
    }
}

#[test]
fn get_server_by_returns_first_match() {
    let c = config();
    assert_eq!(c.get_server_by(&"10.0.0.1".to_string()).docker_compose_path, "/opt/a");
    assert_eq!(c.get_server_by(&"10.0.0.2".to_string()).docker_compose_path, "/opt/b");
    assert!(c.find_server_by(&"10.0.0.9".to_string()).is_none());
}

#[test]
fn find_docker_service_config_by_ip_and_port() {
    let configs = vec![svc("a", "x.yml", "h1", 80), svc("b", "y.yml", "h1", 81), svc("c", "z.yml", "h1", 81)];
    assert_eq!(find_docker_service_config(&configs, "h1", 81).name, "b");
    assert!(lookup_docker_service_config(&configs, "h2", 80).is_none());
    assert!(same_text("abc", "abc"));
    assert!(!same_text("abc", "abd"));
}

#[test]
fn nacos_instance_lookup() {
    let service = NacosInstance {
        name: "user".into(),
        group_name: "DEFAULT_GROUP".into(),
        hosts: vec![host("h1", 8080), host("h2", 8081)],
    };
    assert!(is_exist_service_instance(&service, &"h2".to_string(), 8081));
    assert!(!is_exist_service_instance(&service, &"h2".to_string(), 8080));
    let empty = NacosInstance { name: "u".into(), group_name: "g".into(), hosts: vec![] };
    assert!(!is_exist_service_instance(&empty, &"h1".to_string(), 8080));
}

#[test]
fn zuul_up_and_down_are_opposite() {
    let list = vec![ZuulServiceInstance { service_id: "user".into(), host: "h1".into(), port: 80 }];
    assert!(is_service_instance_up(&list, &"h1".to_string(), 80));
    assert!(!is_service_instance_down(&list, &"h1".to_string(), 80));
    assert!(is_service_instance_down(&list, &"h1".to_string(), 81));
    assert!(!is_service_instance_up(&list, &"h1".to_string(), 81));
    assert!(is_service_instance_down(&vec![], &"h1".to_string(), 80));
    assert!(!is_service_instance_up(&vec![], &"h1".to_string(), 80));
}

#[test]
fn registry_urls() {
    let c = config();
    assert_eq!(
        instance_list_url(&"user".to_string(), &c),
        "http://nacos:8848/nacos/v1/ns/instance/list?serviceName=user"
    );
    assert_eq!(
        weight_update_url(&"user".to_string(), &"h1".to_string(), 8081, &format!("{}", 0.0f32), &c),
        format!(
            "{}/nacos/v1/ns/instance?serviceName={}&ip={}&port={}&weight={}",
            c.nacos_url, "user", "h1", 8081, 0.0f32
        )
    );
    assert_eq!(
        zuul_client::instance_list_url(&"user".to_string(), &c),
        "http://zuul:8080/nacos/instances?serviceId=user"
    );
}

#[test]
fn deploy_command_text() {
    let s = server("h", "/opt/app");
    let d = svc("web", "app.yml", "h", 8080);
    assert_eq!(
        deploy_command(&s, &d),
        "cd /opt/app; docker compose -f app.yml pull web; docker compose -f app.yml up -d web"
    );
}

#[test]
fn last_container_line_picks_last() {
    let out: Vec<String> = vec!["pulling", " Container a  Started", "x", " Container b  Started", "done"]
        .into_iter()
        .map(String::from)
        .collect();
    assert_eq!(last_container_line(&out), Some(" Container b  Started".to_string()));
    assert_eq!(last_container_line(&vec!["nothing".to_string()]), None);
}

#[test]
fn polling_decisions() {
    assert_eq!(after_check(1, true), PollStep::Done);
    assert_eq!(after_check(1, false), PollStep::Retry);
    assert_eq!(after_check(MAX_CHECKS, false), PollStep::GiveUp);
    assert_eq!(after_check(MAX_CHECKS, true), PollStep::Done);
    assert_eq!(checking_message(7), "checking 7s");
}

#[test]
fn plan_for_known_instances() {
    let c = config();
    let configs = vec![svc("user", "u.yml", "10.0.0.1", 8081), svc("user", "u2.yml", "10.0.0.2", 8082)];
    let hosts = vec![host("10.0.0.1", 8081), host("10.0.0.2", 8082)];
    let plan = deploy_plan(&c, &configs, &hosts);
    assert_eq!(plan.len(), 14);
    assert_eq!(plan[0], DeployStep::Announce { position: 0, total: 2 });
    assert_eq!(plan[1], DeployStep::CloseFlow { ip: "10.0.0.1".into(), port: 8081 });
    assert_eq!(plan[2], DeployStep::AwaitZuulDown { ip: "10.0.0.1".into(), port: 8081 });
    assert_eq!(
        plan[3],
        DeployStep::Deploy {
            ip: "10.0.0.1".into(),
            port: 8081,
            account: "acct-10.0.0.1".into(),
            password: "pw-10.0.0.1".into(),
            name: "user".into(),
            command: "cd /opt/a; docker compose -f u.yml pull user; docker compose -f u.yml up -d user".into(),
        }
    );
    assert_eq!(plan[4], DeployStep::AwaitNacos { ip: "10.0.0.1".into(), port: 8081 });
    assert_eq!(plan[5], DeployStep::OpenFlow { ip: "10.0.0.1".into(), port: 8081 });
    assert_eq!(plan[6], DeployStep::AwaitZuulUp { ip: "10.0.0.1".into(), port: 8081 });
    assert_eq!(plan[7], DeployStep::Announce { position: 1, total: 2 });
}

#[test]
fn plan_stops_at_unknown_server_or_container() {
    let c = config();
    let configs = vec![svc("user", "u.yml", "10.0.0.1", 8081)];
    let plan = deploy_plan(&c, &configs, &vec![host("10.0.0.9", 1), host("10.0.0.1", 8081)]);
    assert_eq!(plan, vec![DeployStep::MissingServer { ip: "10.0.0.9".into() }]);
    let plan = deploy_plan(&c, &configs, &vec![host("10.0.0.2", 5), host("10.0.0.1", 8081)]);
    assert_eq!(plan.len(), 4);
    assert_eq!(plan[3], DeployStep::MissingDockerConfig { ip: "10.0.0.2".into(), port: 5 });
    assert!(deploy_plan(&c, &configs, &vec![]).is_empty());
}

#[test]
fn website_plan_selects_port_range() {
    let c = config();
    let configs = vec![
        svc("shop-web", "w.yml", "10.0.0.1", 8001),
        svc("shop-api", "a.yml", "10.0.0.1", 9001),
        svc("shop-web2", "w.yml", "10.0.0.2", 8000),
        svc("other", "o.yml", "10.0.0.2", 8500),
        svc("shop-admin", "w.yml", "10.0.0.2", 8999),
        svc("shop-edge", "w.yml", "10.0.0.2", 9000),
    ];
    assert!(is_website_service_exec(&configs[0], &"shop".to_string()));
    assert!(is_website_service_exec(&configs[2], &"shop".to_string()));
    assert!(!is_website_service_exec(&configs[5], &"shop".to_string()));
    let plan = web_plan(&c, &configs, &"shop".to_string());
    assert_eq!(plan.len(), 3);
    match &plan[1] {
        DeployStep::Deploy { port, name, .. } => {
            assert_eq!(*port, 8000);
            assert_eq!(name, "shop-web2");
        }
        other => panic!("unexpected {:?}", other),
    }
    match &plan[2] {
        DeployStep::Deploy { ip, port, name, command, .. } => {
            assert_eq!(ip, "10.0.0.2");
            assert_eq!(*port, 8999);
            assert_eq!(name, "shop-admin");
            assert_eq!(command, "cd /opt/b; docker compose -f w.yml pull shop-admin; docker compose -f w.yml up -d shop-admin");
        }
        other => panic!("unexpected {:?}", other),
    }
    let missing = vec![svc("shop", "w.yml", "10.9.9.9", 8080), svc("shop", "w.yml", "10.0.0.1", 8080)];
    assert_eq!(web_plan(&c, &missing, &"shop".to_string()), vec![DeployStep::MissingServer { ip: "10.9.9.9".into() }]);
}

#[test]
fn wait_that_never_succeeds_checks_sixty_times() {
    let mut attempt = 1;
    let mut checks = 0;
    loop {
        checks += 1;
        match after_check(attempt, false) {
            PollStep::Retry => attempt += 1,
            _ => break,
        }
    }
    assert_eq!(checks, MAX_CHECKS);
    let mut attempt = 1;
    let mut checks = 0;
    loop {
        checks += 1;
        match after_check(attempt, attempt == 4) {
            PollStep::Retry => attempt += 1,
            _ => break,
        }
    }
    assert_eq!(checks, 4);
}
