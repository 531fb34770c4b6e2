//! Rolling redeployment of a micro service: for each registered instance in
//! turn, take it out of traffic, wait until the gateway drops it, redeploy its
//! container, wait until it registers again, put it back into traffic and wait
//! until the gateway routes to it. The decisions are made here as a plan of
//! steps; performing a step (a request, an ssh session, a wait) is left to the
//! caller.
use vstd::prelude::*;

use crate::conf::{
    first_server_with_ip, first_service_at, has_server_with_ip, has_service_at, Config,
    ConfigServer, lookup_docker_service_config,
};
use crate::docker_compose_parser::DockerComposeService;
use crate::nacos_client::NacosInstanceHost;
use crate::text::{chars_of, contains, contains_exec, decimal, decimal_string};

verus! {

// ---------------------------------------------------------------------------
// Deploying a container
// ---------------------------------------------------------------------------

/// The shell command that pulls the image of a container and restarts it.
pub open spec fn deploy_command_text(path: Seq<char>, yml: Seq<char>, name: Seq<char>) -> Seq<
    char,
> {
    "cd "@ + path + "; docker compose -f "@ + yml + " pull "@ + name + "; docker compose -f "@
        + yml + " up -d "@ + name
}

pub fn deploy_command(server: &ConfigServer, service: &DockerComposeService) -> (r: String)
    ensures
        r@ == deploy_command_text(server.docker_compose_path@, service.yml@, service.name@),
{
    let mut r = String::from_str("cd ");
    r.append(server.docker_compose_path.as_str());
    r.append("; docker compose -f ");
    r.append(service.yml.as_str());
    r.append(" pull ");
    r.append(service.name.as_str());
    r.append("; docker compose -f ");
    r.append(service.yml.as_str());
    r.append(" up -d ");
    r.append(service.name.as_str());
    r
}

/// The last line of `ls` that contains `pat`, if any.
pub open spec fn last_containing(ls: Seq<Seq<char>>, pat: Seq<char>) -> Option<Seq<char>>
    decreases ls.len(),
{
    if ls.len() == 0 {
        None
    } else if contains(ls.last(), pat) {
        Some(ls.last())
    } else {
        last_containing(ls.drop_last(), pat)
    }
}

/// The last line of the shell's output that mentions a container: what the
/// deployment reports of a container's restart.
pub fn last_container_line(output: &Vec<String>) -> (r: Option<String>)
    ensures
        r matches Some(l) ==> last_containing(output@.map_values(|l: String| l@), "Container"@)
            == Some(l@),
        r is None ==> last_containing(output@.map_values(|l: String| l@), "Container"@) is None,
{
    let ghost all = output@.map_values(|l: String| l@);
    let key = chars_of("Container");
    let mut i: usize = output.len();
    assert(all.take(i as int) =~= all);
    while i > 0
        invariant
            i <= output@.len(),
            all == output@.map_values(|l: String| l@),
            key@ == "Container"@,
            last_containing(all, "Container"@) == last_containing(all.take(i as int), "Container"@),
        decreases i,
    {
        let line = chars_of(output[i - 1].as_str());
        assert(all.take(i as int).last() == output@[i - 1]@);
        if contains_exec(&line, &key) {
            return Some(output[i - 1].clone());
        }
        assert(all.take(i as int).drop_last() =~= all.take(i - 1));
        i -= 1;
    }
    None
}

// ---------------------------------------------------------------------------
// Waiting for the registries
// ---------------------------------------------------------------------------

/// The most times a registry is checked while waiting for an instance.
pub const MAX_CHECKS: i32 = 60;

/// What follows a check of a registry.
#[derive(Debug, PartialEq, Eq, Clone, Copy)]
pub enum PollStep {
    /// The awaited state was seen: stop waiting.
    Done,
    /// Not yet: wait a second, then check again.
    Retry,
    /// Not yet, and that was the last check: wait a second, then stop waiting.
    GiveUp,
}

/// What follows the `attempt`-th check of a wait, given its answer.
pub open spec fn poll_decision(attempt: int, satisfied: bool) -> PollStep {
    if satisfied {
        PollStep::Done
    } else if attempt < MAX_CHECKS {
        PollStep::Retry
    } else {
        PollStep::GiveUp
    }
}

/// What follows the `attempt`-th check (counted from 1) of a wait.
pub fn after_check(attempt: i32, satisfied: bool) -> (r: PollStep)
    requires
        1 <= attempt <= MAX_CHECKS,
    ensures
        r == poll_decision(attempt as int, satisfied),
{
    if satisfied {
        PollStep::Done
    } else if attempt < MAX_CHECKS {
        PollStep::Retry
    } else {
        PollStep::GiveUp
    }
}

/// The number of checks a wait that is at its `attempt`-th check makes when
/// the registry answers `answers` in turn, each check following the decision
/// on the one before.
pub open spec fn checks_made(answers: Seq<bool>, attempt: int) -> nat
    decreases answers.len(),
{
    if answers.len() == 0 {
        0
    } else {
        match poll_decision(attempt, answers[0]) {
            PollStep::Retry => 1 + checks_made(answers.drop_first(), attempt + 1),
            _ => 1,
        }
    }
}

/// A wait checks a registry at most `MAX_CHECKS` times, whatever it answers,
/// stops at the first check that sees the awaited state, and checks exactly
/// `MAX_CHECKS` times when the registry never sees it.
pub proof fn lemma_wait_is_bounded(answers: Seq<bool>, attempt: int)
    requires
        1 <= attempt <= MAX_CHECKS,
    ensures
        checks_made(answers, attempt) <= MAX_CHECKS - attempt + 1,
        answers.len() >= MAX_CHECKS - attempt + 1 && (forall|j: int|
            0 <= j < MAX_CHECKS - attempt + 1 ==> !#[trigger] answers[j]) ==> checks_made(
            answers,
            attempt,
        ) == MAX_CHECKS - attempt + 1,
        forall|k: int|
            0 <= k < answers.len() && #[trigger] answers[k] && (forall|j: int|
                0 <= j < k ==> !answers[j]) && attempt + k <= MAX_CHECKS ==> checks_made(
                answers,
                attempt,
            ) == k + 1,
    decreases answers.len(),
{
    if answers.len() > 0 && !answers[0] && attempt < MAX_CHECKS {
        lemma_wait_is_bounded(answers.drop_first(), attempt + 1);
        if answers.len() >= MAX_CHECKS - attempt + 1 && (forall|j: int|
            0 <= j < MAX_CHECKS - attempt + 1 ==> !#[trigger] answers[j]) {
            assert forall|j: int| 0 <= j < MAX_CHECKS - attempt implies !#[trigger] answers.drop_first()[j] by {
                assert(answers.drop_first()[j] == answers[j + 1]);
            }
        }
        assert forall|k: int|
            0 <= k < answers.len() && #[trigger] answers[k] && (forall|j: int|
                0 <= j < k ==> !answers[j]) && attempt + k <= MAX_CHECKS implies checks_made(
            answers,
            attempt,
        ) == k + 1 by {
            if k > 0 {
                assert(answers.drop_first()[k - 1] == answers[k]);
                assert forall|j: int| 0 <= j < k - 1 implies !answers.drop_first()[j] by {
                    assert(answers.drop_first()[j] == answers[j + 1]);
                }
            }
        }
    }
}

/// The progress message shown while waiting after the `attempt`-th check.
pub open spec fn checking_message_text(attempt: i32) -> Seq<char> {
    "checking "@ + decimal(attempt as int) + "s"@
}

pub fn checking_message(attempt: i32) -> (r: String)
    ensures
        r@ == checking_message_text(attempt),
{
    let mut r = String::from_str("checking ");
    let d = decimal_string(attempt);
    r.append(d.as_str());
    r.append("s");
    r
}

// ---------------------------------------------------------------------------
// The plan
// ---------------------------------------------------------------------------

/// A step of a deployment.
#[derive(Debug, PartialEq)]
pub enum DeployStep {
    /// Report the state of the `position`-th instance (from 0) of `total`.
    Announce { position: usize, total: usize },
    /// Set the instance's traffic weight to 0 in the registry.
    CloseFlow { ip: String, port: i32 },
    /// Wait until the gateway no longer routes to the instance.
    AwaitZuulDown { ip: String, port: i32 },
    /// Run `command` over ssh on the server at `ip` to restart container `name`.
    Deploy {
        ip: String,
        port: i32,
        account: String,
        password: String,
        name: String,
        command: String,
    },
    /// Wait until the instance is registered again.
    AwaitNacos { ip: String, port: i32 },
    /// Set the instance's traffic weight back to 1 in the registry.
    OpenFlow { ip: String, port: i32 },
    /// Wait until the gateway routes to the instance again.
    AwaitZuulUp { ip: String, port: i32 },
    /// No server is configured at `ip`: the deployment stops here.
    MissingServer { ip: String },
    /// No docker compose service is known at `ip`:`port`: the deployment
    /// stops here.
    MissingDockerConfig { ip: String, port: i32 },
}

/// A deployment step with its texts as character sequences.
pub ghost enum StepModel {
    Announce { position: nat, total: nat },
    CloseFlow { ip: Seq<char>, port: i32 },
    AwaitZuulDown { ip: Seq<char>, port: i32 },
    Deploy {
        ip: Seq<char>,
        port: i32,
        account: Seq<char>,
        password: Seq<char>,
        name: Seq<char>,
        command: Seq<char>,
    },
    AwaitNacos { ip: Seq<char>, port: i32 },
    OpenFlow { ip: Seq<char>, port: i32 },
    AwaitZuulUp { ip: Seq<char>, port: i32 },
    MissingServer { ip: Seq<char> },
    MissingDockerConfig { ip: Seq<char>, port: i32 },
}

impl View for DeployStep {
    type V = StepModel;

    open spec fn view(&self) -> StepModel {
        match self {
            DeployStep::Announce { position, total } => StepModel::Announce {
                position: *position as nat,
                total: *total as nat,
            },
            DeployStep::CloseFlow { ip, port } => StepModel::CloseFlow { ip: ip@, port: *port },
            DeployStep::AwaitZuulDown { ip, port } => StepModel::AwaitZuulDown {
                ip: ip@,
                port: *port,
            },
            DeployStep::Deploy { ip, port, account, password, name, command } => StepModel::Deploy {
                ip: ip@,
                port: *port,
                account: account@,
                password: password@,
                name: name@,
                command: command@,
            },
            DeployStep::AwaitNacos { ip, port } => StepModel::AwaitNacos { ip: ip@, port: *port },
            DeployStep::OpenFlow { ip, port } => StepModel::OpenFlow { ip: ip@, port: *port },
            DeployStep::AwaitZuulUp { ip, port } => StepModel::AwaitZuulUp { ip: ip@, port: *port },
            DeployStep::MissingServer { ip } => StepModel::MissingServer { ip: ip@ },
            DeployStep::MissingDockerConfig { ip, port } => StepModel::MissingDockerConfig {
                ip: ip@,
                port: *port,
            },
        }
    }
}

/// The views of a list of steps.
pub open spec fn step_models(steps: Seq<DeployStep>) -> Seq<StepModel> {
    steps.map_values(|s: DeployStep| s@)
}

/// A step that stops the deployment.
pub open spec fn is_abort(s: StepModel) -> bool {
    s is MissingServer || s is MissingDockerConfig
}

/// The first server configured at `ip`.
pub open spec fn server_at(servers: Seq<ConfigServer>, ip: Seq<char>) -> ConfigServer {
    servers[choose|i: int| first_server_with_ip(servers, ip, i)]
}

/// The first docker compose service published at `ip`:`port`.
pub open spec fn service_at(configs: Seq<DockerComposeService>, ip: Seq<char>, port: i32) -> DockerComposeService {
    configs[choose|i: int| first_service_at(configs, ip, port, i)]
}

/// The step that restarts the container `service` on `server`.
pub open spec fn deploy_step(server: ConfigServer, service: DockerComposeService, ip: Seq<char>, port: i32) -> StepModel {
    StepModel::Deploy {
        ip,
        port,
        account: server.account@,
        password: server.password@,
        name: service.name@,
        command: deploy_command_text(server.docker_compose_path@, service.yml@, service.name@),
    }
}

/// The steps for the `position`-th of `total` instances.
pub open spec fn host_steps(
    servers: Seq<ConfigServer>,
    configs: Seq<DockerComposeService>,
    host: NacosInstanceHost,
    position: nat,
    total: nat,
) -> Seq<StepModel> {
    let ip = host.ip@;
    let port = host.port;
    if !has_server_with_ip(servers, ip) {
        seq![StepModel::MissingServer { ip }]
    } else {
        let opening = seq![
            StepModel::Announce { position, total },
            StepModel::CloseFlow { ip, port },
            StepModel::AwaitZuulDown { ip, port },
        ];
        if !has_service_at(configs, ip, port) {
            opening.push(StepModel::MissingDockerConfig { ip, port })
        } else {
            opening + seq![
                deploy_step(server_at(servers, ip), service_at(configs, ip, port), ip, port),
                StepModel::AwaitNacos { ip, port },
                StepModel::OpenFlow { ip, port },
                StepModel::AwaitZuulUp { ip, port },
            ]
        }
    }
}

/// The plan for the first `n` instances of `hosts`: their steps in turn, up
/// to and including the first step that stops the deployment.
pub open spec fn plan_upto(
    servers: Seq<ConfigServer>,
    configs: Seq<DockerComposeService>,
    hosts: Seq<NacosInstanceHost>,
    n: int,
) -> Seq<StepModel>
    decreases n,
{
    if n <= 0 {
        Seq::empty()
    } else {
        let p = plan_upto(servers, configs, hosts, n - 1);
        if p.len() > 0 && is_abort(p.last()) {
            p
        } else {
            p + host_steps(servers, configs, hosts[n - 1], (n - 1) as nat, hosts.len())
        }
    }
}

/// The plan that redeploys every instance of `hosts`.
pub open spec fn deploy_plan_model(
    servers: Seq<ConfigServer>,
    configs: Seq<DockerComposeService>,
    hosts: Seq<NacosInstanceHost>,
) -> Seq<StepModel> {
    plan_upto(servers, configs, hosts, hosts.len() as int)
}

pub proof fn lemma_first_server_unique(servers: Seq<ConfigServer>, ip: Seq<char>, i: int, j: int)
    requires
        first_server_with_ip(servers, ip, i),
        first_server_with_ip(servers, ip, j),
    ensures
        i == j,
{
    if i < j {
        assert(servers[i].ip@ != ip);
    } else if j < i {
        assert(servers[j].ip@ != ip);
    }
}

proof fn lemma_first_service_unique(
    configs: Seq<DockerComposeService>,
    ip: Seq<char>,
    port: i32,
    i: int,
    j: int,
)
    requires
        first_service_at(configs, ip, port, i),
        first_service_at(configs, ip, port, j),
    ensures
        i == j,
{
    if i < j {
        assert(!(configs[i].ip@ == ip && configs[i].port == port));
    } else if j < i {
        assert(!(configs[j].ip@ == ip && configs[j].port == port));
    }
}

/// Appends a step to a plan.
pub fn push_step(steps: &mut Vec<DeployStep>, s: DeployStep)
    ensures
        step_models(final(steps)@) == step_models(old(steps)@).push(s@),
{
    steps.push(s);
    assert(step_models(steps@) =~= step_models(old(steps)@).push(s@));
}

/// Appends the steps of one instance; tells whether they stop the deployment.
fn push_host_steps(
    steps: &mut Vec<DeployStep>,
    config: &Config,
    docker_service_configs: &Vec<DockerComposeService>,
    host: &NacosInstanceHost,
    position: usize,
    total: usize,
) -> (aborted: bool)
    ensures
        step_models(final(steps)@) == step_models(old(steps)@) + host_steps(
            config.servers@,
            docker_service_configs@,
            *host,
            position as nat,
            total as nat,
        ),
        aborted == is_abort(
            host_steps(
                config.servers@,
                docker_service_configs@,
                *host,
                position as nat,
                total as nat,
            ).last(),
        ),
{
    let ghost before = step_models(steps@);
    let ghost expected = host_steps(
        config.servers@,
        docker_service_configs@,
        *host,
        position as nat,
        total as nat,
    );
    let ip = &host.ip;
    let port = host.port;
    match config.find_server_by(ip) {
        None => {
            push_step(steps, DeployStep::MissingServer { ip: ip.clone() });
            assert(step_models(steps@) =~= before + expected);
            true
        },
        Some(server) => {
            push_step(steps, DeployStep::Announce { position, total });
            push_step(steps, DeployStep::CloseFlow { ip: ip.clone(), port });
            push_step(steps, DeployStep::AwaitZuulDown { ip: ip.clone(), port });
            match lookup_docker_service_config(docker_service_configs, ip.as_str(), port) {
                None => {
                    push_step(steps, DeployStep::MissingDockerConfig { ip: ip.clone(), port });
                    assert(step_models(steps@) =~= before + expected);
                    true
                },
                Some(service) => {
                    proof {
                        let i = choose|i: int|
                            first_server_with_ip(config.servers@, ip@, i) && *server
                                == config.servers@[i];
                        let i2 = choose|i: int| first_server_with_ip(config.servers@, ip@, i);
                        lemma_first_server_unique(config.servers@, ip@, i, i2);
                        let k = choose|k: int|
                            first_service_at(docker_service_configs@, ip@, port, k) && *service
                                == docker_service_configs@[k];
                        let k2 = choose|k: int|
                            first_service_at(docker_service_configs@, ip@, port, k);
                        lemma_first_service_unique(docker_service_configs@, ip@, port, k, k2);
                    }
                    let command = deploy_command(server, service);
                    push_step(
                        steps,
                        DeployStep::Deploy {
                            ip: ip.clone(),
                            port,
                            account: server.account.clone(),
                            password: server.password.clone(),
                            name: service.name.clone(),
                            command,
                        },
                    );
                    push_step(steps, DeployStep::AwaitNacos { ip: ip.clone(), port });
                    push_step(steps, DeployStep::OpenFlow { ip: ip.clone(), port });
                    push_step(steps, DeployStep::AwaitZuulUp { ip: ip.clone(), port });
                    assert(step_models(steps@) =~= before + expected);
                    false
                },
            }
        },
    }
}

/// The steps that redeploy the instances `hosts` one after the other, with the
/// servers of `config` and the containers `docker_service_configs`. The plan
/// stops at the first instance whose server or container is not known.
pub fn deploy_plan(
    config: &Config,
    docker_service_configs: &Vec<DockerComposeService>,
    hosts: &Vec<NacosInstanceHost>,
) -> (steps: Vec<DeployStep>)
    ensures
        step_models(steps@) == deploy_plan_model(config.servers@, docker_service_configs@, hosts@),
{
    let mut steps: Vec<DeployStep> = Vec::new();
    let total = hosts.len();
    let mut i: usize = 0;
    assert(step_models(steps@) =~= Seq::<StepModel>::empty());
    while i < total
        invariant
            i <= total == hosts@.len(),
            step_models(steps@) == plan_upto(
                config.servers@,
                docker_service_configs@,
                hosts@,
                i as int,
            ),
            !(step_models(steps@).len() > 0 && is_abort(step_models(steps@).last())),
        decreases total - i,
    {
        let ghost p = step_models(steps@);
        let aborted = push_host_steps(&mut steps, config, docker_service_configs, &hosts[i], i, total);
        i += 1;
        if aborted {
            proof {
                lemma_plan_stays(config.servers@, docker_service_configs@, hosts@, i as int);
            }
            return steps;
        }
    }
    steps
}

/// Once a plan has stopped, later instances add nothing to it.
proof fn lemma_plan_stays(
    servers: Seq<ConfigServer>,
    configs: Seq<DockerComposeService>,
    hosts: Seq<NacosInstanceHost>,
    n: int,
)
    requires
        0 < n <= hosts.len(),
        plan_upto(servers, configs, hosts, n).len() > 0,
        is_abort(plan_upto(servers, configs, hosts, n).last()),
    ensures
        plan_upto(servers, configs, hosts, hosts.len() as int) == plan_upto(
            servers,
            configs,
            hosts,
            n,
        ),
    decreases hosts.len() - n,
{
    if n < hosts.len() {
        lemma_plan_stays(servers, configs, hosts, n + 1);
    }
}

// ---------------------------------------------------------------------------
// What every plan keeps
// ---------------------------------------------------------------------------

/// The restart at position `k` is surrounded by the steps that protect it: the
/// instance's traffic is closed and the gateway has dropped it before, and
/// after it the instance's registration is awaited, its traffic re-opened and
/// the gateway's routing to it awaited.
pub open spec fn bracketed_at(plan: Seq<StepModel>, k: int) -> bool {
    let ip = plan[k]->Deploy_ip;
    let port = plan[k]->Deploy_port;
    &&& 2 <= k && k + 3 < plan.len()
    &&& plan[k - 2] == StepModel::CloseFlow { ip, port }
    &&& plan[k - 1] == StepModel::AwaitZuulDown { ip, port }
    &&& plan[k + 1] == StepModel::AwaitNacos { ip, port }
    &&& plan[k + 2] == StepModel::OpenFlow { ip, port }
    &&& plan[k + 3] == StepModel::AwaitZuulUp { ip, port }
}

pub open spec fn restarts_are_bracketed(plan: Seq<StepModel>) -> bool {
    forall|k: int| 0 <= k < plan.len() && (#[trigger] plan[k] is Deploy) ==> bracketed_at(plan, k)
}

/// A step that stops the deployment can only be the last one.
pub open spec fn stops_only_at_end(plan: Seq<StepModel>) -> bool {
    forall|k: int| 0 <= k < plan.len() - 1 ==> !is_abort(#[trigger] plan[k])
}

proof fn lemma_host_steps_shape(
    servers: Seq<ConfigServer>,
    configs: Seq<DockerComposeService>,
    host: NacosInstanceHost,
    position: nat,
    total: nat,
)
    ensures
        restarts_are_bracketed(host_steps(servers, configs, host, position, total)),
        stops_only_at_end(host_steps(servers, configs, host, position, total)),
        host_steps(servers, configs, host, position, total).len() > 0,
{
}

/// Every plan takes an instance out of traffic, and waits until the gateway
/// has dropped it, before restarting its container; after the restart it
/// waits for the instance to register, puts it back into traffic and waits
/// until the gateway routes to it. A plan stops only with its last step.
pub proof fn lemma_plan_shape(
    servers: Seq<ConfigServer>,
    configs: Seq<DockerComposeService>,
    hosts: Seq<NacosInstanceHost>,
    n: int,
)
    requires
        0 <= n <= hosts.len(),
    ensures
        restarts_are_bracketed(plan_upto(servers, configs, hosts, n)),
        stops_only_at_end(plan_upto(servers, configs, hosts, n)),
    decreases n,
{
    if n > 0 {
        lemma_plan_shape(servers, configs, hosts, n - 1);
        let p = plan_upto(servers, configs, hosts, n - 1);
        if !(p.len() > 0 && is_abort(p.last())) {
            let h = host_steps(servers, configs, hosts[n - 1], (n - 1) as nat, hosts.len());
            lemma_host_steps_shape(servers, configs, hosts[n - 1], (n - 1) as nat, hosts.len());
            let q = p + h;
            assert(plan_upto(servers, configs, hosts, n) == q);
            assert forall|k: int| 0 <= k < q.len() && (#[trigger] q[k] is Deploy) implies bracketed_at(
                q,
                k,
            ) by {
                if k < p.len() {
                    assert(q[k] == p[k]);
                    assert(bracketed_at(p, k));
                    assert(q[k - 2] == p[k - 2]);
                    assert(q[k - 1] == p[k - 1]);
                    assert(q[k + 1] == p[k + 1]);
                    assert(q[k + 2] == p[k + 2]);
                    assert(q[k + 3] == p[k + 3]);
                } else {
                    let m = k - p.len();
                    assert(q[k] == h[m]);
                    assert(bracketed_at(h, m));
                    assert(q[k - 2] == h[m - 2]);
                    assert(q[k - 1] == h[m - 1]);
                    assert(q[k + 1] == h[m + 1]);
                    assert(q[k + 2] == h[m + 2]);
                    assert(q[k + 3] == h[m + 3]);
                }
            }
            assert forall|k: int| 0 <= k < q.len() - 1 implies !is_abort(#[trigger] q[k]) by {
                if k < p.len() {
                    assert(q[k] == p[k]);
                    if k == p.len() - 1 {
                        assert(p[k] == p.last());
                    }
                } else {
                    assert(q[k] == h[k - p.len()]);
                }
            }
        }
    }
}

/// Every instance has a server and a container.
pub open spec fn all_known(
    servers: Seq<ConfigServer>,
    configs: Seq<DockerComposeService>,
    hosts: Seq<NacosInstanceHost>,
) -> bool {
    forall|i: int|
        0 <= i < hosts.len() ==> has_server_with_ip(servers, #[trigger] hosts[i].ip@)
            && has_service_at(configs, hosts[i].ip@, hosts[i].port)
}

/// Where the steps of the `i`-th instance start in a plan in which every
/// instance takes seven steps.
pub open spec fn steps_start(i: int) -> int {
    7 * i
}

/// When every instance's server and container are known, the plan handles
/// each instance, in order, with seven steps: it reports the instance, then
/// restarts it, and never stops early.
pub proof fn lemma_plan_complete(
    servers: Seq<ConfigServer>,
    configs: Seq<DockerComposeService>,
    hosts: Seq<NacosInstanceHost>,
    n: int,
)
    requires
        0 <= n <= hosts.len(),
        all_known(servers, configs, hosts),
    ensures
        plan_upto(servers, configs, hosts, n).len() == 7 * n,
        forall|i: int|
            0 <= i < n ==> #[trigger] plan_upto(servers, configs, hosts, n)[steps_start(i)]
                == (StepModel::Announce { position: i as nat, total: hosts.len() }),
        forall|i: int|
            0 <= i < n ==> plan_upto(servers, configs, hosts, n)[steps_start(i) + 3] == deploy_step(
                server_at(servers, #[trigger] hosts[i].ip@),
                service_at(configs, hosts[i].ip@, hosts[i].port),
                hosts[i].ip@,
                hosts[i].port,
            ),
    decreases n,
{
    if n > 0 {
        lemma_plan_complete(servers, configs, hosts, n - 1);
        let p = plan_upto(servers, configs, hosts, n - 1);
        assert(has_server_with_ip(servers, hosts[n - 1].ip@));
        if p.len() > 0 {
            let i = n - 2;
            assert(hosts[i].ip@ == hosts[i].ip@);
            assert(p[steps_start(i) + 3] is Deploy);
            lemma_plan_shape(servers, configs, hosts, n - 1);
            assert(bracketed_at(p, steps_start(i) + 3));
            assert(p.last() == p[steps_start(i) + 6]);
        }
        let h = host_steps(servers, configs, hosts[n - 1], (n - 1) as nat, hosts.len());
        let q = plan_upto(servers, configs, hosts, n);
        assert(q == p + h);
        assert forall|i: int| 0 <= i < n implies #[trigger] q[steps_start(i)] == (
        StepModel::Announce { position: i as nat, total: hosts.len() }) by {
            if i < n - 1 {
                assert(q[steps_start(i)] == p[steps_start(i)]);
            } else {
                assert(q[steps_start(i)] == h[0]);
            }
        }
        assert forall|i: int| 0 <= i < n implies q[steps_start(i) + 3] == deploy_step(
            server_at(servers, #[trigger] hosts[i].ip@),
            service_at(configs, hosts[i].ip@, hosts[i].port),
            hosts[i].ip@,
            hosts[i].port,
        ) by {
            if i < n - 1 {
                assert(q[steps_start(i) + 3] == p[steps_start(i) + 3]);
            } else {
                assert(q[steps_start(i) + 3] == h[3]);
            }
        }
    }
}

} // verus!
