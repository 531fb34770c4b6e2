//! Redeployment of a website: every container whose name mentions the website
//! and that serves on a port in the website range 8000..9000 (8000 included,
//! 9000 not) is restarted on its server.
use vstd::prelude::*;

use crate::cmd_deploy_service::{
    deploy_command, deploy_step, is_abort, push_step, server_at, step_models, DeployStep,
    StepModel,
};
use crate::conf::{first_server_with_ip, has_server_with_ip, Config, ConfigServer};
use crate::docker_compose_parser::DockerComposeService;
use crate::text::{chars_of, contains, contains_exec, lemma_contains_iff_split};

verus! {

/// Website containers serve on ports from the first (included) up to the
/// second (excluded).
pub const WEBSITE_PORT_LOW: i32 = 8000;

pub const WEBSITE_PORT_HIGH: i32 = 9000;

/// The container belongs to the website `website_name`.
pub open spec fn is_website_service(service: DockerComposeService, website_name: Seq<char>) -> bool {
    &&& contains(service.name@, website_name)
    &&& WEBSITE_PORT_LOW <= service.port < WEBSITE_PORT_HIGH
}

pub fn is_website_service_exec(service: &DockerComposeService, website_name: &String) -> (b: bool)
    ensures
        b == is_website_service(*service, website_name@),
{
    let name = chars_of(service.name.as_str());
    let site = chars_of(website_name.as_str());
    contains_exec(&name, &site) && WEBSITE_PORT_LOW <= service.port && service.port
        < WEBSITE_PORT_HIGH
}

/// The steps for the first `n` containers of `configs`: a restart for each
/// container of the website, stopping at the first whose server is unknown.
pub open spec fn web_plan_upto(
    servers: Seq<ConfigServer>,
    configs: Seq<DockerComposeService>,
    website_name: Seq<char>,
    n: int,
) -> Seq<StepModel>
    decreases n,
{
    if n <= 0 {
        Seq::empty()
    } else {
        let p = web_plan_upto(servers, configs, website_name, n - 1);
        let c = configs[n - 1];
        if (p.len() > 0 && is_abort(p.last())) || !is_website_service(c, website_name) {
            p
        } else if !has_server_with_ip(servers, c.ip@) {
            p.push(StepModel::MissingServer { ip: c.ip@ })
        } else {
            p.push(deploy_step(server_at(servers, c.ip@), c, c.ip@, c.port))
        }
    }
}

/// The plan that redeploys the website `website_name`.
pub open spec fn web_plan_model(
    servers: Seq<ConfigServer>,
    configs: Seq<DockerComposeService>,
    website_name: Seq<char>,
) -> Seq<StepModel> {
    web_plan_upto(servers, configs, website_name, configs.len() as int)
}

/// The steps that restart the containers of the website `website_name`, in the
/// order of `docker_service_configs`, on the servers of `config`. Each is a
/// `Deploy` step; the plan stops at a container whose server is not known.
pub fn web_plan(
    config: &Config,
    docker_service_configs: &Vec<DockerComposeService>,
    website_name: &String,
) -> (steps: Vec<DeployStep>)
    ensures
        step_models(steps@) == web_plan_model(
            config.servers@,
            docker_service_configs@,
            website_name@,
        ),
{
    let mut steps: Vec<DeployStep> = Vec::new();
    let n = docker_service_configs.len();
    let mut i: usize = 0;
    assert(step_models(steps@) =~= Seq::<StepModel>::empty());
    while i < n
        invariant
            i <= n == docker_service_configs@.len(),
            step_models(steps@) == web_plan_upto(
                config.servers@,
                docker_service_configs@,
                website_name@,
                i as int,
            ),
            !(step_models(steps@).len() > 0 && is_abort(step_models(steps@).last())),
        decreases n - i,
    {
        let ele = &docker_service_configs[i];
        if is_website_service_exec(ele, website_name) {
            match config.find_server_by(&ele.ip) {
                None => {
                    push_step(&mut steps, DeployStep::MissingServer { ip: ele.ip.clone() });
                    i += 1;
                    proof {
                        lemma_web_plan_stays(
                            config.servers@,
                            docker_service_configs@,
                            website_name@,
                            i as int,
                        );
                    }
                    return steps;
                },
                Some(server) => {
                    proof {
                        let k = choose|k: int|
                            first_server_with_ip(config.servers@, ele.ip@, k) && *server
                                == config.servers@[k];
                        let k2 = choose|k: int| first_server_with_ip(config.servers@, ele.ip@, k);
                        crate::cmd_deploy_service::lemma_first_server_unique(
                            config.servers@,
                            ele.ip@,
                            k,
                            k2,
                        );
                    }
                    let command = deploy_command(server, ele);
                    push_step(
                        &mut steps,
                        DeployStep::Deploy {
                            ip: ele.ip.clone(),
                            port: ele.port,
                            account: server.account.clone(),
                            password: server.password.clone(),
                            name: ele.name.clone(),
                            command,
                        },
                    );
                },
            }
        }
        i += 1;
    }
    steps
}

/// Once the website plan has stopped, later containers add nothing to it.
proof fn lemma_web_plan_stays(
    servers: Seq<ConfigServer>,
    configs: Seq<DockerComposeService>,
    website_name: Seq<char>,
    n: int,
)
    requires
        0 < n <= configs.len(),
        web_plan_upto(servers, configs, website_name, n).len() > 0,
        is_abort(web_plan_upto(servers, configs, website_name, n).last()),
    ensures
        web_plan_upto(servers, configs, website_name, configs.len() as int) == web_plan_upto(
            servers,
            configs,
            website_name,
            n,
        ),
    decreases configs.len() - n,
{
    if n < configs.len() {
        lemma_web_plan_stays(servers, configs, website_name, n + 1);
    }
}

/// Every restart in a website plan is of a container of that website, on a
/// port in 8000..9000, run on the server of the container's address;
/// and a plan stops only with its last step.
pub proof fn lemma_web_plan_only_website(
    servers: Seq<ConfigServer>,
    configs: Seq<DockerComposeService>,
    website_name: Seq<char>,
    n: int,
)
    requires
        0 <= n <= configs.len(),
    ensures
        forall|k: int|
            0 <= k < web_plan_upto(servers, configs, website_name, n).len() ==> exists|i: int|
                0 <= i < n && is_website_service(configs[i], website_name) && (#[trigger] web_plan_upto(
                    servers,
                    configs,
                    website_name,
                    n,
                )[k] == deploy_step(
                    server_at(servers, configs[i].ip@),
                    configs[i],
                    configs[i].ip@,
                    configs[i].port,
                ) || web_plan_upto(servers, configs, website_name, n)[k] == (StepModel::MissingServer {
                    ip: configs[i].ip@,
                })),
        forall|k: int|
            0 <= k < web_plan_upto(servers, configs, website_name, n).len() - 1 ==> !is_abort(
                #[trigger] web_plan_upto(servers, configs, website_name, n)[k],
            ),
    decreases n,
{
    if n > 0 {
        lemma_web_plan_only_website(servers, configs, website_name, n - 1);
        let p = web_plan_upto(servers, configs, website_name, n - 1);
        let q = web_plan_upto(servers, configs, website_name, n);
        assert forall|k: int| 0 <= k < q.len() implies exists|i: int|
            0 <= i < n && is_website_service(configs[i], website_name) && (#[trigger] q[k]
                == deploy_step(
                server_at(servers, configs[i].ip@),
                configs[i],
                configs[i].ip@,
                configs[i].port,
            ) || q[k] == (StepModel::MissingServer { ip: configs[i].ip@ })) by {
            if k < p.len() {
                assert(q[k] == p[k]);
                let i = choose|i: int|
                    0 <= i < n - 1 && is_website_service(configs[i], website_name) && (#[trigger] p[k]
                        == deploy_step(
                        server_at(servers, configs[i].ip@),
                        configs[i],
                        configs[i].ip@,
                        configs[i].port,
                    ) || p[k] == (StepModel::MissingServer { ip: configs[i].ip@ }));
                assert(0 <= i < n);
            } else {
                assert(q[k] == q.last());
                assert(0 <= n - 1 < n);
            }
        }
        assert forall|k: int| 0 <= k < q.len() - 1 implies !is_abort(#[trigger] q[k]) by {
            assert(q[k] == p[k]);
            if k == p.len() - 1 {
                assert(p[k] == p.last());
            }
        }
    }
}

/// A container belongs to a website exactly when the website's name stands
/// anywhere in the container's name (at its start, middle or end) and its port
/// is in 8000..9000.
pub proof fn lemma_website_service_iff(service: DockerComposeService, website_name: Seq<char>)
    ensures
        is_website_service(service, website_name) <==> ((exists|a: Seq<char>, b: Seq<char>|
            #[trigger] (a + website_name + b) == service.name@) && 8000 <= service.port < 9000),
{
    lemma_contains_iff_split(service.name@, website_name);
}

/// The number of containers among the first `n` of `configs` that belong to
/// the website.
pub open spec fn website_count(
    configs: Seq<DockerComposeService>,
    website_name: Seq<char>,
    n: int,
) -> nat
    decreases n,
{
    if n <= 0 {
        0
    } else {
        website_count(configs, website_name, n - 1) + if is_website_service(
            configs[n - 1],
            website_name,
        ) {
            1nat
        } else {
            0nat
        }
    }
}

/// The servers of the website's containers among the first `n` are all known.
pub open spec fn website_servers_known(
    servers: Seq<ConfigServer>,
    configs: Seq<DockerComposeService>,
    website_name: Seq<char>,
    n: int,
) -> bool {
    forall|k: int|
        0 <= k < n && is_website_service(#[trigger] configs[k], website_name) ==> has_server_with_ip(
            servers,
            configs[k].ip@,
        )
}

proof fn lemma_web_plan_grows(
    servers: Seq<ConfigServer>,
    configs: Seq<DockerComposeService>,
    website_name: Seq<char>,
    n: int,
    m: int,
)
    requires
        0 <= n <= m,
    ensures
        web_plan_upto(servers, configs, website_name, n).len() <= web_plan_upto(
            servers,
            configs,
            website_name,
            m,
        ).len(),
        forall|k: int|
            0 <= k < web_plan_upto(servers, configs, website_name, n).len() ==> web_plan_upto(
                servers,
                configs,
                website_name,
                m,
            )[k] == #[trigger] web_plan_upto(servers, configs, website_name, n)[k],
    decreases m - n,
{
    if n < m {
        lemma_web_plan_grows(servers, configs, website_name, n, m - 1);
    }
}

proof fn lemma_web_plan_known(
    servers: Seq<ConfigServer>,
    configs: Seq<DockerComposeService>,
    website_name: Seq<char>,
    n: int,
)
    requires
        0 <= n <= configs.len(),
        website_servers_known(servers, configs, website_name, n),
    ensures
        web_plan_upto(servers, configs, website_name, n).len() == website_count(
            configs,
            website_name,
            n,
        ),
        forall|k: int|
            0 <= k < web_plan_upto(servers, configs, website_name, n).len() ==> !is_abort(
                #[trigger] web_plan_upto(servers, configs, website_name, n)[k],
            ),
    decreases n,
{
    if n > 0 {
        lemma_web_plan_known(servers, configs, website_name, n - 1);
        let p = web_plan_upto(servers, configs, website_name, n - 1);
        if p.len() > 0 {
            assert(!is_abort(p[p.len() - 1]));
        }
        let q = web_plan_upto(servers, configs, website_name, n);
        assert forall|k: int| 0 <= k < q.len() implies !is_abort(#[trigger] q[k]) by {
            if k < p.len() {
                assert(q[k] == p[k]);
            }
        }
    }
}

/// Every container of the website is restarted on its server, provided no
/// container of the website before it (nor itself) has an unknown server.
pub proof fn lemma_web_plan_complete(
    servers: Seq<ConfigServer>,
    configs: Seq<DockerComposeService>,
    website_name: Seq<char>,
    i: int,
)
    requires
        0 <= i < configs.len(),
        is_website_service(configs[i], website_name),
        website_servers_known(servers, configs, website_name, i + 1),
    ensures
        web_plan_model(servers, configs, website_name).contains(
            deploy_step(
                server_at(servers, configs[i].ip@),
                configs[i],
                configs[i].ip@,
                configs[i].port,
            ),
        ),
{
    lemma_web_plan_known(servers, configs, website_name, i);
    let p = web_plan_upto(servers, configs, website_name, i);
    if p.len() > 0 {
        assert(!is_abort(p[p.len() - 1]));
    }
    let q = web_plan_upto(servers, configs, website_name, i + 1);
    let idx = p.len() as int;
    assert(q[idx] == deploy_step(
        server_at(servers, configs[i].ip@),
        configs[i],
        configs[i].ip@,
        configs[i].port,
    ));
    lemma_web_plan_grows(servers, configs, website_name, i + 1, configs.len() as int);
    let all = web_plan_model(servers, configs, website_name);
    assert(all[idx] == q[idx]);
}

/// When every container of the website has a known server, the plan holds
/// exactly one step for each of them.
pub proof fn lemma_web_plan_size(
    servers: Seq<ConfigServer>,
    configs: Seq<DockerComposeService>,
    website_name: Seq<char>,
)
    requires
        website_servers_known(servers, configs, website_name, configs.len() as int),
    ensures
        web_plan_model(servers, configs, website_name).len() == website_count(
            configs,
            website_name,
            configs.len() as int,
        ),
{
    lemma_web_plan_known(servers, configs, website_name, configs.len() as int);
}

} // verus!
