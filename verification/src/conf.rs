//! The deployment configuration: the servers that run the containers and the
//! registry addresses, and the lookups the deployment does in it.
use vstd::prelude::*;

use crate::docker_compose_parser::{
    parsable, parse, parse_services, service_models, DockerComposeService, ServiceModel,
};
use crate::text::chars_of;

verus! {

/// The global configuration (`app-conf.yml`).
#[derive(Debug, PartialEq)]
pub struct Config {
    pub name: String,
    pub servers: Vec<ConfigServer>,
    pub nacos_url: String,
    pub zuul_url: String,
}

/// A server reachable over ssh that runs docker compose projects.
#[derive(Debug, PartialEq)]
pub struct ConfigServer {
    pub ip: String,
    pub account: String,
    pub password: String,
    pub docker_compose_path: String,
}

/// Position of the first server whose address is `ip`.
pub open spec fn first_server_with_ip(servers: Seq<ConfigServer>, ip: Seq<char>, i: int) -> bool {
    &&& 0 <= i < servers.len()
    &&& servers[i].ip@ == ip
    &&& forall|j: int| 0 <= j < i ==> #[trigger] servers[j].ip@ != ip
}

/// Some server has the address `ip`.
pub open spec fn has_server_with_ip(servers: Seq<ConfigServer>, ip: Seq<char>) -> bool {
    exists|i: int| 0 <= i < servers.len() && #[trigger] servers[i].ip@ == ip
}

impl Config {
    /// The first configured server whose address is `ip`. The configuration
    /// must hold one (a missing server aborts the deployment).
    pub fn get_server_by(&self, ip: &String) -> (r: &ConfigServer)
        requires
            has_server_with_ip(self.servers@, ip@),
        ensures
            exists|i: int| first_server_with_ip(self.servers@, ip@, i) && *r == self.servers@[i],
    {
        let mut i: usize = 0;
        while i < self.servers.len()
            invariant
                i <= self.servers@.len(),
                has_server_with_ip(self.servers@, ip@),
                forall|j: int| 0 <= j < i ==> #[trigger] self.servers@[j].ip@ != ip@,
            decreases self.servers@.len() - i,
        {
            if self.servers[i].ip == *ip {
                assert(first_server_with_ip(self.servers@, ip@, i as int));
                return &self.servers[i];
            }
            i += 1;
        }
        proof {
            let j = choose|j: int|
                0 <= j < self.servers@.len() && #[trigger] self.servers@[j].ip@ == ip@;
            assert(self.servers@[j].ip@ != ip@);
        }
        &self.servers[0]
    }

    /// The server with address `ip`, if the configuration has one.
    pub fn find_server_by(&self, ip: &String) -> (r: Option<&ConfigServer>)
        ensures
            r is None <==> !has_server_with_ip(self.servers@, ip@),
            r matches Some(s) ==> exists|i: int|
                first_server_with_ip(self.servers@, ip@, i) && *s == self.servers@[i],
    {
        let mut i: usize = 0;
        while i < self.servers.len()
            invariant
                i <= self.servers@.len(),
                forall|j: int| 0 <= j < i ==> #[trigger] self.servers@[j].ip@ != ip@,
            decreases self.servers@.len() - i,
        {
            if self.servers[i].ip == *ip {
                assert(first_server_with_ip(self.servers@, ip@, i as int));
                return Some(&self.servers[i]);
            }
            i += 1;
        }
        None
    }
}

/// The two texts hold the same characters.
pub fn same_text(a: &str, b: &str) -> (r: bool)
    ensures
        r == (a@ == b@),
{
    let x = chars_of(a);
    let y = chars_of(b);
    if x.len() != y.len() {
        return false;
    }
    let mut i: usize = 0;
    while i < x.len()
        invariant
            x@ == a@,
            y@ == b@,
            x@.len() == y@.len(),
            i <= x@.len(),
            forall|j: int| 0 <= j < i ==> x@[j] == y@[j],
        decreases x@.len() - i,
    {
        if x[i] != y[i] {
            assert(a@[i as int] != b@[i as int]);
            return false;
        }
        i += 1;
    }
    assert(x@ =~= y@);
    true
}

/// Position of the first service published at `ip`:`port`.
pub open spec fn first_service_at(
    configs: Seq<DockerComposeService>,
    ip: Seq<char>,
    port: i32,
    i: int,
) -> bool {
    &&& 0 <= i < configs.len()
    &&& configs[i].ip@ == ip && configs[i].port == port
    &&& forall|j: int|
        0 <= j < i ==> !(#[trigger] configs[j].ip@ == ip && configs[j].port == port)
}

/// Some service is published at `ip`:`port`.
pub open spec fn has_service_at(configs: Seq<DockerComposeService>, ip: Seq<char>, port: i32) -> bool {
    exists|i: int| 0 <= i < configs.len() && #[trigger] configs[i].ip@ == ip && configs[i].port == port
}

/// The first docker compose service published at `ip`:`port`. There must be
/// one (a missing one aborts the deployment).
pub fn find_docker_service_config<'a>(
    configs: &'a Vec<DockerComposeService>,
    ip: &str,
    port: i32,
) -> (r: &'a DockerComposeService)
    requires
        has_service_at(configs@, ip@, port),
    ensures
        exists|i: int| first_service_at(configs@, ip@, port, i) && *r == configs@[i],
{
    match lookup_docker_service_config(configs, ip, port) {
        Some(r) => r,
        None => &configs[0],
    }
}

/// The first docker compose service published at `ip`:`port`, if any.
pub fn lookup_docker_service_config<'a>(
    configs: &'a Vec<DockerComposeService>,
    ip: &str,
    port: i32,
) -> (r: Option<&'a DockerComposeService>)
    ensures
        r is None <==> !has_service_at(configs@, ip@, port),
        r matches Some(s) ==> exists|i: int| first_service_at(configs@, ip@, port, i) && *s == configs@[i],
{
    let mut i: usize = 0;
    while i < configs.len()
        invariant
            i <= configs@.len(),
            forall|j: int|
                0 <= j < i ==> !(#[trigger] configs@[j].ip@ == ip@ && configs@[j].port == port),
        decreases configs@.len() - i,
    {
        if configs[i].port == port && same_text(configs[i].ip.as_str(), ip) {
            assert(first_service_at(configs@, ip@, port, i as int));
            return Some(&configs[i]);
        }
        i += 1;
    }
    None
}

/// The services of the first `n` docker compose files of a server, each file
/// given by its name and content, in file order.
pub open spec fn files_services(files: Seq<(String, String)>, ip: Seq<char>, n: int) -> Seq<
    ServiceModel,
>
    decreases n,
{
    if n <= 0 {
        Seq::empty()
    } else {
        files_services(files, ip, n - 1) + parse_services(files[n - 1].1@, files[n - 1].0@, ip)
    }
}

/// Every file can be read.
pub open spec fn all_parsable(files: Seq<(String, String)>) -> bool {
    forall|j: int| 0 <= j < files.len() ==> parsable(#[trigger] files[j].1@)
}

/// The services of all the docker compose files of `server`, given as
/// (file name, content) pairs: the services of each file in turn.
pub fn collect_services(server: &ConfigServer, files: &Vec<(String, String)>) -> (r: Vec<
    DockerComposeService,
>)
    requires
        all_parsable(files@),
    ensures
        service_models(r@) == files_services(files@, server.ip@, files@.len() as int),
{
    let mut services: Vec<DockerComposeService> = Vec::new();
    let mut i: usize = 0;
    assert(service_models(services@) =~= Seq::<ServiceModel>::empty());
    while i < files.len()
        invariant
            i <= files@.len(),
            all_parsable(files@),
            service_models(services@) == files_services(files@, server.ip@, i as int),
        decreases files@.len() - i,
    {
        let (file, content) = &files[i];
        assert(parsable(files@[i as int].1@));
        if let Ok(found) = parse(content, file, server) {
            let ghost start = service_models(services@);
            let mut j: usize = 0;
            assert(service_models(found@).take(0) =~= Seq::<ServiceModel>::empty());
            assert(start + Seq::<ServiceModel>::empty() =~= start);
            while j < found.len()
                invariant
                    j <= found@.len(),
                    service_models(services@) == start + service_models(found@).take(j as int),
                decreases found@.len() - j,
            {
                let d = &found[j];
                let s = DockerComposeService::new(
                    d.name.clone(),
                    d.yml.clone(),
                    d.ip.clone(),
                    d.port,
                );
                let ghost before = services@;
                services.push(s);
                assert(service_models(services@) =~= service_models(before).push(s@));
                assert(start + service_models(found@).take(j + 1) =~= (start + service_models(
                    found@,
                ).take(j as int)).push(found@[j as int]@));
                j += 1;
            }
            assert(service_models(found@).take(j as int) =~= service_models(found@));
        }
        i += 1;
    }
    services
}

proof fn lemma_files_services_prefix(
    f: Seq<(String, String)>,
    g: Seq<(String, String)>,
    ip: Seq<char>,
    n: int,
)
    requires
        0 <= n <= f.len(),
        n <= g.len(),
        forall|j: int| 0 <= j < n ==> f[j] == g[j],
    ensures
        files_services(f, ip, n) == files_services(g, ip, n),
    decreases n,
{
    if n > 0 {
        lemma_files_services_prefix(f, g, ip, n - 1);
        assert(f[n - 1] == g[n - 1]);
    }
}

/// The services of one file are the services parsed from it.
pub proof fn lemma_collect_one(file: (String, String), ip: Seq<char>)
    ensures
        files_services(seq![file], ip, 1) == parse_services(file.1@, file.0@, ip),
{
    assert(files_services(seq![file], ip, 0) + parse_services(file.1@, file.0@, ip) =~= parse_services(
        file.1@,
        file.0@,
        ip,
    ));
}

/// Collecting the files of two lists one after the other gives the services of
/// the first list followed by those of the second, whatever the first held.
pub proof fn lemma_collect_append(a: Seq<(String, String)>, b: Seq<(String, String)>, ip: Seq<char>)
    ensures
        files_services(a + b, ip, (a + b).len() as int) == files_services(a, ip, a.len() as int)
            + files_services(b, ip, b.len() as int),
    decreases b.len(),
{
    if b.len() == 0 {
        assert(a + b =~= a);
        assert(files_services(a, ip, a.len() as int) + Seq::<ServiceModel>::empty() =~= files_services(
            a,
            ip,
            a.len() as int,
        ));
    } else {
        let c = b.drop_last();
        lemma_collect_append(a, c, ip);
        let n = (a + b).len() as int;
        assert forall|j: int| 0 <= j < n - 1 implies (a + b)[j] == (a + c)[j] by {}
        lemma_files_services_prefix(a + b, a + c, ip, n - 1);
        assert((a + c).len() == n - 1);
        assert forall|j: int| 0 <= j < c.len() implies b[j] == c[j] by {}
        lemma_files_services_prefix(b, c, ip, c.len() as int);
        assert((a + b)[n - 1] == b[b.len() - 1]);
        let fa = files_services(a, ip, a.len() as int);
        let fc = files_services(c, ip, c.len() as int);
        let last = parse_services(b[b.len() - 1].1@, b[b.len() - 1].0@, ip);
        assert(fa + fc + last =~= fa + (fc + last));
    }
}

} // verus!
