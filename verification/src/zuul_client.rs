//! The Zuul gateway: which instances of a service it routes to.
use vstd::prelude::*;

use crate::conf::Config;

verus! {

/// An instance the gateway routes to.
#[derive(Debug, PartialEq)]
pub struct ZuulServiceInstance {
    pub service_id: String,
    pub host: String,
    pub port: i32,
}

/// The gateway's listing shows the instance at `ip`:`port` as down.
pub open spec fn instance_down(instances: Seq<ZuulServiceInstance>, ip: Seq<char>, port: i32) -> bool {
    instances.len() == 0 || forall|i: int|
        0 <= i < instances.len() ==> !(#[trigger] instances[i].host@ == ip && instances[i].port
            == port)
}

/// The gateway routes to `ip`:`port`.
pub open spec fn routes_to(instances: Seq<ZuulServiceInstance>, ip: Seq<char>, port: i32) -> bool {
    exists|i: int|
        0 <= i < instances.len() && #[trigger] instances[i].host@ == ip && instances[i].port == port
}

fn find_instance(instances: &Vec<ZuulServiceInstance>, ip: &String, port: i32) -> (r: bool)
    ensures
        r == routes_to(instances@, ip@, port),
{
    let mut i: usize = 0;
    while i < instances.len()
        invariant
            i <= instances@.len(),
            forall|j: int|
                0 <= j < i ==> !(#[trigger] instances@[j].host@ == ip@ && instances@[j].port
                    == port),
        decreases instances@.len() - i,
    {
        let ins = &instances[i];
        if ins.host == *ip && ins.port == port {
            return true;
        }
        i += 1;
    }
    false
}

/// The gateway no longer routes to the instance at `ip`:`port`.
pub fn is_service_instance_down(
    instances: &Vec<ZuulServiceInstance>,
    ip: &String,
    port: i32,
) -> (r: bool)
    ensures
        r == instance_down(instances@, ip@, port),
{
    if instances.len() == 0 {
        return true;
    }
    !find_instance(instances, ip, port)
}

/// The gateway routes to the instance at `ip`:`port`.
pub fn is_service_instance_up(instances: &Vec<ZuulServiceInstance>, ip: &String, port: i32) -> (r:
    bool)
    ensures
        r == routes_to(instances@, ip@, port),
{
    if instances.len() == 0 {
        return false;
    }
    find_instance(instances, ip, port)
}

/// On one listing, an instance is down exactly when it is not up: the two
/// checks never agree.
pub proof fn lemma_down_iff_not_up(instances: Seq<ZuulServiceInstance>, ip: Seq<char>, port: i32)
    ensures
        instance_down(instances, ip, port) <==> !routes_to(instances, ip, port),
{
}

/// The address that lists the instances the gateway routes to for a service.
pub open spec fn instance_list_url_text(zuul_url: Seq<char>, service_name: Seq<char>) -> Seq<char> {
    zuul_url + "/nacos/instances?serviceId="@ + service_name
}

pub fn instance_list_url(service_name: &String, config: &Config) -> (r: String)
    ensures
        r@ == instance_list_url_text(config.zuul_url@, service_name@),
{
    let mut r = config.zuul_url.clone();
    r.append("/nacos/instances?serviceId=");
    r.append(service_name.as_str());
    r
}

} // verus!
