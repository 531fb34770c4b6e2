//! The Nacos service registry: what an instance listing holds, the addresses
//! of its endpoints, and whether an instance is registered.
use vstd::prelude::*;

use crate::conf::Config;
use crate::text::{decimal, decimal_string};

verus! {

/// A service as the registry lists it.
#[derive(Debug, PartialEq)]
pub struct NacosInstance {
    pub name: String,
    pub group_name: String,
    pub hosts: Vec<NacosInstanceHost>,
}

/// One registered instance of a service. (The registry also reports the
/// instance's traffic weight, a floating point number that no decision here
/// reads; it is kept where the listing is received.)
#[derive(Debug, PartialEq)]
pub struct NacosInstanceHost {
    pub instance_id: String,
    pub ip: String,
    pub port: i32,
    pub healthy: bool,
    pub enabled: bool,
}

/// The registry lists an instance at `ip`:`port`.
pub open spec fn lists_instance(hosts: Seq<NacosInstanceHost>, ip: Seq<char>, port: i32) -> bool {
    exists|i: int| 0 <= i < hosts.len() && #[trigger] hosts[i].ip@ == ip && hosts[i].port == port
}

/// Whether the service has an instance registered at `ip`:`port`.
pub fn is_exist_service_instance(service: &NacosInstance, ip: &String, port: i32) -> (r: bool)
    ensures
        r == lists_instance(service.hosts@, ip@, port),
{
    if service.hosts.len() == 0 {
        return false;
    }
    let mut i: usize = 0;
    while i < service.hosts.len()
        invariant
            i <= service.hosts@.len(),
            forall|j: int|
                0 <= j < i ==> !(#[trigger] service.hosts@[j].ip@ == ip@ && service.hosts@[j].port
                    == port),
        decreases service.hosts@.len() - i,
    {
        let host = &service.hosts[i];
        if host.ip == *ip && host.port == port {
            return true;
        }
        i += 1;
    }
    false
}

/// The address that lists the instances of a service.
pub open spec fn instance_list_url_text(nacos_url: Seq<char>, service_name: Seq<char>) -> Seq<char> {
    nacos_url + "/nacos/v1/ns/instance/list?serviceName="@ + service_name
}

pub fn instance_list_url(service_name: &String, config: &Config) -> (r: String)
    ensures
        r@ == instance_list_url_text(config.nacos_url@, service_name@),
{
    let mut r = config.nacos_url.clone();
    r.append("/nacos/v1/ns/instance/list?serviceName=");
    r.append(service_name.as_str());
    r
}

/// The address that sets the traffic weight of the instance at `ip`:`port`
/// to `weight` (the weight's decimal text).
pub open spec fn weight_update_url_text(
    nacos_url: Seq<char>,
    service_name: Seq<char>,
    ip: Seq<char>,
    port: i32,
    weight: Seq<char>,
) -> Seq<char> {
    nacos_url + "/nacos/v1/ns/instance?serviceName="@ + service_name + "&ip="@ + ip + "&port="@
        + decimal(port as int) + "&weight="@ + weight
}

pub fn weight_update_url(
    service_name: &String,
    ip: &String,
    port: i32,
    weight: &str,
    config: &Config,
) -> (r: String)
    ensures
        r@ == weight_update_url_text(config.nacos_url@, service_name@, ip@, port, weight@),
{
    let mut r = config.nacos_url.clone();
    r.append("/nacos/v1/ns/instance?serviceName=");
    r.append(service_name.as_str());
    r.append("&ip=");
    r.append(ip.as_str());
    r.append("&port=");
    let p = decimal_string(port);
    r.append(p.as_str());
    r.append("&weight=");
    r.append(weight);
    r
}

} // verus!
