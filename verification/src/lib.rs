//! Deployment of docker compose services registered in Nacos and routed by
//! Zuul: the configuration, the reading of docker compose files, the registry
//! and gateway checks, and the plans that redeploy a service's instances one at
//! a time or a website's containers.
pub mod cmd_deploy_service;
pub mod cmd_deploy_web;
pub mod conf;
pub mod docker_compose_parser;
pub mod nacos_client;
pub mod ssh_client;
pub mod text;
pub mod zuul_client;
