# aceai_dp_cli

A command line tool that redeploys docker compose services registered in a
Nacos registry and routed by a Zuul gateway.

- `src/` is the verified library: the configuration lookups, the reading of
  docker compose files, the registry and gateway checks, the commands and
  addresses sent to the servers, and the plans of a rolling redeployment
  (one instance at a time: close its traffic, wait for the gateway, restart
  the container over ssh, wait for the registry, reopen its traffic, wait for
  the gateway) and of a website redeployment. `src/text.rs` models the string
  operations these rely on.
- `app/` is the program around it: command line, configuration files, HTTP
  requests, ssh sessions, progress display and waiting, each performing the
  steps the library plans.
- `tests/` runs the library on concrete inputs.
