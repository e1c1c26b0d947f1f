# DNSMASQ agent

A registry of DNS hosts that keeps a hosts file for dnsmasq up to date, and a helper that
registers running LXC instances with it.

- `src/` is the library: addresses, configuration, the table of registrations, the requests on
  it, the hosts file and its export, the page of the user interface, and the registration of LXC
  instances. Verus proves its contracts. What it takes for granted of std and of other crates
  stands in `src/outside.rs`, and one item in `src/text.rs`.
- `tests/` runs the library.
- `app/` holds the two programs: HTTP, SQLite, files, signals and child processes. The program
  runs as `lxc_dns_register` where it has that name, and as the agent otherwise.
