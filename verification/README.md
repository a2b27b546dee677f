# dpdk_utest

A runner for DPDK unit tests on Mellanox hosts: it reads a test description and a
hosts file (YAML), prepares the hosts over SSH, starts testpmd, scapy or a shell on
them, sends each phase's commands and checks the applications' output.

- `src/` is the verified library (Verus): the YAML model, repetition patterns and
  output matching, the plan of each test phase, interface maps (devlink and
  `virtfn` parsing, translation of templates, storage in the hosts file), MST device
  listings, host setup and reset decisions, and the decisions of the SSH sessions.
  The `regex` crate is called through the trusted items of `src/pattern.rs`.
- `app/` is the program around it: command line (`clap`), logging (`log`), YAML files
  (`serde_yaml`), SSH (`ssh2`), threads and timing.
- `tests/` runs the library on concrete values.
