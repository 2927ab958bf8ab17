# brocade-agent

The agent of a node: it asks a control plane what the machine should run, brings the
machine there, and reports what it finds.

`src/` is the agent's logic, verified with Verus. Every function states what it returns;
what the library promises as a whole stands in public proof functions beside the code they
speak of. It touches neither files nor sockets nor clocks: it takes what was read and says
what is to be done.

- Text, numbers and documents: `text`, `numbers`, `bytes`, `json`, `address`, `order`,
  `paths`, `shell`.
- What the control plane asks for and is told: `plan`, `policy`, `reports`, `spool`,
  `usage`, `http`, `routes`.
- Putting it in force: `apply`, `converge`, `hotswap`, `grants`, `phantun`, `conntrack`,
  `hy2_port_hop`, `ports`, `xray`, `certfile`, `selfupdate`, `logcap`.
- Without the control plane: `reconcile`, `health`, `workload`, `wg`.
- Measuring: `load`, `window`, `procfs`, `nettables`, `disks`, `hostinfo`, `processes`,
  `inetdiag`, `echo`, `probe`, `realtime`, `schedule`.
- The command line and its commands: `options`, `commands`, `command`.

`tests/` runs the library on concrete values. `app/` is the program around it: files,
sockets, threads, serialised forms, and percentages.
