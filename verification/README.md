# cidrwall

cidrwall reads newline-delimited CIDR lists and enforces them with nftables, XDP, or both. This
crate is its verified core: everything that decides what is accepted, what is sent to the kernel,
and when, is a Verus function with a contract.

- `blocklist`, `layout`, `address`, `dyadic`, `bits` read lists, join adjacent entries, group them
  into bounded chunks, and decompose intervals into the smallest set of prefixes.
- `zones`, `config`, `rules` resolve mappings of lists to zones into firewall rules.
- `batch` turns rules and lists into kernel transactions of bounded size; `rollout` stages a list in
  sets of a new generation, checks them, and points the rules at them; `policy` says what those
  transactions do to packets, and proves that staging is invisible and that a packet is dropped
  exactly where a configured mapping covers it.
- `wire` handles netlink messages as bytes; `netlink` is what a backend is asked to do.
- `watch`, `daemon` and `session` decide when lists are loaded, reloaded and put back in force, and
  when the program ends.
- `control`, `packet`, `xdp`, `reload`, `links` are the XDP side: the filter program's view of a
  frame, staging a list into the slot that is not in force, and keeping programs attached.
- `text` holds the few facts about text that the others need.

`app/` is the program around it: command line, files, sockets, the kernel interfaces, and the XDP
program. It performs the actions that the library decides on and hands the results back.
