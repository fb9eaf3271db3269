# Whimbrel

A minimal rv64gc unikernel for the QEMU `virt` machine, booted by OpenSBI:
Sv39 paging, one hart, one address space, user tasks over a small syscall
interface, and a virtio-net device with ARP, IPv4, ICMP, UDP and a TCP
listener.

The kernel's logic is a Verus library whose behaviour is stated in
contracts and proved:

| Module | What is proved |
|---|---|
| `checksum`, `wire` | the one's-complement sum, its fold, and that a stored checksum verifies |
| `ipv4`, `icmp`, `udp`, `arp` | each parser's verdict for every input, each writer's bytes, and that what is written parses back |
| `tcp` | the listener as a state machine: handshake, duplicate SYN, drops |
| `frame` | the frame allocator's accounting and LIFO reuse |
| `heap` | first fit, coalescing, and that the heap is split between free and live bytes, so freeing everything leaves one block |
| `page` | Sv39 tables: `map` then `walk` gives the mapping, other walks are unchanged, and the built kernel map passes every probe |
| `task`, `uaccess`, `trap`, `syscall` | the round-robin scheduler, user-pointer checks, trap classification and syscall dispatch |
| `sbi`, `timer`, `phase`, `virtio`, `net`, `virtq` | firmware calls, ticks, boot phase timing, device discovery and queue layout |

`app/` is the boot glue that Verus does not see: entry and trap assembly,
CSR, SBI and MMIO access, and the boot sequence that hands hardware values
to the library. `tests/` runs the library on concrete inputs.
