# needre

A Linux EDR daemon that reports executions from monitored directory
prefixes, with the process tree that led to them.

- `src/` is the verified library: the config-file parser (`config`), the
  kernel event records and their byte layout (`event`), the process table,
  the process-tree walk and the trace format (`process`), and the
  character-level text handling they share (`text`).
- `app/` is the daemon: it loads the tracepoint programs with aya, reads the
  ring buffer with tokio, and writes detections to
  `/var/log/needre/needre_detect.log`.
- `tests/` runs the library on concrete inputs.

The two tracepoint programs run in the kernel and are built for the BPF
target, which this crate does not build; the daemon loads their object from
the path that `NEEDRE_EBPF_OBJECT` names, else `/usr/lib/needre/needre.bpf.o`.
`event::exec_event`, `event::fork_event` and `ProcessEvent::to_record`
specify the records those programs write.
