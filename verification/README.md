# portscanner

A TCP port scanner whose logic is a library verified with Verus.

- `src/` — the verified library:
  - `text.rs`: splitting at a separator, trimming white space, decimal text;
  - `ports.rs`: port lists such as `22,80-85,443`, with the laws that a port
    list written back out reads as the same list;
  - `cli.rs`: export formats, option defaults, the expansion of target lists
    (host names, addresses and CIDR networks, through `ipnet`);
  - `report.rs`: scan results (one entry per target) and the text and HTML
    reports and exports made of them;
  - `scan.rs`: progress messages, the concurrency bound, the stable ordering
    of a target's outcomes by port;
  - `form.rs`: the interactive form as a state machine from key events to
    the next form and step.
- `app/` — the program around it: command-line parsing, the asynchronous
  network scan, the terminal user interface and the writing of export files.
- `tests/` — tests of the library on concrete values.
