# nets

A terminal network dashboard: listening ports with their owning processes,
devices on the local network, filtering, scrolling and a ping window.

- `src/` is the verified library (Verus):
  - `text.rs`: whitespace, line and word splitting, trimming, substring search,
    decimal and hexadecimal numerals, port-number parsing;
  - `ipaddr.rs`: IP address text (writing and reading), with the round-trip laws;
  - `ports.rs`: port records from socket-table entries and their owning processes;
  - `scanner.rs`: ARP-table parsing and the device list;
  - `tables.rs`: the port filter, table rows, scroll clamping, header texts;
  - `dashboard.rs`: the key-press state machine and its laws.
- `app/` is the program around it: command line, reading `/proc`, host-name
  lookups, the terminal event loop and drawing.
- `tests/` runs the library on concrete values.
