# libtw2

Verified pieces of the Teeworlds tooling, written in Verus.

- `src/packer.rs` — the variable-length integer format of the protocol:
  reading (with its warnings) and writing, and the proof that a read gives
  back what was written.
- `src/format.rs` — snapshot item keys and the snapshot and delta headers,
  with the key and header round-trip laws.
- `src/addr.rs`, `src/protocol.rs`, `src/json.rs` — server addresses and
  their order, server descriptions as received, and their published form
  (UTF-8 checked, byte capacities enforced).
- `src/tracker_json.rs` — the tracker: location lookup by IPv4 network, the
  table of known servers, the published server list (sorted, each address
  once) and the publishing schedule.
- `src/dissector.rs` — the Wireshark plugin's warning counter, GUID layout
  and ABI version check.

`app/` holds what is not verified: CSV and JSON I/O, the publishing thread,
the `warn` and `uuid` glue of the plugin.
