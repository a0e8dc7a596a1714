# coolify-qs

Backend of the Omarchy Quattro bar widget for Coolify deployments: it polls
the configured Coolify servers, aggregates their deployment state into one
JSON snapshot per change, opens deployment links in the browser, and sends a
desktop notification when a deployment finishes or fails.

## Layout

- `src/`: the library, written in Verus. Every function carries a contract
  that Verus proves: config validation (`config`), the API records, request
  paths and response handling (`api`), snapshot aggregation (`status`),
  transition detection and the wording of notifications (`notify`), the
  decisions of the watch loop (`watch`), URL vetting (`open`), and the text
  and ordering helpers they rest on (`text`, `order`, `address`). The few
  calls into std, reqwest and serde_json that Verus cannot read are wrapped
  in small `external_body` functions whose doc comments say what their
  contracts claim.
- `tests/`: scenario tests of the library.
- `app/`: the command-line program around the library: argument handling,
  reading the config file, HTTP, D-Bus notifications, the polling loop and
  JSON output.
