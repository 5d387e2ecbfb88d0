# usage-monitor

A desktop widget and tray icon that shows a coding assistant's plan quota
(5-hour and weekly windows, model-scoped weekly limits, reset times), today's
token usage with an equivalent cost, live session activity, and the next
subscription renewal date. It also works as the assistant's status-line
command, printing `⚡ 5h · 7d · <model limits> · ctx` on every render.

## Layout

- `src/` — the verified library (Verus):
  - `statusline.rs`: context-window usage from a session transcript, the
    status-line text, and the rules for registering, removing and reporting
    this program's status-line command in the assistant's settings.
  - `quota.rs`: usage windows, model-scoped limits, reset-time
    normalisation, freshness of the cached quota, the quota source and the
    429 backoff of the poll, fetch errors, the OAuth token and version parsing.
  - `usage.rs`: the daily token tally and pricing classes.
  - `activity.rs`: burn-rate window sums, the per-minute sparkline, activity.
  - `renewal.rs`: the next billing date for a billing day-of-month.
  - `placement.rs`: pinned-corner origins and the nearest corner of a window.
  - `icon.rs`: the RGBA canvas and the bitmap digits of the tray icon.
  - `config.rs`: the configuration values checked on load.
  - `text.rs`: character-level helpers.
- `tests/` — tests of the library.
- `app/` — the program around the library: files, network, tray and window.

## Environment

- `USAGE_MONITOR_ASSISTANT`: the assistant's command name; it also names its
  configuration directory (`~/.<name>`), the User-Agent product
  (`<name>-code/<version>`), on macOS its Keychain entry, and this program
  (`<name>-usage-monitor`: its configuration directory and the marker of its
  registered status-line command). Unset, the program is `usage-monitor`.
- `CLAUDE_CONFIG_DIR`: the assistant's configuration directory, when set.
- `CLAUDE_CODE_OAUTH_TOKEN`: an OAuth token that overrides the stored one.
