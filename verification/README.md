# engcsbot

A Discord bot that keeps a club's weekly meeting schedule and announces
meetings: the day before from 9 o'clock, and in the hour before they start.

- `src/` is the verified core, written in Verus: the schedule and its
  suspensions (`manager`, `suspension`, `meeting`), the periodic decisions of
  the announcement and reset tasks (`manager`), time and weekday parsing and
  formatting (`clock`, `weekday`), the texts and embeds the bot posts
  (`messages`), and what each command decides (`commands`).
  Every public function carries a contract, and the laws that tie the
  functions together are stated as public proof functions.
- `app/` is the bot around it: the Discord client (serenity), the tokio tasks,
  local time (chrono), and saving and loading the JSON files.
- `tests/` runs the library on concrete values.

Run the bot with `DISCORD_TOKEN=token cargo run -r`. Commands marked for
administrators (`/announce`, `/schedule`, `/cancelday`, `/removemeeting`,
`/shutdown`) check the member's administrator permission first.
