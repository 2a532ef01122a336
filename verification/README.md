# challenge_bot

A Discord bot that runs art and coding challenges: members suggest
challenges in a suggestion channel, moderators accept them, challenges run
until a deadline, and entries are marked with a medal reaction.

- `src/` is the verified library (Verus):
  - `database.rs`: challenges, submissions and the lookups and removal on them;
  - `submissions.rs`: marking and un-marking submissions, edited and deleted
    messages;
  - `challenges.rs`: reading suggestions, accepting them, starting and closing
    challenges;
  - `text.rs`: trimming, prefixes and decimal numbers on text.
- `app/` is the bot itself: the gateway, the commands, the events and the JSON
  database file. The channel and role ids come from the environment
  (`CHALLENGE_SUGGESTION_CHANNEL`, `CHALLENGE_DISCUSSION_CHANNEL`, `MODERATOR`,
  `EMBED_COLOR`), the bot token from `token`.
- `tests/` runs the library on concrete cases.
