# guildbot

A Discord community bot whose decisions and text formats are verified with
Verus.

- `src/` is the verified library: decimal numerals (`decimal`), the Leet
  timestamp reply (`leet`), the owner list (`owners`), off-topic channel
  planning and ordering (`offtopic`), TeamSpeak presence and announcements
  (`teamspeak`), the server-query commands (`query`), link rewriting and
  webhook choice (`twitter`, on top of the `regex` wrappers in `pattern`),
  gateway event routing (`events`) and character helpers (`text`).
- `app/` is the bot itself: the poise commands, the serenity gateway, the
  TeamSpeak query connection and the environment, calling the library for
  every decision.
- `tests/` runs the library on concrete inputs.
