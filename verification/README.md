# commandbot

Chat bots for Matrix rooms: an admin bot (reboot, TeamSpeak 3 server
control) for a list of trusted users, custom bots whose named commands run
shell programs with the caller's arguments, and a dice bot that rolls single
dice and dice terms such as `2d6+3-1d4`.

- `src/` is the library, verified with Verus: every decision (who may do
  what, which command line to run, what to answer, what a dice term is worth
  for given rolls) is a function over plain values with a contract.
  - `text`: splitting, searching and replacing in character sequences.
  - `number`: reading and writing decimal integers.
  - `shell`: command lines as values, and the answer to a command's output.
  - `admin`, `cbot`, `command_bot`, `dice`: the bots.
- `app/` is the program: it reads `bots.json`, logs the bots in to their
  homeservers, runs the shell commands the library asks for, and sends the
  answers.
- `tests/` runs the library on concrete messages, terms and rolls.
