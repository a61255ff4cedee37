# passmail

A password and disposable-mail toolkit whose logic is verified with Verus.

- `src/password.rs` draws passwords from the selected character classes by
  rejection sampling and builds passphrases from a syllable list; the
  contracts state the length, the pool, class coverage, the exclusion of
  ambiguous characters and the absence of repeats.
- `src/mailtm.rs` holds the logic of the mail client: the providers
  (mail.tm, then mail.gw), the step of going through them until one
  answers, which one an account belongs to, status
  messages that name the provider, domain choice, the retry rule for taken
  addresses, inbox summaries, HTML-to-text and one-time-code detection.
- `src/commands.rs` holds the decisions of the application's commands and
  inbox watcher: the active mailbox, which mail was already announced, and
  the text of announcements.
- `src/text.rs` has the character-level utilities, `src/random.rs` the
  draws from the operating system's generator and the exact functions that
  turn drawn positions into characters (a direct pick, and a partial
  Fisher-Yates shuffle), `src/wordlist.rs` the syllables.
- `app/` is the desktop shell: HTTP requests, timers, notifications, the
  floating-point strength estimate and the command wiring.
