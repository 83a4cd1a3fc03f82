# task_tracker

The logic of a student task tracker (a small web app over SQLite), written
in Verus with its behaviour stated in contracts and proved.

- `src/text.rs`: what trimming, lowercasing, substring search, string
  equality and order, and decimal rendering mean, over character sequences.
- `src/models.rs`: tasks, status and priority (with their text forms), the
  new-task form, the search query, the statistics and the per-subject tally.
- `src/validation.rs`: checking a new-task form.
- `src/errors.rs`: the errors an endpoint answers with and their HTTP status.
- `src/handlers.rs`: search and filtering, the completion history (newest
  first, stable), the statistics, and the decisions each endpoint takes
  around storage; with the laws that relate them.
- `app/`: the axum server, SQLite access through sqlx, JSON and the clock.
- `tests/`: tests of the library.
