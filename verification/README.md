# recommender

An alert recommendation service. The library (`src/`) holds what the service
decides and computes, each function with a contract proved by Verus:

- `config`: the URLs of the database service, the key-value store and the
  server.
- `models`: ratings and their scores, a user's ratings, users and the overlap
  of their preferences, and the choice of candidate alerts for a user.
- `store`: the layout of the key-value store (keys, the encodings of alerts
  and ratings, and their decoding) and the handle on it.
- `services`: the database's answers as plain records, and what is made of
  them: the users table with each user's overlaps and ratings, and the score
  tallies of alerts.
- `recommender`: cutting a ranking down to the number of alerts asked for.
- `strmap`, `text`: a string-keyed map, and decimal and boolean rendering,
  parsing and splitting of strings.

The program (`app/`) reads the configuration from the environment, talks to
the database over gRPC and to the store over the network, reads CSV files,
and does the floating-point arithmetic of relevance, similarity and ranking.
