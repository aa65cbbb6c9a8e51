# drillbook

A question bank for past exam questions, with a quiz on top.

- `src/` is the verified library:
  - `text.rs`: trimming, prefix and substring search, decimal numbers,
    placeholder substitution and path joining on character sequences;
  - `parser.rs`: the plain-text question format (blocks, choices, answers,
    explanations, subject slugs and question ids);
  - `pipeline.rs`: checking an ingest configuration and building the
    year-by-subject matrix of files to download;
  - `downloader.rs`: download targets, their validation and the decision to
    keep or fetch each file;
  - `quiz.rs`: the start menu, the random pick of a question and the judging
    of an answer;
  - `models.rs`: the question record.
- `app/` is the program around it: the menu, reading and writing JSON files,
  HTTP downloads and the console quiz.
- `tests/` runs the library on concrete inputs.
