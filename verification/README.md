# plagiarism_detector

A paper plagiarism checker. A paper's text has its white space removed, is cut
into words with jieba, and loses its stop words; it is compared with every
other stored paper by the cosine of their tf-idf vectors, and the five most
similar papers are reported. When the request asks for it, the paper's
term-frequency table is then stored and its words are counted into the stored
feature names.

- `src/` is the verified library: white space and stop words (`text`), cutting
  (`segment`), word order and counting (`order`), term-frequency tables (`tf`),
  a paper's words and table (`paper`), the feature-name counts (`features`),
  the inputs of the tf-idf weights (`weights`), choosing and ranking the papers
  to report (`ranking`), and the steps and answers of a request (`check`):
  look up the id, score, then store the paper and count its words.
- `app/` is the web service around it: Rocket handlers, the SeaORM database,
  JSON, the floating-point tf-idf and cosine arithmetic, and the earlier
  version that kept its data in `data.json`.
- `tests/` runs the library on concrete inputs.
